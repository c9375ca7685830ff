//! Comparing the package list of this machine with that of another one.
//!
//! A package that only the remote machine has is a candidate to install, one
//! that only this machine has a candidate to remove, and one that both have in
//! different versions a candidate to upgrade.
use crate::order::{
    lemma_filter_map_has, lemma_filter_none, lemma_stably_sorted_contains, lemma_text_lt_asymmetric,
    lemma_text_lt_total, lemma_text_lt_transitive, sort_stably, stably_sorted, text_before, text_le,
    text_lt, tied, ties, Ordered,
};
use crate::package::{Package, PackageView};
use crate::text::{lemma_views_push, same_text, views};
use vstd::hash_map::StringHashMap;
use vstd::prelude::*;

verus! {

/// How a package differs between the two machines, with the versions at hand.
#[derive(Debug, Clone, PartialEq, Eq)]
pub enum DiffKind {
    /// On the remote machine only.
    Missing { remote_version: String },
    /// On this machine only.
    Extra { local_version: String },
    /// On both machines, in different versions.
    VersionSkew { local_version: String, remote_version: String },
}

/// What a `DiffKind` stands for.
pub enum DiffKindView {
    Missing { remote_version: Seq<char> },
    Extra { local_version: Seq<char> },
    VersionSkew { local_version: Seq<char>, remote_version: Seq<char> },
}

impl View for DiffKind {
    type V = DiffKindView;

    open spec fn view(&self) -> DiffKindView {
        match self {
            DiffKind::Missing { remote_version } => DiffKindView::Missing {
                remote_version: remote_version@,
            },
            DiffKind::Extra { local_version } => DiffKindView::Extra {
                local_version: local_version@,
            },
            DiffKind::VersionSkew { local_version, remote_version } => DiffKindView::VersionSkew {
                local_version: local_version@,
                remote_version: remote_version@,
            },
        }
    }
}

/// What can be done about a difference.
#[derive(Debug, Clone, Copy, PartialEq, Eq, Structural)]
pub enum Category {
    Install,
    Remove,
    Upgrade,
}

impl DiffKindView {
    /// The category of a difference.
    pub open spec fn category(self) -> Category {
        match self {
            DiffKindView::Missing { .. } => Category::Install,
            DiffKindView::Extra { .. } => Category::Remove,
            DiffKindView::VersionSkew { .. } => Category::Upgrade,
        }
    }
}

impl DiffKind {
    /// The category of a difference.
    pub fn category(&self) -> (r: Category)
        ensures
            r == self@.category(),
    {
        match self {
            DiffKind::Missing { .. } => Category::Install,
            DiffKind::Extra { .. } => Category::Remove,
            DiffKind::VersionSkew { .. } => Category::Upgrade,
        }
    }
}

/// One package that differs between the two machines.
#[derive(Debug, Clone, PartialEq, Eq)]
pub struct DiffEntry {
    pub name: String,
    pub kind: DiffKind,
}

/// What a `DiffEntry` stands for.
pub struct DiffEntryView {
    pub name: Seq<char>,
    pub kind: DiffKindView,
}

impl View for DiffEntry {
    type V = DiffEntryView;

    open spec fn view(&self) -> DiffEntryView {
        DiffEntryView { name: self.name@, kind: self.kind@ }
    }
}

/// Entries are ordered by the names of their packages.
impl Ordered for DiffEntry {
    open spec fn le(a: DiffEntryView, b: DiffEntryView) -> bool {
        text_le(a.name, b.name)
    }

    proof fn le_reflexive(a: DiffEntryView) {
    }

    proof fn le_transitive(a: DiffEntryView, b: DiffEntryView, c: DiffEntryView) {
        if a.name != b.name && b.name != c.name {
            lemma_text_lt_transitive(a.name, b.name, c.name);
        }
    }

    proof fn le_total(a: DiffEntryView, b: DiffEntryView) {
        lemma_text_lt_total(a.name, b.name);
    }

    fn may_precede(&self, other: &Self) -> (r: bool) {
        proof {
            lemma_text_lt_total(self.name@, other.name@);
            if text_lt(other.name@, self.name@) {
                lemma_text_lt_asymmetric(other.name@, self.name@);
            }
        }
        !text_before(other.name.as_str(), self.name.as_str())
    }
}

/// The version that a list gives to a name: that of the last package so named.
pub open spec fn version_of(list: Seq<PackageView>, name: Seq<char>) -> Option<Seq<char>>
    decreases list.len(),
{
    if list.len() == 0 {
        None
    } else if list.last().name == name {
        Some(list.last().version)
    } else {
        version_of(list.drop_last(), name)
    }
}

/// What differs about a package of the remote machine.
pub open spec fn remote_difference(local: Seq<PackageView>, p: PackageView) -> Option<
    DiffEntryView,
> {
    match version_of(local, p.name) {
        None => Some(
            DiffEntryView {
                name: p.name,
                kind: DiffKindView::Missing { remote_version: p.version },
            },
        ),
        Some(version) => if version != p.version {
            Some(
                DiffEntryView {
                    name: p.name,
                    kind: DiffKindView::VersionSkew {
                        local_version: version,
                        remote_version: p.version,
                    },
                },
            )
        } else {
            None
        },
    }
}

/// What differs about a package of this machine that the remote one lacks.
pub open spec fn local_difference(remote: Seq<PackageView>, p: PackageView) -> Option<
    DiffEntryView,
> {
    if version_of(remote, p.name) is None {
        Some(DiffEntryView { name: p.name, kind: DiffKindView::Extra { local_version: p.version } })
    } else {
        None
    }
}

/// All differences: those of the remote packages in their order, then those of
/// the local packages in theirs.
pub open spec fn differences(local: Seq<PackageView>, remote: Seq<PackageView>) -> Seq<
    DiffEntryView,
> {
    remote.filter_map(|p: PackageView| remote_difference(local, p)) + local.filter_map(
        |p: PackageView| local_difference(remote, p),
    )
}

/// `map` says of `name` what `list` says of it.
spec fn agrees(map: Map<Seq<char>, String>, list: Seq<PackageView>, name: Seq<char>) -> bool {
    match version_of(list, name) {
        Some(version) => map.contains_key(name) && map[name]@ == version,
        None => !map.contains_key(name),
    }
}

/// `map` holds the version that `list` gives to each name.
spec fn indexes(map: Map<Seq<char>, String>, list: Seq<PackageView>) -> bool {
    forall|name: Seq<char>| #[trigger] agrees(map, list, name)
}

/// Maps each name of a list to its version.
fn index_versions(list: &[Package]) -> (r: StringHashMap<String>)
    ensures
        indexes(r@, views(list@)),
{
    let ghost all = views(list@);
    let mut map: StringHashMap<String> = StringHashMap::new();
    let mut i: usize = 0;
    while i < list.len()
        invariant
            i <= list@.len(),
            all == views(list@),
            indexes(map@, all.take(i as int)),
        decreases list@.len() - i,
    {
        let p = &list[i];
        let ghost before = map@;
        proof {
            assert(all.take(i + 1).drop_last() =~= all.take(i as int));
            assert(all.take(i + 1).last() == p@);
        }
        map.insert(p.name.clone(), p.version.clone());
        proof {
            assert forall|name: Seq<char>| #[trigger] agrees(map@, all.take(i + 1), name) by {
                assert(agrees(before, all.take(i as int), name));
            }
        }
        i = i + 1;
    }
    proof {
        assert(all.take(i as int) =~= all);
    }
    map
}

/// What `local` differs in from `remote`, sorted by package name. Packages
/// that both machines have in the same version give no entry.
pub fn diff(local: &[Package], remote: &[Package]) -> (r: Vec<DiffEntry>)
    ensures
        stably_sorted::<DiffEntry>(differences(views(local@), views(remote@)), views(r@)),
{
    let ghost here = views(local@);
    let ghost there = views(remote@);
    let ghost f = |p: PackageView| remote_difference(here, p);
    let ghost g = |p: PackageView| local_difference(there, p);
    let local_versions = index_versions(local);
    let remote_versions = index_versions(remote);
    let mut entries: Vec<DiffEntry> = Vec::new();
    let mut i: usize = 0;
    proof {
        assert(views(entries@) =~= there.take(0).filter_map(f));
    }
    while i < remote.len()
        invariant
            i <= remote@.len(),
            here == views(local@),
            there == views(remote@),
            f == (|p: PackageView| remote_difference(here, p)),
            indexes(local_versions@, here),
            views(entries@) == there.take(i as int).filter_map(f),
        decreases remote@.len() - i,
    {
        let p = &remote[i];
        proof {
            assert(there[i as int] == p@);
            there.lemma_filter_map_take_succ(f, i as int);
            assert(agrees(local_versions@, here, p.name@));
        }
        let ghost before = entries@;
        match local_versions.get(p.name.as_str()) {
            None => {
                let entry = DiffEntry {
                    name: p.name.clone(),
                    kind: DiffKind::Missing { remote_version: p.version.clone() },
                };
                proof {
                    lemma_views_push(before, entry);
                    assert(f(p@) == Some(entry@));
                    assert(views(before) + seq![entry@] =~= views(before).push(entry@));
                }
                entries.push(entry);
            },
            Some(version) => {
                if !same_text(version.as_str(), p.version.as_str()) {
                    let entry = DiffEntry {
                        name: p.name.clone(),
                        kind: DiffKind::VersionSkew {
                            local_version: version.clone(),
                            remote_version: p.version.clone(),
                        },
                    };
                    proof {
                        lemma_views_push(before, entry);
                        assert(f(p@) == Some(entry@));
                        assert(views(before) + seq![entry@] =~= views(before).push(entry@));
                    }
                    entries.push(entry);
                } else {
                    proof {
                        assert(f(p@) is None);
                        assert(views(before) + Seq::<DiffEntryView>::empty() =~= views(before));
                    }
                }
            },
        }
        i = i + 1;
    }
    let ghost from_remote = there.filter_map(f);
    proof {
        assert(there.take(i as int) =~= there);
        assert(from_remote + here.take(0).filter_map(g) =~= from_remote);
    }
    let mut j: usize = 0;
    while j < local.len()
        invariant
            j <= local@.len(),
            here == views(local@),
            there == views(remote@),
            g == (|p: PackageView| local_difference(there, p)),
            indexes(remote_versions@, there),
            views(entries@) == from_remote + here.take(j as int).filter_map(g),
        decreases local@.len() - j,
    {
        let p = &local[j];
        proof {
            assert(here[j as int] == p@);
            here.lemma_filter_map_take_succ(g, j as int);
            assert(agrees(remote_versions@, there, p.name@));
        }
        let ghost before = entries@;
        if !remote_versions.contains_key(p.name.as_str()) {
            let entry = DiffEntry {
                name: p.name.clone(),
                kind: DiffKind::Extra { local_version: p.version.clone() },
            };
            proof {
                lemma_views_push(before, entry);
                assert(g(p@) == Some(entry@));
                assert(from_remote + (here.take(j as int).filter_map(g) + seq![entry@])
                    =~= views(before).push(entry@));
            }
            entries.push(entry);
        } else {
            proof {
                assert(g(p@) is None);
                assert(here.take(j as int).filter_map(g) + Seq::<DiffEntryView>::empty()
                    =~= here.take(j as int).filter_map(g));
            }
        }
        j = j + 1;
    }
    proof {
        assert(here.take(j as int) =~= here);
    }
    sort_stably(&mut entries);
    entries
}

// --- laws --------------------------------------------------------------------
/// A package of that name is in the list.
pub open spec fn has_name(list: Seq<PackageView>, name: Seq<char>) -> bool {
    exists|i: int| 0 <= i < list.len() && (#[trigger] list[i]).name == name
}

/// No two packages of the list share a name.
pub open spec fn names_are_unique(list: Seq<PackageView>) -> bool {
    forall|i: int, j: int|
        0 <= i < j < list.len() ==> (#[trigger] list[i]).name != (#[trigger] list[j]).name
}

/// All packages of the list that share a name share its version.
pub open spec fn is_consistent(list: Seq<PackageView>) -> bool {
    forall|i: int, j: int|
        0 <= i < list.len() && 0 <= j < list.len() && (#[trigger] list[i]).name == (
        #[trigger] list[j]).name ==> list[i].version == list[j].version
}

/// The entry states a difference between the two lists.
pub open spec fn is_difference(
    local: Seq<PackageView>,
    remote: Seq<PackageView>,
    e: DiffEntryView,
) -> bool {
    match e.kind {
        DiffKindView::Missing { remote_version } => {
            &&& remote.contains(PackageView { name: e.name, version: remote_version })
            &&& !has_name(local, e.name)
        },
        DiffKindView::Extra { local_version } => {
            &&& local.contains(PackageView { name: e.name, version: local_version })
            &&& !has_name(remote, e.name)
        },
        DiffKindView::VersionSkew { local_version, remote_version } => {
            &&& version_of(local, e.name) == Some(local_version)
            &&& remote.contains(PackageView { name: e.name, version: remote_version })
            &&& local_version != remote_version
        },
    }
}

/// A list gives a version to exactly the names it has, and it is the version
/// of one of the packages so named.
pub proof fn lemma_version_of(list: Seq<PackageView>, name: Seq<char>)
    ensures
        version_of(list, name) is Some <==> has_name(list, name),
        version_of(list, name) matches Some(version) ==> list.contains(
            PackageView { name, version },
        ),
    decreases list.len(),
{
    if list.len() > 0 {
        let rest = list.drop_last();
        lemma_version_of(rest, name);
        if list.last().name == name {
            assert(list[list.len() - 1].name == name);
            assert(list[list.len() - 1] == (PackageView { name, version: list.last().version }));
        } else {
            if has_name(rest, name) {
                let i = choose|i: int| 0 <= i < rest.len() && (#[trigger] rest[i]).name == name;
                assert(list[i].name == name);
                let p = PackageView { name, version: version_of(rest, name)->0 };
                let k = choose|k: int| 0 <= k < rest.len() && rest[k] == p;
                assert(list[k] == p);
            }
            if has_name(list, name) {
                let i = choose|i: int| 0 <= i < list.len() && (#[trigger] list[i]).name == name;
                assert(rest[i].name == name);
            }
        }
    }
}

/// The given package's version is the one that a consistent list gives to its
/// name.
pub proof fn lemma_version_in_consistent_list(list: Seq<PackageView>, p: PackageView)
    requires
        is_consistent(list),
        list.contains(p),
    ensures
        version_of(list, p.name) == Some(p.version),
{
    lemma_version_of(list, p.name);
    let i = choose|i: int| 0 <= i < list.len() && list[i] == p;
    assert(list[i].name == p.name);
    assert(has_name(list, p.name));
    let q = PackageView { name: p.name, version: version_of(list, p.name)->0 };
    let j = choose|j: int| 0 <= j < list.len() && list[j] == q;
    assert(list[i].name == list[j].name);
}

/// The differences, before sorting, are exactly the entries that state one.
proof fn lemma_differences_are_exact(
    local: Seq<PackageView>,
    remote: Seq<PackageView>,
    e: DiffEntryView,
)
    ensures
        differences(local, remote).contains(e) <==> is_difference(local, remote, e),
{
    let f = |p: PackageView| remote_difference(local, p);
    let g = |p: PackageView| local_difference(remote, p);
    let x = remote.filter_map(f);
    let y = local.filter_map(g);
    lemma_version_of(local, e.name);
    lemma_version_of(remote, e.name);
    if differences(local, remote).contains(e) {
        let i = choose|i: int| 0 <= i < (x + y).len() && (x + y)[i] == e;
        if i < x.len() {
            assert(x[i] == e);
            assert(x.contains(e));
            remote.lemma_filter_map_contains(f, e);
        } else {
            assert(y[i - x.len()] == e);
            assert(y.contains(e));
            local.lemma_filter_map_contains(g, e);
        }
    }
    if is_difference(local, remote, e) {
        match e.kind {
            DiffKindView::Missing { remote_version } => {
                let p = PackageView { name: e.name, version: remote_version };
                let i = choose|i: int| 0 <= i < remote.len() && remote[i] == p;
                lemma_filter_map_has(remote, f, i);
                let k = choose|k: int| 0 <= k < x.len() && x[k] == e;
                assert((x + y)[k] == e);
            },
            DiffKindView::Extra { local_version } => {
                let p = PackageView { name: e.name, version: local_version };
                let i = choose|i: int| 0 <= i < local.len() && local[i] == p;
                lemma_filter_map_has(local, g, i);
                let k = choose|k: int| 0 <= k < y.len() && y[k] == e;
                assert((x + y)[x.len() + k] == e);
            },
            DiffKindView::VersionSkew { local_version, remote_version } => {
                let p = PackageView { name: e.name, version: remote_version };
                let i = choose|i: int| 0 <= i < remote.len() && remote[i] == p;
                lemma_filter_map_has(remote, f, i);
                let k = choose|k: int| 0 <= k < x.len() && x[k] == e;
                assert((x + y)[k] == e);
            },
        }
    }
}

/// A diff holds exactly the entries that state a difference: to install what
/// only the remote machine has, to remove what only this one has, to upgrade
/// what both have in different versions.
pub proof fn law_diff_is_exact(
    local: Seq<PackageView>,
    remote: Seq<PackageView>,
    r: Seq<DiffEntryView>,
    e: DiffEntryView,
)
    requires
        stably_sorted::<DiffEntry>(differences(local, remote), r),
    ensures
        r.contains(e) <==> is_difference(local, remote, e),
{
    lemma_differences_are_exact(local, remote, e);
    lemma_stably_sorted_contains::<DiffEntry>(differences(local, remote), r, e);
}

/// A consistent list does not differ from itself.
pub proof fn law_identical_lists_have_no_diff(list: Seq<PackageView>, r: Seq<DiffEntryView>)
    requires
        is_consistent(list),
        stably_sorted::<DiffEntry>(differences(list, list), r),
    ensures
        r.len() == 0,
{
    if r.len() > 0 {
        let e = r[0];
        assert(r.contains(e));
        law_diff_is_exact(list, list, r, e);
        match e.kind {
            DiffKindView::Missing { remote_version } => {
                let p = PackageView { name: e.name, version: remote_version };
                let i = choose|i: int| 0 <= i < list.len() && list[i] == p;
                assert(list[i].name == e.name);
            },
            DiffKindView::Extra { local_version } => {
                let p = PackageView { name: e.name, version: local_version };
                let i = choose|i: int| 0 <= i < list.len() && list[i] == p;
                assert(list[i].name == e.name);
            },
            DiffKindView::VersionSkew { local_version, remote_version } => {
                let p = PackageView { name: e.name, version: remote_version };
                lemma_version_in_consistent_list(list, p);
            },
        }
    }
}

/// Two consistent lists have no diff exactly where they give every name the
/// same version.
pub proof fn law_no_diff_means_in_sync(
    local: Seq<PackageView>,
    remote: Seq<PackageView>,
    r: Seq<DiffEntryView>,
)
    requires
        is_consistent(local),
        is_consistent(remote),
        stably_sorted::<DiffEntry>(differences(local, remote), r),
    ensures
        r.len() == 0 <==> forall|name: Seq<char>| #[trigger]
            version_of(local, name) == version_of(remote, name),
{
    if r.len() == 0 {
        assert forall|name: Seq<char>| #[trigger]
            version_of(local, name) == version_of(remote, name) by {
            lemma_version_of(local, name);
            lemma_version_of(remote, name);
            let kind = match (version_of(local, name), version_of(remote, name)) {
                (None, Some(remote_version)) => DiffKindView::Missing { remote_version },
                (Some(local_version), None) => DiffKindView::Extra { local_version },
                (Some(local_version), Some(remote_version)) => DiffKindView::VersionSkew {
                    local_version,
                    remote_version,
                },
                (None, None) => DiffKindView::Extra { local_version: name },
            };
            law_diff_is_exact(local, remote, r, DiffEntryView { name, kind });
        }
    }
    if (forall|name: Seq<char>| #[trigger]
        version_of(local, name) == version_of(remote, name)) && r.len() > 0 {
        let e = r[0];
        assert(r.contains(e));
        law_diff_is_exact(local, remote, r, e);
        lemma_version_of(local, e.name);
        lemma_version_of(remote, e.name);
        assert(version_of(local, e.name) == version_of(remote, e.name));
        match e.kind {
            DiffKindView::Missing { remote_version } => {
                lemma_version_in_consistent_list(
                    remote,
                    PackageView { name: e.name, version: remote_version },
                );
            },
            DiffKindView::Extra { local_version } => {
                lemma_version_in_consistent_list(
                    local,
                    PackageView { name: e.name, version: local_version },
                );
            },
            DiffKindView::VersionSkew { local_version, remote_version } => {
                lemma_version_in_consistent_list(
                    remote,
                    PackageView { name: e.name, version: remote_version },
                );
            },
        }
    }
}

/// No two entries share a name.
spec fn entry_names_are_unique(s: Seq<DiffEntryView>) -> bool {
    forall|i: int, j: int|
        0 <= i < j < s.len() ==> (#[trigger] s[i]).name != (#[trigger] s[j]).name
}

/// A filtering map that keeps names turns unique names into unique names.
proof fn lemma_filter_map_unique(
    list: Seq<PackageView>,
    f: spec_fn(PackageView) -> Option<DiffEntryView>,
)
    requires
        names_are_unique(list),
        forall|p: PackageView| #![trigger f(p)] f(p) is Some ==> f(p)->0.name == p.name,
    ensures
        entry_names_are_unique(list.filter_map(f)),
    decreases list.len(),
{
    if list.len() > 0 {
        let rest = list.drop_last();
        assert forall|i: int, j: int| 0 <= i < j < rest.len() implies (#[trigger] rest[i]).name != (
        #[trigger] rest[j]).name by {
            assert(list[i].name != list[j].name);
        }
        lemma_filter_map_unique(rest, f);
        let kept = rest.filter_map(f);
        let out = list.filter_map(f);
        if f(list.last()) is Some {
            assert forall|i: int, j: int| 0 <= i < j < out.len() implies (#[trigger] out[i]).name
                != (#[trigger] out[j]).name by {
                assert(out[i] == kept[i]);
                if j < kept.len() {
                    assert(out[j] == kept[j]);
                } else {
                    assert(kept.contains(kept[i]));
                    rest.lemma_filter_map_contains(f, kept[i]);
                    let p = choose|p: PackageView| #[trigger]
                        rest.contains(p) && f(p) == Some(kept[i]);
                    let k = choose|k: int| 0 <= k < rest.len() && rest[k] == p;
                    assert(list[k].name != list[list.len() - 1].name);
                }
            }
        }
    }
}

/// Lists without repeated names have differences without repeated names.
proof fn lemma_differences_unique(local: Seq<PackageView>, remote: Seq<PackageView>)
    requires
        names_are_unique(local),
        names_are_unique(remote),
    ensures
        entry_names_are_unique(differences(local, remote)),
{
    let f = |p: PackageView| remote_difference(local, p);
    let g = |p: PackageView| local_difference(remote, p);
    let x = remote.filter_map(f);
    let y = local.filter_map(g);
    lemma_filter_map_unique(remote, f);
    lemma_filter_map_unique(local, g);
    assert forall|i: int, j: int| 0 <= i < j < (x + y).len() implies (#[trigger] (x + y)[i]).name
        != (#[trigger] (x + y)[j]).name by {
        if i < x.len() && j >= x.len() {
            let a = x[i];
            let b = y[j - x.len()];
            assert(x.contains(a));
            remote.lemma_filter_map_contains(f, a);
            let p = choose|p: PackageView| #[trigger] remote.contains(p) && f(p) == Some(a);
            let k = choose|k: int| 0 <= k < remote.len() && remote[k] == p;
            assert(remote[k].name == a.name);
            assert(y.contains(b));
            local.lemma_filter_map_contains(g, b);
            lemma_version_of(remote, b.name);
            assert(has_name(remote, a.name));
        } else if i >= x.len() {
            assert(y[i - x.len()].name != y[j - x.len()].name);
        } else {
            assert(x[i].name != x[j].name);
        }
    }
}

/// Where two elements pass a filter, at least two elements are kept.
proof fn lemma_filter_keeps_two<A>(s: Seq<A>, p: spec_fn(A) -> bool, i: int, j: int)
    requires
        0 <= i < j < s.len(),
        p(s[i]),
        p(s[j]),
    ensures
        s.filter(p).len() >= 2,
{
    let a = s.take(j);
    let b = s.skip(j);
    assert(s =~= a + b);
    Seq::filter_distributes_over_add(a, b, p);
    a.lemma_filter_contains(p, i);
    assert(b[0] == s[j]);
    b.lemma_filter_contains(p, 0);
}

/// Where no two entries share a name, at most one is tied with any entry.
proof fn lemma_ties_of_unique(s: Seq<DiffEntryView>, k: DiffEntryView)
    requires
        entry_names_are_unique(s),
    ensures
        ties::<DiffEntry>(s, k).len() <= 1,
    decreases s.len(),
{
    let p = |x: DiffEntryView| tied::<DiffEntry>(x, k);
    reveal(Seq::filter);
    if s.len() > 0 {
        let rest = s.drop_last();
        assert forall|i: int, j: int| 0 <= i < j < rest.len() implies (#[trigger] rest[i]).name != (
        #[trigger] rest[j]).name by {
            assert(s[i].name != s[j].name);
        }
        lemma_ties_of_unique(rest, k);
        if p(s.last()) {
            lemma_tied_names(s.last(), k);
            assert forall|i: int| 0 <= i < rest.len() implies !p(#[trigger] rest[i]) by {
                assert(s[i].name != s[s.len() - 1].name);
                if p(rest[i]) {
                    lemma_tied_names(rest[i], k);
                }
            }
            lemma_filter_none(rest, p);
        }
    }
}

/// Entries are tied exactly where they share a name.
proof fn lemma_tied_names(a: DiffEntryView, b: DiffEntryView)
    ensures
        tied::<DiffEntry>(a, b) <==> a.name == b.name,
{
    if a.name != b.name && tied::<DiffEntry>(a, b) {
        lemma_text_lt_asymmetric(a.name, b.name);
    }
}

/// The names go strictly upwards.
pub open spec fn names_ascend(s: Seq<DiffEntryView>) -> bool {
    forall|i: int, j: int|
        0 <= i < j < s.len() ==> text_lt((#[trigger] s[i]).name, (#[trigger] s[j]).name)
}

/// A diff of lists without repeated names goes strictly upwards by name, so no
/// package has two entries.
pub proof fn law_diff_names_ascend(
    local: Seq<PackageView>,
    remote: Seq<PackageView>,
    r: Seq<DiffEntryView>,
)
    requires
        names_are_unique(local),
        names_are_unique(remote),
        stably_sorted::<DiffEntry>(differences(local, remote), r),
    ensures
        names_ascend(r),
{
    let d = differences(local, remote);
    lemma_differences_unique(local, remote);
    assert forall|i: int, j: int| 0 <= i < j < r.len() implies text_lt(
        (#[trigger] r[i]).name,
        (#[trigger] r[j]).name,
    ) by {
        assert(DiffEntry::le(r[i], r[j]));
        if r[i].name == r[j].name {
            let k = r[i];
            lemma_tied_names(r[i], k);
            lemma_tied_names(r[j], k);
            lemma_filter_keeps_two(r, |x: DiffEntryView| tied::<DiffEntry>(x, k), i, j);
            lemma_ties_of_unique(d, k);
            assert(ties::<DiffEntry>(r, k) == ties::<DiffEntry>(d, k));
        }
    }
}

/// Two ascending sequences of the same entries are equal.
proof fn lemma_ascending_unique(a: Seq<DiffEntryView>, b: Seq<DiffEntryView>)
    requires
        names_ascend(a),
        names_ascend(b),
        forall|e: DiffEntryView| #[trigger] a.contains(e) <==> b.contains(e),
    ensures
        a == b,
    decreases a.len(),
{
    if a.len() == 0 {
        if b.len() > 0 {
            assert(b.contains(b[0]));
            assert(a.contains(b[0]));
        }
        assert(a =~= b);
    } else {
        assert(a.contains(a[0]));
        let i = choose|i: int| 0 <= i < b.len() && b[i] == a[0];
        assert(b.contains(b[0]));
        assert(a.contains(b[0]));
        let j = choose|j: int| 0 <= j < a.len() && a[j] == b[0];
        if i > 0 && j > 0 {
            assert(text_lt(b[0].name, b[i].name));
            assert(text_lt(a[0].name, a[j].name));
            lemma_text_lt_asymmetric(a[0].name, b[0].name);
        }
        assert(a[0] == b[0]);
        let x = a.drop_first();
        let y = b.drop_first();
        assert forall|e: DiffEntryView| #[trigger] x.contains(e) <==> y.contains(e) by {
            if x.contains(e) {
                let k = choose|k: int| 0 <= k < x.len() && x[k] == e;
                assert(a[k + 1] == e);
                assert(a.contains(e));
                let m = choose|m: int| 0 <= m < b.len() && b[m] == e;
                assert(text_lt(a[0].name, a[k + 1].name));
                lemma_text_lt_asymmetric(a[0].name, a[k + 1].name);
                assert(y[m - 1] == e);
            }
            if y.contains(e) {
                let k = choose|k: int| 0 <= k < y.len() && y[k] == e;
                assert(b[k + 1] == e);
                assert(b.contains(e));
                assert(a.contains(e));
                let m = choose|m: int| 0 <= m < a.len() && a[m] == e;
                assert(text_lt(b[0].name, b[k + 1].name));
                lemma_text_lt_asymmetric(b[0].name, b[k + 1].name);
                assert(x[m - 1] == e);
            }
        }
        assert forall|m: int, n: int| 0 <= m < n < x.len() implies text_lt(
            (#[trigger] x[m]).name,
            (#[trigger] x[n]).name,
        ) by {
            assert(text_lt(a[m + 1].name, a[n + 1].name));
        }
        assert forall|m: int, n: int| 0 <= m < n < y.len() implies text_lt(
            (#[trigger] y[m]).name,
            (#[trigger] y[n]).name,
        ) by {
            assert(text_lt(b[m + 1].name, b[n + 1].name));
        }
        lemma_ascending_unique(x, y);
        assert(a =~= seq![a[0]] + x);
        assert(b =~= seq![b[0]] + y);
    }
}

/// The entry as the other machine sees it.
pub open spec fn mirrored(e: DiffEntryView) -> DiffEntryView {
    DiffEntryView {
        name: e.name,
        kind: match e.kind {
            DiffKindView::Missing { remote_version } => DiffKindView::Extra {
                local_version: remote_version,
            },
            DiffKindView::Extra { local_version } => DiffKindView::Missing {
                remote_version: local_version,
            },
            DiffKindView::VersionSkew { local_version, remote_version } => DiffKindView::VersionSkew {
                local_version: remote_version,
                remote_version: local_version,
            },
        },
    }
}

/// Lists without repeated names are consistent.
proof fn lemma_unique_is_consistent(list: Seq<PackageView>)
    requires
        names_are_unique(list),
    ensures
        is_consistent(list),
{
    assert forall|i: int, j: int|
        0 <= i < list.len() && 0 <= j < list.len() && (#[trigger] list[i]).name == (
        #[trigger] list[j]).name implies list[i].version == list[j].version by {
        if i < j {
            assert(list[i].name != list[j].name);
        } else if j < i {
            assert(list[j].name != list[i].name);
        }
    }
}

/// A mirrored entry states a difference of the swapped lists.
proof fn lemma_mirrored_difference(
    local: Seq<PackageView>,
    remote: Seq<PackageView>,
    e: DiffEntryView,
)
    requires
        is_consistent(local),
        is_consistent(remote),
        is_difference(local, remote, e),
    ensures
        is_difference(remote, local, mirrored(e)),
{
    if let DiffKindView::VersionSkew { local_version, remote_version } = e.kind {
        lemma_version_of(local, e.name);
        lemma_version_in_consistent_list(
            remote,
            PackageView { name: e.name, version: remote_version },
        );
    }
}

/// Comparing in the other direction mirrors the diff: what one machine would
/// install the other would remove, and an upgrade has its versions swapped.
/// Both lists are without repeated names.
pub proof fn law_swapping_machines_mirrors_the_diff(
    local: Seq<PackageView>,
    remote: Seq<PackageView>,
    there: Seq<DiffEntryView>,
    back: Seq<DiffEntryView>,
)
    requires
        names_are_unique(local),
        names_are_unique(remote),
        stably_sorted::<DiffEntry>(differences(local, remote), there),
        stably_sorted::<DiffEntry>(differences(remote, local), back),
    ensures
        back == there.map_values(|e: DiffEntryView| mirrored(e)),
{
    let m = there.map_values(|e: DiffEntryView| mirrored(e));
    lemma_unique_is_consistent(local);
    lemma_unique_is_consistent(remote);
    law_diff_names_ascend(local, remote, there);
    law_diff_names_ascend(remote, local, back);
    assert forall|i: int, j: int| 0 <= i < j < m.len() implies text_lt(
        (#[trigger] m[i]).name,
        (#[trigger] m[j]).name,
    ) by {
        assert(text_lt(there[i].name, there[j].name));
    }
    assert forall|e: DiffEntryView| #[trigger] back.contains(e) <==> m.contains(e) by {
        let o = mirrored(e);
        law_diff_is_exact(remote, local, back, e);
        law_diff_is_exact(local, remote, there, o);
        assert(mirrored(o) == e);
        if back.contains(e) {
            lemma_mirrored_difference(remote, local, e);
            let i = choose|i: int| 0 <= i < there.len() && there[i] == o;
            assert(m[i] == e);
        }
        if m.contains(e) {
            let i = choose|i: int| 0 <= i < m.len() && m[i] == e;
            assert(there[i] == o);
            assert(there.contains(o));
            lemma_mirrored_difference(local, remote, o);
        }
    }
    lemma_ascending_unique(back, m);
}

/// Installing every missing package and removing every extra one leaves this
/// machine with exactly the package names of the remote one.
pub proof fn law_applying_the_diff_matches_the_names(
    local: Seq<PackageView>,
    remote: Seq<PackageView>,
    r: Seq<DiffEntryView>,
    name: Seq<char>,
)
    requires
        stably_sorted::<DiffEntry>(differences(local, remote), r),
    ensures
        ({
            let installed = exists|i: int|
                0 <= i < r.len() && (#[trigger] r[i]).name == name && r[i].kind.category()
                    == Category::Install;
            let removed = exists|i: int|
                0 <= i < r.len() && (#[trigger] r[i]).name == name && r[i].kind.category()
                    == Category::Remove;
            has_name(remote, name) <==> (has_name(local, name) || installed) && !removed
        }),
{
    let installed = exists|i: int|
        0 <= i < r.len() && (#[trigger] r[i]).name == name && r[i].kind.category()
            == Category::Install;
    let removed = exists|i: int|
        0 <= i < r.len() && (#[trigger] r[i]).name == name && r[i].kind.category()
            == Category::Remove;
    lemma_version_of(local, name);
    lemma_version_of(remote, name);
    if installed {
        let i = choose|i: int|
            0 <= i < r.len() && (#[trigger] r[i]).name == name && r[i].kind.category()
                == Category::Install;
        assert(r.contains(r[i]));
        law_diff_is_exact(local, remote, r, r[i]);
        let p = PackageView { name, version: r[i].kind->Missing_remote_version };
        let k = choose|k: int| 0 <= k < remote.len() && remote[k] == p;
        assert(remote[k].name == name);
    }
    if removed {
        let i = choose|i: int|
            0 <= i < r.len() && (#[trigger] r[i]).name == name && r[i].kind.category()
                == Category::Remove;
        assert(r.contains(r[i]));
        law_diff_is_exact(local, remote, r, r[i]);
    }
    if has_name(remote, name) && !has_name(local, name) {
        let e = DiffEntryView {
            name,
            kind: DiffKindView::Missing { remote_version: version_of(remote, name)->0 },
        };
        law_diff_is_exact(local, remote, r, e);
        let i = choose|i: int| 0 <= i < r.len() && r[i] == e;
        assert(r[i].name == name && r[i].kind.category() == Category::Install);
    }
    if has_name(local, name) && !has_name(remote, name) {
        let e = DiffEntryView {
            name,
            kind: DiffKindView::Extra { local_version: version_of(local, name)->0 },
        };
        law_diff_is_exact(local, remote, r, e);
        let i = choose|i: int| 0 <= i < r.len() && r[i] == e;
        assert(r[i].name == name && r[i].kind.category() == Category::Remove);
    }
}

/// The views of entries show all their parts, and the category follows from what
/// the difference is.
pub proof fn law_entry_views(e: DiffEntry)
    ensures
        e@.name == e.name@,
        e@.kind == e.kind@,
        e.kind matches DiffKind::Missing { remote_version } ==> e@.kind == (DiffKindView::Missing {
            remote_version: remote_version@,
        }),
        e.kind matches DiffKind::Extra { local_version } ==> e@.kind == (DiffKindView::Extra {
            local_version: local_version@,
        }),
        e.kind matches DiffKind::VersionSkew { local_version, remote_version } ==> e@.kind == (
        DiffKindView::VersionSkew {
            local_version: local_version@,
            remote_version: remote_version@,
        }),
        e@.kind.category() == Category::Install <==> e.kind is Missing,
        e@.kind.category() == Category::Remove <==> e.kind is Extra,
        e@.kind.category() == Category::Upgrade <==> e.kind is VersionSkew,
{
}

/// A diff is sorted: of two entries the later one never has the name that comes
/// first.
pub proof fn law_diff_is_sorted_by_name(
    local: Seq<PackageView>,
    remote: Seq<PackageView>,
    r: Seq<DiffEntryView>,
    i: int,
    j: int,
)
    requires
        stably_sorted::<DiffEntry>(differences(local, remote), r),
        0 <= i < j < r.len(),
    ensures
        r[i].name == r[j].name || text_lt(r[i].name, r[j].name),
{
    assert(DiffEntry::le(r[i], r[j]));
}

/// Filtering the results of a filtering map by name is filtering by name first.
proof fn lemma_filter_map_of_name(
    list: Seq<PackageView>,
    name: Seq<char>,
    f: spec_fn(PackageView) -> Option<DiffEntryView>,
    keep: spec_fn(PackageView) -> bool,
    g: spec_fn(PackageView) -> DiffEntryView,
)
    requires
        forall|p: PackageView| #![trigger f(p)] f(p) is Some ==> f(p)->0.name == p.name,
        forall|p: PackageView| #![trigger f(p)] p.name == name ==> (f(p) is Some <==> keep(p)),
        forall|p: PackageView| #[trigger] keep(p) ==> p.name == name && f(p) == Some(g(p)),
    ensures
        list.filter_map(f).filter(|e: DiffEntryView| e.name == name) == list.filter(
            keep,
        ).map_values(g),
    decreases list.len(),
{
    reveal(Seq::filter);
    let q = |e: DiffEntryView| e.name == name;
    if list.len() > 0 {
        let rest = list.drop_last();
        let last = list.last();
        lemma_filter_map_of_name(rest, name, f, keep, g);
        let kept = rest.filter_map(f);
        let out = list.filter_map(f);
        if f(last) is Some {
            assert(out =~= kept.push(f(last)->0));
            assert(out.drop_last() =~= kept);
        } else {
            assert(out =~= kept);
        }
        if keep(last) {
            assert(list.filter(keep).map_values(g) =~= rest.filter(keep).map_values(g).push(
                g(last),
            ));
        }
    } else {
        assert(list.filter_map(f).filter(q) =~= list.filter(keep).map_values(g));
    }
}

/// The entries of one name in a diff are those in the differences.
proof fn lemma_entries_of_name(
    local: Seq<PackageView>,
    remote: Seq<PackageView>,
    r: Seq<DiffEntryView>,
    name: Seq<char>,
)
    requires
        stably_sorted::<DiffEntry>(differences(local, remote), r),
    ensures
        r.filter(|e: DiffEntryView| e.name == name) == remote.filter_map(
            |p: PackageView| remote_difference(local, p),
        ).filter(|e: DiffEntryView| e.name == name) + local.filter_map(
            |p: PackageView| local_difference(remote, p),
        ).filter(|e: DiffEntryView| e.name == name),
{
    let k = DiffEntryView { name, kind: DiffKindView::Missing { remote_version: name } };
    let q = |e: DiffEntryView| e.name == name;
    let t = |e: DiffEntryView| tied::<DiffEntry>(e, k);
    assert forall|e: DiffEntryView| t(e) == #[trigger] q(e) by {
        lemma_tied_names(e, k);
    }
    assert(t =~= q);
    assert(ties::<DiffEntry>(r, k) == ties::<DiffEntry>(differences(local, remote), k));
    Seq::filter_distributes_over_add(
        remote.filter_map(|p: PackageView| remote_difference(local, p)),
        local.filter_map(|p: PackageView| local_difference(remote, p)),
        q,
    );
}

/// What a diff says of a package that this machine lacks: it is missing, once
/// for each time that the remote machine lists it, in the listed versions.
pub proof fn law_what_only_the_remote_machine_has_is_missing(
    local: Seq<PackageView>,
    remote: Seq<PackageView>,
    r: Seq<DiffEntryView>,
    name: Seq<char>,
)
    requires
        stably_sorted::<DiffEntry>(differences(local, remote), r),
        forall|i: int| 0 <= i < local.len() ==> (#[trigger] local[i]).name != name,
    ensures
        r.filter(|e: DiffEntryView| e.name == name) == remote.filter(
            |p: PackageView| p.name == name,
        ).map_values(
            |p: PackageView|
                DiffEntryView { name, kind: DiffKindView::Missing { remote_version: p.version } },
        ),
{
    let f = |p: PackageView| remote_difference(local, p);
    let g = |p: PackageView| local_difference(remote, p);
    let keep = |p: PackageView| p.name == name;
    let entry = |p: PackageView|
        DiffEntryView { name, kind: DiffKindView::Missing { remote_version: p.version } };
    lemma_version_of(local, name);
    lemma_entries_of_name(local, remote, r, name);
    lemma_filter_map_of_name(remote, name, f, keep, entry);
    let y = local.filter_map(g);
    let q = |e: DiffEntryView| e.name == name;
    assert forall|i: int| 0 <= i < y.len() implies !q(#[trigger] y[i]) by {
        assert(y.contains(y[i]));
        local.lemma_filter_map_contains(g, y[i]);
        let p = choose|p: PackageView| #[trigger] local.contains(p) && g(p) == Some(y[i]);
        let k = choose|k: int| 0 <= k < local.len() && local[k] == p;
        assert(local[k].name != name);
    }
    lemma_filter_none(y, q);
    assert(remote.filter(keep).map_values(entry) + Seq::<DiffEntryView>::empty() =~= remote.filter(
        keep,
    ).map_values(entry));
}

/// What a diff says of a package that the remote machine lacks: it is extra, once
/// for each time that this machine lists it, in the listed versions.
pub proof fn law_what_only_this_machine_has_is_extra(
    local: Seq<PackageView>,
    remote: Seq<PackageView>,
    r: Seq<DiffEntryView>,
    name: Seq<char>,
)
    requires
        stably_sorted::<DiffEntry>(differences(local, remote), r),
        forall|i: int| 0 <= i < remote.len() ==> (#[trigger] remote[i]).name != name,
    ensures
        r.filter(|e: DiffEntryView| e.name == name) == local.filter(
            |p: PackageView| p.name == name,
        ).map_values(
            |p: PackageView|
                DiffEntryView { name, kind: DiffKindView::Extra { local_version: p.version } },
        ),
{
    let f = |p: PackageView| remote_difference(local, p);
    let g = |p: PackageView| local_difference(remote, p);
    let keep = |p: PackageView| p.name == name;
    let entry = |p: PackageView|
        DiffEntryView { name, kind: DiffKindView::Extra { local_version: p.version } };
    lemma_version_of(remote, name);
    lemma_entries_of_name(local, remote, r, name);
    lemma_filter_map_of_name(local, name, g, keep, entry);
    let x = remote.filter_map(f);
    let q = |e: DiffEntryView| e.name == name;
    assert forall|i: int| 0 <= i < x.len() implies !q(#[trigger] x[i]) by {
        assert(x.contains(x[i]));
        remote.lemma_filter_map_contains(f, x[i]);
        let p = choose|p: PackageView| #[trigger] remote.contains(p) && f(p) == Some(x[i]);
        let k = choose|k: int| 0 <= k < remote.len() && remote[k] == p;
        assert(remote[k].name != name);
    }
    lemma_filter_none(x, q);
    assert(Seq::<DiffEntryView>::empty() + local.filter(keep).map_values(entry) =~= local.filter(
        keep,
    ).map_values(entry));
}

/// The version that a list gives to a name is that of the last package so named.
proof fn lemma_last_version(list: Seq<PackageView>, k: int)
    requires
        0 <= k < list.len(),
        forall|j: int| k < j < list.len() ==> (#[trigger] list[j]).name != list[k].name,
    ensures
        version_of(list, list[k].name) == Some(list[k].version),
    decreases list.len(),
{
    if k < list.len() - 1 {
        let rest = list.drop_last();
        assert(list[list.len() - 1].name != list[k].name);
        assert forall|j: int| k < j < rest.len() implies (#[trigger] rest[j]).name
            != rest[k].name by {
            assert(list[j].name != list[k].name);
        }
        lemma_last_version(rest, k);
    }
}

/// What a diff says of a package that both machines have: one entry for each time
/// that the remote machine lists it in another version than this one has, with
/// both versions, and none where the versions are the same. Where this machine
/// lists it more than once, the last one counts.
pub proof fn law_what_both_machines_have_differs_by_version(
    local: Seq<PackageView>,
    remote: Seq<PackageView>,
    r: Seq<DiffEntryView>,
    k: int,
    m: int,
)
    requires
        stably_sorted::<DiffEntry>(differences(local, remote), r),
        0 <= k < local.len(),
        forall|j: int| k < j < local.len() ==> (#[trigger] local[j]).name != local[k].name,
        0 <= m < remote.len(),
        remote[m].name == local[k].name,
    ensures
        r.filter(|e: DiffEntryView| e.name == local[k].name) == remote.filter(
            |p: PackageView| p.name == local[k].name && p.version != local[k].version,
        ).map_values(
            |p: PackageView|
                DiffEntryView {
                    name: local[k].name,
                    kind: DiffKindView::VersionSkew {
                        local_version: local[k].version,
                        remote_version: p.version,
                    },
                },
        ),
{
    let name = local[k].name;
    let f = |p: PackageView| remote_difference(local, p);
    let g = |p: PackageView| local_difference(remote, p);
    let keep = |p: PackageView| p.name == local[k].name && p.version != local[k].version;
    let entry = |p: PackageView|
        DiffEntryView {
            name: local[k].name,
            kind: DiffKindView::VersionSkew {
                local_version: local[k].version,
                remote_version: p.version,
            },
        };
    lemma_last_version(local, k);
    lemma_version_of(remote, name);
    assert(has_name(remote, name));
    lemma_entries_of_name(local, remote, r, name);
    lemma_filter_map_of_name(remote, name, f, keep, entry);
    let y = local.filter_map(g);
    let q = |e: DiffEntryView| e.name == name;
    assert((|e: DiffEntryView| e.name == local[k].name) =~= q);
    assert forall|i: int| 0 <= i < y.len() implies !q(#[trigger] y[i]) by {
        assert(y.contains(y[i]));
        local.lemma_filter_map_contains(g, y[i]);
    }
    lemma_filter_none(y, q);
    assert(remote.filter(keep).map_values(entry) + Seq::<DiffEntryView>::empty() =~= remote.filter(
        keep,
    ).map_values(entry));
}

/// Entries stand in the order of their names, whatever they say.
pub proof fn law_entries_are_ordered_by_name(a: DiffEntryView, b: DiffEntryView)
    ensures
        <DiffEntry as Ordered>::le(a, b) <==> a.name == b.name || text_lt(a.name, b.name),
{
}

} // verus!
