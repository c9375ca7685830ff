//! Sources that can be offered without typing: those used recently, and the
//! `Host` entries of `~/.ssh/config`.
//!
//! The texts of both files are handed in, and the text to store is handed
//! back. To offer sources, `None` stands for a file that is missing or cannot
//! be read: it offers nothing. To store one the two are told apart, since a
//! missing file is created and one that cannot be read is left alone.
use crate::order::{lemma_filter_all, lemma_filter_map_is_filter};
use crate::path::{join_path, joined_path};
use crate::source::{same_source, SourceSpec, SourceSpecView};
use crate::text::{
    chars_of, find_char, find_from, is_line, is_space, law_lines, law_lines_of_appended_text,
    law_words, law_words_of_separated_texts, law_writing_lines, lemma_find_char,
    lemma_find_char_unique, lemma_lines_have_no_feed, lemma_trimmed, lemma_trimmed_identity,
    lemma_views_push, lemma_written_lines, lemma_written_push, lines, opt_view, same_text,
    split_lines, split_words, string_of, trim, trimmed, views, words, written,
};
use vstd::prelude::*;

verus! {

/// How many sources are remembered.
pub const MAX_RECENT: usize = 10;

/// The contents of a file that may be missing.
pub open spec fn contents(file: Option<&str>) -> Seq<char> {
    match file {
        Some(text) => text@,
        None => Seq::empty(),
    }
}

/// What was found where the recently used sources are stored.
#[derive(Debug, Clone, Copy, PartialEq, Eq)]
pub enum Stored<'a> {
    /// The file has this text.
    Text(&'a str),
    /// There is no file yet.
    Missing,
    /// There is a file, but it cannot be read.
    Unreadable,
}

// --- recently used sources ---------------------------------------------------
/// The line that stores a source; this machine is never stored.
pub open spec fn spec_line(source: SourceSpecView) -> Option<Seq<char>> {
    match source {
        SourceSpecView::Ssh(host) => Some("ssh "@ + host),
        SourceSpecView::File(path) => Some("file "@ + path),
        SourceSpecView::Local => None,
    }
}

/// The source that a line stores: behind the word `ssh` or `file` and a space
/// a text that is not blank.
pub open spec fn line_spec(line: Seq<char>) -> Option<SourceSpecView> {
    let t = trimmed(line);
    let n = find_char(t, ' ') as int;
    let rest = trimmed(t.skip(n + 1));
    if n >= t.len() || rest.len() == 0 {
        None
    } else if t.take(n) == "ssh"@ {
        Some(SourceSpecView::Ssh(rest))
    } else if t.take(n) == "file"@ {
        Some(SourceSpecView::File(rest))
    } else {
        None
    }
}

/// The sources that a text stores, line by line.
pub open spec fn recent_specs(text: Seq<char>) -> Seq<SourceSpecView> {
    lines(text).filter_map(|line: Seq<char>| line_spec(line))
}

/// The text that stores sources.
pub open spec fn recent_text(sources: Seq<SourceSpecView>) -> Seq<char> {
    written(sources.filter_map(|source: SourceSpecView| spec_line(source)))
}

/// The line that stores a source, or `None` for this machine.
pub fn spec_to_line(source: &SourceSpec) -> (r: Option<String>)
    ensures
        opt_view(r) == spec_line(source@),
{
    match source {
        SourceSpec::Ssh(host) => {
            let mut out = "ssh ".to_owned();
            out.append(host.as_str());
            Some(out)
        },
        SourceSpec::File(path) => {
            let mut out = "file ".to_owned();
            out.append(path.as_str());
            Some(out)
        },
        SourceSpec::Local => None,
    }
}

/// The source that a line stores, or `None` where it stores none.
pub fn line_to_spec(line: &str) -> (r: Option<SourceSpec>)
    ensures
        opt_view(r) == line_spec(line@),
{
    let t = trim(line);
    let chars: Vec<char> = chars_of(t.as_str());
    proof {
        assert(chars@.skip(0) =~= chars@);
    }
    let n: usize = find_from(chars.as_slice(), 0, ' ');
    if n >= chars.len() {
        return None;
    }
    let kind = string_of(chars.as_slice(), 0, n);
    let behind = string_of(chars.as_slice(), n + 1, chars.len());
    proof {
        assert(kind@ =~= t@.take(n as int));
        assert(behind@ =~= t@.skip(n + 1));
    }
    let rest = trim(behind.as_str());
    if rest.as_str().is_empty() {
        return None;
    }
    if same_text(kind.as_str(), "ssh") {
        Some(SourceSpec::Ssh(rest))
    } else if same_text(kind.as_str(), "file") {
        Some(SourceSpec::File(rest))
    } else {
        None
    }
}

/// The sources that a text stores; other lines are skipped.
pub fn parse_recent(text: &str) -> (r: Vec<SourceSpec>)
    ensures
        views(r@) == recent_specs(text@),
{
    let ls: Vec<String> = split_lines(text);
    let ghost all = lines(text@);
    let ghost f = |line: Seq<char>| line_spec(line);
    let mut out: Vec<SourceSpec> = Vec::new();
    let mut i: usize = 0;
    proof {
        assert(views(out@) =~= all.take(0).filter_map(f));
    }
    while i < ls.len()
        invariant
            i <= ls@.len(),
            all == views(ls@),
            f == (|line: Seq<char>| line_spec(line)),
            views(out@) == all.take(i as int).filter_map(f),
        decreases ls@.len() - i,
    {
        proof {
            assert(all[i as int] == ls@[i as int]@);
            all.lemma_filter_map_take_succ(f, i as int);
        }
        if let Some(source) = line_to_spec(ls[i].as_str()) {
            proof {
                lemma_views_push(out@, source);
                assert(views(out@) + seq![source@] =~= views(out@).push(source@));
            }
            out.push(source);
        }
        i = i + 1;
    }
    proof {
        assert(all.take(i as int) =~= all);
    }
    out
}

/// The text that stores sources, one line each; this machine is left out.
pub fn serialize_recent(sources: &[SourceSpec]) -> (r: String)
    ensures
        r@ == recent_text(views(sources@)),
{
    let ghost all = views(sources@);
    let ghost f = |source: SourceSpecView| spec_line(source);
    let mut out = String::new();
    let mut i: usize = 0;
    proof {
        assert(all.take(0).filter_map(f) =~= Seq::<Seq<char>>::empty());
        assert(written(Seq::<Seq<char>>::empty()) =~= Seq::<char>::empty());
    }
    while i < sources.len()
        invariant
            i <= sources@.len(),
            all == views(sources@),
            f == (|source: SourceSpecView| spec_line(source)),
            out@ == written(all.take(i as int).filter_map(f)),
        decreases sources@.len() - i,
    {
        let ghost so_far = all.take(i as int).filter_map(f);
        proof {
            assert(all[i as int] == sources@[i as int]@);
            all.lemma_filter_map_take_succ(f, i as int);
        }
        if let Some(line) = spec_to_line(&sources[i]) {
            proof {
                lemma_written_push(so_far, line@);
                assert(so_far + seq![line@] =~= so_far.push(line@));
            }
            let ghost before = out@;
            out.append(line.as_str());
            out.push('\n');
            proof {
                assert(out@ =~= before + line@.push('\n'));
            }
        } else {
            proof {
                assert(so_far + Seq::<Seq<char>>::empty() =~= so_far);
            }
        }
        i = i + 1;
    }
    proof {
        assert(all.take(i as int) =~= all);
    }
    out
}

/// The remembered sources, the most recent one first.
pub fn load_recent(stored: Option<&str>) -> (r: Vec<SourceSpec>)
    ensures
        views(r@) == recent_specs(contents(stored)),
{
    match stored {
        Some(text) => parse_recent(text),
        None => {
            let none: Vec<SourceSpec> = Vec::new();
            proof {
                assert(lines(Seq::<char>::empty()) =~= Seq::<Seq<char>>::empty());
                assert(views(none@) =~= recent_specs(Seq::empty()));
            }
            none
        },
    }
}

/// The remembered sources after `source` was used: it comes first, what else
/// names the same source goes, and the oldest go where there are too many.
pub open spec fn remembered(recent: Seq<SourceSpecView>, source: SourceSpecView) -> Seq<
    SourceSpecView,
> {
    let all = seq![source] + recent.filter(|s: SourceSpecView| !same_source(s, source));
    if all.len() > MAX_RECENT {
        all.take(MAX_RECENT as int)
    } else {
        all
    }
}

/// Moves `source` to the front of the remembered sources.
pub fn remember(recent: &[SourceSpec], source: &SourceSpec) -> (r: Vec<SourceSpec>)
    ensures
        views(r@) == remembered(views(recent@), source@),
{
    let ghost all = views(recent@);
    let ghost p = |s: SourceSpecView| !same_source(s, source@);
    let mut out: Vec<SourceSpec> = Vec::new();
    out.push(source.clone());
    let mut i: usize = 0;
    proof {
        reveal(Seq::filter);
        assert(views(out@) =~= seq![source@] + all.take(0).filter(p));
    }
    while i < recent.len()
        invariant
            i <= recent@.len(),
            all == views(recent@),
            p == (|s: SourceSpecView| !same_source(s, source@)),
            views(out@) == seq![source@] + all.take(i as int).filter(p),
        decreases recent@.len() - i,
    {
        let ghost so_far = all.take(i as int).filter(p);
        proof {
            reveal(Seq::filter);
            assert(all.take(i + 1).drop_last() =~= all.take(i as int));
            assert(all.take(i + 1).last() == recent@[i as int]@);
        }
        if recent[i] != *source {
            let kept = recent[i].clone();
            proof {
                lemma_views_push(out@, kept);
                assert((seq![source@] + so_far).push(kept@) =~= seq![source@] + so_far.push(kept@));
            }
            out.push(kept);
        }
        i = i + 1;
    }
    proof {
        assert(all.take(i as int) =~= all);
        assert(views(out@).len() == out@.len());
    }
    let ghost full = out@;
    out.truncate(MAX_RECENT);
    proof {
        if full.len() > MAX_RECENT {
            assert(views(out@) =~= views(full).take(MAX_RECENT as int));
        }
    }
    out
}

/// The text to store after `source` was used: none for this machine, and none
/// where a stored text cannot be read and would be lost.
pub open spec fn recorded(stored: Stored, source: SourceSpecView) -> Option<Seq<char>> {
    if source is Local {
        None
    } else {
        match stored {
            Stored::Text(text) => Some(recent_text(remembered(recent_specs(text@), source))),
            Stored::Missing => Some(recent_text(seq![source])),
            Stored::Unreadable => None,
        }
    }
}

/// The text to store after `source` was used, where `stored` was found before;
/// `None` where the file is to be left as it is.
pub fn record(stored: Stored, source: &SourceSpec) -> (r: Option<String>)
    ensures
        opt_view(r) == recorded(stored, source@),
{
    if spec_to_line(source).is_none() {
        return None;
    }
    let recent = match stored {
        Stored::Text(text) => load_recent(Some(text)),
        Stored::Missing => load_recent(None),
        Stored::Unreadable => {
            return None;
        },
    };
    let now = remember(recent.as_slice(), source);
    proof {
        if stored is Missing {
            reveal(Seq::filter);
            assert(lines(Seq::<char>::empty()) =~= Seq::<Seq<char>>::empty());
            assert(views(recent@) =~= Seq::<SourceSpecView>::empty());
            assert(views(now@) =~= seq![source@]);
        }
    }
    Some(serialize_recent(now.as_slice()))
}

// --- hosts of the SSH configuration ------------------------------------------
/// The lower-case form of an ASCII letter; any other character is kept.
pub open spec fn ascii_lower(c: char) -> char {
    if 'A' <= c && c <= 'Z' {
        (c as u32 + 32) as char
    } else {
        c
    }
}

/// The texts are equal but for the case of ASCII letters.
pub open spec fn same_ignoring_case(a: Seq<char>, b: Seq<char>) -> bool {
    a.len() == b.len() && forall|i: int|
        0 <= i < a.len() ==> ascii_lower(#[trigger] a[i]) == ascii_lower(b[i])
}

/// A host pattern that names one host: no wildcard and no negation.
pub open spec fn is_concrete(pattern: Seq<char>) -> bool {
    !pattern.contains('*') && !pattern.contains('?') && !pattern.contains('!')
}

/// The hosts that a line declares: the concrete patterns behind `Host`.
pub open spec fn line_hosts(line: Seq<char>) -> Seq<Seq<char>> {
    let w = words(line);
    if w.len() > 0 && same_ignoring_case(w[0], "host"@) {
        w.drop_first().filter(|pattern: Seq<char>| is_concrete(pattern))
    } else {
        Seq::empty()
    }
}

/// The elements of `s` without repetition, in the order of their first
/// occurrence.
pub open spec fn distinct<A>(s: Seq<A>) -> Seq<A>
    decreases s.len(),
{
    if s.len() == 0 {
        Seq::empty()
    } else if s.drop_last().contains(s.last()) {
        distinct(s.drop_last())
    } else {
        distinct(s.drop_last()).push(s.last())
    }
}

/// The hosts that a configuration declares.
pub open spec fn config_hosts(text: Seq<char>) -> Seq<Seq<char>> {
    distinct(lines(text).map_values(|line: Seq<char>| line_hosts(line)).flatten())
}

/// Dropping repetitions keeps the set of elements.
pub proof fn lemma_distinct<A>(s: Seq<A>)
    ensures
        forall|x: A| #[trigger] distinct(s).contains(x) <==> s.contains(x),
        distinct(s).no_duplicates(),
    decreases s.len(),
{
    if s.len() > 0 {
        let rest = s.drop_last();
        let d = distinct(rest);
        lemma_distinct(rest);
        assert forall|x: A| #[trigger] distinct(s).contains(x) <==> s.contains(x) by {
            assert(d.contains(x) <==> rest.contains(x));
            if s.contains(x) {
                let i = choose|i: int| 0 <= i < s.len() && s[i] == x;
                if i < rest.len() {
                    assert(rest[i] == x);
                    let k = choose|k: int| 0 <= k < d.len() && d[k] == x;
                    assert(distinct(s)[k] == x);
                } else if rest.contains(x) {
                } else {
                    assert(distinct(s)[d.len() as int] == x);
                }
            }
            if distinct(s).contains(x) && !s.contains(x) {
                let k = choose|k: int| 0 <= k < distinct(s).len() && distinct(s)[k] == x;
                if k < d.len() {
                    assert(d[k] == x);
                    let i = choose|i: int| 0 <= i < rest.len() && rest[i] == x;
                    assert(s[i] == x);
                } else {
                    assert(s[s.len() - 1] == x);
                }
            }
        }
        if !rest.contains(s.last()) {
            assert(!d.contains(s.last()));
        }
    }
}

/// The lower-case form of an ASCII letter; any other character is kept.
fn lower(c: char) -> (r: char)
    ensures
        r == ascii_lower(c),
{
    if 'A' <= c && c <= 'Z' {
        let code: u8 = c as u8;
        (code + 32) as char
    } else {
        c
    }
}

/// Tells whether a word is `host` in any case.
fn is_host_keyword(word: &str) -> (r: bool)
    ensures
        r == same_ignoring_case(word@, "host"@),
{
    let a: Vec<char> = chars_of(word);
    let b: Vec<char> = chars_of("host");
    if a.len() != b.len() {
        return false;
    }
    let mut i: usize = 0;
    while i < a.len()
        invariant
            i <= a@.len(),
            a@.len() == b@.len(),
            a@ == word@,
            b@ == "host"@,
            forall|k: int| 0 <= k < i ==> ascii_lower(#[trigger] a@[k]) == ascii_lower(b@[k]),
        decreases a@.len() - i,
    {
        if lower(a[i]) != lower(b[i]) {
            return false;
        }
        i = i + 1;
    }
    true
}

/// Tells whether a host pattern names one host.
fn names_one_host(pattern: &str) -> (r: bool)
    ensures
        r == is_concrete(pattern@),
{
    let chars: Vec<char> = chars_of(pattern);
    let mut i: usize = 0;
    while i < chars.len()
        invariant
            i <= chars@.len(),
            chars@ == pattern@,
            forall|k: int|
                0 <= k < i ==> (#[trigger] chars@[k]) != '*' && chars@[k] != '?' && chars@[k]
                    != '!',
        decreases chars@.len() - i,
    {
        let c: char = chars[i];
        if c == '*' || c == '?' || c == '!' {
            proof {
                assert(pattern@.contains(c));
            }
            return false;
        }
        i = i + 1;
    }
    true
}

/// The hosts that a line declares.
fn hosts_of_line(line: &str) -> (r: Vec<String>)
    ensures
        views(r@) == line_hosts(line@),
{
    let tokens: Vec<String> = split_words(line);
    let ghost w = words(line@);
    let ghost p = |pattern: Seq<char>| is_concrete(pattern);
    let mut out: Vec<String> = Vec::new();
    proof {
        assert(views(out@) =~= Seq::<Seq<char>>::empty());
        assert(w.len() == tokens@.len());
        assert(tokens@.len() > 0 ==> w[0] == tokens@[0]@);
    }
    if tokens.len() == 0 || !is_host_keyword(tokens[0].as_str()) {
        return out;
    }
    let ghost all = w.drop_first();
    let mut i: usize = 1;
    proof {
        reveal(Seq::filter);
        assert(views(out@) =~= all.take(0).filter(p));
    }
    while i < tokens.len()
        invariant
            1 <= i <= tokens@.len(),
            w == views(tokens@),
            all == w.drop_first(),
            p == (|pattern: Seq<char>| is_concrete(pattern)),
            views(out@) == all.take(i - 1).filter(p),
        decreases tokens@.len() - i,
    {
        proof {
            reveal(Seq::filter);
            assert(all.take(i as int).drop_last() =~= all.take(i - 1));
            assert(all.take(i as int).last() == tokens@[i as int]@);
        }
        if names_one_host(tokens[i].as_str()) {
            let host = tokens[i].clone();
            proof {
                lemma_views_push(out@, host);
            }
            out.push(host);
        }
        i = i + 1;
    }
    proof {
        assert(all.take(i - 1) =~= all);
    }
    out
}

/// Tells whether a text is among others.
fn is_among(texts: &[String], text: &str) -> (r: bool)
    ensures
        r == views(texts@).contains(text@),
{
    let mut i: usize = 0;
    while i < texts.len()
        invariant
            i <= texts@.len(),
            forall|k: int| 0 <= k < i ==> views(texts@)[k] != text@,
        decreases texts@.len() - i,
    {
        proof {
            assert(views(texts@)[i as int] == texts@[i as int]@);
        }
        if same_text(texts[i].as_str(), text) {
            return true;
        }
        i = i + 1;
    }
    proof {
        assert(views(texts@).len() == texts@.len());
    }
    false
}

/// The concrete hosts that an SSH configuration declares, each once. Patterns
/// with `*`, `?` or `!` are not hosts to connect to.
pub fn parse_ssh_config_hosts(text: &str) -> (r: Vec<String>)
    ensures
        views(r@) == config_hosts(text@),
{
    let ls: Vec<String> = split_lines(text);
    let ghost f = |line: Seq<char>| line_hosts(line);
    let ghost per_line = lines(text@).map_values(f);
    let ghost mut seen: Seq<Seq<char>> = Seq::empty();
    let mut hosts: Vec<String> = Vec::new();
    let mut i: usize = 0;
    proof {
        assert(views(hosts@) =~= distinct(seen));
        assert(per_line.take(0) =~= Seq::<Seq<Seq<char>>>::empty());
        assert(seen =~= per_line.take(0).flatten());
    }
    while i < ls.len()
        invariant
            i <= ls@.len(),
            views(ls@) == lines(text@),
            f == (|line: Seq<char>| line_hosts(line)),
            per_line == lines(text@).map_values(f),
            seen == per_line.take(i as int).flatten(),
            views(hosts@) == distinct(seen),
        decreases ls@.len() - i,
    {
        let more: Vec<String> = hosts_of_line(ls[i].as_str());
        let ghost before = seen;
        let mut j: usize = 0;
        proof {
            assert(views(ls@)[i as int] == ls@[i as int]@);
            assert(views(more@) == per_line[i as int]);
            assert(seen =~= before + views(more@).take(0));
        }
        while j < more.len()
            invariant
                j <= more@.len(),
                seen == before + views(more@).take(j as int),
                views(hosts@) == distinct(seen),
            decreases more@.len() - j,
        {
            let host: &String = &more[j];
            let ghost next = seen.push(host@);
            proof {
                assert(views(more@).take(j + 1) =~= views(more@).take(j as int).push(host@));
                assert(next =~= before + views(more@).take(j + 1));
                assert(next.drop_last() =~= seen);
                assert(next.last() == host@);
                lemma_distinct(seen);
            }
            if !is_among(hosts.as_slice(), host.as_str()) {
                let added = host.clone();
                proof {
                    lemma_views_push(hosts@, added);
                }
                hosts.push(added);
            }
            proof {
                seen = next;
            }
            j = j + 1;
        }
        proof {
            assert(views(more@).take(j as int) =~= views(more@));
            let now = per_line.take(i + 1);
            now.lemma_flatten_and_flatten_alt_are_equivalent();
            per_line.take(i as int).lemma_flatten_and_flatten_alt_are_equivalent();
            assert(now.drop_last() =~= per_line.take(i as int));
            assert(now.last() == per_line[i as int]);
        }
        i = i + 1;
    }
    proof {
        assert(per_line.take(i as int) =~= per_line);
    }
    hosts
}

/// The hosts that the SSH configuration declares.
pub fn ssh_config_hosts(config: Option<&str>) -> (r: Vec<String>)
    ensures
        views(r@) == config_hosts(contents(config)),
{
    match config {
        Some(text) => parse_ssh_config_hosts(text),
        None => {
            proof {
                reveal_strlit("");
                assert(""@ =~= Seq::<char>::empty());
            }
            parse_ssh_config_hosts("")
        },
    }
}

// --- the entry menu ----------------------------------------------------------
/// `recent`, then each host that is not there yet.
pub open spec fn with_hosts(recent: Seq<SourceSpecView>, hosts: Seq<Seq<char>>) -> Seq<
    SourceSpecView,
>
    decreases hosts.len(),
{
    if hosts.len() == 0 {
        recent
    } else {
        let so_far = with_hosts(recent, hosts.drop_last());
        let source = SourceSpecView::Ssh(hosts.last());
        if so_far.contains(source) {
            so_far
        } else {
            so_far.push(source)
        }
    }
}

/// Tells whether a source is among others.
fn is_known(sources: &[SourceSpec], source: &SourceSpec) -> (r: bool)
    requires
        source@ is Ssh,
    ensures
        r == views(sources@).contains(source@),
{
    let mut i: usize = 0;
    while i < sources.len()
        invariant
            i <= sources@.len(),
            source@ is Ssh,
            forall|k: int| 0 <= k < i ==> views(sources@)[k] != source@,
        decreases sources@.len() - i,
    {
        proof {
            assert(views(sources@)[i as int] == sources@[i as int]@);
        }
        if sources[i] == *source {
            return true;
        }
        i = i + 1;
    }
    proof {
        assert(views(sources@).len() == sources@.len());
    }
    false
}

/// The sources that the entry menu offers: the remembered ones, then the hosts
/// of the SSH configuration that are not among them.
pub fn menu_sources(stored: Option<&str>, config: Option<&str>) -> (r: Vec<SourceSpec>)
    ensures
        views(r@) == with_hosts(recent_specs(contents(stored)), config_hosts(contents(config))),
{
    let mut sources = load_recent(stored);
    let hosts = ssh_config_hosts(config);
    let ghost recent = views(sources@);
    let ghost all = views(hosts@);
    let mut i: usize = 0;
    while i < hosts.len()
        invariant
            i <= hosts@.len(),
            all == views(hosts@),
            views(sources@) == with_hosts(recent, all.take(i as int)),
        decreases hosts@.len() - i,
    {
        let source = SourceSpec::Ssh(hosts[i].clone());
        proof {
            assert(all.take(i + 1).drop_last() =~= all.take(i as int));
            assert(all.take(i + 1).last() == hosts@[i as int]@);
            lemma_views_push(sources@, source);
        }
        if !is_known(sources.as_slice(), &source) {
            sources.push(source);
        }
        i = i + 1;
    }
    proof {
        assert(all.take(i as int) =~= all);
    }
    sources
}

// --- where the files are -----------------------------------------------------
/// The directory of the stored state, from the values of `XDG_STATE_HOME` and
/// `HOME`.
pub open spec fn state_path(xdg_state_home: Option<&str>, home: Option<&str>) -> Option<Seq<char>> {
    match (xdg_state_home, home) {
        (Some(dir), _) if dir@.len() > 0 => Some(joined_path(dir@, "pkgsync"@)),
        (_, Some(dir)) => Some(joined_path(dir@, ".local/state/pkgsync"@)),
        _ => None,
    }
}

/// The directory of the stored state, from the values of `XDG_STATE_HOME` and
/// `HOME`; `None` where neither says.
pub fn state_dir(xdg_state_home: Option<&str>, home: Option<&str>) -> (r: Option<String>)
    ensures
        opt_view(r) == state_path(xdg_state_home, home),
{
    if let Some(dir) = xdg_state_home {
        if !dir.is_empty() {
            return Some(join_path(dir, "pkgsync"));
        }
    }
    match home {
        Some(dir) => Some(join_path(dir, ".local/state/pkgsync")),
        None => None,
    }
}

/// The file of the remembered sources.
pub fn recent_file(xdg_state_home: Option<&str>, home: Option<&str>) -> (r: Option<String>)
    ensures
        opt_view(r) == match state_path(xdg_state_home, home) {
            Some(dir) => Some(joined_path(dir, "recent"@)),
            None => None,
        },
{
    match state_dir(xdg_state_home, home) {
        Some(dir) => Some(join_path(dir.as_str(), "recent")),
        None => None,
    }
}

/// The file of the SSH configuration.
pub fn ssh_config_file(home: &str) -> (r: String)
    ensures
        r@ == joined_path(home@, ".ssh/config"@),
{
    join_path(home, ".ssh/config")
}

// --- laws --------------------------------------------------------------------
/// A text that survives trimming: not empty, with no white space at its ends.
pub open spec fn is_trim(s: Seq<char>) -> bool {
    s.len() > 0 && !is_space(s[0]) && !is_space(s.last())
}

/// A source that one line can store.
pub open spec fn is_storable(source: SourceSpecView) -> bool {
    match source {
        SourceSpecView::Ssh(host) => is_trim(host),
        SourceSpecView::File(path) => is_trim(path),
        SourceSpecView::Local => false,
    }
}

/// The text of a source has no line feed.
pub open spec fn is_one_line(source: SourceSpecView) -> bool {
    match source {
        SourceSpecView::Ssh(host) => !host.contains('\n'),
        SourceSpecView::File(path) => !path.contains('\n'),
        SourceSpecView::Local => true,
    }
}

/// The line that stores a source is read back as that source, where the name
/// or the path is not empty and has no white space at its ends.
pub proof fn law_stored_line_reads_back(source: SourceSpecView)
    requires
        is_storable(source),
    ensures
        spec_line(source) matches Some(line) && line_spec(line) == Some(source),
{
    reveal_strlit("ssh ");
    reveal_strlit("ssh");
    reveal_strlit("file ");
    reveal_strlit("file");
    let line = spec_line(source)->0;
    match source {
        SourceSpecView::Ssh(host) => {
            assert(line[0] == 's' && line[1] == 's' && line[2] == 'h' && line[3] == ' ');
            assert(line.last() == host.last());
            lemma_trimmed_identity(line);
            lemma_find_char_unique(line, ' ', 3);
            assert(line.take(3) =~= "ssh"@);
            assert(line.skip(4) =~= host);
            lemma_trimmed_identity(host);
        },
        SourceSpecView::File(path) => {
            assert(line[0] == 'f' && line[1] == 'i' && line[2] == 'l' && line[3] == 'e' && line[4]
                == ' ');
            assert(line.last() == path.last());
            lemma_trimmed_identity(line);
            lemma_find_char_unique(line, ' ', 4);
            assert(line.take(4) =~= "file"@);
            assert(line.take(4)[0] != "ssh"@[0]);
            assert(line.skip(5) =~= path);
            lemma_trimmed_identity(path);
        },
        SourceSpecView::Local => {},
    }
}

/// The line of a storable source is one line.
proof fn lemma_spec_line_is_line(source: SourceSpecView)
    requires
        is_storable(source),
        is_one_line(source),
    ensures
        is_line(spec_line(source)->0),
{
    reveal_strlit("ssh ");
    reveal_strlit("file ");
    let line = spec_line(source)->0;
    let n: int = if source is Ssh {
        4
    } else {
        5
    };
    let text = match source {
        SourceSpecView::Ssh(host) => host,
        SourceSpecView::File(path) => path,
        SourceSpecView::Local => Seq::empty(),
    };
    assert(line.last() == text.last());
    assert forall|i: int| 0 <= i < line.len() implies line[i] != '\n' by {
        if i >= n {
            assert(line[i] == text[i - n]);
        }
    }
}

/// The lines that store the first `n` sources are read back as those of them
/// that can be stored.
proof fn lemma_reread_recent(sources: Seq<SourceSpecView>, n: int)
    requires
        forall|i: int|
            0 <= i < sources.len() ==> (#[trigger] sources[i]) is Local || (is_storable(sources[i])
                && is_one_line(sources[i])),
        0 <= n <= sources.len(),
    ensures
        ({
            let ls = sources.take(n).filter_map(|source: SourceSpecView| spec_line(source));
            &&& forall|i: int| 0 <= i < ls.len() ==> is_line(#[trigger] ls[i])
            &&& ls.filter_map(|line: Seq<char>| line_spec(line)) == sources.take(n).filter(
                |source: SourceSpecView| !(source is Local),
            )
        }),
    decreases n,
{
    let f = |source: SourceSpecView| spec_line(source);
    let g = |line: Seq<char>| line_spec(line);
    let p = |source: SourceSpecView| !(source is Local);
    reveal(Seq::filter);
    if n == 0 {
        assert(sources.take(0).filter_map(f) =~= Seq::<Seq<char>>::empty());
        assert(sources.take(0).filter_map(f).filter_map(g) =~= Seq::<SourceSpecView>::empty());
        assert(sources.take(0).filter(p) =~= Seq::<SourceSpecView>::empty());
    } else {
        lemma_reread_recent(sources, n - 1);
        let last = sources[n - 1];
        let before = sources.take(n - 1).filter_map(f);
        let ls = sources.take(n).filter_map(f);
        sources.lemma_filter_map_take_succ(f, n - 1);
        assert(sources.take(n).drop_last() =~= sources.take(n - 1));
        assert(sources.take(n).last() == last);
        if last is Local {
            assert(ls =~= before);
        } else {
            law_stored_line_reads_back(last);
            lemma_spec_line_is_line(last);
            let line = spec_line(last)->0;
            assert(ls =~= before.push(line));
            assert(ls.drop_last() =~= before);
            assert(ls.filter_map(g) =~= before.filter_map(g).push(last));
        }
    }
}

/// Reading back what was stored gives the stored sources in their order; this
/// machine is not stored.
pub proof fn law_parse_inverts_serialize_recent(sources: Seq<SourceSpecView>)
    requires
        forall|i: int|
            0 <= i < sources.len() ==> (#[trigger] sources[i]) is Local || (is_storable(sources[i])
                && is_one_line(sources[i])),
    ensures
        recent_specs(recent_text(sources)) == sources.filter(
            |source: SourceSpecView| !(source is Local),
        ),
{
    let ls = sources.filter_map(|source: SourceSpecView| spec_line(source));
    lemma_reread_recent(sources, sources.len() as int);
    assert(sources.take(sources.len() as int) =~= sources);
    lemma_written_lines(ls);
}

/// Every source that is read can be stored again.
pub proof fn law_read_sources_are_storable(text: Seq<char>)
    ensures
        forall|i: int|
            0 <= i < recent_specs(text).len() ==> is_storable(#[trigger] recent_specs(text)[i])
                && is_one_line(recent_specs(text)[i]),
{
    let g = |line: Seq<char>| line_spec(line);
    let ls = lines(text);
    assert forall|i: int| 0 <= i < recent_specs(text).len() implies is_storable(
        #[trigger] recent_specs(text)[i],
    ) && is_one_line(recent_specs(text)[i]) by {
        let source = recent_specs(text)[i];
        assert(ls.filter_map(g).contains(source));
        ls.lemma_filter_map_contains(g, source);
        let line = choose|line: Seq<char>| #[trigger] ls.contains(line) && g(line) == Some(source);
        lemma_lines_have_no_feed(text);
        let k = choose|k: int| 0 <= k < ls.len() && ls[k] == line;
        assert(!lines(text)[k].contains('\n'));
        let t = trimmed(line);
        let n = find_char(t, ' ') as int;
        let rest = trimmed(t.skip(n + 1));
        lemma_find_char(t, ' ');
        lemma_trimmed(line);
        lemma_trimmed(t.skip(n + 1));
        if rest.contains('\n') {
            let behind = t.skip(n + 1);
            assert(behind.contains('\n'));
            let m = choose|m: int| 0 <= m < behind.len() && behind[m] == '\n';
            assert(t[n + 1 + m] == '\n');
            assert(t.contains('\n'));
        }
    }
}

/// What is remembered begins with the source that was used, holds it once, and
/// is no longer than the limit.
pub proof fn law_used_source_comes_first(recent: Seq<SourceSpecView>, source: SourceSpecView)
    ensures
        1 <= remembered(recent, source).len() <= MAX_RECENT,
        remembered(recent, source)[0] == source,
        forall|i: int|
            1 <= i < remembered(recent, source).len() ==> !same_source(
                #[trigger] remembered(recent, source)[i],
                source,
            ),
{
    let p = |s: SourceSpecView| !same_source(s, source);
    let kept = recent.filter(p);
    assert forall|i: int| 1 <= i < remembered(recent, source).len() implies !same_source(
        #[trigger] remembered(recent, source)[i],
        source,
    ) by {
        assert(remembered(recent, source)[i] == kept[i - 1]);
        recent.lemma_filter_pred(p, i - 1);
    }
}

/// Using a source twice in a row changes nothing the second time.
pub proof fn law_remembering_is_idempotent(recent: Seq<SourceSpecView>, source: SourceSpecView)
    ensures
        remembered(remembered(recent, source), source) == remembered(recent, source),
{
    let p = |s: SourceSpecView| !same_source(s, source);
    let once = remembered(recent, source);
    law_used_source_comes_first(recent, source);
    let rest = once.drop_first();
    assert(once =~= seq![source] + rest);
    assert forall|i: int| 0 <= i < rest.len() implies p(#[trigger] rest[i]) by {
        assert(rest[i] == once[i + 1]);
    }
    lemma_filter_all(rest, p);
    Seq::filter_distributes_over_add(seq![source], rest, p);
    reveal_with_fuel(Seq::filter, 2);
    assert(seq![source].drop_last() =~= Seq::<SourceSpecView>::empty());
    assert(seq![source].filter(p) =~= Seq::<SourceSpecView>::empty());
    assert(once.filter(p) =~= rest);
}

/// No two of the sources are the same.
pub open spec fn are_distinct(sources: Seq<SourceSpecView>) -> bool {
    forall|i: int, j: int|
        0 <= i < j < sources.len() ==> !same_source(#[trigger] sources[i], #[trigger] sources[j])
}

/// Filtering keeps sources distinct.
proof fn lemma_filter_keeps_distinct(
    sources: Seq<SourceSpecView>,
    p: spec_fn(SourceSpecView) -> bool,
)
    requires
        are_distinct(sources),
    ensures
        are_distinct(sources.filter(p)),
    decreases sources.len(),
{
    reveal(Seq::filter);
    if sources.len() > 0 {
        let rest = sources.drop_last();
        let kept = rest.filter(p);
        assert forall|i: int, j: int| 0 <= i < j < rest.len() implies !same_source(
            #[trigger] rest[i],
            #[trigger] rest[j],
        ) by {
            assert(!same_source(sources[i], sources[j]));
        }
        lemma_filter_keeps_distinct(rest, p);
        if p(sources.last()) {
            let out = sources.filter(p);
            assert forall|i: int, j: int| 0 <= i < j < out.len() implies !same_source(
                #[trigger] out[i],
                #[trigger] out[j],
            ) by {
                if j < kept.len() {
                    assert(out[i] == kept[i] && out[j] == kept[j]);
                } else {
                    assert(kept.contains(kept[i]));
                    rest.lemma_filter_contains_rev(p, kept[i]);
                    let k = choose|k: int| 0 <= k < rest.len() && rest[k] == kept[i];
                    assert(!same_source(sources[k], sources[sources.len() - 1]));
                }
            }
        }
    }
}

/// Distinct remembered sources stay distinct.
pub proof fn law_remembering_keeps_sources_distinct(
    recent: Seq<SourceSpecView>,
    source: SourceSpecView,
)
    requires
        are_distinct(recent),
    ensures
        are_distinct(remembered(recent, source)),
{
    let p = |s: SourceSpecView| !same_source(s, source);
    let kept = recent.filter(p);
    let r = remembered(recent, source);
    lemma_filter_keeps_distinct(recent, p);
    law_used_source_comes_first(recent, source);
    assert forall|i: int, j: int| 0 <= i < j < r.len() implies !same_source(
        #[trigger] r[i],
        #[trigger] r[j],
    ) by {
        if i == 0 {
            assert(!same_source(r[j], source));
        } else {
            assert(r[i] == kept[i - 1] && r[j] == kept[j - 1]);
        }
    }
}

/// What is loaded after a source was recorded is what was remembered, with
/// that source first. The name or the path is one line that is not empty and
/// has no white space at its ends.
pub proof fn law_load_gives_back_what_was_recorded(text: Seq<char>, source: SourceSpecView)
    requires
        is_storable(source),
        is_one_line(source),
    ensures
        recent_specs(recent_text(remembered(recent_specs(text), source))) == remembered(
            recent_specs(text),
            source,
        ),
{
    let recent = recent_specs(text);
    let p = |s: SourceSpecView| !same_source(s, source);
    let q = |s: SourceSpecView| !(s is Local);
    let r = remembered(recent, source);
    let kept = recent.filter(p);
    law_read_sources_are_storable(text);
    assert forall|i: int| 0 <= i < r.len() implies is_storable(#[trigger] r[i]) && is_one_line(
        r[i],
    ) && q(r[i]) by {
        if i > 0 {
            assert(r[i] == kept[i - 1]);
            assert(kept.contains(kept[i - 1]));
            recent.lemma_filter_contains_rev(p, kept[i - 1]);
            let k = choose|k: int| 0 <= k < recent.len() && recent[k] == kept[i - 1];
            assert(is_storable(recent[k]));
        } else {
            assert(r[0] == source);
        }
    }
    law_parse_inverts_serialize_recent(r);
    lemma_filter_all(r, q);
}

/// The first source to be recorded is loaded back alone.
pub proof fn law_the_first_recorded_source_is_loaded(source: SourceSpecView)
    requires
        is_storable(source),
        is_one_line(source),
    ensures
        recorded(Stored::Missing, source) matches Some(text) && recent_specs(text) == seq![source],
{
    let one = seq![source];
    let q = |s: SourceSpecView| !(s is Local);
    assert forall|i: int| 0 <= i < one.len() implies q(#[trigger] one[i]) by {}
    law_parse_inverts_serialize_recent(one);
    lemma_filter_all(one, q);
}

/// Nothing is written over a stored text that cannot be read.
pub proof fn law_an_unreadable_history_is_left_alone(source: SourceSpecView)
    ensures
        recorded(Stored::Unreadable, source) is None,
{
}

/// The hosts of a configuration are distinct, and each is concrete.
pub proof fn law_config_hosts_are_concrete(text: Seq<char>)
    ensures
        config_hosts(text).no_duplicates(),
        forall|i: int|
            0 <= i < config_hosts(text).len() ==> is_concrete(#[trigger] config_hosts(text)[i]),
{
    let per_line = lines(text).map_values(|line: Seq<char>| line_hosts(line));
    let all = per_line.flatten();
    lemma_distinct(all);
    assert forall|i: int| 0 <= i < config_hosts(text).len() implies is_concrete(
        #[trigger] config_hosts(text)[i],
    ) by {
        let host = config_hosts(text)[i];
        assert(config_hosts(text).contains(host));
        assert(all.contains(host));
        let k = lemma_flatten_source(per_line, host);
        let w = words(lines(text)[k]);
        let p = |pattern: Seq<char>| is_concrete(pattern);
        let m = choose|m: int| 0 <= m < per_line[k].len() && per_line[k][m] == host;
        w.drop_first().lemma_filter_pred(p, m);
    }
}

/// What a flattened sequence holds comes from one of its parts.
proof fn lemma_flatten_source<A>(parts: Seq<Seq<A>>, x: A) -> (k: int)
    requires
        parts.flatten().contains(x),
    ensures
        0 <= k < parts.len(),
        parts[k].contains(x),
    decreases parts.len(),
{
    if parts.len() == 0 {
        0
    } else {
        let rest = parts.drop_first();
        let i = choose|i: int| 0 <= i < parts.flatten().len() && parts.flatten()[i] == x;
        if i < parts[0].len() {
            assert(parts[0][i] == x);
            0
        } else {
            assert(rest.flatten()[i - parts[0].len()] == x);
            let k = lemma_flatten_source(rest, x);
            assert(parts[k + 1] == rest[k]);
            k + 1
        }
    }
}

/// The menu offers the remembered sources first and in their order, every host
/// of the configuration, and nothing else.
pub proof fn law_menu_offers_recent_then_hosts(
    recent: Seq<SourceSpecView>,
    hosts: Seq<Seq<char>>,
)
    ensures
        ({
            let menu = with_hosts(recent, hosts);
            &&& menu.len() >= recent.len()
            &&& menu.take(recent.len() as int) == recent
            &&& forall|i: int|
                0 <= i < hosts.len() ==> menu.contains(SourceSpecView::Ssh(#[trigger] hosts[i]))
            &&& forall|i: int|
                recent.len() <= i < menu.len() ==> (#[trigger] menu[i]) is Ssh && hosts.contains(
                    menu[i]->Ssh_0,
                )
        }),
    decreases hosts.len(),
{
    let menu = with_hosts(recent, hosts);
    if hosts.len() == 0 {
        assert(menu.take(recent.len() as int) =~= recent);
    } else {
        let rest = hosts.drop_last();
        let so_far = with_hosts(recent, rest);
        let source = SourceSpecView::Ssh(hosts.last());
        law_menu_offers_recent_then_hosts(recent, rest);
        assert(menu.take(recent.len() as int) =~= so_far.take(recent.len() as int));
        assert forall|i: int| 0 <= i < hosts.len() implies menu.contains(
            SourceSpecView::Ssh(#[trigger] hosts[i]),
        ) by {
            let s = SourceSpecView::Ssh(hosts[i]);
            if i < rest.len() {
                assert(so_far.contains(SourceSpecView::Ssh(rest[i])));
                let k = choose|k: int| 0 <= k < so_far.len() && so_far[k] == s;
                assert(menu[k] == s);
            } else if !so_far.contains(source) {
                assert(menu[so_far.len() as int] == s);
            }
        }
        assert forall|i: int| recent.len() <= i < menu.len() implies (#[trigger] menu[i]) is Ssh
            && hosts.contains(menu[i]->Ssh_0) by {
            if i < so_far.len() {
                assert(menu[i] == so_far[i]);
                let k = choose|k: int| 0 <= k < rest.len() && rest[k] == menu[i]->Ssh_0;
                assert(hosts[k] == menu[i]->Ssh_0);
            } else {
                assert(hosts[hosts.len() - 1] == menu[i]->Ssh_0);
            }
        }
    }
}

/// Ten sources are remembered; a file that is missing counts as empty.
pub proof fn law_limits_of_the_history(text: &str)
    ensures
        MAX_RECENT == 10,
        contents(Some(text)) == text@,
        contents(None).len() == 0,
{
}

/// The line that stores a source says whether it is a host or a file and ends
/// with its name or its path; this machine has none.
pub proof fn law_stored_lines(source: SourceSpecView)
    ensures
        source is Local <==> spec_line(source) is None,
        source matches SourceSpecView::Ssh(host) ==> spec_line(source) == Some("ssh "@ + host),
        source matches SourceSpecView::File(path) ==> spec_line(source) == Some("file "@ + path),
{
}

/// A line stores a host exactly where it says `ssh`, a space and, apart from
/// white space around it, the name of the host; likewise a file with `file` and
/// its path. No other line stores anything.
pub proof fn law_what_a_line_stores(line: Seq<char>, text: Seq<char>)
    ensures
        ({
            let t = trimmed(line);
            &&& line_spec(line) == Some(SourceSpecView::Ssh(text)) <==> t.len() >= 4 && t[0] == 's'
                && t[1] == 's' && t[2] == 'h' && t[3] == ' ' && text.len() > 0 && text == trimmed(
                t.skip(4),
            )
            &&& line_spec(line) == Some(SourceSpecView::File(text)) <==> t.len() >= 5 && t[0] == 'f'
                && t[1] == 'i' && t[2] == 'l' && t[3] == 'e' && t[4] == ' ' && text.len() > 0
                && text == trimmed(t.skip(5))
            &&& line_spec(line) != Some(SourceSpecView::Local)
        }),
{
    reveal_strlit("ssh");
    reveal_strlit("file");
    let t = trimmed(line);
    let n = find_char(t, ' ') as int;
    lemma_find_char(t, ' ');
    if t.len() >= 4 && t[0] == 's' && t[1] == 's' && t[2] == 'h' && t[3] == ' ' {
        lemma_find_char_unique(t, ' ', 3);
        assert(t.take(3) =~= "ssh"@);
    }
    if t.len() >= 5 && t[0] == 'f' && t[1] == 'i' && t[2] == 'l' && t[3] == 'e' && t[4] == ' ' {
        lemma_find_char_unique(t, ' ', 4);
        assert(t.take(4) =~= "file"@);
        assert(t.take(4).len() != "ssh"@.len());
    }
    if n < t.len() && t.take(n) == "ssh"@ {
        assert(t.take(n).len() == 3);
        assert(t.take(n)[0] == 's' && t.take(n)[1] == 's' && t.take(n)[2] == 'h');
    }
    if n < t.len() && t.take(n) == "file"@ {
        assert(t.take(n).len() == 4);
        assert(t.take(n)[0] == 'f' && t.take(n)[1] == 'i' && t.take(n)[2] == 'l' && t.take(n)[3]
            == 'e');
    }
}

/// Every line of a stored text counts, in order, and lines that store nothing
/// are skipped.
pub proof fn law_every_stored_line_counts(text: Seq<char>)
    ensures
        recent_specs(text) == lines(text).filter(
            |line: Seq<char>| line_spec(line) is Some,
        ).map_values(|line: Seq<char>| line_spec(line)->0),
{
    let f = |line: Seq<char>| line_spec(line);
    lemma_filter_map_is_filter(lines(text), f);
    assert((|line: Seq<char>| f(line) is Some) =~= (|line: Seq<char>| line_spec(line) is Some));
    assert((|line: Seq<char>| f(line)->0) =~= (|line: Seq<char>| line_spec(line)->0));
}

/// A stored text grows by the line of one more source, and not by this machine.
pub proof fn law_stored_texts_grow_by_lines(sources: Seq<SourceSpecView>, source: SourceSpecView)
    ensures
        recent_text(Seq::empty()).len() == 0,
        recent_text(sources.push(source)) == match spec_line(source) {
            Some(line) => recent_text(sources) + line + seq!['\n'],
            None => recent_text(sources),
        },
{
    let f = |source: SourceSpecView| spec_line(source);
    let none = Seq::<SourceSpecView>::empty();
    assert(none.filter_map(f) =~= Seq::<Seq<char>>::empty());
    law_writing_lines(sources.filter_map(f), Seq::empty());
    let more = sources.push(source);
    assert(more.drop_last() =~= sources);
    match spec_line(source) {
        Some(line) => {
            law_writing_lines(sources.filter_map(f), line);
            assert(more.filter_map(f) =~= sources.filter_map(f).push(line));
        },
        None => {
            assert(more.filter_map(f) =~= sources.filter_map(f));
        },
    }
}

/// Behind the source that was used the others follow in the order that they had,
/// without those that are the same, as many as the limit leaves room for.
pub proof fn law_older_sources_follow_in_order(
    recent: Seq<SourceSpecView>,
    source: SourceSpecView,
    i: int,
)
    ensures
        ({
            let others = recent.filter(|s: SourceSpecView| !same_source(s, source));
            let r = remembered(recent, source);
            &&& r.len() == if others.len() < 9 {
                others.len() + 1
            } else {
                10
            }
            &&& r[0] == source
            &&& 1 <= i < r.len() ==> r[i] == others[i - 1]
        }),
{
}

/// What is stored after a source was used: the remembered sources, that source
/// alone where there was no file, and nothing new for this machine or where the
/// file cannot be read.
pub proof fn law_what_is_recorded(stored: Stored, source: SourceSpecView)
    ensures
        recorded(stored, source) is None <==> source is Local || stored is Unreadable,
        !(source is Local) ==> (stored matches Stored::Text(text) ==> recorded(stored, source)
            == Some(recent_text(remembered(recent_specs(text@), source)))),
        !(source is Local) && stored is Missing ==> recorded(stored, source) == Some(
            recent_text(seq![source]),
        ),
{
}

/// The word is `host` in any case.
spec fn says_host(w: Seq<char>) -> bool {
    &&& w.len() == 4
    &&& w[0] == 'h' || w[0] == 'H'
    &&& w[1] == 'o' || w[1] == 'O'
    &&& w[2] == 's' || w[2] == 'S'
    &&& w[3] == 't' || w[3] == 'T'
}

/// `host` is compared without regard to case.
proof fn lemma_says_host(w: Seq<char>)
    ensures
        same_ignoring_case(w, "host"@) <==> says_host(w),
{
    reveal_strlit("host");
    let h = "host"@;
    assert(ascii_lower('h') == 'h' && ascii_lower('o') == 'o' && ascii_lower('s') == 's'
        && ascii_lower('t') == 't');
    if w.len() == 4 {
        if same_ignoring_case(w, h) {
            assert(ascii_lower(w[0]) == 'h');
            assert(ascii_lower(w[1]) == 'o');
            assert(ascii_lower(w[2]) == 's');
            assert(ascii_lower(w[3]) == 't');
        }
        if says_host(w) {
            assert forall|i: int| 0 <= i < w.len() implies ascii_lower(#[trigger] w[i])
                == ascii_lower(h[i]) by {
                assert(i == 0 || i == 1 || i == 2 || i == 3);
            }
        }
    }
}

/// The hosts of a text and one more line.
proof fn lemma_config_hosts_push(text: Seq<char>, line: Seq<char>, longer: Seq<char>)
    requires
        lines(longer) == lines(text).push(line),
    ensures
        config_hosts(longer) == distinct(
            lines(text).map_values(|l: Seq<char>| line_hosts(l)).flatten() + line_hosts(line),
        ),
{
    let f = |l: Seq<char>| line_hosts(l);
    let before = lines(text).map_values(f);
    let after = lines(longer).map_values(f);
    assert(after =~= before.push(line_hosts(line)));
    assert(after.drop_last() =~= before);
    before.lemma_flatten_and_flatten_alt_are_equivalent();
    after.lemma_flatten_and_flatten_alt_are_equivalent();
}

/// A text of whole lines and the beginning of one more.
proof fn lemma_lines_push(text: Seq<char>, line: Seq<char>)
    requires
        text.len() == 0 || text.last() == '\n',
        !line.contains('\n'),
        line.len() > 0,
    ensures
        lines(text + line) == lines(text).push(line),
{
    law_lines_of_appended_text(text, line);
    law_lines(line, Seq::empty());
    assert(lines(text) + seq![line] =~= lines(text).push(line));
}

/// A line that does not begin with the word `host`, in any case, declares no
/// hosts.
pub proof fn law_other_lines_declare_no_hosts(text: Seq<char>, line: Seq<char>)
    requires
        text.len() == 0 || text.last() == '\n',
        !line.contains('\n'),
        words(line).len() == 0 || !({
            let w = words(line)[0];
            &&& w.len() == 4
            &&& w[0] == 'h' || w[0] == 'H'
            &&& w[1] == 'o' || w[1] == 'O'
            &&& w[2] == 's' || w[2] == 'S'
            &&& w[3] == 't' || w[3] == 'T'
        }),
    ensures
        config_hosts(Seq::empty()).len() == 0,
        config_hosts(text + line) == config_hosts(text),
{
    let f = |l: Seq<char>| line_hosts(l);
    let none = lines(Seq::<char>::empty()).map_values(f);
    assert(none =~= Seq::<Seq<Seq<char>>>::empty());
    assert(none.flatten() =~= Seq::<Seq<char>>::empty());
    if line.len() == 0 {
        assert(text + line =~= text);
    } else {
        if words(line).len() > 0 {
            lemma_says_host(words(line)[0]);
        }
        lemma_lines_push(text, line);
        lemma_config_hosts_push(text, line, text + line);
        let all = lines(text).map_values(f).flatten();
        assert(all + line_hosts(line) =~= all);
    }
}

/// A line that begins with the word `host`, in any case, declares each of its
/// other words that has no `*`, `?` or `!` in it and was not declared before:
/// one more word adds exactly that host, behind all others.
pub proof fn law_host_lines_declare_their_words(
    text: Seq<char>,
    line: Seq<char>,
    c: char,
    word: Seq<char>,
)
    requires
        text.len() == 0 || text.last() == '\n',
        !line.contains('\n'),
        words(line).len() > 0,
        ({
            let w = words(line)[0];
            &&& w.len() == 4
            &&& w[0] == 'h' || w[0] == 'H'
            &&& w[1] == 'o' || w[1] == 'O'
            &&& w[2] == 's' || w[2] == 'S'
            &&& w[3] == 't' || w[3] == 'T'
        }),
        is_space(c),
        c != '\n',
        word.len() > 0,
        forall|i: int| 0 <= i < word.len() ==> !is_space(#[trigger] word[i]),
    ensures
        words(line).len() == 1 ==> config_hosts(text + line) == config_hosts(text),
        config_hosts(text + line + seq![c] + word) == if word.contains('*') || word.contains('?')
            || word.contains('!') || config_hosts(text + line).contains(word) {
            config_hosts(text + line)
        } else {
            config_hosts(text + line).push(word)
        },
{
    reveal(Seq::filter);
    let f = |l: Seq<char>| line_hosts(l);
    let p = |pattern: Seq<char>| is_concrete(pattern);
    let all = lines(text).map_values(f).flatten();
    let longer = line + seq![c] + word;
    if line.len() == 0 {
        assert(words(line).len() == 0);
    }
    assert forall|i: int| 0 <= i < longer.len() implies longer[i] != '\n' by {
        if i < line.len() {
            assert(longer[i] == line[i]);
        } else if i > line.len() {
            assert(longer[i] == word[i - line.len() - 1]);
        }
    }
    lemma_says_host(words(line)[0]);
    lemma_lines_push(text, line);
    lemma_lines_push(text, longer);
    lemma_config_hosts_push(text, line, text + line);
    lemma_config_hosts_push(text, longer, text + longer);
    assert(text + longer =~= text + line + seq![c] + word);
    law_words_of_separated_texts(line, c, word);
    law_words(word, c, Seq::empty());
    assert(words(longer) =~= words(line).push(word));
    let few = words(line).drop_first();
    assert(words(longer).drop_first() =~= few.push(word));
    assert(few.push(word).drop_last() =~= few);
    let seen = all + line_hosts(line);
    lemma_distinct(seen);
    if is_concrete(word) {
        assert(all + line_hosts(longer) =~= seen.push(word));
        assert(seen.push(word).drop_last() =~= seen);
    } else {
        assert(all + line_hosts(longer) =~= seen);
    }
    if words(line).len() == 1 {
        assert(few =~= Seq::<Seq<char>>::empty());
        assert(line_hosts(line) =~= Seq::<Seq<char>>::empty());
        assert(seen =~= all);
    }
}

/// The ending of a line declares nothing.
pub proof fn law_line_endings_declare_no_hosts(text: Seq<char>, line: Seq<char>)
    requires
        text.len() == 0 || text.last() == '\n',
        !line.contains('\n'),
        line.len() == 0 || line.last() != '\r',
    ensures
        config_hosts(text + line + seq!['\n']) == config_hosts(text + line),
        config_hosts(text + line + seq!['\r', '\n']) == config_hosts(text + line),
{
    let f = |l: Seq<char>| line_hosts(l);
    let all = lines(text).map_values(f).flatten();
    let none = Seq::<char>::empty();
    law_lines(line, none);
    law_lines_of_appended_text(text, line + seq!['\n']);
    law_lines_of_appended_text(text, line + seq!['\r', '\n']);
    assert(line + seq!['\n'] + none =~= line + seq!['\n']);
    assert(line + seq!['\r', '\n'] + none =~= line + seq!['\r', '\n']);
    assert(seq![line] + lines(none) =~= seq![line]);
    assert(lines(text) + seq![line] =~= lines(text).push(line));
    assert(text + (line + seq!['\n']) =~= text + line + seq!['\n']);
    assert(text + (line + seq!['\r', '\n']) =~= text + line + seq!['\r', '\n']);
    lemma_config_hosts_push(text, line, text + line + seq!['\n']);
    lemma_config_hosts_push(text, line, text + line + seq!['\r', '\n']);
    if line.len() > 0 {
        lemma_lines_push(text, line);
        lemma_config_hosts_push(text, line, text + line);
    } else {
        assert(text + line =~= text);
        assert(words(line).len() == 0);
        assert(all + line_hosts(line) =~= all);
    }
}

/// The menu without hosts is what was remembered, and one more host comes last
/// where it is not there yet.
pub proof fn law_menus_grow_by_new_hosts(
    recent: Seq<SourceSpecView>,
    hosts: Seq<Seq<char>>,
    host: Seq<char>,
)
    ensures
        with_hosts(recent, Seq::empty()) == recent,
        with_hosts(recent, hosts.push(host)) == if with_hosts(recent, hosts).contains(
            SourceSpecView::Ssh(host),
        ) {
            with_hosts(recent, hosts)
        } else {
            with_hosts(recent, hosts).push(SourceSpecView::Ssh(host))
        },
{
    assert(hosts.push(host).drop_last() =~= hosts);
}

/// The state is kept below `XDG_STATE_HOME` where that is set and not empty, else
/// below the home directory, and nowhere without one.
pub proof fn law_where_the_state_is_kept(xdg_state_home: Option<&str>, home: Option<&str>)
    ensures
        ({
            let unset = xdg_state_home is None || xdg_state_home->0@.len() == 0;
            &&& !unset ==> state_path(xdg_state_home, home) == Some(
                joined_path(xdg_state_home->0@, "pkgsync"@),
            )
            &&& unset && home is Some ==> state_path(xdg_state_home, home) == Some(
                joined_path(home->0@, ".local/state/pkgsync"@),
            )
            &&& unset && home is None ==> state_path(xdg_state_home, home) is None
        }),
{
}

} // verus!
