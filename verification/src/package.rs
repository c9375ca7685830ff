//! The package data model and the text form of `pacman -Qe`: one
//! `<name> <version>` line for each explicitly installed package.
use crate::text::{
    decimal, is_line, is_space, is_word, law_blank_texts_have_no_words,
    law_last_line_feed_is_optional, law_writing_lines, lemma_views_push, lemma_words_are_words,
    lemma_words_cons, lemma_words_of_word, lemma_written_lines, lemma_written_push, lines, opt_view,
    push_decimal, split_lines, split_words, trim, trimmed, views, words, written,
};
use vstd::prelude::*;

verus! {

/// One installed package: its name and its exact version.
///
/// Versions are only ever compared for equality, so they stay plain text.
#[derive(Debug, Clone, PartialEq, Eq, Hash)]
pub struct Package {
    pub name: String,
    pub version: String,
}

/// What a `Package` stands for.
pub struct PackageView {
    pub name: Seq<char>,
    pub version: Seq<char>,
}

impl View for Package {
    type V = PackageView;

    open spec fn view(&self) -> PackageView {
        PackageView { name: self.name@, version: self.version@ }
    }
}

/// A line that is not `<name> <version>`, with its number counted from one.
#[derive(Debug, Clone, PartialEq, Eq)]
pub struct ParseError {
    pub line_number: usize,
    pub content: String,
}

/// What a `ParseError` stands for.
pub struct ParseErrorView {
    pub line_number: nat,
    pub content: Seq<char>,
}

impl View for ParseError {
    type V = ParseErrorView;

    open spec fn view(&self) -> ParseErrorView {
        ParseErrorView { line_number: self.line_number as nat, content: self.content@ }
    }
}

/// A text as `{:?}` shows it: in double quotes, with escapes.
pub uninterp spec fn quoted(s: Seq<char>) -> Seq<char>;

/// Calls the `Debug` formatting of `str`. The result depends on the text
/// alone; which characters are escaped, and how, is left to `quoted`.
#[verifier::external_body]
fn quote(s: &str) -> (r: String)
    ensures
        r@ == quoted(s@),
{
    format!("{:?}", s)
}

/// The message for a malformed line whose quoted text is `content`.
pub open spec fn malformed_message(line_number: nat, content: Seq<char>) -> Seq<char> {
    "line "@ + decimal(line_number) + ": expected `<name> <version>`, got "@ + content
}

/// Words the message for a malformed line whose quoted text is `content`.
pub fn describe_malformed(line_number: usize, content: &str) -> (r: String)
    ensures
        r@ == malformed_message(line_number as nat, content@),
{
    let mut out = String::new();
    out.append("line ");
    push_decimal(&mut out, line_number);
    out.append(": expected `<name> <version>`, got ");
    out.append(content);
    proof {
        assert(out@ =~= malformed_message(line_number as nat, content@));
    }
    out
}

impl ParseError {
    /// The message for people.
    pub fn message(&self) -> (r: String)
        ensures
            r@ == malformed_message(self@.line_number, quoted(self@.content)),
    {
        let content = quote(self.content.as_str());
        describe_malformed(self.line_number, content.as_str())
    }
}

// --- parsing -----------------------------------------------------------------
/// The package that a line names, where the line is exactly two words.
pub open spec fn line_package(line: Seq<char>) -> Option<PackageView> {
    let w = words(line);
    if w.len() == 2 {
        Some(PackageView { name: w[0], version: w[1] })
    } else {
        None
    }
}

/// A line that is neither blank nor `<name> <version>`.
pub open spec fn is_malformed(line: Seq<char>) -> bool {
    trimmed(line).len() > 0 && line_package(line) is None
}

/// The index of the first malformed line, or the number of lines.
pub open spec fn first_malformed(lines: Seq<Seq<char>>) -> nat
    decreases lines.len(),
{
    if lines.len() == 0 || is_malformed(lines[0]) {
        0
    } else {
        1 + first_malformed(lines.drop_first())
    }
}

/// What a package list says: the packages of its lines in order, or the first
/// malformed line.
pub open spec fn parsed_list(text: Seq<char>) -> Result<Seq<PackageView>, ParseErrorView> {
    let ls = lines(text);
    let bad = first_malformed(ls);
    if bad < ls.len() {
        Err(ParseErrorView { line_number: bad + 1, content: ls[bad as int] })
    } else {
        Ok(ls.filter_map(|line: Seq<char>| line_package(line)))
    }
}

/// A parse result seen through the views of its parts.
pub open spec fn list_view(r: Result<Vec<Package>, ParseError>) -> Result<
    Seq<PackageView>,
    ParseErrorView,
> {
    match r {
        Ok(packages) => Ok(views(packages@)),
        Err(e) => Err(e@),
    }
}

/// `first_malformed` finds a malformed line after lines that are not.
pub proof fn lemma_first_malformed_unique(lines: Seq<Seq<char>>, n: nat)
    requires
        n <= lines.len(),
        n < lines.len() ==> is_malformed(lines[n as int]),
        forall|i: int| 0 <= i < n ==> !is_malformed(#[trigger] lines[i]),
    ensures
        first_malformed(lines) == n,
    decreases lines.len(),
{
    if n > 0 {
        assert(!is_malformed(lines[0]));
        let rest = lines.drop_first();
        assert forall|i: int| 0 <= i < n - 1 implies !is_malformed(#[trigger] rest[i]) by {
            assert(rest[i] == lines[i + 1]);
        }
        lemma_first_malformed_unique(rest, (n - 1) as nat);
    }
}

/// Parses one `<name> <version>` line; `None` where it is not exactly two words.
pub fn parse_line(line: &str) -> (r: Option<Package>)
    ensures
        opt_view(r) == line_package(line@),
{
    let parts: Vec<String> = split_words(line);
    proof {
        assert(views(parts@).len() == parts@.len());
    }
    if parts.len() != 2 {
        return None;
    }
    let package = Package { name: parts[0].clone(), version: parts[1].clone() };
    proof {
        assert(views(parts@)[0] == parts@[0]@);
        assert(views(parts@)[1] == parts@[1]@);
    }
    Some(package)
}

/// Parses the output of `pacman -Qe`. Blank lines are skipped; the first
/// malformed line refuses the whole list.
pub fn parse_package_list(raw: &str) -> (r: Result<Vec<Package>, ParseError>)
    ensures
        list_view(r) == parsed_list(raw@),
{
    let ls: Vec<String> = split_lines(raw);
    let ghost all = lines(raw@);
    let ghost f = |line: Seq<char>| line_package(line);
    let mut packages: Vec<Package> = Vec::new();
    let mut i: usize = 0;
    proof {
        assert(views(packages@) =~= all.take(0).filter_map(f));
    }
    while i < ls.len()
        invariant
            i <= ls@.len(),
            all == lines(raw@),
            all == views(ls@),
            f == (|line: Seq<char>| line_package(line)),
            forall|k: int| 0 <= k < i ==> !is_malformed(#[trigger] all[k]),
            views(packages@) == all.take(i as int).filter_map(f),
        decreases ls@.len() - i,
    {
        let line: &str = ls[i].as_str();
        proof {
            assert(line@ == all[i as int]);
            all.lemma_filter_map_take_succ(f, i as int);
        }
        let content = trim(line);
        let parsed = parse_line(line);
        match parsed {
            Some(package) => {
                proof {
                    lemma_views_push(packages@, package);
                    assert(views(packages@) + seq![package@] =~= views(packages@).push(package@));
                }
                packages.push(package);
            },
            None => {
                if !content.as_str().is_empty() {
                    proof {
                        lemma_first_malformed_unique(all, i as nat);
                    }
                    return Err(ParseError { line_number: i + 1, content: ls[i].clone() });
                }
            },
        }
        i = i + 1;
    }
    proof {
        lemma_first_malformed_unique(all, all.len());
        assert(all.take(i as int) =~= all);
    }
    Ok(packages)
}

// --- writing -----------------------------------------------------------------
/// The line of one package, without its ending.
pub open spec fn package_line(p: PackageView) -> Seq<char> {
    p.name + seq![' '] + p.version
}

/// A package list as text: a line for each package.
pub open spec fn list_text(packages: Seq<PackageView>) -> Seq<char> {
    written(packages.map_values(|p: PackageView| package_line(p)))
}

/// The text of one more package is the text so far and one more line.
proof fn lemma_list_text_push(packages: Seq<PackageView>, p: PackageView)
    ensures
        list_text(packages.push(p)) == list_text(packages) + package_line(p).push('\n'),
{
    let f = |p: PackageView| package_line(p);
    lemma_written_push(packages.map_values(f), package_line(p));
    assert(packages.push(p).map_values(f) =~= packages.map_values(f).push(package_line(p)));
}

/// Writes packages in the form of `pacman -Qe`.
pub fn serialize_packages(packages: &[Package]) -> (r: String)
    ensures
        r@ == list_text(views(packages@)),
{
    let mut out = String::new();
    let mut i: usize = 0;
    proof {
        let none = views(packages@).take(0).map_values(|p: PackageView| package_line(p));
        assert(written(none) =~= Seq::<char>::empty());
    }
    while i < packages.len()
        invariant
            i <= packages@.len(),
            out@ == list_text(views(packages@).take(i as int)),
        decreases packages@.len() - i,
    {
        let p = &packages[i];
        proof {
            let v = views(packages@);
            lemma_list_text_push(v.take(i as int), v[i as int]);
            assert(v.take(i + 1) =~= v.take(i as int).push(v[i as int]));
            assert(v[i as int] == p@);
        }
        let ghost before = out@;
        out.append(p.name.as_str());
        out.push(' ');
        out.append(p.version.as_str());
        out.push('\n');
        proof {
            assert(out@ =~= before + package_line(p@).push('\n'));
        }
        i = i + 1;
    }
    proof {
        assert(views(packages@).take(i as int) =~= views(packages@));
    }
    out
}

// --- laws --------------------------------------------------------------------
/// A package that a list can hold: its name and its version are words.
pub open spec fn is_listable(p: PackageView) -> bool {
    is_word(p.name) && is_word(p.version)
}

/// The line of a listable package is not blank, has no line feed, and names
/// that package.
proof fn lemma_package_line(p: PackageView)
    requires
        is_listable(p),
    ensures
        line_package(package_line(p)) == Some(p),
        is_line(package_line(p)),
{
    let line = package_line(p);
    lemma_words_cons(p.name, ' ', p.version);
    lemma_words_of_word(p.version);
    assert(words(line) =~= seq![p.name, p.version]);
    assert forall|i: int| 0 <= i < line.len() implies line[i] != '\n' by {
        if i < p.name.len() {
            assert(line[i] == p.name[i]);
        } else if i > p.name.len() {
            assert(line[i] == p.version[i - p.name.len() - 1]);
        }
    }
    assert(line.last() == p.version.last());
    assert(!is_space(p.version[p.version.len() - 1]));
}

/// Reading a written list gives back its packages, where every name and every
/// version is a word.
pub proof fn law_parse_inverts_serialize(packages: Seq<PackageView>)
    requires
        forall|i: int| 0 <= i < packages.len() ==> is_listable(#[trigger] packages[i]),
    ensures
        parsed_list(list_text(packages)) == Ok::<Seq<PackageView>, ParseErrorView>(packages),
{
    let g = |p: PackageView| package_line(p);
    let h = |line: Seq<char>| line_package(line);
    let ls = packages.map_values(g);
    assert forall|i: int| 0 <= i < ls.len() implies is_line(#[trigger] ls[i]) && !is_malformed(
        ls[i],
    ) by {
        lemma_package_line(packages[i]);
    }
    lemma_written_lines(ls);
    lemma_first_malformed_unique(ls, ls.len());
    lemma_reread(packages, packages.len() as int);
    assert(ls.take(ls.len() as int) =~= ls);
    assert(packages.take(packages.len() as int) =~= packages);
}

/// The packages that the first `n` lines name are the first `n` packages.
proof fn lemma_reread(packages: Seq<PackageView>, n: int)
    requires
        forall|i: int| 0 <= i < packages.len() ==> is_listable(#[trigger] packages[i]),
        0 <= n <= packages.len(),
    ensures
        packages.map_values(|p: PackageView| package_line(p)).take(n).filter_map(
            |line: Seq<char>| line_package(line),
        ) == packages.take(n),
    decreases n,
{
    let g = |p: PackageView| package_line(p);
    let h = |line: Seq<char>| line_package(line);
    let ls = packages.map_values(g);
    if n > 0 {
        lemma_reread(packages, n - 1);
        ls.lemma_filter_map_take_succ(h, n - 1);
        lemma_package_line(packages[n - 1]);
        assert(packages.take(n) =~= packages.take(n - 1) + seq![packages[n - 1]]);
    } else {
        assert(ls.take(0).filter_map(h) =~= packages.take(0));
    }
}

/// Every package that is read from a list can be written to one.
pub proof fn law_parsed_packages_are_listable(text: Seq<char>)
    ensures
        parsed_list(text) matches Ok(packages) ==> forall|i: int|
            0 <= i < packages.len() ==> is_listable(#[trigger] packages[i]),
{
    let h = |line: Seq<char>| line_package(line);
    let ls = lines(text);
    if let Ok(packages) = parsed_list(text) {
        assert forall|i: int| 0 <= i < packages.len() implies is_listable(
            #[trigger] packages[i],
        ) by {
            let p = packages[i];
            assert(ls.filter_map(h).contains(p));
            ls.lemma_filter_map_contains(h, p);
            let line = choose|line: Seq<char>| #[trigger] ls.contains(line) && h(line) == Some(p);
            lemma_words_are_words(line);
            assert(is_word(words(line)[0]));
            assert(is_word(words(line)[1]));
        }
    }
}

/// A list that was read, written and read again says the same.
pub proof fn law_rewriting_keeps_the_list(text: Seq<char>)
    ensures
        parsed_list(text) matches Ok(packages) ==> parsed_list(list_text(packages)) == Ok::<
            Seq<PackageView>,
            ParseErrorView,
        >(packages),
{
    law_parsed_packages_are_listable(text);
    if let Ok(packages) = parsed_list(text) {
        law_parse_inverts_serialize(packages);
    }
}

/// The views of packages and errors show all their parts.
pub proof fn law_package_views(p: Package, e: ParseError)
    ensures
        p@.name == p.name@,
        p@.version == p.version@,
        e@.line_number == e.line_number,
        e@.content == e.content@,
{
}

/// Every line counts. A list is refused exactly where some line is neither blank
/// nor two words, and then for the first such line, with its number counted
/// from one. Otherwise each line that is not blank gives one package, in order:
/// its first word is the name and its second the version.
pub proof fn law_every_line_counts(text: Seq<char>)
    ensures
        ({
            let ls = lines(text);
            match parsed_list(text) {
                Ok(packages) => {
                    &&& forall|i: int|
                        0 <= i < ls.len() ==> words(#[trigger] ls[i]).len() == 0 || words(
                            ls[i],
                        ).len() == 2
                    &&& packages == ls.filter(|line: Seq<char>| words(line).len() > 0).map_values(
                        |line: Seq<char>|
                            PackageView { name: words(line)[0], version: words(line)[1] },
                    )
                },
                Err(e) => {
                    let i = e.line_number - 1;
                    &&& 0 <= i < ls.len()
                    &&& e.content == ls[i]
                    &&& words(ls[i]).len() != 0
                    &&& words(ls[i]).len() != 2
                    &&& forall|j: int|
                        0 <= j < i ==> words(#[trigger] ls[j]).len() == 0 || words(ls[j]).len()
                            == 2
                },
            }
        }),
{
    let ls = lines(text);
    lemma_first_malformed(ls);
    assert forall|i: int| 0 <= i < ls.len() implies (is_malformed(#[trigger] ls[i]) <==> words(
        ls[i],
    ).len() != 0 && words(ls[i]).len() != 2) by {
        law_blank_texts_have_no_words(ls[i]);
    }
    if first_malformed(ls) >= ls.len() {
        lemma_packages_of_lines(ls);
    }
}

/// `first_malformed` is the index of the first malformed line.
proof fn lemma_first_malformed(ls: Seq<Seq<char>>)
    ensures
        first_malformed(ls) <= ls.len(),
        first_malformed(ls) < ls.len() ==> is_malformed(ls[first_malformed(ls) as int]),
        forall|i: int| 0 <= i < first_malformed(ls) ==> !is_malformed(#[trigger] ls[i]),
    decreases ls.len(),
{
    if ls.len() > 0 && !is_malformed(ls[0]) {
        let rest = ls.drop_first();
        lemma_first_malformed(rest);
        assert forall|i: int| 0 <= i < first_malformed(ls) implies !is_malformed(
            #[trigger] ls[i],
        ) by {
            if i > 0 {
                assert(ls[i] == rest[i - 1]);
            }
        }
    }
}

/// Lines of no or two words give a package for each of the latter.
proof fn lemma_packages_of_lines(ls: Seq<Seq<char>>)
    requires
        forall|i: int|
            0 <= i < ls.len() ==> words(#[trigger] ls[i]).len() == 0 || words(ls[i]).len() == 2,
    ensures
        ls.filter_map(|line: Seq<char>| line_package(line)) == ls.filter(
            |line: Seq<char>| words(line).len() > 0,
        ).map_values(
            |line: Seq<char>| PackageView { name: words(line)[0], version: words(line)[1] },
        ),
    decreases ls.len(),
{
    reveal(Seq::filter);
    let f = |line: Seq<char>| line_package(line);
    let p = |line: Seq<char>| words(line).len() > 0;
    let g = |line: Seq<char>| PackageView { name: words(line)[0], version: words(line)[1] };
    if ls.len() > 0 {
        let rest = ls.drop_last();
        let last = ls[ls.len() - 1];
        assert forall|i: int| 0 <= i < rest.len() implies words(#[trigger] rest[i]).len() == 0
            || words(rest[i]).len() == 2 by {
            assert(rest[i] == ls[i]);
        }
        lemma_packages_of_lines(rest);
        assert(last == ls.last());
        if p(last) {
            assert(ls.filter_map(f) =~= rest.filter_map(f).push(g(last)));
            assert(ls.filter(p).map_values(g) =~= rest.filter(p).map_values(g).push(g(last)));
        } else {
            assert(ls.filter_map(f) =~= rest.filter_map(f));
        }
    } else {
        assert(ls.filter_map(f) =~= ls.filter(p).map_values(g));
    }
}

/// A list says the same whether or not a line feed ends its last line.
pub proof fn law_list_may_lack_its_last_line_feed(text: Seq<char>)
    requires
        text.len() > 0,
        text.last() != '\n',
        text.last() != '\r',
    ensures
        parsed_list(text + seq!['\n']) == parsed_list(text),
{
    law_last_line_feed_is_optional(text);
}

/// A written list without its last line feed still gives back its packages.
pub proof fn law_parse_inverts_serialize_without_line_feed(packages: Seq<PackageView>)
    requires
        packages.len() > 0,
        forall|i: int| 0 <= i < packages.len() ==> is_listable(#[trigger] packages[i]),
    ensures
        list_text(packages).len() > 0,
        parsed_list(list_text(packages).drop_last()) == Ok::<Seq<PackageView>, ParseErrorView>(
            packages,
        ),
{
    let rest = packages.drop_last();
    let last = packages[packages.len() - 1];
    lemma_list_text_push(rest, last);
    assert(rest.push(last) =~= packages);
    let text = list_text(packages);
    let short = text.drop_last();
    assert(is_listable(last));
    assert(short.last() == last.version.last());
    assert(!is_space(last.version[last.version.len() - 1]));
    assert(short + seq!['\n'] =~= text);
    law_list_may_lack_its_last_line_feed(short);
    law_parse_inverts_serialize(packages);
}

/// A list as text: nothing for no packages, and for one more package its name,
/// a space, its version and a line feed more.
pub proof fn law_written_lists_grow_by_lines(packages: Seq<PackageView>, p: PackageView)
    ensures
        list_text(Seq::empty()).len() == 0,
        list_text(packages.push(p)) == list_text(packages) + p.name + seq![' '] + p.version + seq![
            '\n',
        ],
{
    lemma_list_text_push(packages, p);
    assert(list_text(packages) + package_line(p).push('\n') =~= list_text(packages) + p.name + seq![
        ' ',
    ] + p.version + seq!['\n']);
    let none = Seq::<PackageView>::empty();
    law_writing_lines(Seq::empty(), Seq::empty());
    assert(none.map_values(|p: PackageView| package_line(p)) =~= Seq::<Seq<char>>::empty());
}

/// The message for a malformed line begins with the number of the line, ends
/// with its quoted text, and says in between what was expected.
pub proof fn law_malformed_lines_are_described(line_number: nat, content: Seq<char>)
    ensures
        malformed_message(line_number, content) == "line "@ + decimal(line_number)
            + ": expected `<name> <version>`, got "@ + content,
{
}

/// A line is a package exactly where it has two words: the name and the version.
pub proof fn law_a_package_line_is_two_words(line: Seq<char>)
    ensures
        line_package(line) is Some <==> words(line).len() == 2,
        line_package(line) matches Some(p) ==> p.name == words(line)[0] && p.version == words(
            line,
        )[1],
{
}

/// The view of a parse result shows what it holds.
pub proof fn law_list_views(r: Result<Vec<Package>, ParseError>)
    ensures
        r matches Ok(packages) ==> list_view(r) == Ok::<Seq<PackageView>, ParseErrorView>(
            views(packages@),
        ),
        r matches Err(e) ==> list_view(r) == Err::<Seq<PackageView>, ParseErrorView>(e@),
{
}

} // verus!
