//! Text as a sequence of characters: lines, words, trimming and the decimal
//! notation of numbers.
use vstd::prelude::*;

verus! {

/// `String::push` appends one character to the end of the string.
pub assume_specification[ String::push ](s: &mut String, ch: char)
    ensures
        final(s)@ == old(s)@.push(ch),
;

/// The characters with the Unicode property `White_Space`.
pub open spec fn is_space(c: char) -> bool {
    ||| '\u{9}' <= c && c <= '\u{d}'
    ||| c == '\u{20}'
    ||| c == '\u{85}'
    ||| c == '\u{a0}'
    ||| c == '\u{1680}'
    ||| '\u{2000}' <= c && c <= '\u{200a}'
    ||| c == '\u{2028}'
    ||| c == '\u{2029}'
    ||| c == '\u{202f}'
    ||| c == '\u{205f}'
    ||| c == '\u{3000}'
}

/// Tells whether `c` is white space.
pub fn is_whitespace(c: char) -> (r: bool)
    ensures
        r == is_space(c),
{
    ('\u{9}' <= c && c <= '\u{d}') || c == '\u{20}' || c == '\u{85}' || c == '\u{a0}' || c
        == '\u{1680}' || ('\u{2000}' <= c && c <= '\u{200a}') || c == '\u{2028}' || c == '\u{2029}'
        || c == '\u{202f}' || c == '\u{205f}' || c == '\u{3000}'
}

/// The characters of `s`, one per element.
pub fn chars_of(s: &str) -> (r: Vec<char>)
    ensures
        r@ == s@,
{
    let mut out: Vec<char> = Vec::new();
    for c in it: s.chars()
        invariant
            it.seq() == s@,
            out@ == s@.take(it.index() as int),
    {
        out.push(c);
    }
    assert(s@.take(s@.len() as int) == s@);
    out
}

/// The characters from index `from` up to `to` as a string.
pub fn string_of(chars: &[char], from: usize, to: usize) -> (r: String)
    requires
        from <= to <= chars@.len(),
    ensures
        r@ == chars@.subrange(from as int, to as int),
{
    let mut out = String::new();
    let mut i: usize = from;
    while i < to
        invariant
            from <= i <= to <= chars@.len(),
            out@ == chars@.subrange(from as int, i as int),
        decreases to - i,
    {
        out.push(chars[i]);
        i = i + 1;
    }
    out
}

/// The views of a sequence of values.
pub open spec fn views<T: View>(s: Seq<T>) -> Seq<T::V> {
    s.map_values(|x: T| x@)
}

/// The view of an optional value.
pub open spec fn opt_view<T: View>(o: Option<T>) -> Option<T::V> {
    match o {
        Some(x) => Some(x@),
        None => None,
    }
}

/// Appending a value appends its view.
pub proof fn lemma_views_push<T: View>(s: Seq<T>, x: T)
    ensures
        views(s.push(x)) == views(s).push(x@),
{
    assert(views(s.push(x)) =~= views(s).push(x@));
}

// --- searching ---------------------------------------------------------------
/// The index of the first `c` in `s`, or the length of `s` where there is none.
pub open spec fn find_char(s: Seq<char>, c: char) -> nat
    decreases s.len(),
{
    if s.len() == 0 || s[0] == c {
        0
    } else {
        1 + find_char(s.drop_first(), c)
    }
}

/// What `find_char` returns is the first occurrence.
pub proof fn lemma_find_char(s: Seq<char>, c: char)
    ensures
        find_char(s, c) <= s.len(),
        find_char(s, c) < s.len() ==> s[find_char(s, c) as int] == c,
        forall|i: int| 0 <= i < find_char(s, c) ==> s[i] != c,
    decreases s.len(),
{
    if s.len() > 0 && s[0] != c {
        lemma_find_char(s.drop_first(), c);
        assert forall|i: int| 0 <= i < find_char(s, c) implies s[i] != c by {
            if i > 0 {
                assert(s[i] == s.drop_first()[i - 1]);
            }
        }
    }
}

/// An index with the properties of `find_char` is `find_char`.
pub proof fn lemma_find_char_unique(s: Seq<char>, c: char, n: nat)
    requires
        n <= s.len(),
        n < s.len() ==> s[n as int] == c,
        forall|i: int| 0 <= i < n ==> s[i] != c,
    ensures
        find_char(s, c) == n,
{
    lemma_find_char(s, c);
    let m = find_char(s, c);
    if m < n {
        assert(s[m as int] != c);
    }
    if n < m {
        assert(s[n as int] != c);
    }
}

/// The index of the first `c` in `chars` at or after `from`.
pub fn find_from(chars: &[char], from: usize, c: char) -> (r: usize)
    requires
        from <= chars@.len(),
    ensures
        from <= r <= chars@.len(),
        r == from + find_char(chars@.skip(from as int), c),
{
    let mut i: usize = from;
    while i < chars.len() && chars[i] != c
        invariant
            from <= i <= chars@.len(),
            forall|k: int| from <= k < i ==> chars@[k] != c,
        decreases chars@.len() - i,
    {
        i = i + 1;
    }
    proof {
        lemma_find_char_unique(chars@.skip(from as int), c, (i - from) as nat);
    }
    i
}

// --- lines -------------------------------------------------------------------
/// A line without the carriage return that may end it.
pub open spec fn strip_cr(s: Seq<char>) -> Seq<char> {
    if s.len() > 0 && s.last() == '\r' {
        s.drop_last()
    } else {
        s
    }
}

/// The lines of a text. A line ends at a line feed, or at a carriage return
/// and a line feed; the last line may lack its ending.
pub open spec fn lines(s: Seq<char>) -> Seq<Seq<char>>
    decreases s.len(),
{
    let n = find_char(s, '\n');
    if s.len() == 0 {
        Seq::empty()
    } else if n < s.len() {
        seq![strip_cr(s.take(n as int))] + lines(s.skip(n as int + 1))
    } else {
        seq![s]
    }
}

/// Splits a text into its lines.
pub fn split_lines(text: &str) -> (r: Vec<String>)
    ensures
        views(r@) == lines(text@),
{
    let chars: Vec<char> = chars_of(text);
    let mut out: Vec<String> = Vec::new();
    let mut i: usize = 0;
    proof {
        assert(chars@.skip(0) == chars@);
        assert(views(out@) == Seq::<Seq<char>>::empty());
    }
    while i < chars.len()
        invariant
            i <= chars@.len(),
            lines(chars@) == views(out@) + lines(chars@.skip(i as int)),
        decreases chars@.len() - i,
    {
        let ghost rest = chars@.skip(i as int);
        let n: usize = find_from(chars.as_slice(), i, '\n');
        let ghost before = views(out@);
        if n < chars.len() {
            let mut end: usize = n;
            if i < end && chars[end - 1] == '\r' {
                end = end - 1;
            }
            let line = string_of(chars.as_slice(), i, end);
            proof {
                assert(line@ == strip_cr(rest.take(n - i)));
                assert(rest.skip(n - i + 1) == chars@.skip(n + 1));
                lemma_views_push(out@, line);
                assert(before.push(line@) + lines(chars@.skip(n + 1)) == before + (seq![line@]
                    + lines(chars@.skip(n + 1))));
            }
            out.push(line);
            i = n + 1;
        } else {
            let line = string_of(chars.as_slice(), i, n);
            proof {
                assert(line@ == rest);
                lemma_views_push(out@, line);
                assert(chars@.skip(n as int) == Seq::<char>::empty());
                assert(lines(chars@.skip(n as int)) == Seq::<Seq<char>>::empty());
                assert(before.push(line@) + Seq::<Seq<char>>::empty() == before + seq![line@]);
            }
            out.push(line);
            i = n;
        }
    }
    proof {
        assert(chars@.skip(i as int) == Seq::<char>::empty());
        assert(views(out@) + Seq::<Seq<char>>::empty() == views(out@));
    }
    out
}

/// A text without line feeds, then a line feed, is one line before the lines
/// of what follows.
pub proof fn lemma_lines_cons(line: Seq<char>, rest: Seq<char>)
    requires
        !line.contains('\n'),
    ensures
        lines(line + seq!['\n'] + rest) == seq![strip_cr(line)] + lines(rest),
{
    let s = line + seq!['\n'] + rest;
    assert forall|i: int| 0 <= i < line.len() implies s[i] != '\n' by {
        assert(s[i] == line[i]);
    }
    lemma_find_char_unique(s, '\n', line.len());
    assert(s.take(line.len() as int) =~= line);
    assert(s.skip(line.len() as int + 1) =~= rest);
}

/// Texts written one per line.
pub open spec fn written(ls: Seq<Seq<char>>) -> Seq<char> {
    ls.map_values(|line: Seq<char>| line.push('\n')).flatten()
}

/// Writing one more text appends it and a line feed.
pub proof fn lemma_written_push(ls: Seq<Seq<char>>, line: Seq<char>)
    ensures
        written(ls.push(line)) == written(ls) + line.push('\n'),
{
    let f = |line: Seq<char>| line.push('\n');
    let so_far = ls.map_values(f);
    let all = ls.push(line).map_values(f);
    so_far.lemma_flatten_and_flatten_alt_are_equivalent();
    all.lemma_flatten_and_flatten_alt_are_equivalent();
    assert(all.drop_last() =~= so_far);
    assert(all.last() == line.push('\n'));
}

/// A text that is one line: it has no line feed, and no carriage return at its
/// end.
pub open spec fn is_line(s: Seq<char>) -> bool {
    !s.contains('\n') && strip_cr(s) == s
}

/// Texts that are lines, written one per line, are the lines of what is
/// written.
pub proof fn lemma_written_lines(ls: Seq<Seq<char>>)
    requires
        forall|i: int| 0 <= i < ls.len() ==> is_line(#[trigger] ls[i]),
    ensures
        lines(written(ls)) == ls,
    decreases ls.len(),
{
    let f = |line: Seq<char>| line.push('\n');
    if ls.len() == 0 {
        assert(written(ls) =~= Seq::<char>::empty());
        assert(lines(Seq::<char>::empty()) =~= ls);
    } else {
        let rest = ls.drop_first();
        assert forall|i: int| 0 <= i < rest.len() implies is_line(#[trigger] rest[i]) by {
            assert(rest[i] == ls[i + 1]);
        }
        lemma_written_lines(rest);
        assert(is_line(ls[0]));
        assert(ls.map_values(f).drop_first() =~= rest.map_values(f));
        assert(written(ls) =~= ls[0] + seq!['\n'] + written(rest));
        lemma_lines_cons(ls[0], written(rest));
        assert(seq![ls[0]] + rest =~= ls);
    }
}

/// No line holds a line feed.
pub proof fn lemma_lines_have_no_feed(s: Seq<char>)
    ensures
        forall|i: int| 0 <= i < lines(s).len() ==> !(#[trigger] lines(s)[i]).contains('\n'),
    decreases s.len(),
{
    let n = find_char(s, '\n');
    lemma_find_char(s, '\n');
    if s.len() > 0 {
        if n < s.len() {
            let rest = s.skip(n as int + 1);
            lemma_lines_have_no_feed(rest);
            assert forall|i: int| 0 <= i < lines(s).len() implies !(
            #[trigger] lines(s)[i]).contains('\n') by {
                if i > 0 {
                    assert(lines(s)[i] == lines(rest)[i - 1]);
                } else {
                    let line = strip_cr(s.take(n as int));
                    assert forall|k: int| 0 <= k < line.len() implies line[k] != '\n' by {
                        assert(line[k] == s[k]);
                    }
                }
            }
        } else {
            assert(lines(s) =~= seq![s]);
        }
    } else {
        assert(lines(s).len() == 0);
    }
}

// --- words -------------------------------------------------------------------
/// A text of at least one character and no white space.
pub open spec fn is_word(s: Seq<char>) -> bool {
    s.len() > 0 && forall|i: int| 0 <= i < s.len() ==> !is_space(#[trigger] s[i])
}

/// The number of characters before the first white space.
pub open spec fn word_len(s: Seq<char>) -> nat
    decreases s.len(),
{
    if s.len() == 0 || is_space(s[0]) {
        0
    } else {
        1 + word_len(s.drop_first())
    }
}

/// What `word_len` returns is the length of the leading run of other characters.
pub proof fn lemma_word_len(s: Seq<char>)
    ensures
        word_len(s) <= s.len(),
        word_len(s) < s.len() ==> is_space(s[word_len(s) as int]),
        forall|i: int| 0 <= i < word_len(s) ==> !is_space(#[trigger] s[i]),
    decreases s.len(),
{
    if s.len() > 0 && !is_space(s[0]) {
        lemma_word_len(s.drop_first());
        assert forall|i: int| 0 <= i < word_len(s) implies !is_space(#[trigger] s[i]) by {
            if i > 0 {
                assert(s[i] == s.drop_first()[i - 1]);
            }
        }
    }
}

/// A length with the properties of `word_len` is `word_len`.
pub proof fn lemma_word_len_unique(s: Seq<char>, n: nat)
    requires
        n <= s.len(),
        n < s.len() ==> is_space(s[n as int]),
        forall|i: int| 0 <= i < n ==> !is_space(#[trigger] s[i]),
    ensures
        word_len(s) == n,
{
    lemma_word_len(s);
    let m = word_len(s);
    if m < n {
        assert(!is_space(s[m as int]));
    }
    if n < m {
        assert(!is_space(s[n as int]));
    }
}

/// The maximal runs of characters other than white space, in order.
pub open spec fn words(s: Seq<char>) -> Seq<Seq<char>>
    decreases s.len(),
{
    if s.len() == 0 {
        Seq::empty()
    } else if is_space(s[0]) {
        words(s.drop_first())
    } else {
        proof {
            lemma_word_len(s);
        }
        seq![s.take(word_len(s) as int)] + words(s.skip(word_len(s) as int))
    }
}

/// Every word is a word: not empty, and free of white space.
pub proof fn lemma_words_are_words(s: Seq<char>)
    ensures
        forall|i: int| 0 <= i < words(s).len() ==> is_word(#[trigger] words(s)[i]),
    decreases s.len(),
{
    if s.len() == 0 {
        assert(words(s).len() == 0);
    } else {
        if is_space(s[0]) {
            lemma_words_are_words(s.drop_first());
            assert(words(s) == words(s.drop_first()));
        } else {
            lemma_word_len(s);
            let n = word_len(s) as int;
            lemma_words_are_words(s.skip(n));
            assert forall|i: int| 0 <= i < words(s).len() implies is_word(
                #[trigger] words(s)[i],
            ) by {
                if i > 0 {
                    assert(words(s)[i] == words(s.skip(n))[i - 1]);
                }
            }
        }
    }
}

/// A word is its own only word.
pub proof fn lemma_words_of_word(a: Seq<char>)
    requires
        is_word(a),
    ensures
        words(a) == seq![a],
{
    lemma_word_len_unique(a, a.len());
    assert(a.take(a.len() as int) =~= a);
    assert(a.skip(a.len() as int) =~= Seq::<char>::empty());
    assert(words(Seq::<char>::empty()) == Seq::<Seq<char>>::empty());
    assert(words(a) == seq![a] + words(Seq::<char>::empty()));
}

/// A word, a white space and a text: the word comes first, then the words of
/// the text.
pub proof fn lemma_words_cons(a: Seq<char>, c: char, rest: Seq<char>)
    requires
        is_word(a),
        is_space(c),
    ensures
        words(a + seq![c] + rest) == seq![a] + words(rest),
{
    let s = a + seq![c] + rest;
    assert(s[0] == a[0]);
    assert forall|i: int| 0 <= i < a.len() implies !is_space(#[trigger] s[i]) by {
        assert(s[i] == a[i]);
    }
    assert(s[a.len() as int] == c);
    lemma_word_len_unique(s, a.len());
    let tail = s.skip(a.len() as int);
    assert(s.take(a.len() as int) =~= a);
    assert(tail[0] == c);
    assert(tail.drop_first() =~= rest);
    assert(words(tail) == words(rest));
}

/// Splits a text at white space.
pub fn split_words(text: &str) -> (r: Vec<String>)
    ensures
        views(r@) == words(text@),
{
    let chars: Vec<char> = chars_of(text);
    let mut out: Vec<String> = Vec::new();
    let mut i: usize = 0;
    proof {
        assert(chars@.skip(0) == chars@);
        assert(views(out@) == Seq::<Seq<char>>::empty());
    }
    while i < chars.len()
        invariant
            i <= chars@.len(),
            words(chars@) == views(out@) + words(chars@.skip(i as int)),
        decreases chars@.len() - i,
    {
        let ghost rest = chars@.skip(i as int);
        if is_whitespace(chars[i]) {
            proof {
                assert(rest.drop_first() == chars@.skip(i + 1));
            }
            i = i + 1;
        } else {
            let mut n: usize = i + 1;
            while n < chars.len() && !is_whitespace(chars[n])
                invariant
                    i < n <= chars@.len(),
                    forall|k: int| i <= k < n ==> !is_space(#[trigger] chars@[k]),
                decreases chars@.len() - n,
            {
                n = n + 1;
            }
            let word = string_of(chars.as_slice(), i, n);
            proof {
                lemma_word_len_unique(rest, (n - i) as nat);
                assert(word@ == rest.take(n - i));
                assert(rest.skip(n - i) == chars@.skip(n as int));
                lemma_views_push(out@, word);
                assert(views(out@).push(word@) + words(chars@.skip(n as int)) == views(out@) + (
                seq![word@] + words(chars@.skip(n as int))));
            }
            out.push(word);
            i = n;
        }
    }
    proof {
        assert(chars@.skip(i as int) == Seq::<char>::empty());
        assert(views(out@) + Seq::<Seq<char>>::empty() == views(out@));
    }
    out
}

// --- trimming ----------------------------------------------------------------
/// A text without its leading white space.
pub open spec fn trim_start(s: Seq<char>) -> Seq<char>
    decreases s.len(),
{
    if s.len() > 0 && is_space(s[0]) {
        trim_start(s.drop_first())
    } else {
        s
    }
}

/// A text without its trailing white space.
pub open spec fn trim_end(s: Seq<char>) -> Seq<char>
    decreases s.len(),
{
    if s.len() > 0 && is_space(s.last()) {
        trim_end(s.drop_last())
    } else {
        s
    }
}

/// A text without the white space around it.
pub open spec fn trimmed(s: Seq<char>) -> Seq<char> {
    trim_end(trim_start(s))
}

/// A text with no white space at its ends is its own trimmed form.
pub proof fn lemma_trimmed_identity(s: Seq<char>)
    requires
        s.len() == 0 || (!is_space(s[0]) && !is_space(s.last())),
    ensures
        trimmed(s) == s,
{
}

/// Trimming leaves no white space at the ends.
pub proof fn lemma_trimmed(s: Seq<char>)
    ensures
        trimmed(s).len() > 0 ==> !is_space(trimmed(s)[0]) && !is_space(trimmed(s).last()),
        forall|c: char| trimmed(s).contains(c) ==> s.contains(c),
{
    lemma_trim_start(s);
    lemma_trim_end(trim_start(s));
    assert forall|c: char| trimmed(s).contains(c) implies s.contains(c) by {
        assert(trim_start(s).contains(c));
    }
}

/// What `trim_start` leaves does not start with white space.
proof fn lemma_trim_start(s: Seq<char>)
    ensures
        trim_start(s).len() > 0 ==> !is_space(trim_start(s)[0]),
        forall|c: char| #[trigger] trim_start(s).contains(c) ==> s.contains(c),
    decreases s.len(),
{
    if s.len() > 0 && is_space(s[0]) {
        let rest = s.drop_first();
        lemma_trim_start(rest);
        assert forall|c: char| #[trigger] trim_start(s).contains(c) implies s.contains(c) by {
            assert(trim_start(rest).contains(c));
            let i = choose|i: int| 0 <= i < rest.len() && rest[i] == c;
            assert(s[i + 1] == c);
        }
    }
}

/// What `trim_end` leaves does not end with white space, and starts as before.
proof fn lemma_trim_end(s: Seq<char>)
    ensures
        trim_end(s).len() > 0 ==> !is_space(trim_end(s).last()) && trim_end(s)[0] == s[0],
        forall|c: char| #[trigger] trim_end(s).contains(c) ==> s.contains(c),
    decreases s.len(),
{
    if s.len() > 0 && is_space(s.last()) {
        let rest = s.drop_last();
        lemma_trim_end(rest);
        assert forall|c: char| #[trigger] trim_end(s).contains(c) implies s.contains(c) by {
            assert(trim_end(rest).contains(c));
            let i = choose|i: int| 0 <= i < rest.len() && rest[i] == c;
            assert(s[i] == c);
        }
    }
}

/// Removes the white space around a text.
pub fn trim(text: &str) -> (r: String)
    ensures
        r@ == trimmed(text@),
{
    let chars: Vec<char> = chars_of(text);
    let mut from: usize = 0;
    proof {
        assert(chars@.skip(0) == chars@);
    }
    while from < chars.len() && is_whitespace(chars[from])
        invariant
            from <= chars@.len(),
            trim_start(chars@) == trim_start(chars@.skip(from as int)),
        decreases chars@.len() - from,
    {
        proof {
            assert(chars@.skip(from as int).drop_first() == chars@.skip(from + 1));
        }
        from = from + 1;
    }
    let ghost rest = chars@.skip(from as int);
    let mut to: usize = chars.len();
    proof {
        assert(rest == chars@.subrange(from as int, to as int));
    }
    while from < to && is_whitespace(chars[to - 1])
        invariant
            from <= to <= chars@.len(),
            trim_end(rest) == trim_end(chars@.subrange(from as int, to as int)),
        decreases to,
    {
        proof {
            let now = chars@.subrange(from as int, to as int);
            assert(now.last() == chars@[to - 1]);
            assert(now.drop_last() == chars@.subrange(from as int, to - 1));
        }
        to = to - 1;
    }
    proof {
        let now = chars@.subrange(from as int, to as int);
        assert(now.len() > 0 ==> now.last() == chars@[to - 1]);
    }
    string_of(chars.as_slice(), from, to)
}

/// Tells whether two texts hold the same characters.
pub fn same_text(a: &str, b: &str) -> (r: bool)
    ensures
        r == (a@ == b@),
{
    a.to_owned() == b.to_owned()
}

// --- numbers and lists -------------------------------------------------------
/// The decimal notation of a number.
pub open spec fn decimal(n: nat) -> Seq<char>
    decreases n,
{
    let digit = ('0' as nat + n % 10) as char;
    if n < 10 {
        seq![digit]
    } else {
        decimal(n / 10).push(digit)
    }
}

/// Appends the decimal notation of `n`.
pub fn push_decimal(out: &mut String, n: usize)
    ensures
        final(out)@ == old(out)@ + decimal(n as nat),
    decreases n,
{
    if n >= 10 {
        push_decimal(out, n / 10);
    }
    let digit: u8 = 48u8 + (n % 10) as u8;
    out.push(digit as char);
    proof {
        assert(out@ =~= old(out)@ + decimal(n as nat));
    }
}

/// The decimal notation of a number that may be negative.
pub open spec fn integer(n: int) -> Seq<char> {
    if n < 0 {
        seq!['-'] + decimal((-n) as nat)
    } else {
        decimal(n as nat)
    }
}

/// Appends the decimal notation of `n`.
pub fn push_integer(out: &mut String, n: i32)
    ensures
        final(out)@ == old(out)@ + integer(n as int),
{
    if n < 0 {
        out.push('-');
        let m: i64 = -(n as i64);
        push_decimal(out, m as usize);
    } else {
        push_decimal(out, n as usize);
    }
    proof {
        assert(out@ =~= old(out)@ + integer(n as int));
    }
}

/// The texts of `parts` with `sep` between neighbours.
pub open spec fn joined(parts: Seq<Seq<char>>, sep: Seq<char>) -> Seq<char>
    decreases parts.len(),
{
    if parts.len() == 0 {
        Seq::empty()
    } else if parts.len() == 1 {
        parts[0]
    } else {
        joined(parts.drop_last(), sep) + sep + parts.last()
    }
}

/// Joins texts with a separator.
pub fn join(parts: &[String], sep: &str) -> (r: String)
    ensures
        r@ == joined(views(parts@), sep@),
{
    let mut out = String::new();
    let mut i: usize = 0;
    while i < parts.len()
        invariant
            i <= parts@.len(),
            out@ == joined(views(parts@).take(i as int), sep@),
        decreases parts@.len() - i,
    {
        proof {
            let next = views(parts@).take(i + 1);
            assert(next.drop_last() == views(parts@).take(i as int));
            assert(next.last() == parts@[i as int]@);
        }
        if i > 0 {
            out.append(sep);
        }
        out.append(parts[i].as_str());
        proof {
            if i == 0 {
                assert(Seq::<char>::empty() + parts@[0]@ == parts@[0]@);
            }
        }
        i = i + 1;
    }
    proof {
        assert(views(parts@).take(parts@.len() as int) == views(parts@));
    }
    out
}

// --- laws --------------------------------------------------------------------
/// White space by code point: the tabs and line breaks of ASCII, the space, and
/// the spaces and separators that Unicode adds.
pub proof fn law_white_space(c: char)
    ensures
        is_space(c) <==> ({
            let n = c as u32;
            ||| 9 <= n <= 13
            ||| n == 32
            ||| n == 0x85
            ||| n == 0xa0
            ||| n == 0x1680
            ||| 0x2000 <= n <= 0x200a
            ||| 0x2028 <= n <= 0x2029
            ||| n == 0x202f
            ||| n == 0x205f
            ||| n == 0x3000
        }),
{
}

/// The views of values are those of the values, one by one.
pub proof fn law_views<T: View>(s: Seq<T>, o: Option<T>)
    ensures
        views(s).len() == s.len(),
        forall|i: int| 0 <= i < s.len() ==> #[trigger] views(s)[i] == s[i]@,
        opt_view(o) is Some <==> o is Some,
        o is Some ==> opt_view(o) == Some(o->0@),
{
}

/// How a text falls into lines. Every line feed ends a line, also an empty one;
/// a carriage return before it belongs to the ending; what follows the last
/// line feed is a line where it is not empty.
pub proof fn law_lines(line: Seq<char>, rest: Seq<char>)
    requires
        !line.contains('\n'),
    ensures
        lines(Seq::empty()).len() == 0,
        line.len() > 0 ==> lines(line) == seq![line],
        line.len() == 0 || line.last() != '\r' ==> lines(line + seq!['\n'] + rest) == seq![line]
            + lines(rest),
        lines(line + seq!['\r', '\n'] + rest) == seq![line] + lines(rest),
{
    lemma_find_char(line, '\n');
    lemma_lines_cons(line, rest);
    let ended = line.push('\r');
    assert forall|i: int| 0 <= i < ended.len() implies ended[i] != '\n' by {
        if i < line.len() {
            assert(ended[i] == line[i]);
        }
    }
    lemma_lines_cons(ended, rest);
    assert(ended + seq!['\n'] + rest =~= line + seq!['\r', '\n'] + rest);
    assert(ended.drop_last() =~= line);
}

/// How a text falls into words. White space in front does not count, and a word
/// ends at the first white space behind it or at the end of the text.
pub proof fn law_words(word: Seq<char>, c: char, rest: Seq<char>)
    requires
        word.len() > 0,
        forall|i: int| 0 <= i < word.len() ==> !is_space(#[trigger] word[i]),
        is_space(c),
    ensures
        words(Seq::empty()).len() == 0,
        words(seq![c] + rest) == words(rest),
        words(word) == seq![word],
        words(word + seq![c] + rest) == seq![word] + words(rest),
{
    lemma_words_of_word(word);
    lemma_words_cons(word, c, rest);
    assert((seq![c] + rest).drop_first() =~= rest);
}

/// White space in front of a text does not count for `trim_start`.
proof fn lemma_trim_start_drops(before: Seq<char>, s: Seq<char>)
    requires
        forall|i: int| 0 <= i < before.len() ==> is_space(#[trigger] before[i]),
    ensures
        trim_start(before + s) == trim_start(s),
    decreases before.len(),
{
    if before.len() > 0 {
        let rest = before.drop_first();
        assert forall|i: int| 0 <= i < rest.len() implies is_space(#[trigger] rest[i]) by {
            assert(rest[i] == before[i + 1]);
        }
        lemma_trim_start_drops(rest, s);
        assert(is_space(before[0]));
        assert((before + s).drop_first() =~= rest + s);
    } else {
        assert(before + s =~= s);
    }
}

/// White space behind a text does not count for `trim_end`.
proof fn lemma_trim_end_drops(s: Seq<char>, after: Seq<char>)
    requires
        forall|i: int| 0 <= i < after.len() ==> is_space(#[trigger] after[i]),
    ensures
        trim_end(s + after) == trim_end(s),
    decreases after.len(),
{
    if after.len() > 0 {
        let rest = after.drop_last();
        assert forall|i: int| 0 <= i < rest.len() implies is_space(#[trigger] rest[i]) by {
            assert(rest[i] == after[i]);
        }
        lemma_trim_end_drops(s, rest);
        assert(is_space(after[after.len() - 1]));
        assert((s + after).drop_last() =~= s + rest);
    } else {
        assert(s + after =~= s);
    }
}

/// Trimming removes all the white space around a text and nothing else.
pub proof fn law_trimming(before: Seq<char>, s: Seq<char>, after: Seq<char>)
    requires
        forall|i: int| 0 <= i < before.len() ==> is_space(#[trigger] before[i]),
        forall|i: int| 0 <= i < after.len() ==> is_space(#[trigger] after[i]),
        s.len() == 0 || (!is_space(s[0]) && !is_space(s.last())),
    ensures
        trimmed(before + s + after) == s,
{
    assert(before + s + after =~= before + (s + after));
    lemma_trim_start_drops(before, s + after);
    if s.len() == 0 {
        lemma_trim_start_drops(after, s);
        assert(s + after =~= after + s);
    } else {
        lemma_trim_end_drops(s, after);
    }
}

/// The decimal notation: a digit for each number below ten, and for every other
/// number that of its tens with the digit of its ones behind; a negative number
/// has a minus in front.
pub proof fn law_decimal_notation(tens: nat, ones: nat)
    requires
        ones < 10,
    ensures
        ({
            let digit = seq!['0', '1', '2', '3', '4', '5', '6', '7', '8', '9'][ones as int];
            &&& decimal(ones) == seq![digit]
            &&& tens > 0 ==> decimal((10 * tens + ones) as nat) == decimal(tens) + seq![digit]
        }),
        integer(tens as int) == decimal(tens),
        tens > 0 ==> integer(-(tens as int)) == seq!['-'] + decimal(tens),
{
    let n = (10 * tens + ones) as nat;
    assert(n % 10 == ones);
    assert(n / 10 == tens);
    if tens > 0 {
        assert(decimal(n) =~= decimal(tens) + decimal(ones));
    }
}

/// Joined texts: one more text comes behind one more separator.
pub proof fn law_joining(parts: Seq<Seq<char>>, part: Seq<char>, sep: Seq<char>)
    ensures
        joined(Seq::empty(), sep).len() == 0,
        joined(seq![part], sep) == part,
        parts.len() > 0 ==> joined(parts.push(part), sep) == joined(parts, sep) + sep + part,
{
    assert(parts.push(part).drop_last() =~= parts);
}

/// Texts written one per line: each is followed by a line feed.
pub proof fn law_writing_lines(ls: Seq<Seq<char>>, line: Seq<char>)
    ensures
        written(Seq::empty()).len() == 0,
        written(ls.push(line)) == written(ls) + line + seq!['\n'],
{
    lemma_written_push(ls, line);
    assert(written(ls) + line.push('\n') =~= written(ls) + line + seq!['\n']);
    let none = Seq::<Seq<char>>::empty();
    assert(none.map_values(|line: Seq<char>| line.push('\n')) =~= none);
}

/// Behind a line feed the lines start anew: the lines of a text that ends there
/// and of what is appended to it are those of both.
pub proof fn law_lines_of_appended_text(s: Seq<char>, t: Seq<char>)
    requires
        s.len() == 0 || s.last() == '\n',
    ensures
        lines(s + t) == lines(s) + lines(t),
    decreases s.len(),
{
    if s.len() == 0 {
        assert(s + t =~= t);
        assert(lines(s) + lines(t) =~= lines(t));
    } else {
        let n = find_char(s, '\n');
        lemma_find_char(s, '\n');
        if n == s.len() {
            assert(s[s.len() - 1] == '\n');
        }
        let line = s.take(n as int);
        let rest = s.skip(n as int + 1);
        assert forall|i: int| 0 <= i < line.len() implies line[i] != '\n' by {
            assert(line[i] == s[i]);
        }
        law_lines_of_appended_text(rest, t);
        lemma_lines_cons(line, rest);
        lemma_lines_cons(line, rest + t);
        assert(line + seq!['\n'] + rest =~= s);
        assert(line + seq!['\n'] + (rest + t) =~= s + t);
        assert(seq![strip_cr(line)] + (lines(rest) + lines(t)) =~= seq![strip_cr(line)] + lines(
            rest,
        ) + lines(t));
    }
}

/// A line feed at the end of the last line does not change the lines.
pub proof fn law_last_line_feed_is_optional(s: Seq<char>)
    requires
        s.len() > 0,
        s.last() != '\n',
        s.last() != '\r',
    ensures
        lines(s + seq!['\n']) == lines(s),
    decreases s.len(),
{
    let n = find_char(s, '\n');
    lemma_find_char(s, '\n');
    if n < s.len() {
        let line = s.take(n as int);
        let rest = s.skip(n as int + 1);
        assert forall|i: int| 0 <= i < line.len() implies line[i] != '\n' by {
            assert(line[i] == s[i]);
        }
        assert(rest.last() == s.last());
        law_last_line_feed_is_optional(rest);
        lemma_lines_cons(line, rest);
        lemma_lines_cons(line, rest + seq!['\n']);
        assert(line + seq!['\n'] + rest =~= s);
        assert(line + seq!['\n'] + (rest + seq!['\n']) =~= s + seq!['\n']);
    } else {
        assert(!s.contains('\n'));
        law_lines(s, Seq::empty());
        assert(s + seq!['\n'] + Seq::<char>::empty() =~= s + seq!['\n']);
        assert(seq![s] + lines(Seq::empty()) =~= seq![s]);
    }
}

/// A text that does not start with white space has something left at its end.
proof fn lemma_trim_end_keeps(s: Seq<char>)
    requires
        s.len() > 0,
        !is_space(s[0]),
    ensures
        trim_end(s).len() > 0,
    decreases s.len(),
{
    if is_space(s.last()) {
        lemma_trim_end_keeps(s.drop_last());
    }
}

/// A blank text is one without words.
pub proof fn law_blank_texts_have_no_words(s: Seq<char>)
    ensures
        trimmed(s).len() == 0 <==> words(s).len() == 0,
        words(s).len() == 0 <==> forall|i: int| 0 <= i < s.len() ==> is_space(#[trigger] s[i]),
    decreases s.len(),
{
    if s.len() > 0 {
        if is_space(s[0]) {
            let rest = s.drop_first();
            law_blank_texts_have_no_words(rest);
            if forall|i: int| 0 <= i < rest.len() ==> is_space(#[trigger] rest[i]) {
                assert forall|i: int| 0 <= i < s.len() implies is_space(#[trigger] s[i]) by {
                    if i > 0 {
                        assert(s[i] == rest[i - 1]);
                    }
                }
            } else {
                let i = choose|i: int| 0 <= i < rest.len() && !is_space(#[trigger] rest[i]);
                assert(!is_space(s[i + 1]));
            }
        } else {
            lemma_trim_end_keeps(s);
        }
    }
}

/// White space separates: the words of two texts with white space between them
/// are the words of the one and then those of the other.
pub proof fn law_words_of_separated_texts(s: Seq<char>, c: char, t: Seq<char>)
    requires
        is_space(c),
    ensures
        words(s + seq![c] + t) == words(s) + words(t),
    decreases s.len(),
{
    let all = s + seq![c] + t;
    if s.len() == 0 {
        assert(all.drop_first() =~= t);
        assert(all[0] == c);
        assert(words(s) + words(t) =~= words(t));
    } else if is_space(s[0]) {
        law_words_of_separated_texts(s.drop_first(), c, t);
        assert(all[0] == s[0]);
        assert(all.drop_first() =~= s.drop_first() + seq![c] + t);
    } else {
        lemma_word_len(s);
        let n = word_len(s);
        let word = s.take(n as int);
        let rest = s.skip(n as int);
        law_words_of_separated_texts(rest, c, t);
        assert forall|i: int| 0 <= i < n implies !is_space(#[trigger] all[i]) by {
            assert(all[i] == s[i]);
        }
        if n < s.len() {
            assert(all[n as int] == s[n as int]);
        } else {
            assert(all[n as int] == c);
        }
        lemma_word_len_unique(all, n);
        assert(all[0] == s[0]);
        assert(all.take(n as int) =~= word);
        assert(all.skip(n as int) =~= rest + seq![c] + t);
        assert(seq![word] + (words(rest) + words(t)) =~= seq![word] + words(rest) + words(t));
    }
}

} // verus!
