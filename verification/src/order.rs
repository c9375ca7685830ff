//! The order of texts and a stable sort.
use crate::text::{chars_of, views};
use vstd::prelude::*;

verus! {

/// `a` comes before `b`: at the first character in which they differ `a` has
/// the smaller one, or `a` is a proper beginning of `b`.
pub open spec fn text_lt(a: Seq<char>, b: Seq<char>) -> bool
    decreases a.len(),
{
    if b.len() == 0 {
        false
    } else if a.len() == 0 {
        true
    } else if a[0] != b[0] {
        a[0] < b[0]
    } else {
        text_lt(a.drop_first(), b.drop_first())
    }
}

/// `a` is `b` or comes before it.
pub open spec fn text_le(a: Seq<char>, b: Seq<char>) -> bool {
    a == b || text_lt(a, b)
}

/// No text comes before itself.
pub proof fn lemma_text_lt_irreflexive(a: Seq<char>)
    ensures
        !text_lt(a, a),
    decreases a.len(),
{
    if a.len() > 0 {
        lemma_text_lt_irreflexive(a.drop_first());
    }
}

/// The order of texts is transitive.
pub proof fn lemma_text_lt_transitive(a: Seq<char>, b: Seq<char>, c: Seq<char>)
    requires
        text_lt(a, b),
        text_lt(b, c),
    ensures
        text_lt(a, c),
    decreases a.len(),
{
    if a.len() > 0 && a[0] == b[0] && b[0] == c[0] {
        lemma_text_lt_transitive(a.drop_first(), b.drop_first(), c.drop_first());
    }
}

/// Of two different texts one comes before the other.
pub proof fn lemma_text_lt_total(a: Seq<char>, b: Seq<char>)
    ensures
        a == b || text_lt(a, b) || text_lt(b, a),
    decreases a.len(),
{
    if a.len() == 0 && b.len() == 0 {
        assert(a =~= b);
    } else if a.len() > 0 && b.len() > 0 && a[0] == b[0] {
        lemma_text_lt_total(a.drop_first(), b.drop_first());
        if a.drop_first() == b.drop_first() {
            assert(a =~= seq![a[0]] + a.drop_first());
            assert(b =~= seq![b[0]] + b.drop_first());
        }
    }
}

/// Of two texts at most one comes before the other.
pub proof fn lemma_text_lt_asymmetric(a: Seq<char>, b: Seq<char>)
    requires
        text_lt(a, b),
    ensures
        !text_lt(b, a),
        a != b,
{
    if text_lt(b, a) {
        lemma_text_lt_transitive(a, b, a);
    }
    lemma_text_lt_irreflexive(a);
}

/// Tells whether `a` comes before `b`.
pub fn text_before(a: &str, b: &str) -> (r: bool)
    ensures
        r == text_lt(a@, b@),
{
    let x: Vec<char> = chars_of(a);
    let y: Vec<char> = chars_of(b);
    let mut i: usize = 0;
    proof {
        assert(x@.skip(0) == x@);
        assert(y@.skip(0) == y@);
    }
    while i < x.len() && i < y.len() && x[i] == y[i]
        invariant
            i <= x@.len(),
            i <= y@.len(),
            text_lt(x@, y@) == text_lt(x@.skip(i as int), y@.skip(i as int)),
        decreases x@.len() - i,
    {
        proof {
            assert(x@.skip(i as int).drop_first() == x@.skip(i + 1));
            assert(y@.skip(i as int).drop_first() == y@.skip(i + 1));
        }
        i = i + 1;
    }
    if i >= y.len() {
        false
    } else if i >= x.len() {
        true
    } else {
        x[i] < y[i]
    }
}

/// Values with a total preorder on their views.
pub trait Ordered: View + Sized {
    /// `a` may stand before `b`.
    spec fn le(a: Self::V, b: Self::V) -> bool;

    proof fn le_reflexive(a: Self::V)
        ensures
            Self::le(a, a),
    ;

    proof fn le_transitive(a: Self::V, b: Self::V, c: Self::V)
        requires
            Self::le(a, b),
            Self::le(b, c),
        ensures
            Self::le(a, c),
    ;

    proof fn le_total(a: Self::V, b: Self::V)
        ensures
            Self::le(a, b) || Self::le(b, a),
    ;

    fn may_precede(&self, other: &Self) -> (r: bool)
        ensures
            r == Self::le(self@, other@),
    ;
}

/// Strings are ordered as texts.
impl Ordered for String {
    open spec fn le(a: Seq<char>, b: Seq<char>) -> bool {
        text_le(a, b)
    }

    proof fn le_reflexive(a: Seq<char>) {
    }

    proof fn le_transitive(a: Seq<char>, b: Seq<char>, c: Seq<char>) {
        if a != b && b != c {
            lemma_text_lt_transitive(a, b, c);
        }
    }

    proof fn le_total(a: Seq<char>, b: Seq<char>) {
        lemma_text_lt_total(a, b);
    }

    fn may_precede(&self, other: &Self) -> (r: bool) {
        proof {
            lemma_text_lt_total(self@, other@);
            if text_lt(other@, self@) {
                lemma_text_lt_asymmetric(other@, self@);
            }
        }
        !text_before(other.as_str(), self.as_str())
    }
}

/// Each value may stand before every later one.
pub open spec fn is_sorted<T: Ordered>(s: Seq<T::V>) -> bool {
    forall|i: int, j: int| 0 <= i < j < s.len() ==> T::le(#[trigger] s[i], #[trigger] s[j])
}

/// Neither of `a` and `b` has to stand before the other.
pub open spec fn tied<T: Ordered>(a: T::V, b: T::V) -> bool {
    T::le(a, b) && T::le(b, a)
}

/// The values of `s` that are tied with `k`, in the order of `s`.
pub open spec fn ties<T: Ordered>(s: Seq<T::V>, k: T::V) -> Seq<T::V> {
    s.filter(|x: T::V| tied::<T>(x, k))
}

/// `after` is `before` in sorted order, where tied values keep their order.
pub open spec fn stably_sorted<T: Ordered>(before: Seq<T::V>, after: Seq<T::V>) -> bool {
    &&& is_sorted::<T>(after)
    &&& forall|k: T::V| #[trigger] ties::<T>(after, k) == ties::<T>(before, k)
}

/// A filter that no element passes leaves nothing.
pub proof fn lemma_filter_none<A>(s: Seq<A>, p: spec_fn(A) -> bool)
    requires
        forall|i: int| 0 <= i < s.len() ==> !p(#[trigger] s[i]),
    ensures
        s.filter(p) == Seq::<A>::empty(),
    decreases s.len(),
{
    reveal(Seq::filter);
    if s.len() > 0 {
        assert(!p(s[s.len() - 1]));
        assert forall|i: int| 0 <= i < s.drop_last().len() implies !p(
            #[trigger] s.drop_last()[i],
        ) by {
            assert(s.drop_last()[i] == s[i]);
        }
        lemma_filter_none(s.drop_last(), p);
    }
}

/// A filter that every element passes keeps them all.
pub proof fn lemma_filter_all<A>(s: Seq<A>, p: spec_fn(A) -> bool)
    requires
        forall|i: int| 0 <= i < s.len() ==> p(#[trigger] s[i]),
    ensures
        s.filter(p) == s,
    decreases s.len(),
{
    reveal(Seq::filter);
    if s.len() > 0 {
        let rest = s.drop_last();
        assert(p(s[s.len() - 1]));
        assert forall|i: int| 0 <= i < rest.len() implies p(#[trigger] rest[i]) by {
            assert(rest[i] == s[i]);
        }
        lemma_filter_all(rest, p);
        assert(rest.push(s.last()) =~= s);
    }
}

/// A filtering map keeps what it makes of each element.
pub proof fn lemma_filter_map_has<A, B>(s: Seq<A>, f: spec_fn(A) -> Option<B>, i: int)
    requires
        0 <= i < s.len(),
        f(s[i]) is Some,
    ensures
        s.filter_map(f).contains(f(s[i])->0),
    decreases s.len(),
{
    let rest = s.drop_last();
    if i == s.len() - 1 {
        let out = s.filter_map(f);
        assert(out == rest.filter_map(f) + seq![f(s[i])->0]);
        assert(out[out.len() - 1] == f(s[i])->0);
    } else {
        lemma_filter_map_has(rest, f, i);
        let kept = rest.filter_map(f);
        let k = choose|k: int| 0 <= k < kept.len() && kept[k] == f(rest[i])->0;
        assert(s.filter_map(f)[k] == kept[k]);
    }
}

/// Moving a value forward over values that have to follow it keeps all ties.
proof fn lemma_move_keeps_ties<T: Ordered>(
    a: Seq<T::V>,
    b: Seq<T::V>,
    x: T::V,
    c: Seq<T::V>,
    k: T::V,
)
    requires
        forall|i: int| 0 <= i < b.len() ==> !T::le(#[trigger] b[i], x),
    ensures
        ties::<T>(a + seq![x] + b + c, k) == ties::<T>(a + b + seq![x] + c, k),
{
    let p = |y: T::V| tied::<T>(y, k);
    let one = seq![x];
    Seq::filter_distributes_over_add(a + one + b, c, p);
    Seq::filter_distributes_over_add(a + one, b, p);
    Seq::filter_distributes_over_add(a, one, p);
    Seq::filter_distributes_over_add(a + b + one, c, p);
    Seq::filter_distributes_over_add(a + b, one, p);
    Seq::filter_distributes_over_add(a, b, p);
    if p(x) {
        assert forall|i: int| 0 <= i < b.len() implies !p(#[trigger] b[i]) by {
            if p(b[i]) {
                T::le_transitive(b[i], k, x);
            }
        }
        lemma_filter_none(b, p);
        assert(a.filter(p) + one.filter(p) + b.filter(p) =~= a.filter(p) + b.filter(p)
            + one.filter(p));
    } else {
        assert forall|i: int| 0 <= i < one.len() implies !p(#[trigger] one[i]) by {}
        lemma_filter_none(one, p);
        assert(a.filter(p) + one.filter(p) + b.filter(p) =~= a.filter(p) + b.filter(p)
            + one.filter(p));
    }
}

/// The number of values before index `len` that may stand before `x`.
fn insertion_point<T: Ordered>(v: &Vec<T>, len: usize, x: &T) -> (r: usize)
    requires
        len <= v@.len(),
        is_sorted::<T>(views(v@).take(len as int)),
    ensures
        r <= len,
        forall|j: int| 0 <= j < r ==> T::le(#[trigger] views(v@)[j], x@),
        forall|j: int| r <= j < len ==> !T::le(#[trigger] views(v@)[j], x@),
{
    let ghost s = views(v@);
    let mut lo: usize = 0;
    let mut hi: usize = len;
    while lo < hi
        invariant
            lo <= hi <= len <= v@.len(),
            s == views(v@),
            is_sorted::<T>(s.take(len as int)),
            forall|j: int| 0 <= j < lo ==> T::le(#[trigger] s[j], x@),
            forall|j: int| hi <= j < len ==> !T::le(#[trigger] s[j], x@),
        decreases hi - lo,
    {
        let mid: usize = lo + (hi - lo) / 2;
        let ghost pre = s.take(len as int);
        if v[mid].may_precede(x) {
            proof {
                assert forall|j: int| 0 <= j < mid + 1 implies T::le(#[trigger] s[j], x@) by {
                    if lo <= j < mid {
                        assert(T::le(pre[j], pre[mid as int]));
                        T::le_transitive(s[j], s[mid as int], x@);
                    }
                }
            }
            lo = mid + 1;
        } else {
            proof {
                assert forall|j: int| mid <= j < len implies !T::le(#[trigger] s[j], x@) by {
                    if mid < j && T::le(s[j], x@) {
                        assert(T::le(pre[mid as int], pre[j]));
                        T::le_transitive(s[mid as int], s[j], x@);
                    }
                }
            }
            hi = mid;
        }
    }
    lo
}

/// Sorts `v`; tied values keep their order.
pub fn sort_stably<T: Ordered>(v: &mut Vec<T>)
    ensures
        stably_sorted::<T>(views(old(v)@), views(final(v)@)),
{
    let ghost before = views(v@);
    let mut i: usize = 0;
    while i < v.len()
        invariant
            i <= v@.len(),
            is_sorted::<T>(views(v@).take(i as int)),
            forall|k: T::V| #[trigger] ties::<T>(views(v@), k) == ties::<T>(before, k),
        decreases v@.len() - i,
    {
        let ghost s = views(v@);
        let x: T = v.remove(i);
        let ghost without = views(v@);
        proof {
            assert(without =~= s.remove(i as int));
            assert(without.take(i as int) =~= s.take(i as int));
        }
        let p: usize = insertion_point(v, i, &x);
        let ghost xv = x@;
        v.insert(p, x);
        proof {
            let now = views(v@);
            assert(now =~= without.insert(p as int, xv));
            let a = s.take(p as int);
            let b = s.subrange(p as int, i as int);
            let c = s.skip(i + 1);
            assert(s =~= a + b + seq![xv] + c);
            assert(now =~= a + seq![xv] + b + c);
            assert forall|j: int| 0 <= j < b.len() implies !T::le(#[trigger] b[j], xv) by {
                assert(b[j] == without[p + j]);
            }
            assert forall|k: T::V| #[trigger] ties::<T>(now, k) == ties::<T>(before, k) by {
                lemma_move_keeps_ties::<T>(a, b, xv, c, k);
                assert(ties::<T>(s, k) == ties::<T>(before, k));
            }
            let pre = now.take(i + 1);
            let sorted = s.take(i as int);
            assert forall|m: int, n: int| 0 <= m < n < pre.len() implies T::le(
                #[trigger] pre[m],
                #[trigger] pre[n],
            ) by {
                let om = if m < p { m } else { m - 1 };
                let on = if n < p { n } else { n - 1 };
                if m == p {
                    assert(pre[n] == without[n - 1]);
                    T::le_total(xv, without[n - 1]);
                } else if n == p {
                    assert(pre[m] == without[m]);
                } else {
                    assert(pre[m] == sorted[om]);
                    assert(pre[n] == sorted[on]);
                }
            }
        }
        i = i + 1;
    }
    proof {
        assert(views(v@).take(v@.len() as int) =~= views(v@));
    }
}

/// The first of the values tied with the first value is that value, and the
/// rest of them are found in the rest of the sequence.
proof fn lemma_ties_of_first<T: Ordered>(s: Seq<T::V>, k: T::V)
    requires
        s.len() > 0,
    ensures
        tied::<T>(s[0], k) ==> ties::<T>(s, k) == seq![s[0]] + ties::<T>(s.drop_first(), k),
        !tied::<T>(s[0], k) ==> ties::<T>(s, k) == ties::<T>(s.drop_first(), k),
{
    let p = |y: T::V| tied::<T>(y, k);
    let one = seq![s[0]];
    assert(s =~= one + s.drop_first());
    Seq::filter_distributes_over_add(one, s.drop_first(), p);
    reveal_with_fuel(Seq::filter, 2);
    assert(one.drop_last() =~= Seq::<T::V>::empty());
    assert(one.last() == s[0]);
    if p(s[0]) {
        assert(one.filter(p) =~= one);
    } else {
        assert(one.filter(p) =~= Seq::<T::V>::empty());
        assert(Seq::<T::V>::empty() + s.drop_first().filter(p) =~= s.drop_first().filter(p));
    }
}

/// The first value of `b` may stand before the first value of `a`, where both
/// are sorted and hold the same values.
proof fn lemma_first_precedes<T: Ordered>(a: Seq<T::V>, b: Seq<T::V>)
    requires
        a.len() > 0,
        is_sorted::<T>(b),
        forall|k: T::V| #[trigger] ties::<T>(a, k) == ties::<T>(b, k),
    ensures
        b.len() > 0,
        T::le(b[0], a[0]),
{
    let k = a[0];
    let p = |y: T::V| tied::<T>(y, k);
    T::le_reflexive(k);
    lemma_ties_of_first::<T>(a, k);
    assert(ties::<T>(a, k) == ties::<T>(b, k));
    assert(ties::<T>(b, k)[0] == k);
    assert(b.filter(p).contains(k));
    b.lemma_filter_contains_rev(p, k);
    let i = choose|i: int| 0 <= i < b.len() && b[i] == k;
    if i > 0 {
        assert(T::le(b[0], b[i]));
    }
}

/// A sequence has exactly one stably sorted order.
pub proof fn law_stable_order_is_unique<T: Ordered>(
    before: Seq<T::V>,
    a: Seq<T::V>,
    b: Seq<T::V>,
)
    requires
        stably_sorted::<T>(before, a),
        stably_sorted::<T>(before, b),
    ensures
        a == b,
{
    assert forall|k: T::V| #[trigger] ties::<T>(a, k) == ties::<T>(b, k) by {
        assert(ties::<T>(a, k) == ties::<T>(before, k));
        assert(ties::<T>(b, k) == ties::<T>(before, k));
    }
    lemma_same_ties_same_order::<T>(a, b);
}

/// Two sorted sequences with the same ties are equal.
proof fn lemma_same_ties_same_order<T: Ordered>(a: Seq<T::V>, b: Seq<T::V>)
    requires
        is_sorted::<T>(a),
        is_sorted::<T>(b),
        forall|k: T::V| #[trigger] ties::<T>(a, k) == ties::<T>(b, k),
    ensures
        a == b,
    decreases a.len(),
{
    if a.len() > 0 {
        lemma_first_precedes::<T>(a, b);
    }
    if b.len() > 0 {
        lemma_first_precedes::<T>(b, a);
    }
    if a.len() == 0 {
        assert(a =~= b);
    } else {
        let k = a[0];
        T::le_reflexive(k);
        lemma_ties_of_first::<T>(a, k);
        lemma_ties_of_first::<T>(b, k);
        assert(ties::<T>(a, k) == ties::<T>(b, k));
        assert(ties::<T>(a, k)[0] == a[0]);
        assert(ties::<T>(b, k)[0] == b[0]);
        let x = a.drop_first();
        let y = b.drop_first();
        assert forall|m: T::V| #[trigger] ties::<T>(x, m) == ties::<T>(y, m) by {
            lemma_ties_of_first::<T>(a, m);
            lemma_ties_of_first::<T>(b, m);
            assert(ties::<T>(a, m) == ties::<T>(b, m));
            if tied::<T>(a[0], m) {
                assert(ties::<T>(a, m).drop_first() =~= ties::<T>(x, m));
                assert(ties::<T>(b, m).drop_first() =~= ties::<T>(y, m));
            }
        }
        assert forall|i: int, j: int| 0 <= i < j < x.len() implies T::le(
            #[trigger] x[i],
            #[trigger] x[j],
        ) by {
            assert(T::le(a[i + 1], a[j + 1]));
        }
        assert forall|i: int, j: int| 0 <= i < j < y.len() implies T::le(
            #[trigger] y[i],
            #[trigger] y[j],
        ) by {
            assert(T::le(b[i + 1], b[j + 1]));
        }
        lemma_same_ties_same_order::<T>(x, y);
        assert(a =~= seq![a[0]] + x);
        assert(b =~= seq![b[0]] + y);
    }
}

/// A stably sorted sequence holds the values it was made from and no others.
pub proof fn lemma_stably_sorted_contains<T: Ordered>(
    before: Seq<T::V>,
    after: Seq<T::V>,
    x: T::V,
)
    requires
        stably_sorted::<T>(before, after),
    ensures
        before.contains(x) <==> after.contains(x),
{
    let p = |y: T::V| tied::<T>(y, x);
    T::le_reflexive(x);
    assert(ties::<T>(after, x) == ties::<T>(before, x));
    if before.contains(x) {
        let i = choose|i: int| 0 <= i < before.len() && before[i] == x;
        before.lemma_filter_contains(p, i);
        after.lemma_filter_contains_rev(p, x);
    }
    if after.contains(x) {
        let i = choose|i: int| 0 <= i < after.len() && after[i] == x;
        after.lemma_filter_contains(p, i);
        before.lemma_filter_contains_rev(p, x);
    }
}

// --- laws --------------------------------------------------------------------
/// Texts are ordered by the code points of the first characters in which they
/// differ, and the beginning of a longer text comes before it.
pub proof fn law_texts_are_ordered_by_code_points(a: Seq<char>, b: Seq<char>, i: int)
    requires
        0 <= i <= a.len(),
        0 <= i <= b.len(),
        forall|j: int| 0 <= j < i ==> a[j] == b[j],
    ensures
        i < a.len() && i < b.len() && a[i] != b[i] ==> (text_lt(a, b) <==> (a[i] as int) < (
        b[i] as int)),
        i == a.len() && i < b.len() ==> text_lt(a, b) && !text_lt(b, a),
        i == a.len() && i == b.len() ==> !text_lt(a, b),
    decreases i,
{
    if i > 0 {
        let x = a.drop_first();
        let y = b.drop_first();
        assert(a[0] == b[0]);
        assert forall|j: int| 0 <= j < i - 1 implies x[j] == y[j] by {
            assert(a[j + 1] == b[j + 1]);
        }
        law_texts_are_ordered_by_code_points(x, y, i - 1);
    }
}

/// Strings stand in the order of their texts.
pub proof fn law_strings_are_ordered_as_texts(a: Seq<char>, b: Seq<char>)
    ensures
        <String as Ordered>::le(a, b) <==> a == b || text_lt(a, b),
{
}

/// A filter that a value passes keeps as many of it as there are.
proof fn lemma_filter_count<A>(s: Seq<A>, p: spec_fn(A) -> bool, x: A)
    requires
        p(x),
    ensures
        s.filter(p).to_multiset().count(x) == s.to_multiset().count(x),
    decreases s.len(),
{
    reveal(Seq::filter);
    broadcast use vstd::seq_lib::group_to_multiset_ensures;
    if s.len() > 0 {
        let rest = s.drop_last();
        lemma_filter_count(rest, p, x);
        assert(rest.push(s.last()) =~= s);
        if p(s.last()) {
            assert(s.filter(p) =~= rest.filter(p).push(s.last()));
        }
    } else {
        assert(s.filter(p) =~= s);
    }
}

/// Sorting keeps every value as often as it was there, puts each where it may
/// stand before all later ones, and keeps the order of values that are tied.
pub proof fn law_sorting<T: Ordered>(before: Seq<T::V>, after: Seq<T::V>, k: T::V)
    requires
        stably_sorted::<T>(before, after),
    ensures
        after.to_multiset() == before.to_multiset(),
        after.len() == before.len(),
        forall|i: int, j: int|
            0 <= i < j < after.len() ==> T::le(#[trigger] after[i], #[trigger] after[j]),
        after.filter(|x: T::V| T::le(x, k) && T::le(k, x)) == before.filter(
            |x: T::V| T::le(x, k) && T::le(k, x),
        ),
{
    assert forall|x: T::V| #[trigger]
        after.to_multiset().count(x) == before.to_multiset().count(x) by {
        T::le_reflexive(x);
        let p = |y: T::V| tied::<T>(y, x);
        lemma_filter_count(after, p, x);
        lemma_filter_count(before, p, x);
        assert(ties::<T>(after, x) == ties::<T>(before, x));
    }
    assert(after.to_multiset() =~= before.to_multiset());
    assert(after.to_multiset().len() == after.len()) by {
        after.to_multiset_ensures();
    }
    assert(before.to_multiset().len() == before.len()) by {
        before.to_multiset_ensures();
    }
    assert(ties::<T>(after, k) == ties::<T>(before, k));
    assert((|x: T::V| tied::<T>(x, k)) =~= (|x: T::V| T::le(x, k) && T::le(k, x)));
}

/// A filtering map keeps the elements that it makes something of, in order.
pub proof fn lemma_filter_map_is_filter<A, B>(s: Seq<A>, f: spec_fn(A) -> Option<B>)
    ensures
        s.filter_map(f) == s.filter(|x: A| f(x) is Some).map_values(|x: A| f(x)->0),
    decreases s.len(),
{
    reveal(Seq::filter);
    let p = |x: A| f(x) is Some;
    let g = |x: A| f(x)->0;
    if s.len() > 0 {
        let rest = s.drop_last();
        lemma_filter_map_is_filter(rest, f);
        if p(s.last()) {
            assert(s.filter_map(f) =~= rest.filter_map(f).push(g(s.last())));
            assert(s.filter(p).map_values(g) =~= rest.filter(p).map_values(g).push(g(s.last())));
        } else {
            assert(s.filter_map(f) =~= rest.filter_map(f));
        }
    } else {
        assert(s.filter_map(f) =~= s.filter(p).map_values(g));
    }
}

} // verus!
