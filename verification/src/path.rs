//! Paths as text, read the way Unix reads them: components separated by `/`.
use crate::text::{
    chars_of, find_char, find_from, lemma_find_char, lemma_find_char_unique, lemma_views_push,
    string_of, views,
};
use vstd::prelude::*;

verus! {

/// The texts between the separators of a path, empty ones included.
pub open spec fn pieces(s: Seq<char>) -> Seq<Seq<char>>
    decreases s.len(),
{
    let n = find_char(s, '/');
    if n < s.len() {
        seq![s.take(n as int)] + pieces(s.skip(n as int + 1))
    } else {
        seq![s]
    }
}

/// A piece that counts as a component wherever it stands.
pub open spec fn is_proper(piece: Seq<char>) -> bool {
    piece.len() > 0 && piece != seq!['.']
}

/// The components of a path: `/` for the root where the path starts with it,
/// then the names. Repeated separators, a separator at the end, and any `.`
/// but one at the very beginning do not count.
pub open spec fn components(s: Seq<char>) -> Seq<Seq<char>> {
    let all = pieces(s);
    let first = if s.len() > 0 && s[0] == '/' {
        seq![seq!['/']]
    } else if s.len() > 0 {
        seq![all[0]]
    } else {
        Seq::empty()
    };
    first + all.drop_first().filter(|piece: Seq<char>| is_proper(piece))
}

/// Two paths name the same place by their components.
pub open spec fn same_components(a: Seq<char>, b: Seq<char>) -> bool {
    components(a) == components(b)
}

/// The path `rest` taken relative to `base`: itself where it starts at the
/// root, else behind `base` and one separator.
pub open spec fn joined_path(base: Seq<char>, rest: Seq<char>) -> Seq<char> {
    if rest.len() > 0 && rest[0] == '/' {
        rest
    } else if base.len() == 0 || base.last() == '/' {
        base + rest
    } else {
        base + seq!['/'] + rest
    }
}

/// Splits a path into its components.
pub fn split_components(path: &str) -> (r: Vec<String>)
    ensures
        views(r@) == components(path@),
{
    let chars: Vec<char> = chars_of(path);
    let ghost p = |piece: Seq<char>| is_proper(piece);
    let mut out: Vec<String> = Vec::new();
    let mut i: usize = find_from(chars.as_slice(), 0, '/');
    proof {
        assert(chars@.skip(0) =~= chars@);
        lemma_find_char(chars@, '/');
    }
    if chars.len() > 0 {
        let first = if chars[0] == '/' {
            string_of(chars.as_slice(), 0, 1)
        } else {
            string_of(chars.as_slice(), 0, i)
        };
        proof {
            lemma_views_push(out@, first);
        }
        out.push(first);
    }
    let ghost head = views(out@);
    let ghost tail = pieces(chars@).drop_first();
    proof {
        let all = pieces(chars@);
        if chars@.len() == 0 {
            assert(head =~= Seq::<Seq<char>>::empty());
            assert(tail =~= Seq::<Seq<char>>::empty());
        } else if chars@[0] == '/' {
            assert(head[0] =~= seq!['/']);
            assert(head =~= seq![seq!['/']]);
        } else {
            assert(all[0] =~= chars@.take(i as int));
            assert(head =~= seq![all[0]]);
        }
        if i < chars@.len() {
            assert(tail =~= pieces(chars@.skip(i + 1)));
        } else {
            assert(tail =~= Seq::<Seq<char>>::empty());
        }
        assert(components(chars@) == head + tail.filter(p));
        assert(head + tail.filter(p) =~= views(out@) + rest_of(chars@, i as int).filter(p));
    }
    while i < chars.len()
        invariant
            i <= chars@.len(),
            p == (|piece: Seq<char>| is_proper(piece)),
            components(chars@) == views(out@) + rest_of(chars@, i as int).filter(p),
        decreases chars@.len() - i,
    {
        let from: usize = i + 1;
        let to: usize = find_from(chars.as_slice(), from, '/');
        let ghost s = chars@.skip(from as int);
        let ghost next = rest_of(chars@, to as int);
        let piece = string_of(chars.as_slice(), from, to);
        proof {
            lemma_find_char(s, '/');
            assert(piece@ =~= s.take(to - from));
            if to < chars@.len() {
                assert(s.skip(to - from + 1) =~= chars@.skip(to + 1));
            } else {
                assert(piece@ =~= s);
            }
            assert(pieces(s) =~= seq![piece@] + next);
            Seq::filter_distributes_over_add(seq![piece@], next, p);
            lemma_filter_one(piece@, p);
        }
        let ghost before = views(out@);
        if !(from == to || (to - from == 1 && chars[from] == '.')) {
            proof {
                if to - from == 1 {
                    assert(piece@[0] == chars@[from as int]);
                }
                assert(is_proper(piece@));
                lemma_views_push(out@, piece);
                assert(before + (seq![piece@] + next.filter(p)) =~= before.push(piece@)
                    + next.filter(p));
            }
            out.push(piece);
        } else {
            proof {
                if from < to {
                    assert(piece@ =~= seq!['.']);
                }
                assert(!is_proper(piece@));
                assert(Seq::<Seq<char>>::empty() + next.filter(p) =~= next.filter(p));
            }
        }
        i = to;
    }
    proof {
        assert(rest_of(chars@, i as int) =~= Seq::<Seq<char>>::empty());
        reveal(Seq::filter);
        assert(views(out@) + Seq::<Seq<char>>::empty() =~= views(out@));
    }
    out
}

/// The pieces after the separator at index `i`; none where `i` is the end.
spec fn rest_of(s: Seq<char>, i: int) -> Seq<Seq<char>> {
    if i < s.len() {
        pieces(s.skip(i + 1))
    } else {
        Seq::empty()
    }
}

/// Filtering one element keeps it or leaves nothing.
proof fn lemma_filter_one<A>(x: A, p: spec_fn(A) -> bool)
    ensures
        seq![x].filter(p) == if p(x) {
            seq![x]
        } else {
            Seq::empty()
        },
{
    reveal_with_fuel(Seq::filter, 2);
    assert(seq![x].drop_last() =~= Seq::<A>::empty());
    assert(seq![x].filter(p) =~= if p(x) {
        seq![x]
    } else {
        Seq::empty()
    });
}

/// Tells whether two paths have the same components.
pub fn same_path(a: &str, b: &str) -> (r: bool)
    ensures
        r == same_components(a@, b@),
{
    let x: Vec<String> = split_components(a);
    let y: Vec<String> = split_components(b);
    proof {
        assert(views(x@).len() == x@.len());
        assert(views(y@).len() == y@.len());
    }
    if x.len() != y.len() {
        return false;
    }
    let mut i: usize = 0;
    while i < x.len()
        invariant
            i <= x@.len(),
            x@.len() == y@.len(),
            views(x@) == components(a@),
            views(y@) == components(b@),
            forall|k: int| 0 <= k < i ==> views(x@)[k] == views(y@)[k],
        decreases x@.len() - i,
    {
        if x[i] != y[i] {
            proof {
                assert(views(x@)[i as int] != views(y@)[i as int]);
            }
            return false;
        }
        i = i + 1;
    }
    proof {
        assert(views(x@) =~= views(y@));
    }
    true
}

/// Joins a path to a base.
pub fn join_path(base: &str, rest: &str) -> (r: String)
    ensures
        r@ == joined_path(base@, rest@),
{
    let b: Vec<char> = chars_of(base);
    let c: Vec<char> = chars_of(rest);
    if c.len() > 0 && c[0] == '/' {
        return rest.to_owned();
    }
    let mut out = base.to_owned();
    if !(b.len() == 0 || b[b.len() - 1] == '/') {
        out.push('/');
    }
    out.append(rest);
    proof {
        assert(out@ =~= joined_path(base@, rest@));
    }
    out
}

// --- laws --------------------------------------------------------------------
/// A separator and one more piece behind a path add that piece.
proof fn lemma_pieces_push(path: Seq<char>, last: Seq<char>)
    requires
        !last.contains('/'),
    ensures
        pieces(path + seq!['/'] + last) == pieces(path).push(last),
        pieces(path).len() > 0,
    decreases path.len(),
{
    let all = path + seq!['/'] + last;
    let n = find_char(path, '/');
    lemma_find_char(path, '/');
    if n < path.len() {
        let rest = path.skip(n as int + 1);
        lemma_pieces_push(rest, last);
        assert forall|i: int| 0 <= i < n implies all[i] != '/' by {
            assert(all[i] == path[i]);
        }
        lemma_find_char_unique(all, '/', n);
        assert(all.take(n as int) =~= path.take(n as int));
        assert(all.skip(n as int + 1) =~= rest + seq!['/'] + last);
        assert(seq![path.take(n as int)] + pieces(rest).push(last) =~= (seq![path.take(n as int)]
            + pieces(rest)).push(last));
    } else {
        assert forall|i: int| 0 <= i < path.len() implies all[i] != '/' by {
            assert(all[i] == path[i]);
        }
        lemma_find_char_unique(all, '/', path.len());
        assert(all.take(path.len() as int) =~= path);
        assert(all.skip(path.len() as int + 1) =~= last);
        lemma_find_char(last, '/');
        if find_char(last, '/') < last.len() {
            assert(last.contains(last[find_char(last, '/') as int]));
        }
        assert(pieces(last) == seq![last]);
        assert(pieces(path) == seq![path]);
        assert(pieces(all) == seq![path] + seq![last]);
        assert(seq![path] + seq![last] =~= seq![path].push(last));
    }
}

/// How a path grows by components. A name alone is one component, also where it
/// is a dot. Behind a separator a name adds itself, where it is neither empty
/// nor a dot; a path that starts with a separator starts at the root.
pub proof fn law_components_of_a_longer_path(path: Seq<char>, name: Seq<char>)
    requires
        !name.contains('/'),
    ensures
        components(Seq::empty()).len() == 0,
        name.len() > 0 ==> components(name) == seq![name],
        ({
            let before = if path.len() > 0 {
                components(path)
            } else {
                seq![seq!['/']]
            };
            components(path + seq!['/'] + name) == if name.len() == 0 || name == seq!['.'] {
                before
            } else {
                before.push(name)
            }
        }),
{
    let p = |piece: Seq<char>| is_proper(piece);
    let longer = path + seq!['/'] + name;
    reveal(Seq::filter);
    lemma_find_char(name, '/');
    lemma_pieces_push(path, name);
    let none = Seq::<char>::empty();
    assert(pieces(none) == seq![none]);
    assert(pieces(none).drop_first() =~= Seq::<Seq<char>>::empty());
    assert(pieces(name) == seq![name]);
    assert(pieces(name).drop_first() =~= Seq::<Seq<char>>::empty());
    if name.len() > 0 {
        assert(name.contains(name[0]));
        assert(components(name) =~= seq![name]);
    }
    let tail = pieces(path).drop_first();
    assert(pieces(longer).drop_first() =~= tail.push(name));
    assert(tail.push(name).drop_last() =~= tail);
    assert(longer[0] == if path.len() > 0 {
        path[0]
    } else {
        '/'
    });
    assert(pieces(longer)[0] == pieces(path)[0]);
    if path.len() == 0 {
        assert(path =~= none);
    }
    if is_proper(name) {
        assert(tail.push(name).filter(p) == tail.filter(p).push(name));
    } else {
        assert(tail.push(name).filter(p) == tail.filter(p));
    }
}

/// Two paths are the same exactly where they have the same components.
pub proof fn law_same_paths_have_the_same_components(a: Seq<char>, b: Seq<char>)
    ensures
        same_components(a, b) <==> components(a) == components(b),
{
}

/// A joined path is the second path where that starts at the root. Otherwise it
/// begins with the first and ends with the second, and there is a separator
/// between them exactly where the first is neither empty nor ends with one.
pub proof fn law_joined_paths(base: Seq<char>, rest: Seq<char>)
    ensures
        ({
            let r = joined_path(base, rest);
            if rest.len() > 0 && rest[0] == '/' {
                r == rest
            } else {
                &&& r.len() >= base.len() + rest.len()
                &&& r.take(base.len() as int) == base
                &&& r.skip(r.len() - rest.len()) == rest
                &&& base.len() == 0 || base.last() == '/' <==> r.len() == base.len() + rest.len()
                &&& base.len() > 0 && base.last() != '/' ==> r.len() == base.len() + 1 + rest.len()
                    && r[base.len() as int] == '/'
            }
        }),
{
    let r = joined_path(base, rest);
    if !(rest.len() > 0 && rest[0] == '/') {
        assert(r.take(base.len() as int) =~= base);
        assert(r.skip(r.len() - rest.len()) =~= rest);
    }
}

} // verus!
