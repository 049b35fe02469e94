//! Laws of texts.

use vstd::prelude::*;

use crate::text::{
    first_of, halves, joined, occurs, pieces, trimmed, trimmed_end, trimmed_start, white, word_two,
    lemma_first_of, lemma_first_of_bounds, lemma_joined_push, lemma_trimmed_end,
    lemma_trimmed_start, lemma_word_len,
};

verus! {

/// Every character of `s` is white space.
pub open spec fn all_white(s: Seq<char>) -> bool {
    forall|i: int| 0 <= i < s.len() ==> white(#[trigger] s[i])
}

/// No character of `s` is white space.
pub open spec fn no_white(s: Seq<char>) -> bool {
    forall|i: int| 0 <= i < s.len() ==> !white(#[trigger] s[i])
}

/// `s` has no white space at its ends.
pub open spec fn tight(s: Seq<char>) -> bool {
    s.len() > 0 ==> !white(s[0]) && !white(s.last())
}

/// What stands between two texts occurs in the whole.
pub proof fn parts_occur(a: Seq<char>, p: Seq<char>, b: Seq<char>)
    ensures
        occurs(p, a + p + b),
{
    let s = a + p + b;
    let i = a.len() as int;
    assert(s.subrange(i, i + p.len()) =~= p);
}

/// What occurs in a text stands between two others.
pub proof fn what_occurs_is_a_part(p: Seq<char>, s: Seq<char>)
    requires
        occurs(p, s),
    ensures
        exists|a: Seq<char>, b: Seq<char>| s == #[trigger] (a + p + b),
{
    let i = choose|i: int|
        0 <= i && i + p.len() <= s.len() && #[trigger] s.subrange(i, i + p.len()) == p;
    let a = s.take(i);
    let b = s.skip(i + p.len());
    assert(s =~= a + p + b) by {
        assert forall|j: int| 0 <= j < s.len() implies s[j] == (a + p + b)[j] by {
            if i <= j < i + p.len() {
                assert(s.subrange(i, i + p.len())[j - i] == s[j]);
            }
        }
    }
}

/// Trimming cuts off the white space around a text, and nothing within it.
pub proof fn trimming_keeps_what_is_inside(a: Seq<char>, n: Seq<char>, b: Seq<char>)
    requires
        all_white(a),
        all_white(b),
        tight(n),
    ensures
        trimmed(a + n + b) == n,
        n.len() > 0 ==> trimmed_start(a + n + b) == n + b,
        n.len() > 0 ==> trimmed_end(a + n + b) == a + n,
{
    let s = a + n + b;
    let i = a.len() as int;
    let j = (a.len() + n.len()) as int;
    assert forall|k: int| 0 <= k < i implies white(s[k]) by {
        assert(white(a[k]));
    }
    assert forall|k: int| j <= k < s.len() implies white(s[k]) by {
        assert(white(b[k - j]));
    }
    if n.len() > 0 {
        assert(s[i] == n[0]);
        lemma_trimmed_start(s, i);
        assert(s.skip(i) =~= n + b);
        assert(s[j - 1] == n.last());
        lemma_trimmed_end(s, j);
        assert(s.take(j) =~= a + n);
        let t = n + b;
        assert forall|k: int| n.len() <= k < t.len() implies white(t[k]) by {
            assert(white(b[k - n.len()]));
        }
        assert(t[n.len() - 1] == n.last());
        lemma_trimmed_end(t, n.len() as int);
        assert(t.take(n.len() as int) =~= n);
    } else {
        assert forall|k: int| 0 <= k < s.len() implies white(s[k]) by {
            if k >= i {
                assert(white(b[k - i]));
            }
        }
        lemma_trimmed_start(s, s.len() as int);
        assert(s.skip(s.len() as int) =~= n);
    }
}

/// A separator cuts a text in two: what stands before the first is one piece, and what follows is
/// cut in its turn. A text without separators is one piece.
pub proof fn separators_cut(x: Seq<char>, c: char, y: Seq<char>, a: char, b: char)
    requires
        !x.contains(a),
        !x.contains(b),
        c == a || c == b,
    ensures
        pieces(x + seq![c] + y, a, b) == seq![x] + pieces(y, a, b),
        pieces(x, a, b) == seq![x],
{
    let s = x + seq![c] + y;
    let n = x.len() as int;
    assert forall|j: int| 0 <= j < n implies s[j] != a && s[j] != b by {
        assert(s[j] == x[j]);
    }
    assert(s[n] == c);
    lemma_first_of(s, a, b, n);
    assert(s.take(n) =~= x);
    assert(s.skip(n + 1) =~= y);
    assert forall|j: int| 0 <= j < n implies x[j] != a && x[j] != b by {}
    lemma_first_of(x, a, b, n);
}

/// Whatever stands on both sides of a separator is cut on its own.
pub proof fn separators_cut_everywhere(x: Seq<char>, c: char, y: Seq<char>, a: char, b: char)
    requires
        c == a || c == b,
    ensures
        pieces(x + seq![c] + y, a, b) == pieces(x, a, b) + pieces(y, a, b),
    decreases x.len(),
{
    lemma_first_of_bounds(x, a, b);
    let k = first_of(x, a, b);
    if k == x.len() {
        assert(!x.contains(a) && !x.contains(b));
        separators_cut(x, c, y, a, b);
    } else {
        let head = x.take(k);
        let tail = x.skip(k + 1);
        assert forall|j: int| 0 <= j < k implies head[j] != a && head[j] != b by {
            assert(head[j] == x[j]);
        }
        assert(!head.contains(a) && !head.contains(b));
        separators_cut_everywhere(tail, c, y, a, b);
        separators_cut(head, x[k], tail + seq![c] + y, a, b);
        separators_cut(head, x[k], tail, a, b);
        assert(x + seq![c] + y =~= head + seq![x[k]] + (tail + seq![c] + y));
        assert(x =~= head + seq![x[k]] + tail);
        assert(pieces(x + seq![c] + y, a, b) =~= pieces(x, a, b) + pieces(y, a, b));
    }
}

/// Texts without separators, joined by one of two separators, come back when they are cut.
pub proof fn cutting_undoes_joining(parts: Seq<Seq<char>>, c: char, a: char, b: char)
    requires
        parts.len() > 0,
        c == a || c == b,
        forall|i: int|
            0 <= i < parts.len() ==> !(#[trigger] parts[i]).contains(a) && !parts[i].contains(b),
    ensures
        pieces(joined(parts, seq![c]), a, b) == parts,
    decreases parts.len(),
{
    assert(!parts[0].contains(a) && !parts[0].contains(b));
    if parts.len() == 1 {
        separators_cut(parts[0], c, Seq::empty(), a, b);
        assert(seq![parts[0]] =~= parts);
    } else {
        let rest = parts.skip(1);
        assert forall|i: int| 0 <= i < rest.len() implies !(#[trigger] rest[i]).contains(a)
            && !rest[i].contains(b) by {
            assert(rest[i] == parts[i + 1]);
        }
        cutting_undoes_joining(rest, c, a, b);
        separators_cut(parts[0], c, joined(rest, seq![c]), a, b);
        assert(parts[0] + (seq![c] + joined(rest, seq![c])) =~= parts[0] + seq![c] + joined(
            rest,
            seq![c],
        ));
        assert(seq![parts[0]] + rest =~= parts);
    }
}

/// A text is halved at the first `c`, and not at all without one.
pub proof fn texts_are_halved_once(x: Seq<char>, c: char, y: Seq<char>)
    requires
        !x.contains(c),
    ensures
        halves(x + seq![c] + y, c) == Some((x, y)),
        halves(x, c) is None,
{
    let s = x + seq![c] + y;
    let n = x.len() as int;
    assert forall|j: int| 0 <= j < n implies s[j] != c by {
        assert(s[j] == x[j]);
    }
    assert(s[n] == c);
    lemma_first_of(s, c, c, n);
    assert(s.take(n) =~= x);
    assert(s.skip(n + 1) =~= y);
    assert forall|j: int| 0 <= j < n implies x[j] != c by {}
    lemma_first_of(x, c, c, n);
}

/// The second word is what stands between the second and the third stretch of white space.
pub proof fn second_words(
    a: Seq<char>,
    u: Seq<char>,
    b: Seq<char>,
    v: Seq<char>,
    rest: Seq<char>,
)
    requires
        all_white(a),
        no_white(u) && u.len() > 0,
        all_white(b) && b.len() > 0,
        no_white(v) && v.len() > 0,
        rest.len() > 0 ==> white(rest[0]),
    ensures
        word_two(a + u + b + v + rest) == Some(v),
        word_two(a + u + b) is None,
        word_two(a) is None,
{
    let tail = b + v + rest;
    let s = a + u + b + v + rest;
    lemma_after_word(a, u, tail);
    assert(s =~= a + u + tail);
    assert forall|j: int| 0 <= j < b.len() implies white(tail[j]) by {
        assert(white(b[j]));
    }
    assert(tail[b.len() as int] == v[0]);
    lemma_trimmed_start(tail, b.len() as int);
    let t = v + rest;
    assert(tail.skip(b.len() as int) =~= t);
    assert forall|j: int| 0 <= j < v.len() implies !white(t[j]) by {
        assert(!white(v[j]));
    }
    assert(rest.len() > 0 ==> t[v.len() as int] == rest[0]);
    lemma_word_len(t, v.len() as int);
    assert(t.take(v.len() as int) =~= v);

    lemma_after_word(a, u, b);
    assert forall|j: int| 0 <= j < b.len() implies white(b[j]) by {}
    lemma_trimmed_start(b, b.len() as int);
    assert forall|j: int| 0 <= j < a.len() implies white(a[j]) by {}
    lemma_trimmed_start(a, a.len() as int);
    assert(a.skip(a.len() as int) =~= Seq::<char>::empty());
    assert(crate::text::after_word(a) =~= Seq::<char>::empty());
}

proof fn lemma_after_word(a: Seq<char>, u: Seq<char>, tail: Seq<char>)
    requires
        all_white(a),
        no_white(u) && u.len() > 0,
        tail.len() > 0 ==> white(tail[0]),
    ensures
        crate::text::after_word(a + u + tail) == tail,
{
    let s = a + u + tail;
    let i = a.len() as int;
    assert forall|j: int| 0 <= j < i implies white(s[j]) by {
        assert(white(a[j]));
    }
    assert(s[i] == u[0]);
    lemma_trimmed_start(s, i);
    let t = u + tail;
    assert(s.skip(i) =~= t);
    assert forall|j: int| 0 <= j < u.len() implies !white(t[j]) by {
        assert(!white(u[j]));
    }
    assert(tail.len() > 0 ==> t[u.len() as int] == tail[0]);
    lemma_word_len(t, u.len() as int);
    assert(t.skip(u.len() as int) =~= tail);
}

/// Joining puts the separator between two lists of texts; one text joined is itself.
pub proof fn joining_goes_part_by_part(x: Seq<Seq<char>>, y: Seq<Seq<char>>, one: Seq<char>, sep: Seq<char>)
    requires
        x.len() > 0,
        y.len() > 0,
    ensures
        joined(x + y, sep) == joined(x, sep) + sep + joined(y, sep),
        joined(seq![one], sep) == one,
        joined(Seq::<Seq<char>>::empty(), sep) == Seq::<char>::empty(),
    decreases y.len(),
{
    if y.len() == 1 {
        lemma_joined_push(x, y[0], sep);
        assert(x + y =~= x.push(y[0]));
    } else {
        let z = y.drop_last();
        joining_goes_part_by_part(x, z, one, sep);
        lemma_joined_push(x + z, y.last(), sep);
        lemma_joined_push(z, y.last(), sep);
        assert(x + y =~= (x + z).push(y.last()));
        assert(y =~= z.push(y.last()));
        assert(joined(x + y, sep) =~= joined(x, sep) + sep + joined(y, sep));
    }
}

} // verus!
