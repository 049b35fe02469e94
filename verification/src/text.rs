//! Text as sequences of characters: comparison, search, trimming and splitting.

use vstd::prelude::*;

verus! {

/// The Unicode `White_Space` property.
pub open spec fn white(c: char) -> bool {
    let n = c as u32;
    ||| 0x09 <= n <= 0x0D
    ||| n == 0x20
    ||| n == 0x85
    ||| n == 0xA0
    ||| n == 0x1680
    ||| 0x2000 <= n <= 0x200A
    ||| n == 0x2028
    ||| n == 0x2029
    ||| n == 0x202F
    ||| n == 0x205F
    ||| n == 0x3000
}

/// `p` stands somewhere in `s`, without gaps.
pub open spec fn occurs(p: Seq<char>, s: Seq<char>) -> bool {
    exists|i: int| 0 <= i && i + p.len() <= s.len() && #[trigger] s.subrange(i, i + p.len()) == p
}

/// `s` without its leading white space.
pub open spec fn trimmed_start(s: Seq<char>) -> Seq<char>
    decreases s.len(),
{
    if s.len() > 0 && white(s[0]) {
        trimmed_start(s.skip(1))
    } else {
        s
    }
}

/// `s` without its trailing white space.
pub open spec fn trimmed_end(s: Seq<char>) -> Seq<char>
    decreases s.len(),
{
    if s.len() > 0 && white(s.last()) {
        trimmed_end(s.drop_last())
    } else {
        s
    }
}

/// `s` without white space at either end.
pub open spec fn trimmed(s: Seq<char>) -> Seq<char> {
    trimmed_end(trimmed_start(s))
}

/// The position of the first `a` or `b` in `s`, or the length of `s`.
pub open spec fn first_of(s: Seq<char>, a: char, b: char) -> int
    decreases s.len(),
{
    if s.len() == 0 || s[0] == a || s[0] == b {
        0
    } else {
        1 + first_of(s.skip(1), a, b)
    }
}

/// The pieces of `s` between the separators `a` and `b`.
pub open spec fn pieces(s: Seq<char>, a: char, b: char) -> Seq<Seq<char>>
    decreases s.len(),
{
    proof {
        lemma_first_of_bounds(s, a, b);
    }
    let i = first_of(s, a, b);
    if i < s.len() {
        seq![s.take(i)] + pieces(s.skip(i + 1), a, b)
    } else {
        seq![s]
    }
}

/// What stands before and after the first `c` in `s`.
pub open spec fn halves(s: Seq<char>, c: char) -> Option<(Seq<char>, Seq<char>)> {
    let i = first_of(s, c, c);
    if i < s.len() {
        Some((s.take(i), s.skip(i + 1)))
    } else {
        None
    }
}

/// The length of the first word of a text that starts with one.
pub open spec fn word_len(s: Seq<char>) -> int
    decreases s.len(),
{
    if s.len() == 0 || white(s[0]) {
        0
    } else {
        1 + word_len(s.skip(1))
    }
}

/// What follows the first word of `s`.
pub open spec fn after_word(s: Seq<char>) -> Seq<char> {
    let t = trimmed_start(s);
    t.skip(word_len(t))
}

/// The second of the words that white space separates in `s`.
pub open spec fn word_two(s: Seq<char>) -> Option<Seq<char>> {
    let t = trimmed_start(after_word(s));
    if t.len() > 0 {
        Some(t.take(word_len(t)))
    } else {
        None
    }
}

/// `parts` one after the other, with `sep` between each two.
pub open spec fn joined<T>(parts: Seq<Seq<T>>, sep: Seq<T>) -> Seq<T>
    decreases parts.len(),
{
    if parts.len() == 0 {
        Seq::empty()
    } else if parts.len() == 1 {
        parts[0]
    } else {
        parts[0] + (sep + joined(parts.skip(1), sep))
    }
}

/// The contents of a list of strings.
pub open spec fn texts(v: Seq<String>) -> Seq<Seq<char>> {
    v.map_values(|s: String| s@)
}

/// The contents of a file that may be missing.
pub open spec fn file_text(f: Option<String>) -> Option<Seq<char>> {
    match f {
        Some(s) => Some(s@),
        None => None,
    }
}

/// The contents of a list of string slices.
pub open spec fn slices(v: Seq<&str>) -> Seq<Seq<char>> {
    v.map_values(|s: &str| s@)
}

pub proof fn lemma_first_of(s: Seq<char>, a: char, b: char, k: int)
    requires
        0 <= k <= s.len(),
        forall|j: int| 0 <= j < k ==> s[j] != a && s[j] != b,
        k < s.len() ==> s[k] == a || s[k] == b,
    ensures
        first_of(s, a, b) == k,
    decreases k,
{
    if k > 0 {
        assert forall|j: int| 0 <= j < k - 1 implies s.skip(1)[j] != a && s.skip(1)[j] != b by {
            assert(s.skip(1)[j] == s[j + 1]);
        }
        lemma_first_of(s.skip(1), a, b, k - 1);
    }
}

pub proof fn lemma_first_of_bounds(s: Seq<char>, a: char, b: char)
    ensures
        0 <= first_of(s, a, b) <= s.len(),
        forall|j: int| 0 <= j < first_of(s, a, b) ==> s[j] != a && s[j] != b,
        first_of(s, a, b) < s.len() ==> s[first_of(s, a, b)] == a || s[first_of(s, a, b)] == b,
    decreases s.len(),
{
    if s.len() == 0 || s[0] == a || s[0] == b {
    } else {
        let t = s.skip(1);
        lemma_first_of_bounds(t, a, b);
        assert forall|j: int| 0 <= j < first_of(s, a, b) implies s[j] != a && s[j] != b by {
            if j > 0 {
                assert(t[j - 1] == s[j]);
            }
        }
    }
}

pub proof fn lemma_trimmed_start(s: Seq<char>, k: int)
    requires
        0 <= k <= s.len(),
        forall|j: int| 0 <= j < k ==> white(s[j]),
        k < s.len() ==> !white(s[k]),
    ensures
        trimmed_start(s) == s.skip(k),
    decreases k,
{
    if k > 0 {
        assert forall|j: int| 0 <= j < k - 1 implies white(s.skip(1)[j]) by {
            assert(s.skip(1)[j] == s[j + 1]);
        }
        lemma_trimmed_start(s.skip(1), k - 1);
        assert(s.skip(1).skip(k - 1) =~= s.skip(k));
    } else {
        assert(s.skip(0) =~= s);
    }
}

pub proof fn lemma_trimmed_end(s: Seq<char>, k: int)
    requires
        0 <= k <= s.len(),
        forall|j: int| k <= j < s.len() ==> white(s[j]),
        k > 0 ==> !white(s[k - 1]),
    ensures
        trimmed_end(s) == s.take(k),
    decreases s.len() - k,
{
    if k < s.len() {
        lemma_trimmed_end(s.drop_last(), k);
        assert(s.drop_last().take(k) =~= s.take(k));
    } else {
        assert(s.take(k) =~= s);
    }
}

pub proof fn lemma_word_len(s: Seq<char>, k: int)
    requires
        0 <= k <= s.len(),
        forall|j: int| 0 <= j < k ==> !white(s[j]),
        k < s.len() ==> white(s[k]),
    ensures
        word_len(s) == k,
    decreases k,
{
    if k > 0 {
        assert forall|j: int| 0 <= j < k - 1 implies !white(s.skip(1)[j]) by {
            assert(s.skip(1)[j] == s[j + 1]);
        }
        lemma_word_len(s.skip(1), k - 1);
    }
}

/// A text without white space at its ends is its own trimmed text.
pub proof fn lemma_trimmed_plain(s: Seq<char>)
    requires
        s.len() > 0 ==> !white(s[0]) && !white(s.last()),
    ensures
        trimmed(s) == s,
{
}

/// A text that starts with something else than white space is not trimmed away.
pub proof fn lemma_trimmed_end_keeps(s: Seq<char>)
    requires
        s.len() > 0,
        !white(s[0]),
    ensures
        trimmed_end(s).len() > 0,
    decreases s.len(),
{
    if white(s.last()) {
        lemma_trimmed_end_keeps(s.drop_last());
    }
}

/// Joining one part more puts it behind a separator.
pub proof fn lemma_joined_push<T>(parts: Seq<Seq<T>>, part: Seq<T>, sep: Seq<T>)
    requires
        parts.len() > 0,
    ensures
        joined(parts.push(part), sep) == joined(parts, sep) + sep + part,
    decreases parts.len(),
{
    let all = parts.push(part);
    assert(all.skip(1) =~= parts.skip(1).push(part));
    if parts.len() == 1 {
        reveal_with_fuel(joined, 2);
        assert(all.skip(1)[0] == part);
        assert(joined(all, sep) =~= joined(parts, sep) + sep + part);
    } else {
        lemma_joined_push(parts.skip(1), part, sep);
        assert(joined(all, sep) =~= joined(parts, sep) + sep + part);
    }
}

/// Splitting undoes joining: texts without the separator come back as they were.
pub proof fn lemma_pieces_of_joined(parts: Seq<Seq<char>>, c: char)
    requires
        parts.len() > 0,
        forall|i: int| 0 <= i < parts.len() ==> !(#[trigger] parts[i]).contains(c),
    ensures
        pieces(joined(parts, seq![c]), c, c) == parts,
    decreases parts.len(),
{
    let first = parts[0];
    let s = joined(parts, seq![c]);
    assert forall|j: int| 0 <= j < first.len() implies first[j] != c by {
        assert(first.contains(first[j]));
    }
    if parts.len() == 1 {
        lemma_first_of(first, c, c, first.len() as int);
        assert(pieces(s, c, c) =~= parts);
    } else {
        let rest = parts.skip(1);
        assert forall|i: int| 0 <= i < rest.len() implies !(#[trigger] rest[i]).contains(c) by {
            assert(rest[i] == parts[i + 1]);
        }
        lemma_pieces_of_joined(rest, c);
        let tail = joined(rest, seq![c]);
        assert(s == first + (seq![c] + tail));
        lemma_first_of(s, c, c, first.len() as int);
        assert(s.take(first.len() as int) =~= first);
        assert(s.skip(first.len() as int + 1) =~= tail);
        assert(pieces(s, c, c) =~= parts);
    }
}

/// Tells whether `c` has the Unicode `White_Space` property.
pub fn is_white(c: char) -> (r: bool)
    ensures
        r == white(c),
{
    let n: u32 = c as u32;
    (0x09 <= n && n <= 0x0D) || n == 0x20 || n == 0x85 || n == 0xA0 || n == 0x1680 || (0x2000 <= n
        && n <= 0x200A) || n == 0x2028 || n == 0x2029 || n == 0x202F || n == 0x205F || n == 0x3000
}

/// The characters of `s`, in order.
pub fn chars_of(s: &str) -> (r: Vec<char>)
    ensures
        r@ == s@,
{
    let mut v: Vec<char> = Vec::new();
    for c in it: s.chars()
        invariant
            v@ == it.seq().take(it.index() as int),
            it.seq() == s@,
    {
        v.push(c);
    }
    v
}

/// Tells whether two texts hold the same characters.
pub fn same_text(a: &str, b: &str) -> (r: bool)
    ensures
        r == (a@ == b@),
{
    a.to_owned() == b.to_owned()
}

/// Tells whether `p` stands in `s` at position `at`.
fn stands_at(s: &Vec<char>, p: &Vec<char>, at: usize) -> (r: bool)
    requires
        at + p@.len() <= s@.len(),
    ensures
        r == (s@.subrange(at as int, at + p@.len()) == p@),
{
    let n: usize = s.len();
    let mut i: usize = 0;
    while i < p.len()
        invariant
            i <= p@.len(),
            n == s@.len(),
            at + p@.len() <= s@.len(),
            forall|j: int| 0 <= j < i ==> s@[at + j] == p@[j],
        decreases p@.len() - i,
    {
        if s[at + i] != p[i] {
            assert(s@.subrange(at as int, at + p@.len())[i as int] != p@[i as int]);
            return false;
        }
        i += 1;
    }
    assert(s@.subrange(at as int, at + p@.len()) =~= p@);
    true
}

/// Tells whether `s` starts with `p`.
pub fn starts_with(s: &str, p: &str) -> (r: bool)
    ensures
        r == p@.is_prefix_of(s@),
{
    let sc: Vec<char> = chars_of(s);
    let pc: Vec<char> = chars_of(p);
    pc.len() <= sc.len() && stands_at(&sc, &pc, 0)
}

/// Tells whether `s` ends with `p`.
pub fn ends_with(s: &str, p: &str) -> (r: bool)
    ensures
        r == p@.is_suffix_of(s@),
{
    let sc: Vec<char> = chars_of(s);
    let pc: Vec<char> = chars_of(p);
    pc.len() <= sc.len() && stands_at(&sc, &pc, sc.len() - pc.len())
}

/// Tells whether `p` stands somewhere in `s`.
pub fn contains(s: &str, p: &str) -> (r: bool)
    ensures
        r == occurs(p@, s@),
{
    let sc: Vec<char> = chars_of(s);
    let pc: Vec<char> = chars_of(p);
    if pc.len() > sc.len() {
        return false;
    }
    let last: usize = sc.len() - pc.len();
    let mut i: usize = 0;
    while i < last
        invariant
            sc@ == s@,
            pc@ == p@,
            last == sc@.len() - pc@.len(),
            0 <= i <= last,
            forall|j: int| 0 <= j < i ==> #[trigger] s@.subrange(j, j + p@.len()) != p@,
        decreases last - i,
    {
        if stands_at(&sc, &pc, i) {
            return true;
        }
        i += 1;
    }
    stands_at(&sc, &pc, last)
}

/// Tells whether the character `c` stands in `s`.
pub fn has_char(s: &str, c: char) -> (r: bool)
    ensures
        r == s@.contains(c),
{
    let sc: Vec<char> = chars_of(s);
    let mut i: usize = 0;
    while i < sc.len()
        invariant
            sc@ == s@,
            i <= sc@.len(),
            forall|j: int| 0 <= j < i ==> s@[j] != c,
        decreases sc@.len() - i,
    {
        if sc[i] == c {
            assert(s@[i as int] == c);
            return true;
        }
        i += 1;
    }
    false
}

/// `s` without its leading white space.
pub fn trim_start<'a>(s: &'a str) -> (r: &'a str)
    ensures
        r@ == trimmed_start(s@),
{
    let sc: Vec<char> = chars_of(s);
    let mut k: usize = 0;
    while k < sc.len() && is_white(sc[k])
        invariant
            sc@ == s@,
            k <= sc@.len(),
            forall|j: int| 0 <= j < k ==> white(s@[j]),
        decreases sc@.len() - k,
    {
        k += 1;
    }
    proof {
        lemma_trimmed_start(s@, k as int);
    }
    s.substring_char(k, sc.len())
}

/// `s` without its trailing white space.
pub fn trim_end<'a>(s: &'a str) -> (r: &'a str)
    ensures
        r@ == trimmed_end(s@),
{
    let sc: Vec<char> = chars_of(s);
    let mut k: usize = sc.len();
    while k > 0 && is_white(sc[k - 1])
        invariant
            sc@ == s@,
            k <= sc@.len(),
            forall|j: int| k <= j < s@.len() ==> white(s@[j]),
        decreases k,
    {
        k -= 1;
    }
    proof {
        lemma_trimmed_end(s@, k as int);
    }
    s.substring_char(0, k)
}

/// `s` without white space at either end.
pub fn trim<'a>(s: &'a str) -> (r: &'a str)
    ensures
        r@ == trimmed(s@),
{
    trim_end(trim_start(s))
}

/// The position, from `from` on, of the first `a` or `b`, or the number of characters.
fn find_from(sc: &Vec<char>, from: usize, a: char, b: char) -> (r: usize)
    requires
        from <= sc@.len(),
    ensures
        from <= r <= sc@.len(),
        r - from == first_of(sc@.skip(from as int), a, b),
{
    let mut i: usize = from;
    while i < sc.len() && sc[i] != a && sc[i] != b
        invariant
            from <= i <= sc@.len(),
            forall|j: int| from <= j < i ==> sc@[j] != a && sc@[j] != b,
        decreases sc@.len() - i,
    {
        i += 1;
    }
    proof {
        lemma_first_of(sc@.skip(from as int), a, b, i - from);
    }
    i
}

/// The pieces of `s` between the separators `a` and `b`.
pub fn split<'a>(s: &'a str, a: char, b: char) -> (r: Vec<&'a str>)
    ensures
        slices(r@) == pieces(s@, a, b),
{
    let sc: Vec<char> = chars_of(s);
    let mut r: Vec<&'a str> = Vec::new();
    let mut start: usize = 0;
    let mut end: usize = find_from(&sc, 0, a, b);
    assert(s@.skip(0) =~= s@);
    while end < sc.len()
        invariant
            sc@ == s@,
            start <= end <= sc@.len(),
            end - start == first_of(s@.skip(start as int), a, b),
            pieces(s@, a, b) =~= slices(r@) + pieces(s@.skip(start as int), a, b),
        decreases sc@.len() - start,
    {
        let ghost before = slices(r@);
        let piece = s.substring_char(start, end);
        r.push(piece);
        proof {
            let rest = s@.skip(start as int);
            assert(rest.take(end - start) =~= piece@);
            assert(rest.skip(end - start + 1) =~= s@.skip(end + 1));
            assert(slices(r@) =~= before.push(piece@));
        }
        start = end + 1;
        end = find_from(&sc, start, a, b);
    }
    let piece = s.substring_char(start, end);
    let ghost before = slices(r@);
    r.push(piece);
    proof {
        assert(piece@ =~= s@.skip(start as int));
        assert(slices(r@) =~= before.push(piece@));
    }
    r
}

/// What stands before and after the first `c` in `s`.
pub fn split_once<'a>(s: &'a str, c: char) -> (r: Option<(&'a str, &'a str)>)
    ensures
        match r {
            Some((x, y)) => halves(s@, c) == Some((x@, y@)),
            None => halves(s@, c) is None,
        },
{
    let sc: Vec<char> = chars_of(s);
    let i: usize = find_from(&sc, 0, c, c);
    assert(s@.skip(0) =~= s@);
    if i < sc.len() {
        Some((s.substring_char(0, i), s.substring_char(i + 1, sc.len())))
    } else {
        None
    }
}

/// What stands in `s` before the first `c`, or all of `s`.
pub fn before_first<'a>(s: &'a str, c: char) -> (r: &'a str)
    ensures
        r@ == s@.take(first_of(s@, c, c)),
{
    let sc: Vec<char> = chars_of(s);
    let i: usize = find_from(&sc, 0, c, c);
    assert(s@.skip(0) =~= s@);
    s.substring_char(0, i)
}

/// The length of the first word of a text that starts with one.
fn first_word_len(sc: &Vec<char>) -> (r: usize)
    ensures
        r == word_len(sc@),
        r <= sc@.len(),
{
    let mut i: usize = 0;
    while i < sc.len() && !is_white(sc[i])
        invariant
            i <= sc@.len(),
            forall|j: int| 0 <= j < i ==> !white(sc@[j]),
        decreases sc@.len() - i,
    {
        i += 1;
    }
    proof {
        lemma_word_len(sc@, i as int);
    }
    i
}

/// The second of the words that white space separates in `s`.
pub fn second_word<'a>(s: &'a str) -> (r: Option<&'a str>)
    ensures
        match r {
            Some(w) => word_two(s@) == Some(w@),
            None => word_two(s@) is None,
        },
{
    let t = trim_start(s);
    let tc: Vec<char> = chars_of(t);
    let n: usize = first_word_len(&tc);
    let u = trim_start(t.substring_char(n, tc.len()));
    let uc: Vec<char> = chars_of(u);
    if uc.len() > 0 {
        Some(u.substring_char(0, first_word_len(&uc)))
    } else {
        None
    }
}

/// The strings of `parts` one after the other, with `sep` between each two.
pub fn join(parts: &Vec<String>, sep: &str) -> (r: String)
    ensures
        r@ == joined(texts(parts@), sep@),
{
    let mut r: String = String::new();
    let ghost all = texts(parts@);
    let mut i: usize = 0;
    assert(all.skip(0) =~= all);
    while i < parts.len()
        invariant
            i <= parts@.len(),
            all == texts(parts@),
            joined(all, sep@) =~= if i == 0 {
                joined(all, sep@)
            } else if i < parts@.len() {
                r@ + (sep@ + joined(all.skip(i as int), sep@))
            } else {
                r@
            },
            i == 0 ==> r@.len() == 0,
        decreases parts@.len() - i,
    {
        proof {
            let rest = all.skip(i as int);
            assert(rest[0] == parts@[i as int]@);
            assert(rest.skip(1) =~= all.skip(i + 1));
        }
        if i > 0 {
            r.append(sep);
        }
        r.append(parts[i].as_str());
        i += 1;
    }
    r
}

} // verus!
