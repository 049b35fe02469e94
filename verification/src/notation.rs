//! JSON notation: how strings, lists and objects are spelled.

use vstd::prelude::*;

use crate::document::JsonView;
use crate::text::{
    joined, trimmed_end, trimmed_start, white, lemma_trimmed_end, lemma_trimmed_start,
};

verus! {

/// One token of JSON.
pub enum Token {
    ListStart,
    ListEnd,
    MapStart,
    MapEnd,
    Comma,
    Colon,
    Null,
    Bool(bool),
    Text(Seq<char>),
}

/// `s` in double quotes.
pub open spec fn quoted(s: Seq<char>) -> Seq<char> {
    seq!['"'] + s + seq!['"']
}

/// How a token is spelled.
pub open spec fn spelled(t: Token) -> Seq<char> {
    match t {
        Token::ListStart => seq!['['],
        Token::ListEnd => seq![']'],
        Token::MapStart => seq!['{'],
        Token::MapEnd => seq!['}'],
        Token::Comma => seq![','],
        Token::Colon => seq![':'],
        Token::Null => seq!['n', 'u', 'l', 'l'],
        Token::Bool(b) => if b {
            seq!['t', 'r', 'u', 'e']
        } else {
            seq!['f', 'a', 'l', 's', 'e']
        },
        Token::Text(s) => quoted(s),
    }
}

/// The white space that may stand between tokens.
pub open spec fn blank(c: char) -> bool {
    9 <= c as u32 <= 13 || c as u32 == 32
}

/// Every character of `s` is white space that may stand between tokens.
pub open spec fn all_blank(s: Seq<char>) -> bool {
    forall|i: int| 0 <= i < s.len() ==> blank(#[trigger] s[i])
}

/// `s` needs no escapes within double quotes.
pub open spec fn plain(s: Seq<char>) -> bool {
    forall|i: int| 0 <= i < s.len() ==> (#[trigger] s[i]) as u32 >= 32 && s[i] != '"' && s[i] != '\\'
}

/// The tokens of a value.
pub open spec fn tokens(v: JsonView) -> Seq<Token>
    decreases v,
{
    match v {
        JsonView::Null => seq![Token::Null],
        JsonView::Bool(b) => seq![Token::Bool(b)],
        JsonView::Text(s) => seq![Token::Text(s)],
        JsonView::Array(items) => seq![Token::ListStart] + joined(
            item_tokens(items),
            seq![Token::Comma],
        ) + seq![Token::ListEnd],
        JsonView::Object(fields) => seq![Token::MapStart] + joined(
            field_tokens(fields),
            seq![Token::Comma],
        ) + seq![Token::MapEnd],
    }
}

/// The tokens of each item of a list.
pub open spec fn item_tokens(items: Seq<JsonView>) -> Seq<Seq<Token>>
    decreases items,
{
    Seq::new(
        items.len(),
        |i: int|
            if 0 <= i < items.len() {
                tokens(items[i])
            } else {
                Seq::empty()
            },
    )
}

/// The tokens of each field of an object.
pub open spec fn field_tokens(fields: Seq<(Seq<char>, JsonView)>) -> Seq<Seq<Token>>
    decreases fields,
{
    Seq::new(
        fields.len(),
        |i: int|
            if 0 <= i < fields.len() {
                seq![Token::Text(fields[i].0), Token::Colon] + tokens(fields[i].1)
            } else {
                Seq::empty()
            },
    )
}

/// In `text`, behind `k` blanks, stands `t`.
pub open spec fn stands_behind(text: Seq<char>, t: Token, k: int) -> bool {
    &&& 0 <= k
    &&& k + spelled(t).len() <= text.len()
    &&& all_blank(text.take(k))
    &&& text.subrange(k, k + spelled(t).len()) == spelled(t)
}

/// `text` is `toks` spelled one after the other, with blanks around them.
pub open spec fn spells(text: Seq<char>, toks: Seq<Token>) -> bool
    decreases toks.len(),
{
    if toks.len() == 0 {
        all_blank(text)
    } else {
        exists|k: int| #[trigger]
            stands_behind(text, toks[0], k) && spells(
                text.skip(k + spelled(toks[0]).len()),
                toks.skip(1),
            )
    }
}

/// `v` is made of `null`, booleans, strings without escapes, lists, and objects with distinct
/// keys, nested no deeper than `depth`.
pub open spec fn writable(v: JsonView, depth: nat) -> bool
    decreases depth,
{
    match v {
        JsonView::Null => true,
        JsonView::Bool(_) => true,
        JsonView::Text(s) => plain(s),
        JsonView::Array(items) => depth > 0 && forall|i: int|
            0 <= i < items.len() ==> writable(#[trigger] items[i], (depth - 1) as nat),
        JsonView::Object(fields) => {
            &&& depth > 0
            &&& forall|i: int|
                0 <= i < fields.len() ==> plain((#[trigger] fields[i]).0) && writable(
                    fields[i].1,
                    (depth - 1) as nat,
                )
            &&& forall|i: int, j: int|
                0 <= i < j < fields.len() ==> (#[trigger] fields[i]).0 != (#[trigger] fields[j]).0
        },
    }
}

/// How deep lists and objects may nest.
pub open spec fn max_depth() -> nat {
    512
}

/// `text` spells out `v`.
pub open spec fn writes(text: Seq<char>, v: JsonView) -> bool {
    writable(v, max_depth()) && spells(text, tokens(v))
}

pub proof fn lemma_blank_concat(a: Seq<char>, b: Seq<char>)
    requires
        all_blank(a),
        all_blank(b),
    ensures
        all_blank(a + b),
{
    assert forall|i: int| 0 <= i < (a + b).len() implies blank(#[trigger] (a + b)[i]) by {
        if i < a.len() {
            assert(blank(a[i]));
        } else {
            assert(blank(b[i - a.len()]));
        }
    }
}

/// What two texts spell, they spell one after the other.
pub proof fn lemma_spells_concat(a: Seq<char>, x: Seq<Token>, b: Seq<char>, y: Seq<Token>)
    requires
        spells(a, x),
        spells(b, y),
    ensures
        spells(a + b, x + y),
    decreases x.len(),
{
    let text = a + b;
    let toks = x + y;
    if x.len() == 0 {
        assert(toks =~= y);
        if y.len() == 0 {
            lemma_blank_concat(a, b);
        } else {
            let k = choose|k: int| #[trigger]
            stands_behind(b, y[0], k) && spells(b.skip(k + spelled(y[0]).len()), y.skip(1));
            let end = k + spelled(y[0]).len();
            let n = a.len() as int;
            lemma_blank_concat(a, b.take(k));
            assert(text.take(n + k) =~= a + b.take(k));
            assert(text.subrange(n + k, n + end) =~= b.subrange(k, end));
            assert(text.skip(n + end) =~= b.skip(end));
            assert(stands_behind(text, toks[0], n + k));
        }
    } else {
        let k = choose|k: int| #[trigger]
            stands_behind(a, x[0], k) && spells(a.skip(k + spelled(x[0]).len()), x.skip(1));
        let end = k + spelled(x[0]).len();
        lemma_spells_concat(a.skip(end), x.skip(1), b, y);
        assert(text.take(k) =~= a.take(k));
        assert(text.subrange(k, end) =~= a.subrange(k, end));
        assert(text.skip(end) =~= a.skip(end) + b);
        assert(toks.skip(1) =~= x.skip(1) + y);
        assert(toks[0] == x[0]);
        assert(stands_behind(text, toks[0], k));
    }
}

/// A token between blanks spells that token.
pub proof fn lemma_spells_token(before: Seq<char>, t: Token, after: Seq<char>)
    requires
        all_blank(before),
        all_blank(after),
    ensures
        spells(before + spelled(t) + after, seq![t]),
{
    let text = before + spelled(t) + after;
    let toks = seq![t];
    let k = before.len() as int;
    let end = k + spelled(t).len();
    assert(text.take(k) =~= before);
    assert(text.subrange(k, end) =~= spelled(t));
    assert(text.skip(end) =~= after);
    assert(toks.skip(1) =~= Seq::<Token>::empty());
    assert(spells(text.skip(end), toks.skip(1)));
    assert(stands_behind(text, toks[0], k));
}

/// Where a text spells tokens, it can be cut before the last of them.
pub proof fn lemma_spells_last(text: Seq<char>, toks: Seq<Token>) -> (k: int)
    requires
        toks.len() > 0,
        spells(text, toks),
    ensures
        0 <= k,
        k + spelled(toks.last()).len() <= text.len(),
        spells(text.take(k), toks.drop_last()),
        text.subrange(k, k + spelled(toks.last()).len()) == spelled(toks.last()),
        all_blank(text.skip(k + spelled(toks.last()).len())),
    decreases toks.len(),
{
    let first = choose|k: int| #[trigger]
            stands_behind(text, toks[0], k) && spells(text.skip(k + spelled(toks[0]).len()), toks.skip(1));
    let end = first + spelled(toks[0]).len();
    if toks.len() == 1 {
        assert(toks.drop_last() =~= Seq::<Token>::empty());
        assert(toks.skip(1) =~= Seq::<Token>::empty());
        first
    } else {
        let rest = text.skip(end);
        let k = lemma_spells_last(rest, toks.skip(1));
        let n = spelled(toks.last()).len();
        assert(toks.skip(1).last() == toks.last());
        assert(rest.subrange(k, k + n) =~= text.subrange(end + k, end + k + n));
        assert(rest.skip(k + n) =~= text.skip(end + k + n));
        let cut = text.take(end + k);
        let kept = toks.drop_last();
        assert(cut.take(first) =~= text.take(first));
        assert(cut.subrange(first, end) =~= text.subrange(first, end));
        assert(cut.skip(end) =~= rest.take(k));
        assert(kept.skip(1) =~= toks.skip(1).drop_last());
        assert(kept[0] == toks[0]);
        assert(stands_behind(cut, kept[0], first));
        end + k
    }
}

proof fn lemma_spelled_ends(t: Token)
    ensures
        spelled(t).len() > 0,
        !white(spelled(t)[0]),
        !white(spelled(t).last()),
{
}

proof fn lemma_trimmed_cut(text: Seq<char>, t: Token, k: int)
    requires
        0 <= k,
        k + spelled(t).len() <= text.len(),
        text.subrange(k, k + spelled(t).len()) == spelled(t),
        all_blank(text.skip(k + spelled(t).len())),
    ensures
        trimmed_end(text) == text.take(k) + spelled(t),
{
    let word = spelled(t);
    let end = k + word.len();
    assert forall|j: int| end <= j < text.len() implies white(text[j]) by {
        assert(blank(text.skip(end)[j - end]));
    }
    lemma_spelled_ends(t);
    assert(text.subrange(k, end)[word.len() - 1] == text[end - 1]);
    lemma_trimmed_end(text, end);
    assert(text.take(end) =~= text.take(k) + text.subrange(k, end));
}

/// Trailing white space adds no token: a trimmed text ends with its last token.
pub proof fn lemma_spells_trimmed(text: Seq<char>, toks: Seq<Token>) -> (head: Seq<char>)
    requires
        toks.len() > 0,
        spells(text, toks),
    ensures
        trimmed_end(text) == head + spelled(toks.last()),
        spells(head, toks.drop_last()),
{
    let k = lemma_spells_last(text, toks);
    lemma_trimmed_cut(text, toks.last(), k);
    text.take(k)
}

/// A text starts, behind white space, with its first token.
pub proof fn lemma_spells_first(text: Seq<char>, toks: Seq<Token>)
    requires
        toks.len() > 0,
        spells(text, toks),
    ensures
        trimmed_start(text).len() > 0,
        trimmed_start(text)[0] == spelled(toks[0])[0],
{
    let k = choose|k: int| #[trigger]
            stands_behind(text, toks[0], k) && spells(text.skip(k + spelled(toks[0]).len()), toks.skip(1));
    let end = k + spelled(toks[0]).len();
    assert forall|j: int| 0 <= j < k implies white(text[j]) by {
        assert(blank(text.take(k)[j]));
    }
    assert(text.subrange(k, end)[0] == text[k]);
    lemma_trimmed_start(text, k);
}

/// Where a reader of JSON stands that counts the digits of fractions which start with `0.`: how
/// many it has counted, and the number that they make.
pub enum Scan {
    Outside,
    Quoted,
    Escaped,
    Digits,
    Zero,
    Fraction(nat, nat),
}

/// How many digits of a fraction may be counted.
pub const MAX_DIGITS: u32 = 32_768;

/// Where the reader stands after the digit `d` of a fraction: it counts the digit where the number
/// that they make fits in a `u64`.
pub open spec fn digit_step(count: nat, number: nat, d: nat) -> Scan {
    if 10 * number + d <= u64::MAX {
        Scan::Fraction(count + 1, 10 * number + d)
    } else {
        Scan::Fraction(count, number)
    }
}

/// Where the reader stands after `c`.
pub open spec fn scan_step(at: Scan, c: char) -> Scan {
    match at {
        Scan::Escaped => Scan::Quoted,
        Scan::Quoted => if c == '\\' {
            Scan::Escaped
        } else if c == '"' {
            Scan::Outside
        } else {
            Scan::Quoted
        },
        _ => if c == '"' {
            Scan::Quoted
        } else if '0' <= c <= '9' {
            match at {
                Scan::Fraction(count, number) => digit_step(count, number, (c as u32 - 48) as nat),
                Scan::Outside => if c == '0' {
                    Scan::Zero
                } else {
                    Scan::Digits
                },
                _ => Scan::Digits,
            }
        } else if c == '.' && at is Zero {
            Scan::Fraction(0, 0)
        } else {
            Scan::Outside
        },
    }
}

/// Where the reader stands after `s`.
pub open spec fn scan_from(at: Scan, s: Seq<char>) -> Scan
    decreases s.len(),
{
    if s.len() == 0 {
        at
    } else {
        scan_from(scan_step(at, s[0]), s.skip(1))
    }
}

/// The reader has not counted too many digits.
pub open spec fn scan_fits(at: Scan) -> bool {
    match at {
        Scan::Fraction(count, _) => count <= MAX_DIGITS,
        _ => true,
    }
}

/// The reader counts nowhere in `s` too many digits.
pub open spec fn fits_from(at: Scan, s: Seq<char>) -> bool
    decreases s.len(),
{
    scan_fits(at) && (s.len() > 0 ==> fits_from(scan_step(at, s[0]), s.skip(1)))
}

/// The reader stands inside a string.
pub open spec fn in_string(at: Scan) -> bool {
    at is Quoted || at is Escaped
}

/// No fraction in the JSON text `s` that starts with `0.` has more than [`MAX_DIGITS`] digits that
/// count.
pub open spec fn small_fractions(s: Seq<char>) -> bool {
    fits_from(Scan::Outside, s)
}

/// `text` has the outline of a list: it starts with `[` and ends with `]`, white space aside, and
/// that `]` does not stand in a string.
pub open spec fn list_text(text: Seq<char>) -> bool {
    &&& seq!['['].is_prefix_of(trimmed_start(text))
    &&& seq![']'].is_suffix_of(trimmed_end(text))
    &&& !in_string(scan_from(Scan::Outside, trimmed_end(text).drop_last()))
}

/// The text of a list up to its last item.
pub open spec fn list_head(text: Seq<char>) -> Seq<char> {
    trimmed_end(trimmed_end(text).drop_last())
}

/// `text` is the text `old` of a list with `item` put behind its last item.
pub open spec fn appends(text: Seq<char>, old: Seq<char>, item: Seq<char>) -> bool {
    text == list_head(old) + seq![','] + item + seq![']']
}

/// `item` spells out `v` and can stand in a list.
pub open spec fn item_text(item: Seq<char>, v: JsonView) -> bool {
    writable(v, (max_depth() - 1) as nat) && spells(item, tokens(v))
}

proof fn lemma_scan_concat(at: Scan, a: Seq<char>, b: Seq<char>)
    ensures
        scan_from(at, a + b) == scan_from(scan_from(at, a), b),
        fits_from(at, a + b) == (fits_from(at, a) && fits_from(scan_from(at, a), b)),
    decreases a.len(),
{
    if a.len() == 0 {
        assert(a + b =~= b);
    } else {
        lemma_scan_concat(scan_step(at, a[0]), a.skip(1), b);
        assert((a + b).skip(1) =~= a.skip(1) + b);
    }
}

proof fn lemma_scan_blank(s: Seq<char>)
    requires
        all_blank(s),
    ensures
        scan_from(Scan::Outside, s) == Scan::Outside,
        fits_from(Scan::Outside, s),
    decreases s.len(),
{
    if s.len() > 0 {
        assert(blank(s[0]));
        assert forall|i: int| 0 <= i < s.skip(1).len() implies blank(#[trigger] s.skip(1)[i]) by {
            assert(s.skip(1)[i] == s[i + 1]);
        }
        lemma_scan_blank(s.skip(1));
    }
}

proof fn lemma_scan_plain(s: Seq<char>)
    requires
        plain(s),
    ensures
        scan_from(Scan::Quoted, s) == Scan::Quoted,
        fits_from(Scan::Quoted, s),
    decreases s.len(),
{
    if s.len() > 0 {
        assert(s[0] != '"' && s[0] != '\\');
        assert(plain(s.skip(1))) by {
            assert forall|i: int| 0 <= i < s.skip(1).len() implies (#[trigger] s.skip(1)[i]) as u32
                >= 32 && s.skip(1)[i] != '"' && s.skip(1)[i] != '\\' by {
                assert(s.skip(1)[i] == s[i + 1]);
            }
        }
        lemma_scan_plain(s.skip(1));
    }
}

/// Every string among the tokens needs no escapes.
pub open spec fn plain_tokens(toks: Seq<Token>) -> bool {
    forall|i: int|
        0 <= i < toks.len() ==> match #[trigger] toks[i] {
            Token::Text(s) => plain(s),
            _ => true,
        }
}

proof fn lemma_scan_token(t: Token)
    requires
        t matches Token::Text(s) ==> plain(s),
    ensures
        scan_from(Scan::Outside, spelled(t)) == Scan::Outside,
        fits_from(Scan::Outside, spelled(t)),
{
    match t {
        Token::Text(s) => {
            let open = seq!['"'];
            lemma_scan_plain(s);
            lemma_scan_concat(Scan::Outside, open + s, open);
            lemma_scan_concat(Scan::Outside, open, s);
            reveal_with_fuel(scan_from, 2);
            reveal_with_fuel(fits_from, 2);
        },
        _ => {
            reveal_with_fuel(scan_from, 6);
            reveal_with_fuel(fits_from, 6);
        },
    }
}

proof fn lemma_spells_scan(text: Seq<char>, toks: Seq<Token>)
    requires
        spells(text, toks),
        plain_tokens(toks),
    ensures
        scan_from(Scan::Outside, text) == Scan::Outside,
        fits_from(Scan::Outside, text),
    decreases toks.len(),
{
    if toks.len() == 0 {
        lemma_scan_blank(text);
    } else {
        let k = choose|k: int| #[trigger]
            stands_behind(text, toks[0], k) && spells(text.skip(k + spelled(toks[0]).len()), toks.skip(1));
        let word = spelled(toks[0]);
        let end = k + word.len();
        lemma_scan_blank(text.take(k));
        lemma_scan_token(toks[0]);
        assert forall|i: int| 0 <= i < toks.skip(1).len() implies match #[trigger] toks.skip(1)[i] {
            Token::Text(s) => plain(s),
            _ => true,
        } by {
            assert(toks.skip(1)[i] == toks[i + 1]);
        }
        lemma_spells_scan(text.skip(end), toks.skip(1));
        lemma_scan_concat(Scan::Outside, text.take(k), word);
        lemma_scan_concat(Scan::Outside, text.take(k) + word, text.skip(end));
        assert(text =~= text.take(k) + word + text.skip(end));
    }
}

proof fn lemma_plain_joined(parts: Seq<Seq<Token>>)
    requires
        forall|i: int| 0 <= i < parts.len() ==> plain_tokens(#[trigger] parts[i]),
    ensures
        plain_tokens(joined(parts, seq![Token::Comma])),
    decreases parts.len(),
{
    if parts.len() == 1 {
        assert(plain_tokens(parts[0]));
    } else if parts.len() > 1 {
        let rest = parts.skip(1);
        assert forall|i: int| 0 <= i < rest.len() implies plain_tokens(#[trigger] rest[i]) by {
            assert(rest[i] == parts[i + 1]);
        }
        lemma_plain_joined(rest);
        let tail = joined(rest, seq![Token::Comma]);
        let all = joined(parts, seq![Token::Comma]);
        assert(plain_tokens(parts[0]));
        assert forall|i: int| 0 <= i < all.len() implies match #[trigger] all[i] {
            Token::Text(s) => plain(s),
            _ => true,
        } by {
            let n = parts[0].len();
            if i < n {
                assert(all[i] == parts[0][i]);
            } else if i > n {
                assert(all[i] == tail[i - n - 1]);
            }
        }
    }
}

proof fn lemma_writable_tokens(v: JsonView, depth: nat)
    requires
        writable(v, depth),
    ensures
        plain_tokens(tokens(v)),
        tokens(v).len() > 0,
    decreases depth,
{
    match v {
        JsonView::Array(items) => {
            let parts = item_tokens(items);
            assert forall|i: int| 0 <= i < parts.len() implies plain_tokens(#[trigger] parts[i]) by {
                assert(writable(items[i], (depth - 1) as nat));
                lemma_writable_tokens(items[i], (depth - 1) as nat);
            }
            lemma_plain_joined(parts);
            let inner = joined(parts, seq![Token::Comma]);
            assert forall|i: int| 0 <= i < tokens(v).len() implies match #[trigger] tokens(v)[i] {
                Token::Text(s) => plain(s),
                _ => true,
            } by {
                if 0 < i <= inner.len() {
                    assert(tokens(v)[i] == inner[i - 1]);
                }
            }
        },
        JsonView::Object(fields) => {
            let parts = field_tokens(fields);
            assert forall|i: int| 0 <= i < parts.len() implies plain_tokens(#[trigger] parts[i]) by {
                assert(plain(fields[i].0) && writable(fields[i].1, (depth - 1) as nat));
                lemma_writable_tokens(fields[i].1, (depth - 1) as nat);
                let inner = tokens(fields[i].1);
                assert forall|j: int| 0 <= j < parts[i].len() implies match #[trigger] parts[i][j] {
                    Token::Text(s) => plain(s),
                    _ => true,
                } by {
                    if j >= 2 {
                        assert(parts[i][j] == inner[j - 2]);
                    }
                }
            }
            lemma_plain_joined(parts);
            let inner = joined(parts, seq![Token::Comma]);
            assert forall|i: int| 0 <= i < tokens(v).len() implies match #[trigger] tokens(v)[i] {
                Token::Text(s) => plain(s),
                _ => true,
            } by {
                if 0 < i <= inner.len() {
                    assert(tokens(v)[i] == inner[i - 1]);
                }
            }
        },
        _ => {},
    }
}

/// A text that spells out a value holds no number at all.
pub proof fn lemma_writes_no_fractions(text: Seq<char>, v: JsonView)
    requires
        writes(text, v),
    ensures
        small_fractions(text),
{
    lemma_writable_tokens(v, max_depth());
    lemma_spells_scan(text, tokens(v));
}

proof fn lemma_trimmed_end_cut(s: Seq<char>) -> (k: int)
    ensures
        0 <= k <= s.len(),
        trimmed_end(s) == s.take(k),
        forall|j: int| k <= j < s.len() ==> white(#[trigger] s[j]),
    decreases s.len(),
{
    if s.len() > 0 && white(s.last()) {
        let k = lemma_trimmed_end_cut(s.drop_last());
        assert(s.drop_last().take(k) =~= s.take(k));
        assert forall|j: int| k <= j < s.len() implies white(#[trigger] s[j]) by {
            if j < s.len() - 1 {
                assert(white(s.drop_last()[j]));
            }
        }
        k
    } else {
        assert(s.take(s.len() as int) =~= s);
        s.len() as int
    }
}

/// White space does not end a string.
proof fn lemma_scan_white(at: Scan, s: Seq<char>)
    requires
        in_string(at),
        forall|j: int| 0 <= j < s.len() ==> white(#[trigger] s[j]),
    ensures
        in_string(scan_from(at, s)),
    decreases s.len(),
{
    if s.len() > 0 {
        assert(white(s[0]));
        assert forall|j: int| 0 <= j < s.skip(1).len() implies white(#[trigger] s.skip(1)[j]) by {
            assert(s.skip(1)[j] == s[j + 1]);
        }
        lemma_scan_white(scan_step(at, s[0]), s.skip(1));
    }
}

/// An item that is spelled out brings no fraction into a list.
pub proof fn lemma_appends_no_fractions(
    text: Seq<char>,
    old: Seq<char>,
    item: Seq<char>,
    v: JsonView,
)
    requires
        list_text(old),
        small_fractions(old),
        item_text(item, v),
        appends(text, old, item),
    ensures
        small_fractions(text),
{
    let k = lemma_trimmed_end_cut(old);
    let inner = trimmed_end(old).drop_last();
    let m = lemma_trimmed_end_cut(inner);
    let head = list_head(old);
    let gap = inner.skip(m);
    assert(inner =~= head + gap);
    assert(old =~= head + old.skip(m));
    lemma_scan_concat(Scan::Outside, head, gap);
    lemma_scan_concat(Scan::Outside, head, old.skip(m));
    let at = scan_from(Scan::Outside, head);
    if in_string(at) {
        lemma_scan_white(at, gap);
    }
    lemma_writable_tokens(v, (max_depth() - 1) as nat);
    lemma_spells_scan(item, tokens(v));
    reveal_with_fuel(scan_from, 2);
    reveal_with_fuel(fits_from, 2);
    lemma_scan_concat(Scan::Outside, head, seq![',']);
    lemma_scan_concat(Scan::Outside, head + seq![','], item);
    lemma_scan_concat(Scan::Outside, head + seq![','] + item, seq![']']);
}

} // verus!
