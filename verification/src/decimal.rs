//! Decimal numerals: how numbers are read from text and written to it.

use vstd::prelude::*;

use crate::text::chars_of;

verus! {

/// The largest `u32`, as a `u64`.
pub const U32_MAX: u64 = 0xFFFF_FFFF;

/// `c` is one of the ten decimal digits.
pub open spec fn digit(c: char) -> bool {
    48 <= c as u32 <= 57
}

/// Every character of `s` is a digit.
pub open spec fn all_digits(s: Seq<char>) -> bool {
    forall|i: int| 0 <= i < s.len() ==> digit(#[trigger] s[i])
}

/// The number that the digits `s` stand for.
pub open spec fn value(s: Seq<char>) -> nat
    decreases s.len(),
{
    if s.len() == 0 {
        0
    } else {
        (10 * value(s.drop_last()) + (s.last() as u32 - 48)) as nat
    }
}

/// The number that `s` stands for: one digit or more.
pub open spec fn numeral(s: Seq<char>) -> Option<nat> {
    if s.len() > 0 && all_digits(s) {
        Some(value(s))
    } else {
        None
    }
}

/// The number up to `max` that `s` stands for: digits, behind a `+` or not.
pub open spec fn unsigned(s: Seq<char>, max: nat) -> Option<nat> {
    let n = if s.len() > 0 && s[0] == '+' {
        numeral(s.skip(1))
    } else {
        numeral(s)
    };
    match n {
        Some(v) => if v <= max {
            Some(v)
        } else {
            None
        },
        None => None,
    }
}

/// The `i32` that `s` stands for: digits, behind a `+` or a `-` or not.
pub open spec fn signed(s: Seq<char>) -> Option<int> {
    if s.len() > 0 && s[0] == '-' {
        match numeral(s.skip(1)) {
            Some(v) => if -v >= i32::MIN {
                Some(-v)
            } else {
                None
            },
            None => None,
        }
    } else {
        match unsigned(s, i32::MAX as nat) {
            Some(v) => Some(v as int),
            None => None,
        }
    }
}

/// The digit that stands for `d`.
pub open spec fn digit_of(d: nat) -> char {
    (48 + d) as char
}

/// The digits of `n`, without leading zeros.
pub open spec fn decimal(n: nat) -> Seq<char>
    decreases n,
{
    if n < 10 {
        seq![digit_of(n)]
    } else {
        decimal(n / 10).push(digit_of(n % 10))
    }
}

/// The decimal numeral of `n`, with a `-` in front where `n` is negative.
pub open spec fn decimal_int(n: int) -> Seq<char> {
    if n < 0 {
        seq!['-'] + decimal((-n) as nat)
    } else {
        decimal(n as nat)
    }
}

/// A prefix of a run of digits stands for no more than the whole run.
pub proof fn lemma_value_prefix(s: Seq<char>, k: int)
    requires
        0 <= k <= s.len(),
        all_digits(s),
    ensures
        value(s.take(k)) <= value(s),
    decreases s.len(),
{
    if k == s.len() {
        assert(s.take(k) =~= s);
    } else {
        let t = s.drop_last();
        assert forall|i: int| 0 <= i < t.len() implies digit(#[trigger] t[i]) by {
            assert(digit(s[i]));
        }
        lemma_value_prefix(t, k);
        assert(t.take(k) =~= s.take(k));
        assert(digit(s[s.len() - 1]));
    }
}

/// The numeral that is written for a number stands for that number.
pub proof fn lemma_decimal(n: nat)
    ensures
        decimal(n).len() > 0,
        all_digits(decimal(n)),
        value(decimal(n)) == n,
        numeral(decimal(n)) == Some(n),
    decreases n,
{
    if n < 10 {
        let d = decimal(n);
        assert(d =~= seq![digit_of(n)]);
        assert(d.drop_last() =~= Seq::<char>::empty());
        assert(value(d.drop_last()) == 0);
    } else {
        lemma_decimal(n / 10);
        let d = decimal(n);
        assert(d.drop_last() =~= decimal(n / 10));
        assert forall|i: int| 0 <= i < d.len() implies digit(#[trigger] d[i]) by {
            if i < d.len() - 1 {
                assert(d[i] == decimal(n / 10)[i]);
                assert(digit(decimal(n / 10)[i]));
            }
        }
    }
}

/// What is written for a number reads back as that number, within any bound that holds it.
pub proof fn lemma_decimal_reads_back(n: nat, max: nat)
    requires
        n <= max,
    ensures
        unsigned(decimal(n), max) == Some(n),
{
    lemma_decimal(n);
    assert(digit(decimal(n)[0]));
}

/// What is written for an `i32` reads back as that number.
pub proof fn written_integers_read_back(n: i32)
    ensures
        signed(decimal_int(n as int)) == Some(n as int),
{
    if n < 0 {
        lemma_decimal((-n) as nat);
        assert(decimal_int(n as int).skip(1) =~= decimal((-n) as nat));
    } else {
        lemma_decimal_reads_back(n as nat, i32::MAX as nat);
        assert(digit(decimal(n as nat)[0])) by {
            lemma_decimal(n as nat);
        }
    }
}

/// The number up to `max` that the characters from `from` on stand for.
fn digits_from(sc: &Vec<char>, from: usize, max: u64) -> (r: Option<u64>)
    requires
        from <= sc@.len(),
    ensures
        match r {
            Some(v) => numeral(sc@.skip(from as int)) == Some(v as nat) && v <= max,
            None => match numeral(sc@.skip(from as int)) {
                Some(v) => v > max,
                None => true,
            },
        },
{
    let ghost whole = sc@.skip(from as int);
    if from == sc.len() {
        return None;
    }
    let mut v: u64 = 0;
    let mut i: usize = from;
    assert(whole.take(0) =~= Seq::<char>::empty());
    while i < sc.len()
        invariant
            from <= i <= sc@.len(),
            from < sc@.len(),
            whole == sc@.skip(from as int),
            forall|j: int| 0 <= j < i - from ==> digit(#[trigger] whole[j]),
            v == value(whole.take(i - from)),
            v <= max,
        decreases sc@.len() - i,
    {
        let c: u32 = sc[i] as u32;
        if c < 48 || c > 57 {
            assert(!digit(whole[i - from]));
            return None;
        }
        let d: u64 = (c - 48) as u64;
        let ghost next = whole.take(i - from + 1);
        proof {
            assert(next.drop_last() =~= whole.take(i - from));
            assert(next.last() == sc@[i as int]);
            assert(value(next) == 10 * v + d);
            assert(digit(whole[i - from]));
        }
        if d > max || v > (max - d) / 10 {
            proof {
                if all_digits(whole) {
                    lemma_value_prefix(whole, i - from + 1);
                }
            }
            return None;
        }
        v = v * 10 + d;
        i += 1;
    }
    assert(whole.take(i - from) =~= whole);
    Some(v)
}

/// Reads an unsigned number up to `max`.
pub fn parse_unsigned(s: &str, max: u64) -> (r: Option<u64>)
    ensures
        match r {
            Some(v) => unsigned(s@, max as nat) == Some(v as nat),
            None => unsigned(s@, max as nat) is None,
        },
{
    let sc: Vec<char> = chars_of(s);
    assert(sc@.skip(0) =~= sc@);
    if sc.len() > 0 && sc[0] == '+' {
        digits_from(&sc, 1, max)
    } else {
        digits_from(&sc, 0, max)
    }
}

/// Reads a `usize`.
pub fn parse_usize(s: &str) -> (r: Option<usize>)
    ensures
        match r {
            Some(v) => unsigned(s@, usize::MAX as nat) == Some(v as nat),
            None => unsigned(s@, usize::MAX as nat) is None,
        },
{
    match parse_unsigned(s, usize::MAX as u64) {
        Some(v) => Some(v as usize),
        None => None,
    }
}

/// Reads a `u64`.
pub fn parse_u64(s: &str) -> (r: Option<u64>)
    ensures
        match r {
            Some(v) => unsigned(s@, u64::MAX as nat) == Some(v as nat),
            None => unsigned(s@, u64::MAX as nat) is None,
        },
{
    parse_unsigned(s, u64::MAX)
}

/// Reads a `u32`.
pub fn parse_u32(s: &str) -> (r: Option<u32>)
    ensures
        match r {
            Some(v) => unsigned(s@, u32::MAX as nat) == Some(v as nat),
            None => unsigned(s@, u32::MAX as nat) is None,
        },
{
    match parse_unsigned(s, U32_MAX) {
        Some(v) => Some(v as u32),
        None => None,
    }
}

/// Reads an `i32`.
pub fn parse_i32(s: &str) -> (r: Option<i32>)
    ensures
        match r {
            Some(v) => signed(s@) == Some(v as int),
            None => signed(s@) is None,
        },
{
    let sc: Vec<char> = chars_of(s);
    if sc.len() > 0 && sc[0] == '-' {
        match digits_from(&sc, 1, 0x8000_0000) {
            Some(v) => Some((0 - v as i64) as i32),
            None => None,
        }
    } else {
        match parse_unsigned(s, 0x7FFF_FFFF) {
            Some(v) => Some(v as i32),
            None => None,
        }
    }
}

/// The digit that stands for `d`, as a text.
fn digit_text(d: u64) -> (r: &'static str)
    requires
        d < 10,
    ensures
        r@ == seq![digit_of(d as nat)],
{
    proof {
        reveal_strlit("0123456789");
    }
    "0123456789".substring_char(d as usize, d as usize + 1)
}

/// Writes `n` in decimal.
pub fn to_decimal(n: u64) -> (r: String)
    ensures
        r@ == decimal(n as nat),
    decreases n,
{
    if n < 10 {
        digit_text(n).to_owned()
    } else {
        let mut r: String = to_decimal(n / 10);
        r.append(digit_text(n % 10));
        assert(r@ =~= decimal(n as nat));
        r
    }
}

/// Writes an `i32` in decimal.
pub fn to_decimal_int(n: i32) -> (r: String)
    ensures
        r@ == decimal_int(n as int),
{
    if n < 0 {
        proof {
            reveal_strlit("-");
        }
        let mut r: String = "-".to_owned();
        r.append(to_decimal((0 - n as i64) as u64).as_str());
        assert(r@ =~= decimal_int(n as int));
        r
    } else {
        to_decimal(n as u64)
    }
}

} // verus!
