//! Laws of numerals.

use vstd::prelude::*;

use crate::decimal::{
    all_digits, decimal, decimal_int, digit, numeral, signed, unsigned, value, lemma_decimal,
};

verus! {

/// The character for the digit `d`.
pub open spec fn sign_of(d: nat) -> char {
    (0x30 + d) as char
}

/// One more digit makes ten times the number, and that digit: where the result is not above the
/// limit, it is read, and else nothing is.
pub proof fn one_more_digit(s: Seq<char>, d: nat, low: nat, max: nat)
    requires
        unsigned(s, low) is Some,
        d < 10,
    ensures
        unsigned(s.push(sign_of(d)), max) == if 10 * unsigned(s, low).unwrap() + d <= max {
            Some((10 * unsigned(s, low).unwrap() + d) as nat)
        } else {
            None
        },
{
    let t = s.push(sign_of(d));
    if s[0] == '+' {
        let u = s.skip(1);
        lemma_numeral_push(u, d);
        assert(t.skip(1) =~= u.push(sign_of(d)));
    } else {
        lemma_numeral_push(s, d);
    }
}

proof fn lemma_numeral_push(s: Seq<char>, d: nat)
    requires
        numeral(s) is Some,
        d < 10,
    ensures
        numeral(s.push(sign_of(d))) == Some((10 * numeral(s).unwrap() + d) as nat),
{
    let t = s.push(sign_of(d));
    assert(all_digits(t)) by {
        assert forall|i: int| 0 <= i < t.len() implies digit(#[trigger] t[i]) by {
            if i < s.len() {
                assert(digit(s[i]));
            }
        }
    }
    assert(t.drop_last() =~= s);
}

/// One digit stands for itself, with a plus sign or without.
pub proof fn single_digits(d: nat, max: nat)
    requires
        d < 10,
        d <= max,
    ensures
        unsigned(seq![sign_of(d)], max) == Some(d),
        unsigned(seq!['+', sign_of(d)], max) == Some(d),
{
    let s = seq![sign_of(d)];
    reveal_with_fuel(value, 2);
    assert(s.drop_last() =~= Seq::<char>::empty());
    assert(seq!['+', sign_of(d)].skip(1) =~= s);
    assert(all_digits(s));
}

/// What holds another character than digits, a plus sign in front aside, or no digit, is no number.
pub proof fn other_texts_are_no_numbers(s: Seq<char>, i: int, max: nat)
    requires
        s.len() == 0 || s =~= seq!['+'] || (0 <= i < s.len() && !('0' <= s[i] && s[i] <= '9') && !(i
            == 0 && s[i] == '+')),
    ensures
        unsigned(s, max) is None,
{
    if s.len() == 0 {
    } else if s =~= seq!['+'] {
        assert(s.skip(1).len() == 0);
    } else if s[0] == '+' {
        lemma_no_digit(s[i]);
        assert(s.skip(1)[i - 1] == s[i]);
        assert(!digit(s.skip(1)[i - 1]));
    } else {
        lemma_no_digit(s[i]);
    }
}

proof fn lemma_no_digit(c: char)
    requires
        !('0' <= c && c <= '9'),
    ensures
        !digit(c),
{
}

/// A number behind a minus sign is negative; one without is read as it stands.
pub proof fn signs(s: Seq<char>)
    ensures
        s.len() > 0 && s[0] != '+' ==> signed(seq!['-'] + s) == match unsigned(s, 0x8000_0000) {
            Some(n) => Some(-n),
            None => None,
        },
        s.len() == 0 || s[0] != '-' ==> signed(s) == match unsigned(s, 0x7FFF_FFFF) {
            Some(n) => Some(n as int),
            None => None,
        },
        s.len() == 0 || s[0] == '+' ==> signed(seq!['-'] + s) is None,
{
    assert((seq!['-'] + s).skip(1) =~= s);
    if s.len() > 0 && s[0] == '+' {
        assert(!digit(s[0]));
    }
}

/// The digits of a number are those of its tenth part, and its last digit.
pub proof fn digits_of_numbers(n: nat, d: nat)
    requires
        d < 10,
    ensures
        decimal(d) == seq![sign_of(d)],
        n > 0 ==> decimal(10 * n + d) == decimal(n).push(sign_of(d)),
{
    if n > 0 {
        let m = 10 * n + d;
        assert(m / 10 == n) by (nonlinear_arith)
            requires
                m == 10 * n + d,
                d < 10,
        ;
        assert(m % 10 == d) by (nonlinear_arith)
            requires
                m == 10 * n + d,
                d < 10,
        ;
    }
}

/// A negative number is written behind a minus sign.
pub proof fn digits_of_negative_numbers(n: nat)
    ensures
        decimal_int(n as int) == decimal(n),
        n > 0 ==> decimal_int(-n) == seq!['-'] + decimal(n),
{
}

/// The digits of a number have no white space, comma, space or dash among them.
pub proof fn digits_are_plain(n: nat, c: char)
    requires
        !('0' <= c <= '9'),
    ensures
        decimal(n).len() > 0,
        !decimal(n).contains(c),
        !crate::text::white(decimal(n)[0]),
        !crate::text::white(decimal(n).last()),
        forall|i: int| 0 <= i < decimal(n).len() ==> !crate::text::white(#[trigger] decimal(n)[i]),
{
    lemma_decimal(n);
    let s = decimal(n);
    assert forall|i: int| 0 <= i < s.len() implies !crate::text::white(#[trigger] s[i]) && s[i] != c by {
        assert(digit(s[i]));
    }
}

} // verus!
