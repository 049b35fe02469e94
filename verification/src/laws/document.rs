//! Laws of fractions in JSON texts.

use vstd::prelude::*;

use crate::notation::{fits_from, scan_step, small_fractions, Scan};

verus! {

/// `k` zeros.
pub open spec fn zeros(k: nat) -> Seq<char> {
    Seq::new(k, |i: int| '0')
}

proof fn lemma_zeros(count: nat, k: nat)
    ensures
        fits_from(Scan::Fraction(count, 0), zeros(k)) <==> count + k <= 32768,
    decreases k,
{
    let s = zeros(k);
    if k > 0 {
        lemma_zeros(count + 1, (k - 1) as nat);
        assert(s[0] == '0');
        assert(s.skip(1) =~= zeros((k - 1) as nat));
        assert(scan_step(Scan::Fraction(count, 0), '0') == Scan::Fraction(count + 1, 0));
    }
}

/// Of a fraction that starts with `0.`, up to 32768 zeros can be read, and no more.
pub proof fn fractions_have_a_limit(k: nat)
    ensures
        small_fractions(seq!['0', '.'] + zeros(k)) <==> k <= 32768,
{
    let s = seq!['0', '.'] + zeros(k);
    lemma_zeros(0, k);
    reveal_with_fuel(fits_from, 3);
    assert(s[0] == '0');
    assert(s.skip(1)[0] == '.');
    assert(s.skip(1).skip(1) =~= zeros(k));
}

/// A text without digits holds no fraction.
pub proof fn texts_without_digits_fit(s: Seq<char>)
    requires
        forall|i: int| 0 <= i < s.len() ==> !('0' <= (#[trigger] s[i]) && s[i] <= '9'),
    ensures
        small_fractions(s),
{
    lemma_no_digits(Scan::Outside, s);
}

proof fn lemma_no_digits(at: Scan, s: Seq<char>)
    requires
        at is Outside || at is Quoted || at is Escaped,
        forall|i: int| 0 <= i < s.len() ==> !('0' <= (#[trigger] s[i]) && s[i] <= '9'),
    ensures
        fits_from(at, s),
    decreases s.len(),
{
    if s.len() > 0 {
        let rest = s.skip(1);
        assert(!('0' <= s[0] && s[0] <= '9'));
        assert forall|i: int| 0 <= i < rest.len() implies !('0' <= (#[trigger] rest[i]) && rest[i]
            <= '9') by {
            assert(rest[i] == s[i + 1]);
        }
        lemma_no_digits(scan_step(at, s[0]), rest);
    }
}

} // verus!
