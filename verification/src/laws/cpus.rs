//! Laws of CPU lists.

use vstd::prelude::*;

use crate::cpus::{
    compressed, listed_numbers, lists_cpu, names_cpu, numbers, range_text, range_texts, run_len,
    some_names, span, successor, lemma_run_len,
};
use crate::decimal::{decimal, unsigned, lemma_decimal_reads_back};
use crate::text::{pieces, trimmed, white};

use super::decimal::digits_are_plain;
use super::text::{
    all_white, joining_goes_part_by_part, separators_cut, separators_cut_everywhere,
    texts_are_halved_once, tight, trimming_keeps_what_is_inside,
};

verus! {

proof fn lemma_no_comma_white(a: Seq<char>)
    requires
        all_white(a),
    ensures
        !a.contains(','),
        !a.contains('-'),
{
    assert forall|i: int| 0 <= i < a.len() implies a[i] != ',' && a[i] != '-' by {
        assert(white(a[i]));
    }
}

proof fn lemma_no_char(a: Seq<char>, b: Seq<char>, c: char)
    requires
        !a.contains(c),
        !b.contains(c),
    ensures
        !(a + b).contains(c),
{
    assert forall|i: int| 0 <= i < (a + b).len() implies (a + b)[i] != c by {
        if i < a.len() {
            assert(a[i] != c);
        } else {
            assert(b[i - a.len()] != c);
        }
    }
}

proof fn lemma_numbers_concat(a: Seq<Seq<char>>, b: Seq<Seq<char>>)
    ensures
        numbers(a + b) == numbers(a) + numbers(b),
    decreases a.len(),
{
    if a.len() == 0 {
        assert(a + b =~= b);
        assert(numbers(a + b) =~= numbers(a) + numbers(b));
    } else {
        lemma_numbers_concat(a.skip(1), b);
        assert((a + b).skip(1) =~= a.skip(1) + b);
        assert(numbers(a + b) =~= numbers(a) + numbers(b));
    }
}

/// The numbers of a list are those before a comma and those behind it.
pub proof fn numbers_stand_between_commas(x: Seq<char>, y: Seq<char>)
    ensures
        listed_numbers(x + seq![','] + y) == listed_numbers(x) + listed_numbers(y),
{
    separators_cut_everywhere(x, ',', y, ',', ',');
    lemma_numbers_concat(pieces(x, ',', ','), pieces(y, ',', ','));
}

/// A number between white space is listed, and a text without commas that is no number is not.
pub proof fn single_numbers_are_listed(a: Seq<char>, n: usize, b: Seq<char>, x: Seq<char>)
    requires
        all_white(a),
        all_white(b),
        !x.contains(','),
        unsigned(trimmed(x), usize::MAX as nat) is None,
    ensures
        listed_numbers(a + decimal(n as nat) + b) == seq![n],
        listed_numbers(x) == Seq::<usize>::empty(),
{
    let d = decimal(n as nat);
    let s = a + d + b;
    lemma_padded(a, n as nat, b);
    separators_cut(s, ',', Seq::empty(), ',', ',');
    lemma_decimal_reads_back(n as nat, usize::MAX as nat);
    reveal_with_fuel(numbers, 2);
    assert(seq![s].skip(1) =~= Seq::<Seq<char>>::empty());
    assert(listed_numbers(s) =~= seq![n]);
    separators_cut(x, ',', Seq::empty(), ',', ',');
    assert(seq![x].skip(1) =~= Seq::<Seq<char>>::empty());
}

proof fn lemma_padded(a: Seq<char>, n: nat, b: Seq<char>)
    requires
        all_white(a),
        all_white(b),
    ensures
        trimmed(a + decimal(n) + b) == decimal(n),
        !(a + decimal(n) + b).contains(','),
        !(a + decimal(n) + b).contains('-'),
        tight(decimal(n)),
{
    digits_are_plain(n, ',');
    digits_are_plain(n, '-');
    lemma_no_comma_white(a);
    lemma_no_comma_white(b);
    lemma_no_char(a, decimal(n), ',');
    lemma_no_char(a + decimal(n), b, ',');
    lemma_no_char(a, decimal(n), '-');
    lemma_no_char(a + decimal(n), b, '-');
    trimming_keeps_what_is_inside(a, decimal(n), b);
}

/// A list names a CPU where it is named before a comma or behind it.
pub proof fn cpus_stand_between_commas(x: Seq<char>, y: Seq<char>, cpu: nat)
    ensures
        lists_cpu(x + seq![','] + y, cpu) <==> lists_cpu(x, cpu) || lists_cpu(y, cpu),
{
    separators_cut_everywhere(x, ',', y, ',', ',');
    let p = pieces(x, ',', ',');
    let q = pieces(y, ',', ',');
    let all = p + q;
    if some_names(p, cpu) {
        let i = choose|i: int| 0 <= i < p.len() && #[trigger] names_cpu(p[i], cpu);
        assert(names_cpu(all[i], cpu));
    }
    if some_names(q, cpu) {
        let i = choose|i: int| 0 <= i < q.len() && #[trigger] names_cpu(q[i], cpu);
        assert(names_cpu(all[p.len() + i], cpu));
    }
    if some_names(all, cpu) {
        let i = choose|i: int| 0 <= i < all.len() && #[trigger] names_cpu(all[i], cpu);
        if i < p.len() {
            assert(names_cpu(p[i], cpu));
        } else {
            assert(names_cpu(q[i - p.len()], cpu));
        }
    }
}

proof fn lemma_one_part(x: Seq<char>, cpu: nat)
    requires
        !x.contains(','),
    ensures
        lists_cpu(x, cpu) <==> names_cpu(x, cpu),
{
    separators_cut(x, ',', Seq::empty(), ',', ',');
    let parts = seq![x];
    if names_cpu(x, cpu) {
        assert(names_cpu(parts[0], cpu));
    }
}

/// A number between white space names that CPU and no other.
pub proof fn numbers_name_themselves(a: Seq<char>, n: usize, b: Seq<char>, cpu: nat)
    requires
        all_white(a),
        all_white(b),
    ensures
        lists_cpu(a + decimal(n as nat) + b, cpu) <==> cpu == n,
{
    lemma_padded(a, n as nat, b);
    lemma_one_part(a + decimal(n as nat) + b, cpu);
    digits_are_plain(n as nat, '-');
    texts_are_halved_once(decimal(n as nat), '-', Seq::empty());
    lemma_decimal_reads_back(n as nat, usize::MAX as nat);
}

/// Two numbers with a dash between them name the CPUs from the one to the other, both included,
/// however much white space stands around each.
pub proof fn ranges_name_all_between(
    a: Seq<char>,
    m: usize,
    b: Seq<char>,
    c: Seq<char>,
    n: usize,
    d: Seq<char>,
    cpu: nat,
)
    requires
        all_white(a),
        all_white(b),
        all_white(c),
        all_white(d),
    ensures
        lists_cpu(
            a + decimal(m as nat) + b + seq!['-'] + c + decimal(n as nat) + d,
            cpu,
        ) <==> m <= cpu <= n,
{
    let dm = decimal(m as nat);
    let dn = decimal(n as nat);
    let empty = Seq::<char>::empty();
    let inner = dm + b + seq!['-'] + c + dn;
    let s = a + dm + b + seq!['-'] + c + dn + d;
    lemma_padded(a, m as nat, b);
    lemma_padded(c, n as nat, d);
    lemma_padded(empty, m as nat, b);
    lemma_padded(c, n as nat, empty);
    assert(s =~= (a + dm + b) + seq!['-'] + (c + dn + d));
    lemma_no_char(a + dm + b, seq!['-'], ',');
    lemma_no_char(a + dm + b + seq!['-'], c + dn + d, ',');
    lemma_one_part(s, cpu);
    assert(s =~= a + inner + d);
    assert(inner[0] == dm[0]);
    assert(inner.last() == dn.last());
    trimming_keeps_what_is_inside(a, inner, d);
    let x = empty + dm + b;
    let y = c + dn + empty;
    assert(inner =~= x + seq!['-'] + y);
    texts_are_halved_once(x, '-', y);
    lemma_decimal_reads_back(m as nat, usize::MAX as nat);
    lemma_decimal_reads_back(n as nat, usize::MAX as nat);
}

/// What is neither a number nor two numbers with a dash between them names no CPU.
pub proof fn other_parts_name_nothing(x: Seq<char>, y: Seq<char>, cpu: nat)
    requires
        !x.contains(','),
        !y.contains(','),
        !trimmed(x).contains('-'),
        tight(x + seq!['-'] + y),
        unsigned(trimmed(x), usize::MAX as nat) is None,
    ensures
        !lists_cpu(x, cpu),
        !x.contains('-') ==> !lists_cpu(x + seq!['-'] + y, cpu),
{
    lemma_one_part(x, cpu);
    texts_are_halved_once(trimmed(x), '-', Seq::empty());
    if !x.contains('-') {
        let s = x + seq!['-'] + y;
        lemma_no_char(x, seq!['-'], ',');
        lemma_no_char(x + seq!['-'], y, ',');
        lemma_one_part(s, cpu);
        let empty = Seq::<char>::empty();
        trimming_keeps_what_is_inside(empty, s, empty);
        assert(empty + s + empty =~= s);
        texts_are_halved_once(x, '-', y);
    }
}

/// A range whose end is no number names no CPU, not even its start.
pub proof fn open_ranges_name_nothing(
    a: Seq<char>,
    m: usize,
    b: Seq<char>,
    y: Seq<char>,
    cpu: nat,
)
    requires
        all_white(a),
        all_white(b),
        !y.contains(','),
        y.len() > 0 ==> !white(y.last()),
        unsigned(trimmed(y), usize::MAX as nat) is None,
    ensures
        !lists_cpu(a + decimal(m as nat) + b + seq!['-'] + y, cpu),
{
    let dm = decimal(m as nat);
    let empty = Seq::<char>::empty();
    let inner = dm + b + seq!['-'] + y;
    let s = a + dm + b + seq!['-'] + y;
    lemma_padded(a, m as nat, b);
    lemma_padded(empty, m as nat, b);
    lemma_no_char(a + dm + b, seq!['-'], ',');
    lemma_no_char(a + dm + b + seq!['-'], y, ',');
    lemma_one_part(s, cpu);
    assert(s =~= a + inner + empty);
    assert(inner[0] == dm[0]);
    assert(inner.last() == if y.len() > 0 {
        y.last()
    } else {
        '-'
    });
    trimming_keeps_what_is_inside(a, inner, empty);
    let x = empty + dm + b;
    assert(inner =~= x + seq!['-'] + y);
    texts_are_halved_once(x, '-', y);
}

/// A text that lists no number stays as it is.
pub proof fn texts_without_numbers_stay(s: Seq<char>)
    requires
        listed_numbers(s).len() == 0,
    ensures
        compressed(s) == s,
{
}

proof fn lemma_span_run(a: nat, b: nat)
    requires
        a <= b <= usize::MAX,
    ensures
        run_len(span(a, b)) == b - a + 1,
    decreases b - a,
{
    let s = span(a, b);
    assert(s[0] == a);
    if a < b {
        lemma_span_run(a + 1, b);
        assert(s.skip(1) =~= span(a + 1, b));
        assert(s[1] == a + 1);
    }
}

/// Numbers that follow each other are written as the first and the last with a dash between them,
/// and a single number as it is.
pub proof fn runs_are_written_with_a_dash(s: Seq<char>, a: usize, b: usize)
    requires
        a <= b,
        listed_numbers(s) == span(a as nat, b as nat),
    ensures
        a < b ==> compressed(s) == decimal(a as nat) + seq!['-'] + decimal(b as nat),
        a == b ==> compressed(s) == decimal(a as nat),
{
    let nums = span(a as nat, b as nat);
    lemma_span_run(a as nat, b as nat);
    let k = run_len(nums);
    reveal_with_fuel(range_texts, 2);
    assert(nums.skip(k) =~= Seq::<usize>::empty());
    assert(nums[k - 1] == b);
    assert(range_texts(nums) =~= seq![range_text(a, b)]);
}

proof fn lemma_run_len_concat(a: Seq<usize>, b: Seq<usize>)
    requires
        a.len() > 0,
        b.len() > 0,
        b[0] != successor(a.last()),
    ensures
        run_len(a + b) == run_len(a),
    decreases a.len(),
{
    let all = a + b;
    if a.len() == 1 {
        assert(all[1] == b[0]);
    } else {
        assert(all[0] == a[0] && all[1] == a[1]);
        if a[1] == successor(a[0]) {
            lemma_run_len_concat(a.skip(1), b);
            assert(all.skip(1) =~= a.skip(1) + b);
        }
    }
}

proof fn lemma_range_texts_concat(a: Seq<usize>, b: Seq<usize>)
    requires
        a.len() > 0 && b.len() > 0 ==> b[0] != successor(a.last()),
    ensures
        range_texts(a + b) == range_texts(a) + range_texts(b),
    decreases a.len(),
{
    if a.len() == 0 {
        assert(a + b =~= b);
        assert(range_texts(a + b) =~= range_texts(a) + range_texts(b));
    } else if b.len() == 0 {
        assert(a + b =~= a);
        assert(range_texts(a + b) =~= range_texts(a) + range_texts(b));
    } else {
        lemma_run_len_concat(a, b);
        lemma_run_len(a);
        let k = run_len(a);
        let rest = a.skip(k);
        assert(rest.len() > 0 ==> rest.last() == a.last());
        lemma_range_texts_concat(rest, b);
        assert((a + b).skip(k) =~= rest + b);
        assert((a + b)[0] == a[0] && (a + b)[k - 1] == a[k - 1]);
        assert(range_texts(a + b) =~= range_texts(a) + range_texts(b));
    }
}

proof fn lemma_range_texts_some(nums: Seq<usize>)
    requires
        nums.len() > 0,
    ensures
        range_texts(nums).len() > 0,
{
}

/// Two lists that hold numbers are compressed each on its own, where the second does not go on with
/// the number after the last of the first.
pub proof fn lists_are_compressed_part_by_part(x: Seq<char>, y: Seq<char>)
    requires
        listed_numbers(x).len() > 0,
        listed_numbers(y).len() > 0,
        listed_numbers(y)[0] != listed_numbers(x).last() + 1,
        listed_numbers(x).last() < usize::MAX,
    ensures
        compressed(x + seq![','] + y) == compressed(x) + seq![','] + compressed(y),
{
    let a = listed_numbers(x);
    let b = listed_numbers(y);
    numbers_stand_between_commas(x, y);
    lemma_range_texts_concat(a, b);
    lemma_range_texts_some(a);
    lemma_range_texts_some(b);
    joining_goes_part_by_part(range_texts(a), range_texts(b), Seq::empty(), seq![',']);
}

} // verus!
