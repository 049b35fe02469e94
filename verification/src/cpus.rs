//! Lists of CPUs in text form, such as `0-3,6`.

use vstd::prelude::*;

use crate::decimal::{
    decimal, digit, unsigned, lemma_decimal, lemma_decimal_reads_back, parse_usize, to_decimal,
};
use crate::text::{
    halves, joined, pieces, slices, texts, trimmed, lemma_first_of, lemma_pieces_of_joined,
    lemma_trimmed_plain, join, split, split_once, trim,
};

verus! {

/// The numbers among `parts`, in order; what is no number is passed over.
pub open spec fn numbers(parts: Seq<Seq<char>>) -> Seq<usize>
    decreases parts.len(),
{
    if parts.len() == 0 {
        Seq::empty()
    } else {
        let rest = numbers(parts.skip(1));
        match unsigned(trimmed(parts[0]), usize::MAX as nat) {
            Some(n) => seq![n as usize] + rest,
            None => rest,
        }
    }
}

/// The numbers that stand in `s` between commas.
pub open spec fn listed_numbers(s: Seq<char>) -> Seq<usize> {
    numbers(pieces(s, ',', ','))
}

/// The number after `n`; after the largest comes zero.
pub open spec fn successor(n: usize) -> usize {
    if n == usize::MAX {
        0
    } else {
        (n + 1) as usize
    }
}

/// Nowhere in `nums` does zero follow directly on the largest number.
pub open spec fn no_wrap(nums: Seq<usize>) -> bool {
    forall|i: int, j: int|
        0 <= i < nums.len() && j == i + 1 && j < nums.len() && #[trigger] nums[i] == usize::MAX
            ==> #[trigger] nums[j] != 0
}

/// How many numbers at the start of `nums` each follow the one before.
pub open spec fn run_len(nums: Seq<usize>) -> int
    decreases nums.len(),
{
    if nums.len() >= 2 && nums[1] == successor(nums[0]) {
        1 + run_len(nums.skip(1))
    } else {
        1
    }
}

/// The text for the CPUs from `a` to `b`.
pub open spec fn range_text(a: usize, b: usize) -> Seq<char> {
    if a == b {
        decimal(a as nat)
    } else {
        decimal(a as nat) + seq!['-'] + decimal(b as nat)
    }
}

/// The texts for the runs of consecutive numbers in `nums`.
pub open spec fn range_texts(nums: Seq<usize>) -> Seq<Seq<char>>
    decreases nums.len(),
{
    proof {
        lemma_run_len(nums);
    }
    if nums.len() == 0 {
        Seq::empty()
    } else {
        let k = run_len(nums);
        seq![range_text(nums[0], nums[k - 1])] + range_texts(nums.skip(k))
    }
}

/// `s` with each run of consecutive numbers written as a range; `s` itself where it lists none.
pub open spec fn compressed(s: Seq<char>) -> Seq<char> {
    let nums = listed_numbers(s);
    if nums.len() == 0 {
        s
    } else {
        joined(range_texts(nums), seq![','])
    }
}

/// The first and the last CPU that one piece of a list names.
pub open spec fn part_range(piece: Seq<char>) -> Option<(nat, nat)> {
    let part = trimmed(piece);
    match halves(part, '-') {
        Some((x, y)) => match (
            unsigned(trimmed(x), usize::MAX as nat),
            unsigned(trimmed(y), usize::MAX as nat),
        ) {
            (Some(a), Some(b)) => Some((a, b)),
            _ => None,
        },
        None => match unsigned(part, usize::MAX as nat) {
            Some(a) => Some((a, a)),
            None => None,
        },
    }
}

/// One piece of a list names `cpu`.
pub open spec fn names_cpu(piece: Seq<char>, cpu: nat) -> bool {
    match part_range(piece) {
        Some((a, b)) => a <= cpu <= b,
        None => false,
    }
}

/// One of `parts` names `cpu`.
pub open spec fn some_names(parts: Seq<Seq<char>>, cpu: nat) -> bool {
    exists|i: int| 0 <= i < parts.len() && #[trigger] names_cpu(parts[i], cpu)
}

/// The list `c` names `cpu`.
pub open spec fn lists_cpu(c: Seq<char>, cpu: nat) -> bool {
    some_names(pieces(c, ',', ','), cpu)
}

proof fn lemma_some_names_push(parts: Seq<Seq<char>>, part: Seq<char>, cpu: nat)
    ensures
        some_names(parts.push(part), cpu) == (some_names(parts, cpu) || names_cpu(part, cpu)),
{
    let all = parts.push(part);
    if some_names(parts, cpu) {
        let i = choose|i: int| 0 <= i < parts.len() && #[trigger] names_cpu(parts[i], cpu);
        assert(names_cpu(all[i], cpu));
    }
    if names_cpu(part, cpu) {
        assert(names_cpu(all[parts.len() as int], cpu));
    }
    if some_names(all, cpu) {
        let i = choose|i: int| 0 <= i < all.len() && #[trigger] names_cpu(all[i], cpu);
        if i < parts.len() {
            assert(names_cpu(parts[i], cpu));
        }
    }
}

pub proof fn lemma_run_len(nums: Seq<usize>)
    ensures
        1 <= run_len(nums),
        nums.len() > 0 ==> run_len(nums) <= nums.len(),
    decreases nums.len(),
{
    if nums.len() >= 2 && nums[1] == successor(nums[0]) {
        lemma_run_len(nums.skip(1));
    }
}

proof fn lemma_numbers_push(parts: Seq<Seq<char>>, part: Seq<char>)
    ensures
        numbers(parts.push(part)) == match unsigned(trimmed(part), usize::MAX as nat) {
            Some(n) => numbers(parts).push(n as usize),
            None => numbers(parts),
        },
    decreases parts.len(),
{
    reveal_with_fuel(numbers, 2);
    let all = parts.push(part);
    if parts.len() == 0 {
        assert(all.skip(1) =~= parts);
        assert(numbers(all) =~= match unsigned(trimmed(part), usize::MAX as nat) {
            Some(n) => numbers(parts).push(n as usize),
            None => numbers(parts),
        });
    } else {
        lemma_numbers_push(parts.skip(1), part);
        assert(all.skip(1) =~= parts.skip(1).push(part));
        assert(all[0] == parts[0]);
        assert(numbers(all) =~= match unsigned(trimmed(part), usize::MAX as nat) {
            Some(n) => numbers(parts).push(n as usize),
            None => numbers(parts),
        });
    }
}

/// The numbers that stand in `s` between commas.
fn list_numbers(s: &str) -> (r: Vec<usize>)
    ensures
        r@ == listed_numbers(s@),
{
    let parts: Vec<&str> = split(s, ',', ',');
    let ghost all = slices(parts@);
    let mut r: Vec<usize> = Vec::new();
    let mut i: usize = 0;
    while i < parts.len()
        invariant
            i <= parts@.len(),
            all == slices(parts@),
            r@ == numbers(all.take(i as int)),
        decreases parts@.len() - i,
    {
        proof {
            lemma_numbers_push(all.take(i as int), all[i as int]);
            assert(all.take(i as int).push(all[i as int]) =~= all.take(i + 1));
        }
        if let Some(n) = parse_usize(trim(parts[i])) {
            r.push(n);
        }
        i += 1;
    }
    assert(all.take(i as int) =~= all);
    r
}

/// The text for the CPUs from `a` to `b`.
fn write_range(a: usize, b: usize) -> (r: String)
    ensures
        r@ == range_text(a, b),
{
    let mut r: String = to_decimal(a as u64);
    if a != b {
        proof {
            reveal_strlit("-");
        }
        r.append("-");
        r.append(to_decimal(b as u64).as_str());
        assert(r@ =~= range_text(a, b));
    }
    r
}

/// Writes each run of consecutive numbers in `s` as a range.
pub fn compress_cpus(s: &str) -> (r: String)
    ensures
        r@ == compressed(s@),
{
    let nums: Vec<usize> = list_numbers(s);
    if nums.len() == 0 {
        return s.to_owned();
    }
    let mut parts: Vec<String> = Vec::new();
    let n: usize = nums.len();
    let mut i: usize = 0;
    assert(nums@.skip(0) =~= nums@);
    while i < n
        invariant
            n == nums@.len(),
            i <= nums@.len(),
            range_texts(nums@) =~= texts(parts@) + range_texts(nums@.skip(i as int)),
        decreases nums@.len() - i,
    {
        let ghost rest = nums@.skip(i as int);
        let ghost before = texts(parts@);
        let first: usize = i;
        while i + 1 < n && nums[i + 1] == nums[i].wrapping_add(1)
            invariant
                n == nums@.len(),
                first <= i < nums@.len(),
                rest == nums@.skip(first as int),
                run_len(rest) == i - first + run_len(nums@.skip(i as int)),
            decreases nums@.len() - i,
        {
            proof {
                let here = nums@.skip(i as int);
                assert(here[0] == nums@[i as int]);
                assert(here[1] == nums@[i + 1]);
                assert(here.skip(1) =~= nums@.skip(i + 1));
            }
            i += 1;
        }
        proof {
            let here = nums@.skip(i as int);
            assert(here[0] == nums@[i as int]);
            assert(here.len() >= 2 ==> here[1] == nums@[i + 1]);
            assert(run_len(here) == 1);
            assert(run_len(rest) == i - first + 1);
            assert(rest[0] == nums@[first as int]);
            assert(rest[i - first] == nums@[i as int]);
            assert(rest.skip(i - first + 1) =~= nums@.skip(i + 1));
        }
        parts.push(write_range(nums[first], nums[i]));
        assert(texts(parts@) =~= before.push(range_text(nums@[first as int], nums@[i as int])));
        i += 1;
    }
    proof {
        reveal_strlit(",");
        assert(","@ =~= seq![',']);
        assert(nums@.skip(i as int) =~= Seq::<usize>::empty());
        assert(texts(parts@) =~= range_texts(nums@));
    }
    join(&parts, ",")
}

/// The first and the last CPU that one piece of a list names.
fn read_range(piece: &str) -> (r: Option<(usize, usize)>)
    ensures
        match r {
            Some((a, b)) => part_range(piece@) == Some((a as nat, b as nat)),
            None => part_range(piece@) is None,
        },
{
    let part = trim(piece);
    match split_once(part, '-') {
        Some((x, y)) => match (parse_usize(trim(x)), parse_usize(trim(y))) {
            (Some(a), Some(b)) => Some((a, b)),
            _ => None,
        },
        None => match parse_usize(part) {
            Some(a) => Some((a, a)),
            None => None,
        },
    }
}

/// Marks the CPUs that the list `c` names, among the `limit` CPUs from zero on.
///
/// The result is `None` where the list names a CPU that is not among them.
pub fn affinity_mask(c: &str, limit: usize) -> (r: Option<Vec<bool>>)
    ensures
        match r {
            Some(mask) => {
                &&& mask@.len() == limit
                &&& forall|cpu: int| 0 <= cpu < limit ==> mask@[cpu] == lists_cpu(c@, cpu as nat)
                &&& forall|cpu: nat| cpu >= limit ==> !lists_cpu(c@, cpu)
            },
            None => exists|cpu: nat| cpu >= limit && #[trigger] lists_cpu(c@, cpu),
        },
{
    let parts: Vec<&str> = split(c, ',', ',');
    let ghost all = pieces(c@, ',', ',');
    assert(all.len() == parts@.len());
    let mut mask: Vec<bool> = Vec::new();
    while mask.len() < limit
        invariant
            mask@.len() <= limit,
            forall|cpu: int| 0 <= cpu < mask@.len() ==> !mask@[cpu],
        decreases limit - mask@.len(),
    {
        mask.push(false);
    }
    let mut i: usize = 0;
    while i < parts.len()
        invariant
            i <= parts@.len(),
            all == pieces(c@, ',', ','),
            all == slices(parts@),
            mask@.len() == limit,
            forall|cpu: int|
                0 <= cpu < limit ==> mask@[cpu] == some_names(all.take(i as int), cpu as nat),
            forall|cpu: nat| cpu >= limit ==> !some_names(all.take(i as int), cpu),
        decreases parts@.len() - i,
    {
        let ghost before = mask@;
        assert(all[i as int] == parts@[i as int]@);
        if let Some((a, b)) = read_range(parts[i]) {
            if a <= b {
                if b >= limit {
                    assert(names_cpu(all[i as int], b as nat));
                    assert(lists_cpu(c@, b as nat));
                    return None;
                }
                let mut cpu: usize = a;
                while cpu <= b
                    invariant
                        a <= cpu <= b + 1,
                        b < limit,
                        mask@.len() == limit,
                        before.len() == limit,
                        forall|k: int|
                            0 <= k < limit ==> mask@[k] == (before[k] || a <= k < cpu),
                    decreases b + 1 - cpu,
                {
                    mask.set(cpu, true);
                    cpu += 1;
                }
            }
        }
        proof {
            assert forall|cpu: int| 0 <= cpu < limit implies mask@[cpu] == (before[cpu] || names_cpu(
                all[i as int],
                cpu as nat,
            )) by {}
            let next = all.take(i + 1);
            assert forall|cpu: int| 0 <= cpu < limit implies mask@[cpu] == some_names(
                next,
                cpu as nat,
            ) by {
                lemma_some_names_push(all.take(i as int), all[i as int], cpu as nat);
                assert(mask@[cpu] == (before[cpu] || names_cpu(all[i as int], cpu as nat)));
                assert(before[cpu] == some_names(all.take(i as int), cpu as nat));
                assert(all.take(i as int).push(all[i as int]) =~= next);
            }
            assert forall|cpu: nat| cpu >= limit implies !some_names(next, cpu) by {
                lemma_some_names_push(all.take(i as int), all[i as int], cpu);
                assert(all.take(i as int).push(all[i as int]) =~= next);
            }
        }
        i += 1;
    }
    assert(all.take(i as int) =~= all);
    Some(mask)
}

proof fn lemma_range_text(a: usize, b: usize)
    ensures
        part_range(range_text(a, b)) == Some((a as nat, b as nat)),
        !range_text(a, b).contains(','),
{
    let x = decimal(a as nat);
    let y = decimal(b as nat);
    let part = range_text(a, b);
    lemma_decimal(a as nat);
    lemma_decimal(b as nat);
    lemma_decimal_reads_back(a as nat, usize::MAX as nat);
    lemma_decimal_reads_back(b as nat, usize::MAX as nat);
    assert(digit(x[0]) && digit(x.last()));
    assert(digit(y[0]) && digit(y.last()));
    lemma_trimmed_plain(x);
    lemma_trimmed_plain(y);
    assert(part.last() == x.last() || part.last() == y.last());
    assert(part[0] == x[0]);
    lemma_trimmed_plain(part);
    assert forall|j: int| 0 <= j < x.len() implies x[j] != '-' && x[j] != ',' by {
        assert(digit(x[j]));
    }
    assert forall|j: int| 0 <= j < y.len() implies y[j] != '-' && y[j] != ',' by {
        assert(digit(y[j]));
    }
    lemma_first_of(part, '-', '-', x.len() as int);
    if a != b {
        assert(part.take(x.len() as int) =~= x);
        assert(part.skip(x.len() as int + 1) =~= y);
    }
}

proof fn lemma_no_wrap_skip(nums: Seq<usize>, k: int)
    requires
        no_wrap(nums),
        0 <= k <= nums.len(),
    ensures
        no_wrap(nums.skip(k)),
{
    let rest = nums.skip(k);
    assert forall|i: int, j: int|
        0 <= i < rest.len() && j == i + 1 && j < rest.len() && #[trigger] rest[i]
            == usize::MAX implies #[trigger] rest[j] != 0 by {
        assert(rest[i] == nums[i + k] && rest[j] == nums[j + k]);
    }
}

proof fn lemma_run(nums: Seq<usize>, j: int)
    requires
        no_wrap(nums),
        nums.len() > 0,
        0 <= j < run_len(nums),
    ensures
        j < nums.len(),
        nums[j] == nums[0] + j,
    decreases nums.len(),
{
    lemma_run_len(nums);
    if j > 0 {
        let rest = nums.skip(1);
        lemma_no_wrap_skip(nums, 1);
        lemma_run(rest, j - 1);
        assert(rest[j - 1] == nums[j]);
    }
}

proof fn lemma_range_texts_plain(nums: Seq<usize>)
    ensures
        nums.len() > 0 ==> range_texts(nums).len() > 0,
        forall|i: int|
            0 <= i < range_texts(nums).len() ==> !(#[trigger] range_texts(nums)[i]).contains(','),
    decreases nums.len(),
{
    if nums.len() > 0 {
        let k = run_len(nums);
        lemma_run_len(nums);
        let rest = nums.skip(k);
        lemma_range_texts_plain(rest);
        lemma_range_text(nums[0], nums[k - 1]);
        let all = range_texts(nums);
        let others = range_texts(rest);
        assert(all =~= seq![range_text(nums[0], nums[k - 1])] + others);
        assert forall|i: int| 0 <= i < all.len() implies !(#[trigger] all[i]).contains(',') by {
            if i > 0 {
                assert(all[i] == others[i - 1]);
            }
        }
    }
}

proof fn lemma_range_texts(nums: Seq<usize>, cpu: nat)
    requires
        no_wrap(nums),
    ensures
        some_names(range_texts(nums), cpu) <==> (exists|j: int| 0 <= j < nums.len() && #[trigger] nums[j] == cpu),
    decreases nums.len(),
{
    if nums.len() > 0 {
        let k = run_len(nums);
        lemma_run_len(nums);
        let rest = nums.skip(k);
        lemma_no_wrap_skip(nums, k);
        lemma_range_texts(rest, cpu);
        let a = nums[0];
        let b = nums[k - 1];
        lemma_run(nums, k - 1);
        lemma_range_text(a, b);
        let all = range_texts(nums);
        let others = range_texts(rest);
        assert(all =~= seq![range_text(a, b)] + others);
        if some_names(all, cpu) {
            let i = choose|i: int| 0 <= i < all.len() && #[trigger] names_cpu(all[i], cpu);
            if i == 0 {
                lemma_run(nums, cpu - a);
                assert(nums[cpu - a] == cpu);
            } else {
                assert(names_cpu(others[i - 1], cpu));
                let j = choose|j: int| 0 <= j < rest.len() && #[trigger] rest[j] == cpu;
                assert(nums[j + k] == cpu);
            }
        }
        if exists|j: int| 0 <= j < nums.len() && #[trigger] nums[j] == cpu {
            let j = choose|j: int| 0 <= j < nums.len() && #[trigger] nums[j] == cpu;
            if j < k {
                lemma_run(nums, j);
                assert(names_cpu(all[0], cpu));
            } else {
                assert(rest[j - k] == cpu);
                let i = choose|i: int| 0 <= i < others.len() && #[trigger] names_cpu(others[i], cpu);
                assert(names_cpu(all[i + 1], cpu));
            }
        }
    }
}

/// Compressing keeps the CPUs: the compressed text of a list names exactly the numbers that
/// stand in it, where it holds at least one number, and zero does not follow on the largest.
pub proof fn compressing_keeps_the_cpus(s: Seq<char>, cpu: nat)
    requires
        listed_numbers(s).len() > 0,
        no_wrap(listed_numbers(s)),
    ensures
        lists_cpu(compressed(s), cpu) <==> (exists|j: int|
            0 <= j < listed_numbers(s).len() && #[trigger] listed_numbers(s)[j] == cpu),
{
    let nums = listed_numbers(s);
    lemma_range_texts(nums, cpu);
    lemma_range_texts_plain(nums);
    lemma_pieces_of_joined(range_texts(nums), ',');
    assert(pieces(compressed(s), ',', ',') == range_texts(nums));
}

/// The numbers from `a` to `b`, both included.
pub open spec fn span(a: nat, b: nat) -> Seq<usize> {
    Seq::new(
        if a <= b {
            (b - a + 1) as nat
        } else {
            0
        },
        |i: int| (a + i) as usize,
    )
}

/// The CPUs that `parts` name, in order.
pub open spec fn expanded(parts: Seq<Seq<char>>) -> Seq<usize>
    decreases parts.len(),
{
    if parts.len() == 0 {
        Seq::empty()
    } else {
        let rest = expanded(parts.skip(1));
        match part_range(parts[0]) {
            Some((a, b)) => span(a, b) + rest,
            None => rest,
        }
    }
}

proof fn lemma_expanded(nums: Seq<usize>)
    requires
        no_wrap(nums),
    ensures
        expanded(range_texts(nums)) == nums,
    decreases nums.len(),
{
    let all = range_texts(nums);
    if nums.len() > 0 {
        let k = run_len(nums);
        lemma_run_len(nums);
        lemma_no_wrap_skip(nums, k);
        let rest = nums.skip(k);
        lemma_expanded(rest);
        let a = nums[0];
        let b = nums[k - 1];
        lemma_run(nums, k - 1);
        lemma_range_text(a, b);
        assert(all =~= seq![range_text(a, b)] + range_texts(rest));
        assert(all.skip(1) =~= range_texts(rest));
        assert forall|i: int| 0 <= i < k implies span(a as nat, b as nat)[i] == nums[i] by {
            lemma_run(nums, i);
        }
        assert(span(a as nat, b as nat) =~= nums.take(k));
        assert(nums =~= nums.take(k) + rest);
    } else {
        assert(expanded(all) =~= nums);
    }
}

proof fn lemma_run_ends(nums: Seq<usize>)
    requires
        run_len(nums) < nums.len(),
    ensures
        nums[run_len(nums)] != successor(nums[run_len(nums) - 1]),
    decreases nums.len(),
{
    if nums.len() >= 2 && nums[1] == successor(nums[0]) {
        let rest = nums.skip(1);
        lemma_run_len(rest);
        lemma_run_ends(rest);
        assert(rest[run_len(rest)] == nums[run_len(nums)]);
        assert(rest[run_len(rest) - 1] == nums[run_len(nums) - 1]);
    }
}

/// The part `y` starts where `x` would go on.
pub open spec fn continues(x: Seq<char>, y: Seq<char>) -> bool {
    match (part_range(x), part_range(y)) {
        (Some((_, b)), Some((c, _))) => c == successor(b as usize),
        _ => false,
    }
}

proof fn lemma_runs_are_apart(nums: Seq<usize>, i: int)
    requires
        0 <= i,
        i + 1 < range_texts(nums).len(),
    ensures
        !continues(range_texts(nums)[i], range_texts(nums)[i + 1]),
    decreases nums.len(),
{
    let k = run_len(nums);
    lemma_run_len(nums);
    let rest = nums.skip(k);
    let all = range_texts(nums);
    let others = range_texts(rest);
    assert(all =~= seq![range_text(nums[0], nums[k - 1])] + others);
    if i > 0 {
        lemma_runs_are_apart(rest, i - 1);
    } else {
        let m = run_len(rest);
        lemma_run_len(rest);
        lemma_run_ends(nums);
        lemma_range_text(nums[0], nums[k - 1]);
        lemma_range_text(rest[0], rest[m - 1]);
        assert(others[0] == range_text(rest[0], rest[m - 1]));
        assert(rest[0] == nums[k]);
    }
}

/// Expanding the parts of a compressed list in order gives the numbers of the list, where it holds
/// at least one and zero does not follow on the largest.
pub proof fn expanding_undoes_compressing(s: Seq<char>)
    requires
        listed_numbers(s).len() > 0,
        no_wrap(listed_numbers(s)),
    ensures
        expanded(pieces(compressed(s), ',', ',')) == listed_numbers(s),
{
    let nums = listed_numbers(s);
    lemma_range_texts_plain(nums);
    lemma_pieces_of_joined(range_texts(nums), ',');
    lemma_expanded(nums);
}

/// No part of a compressed list goes on where the one before it ends.
pub proof fn runs_are_not_broken(s: Seq<char>, i: int)
    requires
        listed_numbers(s).len() > 0,
        0 <= i,
        i + 1 < pieces(compressed(s), ',', ',').len(),
    ensures
        !continues(pieces(compressed(s), ',', ',')[i], pieces(compressed(s), ',', ',')[i + 1]),
{
    let nums = listed_numbers(s);
    lemma_range_texts_plain(nums);
    lemma_pieces_of_joined(range_texts(nums), ',');
    lemma_runs_are_apart(nums, i);
}

proof fn lemma_numbers_name(parts: Seq<Seq<char>>, cpu: nat)
    requires
        forall|i: int|
            0 <= i < parts.len() ==> halves(trimmed(#[trigger] parts[i]), '-') is None,
    ensures
        some_names(parts, cpu) <==> (exists|j: int| 0 <= j < numbers(parts).len() && #[trigger] numbers(parts)[j] == cpu),
    decreases parts.len(),
{
    if parts.len() > 0 {
        let rest = parts.skip(1);
        assert forall|i: int| 0 <= i < rest.len() implies halves(
            trimmed(#[trigger] rest[i]),
            '-',
        ) is None by {
            assert(rest[i] == parts[i + 1]);
        }
        lemma_numbers_name(rest, cpu);
        let nums = numbers(parts);
        let others = numbers(rest);
        let found = unsigned(trimmed(parts[0]), usize::MAX as nat);
        let shift: int = if found is Some { 1 } else { 0 };
        assert(halves(trimmed(parts[0]), '-') is None);
        assert(forall|j: int| 0 <= j < others.len() ==> others[j] == nums[j + shift]);
        if some_names(parts, cpu) {
            let i = choose|i: int| 0 <= i < parts.len() && #[trigger] names_cpu(parts[i], cpu);
            if i == 0 {
                assert(nums[0] == cpu);
            } else {
                assert(names_cpu(rest[i - 1], cpu));
                let j = choose|j: int| 0 <= j < others.len() && #[trigger] others[j] == cpu;
                assert(nums[j + shift] == cpu);
            }
        }
        if exists|j: int| 0 <= j < nums.len() && #[trigger] nums[j] == cpu {
            let j = choose|j: int| 0 <= j < nums.len() && #[trigger] nums[j] == cpu;
            if j < shift {
                assert(names_cpu(parts[0], cpu));
            } else {
                assert(others[j - shift] == cpu);
                let i = choose|i: int| 0 <= i < rest.len() && #[trigger] names_cpu(rest[i], cpu);
                assert(names_cpu(parts[i + 1], cpu));
            }
        }
    }
}

/// A list without ranges that holds at least one number, and in which zero does not follow on the
/// largest, binds a thread to the same CPUs before and after it is compressed.
pub proof fn compressing_plain_lists_changes_nothing(s: Seq<char>, cpu: nat)
    requires
        forall|i: int|
            0 <= i < pieces(s, ',', ',').len() ==> halves(
                trimmed(#[trigger] pieces(s, ',', ',')[i]),
                '-',
            ) is None,
        listed_numbers(s).len() > 0,
        no_wrap(listed_numbers(s)),
    ensures
        lists_cpu(compressed(s), cpu) <==> lists_cpu(s, cpu),
{
    compressing_keeps_the_cpus(s, cpu);
    lemma_numbers_name(pieces(s, ',', ','), cpu);
}

proof fn lemma_range_has_dash(a: usize, b: usize)
    ensures
        range_text(a, b).contains('-') <==> a != b,
        a != b ==> unsigned(trimmed(range_text(a, b)), usize::MAX as nat) is None,
        a == b ==> unsigned(trimmed(range_text(a, b)), usize::MAX as nat) == Some(a as nat),
{
    let x = decimal(a as nat);
    let y = decimal(b as nat);
    let part = range_text(a, b);
    lemma_decimal(a as nat);
    lemma_decimal(b as nat);
    lemma_decimal_reads_back(a as nat, usize::MAX as nat);
    assert(digit(x[0]) && digit(x.last()));
    assert(digit(y[0]) && digit(y.last()));
    assert(part.last() == x.last() || part.last() == y.last());
    assert(part[0] == x[0]);
    lemma_trimmed_plain(part);
    if a != b {
        let k = x.len() as int;
        assert(part[k] == '-');
        assert(!digit(part[k]));
    } else {
        assert forall|j: int| 0 <= j < x.len() implies x[j] != '-' by {
            assert(digit(x[j]));
        }
    }
}

proof fn lemma_ranges_are_no_numbers(nums: Seq<usize>)
    requires
        forall|i: int|
            0 <= i < range_texts(nums).len() ==> (#[trigger] range_texts(nums)[i]).contains('-'),
    ensures
        numbers(range_texts(nums)) == Seq::<usize>::empty(),
    decreases nums.len(),
{
    if nums.len() > 0 {
        let k = run_len(nums);
        lemma_run_len(nums);
        let rest = nums.skip(k);
        let all = range_texts(nums);
        let others = range_texts(rest);
        assert(all =~= seq![range_text(nums[0], nums[k - 1])] + others);
        assert(all.skip(1) =~= others);
        assert forall|i: int| 0 <= i < others.len() implies (#[trigger] others[i]).contains(
            '-',
        ) by {
            assert(others[i] == all[i + 1]);
        }
        lemma_ranges_are_no_numbers(rest);
        lemma_range_has_dash(nums[0], nums[k - 1]);
        assert(all[0].contains('-'));
    }
}

/// A run comes back to its first number only after all others.
proof fn lemma_run_differs(nums: Seq<usize>, j: int)
    requires
        nums.len() > 0,
        0 <= j < run_len(nums),
        j <= usize::MAX,
    ensures
        j < nums.len(),
        nums[j] == if nums[0] + j <= usize::MAX {
            nums[0] + j
        } else {
            nums[0] + j - usize::MAX - 1
        },
    decreases nums.len(),
{
    lemma_run_len(nums);
    if j > 0 {
        let rest = nums.skip(1);
        lemma_run_differs(rest, j - 1);
        assert(rest[j - 1] == nums[j]);
    }
}

proof fn lemma_singles_are_their_numbers(nums: Seq<usize>)
    requires
        nums.len() <= usize::MAX,
        forall|i: int|
            0 <= i < range_texts(nums).len() ==> !(#[trigger] range_texts(nums)[i]).contains('-'),
    ensures
        numbers(range_texts(nums)) == nums,
    decreases nums.len(),
{
    if nums.len() > 0 {
        let k = run_len(nums);
        lemma_run_len(nums);
        let rest = nums.skip(k);
        let all = range_texts(nums);
        let others = range_texts(rest);
        assert(all =~= seq![range_text(nums[0], nums[k - 1])] + others);
        assert(all.skip(1) =~= others);
        assert forall|i: int| 0 <= i < others.len() implies !(#[trigger] others[i]).contains(
            '-',
        ) by {
            assert(others[i] == all[i + 1]);
        }
        lemma_singles_are_their_numbers(rest);
        lemma_range_has_dash(nums[0], nums[k - 1]);
        lemma_run_differs(nums, k - 1);
        assert(!all[0].contains('-'));
        assert(k == 1);
        assert(numbers(all) =~= nums);
    } else {
        assert(numbers(range_texts(nums)) =~= nums);
    }
}

/// Compressing once more changes nothing, where the numbers make ranges only or no range at all.
pub proof fn compressing_again_changes_nothing(s: Seq<char>)
    requires
        listed_numbers(s).len() <= usize::MAX,
        ({
            let parts = range_texts(listed_numbers(s));
            ||| forall|i: int| 0 <= i < parts.len() ==> (#[trigger] parts[i]).contains('-')
            ||| forall|i: int| 0 <= i < parts.len() ==> !(#[trigger] parts[i]).contains('-')
        }),
    ensures
        compressed(compressed(s)) == compressed(s),
{
    let nums = listed_numbers(s);
    if nums.len() > 0 {
        lemma_range_texts_plain(nums);
        lemma_pieces_of_joined(range_texts(nums), ',');
        assert(pieces(compressed(s), ',', ',') == range_texts(nums));
        if forall|i: int|
            0 <= i < range_texts(nums).len() ==> (#[trigger] range_texts(nums)[i]).contains('-') {
            lemma_ranges_are_no_numbers(nums);
        } else {
            lemma_singles_are_their_numbers(nums);
        }
    }
}

} // verus!
