//! Laws of CPU clusters.

use vstd::prelude::*;

use crate::clusters::{
    cpu_list, decimals, extremes_are_chosen, fastest_first, frequency, grouped,
    grouping_is_by_frequency, machine_clusters, of_frequency, part_cpus, parts_cpus, policy_cluster,
    policy_clusters, related, runs_at, sizes, sorting_is_stable, topology, with_cpu, ClusterView,
    PolicyView,
};
use crate::cpus::{expanded, expanding_undoes_compressing, listed_numbers, no_wrap, span};
use crate::decimal::{decimal, unsigned, lemma_decimal_reads_back};
use crate::text::{joined, pieces, trimmed, white, lemma_joined_push};

use super::cpus::{
    numbers_stand_between_commas, runs_are_written_with_a_dash, single_numbers_are_listed,
};
use super::decimal::{digits_are_plain, other_texts_are_no_numbers};
use super::text::{
    all_white, cutting_undoes_joining, texts_are_halved_once, tight, trimming_keeps_what_is_inside,
};

verus! {

/// A frequency is the number that a file holds, white space around it aside.
pub proof fn frequencies_are_read(a: Seq<char>, f: u64, b: Seq<char>)
    requires
        all_white(a),
        all_white(b),
    ensures
        frequency(a + decimal(f as nat) + b) == Some(f as nat),
        forall|x: Seq<char>|
            unsigned(trimmed(x), u64::MAX as nat) is None ==> #[trigger] frequency(x) is None,
{
    digits_are_plain(f as nat, ' ');
    trimming_keeps_what_is_inside(a, decimal(f as nat), b);
    lemma_decimal_reads_back(f as nat, u64::MAX as nat);
}

/// The cluster of a policy has the number in its frequency file as its frequency, and the CPUs of
/// its list, whatever follows `policy` in its name.
pub proof fn policies_are_read(
    suffix: Seq<char>,
    list: Seq<char>,
    a: Seq<char>,
    f: u64,
    b: Seq<char>,
)
    requires
        all_white(a),
        all_white(b),
        related(list).len() > 0,
    ensures
        policy_cluster(
            (PolicyView {
                name: "policy"@ + suffix,
                related_cpus: Some(list),
                max_freq: Some(a + decimal(f as nat) + b),
            }),
        ) == Some((f, related(list))),
{
    frequencies_are_read(a, f, b);
    assert(("policy"@ + suffix).subrange(0, "policy"@.len() as int) =~= "policy"@);
    assert("policy"@.is_prefix_of("policy"@ + suffix));
}

/// What has another name, lacks one of the two files, names no CPU or has no number as its
/// frequency is no cluster.
pub proof fn broken_policies_are_passed_over(p: PolicyView)
    requires
        !"policy"@.is_prefix_of(p.name) || p.related_cpus is None || p.max_freq is None || related(
            p.related_cpus.unwrap(),
        ).len() == 0 || unsigned(trimmed(p.max_freq.unwrap()), u64::MAX as nat) is None,
    ensures
        policy_cluster(p) is None,
{
}

/// The policies are read one by one, in order.
pub proof fn policies_are_read_one_by_one(a: Seq<PolicyView>, b: Seq<PolicyView>, p: PolicyView)
    ensures
        policy_clusters(a + b) == policy_clusters(a) + policy_clusters(b),
        policy_clusters(seq![p]) == match policy_cluster(p) {
            Some(c) => seq![c],
            None => Seq::<ClusterView>::empty(),
        },
        policy_clusters(Seq::empty()) == Seq::<ClusterView>::empty(),
    decreases b.len(),
{
    reveal_with_fuel(policy_clusters, 2);
    assert(seq![p].drop_last() =~= Seq::<PolicyView>::empty());
    assert(policy_clusters(seq![p]) =~= match policy_cluster(p) {
        Some(c) => seq![c],
        None => Seq::<ClusterView>::empty(),
    });
    if b.len() == 0 {
        assert(a + b =~= a);
        assert(policy_clusters(a + b) =~= policy_clusters(a) + policy_clusters(b));
    } else {
        policies_are_read_one_by_one(a, b.drop_last(), p);
        assert((a + b).drop_last() =~= a + b.drop_last());
        assert(policy_clusters(a + b) =~= policy_clusters(a) + policy_clusters(b));
    }
}

proof fn lemma_parts_concat(a: Seq<Seq<char>>, b: Seq<Seq<char>>)
    ensures
        parts_cpus(a + b) == parts_cpus(a) + parts_cpus(b),
    decreases b.len(),
{
    if b.len() == 0 {
        assert(a + b =~= a);
        assert(parts_cpus(a + b) =~= parts_cpus(a) + parts_cpus(b));
    } else {
        lemma_parts_concat(a, b.drop_last());
        assert((a + b).drop_last() =~= a + b.drop_last());
        assert(parts_cpus(a + b) =~= parts_cpus(a) + parts_cpus(b));
    }
}

/// One part of a related-CPU list: a number names itself, and two numbers with a dash between them
/// all from the one to the other. A start that is no number counts as zero, an end that is none as
/// the start, and anything else names nothing.
pub proof fn parts_name_cpus(
    a: Seq<char>,
    m: usize,
    n: usize,
    b: Seq<char>,
    x: Seq<char>,
    y: Seq<char>,
)
    requires
        all_white(a),
        all_white(b),
        !x.contains('-'),
        unsigned(x, usize::MAX as nat) is None,
        unsigned(y, usize::MAX as nat) is None,
        tight(x + seq!['-'] + decimal(n as nat)),
        tight(x + seq!['-'] + y),
        tight(decimal(m as nat) + seq!['-'] + y),
        tight(x),
    ensures
        part_cpus(a + decimal(m as nat) + b) == seq![m],
        part_cpus(a + (decimal(m as nat) + seq!['-'] + decimal(n as nat)) + b) == span(
            m as nat,
            n as nat,
        ),
        part_cpus(a + (x + seq!['-'] + decimal(n as nat)) + b) == span(0, n as nat),
        part_cpus(a + (decimal(m as nat) + seq!['-'] + y) + b) == seq![m],
        part_cpus(a + (x + seq!['-'] + y) + b) == seq![0usize],
        part_cpus(a + x + b) == Seq::<usize>::empty(),
{
    let dm = decimal(m as nat);
    let dn = decimal(n as nat);
    digits_are_plain(m as nat, '-');
    digits_are_plain(n as nat, '-');
    lemma_decimal_reads_back(m as nat, usize::MAX as nat);
    lemma_decimal_reads_back(n as nat, usize::MAX as nat);
    trimming_keeps_what_is_inside(a, dm, b);
    texts_are_halved_once(dm, '-', Seq::empty());
    let r = dm + seq!['-'] + dn;
    assert(r[0] == dm[0] && r.last() == dn.last());
    trimming_keeps_what_is_inside(a, r, b);
    texts_are_halved_once(dm, '-', dn);
    trimming_keeps_what_is_inside(a, x + seq!['-'] + dn, b);
    texts_are_halved_once(x, '-', dn);
    trimming_keeps_what_is_inside(a, dm + seq!['-'] + y, b);
    texts_are_halved_once(dm, '-', y);
    assert(span(m as nat, m as nat) =~= seq![m]);
    trimming_keeps_what_is_inside(a, x + seq!['-'] + y, b);
    texts_are_halved_once(x, '-', y);
    assert(span(0, 0) =~= seq![0usize]);
    trimming_keeps_what_is_inside(a, x, b);
    texts_are_halved_once(x, '-', Seq::empty());
}

/// The numbers from one to another, each once and in order.
pub proof fn spans_hold_all_between(a: nat, b: nat, i: int)
    requires
        b <= usize::MAX,
    ensures
        a <= b ==> span(a, b).len() == b - a + 1,
        a > b ==> span(a, b).len() == 0,
        0 <= i < span(a, b).len() ==> span(a, b)[i] == a + i,
{
}

proof fn lemma_joined_ends(parts: Seq<Seq<char>>, c: char)
    requires
        parts.len() > 0,
        forall|i: int| 0 <= i < parts.len() ==> (#[trigger] parts[i]).len() > 0 && tight(parts[i]),
    ensures
        joined(parts, seq![c]).len() > 0,
        tight(joined(parts, seq![c])),
    decreases parts.len(),
{
    assert(parts[0].len() > 0 && tight(parts[0]));
    if parts.len() > 1 {
        let rest = parts.skip(1);
        assert forall|i: int| 0 <= i < rest.len() implies (#[trigger] rest[i]).len() > 0 && tight(
            rest[i],
        ) by {
            assert(rest[i] == parts[i + 1]);
        }
        lemma_joined_ends(rest, c);
        let all = joined(parts, seq![c]);
        assert(all[0] == parts[0][0]);
        assert(all.last() == joined(rest, seq![c]).last());
    }
}

/// A related-CPU list is what its parts name, one after the other. They stand between commas or
/// between spaces.
pub proof fn lists_are_read_part_by_part(
    a: Seq<char>,
    parts: Seq<Seq<char>>,
    c: char,
    b: Seq<char>,
    one: Seq<char>,
)
    requires
        all_white(a),
        all_white(b),
        c == ',' || c == ' ',
        parts.len() > 0,
        forall|i: int|
            0 <= i < parts.len() ==> (#[trigger] parts[i]).len() > 0 && tight(parts[i])
                && !parts[i].contains(',') && !parts[i].contains(' '),
    ensures
        related(a + joined(parts, seq![c]) + b) == parts_cpus(parts),
        parts_cpus(parts.push(one)) == parts_cpus(parts) + part_cpus(one),
        parts_cpus(seq![one]) == part_cpus(one),
{
    lemma_joined_ends(parts, c);
    trimming_keeps_what_is_inside(a, joined(parts, seq![c]), b);
    cutting_undoes_joining(parts, c, ',', ' ');
    assert(parts.push(one).drop_last() =~= parts);
    reveal_with_fuel(parts_cpus, 2);
    assert(seq![one].drop_last() =~= Seq::<Seq<char>>::empty());
    assert(parts_cpus(seq![one]) =~= part_cpus(one));
}

proof fn lemma_parts_of_decimals(cpus: Seq<usize>)
    ensures
        parts_cpus(decimals(cpus)) == cpus,
    decreases cpus.len(),
{
    if cpus.len() > 0 {
        let init = cpus.drop_last();
        lemma_parts_of_decimals(init);
        let n = cpus.last() as nat;
        let empty = Seq::<char>::empty();
        digits_are_plain(n, '-');
        trimming_keeps_what_is_inside(empty, decimal(n), empty);
        assert(empty + decimal(n) + empty =~= decimal(n));
        texts_are_halved_once(decimal(n), '-', empty);
        lemma_decimal_reads_back(n, usize::MAX as nat);
        assert(decimals(cpus).drop_last() =~= decimals(init));
        assert(decimals(cpus).last() == decimal(n));
        assert(parts_cpus(decimals(cpus)) =~= cpus);
    } else {
        assert(parts_cpus(decimals(cpus)) =~= cpus);
    }
}

/// A list of numbers between commas or between spaces, with white space around it, names exactly
/// these CPUs, in order.
pub proof fn number_lists_are_read(a: Seq<char>, cpus: Seq<usize>, c: char, b: Seq<char>)
    requires
        all_white(a),
        all_white(b),
        c == ',' || c == ' ',
        cpus.len() > 0,
    ensures
        related(a + joined(cpus.map_values(|n: usize| decimal(n as nat)), seq![c]) + b) == cpus,
{
    let parts = decimals(cpus);
    assert(parts =~= cpus.map_values(|n: usize| decimal(n as nat)));
    assert forall|i: int| 0 <= i < parts.len() implies (#[trigger] parts[i]).len() > 0 && tight(
        parts[i],
    ) && !parts[i].contains(',') && !parts[i].contains(' ') by {
        digits_are_plain(cpus[i] as nat, ',');
        digits_are_plain(cpus[i] as nat, ' ');
    }
    lists_are_read_part_by_part(a, parts, c, b, parts[0]);
    lemma_parts_of_decimals(cpus);
}

/// Of two policies, the one with the larger number in its file is never sorted behind the other.
pub proof fn faster_policies_come_first(
    policies: Seq<PolicyView>,
    f: u64,
    g: u64,
    x: Seq<usize>,
    y: Seq<usize>,
    i: int,
    j: int,
)
    requires
        f > g,
        0 <= i < fastest_first(policy_clusters(policies)).len(),
        0 <= j < fastest_first(policy_clusters(policies)).len(),
        fastest_first(policy_clusters(policies))[i] == (f, x),
        fastest_first(policy_clusters(policies))[j] == (g, y),
    ensures
        i < j,
{
    sorting_is_stable(policy_clusters(policies));
    let sorted = fastest_first(policy_clusters(policies));
    if j <= i {
        assert(sorted[j].0 >= sorted[i].0);
    }
}

/// Two or more policies with CPUs tell the clusters, and the frequencies of single CPUs do not
/// matter. Else only those matter, and of them the first 128.
pub proof fn policies_count_before_single_cpus(
    policies: Seq<PolicyView>,
    freqs: Seq<Seq<char>>,
    other: Seq<Seq<char>>,
)
    ensures
        policy_clusters(policies).len() >= 2 ==> machine_clusters(policies, freqs)
            == policy_clusters(policies),
        policy_clusters(policies).len() < 2 && freqs.len() <= 128 ==> machine_clusters(
            policies,
            freqs,
        ) == grouped(freqs),
        freqs.len() == 128 ==> machine_clusters(policies, freqs + other) == machine_clusters(
            policies,
            freqs,
        ),
{
    if freqs.len() == 128 {
        assert((freqs + other).take(128) =~= freqs);
        if other.len() == 0 {
            assert(freqs + other =~= freqs);
        }
    }
}

/// The numbers of a cluster rise.
pub open spec fn rising(cpus: Seq<usize>) -> bool {
    forall|i: int, j: int| 0 <= i < j < cpus.len() ==> #[trigger] cpus[i] < #[trigger] cpus[j]
}

/// The CPUs of each cluster rise and lie below `n`.
pub open spec fn all_rising(clusters: Seq<ClusterView>, n: nat) -> bool {
    forall|k: int|
        0 <= k < clusters.len() ==> rising((#[trigger] clusters[k]).1) && forall|i: int|
            0 <= i < clusters[k].1.len() ==> #[trigger] clusters[k].1[i] < n
}

proof fn lemma_with_cpu_rising(clusters: Seq<ClusterView>, freq: u64, cpu: usize)
    requires
        all_rising(clusters, cpu as nat),
    ensures
        all_rising(with_cpu(clusters, freq, cpu), (cpu + 1) as nat),
    decreases clusters.len(),
{
    let r = with_cpu(clusters, freq, cpu);
    if clusters.len() == 0 {
        assert(r[0].1 =~= seq![cpu]);
    } else {
        let rest = clusters.skip(1);
        assert(all_rising(rest, cpu as nat)) by {
            assert forall|k: int| 0 <= k < rest.len() implies rising((#[trigger] rest[k]).1)
                && forall|i: int| 0 <= i < rest[k].1.len() ==> #[trigger] rest[k].1[i] < cpu by {
                assert(rest[k] == clusters[k + 1]);
            }
        }
        assert(rising(clusters[0].1));
        if clusters[0].0 == freq {
            let more = clusters[0].1.push(cpu);
            assert(rising(more)) by {
                assert forall|i: int, j: int| 0 <= i < j < more.len() implies #[trigger] more[i]
                    < #[trigger] more[j] by {
                    assert(clusters[0].1[i] < cpu);
                }
            }
            assert forall|k: int| 0 <= k < r.len() implies rising((#[trigger] r[k]).1) && forall|i: int|
                0 <= i < r[k].1.len() ==> #[trigger] r[k].1[i] < cpu + 1 by {
                if k == 0 {
                    assert(r[0].1 == more);
                } else {
                    assert(r[k] == rest[k - 1]);
                    assert(rising(rest[k - 1].1));
                }
            }
        } else {
            lemma_with_cpu_rising(rest, freq, cpu);
            let t = with_cpu(rest, freq, cpu);
            assert forall|k: int| 0 <= k < r.len() implies rising((#[trigger] r[k]).1) && forall|i: int|
                0 <= i < r[k].1.len() ==> #[trigger] r[k].1[i] < cpu + 1 by {
                if k == 0 {
                    assert(r[0] == clusters[0]);
                } else {
                    assert(r[k] == t[k - 1]);
                    assert(rising(t[k - 1].1));
                }
            }
        }
    }
}

proof fn lemma_rising_more(clusters: Seq<ClusterView>, n: nat, m: nat)
    requires
        all_rising(clusters, n),
        n <= m,
    ensures
        all_rising(clusters, m),
{
    assert forall|k: int| 0 <= k < clusters.len() implies rising((#[trigger] clusters[k]).1)
        && forall|i: int| 0 <= i < clusters[k].1.len() ==> #[trigger] clusters[k].1[i] < m by {
        assert(rising(clusters[k].1));
    }
}

/// Grouped CPUs stand in rising order, none twice. With what each group holds, this leaves no
/// choice.
pub proof fn groups_rise(freqs: Seq<Seq<char>>)
    requires
        freqs.len() <= usize::MAX,
    ensures
        all_rising(grouped(freqs), freqs.len()),
    decreases freqs.len(),
{
    if freqs.len() > 0 {
        let init = freqs.drop_last();
        groups_rise(init);
        match frequency(freqs.last()) {
            Some(f) => {
                lemma_with_cpu_rising(grouped(init), f as u64, (freqs.len() - 1) as usize);
            },
            None => {
                lemma_rising_more(grouped(init), init.len(), freqs.len());
            },
        }
    }
}

/// A CPU whose file holds the number `f` is in the group of frequency `f`, and in no other.
pub proof fn cpus_are_grouped_by_their_files(
    freqs: Seq<Seq<char>>,
    cpu: usize,
    a: Seq<char>,
    f: u64,
    b: Seq<char>,
    k: int,
)
    requires
        freqs.len() <= usize::MAX,
        cpu < freqs.len(),
        freqs[cpu as int] == a + decimal(f as nat) + b,
        all_white(a),
        all_white(b),
        0 <= k < grouped(freqs).len(),
    ensures
        grouped(freqs)[k].1.contains(cpu) <==> grouped(freqs)[k].0 == f,
        exists|i: int| 0 <= i < grouped(freqs).len() && (#[trigger] grouped(freqs)[i]).0 == f,
{
    frequencies_are_read(a, f, b);
    grouping_is_by_frequency(freqs);
    assert(runs_at(freqs, cpu as int, f));
    let c = grouped(freqs)[k];
    assert(c.1.contains(cpu) <==> runs_at(freqs, cpu as int, c.0));
}

proof fn lemma_first_of_frequency(clusters: Seq<ClusterView>, i: int)
    requires
        0 <= i < clusters.len(),
        forall|j: int| 0 <= j < i ==> (#[trigger] clusters[j]).0 != clusters[i].0,
    ensures
        of_frequency(clusters, clusters[i].0).len() > 0,
        of_frequency(clusters, clusters[i].0)[0] == clusters[i],
    decreases clusters.len(),
{
    reveal(Seq::filter);
    let freq = clusters[i].0;
    let init = clusters.drop_last();
    if i < init.len() {
        assert forall|j: int| 0 <= j < i implies (#[trigger] init[j]).0 != init[i].0 by {
            assert(clusters[j].0 != clusters[i].0);
        }
        lemma_first_of_frequency(init, i);
    } else {
        lemma_none_of_frequency(init, freq);
    }
}

proof fn lemma_last_of_frequency(clusters: Seq<ClusterView>, i: int)
    requires
        0 <= i < clusters.len(),
        forall|j: int| i < j < clusters.len() ==> (#[trigger] clusters[j]).0 != clusters[i].0,
    ensures
        of_frequency(clusters, clusters[i].0).len() > 0,
        of_frequency(clusters, clusters[i].0).last() == clusters[i],
    decreases clusters.len(),
{
    reveal(Seq::filter);
    let init = clusters.drop_last();
    if i < init.len() {
        assert(clusters[init.len() as int].0 != clusters[i].0);
        assert forall|j: int| i < j < init.len() implies (#[trigger] init[j]).0 != init[i].0 by {
            assert(clusters[j].0 != clusters[i].0);
        }
        lemma_last_of_frequency(init, i);
    }
}

proof fn lemma_none_of_frequency(clusters: Seq<ClusterView>, freq: u64)
    requires
        forall|i: int| 0 <= i < clusters.len() ==> (#[trigger] clusters[i]).0 != freq,
    ensures
        of_frequency(clusters, freq) == Seq::<ClusterView>::empty(),
    decreases clusters.len(),
{
    reveal(Seq::filter);
    if clusters.len() > 0 {
        let init = clusters.drop_last();
        assert forall|i: int| 0 <= i < init.len() implies (#[trigger] init[i]).0 != freq by {
            assert(clusters[i].0 != freq);
        }
        lemma_none_of_frequency(init, freq);
        assert(clusters[clusters.len() - 1].0 != freq);
    }
}

/// The topology starts with the CPUs of the fastest cluster, the first of several, and goes on with
/// those of the slowest, the last of several.
pub proof fn topologies_name_the_extremes(clusters: Seq<ClusterView>, i: int)
    requires
        0 <= i < clusters.len(),
    ensures
        (forall|j: int|
            0 <= j < clusters.len() ==> (#[trigger] clusters[j]).0 <= clusters[i].0 && (j < i
                ==> clusters[j].0 < clusters[i].0)) ==> topology(clusters).0 == cpu_list(
            clusters[i].1,
        ),
        (forall|j: int|
            0 <= j < clusters.len() ==> (#[trigger] clusters[j]).0 >= clusters[i].0 && (j > i
                ==> clusters[j].0 > clusters[i].0)) ==> topology(clusters).1 == cpu_list(
            clusters[i].1,
        ),
{
    let sorted = fastest_first(clusters);
    let freq = clusters[i].0;
    extremes_are_chosen(clusters, i);
    sorting_is_stable(clusters);
    sorted.to_multiset_ensures();
    clusters.to_multiset_ensures();
    assert(sorted.len() == clusters.len());
    let last = sorted.len() - 1;
    assert(of_frequency(sorted, freq) == of_frequency(clusters, freq));
    if forall|j: int|
        0 <= j < clusters.len() ==> (#[trigger] clusters[j]).0 <= clusters[i].0 && (j < i
            ==> clusters[j].0 < clusters[i].0) {
        let k = choose|k: int| 0 <= k < clusters.len() && clusters[k] == sorted[0];
        assert(clusters[k].0 <= freq);
        assert(sorted[0].0 == freq);
        assert forall|j: int| 0 <= j < i implies (#[trigger] clusters[j]).0 != freq by {}
        lemma_first_of_frequency(clusters, i);
        lemma_first_of_frequency(sorted, 0);
    }
    if forall|j: int|
        0 <= j < clusters.len() ==> (#[trigger] clusters[j]).0 >= clusters[i].0 && (j > i
            ==> clusters[j].0 > clusters[i].0) {
        let k = choose|k: int| 0 <= k < clusters.len() && clusters[k] == sorted.last();
        assert(clusters[k].0 >= freq);
        assert(sorted[last].0 == freq);
        assert forall|j: int| i < j < clusters.len() implies (#[trigger] clusters[j]).0 != freq by {}
        lemma_last_of_frequency(clusters, i);
        lemma_last_of_frequency(sorted, last);
    }
}

/// The list for a cluster goes through its CPUs in order, and a run of CPUs is written as its first
/// and its last with a dash between them.
pub proof fn cluster_lists_hold_their_cpus(cpus: Seq<usize>, a: usize, b: usize)
    requires
        cpus.len() > 0,
        no_wrap(cpus),
        a < b,
    ensures
        expanded(pieces(cpu_list(cpus), ',', ',')) == cpus,
        cpu_list(seq![a]) == decimal(a as nat),
        cpu_list(span(a as nat, b as nat)) == decimal(a as nat) + seq!['-'] + decimal(b as nat),
{
    let text = joined(decimals(cpus), seq![',']);
    lemma_listed(cpus);
    expanding_undoes_compressing(text);
    lemma_listed(seq![a]);
    assert(span(a as nat, a as nat) =~= seq![a]);
    runs_are_written_with_a_dash(joined(decimals(seq![a]), seq![',']), a, a);
    let run = span(a as nat, b as nat);
    lemma_listed(run);
    runs_are_written_with_a_dash(joined(decimals(run), seq![',']), a, b);
}

proof fn lemma_listed(cpus: Seq<usize>)
    requires
        cpus.len() > 0,
    ensures
        listed_numbers(joined(decimals(cpus), seq![','])) == cpus,
    decreases cpus.len(),
{
    let empty = Seq::<char>::empty();
    let n = cpus.last();
    other_texts_are_no_numbers(empty, 0, usize::MAX as nat);
    assert(trimmed(empty) =~= empty);
    single_numbers_are_listed(empty, n, empty, empty);
    assert(empty + decimal(n as nat) + empty =~= decimal(n as nat));
    if cpus.len() == 1 {
        assert(decimals(cpus)[0] == decimal(n as nat));
        assert(seq![n] =~= cpus);
    } else {
        let init = cpus.drop_last();
        lemma_listed(init);
        lemma_joined_push(decimals(init), decimal(n as nat), seq![',']);
        assert(decimals(cpus) =~= decimals(init).push(decimal(n as nat)));
        numbers_stand_between_commas(joined(decimals(init), seq![',']), decimal(n as nat));
        assert(init + seq![n] =~= cpus);
    }
}

/// The sizes of the clusters are written from the fastest to the slowest, with a plus sign between
/// them; without clusters, one CPU is taken for granted.
pub proof fn topologies_list_the_sizes(clusters: Seq<ClusterView>, sorted: Seq<ClusterView>, i: int)
    requires
        sorted == fastest_first(clusters),
    ensures
        clusters.len() > 0 ==> pieces(topology(clusters).2, '+', '+').len() == clusters.len(),
        clusters.len() > 0 && 0 <= i < sorted.len() ==> pieces(topology(clusters).2, '+', '+')[i]
            == decimal(sorted[i].1.len()),
        clusters.len() == 0 ==> topology(clusters) == (seq!['0'], seq!['0'], seq!['1']),
{
    reveal_strlit("0");
    reveal_strlit("1");
    assert("0"@ =~= seq!['0']);
    assert("1"@ =~= seq!['1']);
    if clusters.len() > 0 {
        sorting_is_stable(clusters);
        sorted.to_multiset_ensures();
        clusters.to_multiset_ensures();
        assert(sorted.len() == clusters.len());
        let texts = sizes(sorted);
        assert forall|k: int| 0 <= k < texts.len() implies !(#[trigger] texts[k]).contains('+') by {
            digits_are_plain(sorted[k].1.len(), '+');
        }
        cutting_undoes_joining(texts, '+', '+', '+');
    }
}

} // verus!
