//! CPU clusters: which CPUs are fast and which are slow.

use vstd::prelude::*;

use crate::cpus::{
    compress_cpus, compressed, lists_cpu, listed_numbers, no_wrap, numbers, span,
    compressing_keeps_the_cpus,
};
use crate::decimal::{
    decimal, digit, unsigned, lemma_decimal, lemma_decimal_reads_back, parse_u64, parse_usize,
    to_decimal,
};
use crate::text::{
    file_text, halves, joined, pieces, slices, texts, trimmed, lemma_pieces_of_joined,
    lemma_trimmed_plain, join, split, split_once, starts_with, trim,
};

verus! {

/// One frequency policy as the kernel shows it; a file that cannot be read is `None`.
pub struct Policy {
    pub name: String,
    pub related_cpus: Option<String>,
    pub max_freq: Option<String>,
}

/// What is known of a frequency policy.
pub struct PolicyView {
    pub name: Seq<char>,
    pub related_cpus: Option<Seq<char>>,
    pub max_freq: Option<Seq<char>>,
}

impl View for Policy {
    type V = PolicyView;

    open spec fn view(&self) -> PolicyView {
        PolicyView {
            name: self.name@,
            related_cpus: file_text(self.related_cpus),
            max_freq: file_text(self.max_freq),
        }
    }
}

/// What is known of a list of policies.
pub open spec fn policy_views(v: Seq<Policy>) -> Seq<PolicyView> {
    v.map_values(|p: Policy| p@)
}

/// CPUs that share a highest frequency.
pub type Cluster = (u64, Vec<usize>);

/// What is known of a cluster.
pub type ClusterView = (u64, Seq<usize>);

/// What is known of a list of clusters.
pub open spec fn cluster_views(v: Seq<Cluster>) -> Seq<ClusterView> {
    v.map_values(|c: Cluster| (c.0, c.1@))
}

/// How many CPUs are looked at one by one.
pub const MAX_CPUS: usize = 128;

/// The CPUs that one part of a related-CPU list names. The start of a range that is no number
/// counts as zero, and an end that is no number as the start.
pub open spec fn part_cpus(piece: Seq<char>) -> Seq<usize> {
    let part = trimmed(piece);
    match halves(part, '-') {
        Some((x, y)) => {
            let a = match unsigned(x, usize::MAX as nat) {
                Some(n) => n,
                None => 0,
            };
            let b = match unsigned(y, usize::MAX as nat) {
                Some(n) => n,
                None => a,
            };
            span(a, b)
        },
        None => match unsigned(part, usize::MAX as nat) {
            Some(n) => seq![n as usize],
            None => Seq::empty(),
        },
    }
}

/// The CPUs that the parts of a related-CPU list name, in order.
pub open spec fn parts_cpus(parts: Seq<Seq<char>>) -> Seq<usize>
    decreases parts.len(),
{
    if parts.len() == 0 {
        Seq::empty()
    } else {
        parts_cpus(parts.drop_last()) + part_cpus(parts.last())
    }
}

/// The CPUs that a related-CPU list names: its parts stand between commas or spaces.
pub open spec fn related(list: Seq<char>) -> Seq<usize> {
    parts_cpus(pieces(trimmed(list), ',', ' '))
}

/// The frequency that a file holds.
pub open spec fn frequency(text: Seq<char>) -> Option<nat> {
    unsigned(trimmed(text), u64::MAX as nat)
}

/// The cluster that a policy describes, where it is one and names at least one CPU.
pub open spec fn policy_cluster(p: PolicyView) -> Option<ClusterView> {
    match (p.related_cpus, p.max_freq) {
        (Some(list), Some(freq)) => if "policy"@.is_prefix_of(p.name) && frequency(freq) is Some
            && related(list).len() > 0 {
            Some((frequency(freq).unwrap() as u64, related(list)))
        } else {
            None
        },
        _ => None,
    }
}

/// The clusters that a list of policies describes.
pub open spec fn policy_clusters(policies: Seq<PolicyView>) -> Seq<ClusterView>
    decreases policies.len(),
{
    if policies.len() == 0 {
        Seq::empty()
    } else {
        let rest = policy_clusters(policies.drop_last());
        match policy_cluster(policies.last()) {
            Some(c) => rest.push(c),
            None => rest,
        }
    }
}

/// `clusters` with `cpu` put to the first cluster of frequency `freq`, or to a new one.
pub open spec fn with_cpu(clusters: Seq<ClusterView>, freq: u64, cpu: usize) -> Seq<ClusterView>
    decreases clusters.len(),
{
    if clusters.len() == 0 {
        seq![(freq, seq![cpu])]
    } else if clusters[0].0 == freq {
        seq![(freq, clusters[0].1.push(cpu))] + clusters.skip(1)
    } else {
        seq![clusters[0]] + with_cpu(clusters.skip(1), freq, cpu)
    }
}

/// The CPUs grouped by their frequencies: the text at position `i` is that of CPU `i`, and one
/// that is no number is passed over.
pub open spec fn grouped(freqs: Seq<Seq<char>>) -> Seq<ClusterView>
    decreases freqs.len(),
{
    if freqs.len() == 0 {
        Seq::empty()
    } else {
        let rest = grouped(freqs.drop_last());
        match frequency(freqs.last()) {
            Some(f) => with_cpu(rest, f as u64, (freqs.len() - 1) as usize),
            None => rest,
        }
    }
}

/// The texts of the CPUs that are looked at one by one.
pub open spec fn looked_at(freqs: Seq<Seq<char>>) -> Seq<Seq<char>> {
    if freqs.len() > MAX_CPUS {
        freqs.take(MAX_CPUS as int)
    } else {
        freqs
    }
}

/// The clusters of the machine: those of the policies, where there are at least two.
pub open spec fn machine_clusters(
    policies: Seq<PolicyView>,
    freqs: Seq<Seq<char>>,
) -> Seq<ClusterView> {
    if policy_clusters(policies).len() < 2 {
        grouped(looked_at(freqs))
    } else {
        policy_clusters(policies)
    }
}

/// `sorted` with `c` put behind all clusters at its start that are at least as fast.
pub open spec fn inserted(sorted: Seq<ClusterView>, c: ClusterView) -> Seq<ClusterView>
    decreases sorted.len(),
{
    if sorted.len() == 0 || sorted[0].0 < c.0 {
        seq![c] + sorted
    } else {
        seq![sorted[0]] + inserted(sorted.skip(1), c)
    }
}

/// `clusters` from the fastest to the slowest; those of one frequency keep their order.
pub open spec fn fastest_first(clusters: Seq<ClusterView>) -> Seq<ClusterView>
    decreases clusters.len(),
{
    if clusters.len() == 0 {
        Seq::empty()
    } else {
        inserted(fastest_first(clusters.drop_last()), clusters.last())
    }
}

/// Each of `nums` in decimal.
pub open spec fn decimals(nums: Seq<usize>) -> Seq<Seq<char>> {
    nums.map_values(|n: usize| decimal(n as nat))
}

/// The CPUs of a cluster as a list.
pub open spec fn cpu_list(cpus: Seq<usize>) -> Seq<char> {
    compressed(joined(decimals(cpus), seq![',']))
}

/// How many CPUs each cluster has, in decimal.
pub open spec fn sizes(clusters: Seq<ClusterView>) -> Seq<Seq<char>> {
    clusters.map_values(|c: ClusterView| decimal(c.1.len()))
}

/// The CPUs of the fastest and of the slowest cluster, and the sizes of all.
pub open spec fn topology(clusters: Seq<ClusterView>) -> (Seq<char>, Seq<char>, Seq<char>) {
    let sorted = fastest_first(clusters);
    if clusters.len() == 0 {
        ("0"@, "0"@, "1"@)
    } else {
        (cpu_list(sorted[0].1), cpu_list(sorted.last().1), joined(sizes(sorted), seq!['+']))
    }
}

/// Adds the CPUs that one part of a related-CPU list names.
fn add_part(cpus: &mut Vec<usize>, piece: &str)
    ensures
        final(cpus)@ == old(cpus)@ + part_cpus(piece@),
{
    let part = trim(piece);
    match split_once(part, '-') {
        Some((x, y)) => {
            let a: usize = match parse_usize(x) {
                Some(n) => n,
                None => 0,
            };
            let b: usize = match parse_usize(y) {
                Some(n) => n,
                None => a,
            };
            let ghost start = cpus@;
            let ghost all = span(a as nat, b as nat);
            assert(part_cpus(piece@) == all);
            if a <= b {
                let mut cpu: usize = a;
                assert(cpus@ =~= start + all.take(0));
                while cpu < b
                    invariant
                        a <= cpu <= b,
                        all == span(a as nat, b as nat),
                        cpus@ == start + all.take(cpu - a),
                    decreases b - cpu,
                {
                    cpus.push(cpu);
                    assert(cpus@ =~= start + all.take(cpu + 1 - a));
                    cpu += 1;
                }
                cpus.push(b);
            }
            assert(cpus@ =~= start + all);
        },
        None => {
            if let Some(n) = parse_usize(part) {
                cpus.push(n);
            }
            assert(cpus@ =~= old(cpus)@ + part_cpus(piece@));
        },
    }
}

/// The CPUs that a related-CPU list names.
fn read_related(list: &str) -> (r: Vec<usize>)
    ensures
        r@ == related(list@),
{
    let parts: Vec<&str> = split(trim(list), ',', ' ');
    let ghost all = slices(parts@);
    let mut r: Vec<usize> = Vec::new();
    let mut i: usize = 0;
    while i < parts.len()
        invariant
            i <= parts@.len(),
            all == slices(parts@),
            r@ == parts_cpus(all.take(i as int)),
        decreases parts@.len() - i,
    {
        assert(all.take(i + 1).drop_last() =~= all.take(i as int));
        assert(all.take(i + 1).last() == parts@[i as int]@);
        add_part(&mut r, parts[i]);
        i += 1;
    }
    assert(all.take(i as int) =~= all);
    r
}

/// The cluster that a policy describes.
fn read_policy(p: &Policy) -> (r: Option<Cluster>)
    ensures
        match r {
            Some(c) => policy_cluster(p@) == Some((c.0, c.1@)),
            None => policy_cluster(p@) is None,
        },
{
    if !starts_with(p.name.as_str(), "policy") {
        return None;
    }
    match (&p.related_cpus, &p.max_freq) {
        (Some(list), Some(text)) => match parse_u64(trim(text.as_str())) {
            Some(freq) => {
                let cpus: Vec<usize> = read_related(list.as_str());
                if cpus.len() > 0 {
                    Some((freq, cpus))
                } else {
                    None
                }
            },
            None => None,
        },
        _ => None,
    }
}

/// The clusters that a list of policies describes.
fn read_policies(policies: &[Policy]) -> (r: Vec<Cluster>)
    ensures
        cluster_views(r@) == policy_clusters(policy_views(policies@)),
{
    let ghost all = policy_views(policies@);
    let mut r: Vec<Cluster> = Vec::new();
    let mut i: usize = 0;
    assert(cluster_views(r@) =~= policy_clusters(all.take(0)));
    while i < policies.len()
        invariant
            i <= policies@.len(),
            all == policy_views(policies@),
            cluster_views(r@) == policy_clusters(all.take(i as int)),
        decreases policies@.len() - i,
    {
        let ghost before = cluster_views(r@);
        assert(all.take(i + 1).drop_last() =~= all.take(i as int));
        assert(all.take(i + 1).last() == policies@[i as int]@);
        if let Some(c) = read_policy(&policies[i]) {
            let ghost view = (c.0, c.1@);
            r.push(c);
            assert(cluster_views(r@) =~= before.push(view));
        }
        i += 1;
    }
    assert(all.take(i as int) =~= all);
    r
}

/// Tells whether the policies do not show the clusters, so that the frequencies of the single
/// CPUs are to be read.
pub fn needs_cpu_freqs(policies: &[Policy]) -> (r: bool)
    ensures
        r == (policy_clusters(policy_views(policies@)).len() < 2),
        !r ==> forall|freqs: Seq<Seq<char>>| #[trigger]
            machine_clusters(policy_views(policies@), freqs) == machine_clusters(
                policy_views(policies@),
                Seq::empty(),
            ),
{
    let clusters: Vec<Cluster> = read_policies(policies);
    assert(clusters@.len() == cluster_views(clusters@).len());
    clusters.len() < 2
}

proof fn lemma_with_cpu(clusters: Seq<ClusterView>, freq: u64, cpu: usize, i: int)
    requires
        0 <= i <= clusters.len(),
        forall|j: int| 0 <= j < i ==> (#[trigger] clusters[j]).0 != freq,
        i < clusters.len() ==> clusters[i].0 == freq,
    ensures
        with_cpu(clusters, freq, cpu) == if i < clusters.len() {
            clusters.update(i, (freq, clusters[i].1.push(cpu)))
        } else {
            clusters.push((freq, seq![cpu]))
        },
    decreases clusters.len(),
{
    if clusters.len() == 0 {
        assert(with_cpu(clusters, freq, cpu) =~= clusters.push((freq, seq![cpu])));
    } else if i == 0 {
        assert(with_cpu(clusters, freq, cpu) =~= clusters.update(
            0,
            (freq, clusters[0].1.push(cpu)),
        ));
    } else {
        let rest = clusters.skip(1);
        assert forall|j: int| 0 <= j < i - 1 implies (#[trigger] rest[j]).0 != freq by {
            assert(rest[j] == clusters[j + 1]);
        }
        lemma_with_cpu(rest, freq, cpu, i - 1);
        assert(clusters[0].0 != freq);
        assert(with_cpu(clusters, freq, cpu) =~= if i < clusters.len() {
            clusters.update(i, (freq, clusters[i].1.push(cpu)))
        } else {
            clusters.push((freq, seq![cpu]))
        });
    }
}

/// Puts `cpu` to the cluster of frequency `freq`, or to a new one.
fn add_cpu(clusters: &mut Vec<Cluster>, freq: u64, cpu: usize)
    ensures
        cluster_views(final(clusters)@) == with_cpu(cluster_views(old(clusters)@), freq, cpu),
{
    let ghost all = cluster_views(clusters@);
    let n: usize = clusters.len();
    let mut i: usize = 0;
    while i < n && clusters[i].0 != freq
        invariant
            n == clusters@.len(),
            i <= n,
            all == cluster_views(clusters@),
            forall|j: int| 0 <= j < i ==> (#[trigger] all[j]).0 != freq,
        decreases n - i,
    {
        assert(all[i as int].0 != freq);
        i += 1;
    }
    proof {
        lemma_with_cpu(all, freq, cpu, i as int);
    }
    if i < n {
        let mut cpus: Vec<usize> = Vec::new();
        std::mem::swap(&mut clusters[i].1, &mut cpus);
        assert(cpus@ == all[i as int].1);
        cpus.push(cpu);
        clusters.set(i, (freq, cpus));
        assert(cluster_views(clusters@) =~= all.update(i as int, (freq, all[i as int].1.push(cpu))));
    } else {
        let cpus: Vec<usize> = vec![cpu];
        assert(cpus@ =~= seq![cpu]);
        clusters.push((freq, cpus));
        assert(cluster_views(clusters@) =~= all.push((freq, seq![cpu])));
    }
    assert(cluster_views(clusters@) =~= with_cpu(all, freq, cpu));
}

/// The CPUs grouped by their frequencies.
fn group_cpus(freqs: &[String]) -> (r: Vec<Cluster>)
    ensures
        cluster_views(r@) == grouped(looked_at(texts(freqs@))),
{
    let ghost all = looked_at(texts(freqs@));
    let n: usize = if freqs.len() > MAX_CPUS {
        MAX_CPUS
    } else {
        freqs.len()
    };
    let mut r: Vec<Cluster> = Vec::new();
    let mut i: usize = 0;
    assert(cluster_views(r@) =~= grouped(all.take(0)));
    while i < n
        invariant
            i <= n <= freqs@.len(),
            n == all.len(),
            all == looked_at(texts(freqs@)),
            cluster_views(r@) == grouped(all.take(i as int)),
        decreases n - i,
    {
        assert(all.take(i + 1).drop_last() =~= all.take(i as int));
        assert(all.take(i + 1).last() == freqs@[i as int]@);
        if let Some(freq) = parse_u64(trim(freqs[i].as_str())) {
            add_cpu(&mut r, freq, i);
        }
        i += 1;
    }
    assert(all.take(i as int) =~= all);
    r
}

proof fn lemma_inserted(sorted: Seq<ClusterView>, c: ClusterView, i: int)
    requires
        0 <= i <= sorted.len(),
        forall|j: int| 0 <= j < i ==> (#[trigger] sorted[j]).0 >= c.0,
        i < sorted.len() ==> sorted[i].0 < c.0,
    ensures
        inserted(sorted, c) == sorted.insert(i, c),
    decreases sorted.len(),
{
    if i == 0 {
        assert(inserted(sorted, c) =~= sorted.insert(0, c));
    } else {
        let rest = sorted.skip(1);
        assert forall|j: int| 0 <= j < i - 1 implies (#[trigger] rest[j]).0 >= c.0 by {
            assert(rest[j] == sorted[j + 1]);
        }
        lemma_inserted(rest, c, i - 1);
        assert(sorted[0].0 >= c.0);
        assert(inserted(sorted, c) =~= sorted.insert(i, c));
    }
}

/// Puts `c` behind all clusters at the start of `sorted` that are at least as fast.
fn insert_cluster(sorted: &mut Vec<Cluster>, c: Cluster)
    ensures
        cluster_views(final(sorted)@) == inserted(cluster_views(old(sorted)@), (c.0, c.1@)),
{
    let ghost all = cluster_views(sorted@);
    let ghost view = (c.0, c.1@);
    let n: usize = sorted.len();
    let mut i: usize = 0;
    while i < n && sorted[i].0 >= c.0
        invariant
            n == sorted@.len(),
            i <= n,
            all == cluster_views(sorted@),
            forall|j: int| 0 <= j < i ==> (#[trigger] all[j]).0 >= c.0,
        decreases n - i,
    {
        assert(all[i as int].0 >= c.0);
        i += 1;
    }
    proof {
        lemma_inserted(all, view, i as int);
    }
    sorted.insert(i, c);
    assert(cluster_views(sorted@) =~= all.insert(i as int, view));
}

/// The clusters from the fastest to the slowest.
fn sort_clusters(clusters: Vec<Cluster>) -> (r: Vec<Cluster>)
    ensures
        cluster_views(r@) == fastest_first(cluster_views(clusters@)),
{
    let ghost given = clusters@;
    let ghost all = cluster_views(given);
    let mut left: Vec<Cluster> = clusters;
    let mut r: Vec<Cluster> = Vec::new();
    let ghost mut i: int = 0;
    assert(cluster_views(r@) =~= fastest_first(all.take(0)));
    assert(left@ =~= given.skip(0));
    while left.len() > 0
        invariant
            0 <= i <= given.len(),
            all == cluster_views(given),
            left@ == given.skip(i),
            cluster_views(r@) == fastest_first(all.take(i)),
        decreases left@.len(),
    {
        let c: Cluster = left.remove(0);
        proof {
            assert(c == given[i]);
            assert(left@ =~= given.skip(i + 1));
            assert(all.take(i + 1).drop_last() =~= all.take(i));
            assert(all.take(i + 1).last() == (c.0, c.1@));
            i = i + 1;
        }
        insert_cluster(&mut r, c);
    }
    assert(all.take(i) =~= all);
    r
}

/// The CPUs of a cluster as a list.
fn write_cpus(cpus: &Vec<usize>) -> (r: String)
    ensures
        r@ == cpu_list(cpus@),
{
    let ghost all = decimals(cpus@);
    let mut parts: Vec<String> = Vec::new();
    let mut i: usize = 0;
    while i < cpus.len()
        invariant
            i <= cpus@.len(),
            all == decimals(cpus@),
            texts(parts@) == all.take(i as int),
        decreases cpus@.len() - i,
    {
        let ghost before = texts(parts@);
        parts.push(to_decimal(cpus[i] as u64));
        assert(texts(parts@) =~= before.push(all[i as int]));
        assert(all.take(i + 1) =~= before.push(all[i as int]));
        i += 1;
    }
    proof {
        reveal_strlit(",");
        assert(","@ =~= seq![',']);
        assert(texts(parts@) =~= all);
    }
    compress_cpus(join(&parts, ",").as_str())
}

/// The sizes of the clusters.
fn write_sizes(clusters: &Vec<Cluster>) -> (r: String)
    ensures
        r@ == joined(sizes(cluster_views(clusters@)), seq!['+']),
{
    let ghost all = sizes(cluster_views(clusters@));
    let mut parts: Vec<String> = Vec::new();
    let mut i: usize = 0;
    while i < clusters.len()
        invariant
            i <= clusters@.len(),
            all == sizes(cluster_views(clusters@)),
            texts(parts@) == all.take(i as int),
        decreases clusters@.len() - i,
    {
        let ghost before = texts(parts@);
        assert(cluster_views(clusters@)[i as int].1 == clusters@[i as int].1@);
        parts.push(to_decimal(clusters[i].1.len() as u64));
        assert(texts(parts@) =~= before.push(all[i as int]));
        assert(all.take(i + 1) =~= before.push(all[i as int]));
        i += 1;
    }
    proof {
        reveal_strlit("+");
        assert("+"@ =~= seq!['+']);
        assert(texts(parts@) =~= all);
    }
    join(&parts, "+")
}

proof fn lemma_inserted_len(sorted: Seq<ClusterView>, c: ClusterView)
    ensures
        inserted(sorted, c).len() == sorted.len() + 1,
    decreases sorted.len(),
{
    if sorted.len() > 0 && sorted[0].0 >= c.0 {
        lemma_inserted_len(sorted.skip(1), c);
    }
}

proof fn lemma_fastest_first_len(clusters: Seq<ClusterView>)
    ensures
        fastest_first(clusters).len() == clusters.len(),
    decreases clusters.len(),
{
    if clusters.len() > 0 {
        lemma_fastest_first_len(clusters.drop_last());
        lemma_inserted_len(fastest_first(clusters.drop_last()), clusters.last());
    }
}

/// The CPUs of the fastest cluster, those of the slowest, and the sizes of all clusters from the
/// fastest to the slowest. The text at position `i` of `cpu_freqs` is the frequency of CPU `i`.
pub fn detect_clusters(policies: &[Policy], cpu_freqs: &[String]) -> (r: (String, String, String))
    ensures
        (r.0@, r.1@, r.2@) == topology(
            machine_clusters(policy_views(policies@), texts(cpu_freqs@)),
        ),
{
    let mut found: Vec<Cluster> = read_policies(policies);
    assert(found@.len() == cluster_views(found@).len());
    if found.len() < 2 {
        found = group_cpus(cpu_freqs);
    }
    let ghost clusters = cluster_views(found@);
    let sorted: Vec<Cluster> = sort_clusters(found);
    proof {
        lemma_fastest_first_len(clusters);
        assert(sorted@.len() == cluster_views(sorted@).len());
    }
    let n: usize = sorted.len();
    if n == 0 {
        return ("0".to_owned(), "0".to_owned(), "1".to_owned());
    }
    let big: String = write_cpus(&sorted[0].1);
    let little: String = write_cpus(&sorted[n - 1].1);
    let topo: String = write_sizes(&sorted);
    (big, little, topo)
}

/// The clusters of one frequency, in order.
pub open spec fn of_frequency(clusters: Seq<ClusterView>, freq: u64) -> Seq<ClusterView> {
    clusters.filter(|c: ClusterView| c.0 == freq)
}

/// No cluster is faster than one before it.
pub open spec fn descending(clusters: Seq<ClusterView>) -> bool {
    forall|i: int, j: int|
        0 <= i <= j < clusters.len() ==> (#[trigger] clusters[i]).0 >= (#[trigger] clusters[j]).0
}

proof fn insert_position(sorted: Seq<ClusterView>, c: ClusterView, from: int) -> (i: int)
    requires
        0 <= from <= sorted.len(),
        forall|j: int| 0 <= j < from ==> (#[trigger] sorted[j]).0 >= c.0,
    ensures
        from <= i <= sorted.len(),
        forall|j: int| 0 <= j < i ==> (#[trigger] sorted[j]).0 >= c.0,
        i < sorted.len() ==> sorted[i].0 < c.0,
    decreases sorted.len() - from,
{
    if from < sorted.len() && sorted[from].0 >= c.0 {
        insert_position(sorted, c, from + 1)
    } else {
        from
    }
}

proof fn lemma_none_of_frequency(clusters: Seq<ClusterView>, freq: u64)
    requires
        forall|i: int| 0 <= i < clusters.len() ==> (#[trigger] clusters[i]).0 != freq,
    ensures
        of_frequency(clusters, freq) == Seq::<ClusterView>::empty(),
    decreases clusters.len(),
{
    reveal(Seq::filter);
    if clusters.len() > 0 {
        lemma_none_of_frequency(clusters.drop_last(), freq);
    }
}

proof fn lemma_inserted_sorts(sorted: Seq<ClusterView>, c: ClusterView)
    requires
        descending(sorted),
    ensures
        descending(inserted(sorted, c)),
        inserted(sorted, c).to_multiset() == sorted.to_multiset().insert(c),
        forall|freq: u64| #[trigger]
            of_frequency(inserted(sorted, c), freq) == of_frequency(sorted.push(c), freq),
{
    let i = insert_position(sorted, c, 0);
    lemma_inserted(sorted, c, i);
    let r = inserted(sorted, c);
    vstd::seq_lib::to_multiset_insert(sorted, i, c);
    assert(descending(r)) by {
        assert forall|a: int, b: int| 0 <= a <= b < r.len() implies (#[trigger] r[a]).0 >= (
        #[trigger] r[b]).0 by {
            let x = if a < i {
                a
            } else {
                a - 1
            };
            let y = if b < i {
                b
            } else {
                b - 1
            };
            if a != i && b != i {
                assert(r[a] == sorted[x] && r[b] == sorted[y]);
            } else if a == i && b > i {
                assert(r[b] == sorted[y]);
                assert(sorted[i].0 >= sorted[y].0);
            } else if b == i && a < i {
                assert(r[a] == sorted[x]);
            }
        }
    }
    assert forall|freq: u64| #[trigger] of_frequency(r, freq) == of_frequency(
        sorted.push(c),
        freq,
    ) by {
        let p = |c: ClusterView| c.0 == freq;
        let head = sorted.take(i);
        let tail = sorted.skip(i);
        let one = seq![c];
        assert(r =~= head + one + tail);
        assert(sorted.push(c) =~= head + tail + one);
        Seq::filter_distributes_over_add(head + one, tail, p);
        Seq::filter_distributes_over_add(head, one, p);
        Seq::filter_distributes_over_add(head + tail, one, p);
        Seq::filter_distributes_over_add(head, tail, p);
        if c.0 == freq {
            assert forall|j: int| 0 <= j < tail.len() implies (#[trigger] tail[j]).0 != freq by {
                assert(tail[j] == sorted[i + j]);
                assert(sorted[i].0 >= sorted[i + j].0);
            }
            lemma_none_of_frequency(tail, freq);
            assert(of_frequency(tail, freq) =~= Seq::<ClusterView>::empty());
        } else {
            lemma_none_of_frequency(one, freq);
            assert(of_frequency(one, freq) =~= Seq::<ClusterView>::empty());
        }
        assert(of_frequency(r, freq) =~= of_frequency(sorted.push(c), freq));
    }
}

/// Sorting clusters keeps each of them, puts none behind a slower one, and keeps the order of
/// those of one frequency.
pub proof fn sorting_is_stable(clusters: Seq<ClusterView>)
    ensures
        descending(fastest_first(clusters)),
        fastest_first(clusters).to_multiset() == clusters.to_multiset(),
        forall|freq: u64| #[trigger]
            of_frequency(fastest_first(clusters), freq) == of_frequency(clusters, freq),
    decreases clusters.len(),
{
    if clusters.len() > 0 {
        let init = clusters.drop_last();
        let c = clusters.last();
        let sorted = fastest_first(init);
        sorting_is_stable(init);
        lemma_inserted_sorts(sorted, c);
        assert(clusters =~= init.push(c));
        vstd::seq_lib::to_multiset_build(init, c);
        assert forall|freq: u64| #[trigger] of_frequency(
            fastest_first(clusters),
            freq,
        ) == of_frequency(clusters, freq) by {
            reveal(Seq::filter);
            assert(of_frequency(sorted, freq) == of_frequency(init, freq));
            assert(of_frequency(fastest_first(clusters), freq) == of_frequency(
                sorted.push(c),
                freq,
            ));
            assert(sorted.push(c).drop_last() =~= sorted);
        }
    } else {
        assert(clusters =~= Seq::<ClusterView>::empty());
    }
}

/// The CPUs for heavy threads are those of a cluster than which none is faster, and the others
/// those of one than which none is slower.
pub proof fn extremes_are_chosen(clusters: Seq<ClusterView>, i: int)
    requires
        0 <= i < clusters.len(),
    ensures
        clusters.contains(fastest_first(clusters)[0]),
        clusters.contains(fastest_first(clusters).last()),
        fastest_first(clusters)[0].0 >= clusters[i].0 >= fastest_first(clusters).last().0,
{
    let sorted = fastest_first(clusters);
    sorting_is_stable(clusters);
    lemma_fastest_first_len(clusters);
    vstd::seq_lib::to_multiset_contains(clusters, sorted[0]);
    vstd::seq_lib::to_multiset_contains(sorted, sorted[0]);
    vstd::seq_lib::to_multiset_contains(clusters, sorted.last());
    vstd::seq_lib::to_multiset_contains(sorted, sorted.last());
    vstd::seq_lib::to_multiset_contains(clusters, clusters[i]);
    vstd::seq_lib::to_multiset_contains(sorted, clusters[i]);
    let k = choose|k: int| 0 <= k < sorted.len() && sorted[k] == clusters[i];
    assert(sorted[0].0 >= sorted[k].0);
}

proof fn lemma_numbers_of_decimals(cpus: Seq<usize>)
    ensures
        numbers(decimals(cpus)) == cpus,
        forall|i: int| 0 <= i < cpus.len() ==> !(#[trigger] decimals(cpus)[i]).contains(','),
    decreases cpus.len(),
{
    let all = decimals(cpus);
    if cpus.len() > 0 {
        let rest = cpus.skip(1);
        lemma_numbers_of_decimals(rest);
        assert(all.skip(1) =~= decimals(rest));
        let first = decimal(cpus[0] as nat);
        assert(all[0] == first);
        lemma_decimal(cpus[0] as nat);
        lemma_decimal_reads_back(cpus[0] as nat, usize::MAX as nat);
        assert(digit(first[0]) && digit(first.last()));
        lemma_trimmed_plain(first);
        assert forall|i: int| 0 <= i < cpus.len() implies !(#[trigger] all[i]).contains(',') by {
            if i > 0 {
                assert(all[i] == decimals(rest)[i - 1]);
            } else {
                assert forall|j: int| 0 <= j < first.len() implies first[j] != ',' by {
                    assert(digit(first[j]));
                }
            }
        }
        assert(numbers(all) =~= cpus);
    } else {
        assert(numbers(all) =~= cpus);
    }
}

/// The list for a cluster names exactly its CPUs, where zero does not follow on the largest number.
pub proof fn cluster_lists_name_their_cpus(cpus: Seq<usize>, cpu: usize)
    requires
        cpus.len() > 0,
        no_wrap(cpus),
    ensures
        lists_cpu(cpu_list(cpus), cpu as nat) <==> cpus.contains(cpu),
{
    let plain = joined(decimals(cpus), seq![',']);
    lemma_numbers_of_decimals(cpus);
    lemma_pieces_of_joined(decimals(cpus), ',');
    assert(listed_numbers(plain) == cpus);
    compressing_keeps_the_cpus(plain, cpu as nat);
}

/// CPU `cpu` has the frequency `freq`.
pub open spec fn runs_at(freqs: Seq<Seq<char>>, cpu: int, freq: u64) -> bool {
    0 <= cpu < freqs.len() && frequency(freqs[cpu]) == Some(freq as nat)
}

/// `clusters` has one cluster for each frequency of a CPU, with all CPUs of that frequency.
pub open spec fn partitions(clusters: Seq<ClusterView>, freqs: Seq<Seq<char>>) -> bool {
    &&& forall|i: int, j: int|
        0 <= i < j < clusters.len() ==> (#[trigger] clusters[i]).0 != (#[trigger] clusters[j]).0
    &&& forall|i: int, cpu: usize|
        0 <= i < clusters.len() ==> (#[trigger] clusters[i].1.contains(cpu) <==> runs_at(
            freqs,
            cpu as int,
            clusters[i].0,
        ))
    &&& forall|cpu: int, freq: u64| #[trigger]
        runs_at(freqs, cpu, freq) ==> exists|i: int|
            0 <= i < clusters.len() && (#[trigger] clusters[i]).0 == freq
}

proof fn lemma_partitions_position(clusters: Seq<ClusterView>, freq: u64, from: int) -> (i: int)
    requires
        0 <= from <= clusters.len(),
        forall|j: int| 0 <= j < from ==> (#[trigger] clusters[j]).0 != freq,
    ensures
        from <= i <= clusters.len(),
        forall|j: int| 0 <= j < i ==> (#[trigger] clusters[j]).0 != freq,
        i < clusters.len() ==> clusters[i].0 == freq,
    decreases clusters.len() - from,
{
    if from < clusters.len() && clusters[from].0 != freq {
        lemma_partitions_position(clusters, freq, from + 1)
    } else {
        from
    }
}

proof fn lemma_with_cpu_partitions(clusters: Seq<ClusterView>, freqs: Seq<Seq<char>>, freq: u64)
    requires
        0 < freqs.len() <= usize::MAX,
        partitions(clusters, freqs.drop_last()),
        runs_at(freqs, freqs.len() - 1, freq),
    ensures
        partitions(with_cpu(clusters, freq, (freqs.len() - 1) as usize), freqs),
{
    let init = freqs.drop_last();
    let last = freqs.len() - 1;
    let cpu = last as usize;
    let k = lemma_partitions_position(clusters, freq, 0);
    lemma_with_cpu(clusters, freq, cpu, k);
    let r = with_cpu(clusters, freq, cpu);
    assert forall|c: int, f: u64| #[trigger]
        runs_at(freqs, c, f) <==> runs_at(init, c, f) || (c == last && f == freq) by {}
    if k == clusters.len() {
        assert forall|c: int| !runs_at(init, c, freq) by {
            if runs_at(init, c, freq) {
                let i = choose|i: int| 0 <= i < clusters.len() && (#[trigger] clusters[i]).0 == freq;
            }
        }
    }
    assert forall|i: int, j: int| 0 <= i < j < r.len() implies (#[trigger] r[i]).0 != (
    #[trigger] r[j]).0 by {
        assert(clusters[i].0 != freq || i == k);
    }
    assert forall|i: int, c: usize| 0 <= i < r.len() implies (#[trigger] r[i].1.contains(c)
        <==> runs_at(freqs, c as int, r[i].0)) by {
        if i == k {
            if k < clusters.len() {
                let old_cpus = clusters[k].1;
                let new_cpus = old_cpus.push(cpu);
                assert(r[i].1 == new_cpus);
                assert(old_cpus.contains(c) <==> runs_at(init, c as int, freq));
                if old_cpus.contains(c) {
                    let m = choose|m: int| 0 <= m < old_cpus.len() && old_cpus[m] == c;
                    assert(new_cpus[m] == c);
                }
                assert(new_cpus[old_cpus.len() as int] == cpu);
                if new_cpus.contains(c) {
                    let m = choose|m: int| 0 <= m < new_cpus.len() && new_cpus[m] == c;
                    if m < old_cpus.len() {
                        assert(old_cpus[m] == c);
                    }
                }
            } else {
                assert(r[i].1 == seq![cpu]);
                assert(seq![cpu][0] == cpu);
            }
        } else {
            assert(r[i] == clusters[i]);
            assert(clusters[i].0 != freq);
            assert(clusters[i].1.contains(c) <==> runs_at(init, c as int, clusters[i].0));
        }
    }
    assert forall|c: int, f: u64| #[trigger] runs_at(freqs, c, f) implies exists|i: int|
        0 <= i < r.len() && (#[trigger] r[i]).0 == f by {
        if f == freq {
            assert(r[k].0 == f);
        } else {
            assert(runs_at(init, c, f));
            let i = choose|i: int| 0 <= i < clusters.len() && (#[trigger] clusters[i]).0 == f;
            assert(r[i].0 == f);
        }
    }
}

/// Grouping makes one cluster of each frequency, with all CPUs of that frequency and no others.
pub proof fn grouping_is_by_frequency(freqs: Seq<Seq<char>>)
    requires
        freqs.len() <= usize::MAX,
    ensures
        partitions(grouped(freqs), freqs),
    decreases freqs.len(),
{
    if freqs.len() > 0 {
        let init = freqs.drop_last();
        grouping_is_by_frequency(init);
        let last = freqs.len() - 1;
        match frequency(freqs.last()) {
            Some(f) => {
                assert(runs_at(freqs, last, f as u64));
                lemma_with_cpu_partitions(grouped(init), freqs, f as u64);
            },
            None => {
                assert forall|c: int, f: u64| #[trigger]
                    runs_at(freqs, c, f) <==> runs_at(init, c, f) by {}
            },
        }
    }
}

} // verus!
