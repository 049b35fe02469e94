//! Rules that bind the threads of an app to CPUs, and how a rule is chosen.

use vstd::prelude::*;

use crate::text::{
    first_of, lemma_first_of, lemma_first_of_bounds, texts, before_first, chars_of, ends_with,
    has_char, same_text, starts_with,
};

verus! {

/// One rule: threads of package `p` whose name matches `t` run on the CPUs `c`.
///
/// An empty `t` stands for every thread of the package. `pr` ranks rules that match the same
/// thread.
pub struct R {
    pub p: String,
    pub t: String,
    pub c: String,
    pub pr: i32,
}

/// What a rule says.
pub struct RuleView {
    pub p: Seq<char>,
    pub t: Seq<char>,
    pub c: Seq<char>,
    pub pr: i32,
}

impl View for R {
    type V = RuleView;

    open spec fn view(&self) -> RuleView {
        RuleView { p: self.p@, t: self.t@, c: self.c@, pr: self.pr }
    }
}

impl Clone for R {
    fn clone(&self) -> (r: Self)
        ensures
            r@ == self@,
    {
        R { p: self.p.clone(), t: self.t.clone(), c: self.c.clone(), pr: self.pr }
    }
}

/// What a list of rules says.
pub open spec fn rule_views(v: Seq<R>) -> Seq<RuleView> {
    v.map_values(|r: R| r@)
}

/// The rank of a rule for a whole package.
pub const PACKAGE_RANK: i32 = 200;

/// `c` is an ordinary character of a pattern.
pub open spec fn ordinary(c: char) -> bool {
    c != '*' && c != '?' && c != '[' && c != ']'
}

/// How many characters of `pat` are ordinary.
pub open spec fn ordinary_count(pat: Seq<char>) -> nat {
    pat.filter(|c: char| ordinary(c)).len()
}

/// `base` raised by a count, in the arithmetic of `i32`.
pub open spec fn raised(base: i32, count: nat) -> i32 {
    base.wrapping_add((count as usize) as i32)
}

/// The rank of a thread pattern.
pub open spec fn rank(pat: Seq<char>) -> i32 {
    if pat.len() == 0 {
        PACKAGE_RANK
    } else if !pat.contains('*') && !pat.contains('?') {
        raised(1000, vstd::utf8::encode_utf8(pat).len())
    } else if pat.contains('[') {
        raised(500, ordinary_count(pat))
    } else if pat.contains('?') {
        raised(300, ordinary_count(pat))
    } else {
        raised(100, ordinary_count(pat))
    }
}

/// The thread name `n` matches the pattern `p`: the first `*` stands for any text.
pub open spec fn matches_name(p: Seq<char>, n: Seq<char>) -> bool {
    let i = first_of(p, '*', '*');
    if p.len() == 0 {
        false
    } else if i == p.len() {
        p == n
    } else {
        p.take(i).is_prefix_of(n) && p.skip(i + 1).is_suffix_of(n.skip(i))
    }
}

/// The rule `u` is one for the thread `comm` of package `pkg`.
pub open spec fn applies(u: RuleView, pkg: Seq<char>, comm: Seq<char>) -> bool {
    u.p == pkg && (u.t.len() == 0 || matches_name(u.t, comm))
}

/// The rank that counts for `u`: rules for a whole package all have the same.
pub open spec fn weight(u: RuleView) -> i32 {
    if u.t.len() == 0 {
        PACKAGE_RANK
    } else {
        u.pr
    }
}

/// Rule `i` is the one to follow: no other weighs more, and none before it as much.
pub open spec fn is_best(
    rules: Seq<RuleView>,
    pkg: Seq<char>,
    comm: Seq<char>,
    i: int,
) -> bool {
    &&& 0 <= i < rules.len()
    &&& applies(rules[i], pkg, comm)
    &&& weight(rules[i]) >= 0
    &&& forall|j: int|
        0 <= j < rules.len() && applies(#[trigger] rules[j], pkg, comm) ==> weight(rules[j])
            <= weight(rules[i]) && (j < i ==> weight(rules[j]) < weight(rules[i]))
}

/// The CPUs for the thread `comm` of package `pkg`: those of the rule to follow, and none where
/// no rule applies.
pub open spec fn chosen_cpus(rules: Seq<RuleView>, pkg: Seq<char>, comm: Seq<char>) -> Seq<char> {
    if exists|i: int| is_best(rules, pkg, comm, i) {
        rules[choose|i: int| is_best(rules, pkg, comm, i)].c
    } else {
        Seq::empty()
    }
}

/// One rule for each of `names`, all for package `p` and the CPUs `c`.
pub open spec fn rules_for(p: Seq<char>, c: Seq<char>, names: Seq<Seq<char>>) -> Seq<RuleView> {
    names.map_values(|n: Seq<char>| RuleView { p, t: n, c, pr: rank(n) })
}

/// The rule for all threads of package `p`.
pub open spec fn package_rule(p: Seq<char>, c: Seq<char>) -> RuleView {
    RuleView { p, t: Seq::empty(), c, pr: PACKAGE_RANK }
}

/// There is at most one rule to follow.
pub proof fn lemma_best_is_unique(
    rules: Seq<RuleView>,
    pkg: Seq<char>,
    comm: Seq<char>,
    i: int,
    j: int,
)
    requires
        is_best(rules, pkg, comm, i),
        is_best(rules, pkg, comm, j),
    ensures
        i == j,
{
}

/// A rule to follow decides the CPUs.
pub proof fn lemma_best_is_chosen(rules: Seq<RuleView>, pkg: Seq<char>, comm: Seq<char>, i: int)
    requires
        is_best(rules, pkg, comm, i),
    ensures
        chosen_cpus(rules, pkg, comm) == rules[i].c,
{
    let k = choose|k: int| is_best(rules, pkg, comm, k);
    lemma_best_is_unique(rules, pkg, comm, i, k);
}

/// Where a rule with a rank that is not negative applies, there is a rule to follow.
pub proof fn lemma_best_exists(rules: Seq<RuleView>, pkg: Seq<char>, comm: Seq<char>, i: int) -> (k: int)
    requires
        0 <= i < rules.len(),
        applies(rules[i], pkg, comm),
        weight(rules[i]) >= 0,
    ensures
        is_best(rules, pkg, comm, k),
        weight(rules[k]) >= weight(rules[i]),
    decreases rules.len(),
{
    let init = rules.drop_last();
    let last = rules.len() - 1;
    assert forall|j: int| 0 <= j < last implies init[j] == rules[j] by {}
    if forall|j: int|
        0 <= j < last && applies(#[trigger] rules[j], pkg, comm) ==> weight(rules[j]) < weight(
            rules[i],
        ) || j == i {
        if i == last {
            assert(is_best(rules, pkg, comm, last));
            last
        } else if applies(rules[last], pkg, comm) && weight(rules[last]) > weight(rules[i]) {
            assert(is_best(rules, pkg, comm, last));
            last
        } else {
            assert(is_best(rules, pkg, comm, i));
            i
        }
    } else {
        let j = choose|j: int|
            0 <= j < last && applies(#[trigger] rules[j], pkg, comm) && weight(rules[j]) >= weight(
                rules[i],
            ) && j != i;
        assert(applies(init[j], pkg, comm));
        let k = lemma_best_exists(init, pkg, comm, j);
        assert(rules[k] == init[k]);
        assert forall|m: int|
            0 <= m < last && applies(#[trigger] rules[m], pkg, comm) implies weight(rules[m])
            <= weight(rules[k]) && (m < k ==> weight(rules[m]) < weight(rules[k])) by {
            assert(applies(init[m], pkg, comm));
        }
        if applies(rules[last], pkg, comm) && weight(rules[last]) > weight(rules[k]) {
            assert(is_best(rules, pkg, comm, last));
            last
        } else {
            assert(is_best(rules, pkg, comm, k));
            k
        }
    }
}

/// A pattern without `*` matches the one name that is equal to it.
pub proof fn exact_patterns_match_themselves(p: Seq<char>, n: Seq<char>)
    requires
        p.len() > 0,
        !p.contains('*'),
    ensures
        matches_name(p, n) <==> p == n,
{
    lemma_first_of_bounds(p, '*', '*');
}

/// The first `*` of a pattern stands for any text, the empty one included.
pub proof fn wildcard_stands_for_any_text(head: Seq<char>, tail: Seq<char>, n: Seq<char>)
    requires
        !head.contains('*'),
    ensures
        matches_name(head + seq!['*'] + tail, n) <==> (exists|mid: Seq<char>|
            n == #[trigger] (head + mid + tail)),
{
    let p = head + seq!['*'] + tail;
    let k = head.len() as int;
    assert forall|j: int| 0 <= j < k implies p[j] != '*' by {
        assert(p[j] == head[j]);
    }
    lemma_first_of(p, '*', '*', k);
    assert(p.take(k) =~= head);
    assert(p.skip(k + 1) =~= tail);
    if matches_name(p, n) {
        let mid = n.subrange(k, n.len() - tail.len());
        assert(n =~= head + mid + tail) by {
            assert forall|j: int| 0 <= j < n.len() implies n[j] == (head + mid + tail)[j] by {
                if j >= n.len() - tail.len() {
                    assert(n.skip(k)[j - k] == n[j]);
                }
            }
        }
    }
    if exists|mid: Seq<char>| n == #[trigger] (head + mid + tail) {
        let mid = choose|mid: Seq<char>| n == #[trigger] (head + mid + tail);
        assert(n.skip(k) =~= mid + tail);
        assert(head =~= n.take(k));
        assert(tail =~= n.skip(k).skip(mid.len() as int));
    }
}

/// A pattern that names one thread ranks above every pattern with a wildcard, as long as that has
/// at most 500 ordinary characters.
pub proof fn exact_patterns_rank_above_wildcards(p: Seq<char>, q: Seq<char>)
    requires
        p.len() > 0,
        !p.contains('*') && !p.contains('?'),
        vstd::utf8::encode_utf8(p).len() <= i32::MAX - 1000,
        q.contains('*') || q.contains('?'),
        ordinary_count(q) <= 500,
    ensures
        rank(p) > rank(q),
{
    let n = vstd::utf8::encode_utf8(p).len();
    assert(n > 0) by {
        vstd::utf8::encode_utf8_decode_utf8(p);
    }
}

/// How closely a pattern that is not empty names a thread: by `*` alone, by `?`, by brackets beside
/// a wildcard, or without wildcards.
pub open spec fn tier(pat: Seq<char>) -> int {
    if !pat.contains('*') && !pat.contains('?') {
        4
    } else if pat.contains('[') {
        3
    } else if pat.contains('?') {
        2
    } else {
        1
    }
}

proof fn lemma_ordinary_count(pat: Seq<char>)
    ensures
        ordinary_count(pat) <= pat.len(),
        pat.contains('*') || pat.contains('?') ==> ordinary_count(pat) < pat.len(),
    decreases pat.len(),
{
    reveal(Seq::filter);
    if pat.len() > 0 {
        let init = pat.drop_last();
        lemma_ordinary_count(init);
        assert forall|c: char| pat.contains(c) implies init.contains(c) || pat.last() == c by {
            let i = choose|i: int| 0 <= i < pat.len() && pat[i] == c;
            if i < init.len() {
                assert(init[i] == c);
            }
        }
    }
}

/// Patterns rank by their tiers, as long as the lower one has at most 200 characters and the length
/// of the higher one fits a rank.
pub proof fn higher_tiers_rank_higher(p: Seq<char>, q: Seq<char>)
    requires
        p.len() > 0,
        q.len() > 0,
        tier(p) > tier(q),
        q.len() <= 200,
        p.len() <= i32::MAX - 1000,
        vstd::utf8::encode_utf8(p).len() <= i32::MAX - 1000,
    ensures
        rank(p) > rank(q),
{
    lemma_ordinary_count(p);
    lemma_ordinary_count(q);
    if tier(p) == 4 {
        exact_patterns_rank_above_wildcards(p, q);
    }
}

/// A rule that does not apply to a thread changes nothing for it.
pub proof fn other_rules_change_nothing(
    rules: Seq<RuleView>,
    u: RuleView,
    pkg: Seq<char>,
    comm: Seq<char>,
)
    requires
        !applies(u, pkg, comm),
    ensures
        chosen_cpus(rules.push(u), pkg, comm) == chosen_cpus(rules, pkg, comm),
{
    let all = rules.push(u);
    if exists|i: int| is_best(rules, pkg, comm, i) {
        let i = choose|i: int| is_best(rules, pkg, comm, i);
        assert(is_best(all, pkg, comm, i));
        lemma_best_is_chosen(all, pkg, comm, i);
    } else if exists|i: int| is_best(all, pkg, comm, i) {
        let i = choose|i: int| is_best(all, pkg, comm, i);
        assert(i < rules.len());
        assert forall|j: int|
            0 <= j < rules.len() && applies(#[trigger] rules[j], pkg, comm) implies weight(rules[j])
            <= weight(rules[i]) && (j < i ==> weight(rules[j]) < weight(rules[i])) by {
            assert(applies(all[j], pkg, comm));
        }
        assert(is_best(rules, pkg, comm, i));
    }
}

/// A rule that is added last is followed where it ranks above all others that apply, and changes
/// nothing where one of them ranks as high.
pub proof fn added_rules_win_by_rank(
    rules: Seq<RuleView>,
    u: RuleView,
    pkg: Seq<char>,
    comm: Seq<char>,
)
    requires
        applies(u, pkg, comm),
        weight(u) >= 0,
    ensures
        if exists|i: int|
            0 <= i < rules.len() && applies(#[trigger] rules[i], pkg, comm) && weight(rules[i])
                >= weight(u) {
            chosen_cpus(rules.push(u), pkg, comm) == chosen_cpus(rules, pkg, comm)
        } else {
            chosen_cpus(rules.push(u), pkg, comm) == u.c
        },
{
    let all = rules.push(u);
    let last = rules.len() as int;
    if exists|i: int|
        0 <= i < rules.len() && applies(#[trigger] rules[i], pkg, comm) && weight(rules[i])
            >= weight(u) {
        let i = choose|i: int|
            0 <= i < rules.len() && applies(#[trigger] rules[i], pkg, comm) && weight(rules[i])
                >= weight(u);
        let k = lemma_best_exists(rules, pkg, comm, i);
        assert(is_best(all, pkg, comm, k));
        lemma_best_is_chosen(rules, pkg, comm, k);
        lemma_best_is_chosen(all, pkg, comm, k);
    } else {
        assert forall|j: int|
            0 <= j < all.len() && applies(#[trigger] all[j], pkg, comm) implies weight(all[j])
            <= weight(all[last]) && (j < last ==> weight(all[j]) < weight(all[last])) by {
            if j < last {
                assert(applies(rules[j], pkg, comm));
            }
        }
        assert(is_best(all, pkg, comm, last));
        lemma_best_is_chosen(all, pkg, comm, last);
    }
}

/// A rule for a whole package is a floor: each thread of the package follows some rule, and none
/// that ranks below.
pub proof fn package_rules_are_a_floor(
    rules: Seq<RuleView>,
    pkg: Seq<char>,
    comm: Seq<char>,
    i: int,
)
    requires
        0 <= i < rules.len(),
        rules[i].p == pkg,
        rules[i].t.len() == 0,
    ensures
        exists|k: int| #[trigger]
            is_best(rules, pkg, comm, k) && weight(rules[k]) >= PACKAGE_RANK && chosen_cpus(
                rules,
                pkg,
                comm,
            ) == rules[k].c,
{
    let k = lemma_best_exists(rules, pkg, comm, i);
    lemma_best_is_chosen(rules, pkg, comm, k);
}

/// Counts the ordinary characters of a pattern.
fn count_ordinary(pat: &str) -> (r: usize)
    ensures
        r == ordinary_count(pat@),
{
    let sc: Vec<char> = chars_of(pat);
    let mut n: usize = 0;
    let mut i: usize = 0;
    while i < sc.len()
        invariant
            sc@ == pat@,
            n <= i <= sc@.len(),
            n == ordinary_count(pat@.take(i as int)),
        decreases sc@.len() - i,
    {
        proof {
            reveal(Seq::filter);
            assert(pat@.take(i + 1).drop_last() =~= pat@.take(i as int));
        }
        let c: char = sc[i];
        if c != '*' && c != '?' && c != '[' && c != ']' {
            n += 1;
        }
        i += 1;
    }
    assert(pat@.take(i as int) =~= pat@);
    n
}

/// The rank of a thread pattern.
pub fn rp(pat: &str) -> (r: i32)
    ensures
        r == rank(pat@),
{
    if pat.is_empty() {
        return PACKAGE_RANK;
    }
    if !has_char(pat, '*') && !has_char(pat, '?') {
        return 1000i32.wrapping_add(pat.len() as i32);
    }
    let nw: i32 = count_ordinary(pat) as i32;
    if has_char(pat, '[') {
        500i32.wrapping_add(nw)
    } else if has_char(pat, '?') {
        300i32.wrapping_add(nw)
    } else {
        100i32.wrapping_add(nw)
    }
}

/// Tells whether the thread name `n` matches the pattern `p`.
pub fn mt(p: &str, n: &str) -> (r: bool)
    ensures
        r == matches_name(p@, n@),
{
    if p.is_empty() {
        return false;
    }
    proof {
        lemma_first_of_bounds(p@, '*', '*');
    }
    let head = before_first(p, '*');
    let pos: usize = head.unicode_len();
    let whole: usize = p.unicode_len();
    if pos == whole {
        assert(head@ =~= p@);
        return same_text(p, n);
    }
    starts_with(n, head) && ends_with(
        n.substring_char(pos, n.unicode_len()),
        p.substring_char(pos + 1, whole),
    )
}

/// The CPUs for the thread `comm` of package `pkg`; empty where no rule applies.
pub fn choose_cpus(r: &[R], pkg: &str, comm: &str) -> (c: String)
    ensures
        c@ == chosen_cpus(rule_views(r@), pkg@, comm@),
{
    let ghost rules = rule_views(r@);
    let mut bc: String = String::new();
    let mut bp: i32 = -1;
    let ghost mut best: int = 0;
    let mut i: usize = 0;
    while i < r.len()
        invariant
            i <= r@.len(),
            rules == rule_views(r@),
            bp >= -1,
            bp == -1 ==> bc@.len() == 0,
            bp >= 0 ==> 0 <= best < i && applies(rules[best], pkg@, comm@) && weight(rules[best])
                == bp && bc@ == rules[best].c,
            forall|j: int|
                0 <= j < i && applies(#[trigger] rules[j], pkg@, comm@) ==> weight(rules[j]) <= bp
                    && (bp >= 0 && j < best ==> weight(rules[j]) < bp),
        decreases r@.len() - i,
    {
        assert(rules[i as int] == r@[i as int]@);
        let u: &R = &r[i];
        if same_text(u.p.as_str(), pkg) {
            let found: bool = if u.t.as_str().is_empty() {
                PACKAGE_RANK > bp
            } else {
                mt(u.t.as_str(), comm) && u.pr > bp
            };
            if found {
                bc = u.c.clone();
                bp = if u.t.as_str().is_empty() {
                    PACKAGE_RANK
                } else {
                    u.pr
                };
                proof {
                    best = i as int;
                }
            }
        }
        i += 1;
    }
    proof {
        if bp >= 0 {
            assert(is_best(rules, pkg@, comm@, best));
            let chosen = choose|k: int| is_best(rules, pkg@, comm@, k);
            lemma_best_is_unique(rules, pkg@, comm@, chosen, best);
        } else {
            assert forall|k: int| !is_best(rules, pkg@, comm@, k) by {}
        }
    }
    bc
}

/// Adds one rule for each of `names`, all for package `p` and the CPUs `c`.
pub fn add_rules(r: &mut Vec<R>, p: &str, c: &str, names: &Vec<String>)
    ensures
        rule_views(final(r)@) == rule_views(old(r)@) + rules_for(p@, c@, texts(names@)),
{
    let ghost all = rules_for(p@, c@, texts(names@));
    let ghost start = rule_views(r@);
    let mut i: usize = 0;
    assert(rule_views(r@) =~= start + all.take(0));
    while i < names.len()
        invariant
            i <= names@.len(),
            all == rules_for(p@, c@, texts(names@)),
            rule_views(r@) == start + all.take(i as int),
        decreases names@.len() - i,
    {
        let ghost before = rule_views(r@);
        let u = R {
            p: p.to_owned(),
            t: names[i].clone(),
            c: c.to_owned(),
            pr: rp(names[i].as_str()),
        };
        assert(u@ == all[i as int]);
        r.push(u);
        proof {
            assert(rule_views(r@) =~= before.push(u@));
            assert(all.take(i + 1) =~= all.take(i as int).push(all[i as int]));
            assert(rule_views(r@) =~= start + all.take(i + 1));
        }
        i += 1;
    }
    assert(all.take(i as int) =~= all);
}

/// Adds the rule for all threads of package `p`.
pub fn add_package_rule(r: &mut Vec<R>, p: &str, c: &str)
    ensures
        rule_views(final(r)@) == rule_views(old(r)@).push(package_rule(p@, c@)),
{
    let ghost before = rule_views(r@);
    let u = R { p: p.to_owned(), t: String::new(), c: c.to_owned(), pr: PACKAGE_RANK };
    assert(u@ == package_rule(p@, c@));
    r.push(u);
    assert(rule_views(r@) =~= before.push(u@));
}

} // verus!
