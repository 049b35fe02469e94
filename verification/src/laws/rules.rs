//! Laws of rules.

use vstd::prelude::*;

use crate::rules::{
    added_rules_win_by_rank, applies, chosen_cpus, is_best, lemma_best_is_chosen, matches_name,
    ordinary, ordinary_count, other_rules_change_nothing, package_rule, rank, rules_for, weight,
    RuleView,
};

verus! {

/// The pattern has a wildcard.
pub open spec fn wild(p: Seq<char>) -> bool {
    p.contains('*') || p.contains('?')
}

/// A pattern without wildcards ranks a thousand and one for each of its bytes; an empty one, which
/// stands for the whole package, two hundred.
pub proof fn ranks_of_names(p: Seq<char>)
    requires
        !wild(p),
        vstd::utf8::encode_utf8(p).len() <= i32::MAX - 1000,
    ensures
        p.len() > 0 ==> rank(p) == 1000 + vstd::utf8::encode_utf8(p).len(),
        p.len() == 0 ==> rank(p) == 200,
{
}

proof fn lemma_count_concat(a: Seq<char>, b: Seq<char>)
    ensures
        ordinary_count(a + b) == ordinary_count(a) + ordinary_count(b),
{
    Seq::filter_distributes_over_add(a, b, |c: char| ordinary(c));
}

proof fn lemma_count_one(c: char)
    ensures
        ordinary_count(seq![c]) == if c != '*' && c != '?' && c != '[' && c != ']' {
            1nat
        } else {
            0nat
        },
{
    reveal(Seq::filter);
    assert(seq![c].drop_last() =~= Seq::<char>::empty());
    assert(seq![c].last() == c);
    assert(Seq::<char>::empty().filter(|x: char| ordinary(x)) =~= Seq::<char>::empty());
}

proof fn lemma_count_bound(p: Seq<char>)
    ensures
        ordinary_count(p) <= p.len(),
    decreases p.len(),
{
    if p.len() > 0 {
        lemma_count_bound(p.drop_last());
        lemma_count_one(p.last());
        lemma_count_concat(p.drop_last(), seq![p.last()]);
        assert(p =~= p.drop_last() + seq![p.last()]);
    } else {
        reveal(Seq::filter);
    }
}

proof fn lemma_insert_contains(a: Seq<char>, c: char, b: Seq<char>, d: char)
    requires
        c != d,
    ensures
        (a + seq![c] + b).contains(d) <==> (a + b).contains(d),
{
    let s = a + seq![c] + b;
    let t = a + b;
    let n = a.len() as int;
    if s.contains(d) {
        let i = choose|i: int| 0 <= i < s.len() && s[i] == d;
        if i < n {
            assert(t[i] == d);
        } else {
            assert(t[i - 1] == d);
        }
    }
    if t.contains(d) {
        let i = choose|i: int| 0 <= i < t.len() && t[i] == d;
        if i < n {
            assert(s[i] == d);
        } else {
            assert(s[i + 1] == d);
        }
    }
}

/// In a pattern with wildcards, each character more that is no wildcard or bracket ranks it one
/// higher, wherever it stands.
pub proof fn each_character_counts(a: Seq<char>, c: char, b: Seq<char>)
    requires
        wild(a + b),
        c != '*' && c != '?' && c != '[' && c != ']',
        a.len() + b.len() <= i32::MAX - 1000,
    ensures
        rank(a + seq![c] + b) == rank(a + b) + 1,
{
    lemma_count_concat(a, b);
    lemma_count_concat(a + seq![c], b);
    lemma_count_concat(a, seq![c]);
    lemma_count_one(c);
    lemma_count_bound(a);
    lemma_count_bound(b);
    lemma_insert_contains(a, c, b, '*');
    lemma_insert_contains(a, c, b, '?');
    lemma_insert_contains(a, c, b, '[');
}

/// A pattern of wildcards and brackets alone ranks five hundred with an opening bracket, three
/// hundred with a question mark, and one hundred else.
pub proof fn ranks_of_bare_wildcards(p: Seq<char>)
    requires
        wild(p),
        forall|i: int|
            0 <= i < p.len() ==> (#[trigger] p[i]) == '*' || p[i] == '?' || p[i] == '[' || p[i] == ']',
    ensures
        rank(p) == if p.contains('[') {
            500
        } else if p.contains('?') {
            300
        } else {
            100i32
        },
{
    lemma_bare(p);
}

proof fn lemma_bare(p: Seq<char>)
    requires
        forall|i: int|
            0 <= i < p.len() ==> (#[trigger] p[i]) == '*' || p[i] == '?' || p[i] == '[' || p[i] == ']',
    ensures
        ordinary_count(p) == 0,
    decreases p.len(),
{
    reveal(Seq::filter);
    if p.len() > 0 {
        let q = p.drop_last();
        assert forall|i: int| 0 <= i < q.len() implies (#[trigger] q[i]) == '*' || q[i] == '?' || q[i]
            == '[' || q[i] == ']' by {
            assert(q[i] == p[i]);
        }
        lemma_bare(q);
        assert(p[p.len() - 1] == p.last());
    }
}

/// An empty pattern is no pattern for names.
pub proof fn empty_patterns_match_no_name(n: Seq<char>)
    ensures
        !matches_name(Seq::empty(), n),
{
}

/// The rule `u` counts for the thread `comm` of `pkg`.
pub open spec fn counts(u: RuleView, pkg: Seq<char>, comm: Seq<char>) -> bool {
    u.p == pkg && (u.t.len() == 0 || matches_name(u.t, comm))
}

/// How much a rule counts.
pub open spec fn standing(u: RuleView) -> int {
    if u.t.len() == 0 {
        200
    } else {
        u.pr as int
    }
}

/// Without rules a thread gets no CPUs. A rule of another package, one whose pattern does not match
/// the name of the thread, and one of a negative rank change nothing for it, wherever they come.
pub proof fn rules_for_others_change_nothing(
    rules: Seq<RuleView>,
    u: RuleView,
    pkg: Seq<char>,
    comm: Seq<char>,
)
    requires
        u.p != pkg || (u.t.len() > 0 && !matches_name(u.t, comm)) || standing(u) < 0,
    ensures
        chosen_cpus(Seq::empty(), pkg, comm) == Seq::<char>::empty(),
        chosen_cpus(rules.push(u), pkg, comm) == chosen_cpus(rules, pkg, comm),
{
    let none = Seq::<RuleView>::empty();
    assert forall|i: int| !is_best(none, pkg, comm, i) by {}
    if u.p != pkg || (u.t.len() > 0 && !matches_name(u.t, comm)) {
        other_rules_change_nothing(rules, u, pkg, comm);
    } else {
        let all = rules.push(u);
        let last = rules.len() as int;
        if exists|i: int| is_best(rules, pkg, comm, i) {
            let i = choose|i: int| is_best(rules, pkg, comm, i);
            assert forall|j: int|
                0 <= j < all.len() && applies(#[trigger] all[j], pkg, comm) implies weight(all[j])
                <= weight(all[i]) && (j < i ==> weight(all[j]) < weight(all[i])) by {
                if j < last {
                    assert(applies(rules[j], pkg, comm));
                }
            }
            assert(is_best(all, pkg, comm, i));
            lemma_best_is_chosen(all, pkg, comm, i);
            lemma_best_is_chosen(rules, pkg, comm, i);
        } else if exists|i: int| is_best(all, pkg, comm, i) {
            let i = choose|i: int| is_best(all, pkg, comm, i);
            assert(i != last);
            assert forall|j: int|
                0 <= j < rules.len() && applies(#[trigger] rules[j], pkg, comm) implies weight(
                rules[j],
            ) <= weight(rules[i]) && (j < i ==> weight(rules[j]) < weight(rules[i])) by {
                assert(applies(all[j], pkg, comm));
            }
            assert(is_best(rules, pkg, comm, i));
        }
    }
}

/// A rule that counts for a thread decides its CPUs where all that count before it stand lower, and
/// changes nothing where one of them stands as high.
pub proof fn the_highest_rule_decides(
    rules: Seq<RuleView>,
    u: RuleView,
    pkg: Seq<char>,
    comm: Seq<char>,
)
    requires
        counts(u, pkg, comm),
        standing(u) >= 0,
    ensures
        (forall|i: int|
            0 <= i < rules.len() && counts(#[trigger] rules[i], pkg, comm) ==> standing(rules[i])
                < standing(u)) ==> chosen_cpus(rules.push(u), pkg, comm) == u.c,
        (exists|i: int|
            0 <= i < rules.len() && counts(#[trigger] rules[i], pkg, comm) && standing(rules[i])
                >= standing(u)) ==> chosen_cpus(rules.push(u), pkg, comm) == chosen_cpus(
            rules,
            pkg,
            comm,
        ),
{
    added_rules_win_by_rank(rules, u, pkg, comm);
    assert forall|i: int| 0 <= i < rules.len() implies counts(#[trigger] rules[i], pkg, comm)
        == applies(rules[i], pkg, comm) && standing(rules[i]) == weight(rules[i]) by {}
    if exists|i: int|
        0 <= i < rules.len() && applies(#[trigger] rules[i], pkg, comm) && weight(rules[i]) >= weight(
            u,
        ) {
        let i = choose|i: int|
            0 <= i < rules.len() && applies(#[trigger] rules[i], pkg, comm) && weight(rules[i])
                >= weight(u);
        assert(counts(rules[i], pkg, comm));
    }
    if exists|i: int|
        0 <= i < rules.len() && counts(#[trigger] rules[i], pkg, comm) && standing(rules[i])
            >= standing(u) {
        let i = choose|i: int|
            0 <= i < rules.len() && counts(#[trigger] rules[i], pkg, comm) && standing(rules[i])
                >= standing(u);
        assert(applies(rules[i], pkg, comm));
    }
}

/// A rule for a whole package has an empty pattern and stands at two hundred. Rules for names are
/// made one by one, each with the rank of its name.
pub proof fn rules_are_made_as_given(
    p: Seq<char>,
    c: Seq<char>,
    names: Seq<Seq<char>>,
    more: Seq<Seq<char>>,
    n: Seq<char>,
)
    ensures
        package_rule(p, c).p == p,
        package_rule(p, c).t == Seq::<char>::empty(),
        package_rule(p, c).c == c,
        package_rule(p, c).pr == 200,
        rules_for(p, c, names + more) == rules_for(p, c, names) + rules_for(p, c, more),
        rules_for(p, c, seq![n]) == seq![(RuleView { p: p, t: n, c: c, pr: rank(n) })],
        rules_for(p, c, Seq::empty()) == Seq::<RuleView>::empty(),
{
    assert(rules_for(p, c, names + more) =~= rules_for(p, c, names) + rules_for(p, c, more));
    assert(rules_for(p, c, seq![n]) =~= seq![(RuleView { p: p, t: n, c: c, pr: rank(n) })]);
    assert(rules_for(p, c, Seq::empty()) =~= Seq::<RuleView>::empty());
}

} // verus!
