//! The cache of rules that were made for apps without rules.

use vstd::prelude::*;

use crate::assign::adds_entry;
use crate::config::{add_packages, entry_other, entry_packages, entry_threads};
use crate::cpus::{compress_cpus, compressed};
use crate::document::{
    fields_of, fractions_fit, items_of, json_document, json_view, parse_document, strings, text_of,
    Json, JsonView, LongFraction,
};
use crate::notation::{
    appends, item_text, lemma_writes_no_fractions, list_text, small_fractions, writes,
};
use crate::packages::{is_system_pkg, system_package, PackageSet};
use crate::readback::{entries_are_appended, entry_item, entry_value, plain_entry};
use crate::rules::{
    add_package_rule, add_rules, package_rule, rank, rule_views, rules_for, RuleView, R,
};
use crate::text::texts;

verus! {

/// The names that are not empty.
pub open spec fn named(names: Seq<Seq<char>>) -> Seq<Seq<char>> {
    names.filter(|n: Seq<char>| n.len() > 0)
}

/// The entry is passed over: it names no package, or one of the system.
pub open spec fn passed_over(e: JsonView) -> bool {
    entry_packages(e).len() == 0 || system_package(entry_packages(e)[0])
}

/// The rules for package `p` that the thread lists of a cached entry make.
pub open spec fn cached_thread_rules(
    p: Seq<char>,
    lists: Seq<(Seq<char>, JsonView)>,
) -> Seq<RuleView>
    decreases lists.len(),
{
    if lists.len() == 0 {
        Seq::empty()
    } else {
        cached_thread_rules(p, lists.drop_last()) + rules_for(
            p,
            compressed(lists.last().0),
            named(strings(items_of(lists.last().1))),
        )
    }
}

/// The rules that a cached entry makes.
pub open spec fn cached_entry_rules(e: JsonView) -> Seq<RuleView> {
    if passed_over(e) {
        Seq::empty()
    } else {
        let p = entry_packages(e)[0];
        seq![package_rule(p, compressed(entry_other(e)))] + cached_thread_rules(p, entry_threads(e))
    }
}

/// The packages that a cached entry adds.
pub open spec fn cached_entry_packages(e: JsonView) -> Set<Seq<char>> {
    if passed_over(e) {
        Set::empty()
    } else {
        entry_packages(e).to_set()
    }
}

/// The rules that a list of cached entries makes.
pub open spec fn cached_rules(entries: Seq<JsonView>) -> Seq<RuleView>
    decreases entries.len(),
{
    if entries.len() == 0 {
        Seq::empty()
    } else {
        cached_rules(entries.drop_last()) + cached_entry_rules(entries.last())
    }
}

/// The packages that a list of cached entries adds.
pub open spec fn cached_packages(entries: Seq<JsonView>) -> Set<Seq<char>>
    decreases entries.len(),
{
    if entries.len() == 0 {
        Set::empty()
    } else {
        cached_packages(entries.drop_last()).union(cached_entry_packages(entries.last()))
    }
}

proof fn lemma_cached_thread_rules(p: Seq<char>, lists: Seq<(Seq<char>, JsonView)>, i: int)
    requires
        0 <= i < cached_thread_rules(p, lists).len(),
    ensures
        cached_thread_rules(p, lists)[i].p == p,
        cached_thread_rules(p, lists)[i].pr == rank(cached_thread_rules(p, lists)[i].t),
    decreases lists.len(),
{
    let init = cached_thread_rules(p, lists.drop_last());
    if i < init.len() {
        lemma_cached_thread_rules(p, lists.drop_last(), i);
    }
}

/// Every cached rule is for a package that the cache adds, which is none of the system, and has
/// the rank of its pattern.
pub proof fn cached_rules_are_for_cached_packages(entries: Seq<JsonView>, i: int)
    requires
        0 <= i < cached_rules(entries).len(),
    ensures
        cached_packages(entries).contains(cached_rules(entries)[i].p),
        !system_package(cached_rules(entries)[i].p),
        cached_rules(entries)[i].pr == rank(cached_rules(entries)[i].t),
    decreases entries.len(),
{
    let n = cached_rules(entries.drop_last()).len();
    let e = entries.last();
    if i < n {
        cached_rules_are_for_cached_packages(entries.drop_last(), i);
    } else {
        let pl = entry_packages(e);
        if i > n {
            lemma_cached_thread_rules(pl[0], entry_threads(e), i - n - 1);
        }
        assert(pl.to_set().contains(pl[0]));
    }
}

/// `u` is a rule for a name in one of `lists`, on the compressed CPUs of that list.
pub open spec fn from_list(lists: Seq<(Seq<char>, JsonView)>, u: RuleView, k: int) -> bool {
    &&& 0 <= k < lists.len()
    &&& u.c == compressed(lists[k].0)
    &&& strings(items_of(lists[k].1)).contains(u.t)
}

proof fn lemma_cached_thread_source(p: Seq<char>, lists: Seq<(Seq<char>, JsonView)>, i: int) -> (k:
    int)
    requires
        0 <= i < cached_thread_rules(p, lists).len(),
    ensures
        from_list(lists, cached_thread_rules(p, lists)[i], k),
        cached_thread_rules(p, lists)[i].t.len() > 0,
    decreases lists.len(),
{
    let init = lists.drop_last();
    let n = cached_thread_rules(p, init).len();
    if i < n {
        let k = lemma_cached_thread_source(p, init, i);
        assert(init[k] == lists[k]);
        k
    } else {
        let names = strings(items_of(lists.last().1));
        let kept = named(names);
        let name = kept[i - n];
        assert(cached_thread_rules(p, lists)[i].t == name);
        names.lemma_filter_contains_rev(|x: Seq<char>| x.len() > 0, name);
        names.lemma_filter_pred(|x: Seq<char>| x.len() > 0, i - n);
        lists.len() - 1
    }
}

/// An entry that is not passed over makes one rule for its whole first package, ahead of its other
/// rules. Those are for threads of that package with the names that it lists. Each rule has the
/// compressed CPUs that it is listed under.
pub proof fn cached_entries_lead_with_their_package(e: JsonView, i: int)
    requires
        !passed_over(e),
        0 <= i < cached_entry_rules(e).len(),
    ensures
        cached_entry_rules(e)[0] == package_rule(entry_packages(e)[0], compressed(entry_other(e))),
        cached_entry_rules(e)[i].p == entry_packages(e)[0],
        cached_entry_rules(e)[i].pr == rank(cached_entry_rules(e)[i].t),
        cached_entry_rules(e)[i].t.len() == 0 <==> i == 0,
        i > 0 ==> exists|k: int| from_list(entry_threads(e), cached_entry_rules(e)[i], k),
{
    let p = entry_packages(e)[0];
    if i > 0 {
        lemma_cached_thread_rules(p, entry_threads(e), i - 1);
        let k = lemma_cached_thread_source(p, entry_threads(e), i - 1);
        assert(from_list(entry_threads(e), cached_entry_rules(e)[i], k));
    }
}

/// Rule `j` of the entry `k`, which is not passed over.
pub open spec fn rule_of_entry(entries: Seq<JsonView>, u: RuleView, k: int, j: int) -> bool {
    &&& 0 <= k < entries.len()
    &&& !passed_over(entries[k])
    &&& 0 <= j < cached_entry_rules(entries[k]).len()
    &&& u == cached_entry_rules(entries[k])[j]
}

/// Each cached rule is one of an entry that is not passed over.
pub proof fn cached_rules_are_of_entries(entries: Seq<JsonView>, i: int)
    requires
        0 <= i < cached_rules(entries).len(),
    ensures
        exists|k: int, j: int| rule_of_entry(entries, cached_rules(entries)[i], k, j),
    decreases entries.len(),
{
    let init = entries.drop_last();
    let n = cached_rules(init).len();
    let u = cached_rules(entries)[i];
    if i < n {
        cached_rules_are_of_entries(init, i);
        let (k, j) = choose|k: int, j: int| rule_of_entry(init, cached_rules(init)[i], k, j);
        assert(init[k] == entries[k]);
        assert(rule_of_entry(entries, u, k, j));
    } else {
        assert(rule_of_entry(entries, u, entries.len() - 1, i - n));
    }
}

/// The rules for whole packages.
pub open spec fn package_rules(rules: Seq<RuleView>) -> Seq<RuleView> {
    rules.filter(|u: RuleView| u.t.len() == 0)
}

/// The entries that are not passed over.
pub open spec fn accepted(entries: Seq<JsonView>) -> Seq<JsonView> {
    entries.filter(|e: JsonView| !passed_over(e))
}

proof fn lemma_no_package_rules(rules: Seq<RuleView>)
    requires
        forall|i: int| 0 <= i < rules.len() ==> (#[trigger] rules[i]).t.len() > 0,
    ensures
        package_rules(rules) == Seq::<RuleView>::empty(),
    decreases rules.len(),
{
    reveal(Seq::filter);
    if rules.len() > 0 {
        lemma_no_package_rules(rules.drop_last());
    }
}

proof fn lemma_entry_package_rules(e: JsonView)
    ensures
        package_rules(cached_entry_rules(e)) == if passed_over(e) {
            Seq::empty()
        } else {
            seq![package_rule(entry_packages(e)[0], compressed(entry_other(e)))]
        },
{
    let all = cached_entry_rules(e);
    if passed_over(e) {
        lemma_no_package_rules(all);
    } else {
        let first = package_rule(entry_packages(e)[0], compressed(entry_other(e)));
        let others = cached_thread_rules(entry_packages(e)[0], entry_threads(e));
        assert forall|i: int| 0 <= i < others.len() implies (#[trigger] others[i]).t.len() > 0 by {
            let k = lemma_cached_thread_source(entry_packages(e)[0], entry_threads(e), i);
        }
        lemma_no_package_rules(others);
        let whole = |u: RuleView| u.t.len() == 0;
        Seq::filter_distributes_over_add(seq![first], others, whole);
        reveal(Seq::filter);
        assert(seq![first].drop_last() =~= Seq::<RuleView>::empty());
        assert(seq![first].filter(whole) =~= seq![first]);
        assert(package_rules(all) =~= seq![first]);
    }
}

/// The rules for whole packages are those of the accepted entries, one of each, in their order.
pub proof fn each_accepted_entry_has_one_package_rule(entries: Seq<JsonView>)
    ensures
        package_rules(cached_rules(entries)) == accepted(entries).map_values(
            |e: JsonView| package_rule(entry_packages(e)[0], compressed(entry_other(e))),
        ),
    decreases entries.len(),
{
    reveal(Seq::filter);
    let of = |e: JsonView| package_rule(entry_packages(e)[0], compressed(entry_other(e)));
    if entries.len() > 0 {
        let init = entries.drop_last();
        let e = entries.last();
        each_accepted_entry_has_one_package_rule(init);
        lemma_entry_package_rules(e);
        Seq::filter_distributes_over_add(
            cached_rules(init),
            cached_entry_rules(e),
            |u: RuleView| u.t.len() == 0,
        );
        assert(package_rules(cached_rules(entries)) =~= accepted(entries).map_values(of));
    } else {
        assert(package_rules(cached_rules(entries)) =~= accepted(entries).map_values(of));
    }
}

/// The cache adds exactly the packages that the accepted entries name.
pub proof fn cached_packages_are_those_named(entries: Seq<JsonView>, p: Seq<char>)
    ensures
        cached_packages(entries).contains(p) <==> exists|k: int|
            0 <= k < entries.len() && !passed_over(#[trigger] entries[k]) && entry_packages(
                entries[k],
            ).contains(p),
    decreases entries.len(),
{
    if entries.len() > 0 {
        let init = entries.drop_last();
        let last = entries.len() - 1;
        cached_packages_are_those_named(init, p);
        if cached_packages(init).contains(p) {
            let k = choose|k: int|
                0 <= k < init.len() && !passed_over(#[trigger] init[k]) && entry_packages(
                    init[k],
                ).contains(p);
            assert(entries[k] == init[k]);
        }
        if cached_entry_packages(entries.last()).contains(p) {
            assert(entries[last] == entries.last());
        }
        if exists|k: int|
            0 <= k < entries.len() && !passed_over(#[trigger] entries[k]) && entry_packages(
                entries[k],
            ).contains(p) {
            let k = choose|k: int|
                0 <= k < entries.len() && !passed_over(#[trigger] entries[k]) && entry_packages(
                    entries[k],
                ).contains(p);
            if k < last {
                assert(init[k] == entries[k]);
            }
        }
    }
}

/// Loading a cache a second time leaves the packages as they are, and adds its rules once more.
pub proof fn loading_again_repeats_the_rules(
    s: Set<Seq<char>>,
    r: Seq<RuleView>,
    entries: Seq<JsonView>,
)
    ensures
        ({
            let s1 = s.union(cached_packages(entries));
            let r1 = r + cached_rules(entries);
            &&& s1.union(cached_packages(entries)) == s1
            &&& r1 + cached_rules(entries) == r + cached_rules(entries) + cached_rules(entries)
        }),
{
    let s1 = s.union(cached_packages(entries));
    assert(s1.union(cached_packages(entries)) =~= s1);
}

/// Leaves out the empty names.
fn without_empty(names: &Vec<String>) -> (r: Vec<String>)
    ensures
        texts(r@) == named(texts(names@)),
{
    let ghost all = texts(names@);
    let mut r: Vec<String> = Vec::new();
    let mut i: usize = 0;
    assert(texts(r@) =~= named(all.take(0))) by {
        reveal(Seq::filter);
    }
    while i < names.len()
        invariant
            i <= names@.len(),
            all == texts(names@),
            texts(r@) == named(all.take(i as int)),
        decreases names@.len() - i,
    {
        let ghost before = texts(r@);
        proof {
            reveal(Seq::filter);
            assert(all.take(i + 1).drop_last() =~= all.take(i as int));
            assert(all.take(i + 1).last() == all[i as int]);
        }
        if !names[i].as_str().is_empty() {
            r.push(names[i].clone());
            assert(texts(r@) =~= before.push(all[i as int]));
        }
        i += 1;
    }
    assert(all.take(i as int) =~= all);
    r
}

/// Adds the rules for package `p` that the thread lists of a cached entry make.
fn add_cached_thread_rules(r: &mut Vec<R>, p: &str, e: &Json)
    ensures
        rule_views(final(r)@) == rule_views(old(r)@) + cached_thread_rules(p@, entry_threads(e@)),
{
    let ghost start = rule_views(r@);
    let ghost lists = entry_threads(e@);
    assert(start =~= start + cached_thread_rules(p@, lists.take(0)));
    if let Some(comm) = e.get_in("cpuset", "comm") {
        if let Json::Object(fields) = comm {
            let mut i: usize = 0;
            while i < fields.len()
                invariant
                    i <= fields@.len(),
                    *comm == Json::Object(*fields),
                    lists == fields_of(comm@),
                    rule_views(r@) == start + cached_thread_rules(p@, lists.take(i as int)),
                decreases fields@.len() - i,
            {
                let cpus: String = compress_cpus(fields[i].0.as_str());
                let names: Vec<String> = without_empty(&fields[i].1.list_strings());
                add_rules(r, p, cpus.as_str(), &names);
                proof {
                    let next = lists.take(i + 1);
                    assert(lists[i as int] == (fields@[i as int].0@, json_view(
                        fields@[i as int].1,
                    )));
                    assert(next.drop_last() =~= lists.take(i as int));
                    assert(next.last() == lists[i as int]);
                    assert(rule_views(r@) =~= start + cached_thread_rules(p@, next));
                }
                i += 1;
            }
            assert(lists.take(i as int) =~= lists);
            return ;
        }
    }
    assert(lists =~= lists.take(0));
}

/// Adds what the cached entries of `root` say to the packages `s` and the rules `r`, and tells
/// how many entries there are; `None`, with nothing added, where `root` is no list.
pub fn add_cached(s: &mut PackageSet, r: &mut Vec<R>, root: &Json) -> (count: Option<usize>)
    ensures
        match root@ {
            JsonView::Array(entries) => {
                &&& count == Some(entries.len() as usize)
                &&& rule_views(final(r)@) == rule_views(old(r)@) + cached_rules(entries)
                &&& final(s)@ == old(s)@.union(cached_packages(entries))
            },
            _ => count is None && final(r)@ == old(r)@ && final(s)@ == old(s)@,
        },
{
    match root {
        Json::Array(items) => {
            let ghost all = items_of(root@);
            let ghost rules = rule_views(r@);
            let ghost packages = s@;
            let mut i: usize = 0;
            assert(rule_views(r@) =~= rules + cached_rules(all.take(0)));
            assert(s@ =~= packages.union(cached_packages(all.take(0))));
            while i < items.len()
                invariant
                    i <= items@.len(),
                    *root == Json::Array(*items),
                    all == items_of(root@),
                    rule_views(r@) == rules + cached_rules(all.take(i as int)),
                    s@ == packages.union(cached_packages(all.take(i as int))),
                decreases items@.len() - i,
            {
                let e: &Json = &items[i];
                let ghost next = all.take(i + 1);
                proof {
                    assert(all[i as int] == e@);
                    assert(next.drop_last() =~= all.take(i as int));
                    assert(next.last() == e@);
                }
                let pl: Vec<String> = match e.get("packages") {
                    Some(j) => j.list_strings(),
                    None => Vec::new(),
                };
                assert(texts(pl@) =~= entry_packages(e@));
                if pl.len() > 0 {
                    assert(pl@[0]@ == entry_packages(e@)[0]);
                }
                if pl.len() > 0 && !is_system_pkg(pl[0].as_str()) {
                    let o: String = text_of(e.get_in("cpuset", "other"), "0");
                    let o_norm: String = compress_cpus(o.as_str());
                    add_packages(s, &pl);
                    add_package_rule(r, pl[0].as_str(), o_norm.as_str());
                    add_cached_thread_rules(r, pl[0].as_str(), e);
                }
                assert(rule_views(r@) =~= rules + cached_rules(next));
                assert(s@ =~= packages.union(cached_packages(next)));
                i += 1;
            }
            assert(all.take(i as int) =~= all);
            Some(items.len())
        },
        _ => None,
    }
}

/// Adds what the cache text `d` says to the packages `s` and the rules `r`, and tells how many
/// entries there are; `None`, with nothing added, where `d` is no JSON list.
///
/// Where `d` is a list with entries, whatever they hold, to which an entry was added, it is read
/// as the entries of that list and the added one behind them.
pub fn load_cache(s: &mut PackageSet, r: &mut Vec<R>, d: &str) -> (count: Option<usize>)
    requires
        small_fractions(d@),
    ensures
        match json_document(d@) {
            Some(JsonView::Array(entries)) => {
                &&& count == Some(entries.len() as usize)
                &&& rule_views(final(r)@) == rule_views(old(r)@) + cached_rules(entries)
                &&& final(s)@ == old(s)@.union(cached_packages(entries))
            },
            _ => count is None && final(r)@ == old(r)@ && final(s)@ == old(s)@,
        },
        forall|v: JsonView| #[trigger]
            writes(d@, v) ==> json_document(d@) == Some(v),
        count is Some ==> list_text(d@),
        forall|
            old_text: Seq<char>,
            pkg: Seq<char>,
            big: Seq<char>,
            little: Seq<char>,
            names: Seq<Seq<char>>,
        | #[trigger]
            adds_entry(d@, old_text, pkg, big, little, names) && plain_entry(
                pkg,
                big,
                little,
                names,
            ) && list_text(old_text) && small_fractions(old_text) ==> match json_document(old_text) {
                Some(JsonView::Array(entries)) => entries.len() > 0 ==> json_document(d@) == Some(
                    JsonView::Array(entries.push(entry_value(pkg, big, little, names))),
                ),
                _ => true,
            },
{
    proof {
        assert forall|
            old_text: Seq<char>,
            pkg: Seq<char>,
            big: Seq<char>,
            little: Seq<char>,
            names: Seq<Seq<char>>,
        | #[trigger]
            adds_entry(d@, old_text, pkg, big, little, names) && plain_entry(
                pkg,
                big,
                little,
                names,
            ) && list_text(old_text) implies appends(d@, old_text, entry_item(pkg, big, little, names))
            && item_text(
            entry_item(pkg, big, little, names),
            entry_value(pkg, big, little, names),
        ) by {
            entries_are_appended(d@, old_text, pkg, big, little, names);
        }
    }
    match parse_document(d) {
        Some(root) => add_cached(s, r, &root),
        None => None,
    }
}

/// Adds what any cache text `d` says to the packages `s` and the rules `r`, as [`load_cache`] does;
/// an error, with nothing added, where a fraction in `d` is too long to be read.
pub fn try_load_cache(s: &mut PackageSet, r: &mut Vec<R>, d: &str) -> (res: Result<
    Option<usize>,
    LongFraction,
>)
    ensures
        match res {
            Ok(count) => small_fractions(d@) && match json_document(d@) {
                Some(JsonView::Array(entries)) => {
                    &&& count == Some(entries.len() as usize)
                    &&& rule_views(final(r)@) == rule_views(old(r)@) + cached_rules(entries)
                    &&& final(s)@ == old(s)@.union(cached_packages(entries))
                    &&& list_text(d@)
                },
                _ => count is None && final(r)@ == old(r)@ && final(s)@ == old(s)@,
            },
            Err(_) => !small_fractions(d@) && final(r)@ == old(r)@ && final(s)@ == old(s)@,
        },
        forall|v: JsonView| #[trigger]
            writes(d@, v) ==> res is Ok && json_document(d@) == Some(v),
        forall|
            old_text: Seq<char>,
            pkg: Seq<char>,
            big: Seq<char>,
            little: Seq<char>,
            names: Seq<Seq<char>>,
        | #[trigger]
            adds_entry(d@, old_text, pkg, big, little, names) && plain_entry(
                pkg,
                big,
                little,
                names,
            ) && list_text(old_text) && small_fractions(old_text) ==> res is Ok
                && match json_document(old_text) {
                Some(JsonView::Array(entries)) => entries.len() > 0 ==> json_document(d@) == Some(
                    JsonView::Array(entries.push(entry_value(pkg, big, little, names))),
                ),
                _ => true,
            },
{
    proof {
        assert forall|v: JsonView| #[trigger] writes(d@, v) implies small_fractions(d@) by {
            lemma_writes_no_fractions(d@, v);
        }
        assert forall|
            old_text: Seq<char>,
            pkg: Seq<char>,
            big: Seq<char>,
            little: Seq<char>,
            names: Seq<Seq<char>>,
        | #[trigger]
            adds_entry(d@, old_text, pkg, big, little, names) && plain_entry(
                pkg,
                big,
                little,
                names,
            ) && list_text(old_text) && small_fractions(old_text) implies small_fractions(d@) by {
            entries_are_appended(d@, old_text, pkg, big, little, names);
        }
    }
    if fractions_fit(d) {
        Ok(load_cache(s, r, d))
    } else {
        Err(LongFraction)
    }
}

} // verus!
