//! Laws of documents and of the configuration.

use std::time::SystemTime;

use vstd::prelude::*;

use crate::config::{all_packages, all_rules, config_of, entry_packages, entry_rules, thread_rules};
use crate::document::{items_of, member, strings, JsonView};
use crate::rules::{rank, rules_for, RuleView};

use super::rules::rules_are_made_as_given;

verus! {

/// The value under a key is that of the first field with the key.
pub proof fn members_are_found(fields: Seq<(Seq<char>, JsonView)>, k: int)
    requires
        0 <= k < fields.len(),
        forall|j: int| 0 <= j < k ==> (#[trigger] fields[j]).0 != fields[k].0,
    ensures
        member(JsonView::Object(fields), fields[k].0) == fields[k].1,
    decreases k,
{
    if k > 0 {
        let rest = fields.skip(1);
        assert(fields[0].0 != fields[k].0);
        assert forall|j: int| 0 <= j < k - 1 implies (#[trigger] rest[j]).0 != rest[k - 1].0 by {
            assert(rest[j] == fields[j + 1]);
        }
        members_are_found(rest, k - 1);
    }
}

/// Under a key that no field has, and in what is no object, there is nothing.
pub proof fn missing_members_are_null(fields: Seq<(Seq<char>, JsonView)>, key: Seq<char>, v: JsonView)
    requires
        forall|j: int| 0 <= j < fields.len() ==> (#[trigger] fields[j]).0 != key,
        !(v is Object),
    ensures
        member(JsonView::Object(fields), key) is Null,
        member(v, key) is Null,
    decreases fields.len(),
{
    if fields.len() > 0 {
        let rest = fields.skip(1);
        assert(fields[0].0 != key);
        assert forall|j: int| 0 <= j < rest.len() implies (#[trigger] rest[j]).0 != key by {
            assert(rest[j] == fields[j + 1]);
        }
        missing_members_are_null(rest, key, v);
    }
}

/// The strings of a list are picked one by one, in order, and other values are passed over.
pub proof fn strings_are_picked(a: Seq<JsonView>, b: Seq<JsonView>, s: Seq<char>, v: JsonView)
    requires
        !(v is Text),
    ensures
        strings(a + b) == strings(a) + strings(b),
        strings(seq![JsonView::Text(s)]) == seq![s],
        strings(seq![v]) == Seq::<Seq<char>>::empty(),
        strings(Seq::empty()) == Seq::<Seq<char>>::empty(),
    decreases b.len(),
{
    reveal_with_fuel(strings, 2);
    assert(seq![JsonView::Text(s)].drop_last() =~= Seq::<JsonView>::empty());
    assert(seq![v].drop_last() =~= Seq::<JsonView>::empty());
    assert(strings(seq![JsonView::Text(s)]) =~= seq![s]);
    if b.len() == 0 {
        assert(a + b =~= a);
        assert(strings(a + b) =~= strings(a) + strings(b));
    } else {
        strings_are_picked(a, b.drop_last(), s, v);
        assert((a + b).drop_last() =~= a + b.drop_last());
        assert(strings(a + b) =~= strings(a) + strings(b));
    }
}

proof fn lemma_no_strings(a: Seq<JsonView>)
    requires
        forall|i: int| 0 <= i < a.len() ==> !((#[trigger] a[i]) is Text),
    ensures
        strings(a) == Seq::<Seq<char>>::empty(),
    decreases a.len(),
{
    if a.len() > 0 {
        assert forall|i: int| 0 <= i < a.drop_last().len() implies !((#[trigger] a.drop_last()[i]) is Text) by {
            assert(a.drop_last()[i] == a[i]);
        }
        lemma_no_strings(a.drop_last());
        assert(!(a[a.len() - 1] is Text));
    }
}

/// The first string of `names` is `p`, at position `i`.
pub open spec fn first_string(names: Seq<JsonView>, i: int, p: Seq<char>) -> bool {
    &&& 0 <= i < names.len()
    &&& names[i] == JsonView::Text(p)
    &&& forall|j: int| 0 <= j < i ==> !((#[trigger] names[j]) is Text)
}

pub proof fn lemma_first_string(names: Seq<JsonView>, i: int, p: Seq<char>)
    requires
        first_string(names, i, p),
    ensures
        strings(names).len() > 0,
        strings(names)[0] == p,
{
    let before = names.take(i);
    let after = names.skip(i + 1);
    let one = seq![JsonView::Text(p)];
    assert forall|j: int| 0 <= j < before.len() implies !((#[trigger] before[j]) is Text) by {
        assert(before[j] == names[j]);
    }
    lemma_no_strings(before);
    assert(names =~= before + one + after);
    strings_are_picked(before + one, after, p, JsonView::Null);
    strings_are_picked(before, one, p, JsonView::Null);
    assert(strings(names) =~= seq![p] + strings(after));
}

pub proof fn lemma_strings_contain(list: Seq<JsonView>, n: Seq<char>)
    ensures
        strings(list).contains(n) <==> exists|i: int|
            0 <= i < list.len() && #[trigger] list[i] == JsonView::Text(n),
    decreases list.len(),
{
    if list.len() > 0 {
        let init = list.drop_last();
        let last = list.len() - 1;
        lemma_strings_contain(init, n);
        let all = strings(list);
        let rest = strings(init);
        if rest.contains(n) {
            let k = choose|k: int| 0 <= k < rest.len() && rest[k] == n;
            assert(all[k] == n);
            let i = choose|i: int| 0 <= i < init.len() && #[trigger] init[i] == JsonView::Text(n);
            assert(list[i] == JsonView::Text(n));
        }
        if list[last] == JsonView::Text(n) {
            assert(all[rest.len() as int] == n);
        }
        if all.contains(n) && !rest.contains(n) {
            let k = choose|k: int| 0 <= k < all.len() && all[k] == n;
            if k < rest.len() {
                assert(rest[k] == n);
            }
            assert(list[last] == JsonView::Text(n));
        }
        if exists|i: int| 0 <= i < list.len() && #[trigger] list[i] == JsonView::Text(n) {
            let i = choose|i: int| 0 <= i < list.len() && #[trigger] list[i] == JsonView::Text(n);
            if i < last {
                assert(init[i] == JsonView::Text(n));
            }
        }
    }
}

/// Each string under a key of an entry's thread lists makes one rule, with the key as its CPUs,
/// character for character; lists are gone through in order, and other values are passed over.
pub proof fn thread_lists_make_rules(
    p: Seq<char>,
    a: Seq<(Seq<char>, JsonView)>,
    b: Seq<(Seq<char>, JsonView)>,
    key: Seq<char>,
    x: Seq<JsonView>,
    y: Seq<JsonView>,
    n: Seq<char>,
    v: JsonView,
    w: JsonView,
)
    requires
        !(v is Text),
        !(w is Array),
    ensures
        thread_rules(p, a + b) == thread_rules(p, a) + thread_rules(p, b),
        thread_rules(p, seq![(key, JsonView::Array(x + y))]) == thread_rules(
            p,
            seq![(key, JsonView::Array(x))],
        ) + thread_rules(p, seq![(key, JsonView::Array(y))]),
        thread_rules(p, seq![(key, JsonView::Array(seq![JsonView::Text(n)]))]) == seq![
            (RuleView { p: p, t: n, c: key, pr: rank(n) }),
        ],
        thread_rules(p, seq![(key, JsonView::Array(seq![v]))]) == Seq::<RuleView>::empty(),
        thread_rules(p, seq![(key, w)]) == Seq::<RuleView>::empty(),
        thread_rules(p, Seq::empty()) == Seq::<RuleView>::empty(),
{
    lemma_thread_rules_concat(p, a, b);
    lemma_one_list(p, key, JsonView::Array(x + y));
    lemma_one_list(p, key, JsonView::Array(x));
    lemma_one_list(p, key, JsonView::Array(y));
    lemma_one_list(p, key, JsonView::Array(seq![JsonView::Text(n)]));
    lemma_one_list(p, key, JsonView::Array(seq![v]));
    lemma_one_list(p, key, w);
    strings_are_picked(x, y, n, v);
    rules_are_made_as_given(p, key, strings(x), strings(y), n);
    assert(strings(Seq::<JsonView>::empty()) =~= Seq::<Seq<char>>::empty());
}

proof fn lemma_thread_rules_concat(
    p: Seq<char>,
    a: Seq<(Seq<char>, JsonView)>,
    b: Seq<(Seq<char>, JsonView)>,
)
    ensures
        thread_rules(p, a + b) == thread_rules(p, a) + thread_rules(p, b),
    decreases b.len(),
{
    if b.len() == 0 {
        assert(a + b =~= a);
        assert(thread_rules(p, a + b) =~= thread_rules(p, a) + thread_rules(p, b));
    } else {
        lemma_thread_rules_concat(p, a, b.drop_last());
        assert((a + b).drop_last() =~= a + b.drop_last());
        assert(thread_rules(p, a + b) =~= thread_rules(p, a) + thread_rules(p, b));
    }
}

proof fn lemma_one_list(p: Seq<char>, key: Seq<char>, v: JsonView)
    ensures
        thread_rules(p, seq![(key, v)]) == rules_for(p, key, strings(items_of(v))),
{
    reveal_with_fuel(thread_rules, 2);
    assert(seq![(key, v)].drop_last() =~= Seq::<(Seq<char>, JsonView)>::empty());
    assert(thread_rules(p, seq![(key, v)]) =~= rules_for(p, key, strings(items_of(v))));
}

/// The CPUs for threads without a rule of their own: what the entry says, and CPU zero where it
/// says nothing.
pub open spec fn other_cpus(e: JsonView) -> Seq<char> {
    match member(member(e, "cpuset"@), "other"@) {
        JsonView::Text(c) => c,
        _ => seq!['0'],
    }
}

/// The thread lists of an entry.
pub open spec fn thread_lists(e: JsonView) -> Seq<(Seq<char>, JsonView)> {
    match member(member(e, "cpuset"@), "comm"@) {
        JsonView::Object(fields) => fields,
        _ => Seq::empty(),
    }
}

/// An entry makes rules for the first package that it names: one for all its threads, and behind
/// it those of the thread lists. An entry that names none makes no rule.
pub proof fn entries_make_rules(e: JsonView, names: Seq<JsonView>, i: int, p: Seq<char>, f: JsonView)
    requires
        member(e, "packages"@) == JsonView::Array(names),
        first_string(names, i, p),
        !(member(f, "packages"@) is Array) || (forall|j: int|
            0 <= j < items_of(member(f, "packages"@)).len() ==> !((#[trigger] items_of(
                member(f, "packages"@),
            )[j]) is Text)),
    ensures
        entry_rules(e) == seq![
            (RuleView { p: p, t: Seq::empty(), c: other_cpus(e), pr: 200 }),
        ] + thread_rules(p, thread_lists(e)),
        entry_rules(f) == Seq::<RuleView>::empty(),
        entry_packages(f) == Seq::<Seq<char>>::empty(),
{
    lemma_first_string(names, i, p);
    reveal_strlit("0");
    assert("0"@ =~= seq!['0']);
    rules_are_made_as_given(p, other_cpus(e), Seq::empty(), Seq::empty(), p);
    lemma_no_strings(items_of(member(f, "packages"@)));
}

/// The rules and packages of a configuration are those of its entries, one entry after the other.
pub proof fn entries_are_read_one_by_one(
    a: Seq<JsonView>,
    b: Seq<JsonView>,
    e: JsonView,
    names: Seq<JsonView>,
    p: Seq<char>,
)
    requires
        member(e, "packages"@) == JsonView::Array(names),
    ensures
        all_rules(a + b) == all_rules(a) + all_rules(b),
        all_rules(seq![e]) == entry_rules(e),
        all_packages(a + b) == all_packages(a).union(all_packages(b)),
        all_packages(seq![e]).contains(p) <==> exists|i: int|
            0 <= i < names.len() && #[trigger] names[i] == JsonView::Text(p),
    decreases b.len(),
{
    reveal_with_fuel(all_rules, 2);
    reveal_with_fuel(all_packages, 2);
    assert(seq![e].drop_last() =~= Seq::<JsonView>::empty());
    assert(all_rules(seq![e]) =~= entry_rules(e));
    lemma_strings_contain(names, p);
    if b.len() == 0 {
        assert(a + b =~= a);
        assert(all_rules(a + b) =~= all_rules(a) + all_rules(b));
        assert(all_packages(a + b) =~= all_packages(a).union(all_packages(b)));
    } else {
        entries_are_read_one_by_one(a, b.drop_last(), e, names, p);
        assert((a + b).drop_last() =~= a + b.drop_last());
        assert(all_rules(a + b) =~= all_rules(a) + all_rules(b));
        assert(all_packages(a + b) =~= all_packages(a).union(all_packages(b)));
    }
}

/// String `j` of field `k` of the entry's thread lists is `n`, under the key `c`.
pub open spec fn lists_thread(e: JsonView, c: Seq<char>, n: Seq<char>, k: int, j: int) -> bool {
    &&& 0 <= k < thread_lists(e).len()
    &&& thread_lists(e)[k].0 == c
    &&& thread_lists(e)[k].1 is Array
    &&& 0 <= j < items_of(thread_lists(e)[k].1).len()
    &&& items_of(thread_lists(e)[k].1)[j] == JsonView::Text(n)
}

proof fn lemma_thread_rules_contain(
    p: Seq<char>,
    lists: Seq<(Seq<char>, JsonView)>,
    k: int,
    n: Seq<char>,
)
    requires
        0 <= k < lists.len(),
        strings(items_of(lists[k].1)).contains(n),
    ensures
        thread_rules(p, lists).contains((RuleView { p: p, t: n, c: lists[k].0, pr: rank(n) })),
    decreases lists.len(),
{
    let init = lists.drop_last();
    let rest = thread_rules(p, init);
    let all = thread_rules(p, lists);
    let u = RuleView { p: p, t: n, c: lists[k].0, pr: rank(n) };
    if k < init.len() {
        lemma_thread_rules_contain(p, init, k, n);
        let i = choose|i: int| 0 <= i < rest.len() && rest[i] == u;
        assert(all[i] == u);
    } else {
        let names = strings(items_of(lists[k].1));
        let i = choose|i: int| 0 <= i < names.len() && names[i] == n;
        assert(rules_for(p, lists[k].0, names)[i] == u);
        assert(all[rest.len() + i] == u);
    }
}

proof fn lemma_thread_rules_source(
    p: Seq<char>,
    lists: Seq<(Seq<char>, JsonView)>,
    i: int,
) -> (k: int)
    requires
        0 <= i < thread_rules(p, lists).len(),
    ensures
        0 <= k < lists.len(),
        thread_rules(p, lists)[i].p == p,
        thread_rules(p, lists)[i].c == lists[k].0,
        thread_rules(p, lists)[i].pr == rank(thread_rules(p, lists)[i].t),
        strings(items_of(lists[k].1)).contains(thread_rules(p, lists)[i].t),
    decreases lists.len(),
{
    let init = lists.drop_last();
    let n = thread_rules(p, init).len();
    if i < n {
        lemma_thread_rules_source(p, init, i)
    } else {
        let names = strings(items_of(lists.last().1));
        assert(names[i - n] == thread_rules(p, lists)[i].t);
        lists.len() - 1
    }
}

/// For each string under a key of the thread lists of an entry, the configuration has the rule for
/// the entry's first package with that string as its pattern and that key as its CPUs, character
/// for character.
pub proof fn listed_threads_have_their_rule(
    entries: Seq<JsonView>,
    x: int,
    names: Seq<JsonView>,
    i: int,
    p: Seq<char>,
    c: Seq<char>,
    n: Seq<char>,
    k: int,
    j: int,
)
    requires
        0 <= x < entries.len(),
        member(entries[x], "packages"@) == JsonView::Array(names),
        first_string(names, i, p),
        lists_thread(entries[x], c, n, k, j),
    ensures
        all_rules(entries).contains((RuleView { p: p, t: n, c: c, pr: rank(n) })),
    decreases entries.len(),
{
    let u = RuleView { p: p, t: n, c: c, pr: rank(n) };
    let init = entries.drop_last();
    let rest = all_rules(init);
    let all = all_rules(entries);
    if x < init.len() {
        assert(init[x] == entries[x]);
        listed_threads_have_their_rule(init, x, names, i, p, c, n, k, j);
        let m = choose|m: int| 0 <= m < rest.len() && rest[m] == u;
        assert(all[m] == u);
    } else {
        let e = entries[x];
        lemma_first_string(names, i, p);
        let list = items_of(thread_lists(e)[k].1);
        assert(list[j] == JsonView::Text(n));
        lemma_strings_contain(list, n);
        lemma_thread_rules_contain(p, thread_lists(e), k, n);
        let t = thread_rules(p, thread_lists(e));
        let m = choose|m: int| 0 <= m < t.len() && t[m] == u;
        assert(entry_rules(e)[m + 1] == u);
        assert(all[rest.len() + m + 1] == u);
    }
}

/// `u` is the rule of an entry for its whole first package.
pub open spec fn whole_rule(e: JsonView, u: RuleView) -> bool {
    &&& strings(items_of(member(e, "packages"@))).len() > 0
    &&& u == (RuleView {
        p: strings(items_of(member(e, "packages"@)))[0],
        t: Seq::empty(),
        c: other_cpus(e),
        pr: 200,
    })
}

/// `u` is the rule of an entry for string `j` of field `k` of its thread lists.
pub open spec fn thread_rule(e: JsonView, u: RuleView, k: int, j: int) -> bool {
    &&& strings(items_of(member(e, "packages"@))).len() > 0
    &&& lists_thread(e, u.c, u.t, k, j)
    &&& u.p == strings(items_of(member(e, "packages"@)))[0]
    &&& u.pr == rank(u.t)
}

/// `u` is a rule of the entry.
pub open spec fn made_by(e: JsonView, u: RuleView) -> bool {
    whole_rule(e, u) || exists|k: int, j: int| thread_rule(e, u, k, j)
}

/// Each rule of the configuration is one for the whole first package of an entry, or comes from a
/// string and its key in the thread lists of an entry.
pub proof fn rules_come_from_entries(entries: Seq<JsonView>, m: int)
    requires
        0 <= m < all_rules(entries).len(),
    ensures
        exists|x: int| 0 <= x < entries.len() && #[trigger] made_by(entries[x], all_rules(entries)[m]),
    decreases entries.len(),
{
    let init = entries.drop_last();
    let n = all_rules(init).len();
    let u = all_rules(entries)[m];
    if m < n {
        rules_come_from_entries(init, m);
        let x = choose|x: int|
            0 <= x < init.len() && #[trigger] made_by(init[x], all_rules(init)[m]);
        assert(made_by(entries[x], u));
    } else {
        let e = entries[entries.len() - 1];
        reveal_strlit("0");
        assert("0"@ =~= seq!['0']);
        if m == n {
            assert(whole_rule(e, u));
        } else {
            let p = entry_packages(e)[0];
            let k = lemma_thread_rules_source(p, thread_lists(e), m - n - 1);
            let v = thread_lists(e)[k].1;
            lemma_strings_contain(items_of(v), u.t);
            let j = choose|j: int|
                0 <= j < items_of(v).len() && #[trigger] items_of(v)[j] == JsonView::Text(u.t);
            assert(thread_rule(e, u, k, j));
        }
        assert(made_by(entries[entries.len() - 1], u));
    }
}

/// A document that is a list, or has one under `rules`, is a configuration; any other is none. Its
/// switches are what the document says under `features`, and else on for `ebpf` and off for
/// `auto-for-none`.
pub proof fn documents_hold_configurations(root: JsonView, entries: Seq<JsonView>, m: SystemTime)
    ensures
        root == JsonView::Array(entries) || (!(root is Array) && member(root, "rules"@)
            == JsonView::Array(entries)) ==> config_of(root, m) is Some && ({
            let c = config_of(root, m).unwrap();
            let ebpf = member(member(root, "features"@), "ebpf"@);
            let auto_for_none = member(member(root, "features"@), "auto-for-none"@);
            &&& c.r == all_rules(entries)
            &&& c.s == all_packages(entries)
            &&& c.m == m
            &&& ebpf == JsonView::Bool(false) <==> !c.ebpf
            &&& auto_for_none == JsonView::Bool(true) <==> c.auto_for_none
        }),
        !(root is Array) && !(member(root, "rules"@) is Array) ==> config_of(root, m) is None,
{
}

} // verus!
