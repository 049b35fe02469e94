//! Laws of the cache and of what is put into it.

use vstd::prelude::*;

use crate::assign::{cache_text, extends_list, heavy_names, heavy_threads, ProcessView};
use crate::cache::{
    cached_entry_packages, cached_entry_rules, cached_packages, cached_rules, cached_thread_rules,
    named,
};
use crate::config::entry_packages;
use crate::cpus::compressed;
use crate::document::{items_of, member, strings, JsonView};
use crate::packages::{expected_load, system_package};
use crate::rules::{rank, rules_for, RuleView};
use crate::text::{trimmed_end, trimmed_start, white};

use super::config::{
    first_string, lemma_first_string, lemma_strings_contain, other_cpus, strings_are_picked,
    thread_lists,
};
use super::rules::rules_are_made_as_given;
use super::text::{all_white, trimming_keeps_what_is_inside};

verus! {

proof fn lemma_named(a: Seq<Seq<char>>, b: Seq<Seq<char>>, n: Seq<char>)
    ensures
        named(a + b) == named(a) + named(b),
        named(seq![n]) == if n.len() > 0 {
            seq![n]
        } else {
            Seq::<Seq<char>>::empty()
        },
        named(Seq::empty()) == Seq::<Seq<char>>::empty(),
{
    Seq::filter_distributes_over_add(a, b, |x: Seq<char>| x.len() > 0);
    reveal(Seq::filter);
    assert(seq![n].drop_last() =~= Seq::<Seq<char>>::empty());
    assert(seq![n].last() == n);
    assert(named(Seq::empty()) =~= Seq::<Seq<char>>::empty());
    assert(named(seq![n].drop_last()) == Seq::<Seq<char>>::empty());
    assert(named(seq![n]) =~= if n.len() > 0 {
        seq![n]
    } else {
        Seq::<Seq<char>>::empty()
    });
}

proof fn lemma_one_list(p: Seq<char>, key: Seq<char>, v: JsonView)
    ensures
        cached_thread_rules(p, seq![(key, v)]) == rules_for(
            p,
            compressed(key),
            named(strings(items_of(v))),
        ),
{
    reveal_with_fuel(cached_thread_rules, 2);
    assert(seq![(key, v)].drop_last() =~= Seq::<(Seq<char>, JsonView)>::empty());
    assert(cached_thread_rules(p, seq![(key, v)]) =~= rules_for(
        p,
        compressed(key),
        named(strings(items_of(v))),
    ));
}

proof fn lemma_cached_thread_rules_concat(
    p: Seq<char>,
    a: Seq<(Seq<char>, JsonView)>,
    b: Seq<(Seq<char>, JsonView)>,
)
    ensures
        cached_thread_rules(p, a + b) == cached_thread_rules(p, a) + cached_thread_rules(p, b),
    decreases b.len(),
{
    if b.len() == 0 {
        assert(a + b =~= a);
        assert(cached_thread_rules(p, a + b) =~= cached_thread_rules(p, a) + cached_thread_rules(p, b));
    } else {
        lemma_cached_thread_rules_concat(p, a, b.drop_last());
        assert((a + b).drop_last() =~= a + b.drop_last());
        assert(cached_thread_rules(p, a + b) =~= cached_thread_rules(p, a) + cached_thread_rules(p, b));
    }
}

/// Each string under a key of a cached entry's thread lists makes one rule, with the compressed key
/// as its CPUs. Empty strings and other values are passed over.
pub proof fn cached_lists_make_rules(
    p: Seq<char>,
    a: Seq<(Seq<char>, JsonView)>,
    b: Seq<(Seq<char>, JsonView)>,
    key: Seq<char>,
    x: Seq<JsonView>,
    y: Seq<JsonView>,
    n: Seq<char>,
    v: JsonView,
    w: JsonView,
)
    requires
        n.len() > 0,
        !(v is Text) || v == JsonView::Text(Seq::empty()),
        !(w is Array),
    ensures
        cached_thread_rules(p, a + b) == cached_thread_rules(p, a) + cached_thread_rules(p, b),
        cached_thread_rules(p, seq![(key, JsonView::Array(x + y))]) == cached_thread_rules(
            p,
            seq![(key, JsonView::Array(x))],
        ) + cached_thread_rules(p, seq![(key, JsonView::Array(y))]),
        cached_thread_rules(p, seq![(key, JsonView::Array(seq![JsonView::Text(n)]))]) == seq![
            (RuleView { p: p, t: n, c: compressed(key), pr: rank(n) }),
        ],
        cached_thread_rules(p, seq![(key, JsonView::Array(seq![v]))]) == Seq::<RuleView>::empty(),
        cached_thread_rules(p, seq![(key, w)]) == Seq::<RuleView>::empty(),
        cached_thread_rules(p, Seq::empty()) == Seq::<RuleView>::empty(),
{
    let cpus = compressed(key);
    lemma_cached_thread_rules_concat(p, a, b);
    lemma_one_list(p, key, JsonView::Array(x + y));
    lemma_one_list(p, key, JsonView::Array(x));
    lemma_one_list(p, key, JsonView::Array(y));
    lemma_one_list(p, key, JsonView::Array(seq![JsonView::Text(n)]));
    lemma_one_list(p, key, JsonView::Array(seq![v]));
    lemma_one_list(p, key, w);
    strings_are_picked(x, y, n, JsonView::Null);
    if v is Text {
        strings_are_picked(x, y, Seq::empty(), JsonView::Null);
    } else {
        strings_are_picked(x, y, n, v);
    }
    lemma_named(strings(x), strings(y), n);
    lemma_named(strings(x), strings(y), Seq::empty());
    rules_are_made_as_given(p, cpus, named(strings(x)), named(strings(y)), n);
    assert(strings(Seq::<JsonView>::empty()) =~= Seq::<Seq<char>>::empty());
}

/// A cached entry makes rules for the first package that it names, as long as that is none of the
/// system: one for all its threads, on the compressed CPUs that it gives for them, and behind it
/// those of the thread lists. It adds all packages that it names.
pub proof fn cached_entries_make_rules(
    e: JsonView,
    names: Seq<JsonView>,
    i: int,
    p: Seq<char>,
    q: Seq<char>,
)
    requires
        member(e, "packages"@) == JsonView::Array(names),
        first_string(names, i, p),
    ensures
        !system_package(p) ==> cached_entry_rules(e) == seq![
            (RuleView { p: p, t: Seq::empty(), c: compressed(other_cpus(e)), pr: 200 }),
        ] + cached_thread_rules(p, thread_lists(e)),
        !system_package(p) ==> (cached_entry_packages(e).contains(q) <==> exists|j: int|
            0 <= j < names.len() && #[trigger] names[j] == JsonView::Text(q)),
        system_package(p) ==> cached_entry_rules(e) == Seq::<RuleView>::empty(),
        system_package(p) ==> cached_entry_packages(e) == Set::<Seq<char>>::empty(),
{
    lemma_first_string(names, i, p);
    lemma_strings_contain(names, q);
    reveal_strlit("0");
    assert("0"@ =~= seq!['0']);
    rules_are_made_as_given(p, compressed(other_cpus(e)), Seq::empty(), Seq::empty(), p);
}

/// An entry that names no package is passed over.
pub proof fn nameless_entries_make_nothing(e: JsonView)
    requires
        forall|j: int|
            0 <= j < items_of(member(e, "packages"@)).len() ==> !((#[trigger] items_of(
                member(e, "packages"@),
            )[j]) is Text),
    ensures
        cached_entry_rules(e) == Seq::<RuleView>::empty(),
        cached_entry_packages(e) == Set::<Seq<char>>::empty(),
{
    let pl = entry_packages(e);
    if pl.len() > 0 {
        assert(pl.contains(pl[0]));
        lemma_strings_contain(items_of(member(e, "packages"@)), pl[0]);
    }
}

/// The rules and packages of a cache are those of its entries, one entry after the other.
pub proof fn cached_entries_are_read_one_by_one(a: Seq<JsonView>, b: Seq<JsonView>, e: JsonView)
    ensures
        cached_rules(a + b) == cached_rules(a) + cached_rules(b),
        cached_rules(seq![e]) == cached_entry_rules(e),
        cached_packages(a + b) == cached_packages(a).union(cached_packages(b)),
        cached_packages(seq![e]) == cached_entry_packages(e),
    decreases b.len(),
{
    reveal_with_fuel(cached_rules, 2);
    reveal_with_fuel(cached_packages, 2);
    assert(seq![e].drop_last() =~= Seq::<JsonView>::empty());
    assert(cached_rules(seq![e]) =~= cached_entry_rules(e));
    assert(cached_packages(seq![e]) =~= cached_entry_packages(e));
    if b.len() == 0 {
        assert(a + b =~= a);
        assert(cached_rules(a + b) =~= cached_rules(a) + cached_rules(b));
        assert(cached_packages(a + b) =~= cached_packages(a).union(cached_packages(b)));
    } else {
        cached_entries_are_read_one_by_one(a, b.drop_last(), e);
        assert((a + b).drop_last() =~= a + b.drop_last());
        assert(cached_rules(a + b) =~= cached_rules(a) + cached_rules(b));
        assert(cached_packages(a + b) =~= cached_packages(a).union(cached_packages(b)));
    }
}

/// The heavy names of a package are those of its own threads of which a load of eight or more is
/// expected, process by process and thread by thread.
pub proof fn heavy_names_are_picked(
    a: Seq<ProcessView>,
    b: Seq<ProcessView>,
    pid: i32,
    pkg: Seq<char>,
    other: Seq<char>,
    x: Seq<(i32, Seq<char>)>,
    y: Seq<(i32, Seq<char>)>,
    tid: i32,
    n: Seq<char>,
)
    requires
        other != pkg,
    ensures
        heavy_names(a + b, pkg) == heavy_names(a, pkg) + heavy_names(b, pkg),
        heavy_names(seq![(pid, pkg, x + y)], pkg) == heavy_names(seq![(pid, pkg, x)], pkg)
            + heavy_names(seq![(pid, pkg, y)], pkg),
        expected_load(n) >= 8 ==> heavy_names(seq![(pid, pkg, seq![(tid, n)])], pkg) == seq![n],
        expected_load(n) < 8 ==> heavy_names(seq![(pid, pkg, seq![(tid, n)])], pkg) == Seq::<
            Seq<char>,
        >::empty(),
        heavy_names(seq![(pid, other, x)], pkg) == Seq::<Seq<char>>::empty(),
{
    lemma_heavy_names_concat(a, b, pkg);
    lemma_one_process(pid, pkg, x + y, pkg);
    lemma_one_process(pid, pkg, x, pkg);
    lemma_one_process(pid, pkg, y, pkg);
    lemma_one_process(pid, pkg, seq![(tid, n)], pkg);
    lemma_one_process(pid, other, x, pkg);
    lemma_heavy_threads_concat(x, y);
    reveal_with_fuel(heavy_threads, 2);
    assert(seq![(tid, n)].drop_last() =~= Seq::<(i32, Seq<char>)>::empty());
    assert(heavy_threads(seq![(tid, n)]) =~= if expected_load(n) >= 8 {
        seq![n]
    } else {
        Seq::<Seq<char>>::empty()
    });
}

proof fn lemma_one_process(pid: i32, q: Seq<char>, x: Seq<(i32, Seq<char>)>, pkg: Seq<char>)
    ensures
        heavy_names(seq![(pid, q, x)], pkg) == if q == pkg {
            heavy_threads(x)
        } else {
            Seq::<Seq<char>>::empty()
        },
{
    reveal_with_fuel(heavy_names, 2);
    assert(seq![(pid, q, x)].drop_last() =~= Seq::<ProcessView>::empty());
    assert(seq![(pid, q, x)].last() == (pid, q, x));
    assert(heavy_names(seq![(pid, q, x)], pkg) =~= if q == pkg {
        heavy_threads(x)
    } else {
        Seq::<Seq<char>>::empty()
    });
}

proof fn lemma_heavy_threads_concat(x: Seq<(i32, Seq<char>)>, y: Seq<(i32, Seq<char>)>)
    ensures
        heavy_threads(x + y) == heavy_threads(x) + heavy_threads(y),
    decreases y.len(),
{
    if y.len() == 0 {
        assert(x + y =~= x);
        assert(heavy_threads(x + y) =~= heavy_threads(x) + heavy_threads(y));
    } else {
        lemma_heavy_threads_concat(x, y.drop_last());
        assert((x + y).drop_last() =~= x + y.drop_last());
        assert(heavy_threads(x + y) =~= heavy_threads(x) + heavy_threads(y));
    }
}

proof fn lemma_heavy_names_concat(a: Seq<ProcessView>, b: Seq<ProcessView>, pkg: Seq<char>)
    ensures
        heavy_names(a + b, pkg) == heavy_names(a, pkg) + heavy_names(b, pkg),
    decreases b.len(),
{
    if b.len() == 0 {
        assert(a + b =~= a);
        assert(heavy_names(a + b, pkg) =~= heavy_names(a, pkg) + heavy_names(b, pkg));
    } else {
        lemma_heavy_names_concat(a, b.drop_last(), pkg);
        assert((a + b).drop_last() =~= a + b.drop_last());
        assert(heavy_names(a + b, pkg) =~= heavy_names(a, pkg) + heavy_names(b, pkg));
    }
}

/// Into a text in brackets, an entry goes before the closing one, behind a comma; the white space
/// before and behind that bracket goes.
pub proof fn entries_go_before_the_last_bracket(
    a: Seq<char>,
    body: Seq<char>,
    b: Seq<char>,
    c: Seq<char>,
    entry: Seq<char>,
)
    requires
        all_white(a),
        all_white(b),
        all_white(c),
        body.len() > 0 ==> !white(body.last()),
    ensures
        cache_text(a + seq!['['] + body + b + seq![']'] + c, entry) == a + seq!['['] + body + seq![
            ',',
            '\n',
        ] + entry + seq!['\n', ']'],
{
    let inner = seq!['['] + body + b + seq![']'];
    let old = a + seq!['['] + body + b + seq![']'] + c;
    assert(old =~= a + inner + c);
    assert(inner[0] == '[' && inner.last() == ']');
    trimming_keeps_what_is_inside(a, inner, c);
    assert((inner + c)[0] == '[');
    assert(seq!['['].is_prefix_of(trimmed_start(old))) by {
        assert(trimmed_start(old).subrange(0, 1) =~= seq!['[']);
    }
    let t = a + inner;
    assert(t.last() == ']');
    assert(seq![']'].is_suffix_of(trimmed_end(old))) by {
        assert(t.subrange(t.len() - 1, t.len() as int) =~= seq![']']);
    }
    let head = seq!['['] + body;
    let empty = Seq::<char>::empty();
    assert(t.drop_last() =~= a + head + b);
    assert(head[0] == '[');
    assert(head.last() == if body.len() > 0 {
        body.last()
    } else {
        '['
    });
    trimming_keeps_what_is_inside(a, head, b);
    reveal_strlit(",\n");
    reveal_strlit("\n]");
    assert(",\n"@ =~= seq![',', '\n']);
    assert("\n]"@ =~= seq!['\n', ']']);
    assert(a + head =~= a + seq!['['] + body);
}

/// What is no text in brackets is replaced by a list of the entry alone.
pub proof fn other_texts_are_replaced(old: Seq<char>, entry: Seq<char>)
    requires
        all_white(old) || trimmed_start(old)[0] != '[' || trimmed_end(old).last() != ']',
    ensures
        cache_text(old, entry) == seq!['[', '\n'] + entry + seq!['\n', ']', '\n'],
{
    reveal_strlit("[\n");
    reveal_strlit("\n]\n");
    assert("[\n"@ =~= seq!['[', '\n']);
    assert("\n]\n"@ =~= seq!['\n', ']', '\n']);
    if all_white(old) {
        let empty = Seq::<char>::empty();
        assert(all_white(empty));
        trimming_keeps_what_is_inside(old, empty, empty);
        assert(old + empty + empty =~= old);
    }
    if extends_list(old) {
        assert(trimmed_start(old).subrange(0, 1)[0] == '[');
        let t = trimmed_end(old);
        assert(t.subrange(t.len() - 1, t.len() as int)[0] == ']');
    }
}

} // verus!
