//! Where the threads of an app go that got its rules from the cache.

use vstd::prelude::*;

use crate::assign::{heavy_names, heavy_threads, ProcessView, HEAVY};
use crate::cache::{cached_packages, cached_rules, cached_rules_are_for_cached_packages, named};
use crate::cpus::compressed;
use crate::document::JsonView;
use crate::packages::{expected_load, system_package};
use crate::readback::{cached_entry_reads_back, entry_value};
use crate::rules::{
    applies, chosen_cpus, exact_patterns_match_themselves, lemma_best_exists, lemma_best_is_chosen,
    package_rule, rank, rules_for, weight, RuleView, PACKAGE_RANK,
};
use crate::scan::{unknown_processes, unknown_processes_are_unwatched, EntryView};

verus! {

/// The rules that a cached entry makes: one for the package, and one for each thread name.
pub open spec fn entry_rules_for(
    pkg: Seq<char>,
    big: Seq<char>,
    little: Seq<char>,
    names: Seq<Seq<char>>,
) -> Seq<RuleView> {
    seq![package_rule(pkg, compressed(little))] + rules_for(pkg, compressed(big), named(names))
}

/// `name` can be a pattern for one thread: it holds no wildcard, and its length fits a rank.
pub open spec fn plain_name(name: Seq<char>) -> bool {
    &&& !name.contains('*')
    &&& !name.contains('?')
    &&& vstd::utf8::encode_utf8(name).len() <= i32::MAX - 1000
}

proof fn lemma_named(names: Seq<Seq<char>>, n: Seq<char>)
    ensures
        named(names).contains(n) <==> names.contains(n) && n.len() > 0,
    decreases names.len(),
{
    reveal(Seq::filter);
    if names.len() > 0 {
        let init = names.drop_last();
        lemma_named(init, n);
        let rest = named(init);
        let all = named(names);
        if init.contains(n) {
            let i = choose|i: int| 0 <= i < init.len() && init[i] == n;
            assert(names[i] == n);
        }
        if rest.contains(n) {
            let i = choose|i: int| 0 <= i < rest.len() && rest[i] == n;
            assert(all[i] == n);
        }
        if names.last() == n && n.len() > 0 {
            assert(all.last() == n);
            assert(names[names.len() - 1] == n);
        }
        if all.contains(n) {
            let i = choose|i: int| 0 <= i < all.len() && all[i] == n;
            if i < rest.len() {
                assert(rest[i] == n);
            } else {
                assert(names[names.len() - 1] == n);
            }
        }
        if names.contains(n) && names.last() != n {
            let i = choose|i: int| 0 <= i < names.len() && names[i] == n;
            assert(init[i] == n);
        }
    }
}

proof fn lemma_plain_rank(n: Seq<char>)
    requires
        plain_name(n),
        n.len() > 0,
    ensures
        rank(n) > PACKAGE_RANK,
{
}

/// Behind rules of other packages, those of a cached entry send each thread that it names to the
/// CPUs for heavy threads, and each other thread of the package to the rest.
pub proof fn named_threads_go_to_the_fast_cpus(
    before: Seq<RuleView>,
    pkg: Seq<char>,
    big: Seq<char>,
    little: Seq<char>,
    names: Seq<Seq<char>>,
    comm: Seq<char>,
)
    requires
        forall|i: int| 0 <= i < before.len() ==> (#[trigger] before[i]).p != pkg,
        forall|i: int| 0 <= i < names.len() ==> plain_name(#[trigger] names[i]),
    ensures
        chosen_cpus(before + entry_rules_for(pkg, big, little, names), pkg, comm)
            == if names.contains(comm) && comm.len() > 0 {
            compressed(big)
        } else {
            compressed(little)
        },
{
    let kept = named(names);
    let own = entry_rules_for(pkg, big, little, names);
    let all = before + own;
    let at = before.len() as int;
    assert(all[at] == package_rule(pkg, compressed(little)));
    let k = lemma_best_exists(all, pkg, comm, at);
    lemma_best_is_chosen(all, pkg, comm, k);
    lemma_named(names, comm);
    if k < at {
        assert(all[k] == before[k]);
    }
    if names.contains(comm) && comm.len() > 0 {
        let j = choose|j: int| 0 <= j < kept.len() && kept[j] == comm;
        let i = choose|i: int| 0 <= i < names.len() && names[i] == comm;
        assert(plain_name(names[i]));
        let u = all[at + 1 + j];
        assert(u == rules_for(pkg, compressed(big), kept)[j]);
        exact_patterns_match_themselves(comm, comm);
        assert(applies(u, pkg, comm));
        lemma_plain_rank(comm);
        assert(weight(u) > PACKAGE_RANK);
        assert(k != at);
        assert(all[k] == rules_for(pkg, compressed(big), kept)[k - at - 1]);
    } else if k > at {
        let n = kept[k - at - 1];
        assert(all[k] == rules_for(pkg, compressed(big), kept)[k - at - 1]);
        assert(kept.contains(n));
        lemma_named(names, n);
        let i = choose|i: int| 0 <= i < names.len() && names[i] == n;
        assert(plain_name(names[i]));
        exact_patterns_match_themselves(n, comm);
        assert(n == comm);
    }
}

proof fn lemma_heavy_threads(threads: Seq<(i32, Seq<char>)>, n: Seq<char>)
    ensures
        heavy_threads(threads).contains(n) ==> expected_load(n) >= HEAVY && exists|j: int|
            0 <= j < threads.len() && (#[trigger] threads[j]).1 == n,
        (expected_load(n) >= HEAVY && exists|j: int|
            0 <= j < threads.len() && (#[trigger] threads[j]).1 == n) ==> heavy_threads(
            threads,
        ).contains(n),
    decreases threads.len(),
{
    if threads.len() > 0 {
        let init = threads.drop_last();
        let last = threads.len() - 1;
        lemma_heavy_threads(init, n);
        let rest = heavy_threads(init);
        let all = heavy_threads(threads);
        if all.contains(n) {
            let i = choose|i: int| 0 <= i < all.len() && all[i] == n;
            if i < rest.len() {
                assert(rest[i] == n);
                let j = choose|j: int| 0 <= j < init.len() && (#[trigger] init[j]).1 == n;
                assert(threads[j].1 == n);
            } else {
                assert(threads[last].1 == n);
            }
        }
        if expected_load(n) >= HEAVY && exists|j: int|
            0 <= j < threads.len() && (#[trigger] threads[j]).1 == n {
            let j = choose|j: int| 0 <= j < threads.len() && (#[trigger] threads[j]).1 == n;
            if j < last {
                assert(init[j].1 == n);
                let i = choose|i: int| 0 <= i < rest.len() && rest[i] == n;
                assert(all[i] == n);
            } else {
                assert(all[rest.len() as int] == n);
            }
        }
    }
}

/// Some process of `pkg` has a thread with the name `n`.
pub open spec fn has_thread(procs: Seq<ProcessView>, pkg: Seq<char>, n: Seq<char>) -> bool {
    exists|i: int, j: int|
        0 <= i < procs.len() && procs[i].1 == pkg && 0 <= j < procs[i].2.len() && (
        #[trigger] procs[i].2[j]).1 == n
}

proof fn lemma_has_thread_init(procs: Seq<ProcessView>, pkg: Seq<char>, n: Seq<char>)
    requires
        procs.len() > 0,
    ensures
        has_thread(procs, pkg, n) <==> has_thread(procs.drop_last(), pkg, n) || (procs.last().1
            == pkg && exists|j: int|
            0 <= j < procs.last().2.len() && (#[trigger] procs.last().2[j]).1 == n),
{
    let init = procs.drop_last();
    let last = procs.len() - 1;
    if has_thread(procs, pkg, n) {
        let (i, j) = choose|i: int, j: int|
            0 <= i < procs.len() && procs[i].1 == pkg && 0 <= j < procs[i].2.len() && (
            #[trigger] procs[i].2[j]).1 == n;
        if i < last {
            assert(init[i].2[j].1 == n);
        } else {
            assert(procs.last().2[j].1 == n);
        }
    }
    if has_thread(init, pkg, n) {
        let (i, j) = choose|i: int, j: int|
            0 <= i < init.len() && init[i].1 == pkg && 0 <= j < init[i].2.len() && (
            #[trigger] init[i].2[j]).1 == n;
        assert(procs[i].2[j].1 == n);
    }
    if procs.last().1 == pkg && exists|j: int|
        0 <= j < procs.last().2.len() && (#[trigger] procs.last().2[j]).1 == n {
        let j = choose|j: int|
            0 <= j < procs.last().2.len() && (#[trigger] procs.last().2[j]).1 == n;
        assert(procs[last].2[j].1 == n);
    }
}

/// The heavy names of a package are those of its threads that are expected to make much load.
pub proof fn heavy_names_are_of_heavy_threads(
    procs: Seq<ProcessView>,
    pkg: Seq<char>,
    n: Seq<char>,
)
    ensures
        heavy_names(procs, pkg).contains(n) <==> expected_load(n) >= HEAVY && has_thread(
            procs,
            pkg,
            n,
        ),
    decreases procs.len(),
{
    if procs.len() > 0 {
        let init = procs.drop_last();
        heavy_names_are_of_heavy_threads(init, pkg, n);
        lemma_has_thread_init(procs, pkg, n);
        let rest = heavy_names(init, pkg);
        let own = heavy_threads(procs.last().2);
        let all = heavy_names(procs, pkg);
        lemma_heavy_threads(procs.last().2, n);
        if procs.last().1 == pkg {
            assert(all == rest + own);
            if rest.contains(n) {
                let i = choose|i: int| 0 <= i < rest.len() && rest[i] == n;
                assert(all[i] == n);
            }
            if own.contains(n) {
                let i = choose|i: int| 0 <= i < own.len() && own[i] == n;
                assert(all[rest.len() + i] == n);
            }
            if all.contains(n) {
                let i = choose|i: int| 0 <= i < all.len() && all[i] == n;
                if i < rest.len() {
                    assert(rest[i] == n);
                } else {
                    assert(own[i - rest.len()] == n);
                }
            }
        }
    }
}

proof fn lemma_heavy_names_have_characters(n: Seq<char>)
    requires
        expected_load(n) >= HEAVY,
    ensures
        n.len() > 0,
{
    reveal_strlit("Render");
    reveal_strlit("Gfx");
    reveal_strlit("GL");
    reveal_strlit("Vulkan");
    reveal_strlit("Decode");
    reveal_strlit("Codec");
    reveal_strlit("Video");
    reveal_strlit("Audio");
    reveal_strlit("Main");
    reveal_strlit("Unity");
    reveal_strlit("Game");
}

/// An app without rules whose threads were seen, and whose entry was added to the cache, has each
/// of its threads on the fast CPUs where much load is expected of it, and else on the slow ones;
/// wildcards in thread names aside.
pub proof fn seen_threads_are_placed_by_load(
    before: Seq<RuleView>,
    entries: Seq<JsonView>,
    procs: Seq<ProcessView>,
    pkg: Seq<char>,
    big: Seq<char>,
    little: Seq<char>,
    comm: Seq<char>,
)
    requires
        !system_package(pkg),
        forall|i: int| 0 <= i < before.len() ==> (#[trigger] before[i]).p != pkg,
        !cached_packages(entries).contains(pkg),
        forall|n: Seq<char>| #[trigger] has_thread(procs, pkg, n) ==> plain_name(n),
        has_thread(procs, pkg, comm),
    ensures
        chosen_cpus(
            before + cached_rules(
                entries.push(entry_value(pkg, big, little, heavy_names(procs, pkg))),
            ),
            pkg,
            comm,
        ) == if expected_load(comm) >= HEAVY {
            compressed(big)
        } else {
            compressed(little)
        },
{
    let names = heavy_names(procs, pkg);
    let loaded = cached_rules(entries);
    let others = before + loaded;
    cached_entry_reads_back(entries, pkg, big, little, names);
    assert(before + cached_rules(entries.push(entry_value(pkg, big, little, names))) =~= others
        + entry_rules_for(pkg, big, little, names));
    assert forall|i: int| 0 <= i < others.len() implies (#[trigger] others[i]).p != pkg by {
        if i < before.len() {
            assert(others[i] == before[i]);
        } else {
            cached_rules_are_for_cached_packages(entries, i - before.len());
        }
    }
    assert forall|i: int| 0 <= i < names.len() implies plain_name(#[trigger] names[i]) by {
        assert(names.contains(names[i]));
        heavy_names_are_of_heavy_threads(procs, pkg, names[i]);
    }
    heavy_names_are_of_heavy_threads(procs, pkg, comm);
    if expected_load(comm) >= HEAVY {
        lemma_heavy_names_have_characters(comm);
    }
    named_threads_go_to_the_fast_cpus(others, pkg, big, little, names, comm);
}

/// Once the entry of an app is in the cache and the cache is loaded, the search for apps without
/// rules does not find the app again.
pub proof fn cached_apps_are_not_found_again(
    s: Set<Seq<char>>,
    items: Seq<JsonView>,
    pkg: Seq<char>,
    big: Seq<char>,
    little: Seq<char>,
    names: Seq<Seq<char>>,
    entries: Seq<EntryView>,
    i: int,
)
    requires
        !system_package(pkg),
        ({
            let known = s.union(cached_packages(items.push(entry_value(pkg, big, little, names))));
            0 <= i < unknown_processes(known, entries).len()
        }),
    ensures
        ({
            let known = s.union(cached_packages(items.push(entry_value(pkg, big, little, names))));
            unknown_processes(known, entries)[i].1 != pkg
        }),
{
    let known = s.union(cached_packages(items.push(entry_value(pkg, big, little, names))));
    cached_entry_reads_back(items, pkg, big, little, names);
    assert(known.contains(pkg));
    unknown_processes_are_unwatched(known, entries, i);
}

} // verus!
