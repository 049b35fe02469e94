//! Laws of the search for processes and of binding.

use vstd::prelude::*;

use crate::assign::ProcessView;
use crate::bind::{bindings, thread_bindings};
use crate::decimal::{decimal, signed, unsigned, lemma_decimal_reads_back};
use crate::rules::{chosen_cpus, RuleView};
use crate::scan::{
    app_status, placed, placed_process, placed_processes, process_number_of, thread_number_of,
    threads_of, uid_in, unknown_process, unknown_processes, EntryView, PlacedView,
};
use crate::text::{joined, pieces, white, word_two};

use super::decimal::{digits_are_plain, signs};
use super::packages::packages_end_at_the_first_nul;
use super::text::{
    all_white, cutting_undoes_joining, no_white, second_words, tight, trimming_keeps_what_is_inside,
};

verus! {

/// Processes are looked at from number 1000 on; what is no number is no process.
pub proof fn processes_are_looked_at_from_1000_on(name: Seq<char>, n: i32)
    ensures
        signed(name) == Some(n as int) && n >= 1000 ==> process_number_of(name) == Some(n),
        signed(name) == Some(n as int) && n < 1000 ==> process_number_of(name) is None,
        signed(name) is None ==> process_number_of(name) is None,
        signed(name) == Some(n as int) ==> thread_number_of(name) == n,
        signed(name) is None ==> thread_number_of(name) == 0,
{
}

/// The number in the name of an entry is the number of its process, and that in the name of a task
/// the number of its thread.
pub proof fn names_give_numbers(n: i32)
    requires
        n >= 1000,
    ensures
        process_number_of(decimal(n as nat)) == Some(n),
        thread_number_of(decimal(n as nat)) == n,
{
    lemma_decimal_reads_back(n as nat, i32::MAX as nat);
    digits_are_plain(n as nat, '-');
    let s = decimal(n as nat);
    assert(s[0] != '-') by {
        if s[0] == '-' {
            assert(s.contains('-'));
        }
    }
    signs(s);
}

proof fn lemma_uid_in(before: Seq<Seq<char>>, line: Seq<char>, after: Seq<Seq<char>>)
    requires
        forall|i: int| 0 <= i < before.len() ==> !"Uid:"@.is_prefix_of(#[trigger] before[i]),
        "Uid:"@.is_prefix_of(line),
    ensures
        uid_in(before + seq![line] + after) == match word_two(line) {
            Some(w) => unsigned(w, u32::MAX as nat),
            None => None,
        },
        uid_in(before) is None,
    decreases before.len(),
{
    let all = before + seq![line] + after;
    if before.len() > 0 {
        let rest = before.skip(1);
        assert(!"Uid:"@.is_prefix_of(before[0]));
        assert forall|i: int| 0 <= i < rest.len() implies !"Uid:"@.is_prefix_of(
            #[trigger] rest[i],
        ) by {
            assert(rest[i] == before[i + 1]);
        }
        lemma_uid_in(rest, line, after);
        assert(all[0] == before[0]);
        assert(all.skip(1) =~= rest + seq![line] + after);
    } else {
        assert(all[0] == line);
    }
}

/// A process is one of an app where the first line of its status that starts with `Uid:` gives a
/// number of 10000 or more as its second word, whatever stands before and behind. It is none where
/// that word is no number, and none without such a line.
pub proof fn apps_have_high_user_numbers(
    before: Seq<Seq<char>>,
    a: Seq<char>,
    uid: u32,
    rest: Seq<char>,
    after: Seq<Seq<char>>,
    line: Seq<char>,
)
    requires
        forall|i: int|
            0 <= i < before.len() ==> !"Uid:"@.is_prefix_of(#[trigger] before[i])
                && !before[i].contains('\n'),
        forall|i: int| 0 <= i < after.len() ==> !(#[trigger] after[i]).contains('\n'),
        all_white(a),
        a.len() > 0,
        !a.contains('\n'),
        rest.len() > 0 ==> white(rest[0]),
        !rest.contains('\n'),
        "Uid:"@.is_prefix_of(line),
        !line.contains('\n'),
        word_two(line) is None || unsigned(word_two(line).unwrap(), u32::MAX as nat) is None,
    ensures
        app_status(
            joined(
                before + seq!["Uid:"@ + a + decimal(uid as nat) + rest] + after,
                seq!['\n'],
            ),
        ) <==> uid >= 10000,
        !app_status(joined(before + seq![line] + after, seq!['\n'])),
        before.len() > 0 ==> !app_status(joined(before, seq!['\n'])),
{
    let d = decimal(uid as nat);
    let good = "Uid:"@ + a + d + rest;
    reveal_strlit("Uid:");
    digits_are_plain(uid as nat, '\n');
    assert("Uid:"@.is_prefix_of(good)) by {
        assert(good.subrange(0, 4) =~= "Uid:"@);
    }
    assert(no_white("Uid:"@)) by {
        assert forall|i: int| 0 <= i < "Uid:"@.len() implies !white(#[trigger] "Uid:"@[i]) by {
            if i == 0 || i == 1 {
            } else if i == 2 || i == 3 {
            }
        }
    }
    let empty = Seq::<char>::empty();
    second_words(empty, "Uid:"@, a, d, rest);
    assert(empty + "Uid:"@ + a + d + rest =~= good);
    lemma_decimal_reads_back(uid as nat, u32::MAX as nat);
    assert(!good.contains('\n')) by {
        assert forall|i: int| 0 <= i < good.len() implies good[i] != '\n' by {
            if i < 4 {
                assert(good[i] == "Uid:"@[i]);
                assert(!white("Uid:"@[i]));
            } else if i < 4 + a.len() {
                assert(good[i] == a[i - 4]);
            } else if i < 4 + a.len() + d.len() {
                assert(good[i] == d[i - 4 - a.len()]);
            } else {
                assert(good[i] == rest[i - 4 - a.len() - d.len()]);
            }
        }
    }
    lemma_lines(before, good, after);
    lemma_uid_in(before, good, after);
    lemma_lines(before, line, after);
    lemma_uid_in(before, line, after);
    if before.len() > 0 {
        cutting_undoes_joining(before, '\n', '\n', '\n');
    }
}

proof fn lemma_lines(before: Seq<Seq<char>>, line: Seq<char>, after: Seq<Seq<char>>)
    requires
        forall|i: int| 0 <= i < before.len() ==> !(#[trigger] before[i]).contains('\n'),
        forall|i: int| 0 <= i < after.len() ==> !(#[trigger] after[i]).contains('\n'),
        !line.contains('\n'),
    ensures
        pieces(joined(before + seq![line] + after, seq!['\n']), '\n', '\n') == before + seq![line]
            + after,
{
    let all = before + seq![line] + after;
    assert forall|i: int| 0 <= i < all.len() implies !(#[trigger] all[i]).contains('\n') by {
        if i < before.len() {
            assert(all[i] == before[i]);
        } else if i > before.len() {
            assert(all[i] == after[i - before.len() - 1]);
        }
    }
    cutting_undoes_joining(all, '\n', '\n', '\n');
}

/// Thread `j` has the whole name that its file holds, white space around it aside: what stands
/// within, spaces included, stays.
pub proof fn threads_have_their_whole_names(
    tasks: Seq<(Seq<char>, Seq<char>)>,
    j: int,
    a: Seq<char>,
    n: Seq<char>,
    b: Seq<char>,
)
    requires
        0 <= j < tasks.len(),
        tasks[j].1 == a + n + b,
        all_white(a),
        all_white(b),
        tight(n),
    ensures
        threads_of(tasks).len() == tasks.len(),
        threads_of(tasks)[j].0 == thread_number_of(tasks[j].0),
        threads_of(tasks)[j].1 == n,
{
    trimming_keeps_what_is_inside(a, n, b);
}

/// The command line of an entry is that of the package `pkg`: the name, alone or before a NUL.
pub open spec fn runs(cmdline: Seq<char>, pkg: Seq<char>, rest: Seq<char>) -> bool {
    !pkg.contains('\0') && (cmdline == pkg || cmdline == pkg + seq!['\0'] + rest)
}

/// An entry with a number from 1000 on that runs a package of the set and has threads is a placed
/// process of that package. Each thread has its own number, its whole name, and the CPUs that the
/// rules choose for that name.
pub proof fn watched_processes_are_placed(
    rules: Seq<RuleView>,
    s: Set<Seq<char>>,
    e: EntryView,
    pid: i32,
    pkg: Seq<char>,
    rest: Seq<char>,
    j: int,
    a: Seq<char>,
    n: Seq<char>,
    b: Seq<char>,
)
    requires
        signed(e.name) == Some(pid as int),
        pid >= 1000,
        runs(e.cmdline, pkg, rest),
        pkg.len() > 0,
        s.contains(pkg),
        0 <= j < e.tasks.len(),
        e.tasks[j].1 == a + n + b,
        all_white(a),
        all_white(b),
        tight(n),
    ensures
        placed_process(rules, s, e) is Some,
        ({
            let p = placed_process(rules, s, e).unwrap();
            &&& p.0 == pid
            &&& p.1 == pkg
            &&& p.2.len() == e.tasks.len()
            &&& p.2[j] == (thread_number_of(e.tasks[j].0), n, chosen_cpus(rules, pkg, n))
        }),
{
    packages_end_at_the_first_nul(pkg, rest);
    threads_have_their_whole_names(e.tasks, j, a, n, b);
}

/// Any other entry is no placed process.
pub proof fn other_entries_are_not_placed(
    rules: Seq<RuleView>,
    s: Set<Seq<char>>,
    e: EntryView,
    pkg: Seq<char>,
    rest: Seq<char>,
)
    requires
        runs(e.cmdline, pkg, rest),
        signed(e.name) is None || signed(e.name).unwrap() < 1000 || pkg.len() == 0 || !s.contains(pkg)
            || e.tasks.len() == 0,
    ensures
        placed_process(rules, s, e) is None,
{
    packages_end_at_the_first_nul(pkg, rest);
}

/// The entries are gone through one by one, in order.
pub proof fn placed_processes_come_one_by_one(
    rules: Seq<RuleView>,
    s: Set<Seq<char>>,
    a: Seq<EntryView>,
    b: Seq<EntryView>,
    e: EntryView,
)
    ensures
        placed_processes(rules, s, a + b) == placed_processes(rules, s, a) + placed_processes(
            rules,
            s,
            b,
        ),
        placed_processes(rules, s, seq![e]) == match placed_process(rules, s, e) {
            Some(p) => seq![p],
            None => Seq::<PlacedView>::empty(),
        },
    decreases b.len(),
{
    reveal_with_fuel(placed_processes, 2);
    assert(seq![e].drop_last() =~= Seq::<EntryView>::empty());
    assert(placed_processes(rules, s, seq![e]) =~= match placed_process(rules, s, e) {
        Some(p) => seq![p],
        None => Seq::<PlacedView>::empty(),
    });
    if b.len() == 0 {
        assert(a + b =~= a);
        assert(placed_processes(rules, s, a + b) =~= placed_processes(rules, s, a)
            + placed_processes(rules, s, b));
    } else {
        placed_processes_come_one_by_one(rules, s, a, b.drop_last(), e);
        assert((a + b).drop_last() =~= a + b.drop_last());
        assert(placed_processes(rules, s, a + b) =~= placed_processes(rules, s, a)
            + placed_processes(rules, s, b));
    }
}

/// An entry with a number from 1000 on, the status of an app and threads, that runs a package
/// outside the set with a dot and no slash in its name, is an unknown process of that package, with
/// the whole names of its threads.
pub proof fn apps_outside_the_set_are_found(
    s: Set<Seq<char>>,
    e: EntryView,
    pid: i32,
    pkg: Seq<char>,
    rest: Seq<char>,
    j: int,
    a: Seq<char>,
    n: Seq<char>,
    b: Seq<char>,
)
    requires
        signed(e.name) == Some(pid as int),
        pid >= 1000,
        e.status is Some,
        app_status(e.status.unwrap()),
        runs(e.cmdline, pkg, rest),
        pkg.contains('.'),
        !pkg.contains('/'),
        !s.contains(pkg),
        0 <= j < e.tasks.len(),
        e.tasks[j].1 == a + n + b,
        all_white(a),
        all_white(b),
        tight(n),
    ensures
        unknown_process(s, e) is Some,
        ({
            let p = unknown_process(s, e).unwrap();
            &&& p.0 == pid
            &&& p.1 == pkg
            &&& p.2.len() == e.tasks.len()
            &&& p.2[j] == (thread_number_of(e.tasks[j].0), n)
        }),
{
    packages_end_at_the_first_nul(pkg, rest);
    threads_have_their_whole_names(e.tasks, j, a, n, b);
}

/// Any other entry is no unknown process.
pub proof fn other_entries_are_not_unknown(
    s: Set<Seq<char>>,
    e: EntryView,
    pkg: Seq<char>,
    rest: Seq<char>,
)
    requires
        runs(e.cmdline, pkg, rest),
        signed(e.name) is None || signed(e.name).unwrap() < 1000 || e.status is None || !app_status(
            e.status.unwrap(),
        ) || !pkg.contains('.') || pkg.contains('/') || s.contains(pkg) || e.tasks.len() == 0,
    ensures
        unknown_process(s, e) is None,
{
    packages_end_at_the_first_nul(pkg, rest);
}

/// The entries are gone through one by one, in order.
pub proof fn unknown_processes_come_one_by_one(
    s: Set<Seq<char>>,
    a: Seq<EntryView>,
    b: Seq<EntryView>,
    e: EntryView,
)
    ensures
        unknown_processes(s, a + b) == unknown_processes(s, a) + unknown_processes(s, b),
        unknown_processes(s, seq![e]) == match unknown_process(s, e) {
            Some(p) => seq![p],
            None => Seq::<ProcessView>::empty(),
        },
    decreases b.len(),
{
    reveal_with_fuel(unknown_processes, 2);
    assert(seq![e].drop_last() =~= Seq::<EntryView>::empty());
    assert(unknown_processes(s, seq![e]) =~= match unknown_process(s, e) {
        Some(p) => seq![p],
        None => Seq::<ProcessView>::empty(),
    });
    if b.len() == 0 {
        assert(a + b =~= a);
        assert(unknown_processes(s, a + b) =~= unknown_processes(s, a) + unknown_processes(s, b));
    } else {
        unknown_processes_come_one_by_one(s, a, b.drop_last(), e);
        assert((a + b).drop_last() =~= a + b.drop_last());
        assert(unknown_processes(s, a + b) =~= unknown_processes(s, a) + unknown_processes(s, b));
    }
}

/// Each app outside the set, wherever it is listed, is among the unknown processes.
pub proof fn no_app_is_missed(s: Set<Seq<char>>, entries: Seq<EntryView>, k: int)
    requires
        0 <= k < entries.len(),
        unknown_process(s, entries[k]) is Some,
    ensures
        unknown_processes(s, entries).contains(unknown_process(s, entries[k]).unwrap()),
    decreases entries.len(),
{
    let init = entries.drop_last();
    let rest = unknown_processes(s, init);
    let all = unknown_processes(s, entries);
    let p = unknown_process(s, entries[k]).unwrap();
    if k < init.len() {
        assert(init[k] == entries[k]);
        no_app_is_missed(s, init, k);
        let i = choose|i: int| 0 <= i < rest.len() && rest[i] == p;
        assert(all[i] == p);
    } else {
        assert(all[rest.len() as int] == p);
    }
}

/// Threads are bound process by process and in order, each with CPUs to these, and those without
/// not at all.
pub proof fn threads_are_bound_one_by_one(
    a: Seq<PlacedView>,
    b: Seq<PlacedView>,
    pid: i32,
    pkg: Seq<char>,
    x: Seq<(i32, Seq<char>, Seq<char>)>,
    y: Seq<(i32, Seq<char>, Seq<char>)>,
    tid: i32,
    comm: Seq<char>,
    cpus: Seq<char>,
)
    ensures
        bindings(a + b) == bindings(a) + bindings(b),
        bindings(seq![(pid, pkg, x + y)]) == bindings(seq![(pid, pkg, x)]) + bindings(
            seq![(pid, pkg, y)],
        ),
        cpus.len() > 0 ==> bindings(seq![(pid, pkg, seq![(tid, comm, cpus)])]) == seq![(tid, cpus)],
        bindings(seq![(pid, pkg, seq![(tid, comm, Seq::empty())])]) == Seq::<
            (i32, Seq<char>),
        >::empty(),
        bindings(Seq::empty()) == Seq::<(i32, Seq<char>)>::empty(),
{
    lemma_bindings_concat(a, b);
    lemma_one_process(pid, pkg, x + y);
    lemma_one_process(pid, pkg, x);
    lemma_one_process(pid, pkg, y);
    lemma_one_process(pid, pkg, seq![(tid, comm, cpus)]);
    lemma_one_process(pid, pkg, seq![(tid, comm, Seq::empty())]);
    lemma_thread_bindings_concat(x, y);
    lemma_one_thread(tid, comm, cpus);
    lemma_one_thread(tid, comm, Seq::empty());
}

proof fn lemma_one_thread(tid: i32, comm: Seq<char>, cpus: Seq<char>)
    ensures
        thread_bindings(seq![(tid, comm, cpus)]) == if cpus.len() > 0 {
            seq![(tid, cpus)]
        } else {
            Seq::<(i32, Seq<char>)>::empty()
        },
{
    reveal_with_fuel(thread_bindings, 2);
    assert(seq![(tid, comm, cpus)].drop_last() =~= Seq::<(i32, Seq<char>, Seq<char>)>::empty());
    assert(thread_bindings(seq![(tid, comm, cpus)]) =~= if cpus.len() > 0 {
        seq![(tid, cpus)]
    } else {
        Seq::<(i32, Seq<char>)>::empty()
    });
}

proof fn lemma_one_process(pid: i32, pkg: Seq<char>, x: Seq<(i32, Seq<char>, Seq<char>)>)
    ensures
        bindings(seq![(pid, pkg, x)]) == thread_bindings(x),
{
    reveal_with_fuel(bindings, 2);
    assert(seq![(pid, pkg, x)].drop_last() =~= Seq::<PlacedView>::empty());
    assert(bindings(seq![(pid, pkg, x)]) =~= thread_bindings(x));
}

proof fn lemma_thread_bindings_concat(
    x: Seq<(i32, Seq<char>, Seq<char>)>,
    y: Seq<(i32, Seq<char>, Seq<char>)>,
)
    ensures
        thread_bindings(x + y) == thread_bindings(x) + thread_bindings(y),
    decreases y.len(),
{
    if y.len() == 0 {
        assert(x + y =~= x);
        assert(thread_bindings(x + y) =~= thread_bindings(x) + thread_bindings(y));
    } else {
        lemma_thread_bindings_concat(x, y.drop_last());
        assert((x + y).drop_last() =~= x + y.drop_last());
        assert(thread_bindings(x + y) =~= thread_bindings(x) + thread_bindings(y));
    }
}

proof fn lemma_bindings_concat(a: Seq<PlacedView>, b: Seq<PlacedView>)
    ensures
        bindings(a + b) == bindings(a) + bindings(b),
    decreases b.len(),
{
    if b.len() == 0 {
        assert(a + b =~= a);
        assert(bindings(a + b) =~= bindings(a) + bindings(b));
    } else {
        lemma_bindings_concat(a, b.drop_last());
        assert((a + b).drop_last() =~= a + b.drop_last());
        assert(bindings(a + b) =~= bindings(a) + bindings(b));
    }
}

} // verus!
