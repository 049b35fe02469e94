//! Which threads are bound to CPUs.

use vstd::prelude::*;

use crate::scan::{placed_threads, placed_view, placed_views, Placed, PlacedView};

verus! {

/// What is known of a list of bindings: the number of a thread, and its CPUs.
pub open spec fn binding_views(v: Seq<(i32, String)>) -> Seq<(i32, Seq<char>)> {
    v.map_values(|b: (i32, String)| (b.0, b.1@))
}

/// The bindings of the threads that have CPUs.
pub open spec fn thread_bindings(
    threads: Seq<(i32, Seq<char>, Seq<char>)>,
) -> Seq<(i32, Seq<char>)>
    decreases threads.len(),
{
    if threads.len() == 0 {
        Seq::empty()
    } else {
        let rest = thread_bindings(threads.drop_last());
        let t = threads.last();
        if t.2.len() > 0 {
            rest.push((t.0, t.2))
        } else {
            rest
        }
    }
}

/// The bindings of all threads of `procs` that have CPUs, in order.
pub open spec fn bindings(procs: Seq<PlacedView>) -> Seq<(i32, Seq<char>)>
    decreases procs.len(),
{
    if procs.len() == 0 {
        Seq::empty()
    } else {
        bindings(procs.drop_last()) + thread_bindings(procs.last().2)
    }
}

/// Adds the bindings of the threads that have CPUs.
fn add_bindings(r: &mut Vec<(i32, String)>, threads: &Vec<(i32, String, String)>)
    ensures
        binding_views(final(r)@) == binding_views(old(r)@) + thread_bindings(
            placed_threads(threads@),
        ),
{
    let ghost all = placed_threads(threads@);
    let ghost start = binding_views(r@);
    let mut i: usize = 0;
    assert(start =~= start + thread_bindings(all.take(0)));
    while i < threads.len()
        invariant
            i <= threads@.len(),
            all == placed_threads(threads@),
            binding_views(r@) == start + thread_bindings(all.take(i as int)),
        decreases threads@.len() - i,
    {
        let ghost before = binding_views(r@);
        proof {
            assert(all.take(i + 1).drop_last() =~= all.take(i as int));
            assert(all.take(i + 1).last() == all[i as int]);
        }
        let cpus: &String = &threads[i].2;
        if !cpus.as_str().is_empty() {
            r.push((threads[i].0, cpus.clone()));
            assert(binding_views(r@) =~= before.push((all[i as int].0, all[i as int].2)));
        }
        assert(binding_views(r@) =~= start + thread_bindings(all.take(i + 1)));
        i += 1;
    }
    assert(all.take(i as int) =~= all);
}

/// The threads of `v` that are to be bound, each with its CPUs.
pub fn aa(v: &[Placed]) -> (r: Vec<(i32, String)>)
    ensures
        binding_views(r@) == bindings(placed_views(v@)),
{
    let ghost all = placed_views(v@);
    let mut r: Vec<(i32, String)> = Vec::new();
    let mut i: usize = 0;
    assert(binding_views(r@) =~= bindings(all.take(0)));
    while i < v.len()
        invariant
            i <= v@.len(),
            all == placed_views(v@),
            binding_views(r@) == bindings(all.take(i as int)),
        decreases v@.len() - i,
    {
        assert(all.take(i + 1).drop_last() =~= all.take(i as int));
        assert(all.take(i + 1).last() == placed_view(v@[i as int]));
        add_bindings(&mut r, &v[i].2);
        i += 1;
    }
    assert(all.take(i as int) =~= all);
    r
}

/// Tells from the outcome of a binding whether the thread is gone, so that the processes are to
/// be looked up again. `errno` is the error number after the call, and `no_such_process` the
/// one that stands for a missing thread.
pub fn thread_gone(status: i32, errno: Option<i32>, no_such_process: i32) -> (r: bool)
    ensures
        r == (status != 0 && errno == Some(no_such_process)),
        r == gone((status, errno), no_such_process),
{
    match errno {
        Some(e) => status != 0 && e == no_such_process,
        None => false,
    }
}

/// A binding found its thread gone: it failed with the error number `no_such_process`.
pub open spec fn gone(outcome: (i32, Option<i32>), no_such_process: i32) -> bool {
    outcome.0 != 0 && outcome.1 == Some(no_such_process)
}

/// Tells from the outcomes of all bindings, each a status and an error number, whether some thread
/// is gone.
pub fn some_gone(outcomes: &[(i32, Option<i32>)], no_such_process: i32) -> (r: bool)
    ensures
        r == exists|i: int| 0 <= i < outcomes@.len() && gone(#[trigger] outcomes@[i], no_such_process),
{
    let mut i: usize = 0;
    while i < outcomes.len()
        invariant
            i <= outcomes@.len(),
            forall|j: int| 0 <= j < i ==> !gone(#[trigger] outcomes@[j], no_such_process),
        decreases outcomes@.len() - i,
    {
        if thread_gone(outcomes[i].0, outcomes[i].1, no_such_process) {
            assert(gone(outcomes@[i as int], no_such_process));
            return true;
        }
        i += 1;
    }
    false
}

/// Thread `j` of process `i` has the number and the CPUs of the binding `b`.
pub open spec fn binds_thread(
    procs: Seq<PlacedView>,
    b: (i32, Seq<char>),
    i: int,
    j: int,
) -> bool {
    &&& 0 <= i < procs.len()
    &&& 0 <= j < procs[i].2.len()
    &&& b == (procs[i].2[j].0, procs[i].2[j].2)
    &&& b.1.len() > 0
}

proof fn lemma_thread_bindings(
    threads: Seq<(i32, Seq<char>, Seq<char>)>,
    k: int,
) -> (j: int)
    requires
        0 <= k < thread_bindings(threads).len(),
    ensures
        0 <= j < threads.len(),
        thread_bindings(threads)[k] == (threads[j].0, threads[j].2),
        threads[j].2.len() > 0,
    decreases threads.len(),
{
    let init = threads.drop_last();
    if k < thread_bindings(init).len() {
        lemma_thread_bindings(init, k)
    } else {
        threads.len() - 1
    }
}

/// Each binding is that of a thread, and gives it CPUs.
pub proof fn bindings_are_of_threads(procs: Seq<PlacedView>, k: int)
    requires
        0 <= k < bindings(procs).len(),
    ensures
        exists|i: int, j: int| binds_thread(procs, bindings(procs)[k], i, j),
    decreases procs.len(),
{
    let init = procs.drop_last();
    let n = bindings(init).len();
    let b = bindings(procs)[k];
    if k < n {
        bindings_are_of_threads(init, k);
        let (i, j) = choose|i: int, j: int| binds_thread(init, bindings(init)[k], i, j);
        assert(init[i] == procs[i]);
        assert(binds_thread(procs, b, i, j));
    } else {
        let j = lemma_thread_bindings(procs.last().2, k - n);
        assert(binds_thread(procs, b, procs.len() - 1, j));
    }
}

proof fn lemma_threads_are_bound(threads: Seq<(i32, Seq<char>, Seq<char>)>, j: int)
    requires
        0 <= j < threads.len(),
        threads[j].2.len() > 0,
    ensures
        thread_bindings(threads).contains((threads[j].0, threads[j].2)),
    decreases threads.len(),
{
    let init = threads.drop_last();
    let rest = thread_bindings(init);
    let all = thread_bindings(threads);
    let b = (threads[j].0, threads[j].2);
    if j < init.len() {
        lemma_threads_are_bound(init, j);
        let k = choose|k: int| 0 <= k < rest.len() && rest[k] == b;
        assert(all[k] == b);
    } else {
        assert(all[rest.len() as int] == b);
    }
}

/// Each thread that has CPUs is bound to them.
pub proof fn threads_with_cpus_are_bound(procs: Seq<PlacedView>, i: int, j: int)
    requires
        0 <= i < procs.len(),
        0 <= j < procs[i].2.len(),
        procs[i].2[j].2.len() > 0,
    ensures
        bindings(procs).contains((procs[i].2[j].0, procs[i].2[j].2)),
    decreases procs.len(),
{
    let init = procs.drop_last();
    let rest = bindings(init);
    let last = thread_bindings(procs.last().2);
    let all = bindings(procs);
    let b = (procs[i].2[j].0, procs[i].2[j].2);
    if i < init.len() {
        threads_with_cpus_are_bound(init, i, j);
        let k = choose|k: int| 0 <= k < rest.len() && rest[k] == b;
        assert(all[k] == b);
    } else {
        lemma_threads_are_bound(procs.last().2, j);
        let k = choose|k: int| 0 <= k < last.len() && last[k] == b;
        assert(all[rest.len() + k] == b);
    }
}

} // verus!
