//! Finding processes: those of packages that have rules, and those of apps that have none.

use vstd::prelude::*;

use crate::assign::{process_view, process_views, thread_views, Process, ProcessView};
use crate::decimal::{signed, unsigned, parse_i32, parse_u32};
use crate::packages::{package_name, package_of, PackageSet};
use crate::rules::{choose_cpus, chosen_cpus, rule_views, RuleView, R};
use crate::text::{
    file_text, pieces, slices, trimmed, word_two, has_char, second_word, split, starts_with, trim,
};

verus! {

/// One entry of the process directory. `status` is `None` where it cannot be read, and what
/// else cannot be read is empty. Each task has its name and the name of its thread.
pub struct ProcEntry {
    pub name: String,
    pub status: Option<String>,
    pub cmdline: String,
    pub tasks: Vec<(String, String)>,
}

/// What is known of an entry of the process directory.
pub struct EntryView {
    pub name: Seq<char>,
    pub status: Option<Seq<char>>,
    pub cmdline: Seq<char>,
    pub tasks: Seq<(Seq<char>, Seq<char>)>,
}

/// What is known of a list of tasks.
pub open spec fn task_views(v: Seq<(String, String)>) -> Seq<(Seq<char>, Seq<char>)> {
    v.map_values(|t: (String, String)| (t.0@, t.1@))
}

impl View for ProcEntry {
    type V = EntryView;

    open spec fn view(&self) -> EntryView {
        EntryView {
            name: self.name@,
            status: file_text(self.status),
            cmdline: self.cmdline@,
            tasks: task_views(self.tasks@),
        }
    }
}

/// What is known of a list of entries.
pub open spec fn entry_views(v: Seq<ProcEntry>) -> Seq<EntryView> {
    v.map_values(|e: ProcEntry| e@)
}

/// A process with its package and its threads: number, name and CPUs of each.
pub type Placed = (i32, String, Vec<(i32, String, String)>);

/// What is known of a placed process.
pub type PlacedView = (i32, Seq<char>, Seq<(i32, Seq<char>, Seq<char>)>);

/// What is known of a list of placed threads.
pub open spec fn placed_threads(
    v: Seq<(i32, String, String)>,
) -> Seq<(i32, Seq<char>, Seq<char>)> {
    v.map_values(|t: (i32, String, String)| (t.0, t.1@, t.2@))
}

/// What is known of a placed process.
pub open spec fn placed_view(p: Placed) -> PlacedView {
    (p.0, p.1@, placed_threads(p.2@))
}

/// What is known of a list of placed processes.
pub open spec fn placed_views(v: Seq<Placed>) -> Seq<PlacedView> {
    v.map_values(|p: Placed| placed_view(p))
}

/// The lowest process number that is looked at.
pub const FIRST_PID: i32 = 1000;

/// The lowest user number of an app.
pub const FIRST_APP_UID: u32 = 10000;

/// The number of the process that an entry describes, where it is looked at.
pub open spec fn process_number_of(name: Seq<char>) -> Option<i32> {
    match signed(name) {
        Some(n) => if n >= FIRST_PID {
            Some(n as i32)
        } else {
            None
        },
        None => None,
    }
}

/// The number of a thread, and zero where its name is none.
pub open spec fn thread_number_of(name: Seq<char>) -> i32 {
    match signed(name) {
        Some(n) => n as i32,
        None => 0,
    }
}

/// A line of a status file gives the user numbers.
pub open spec fn is_uid_line(line: Seq<char>) -> bool {
    "Uid:"@.is_prefix_of(line)
}

/// The user number in the first of `lines` that gives user numbers.
pub open spec fn uid_in(lines: Seq<Seq<char>>) -> Option<nat>
    decreases lines.len(),
{
    if lines.len() == 0 {
        None
    } else if is_uid_line(lines[0]) {
        match word_two(lines[0]) {
            Some(word) => unsigned(word, u32::MAX as nat),
            None => None,
        }
    } else {
        uid_in(lines.skip(1))
    }
}

/// The status file is that of a process that an app's user runs.
pub open spec fn app_status(status: Seq<char>) -> bool {
    match uid_in(pieces(status, '\n', '\n')) {
        Some(uid) => uid >= FIRST_APP_UID,
        None => false,
    }
}

/// The command line is that of a package in `s`.
pub open spec fn watched(s: Set<Seq<char>>, cmdline: Seq<char>) -> bool {
    package_of(cmdline).len() > 0 && s.contains(package_of(cmdline))
}

/// The command line is that of an app that is not in `s`: its name has a dot and no slash.
pub open spec fn unwatched_app(s: Set<Seq<char>>, cmdline: Seq<char>) -> bool {
    let pkg = package_of(cmdline);
    pkg.len() > 0 && !pkg.contains('/') && !s.contains(pkg) && pkg.contains('.')
}

/// The threads that `tasks` describe.
pub open spec fn threads_of(tasks: Seq<(Seq<char>, Seq<char>)>) -> Seq<(i32, Seq<char>)> {
    tasks.map_values(|t: (Seq<char>, Seq<char>)| (thread_number_of(t.0), trimmed(t.1)))
}

/// `threads` of package `pkg`, each with the CPUs that `rules` give it.
pub open spec fn placed(
    rules: Seq<RuleView>,
    pkg: Seq<char>,
    threads: Seq<(i32, Seq<char>)>,
) -> Seq<(i32, Seq<char>, Seq<char>)> {
    threads.map_values(|t: (i32, Seq<char>)| (t.0, t.1, chosen_cpus(rules, pkg, t.1)))
}

/// The placed process that an entry describes, where it has threads and its package is in `s`.
pub open spec fn placed_process(
    rules: Seq<RuleView>,
    s: Set<Seq<char>>,
    e: EntryView,
) -> Option<PlacedView> {
    match process_number_of(e.name) {
        Some(pid) => if watched(s, e.cmdline) && e.tasks.len() > 0 {
            let pkg = package_of(e.cmdline);
            Some((pid, pkg, placed(rules, pkg, threads_of(e.tasks))))
        } else {
            None
        },
        None => None,
    }
}

/// The placed processes that a list of entries describes, in order.
pub open spec fn placed_processes(
    rules: Seq<RuleView>,
    s: Set<Seq<char>>,
    entries: Seq<EntryView>,
) -> Seq<PlacedView>
    decreases entries.len(),
{
    if entries.len() == 0 {
        Seq::empty()
    } else {
        let rest = placed_processes(rules, s, entries.drop_last());
        match placed_process(rules, s, entries.last()) {
            Some(p) => rest.push(p),
            None => rest,
        }
    }
}

/// The process of an app without rules that an entry describes, where it is one with threads.
pub open spec fn unknown_process(s: Set<Seq<char>>, e: EntryView) -> Option<ProcessView> {
    match (process_number_of(e.name), e.status) {
        (Some(pid), Some(status)) => if app_status(status) && unwatched_app(s, e.cmdline)
            && e.tasks.len() > 0 {
            Some((pid, package_of(e.cmdline), threads_of(e.tasks)))
        } else {
            None
        },
        _ => None,
    }
}

/// The processes of apps without rules that a list of entries describes, in order.
pub open spec fn unknown_processes(
    s: Set<Seq<char>>,
    entries: Seq<EntryView>,
) -> Seq<ProcessView>
    decreases entries.len(),
{
    if entries.len() == 0 {
        Seq::empty()
    } else {
        let rest = unknown_processes(s, entries.drop_last());
        match unknown_process(s, entries.last()) {
            Some(p) => rest.push(p),
            None => rest,
        }
    }
}

/// The number of the process that an entry of the process directory describes, where it is
/// looked at.
pub fn process_number(name: &str) -> (r: Option<i32>)
    ensures
        r == process_number_of(name@),
{
    match parse_i32(name) {
        Some(pid) => if pid >= FIRST_PID {
            Some(pid)
        } else {
            None
        },
        None => None,
    }
}

/// The number of a thread, and zero where its name is none.
fn thread_number(name: &str) -> (r: i32)
    ensures
        r == thread_number_of(name@),
{
    match parse_i32(name) {
        Some(tid) => tid,
        None => 0,
    }
}

/// Tells whether a status file is that of a process that an app's user runs.
pub fn is_app_status(status: &str) -> (r: bool)
    ensures
        r == app_status(status@),
{
    let lines: Vec<&str> = split(status, '\n', '\n');
    let ghost all = slices(lines@);
    let mut i: usize = 0;
    assert(all.skip(0) =~= all);
    while i < lines.len()
        invariant
            i <= lines@.len(),
            all == slices(lines@),
            all == pieces(status@, '\n', '\n'),
            uid_in(all) == uid_in(all.skip(i as int)),
        decreases lines@.len() - i,
    {
        let ghost rest = all.skip(i as int);
        assert(rest[0] == lines@[i as int]@);
        assert(rest.skip(1) =~= all.skip(i + 1));
        if starts_with(lines[i], "Uid:") {
            return match second_word(lines[i]) {
                Some(word) => match parse_u32(word) {
                    Some(uid) => uid >= FIRST_APP_UID,
                    None => false,
                },
                None => false,
            };
        }
        i += 1;
    }
    false
}

/// Tells whether a command line is that of a package in `s`.
pub fn is_watched(s: &PackageSet, cmdline: &str) -> (r: bool)
    ensures
        r == watched(s@, cmdline@),
{
    let pkg: String = package_name(cmdline);
    !pkg.as_str().is_empty() && s.contains(pkg.as_str())
}

/// Tells whether a command line is that of an app that is not in `s`.
pub fn is_unwatched_app(s: &PackageSet, cmdline: &str) -> (r: bool)
    ensures
        r == unwatched_app(s@, cmdline@),
{
    let pkg: String = package_name(cmdline);
    !pkg.as_str().is_empty() && !has_char(pkg.as_str(), '/') && !s.contains(pkg.as_str())
        && has_char(pkg.as_str(), '.')
}

/// The threads that `tasks` describe.
fn read_threads(tasks: &Vec<(String, String)>) -> (r: Vec<(i32, String)>)
    ensures
        thread_views(r@) == threads_of(task_views(tasks@)),
{
    let ghost all = threads_of(task_views(tasks@));
    let mut r: Vec<(i32, String)> = Vec::new();
    let mut i: usize = 0;
    while i < tasks.len()
        invariant
            i <= tasks@.len(),
            all == threads_of(task_views(tasks@)),
            thread_views(r@) == all.take(i as int),
        decreases tasks@.len() - i,
    {
        let ghost before = thread_views(r@);
        let tid: i32 = thread_number(tasks[i].0.as_str());
        let comm: String = trim(tasks[i].1.as_str()).to_owned();
        assert(task_views(tasks@)[i as int] == (tasks@[i as int].0@, tasks@[i as int].1@));
        assert((tid, comm@) == all[i as int]);
        r.push((tid, comm));
        assert(thread_views(r@) =~= before.push(all[i as int]));
        assert(all.take(i + 1) =~= before.push(all[i as int]));
        i += 1;
    }
    assert(all.take(i as int) =~= all);
    r
}

/// `threads` of package `pkg`, each with the CPUs that `rules` give it.
fn place_threads(rules: &[R], pkg: &str, threads: &Vec<(i32, String)>) -> (r: Vec<
    (i32, String, String),
>)
    ensures
        placed_threads(r@) == placed(rule_views(rules@), pkg@, thread_views(threads@)),
{
    let ghost all = placed(rule_views(rules@), pkg@, thread_views(threads@));
    let mut r: Vec<(i32, String, String)> = Vec::new();
    let mut i: usize = 0;
    while i < threads.len()
        invariant
            i <= threads@.len(),
            all == placed(rule_views(rules@), pkg@, thread_views(threads@)),
            placed_threads(r@) == all.take(i as int),
        decreases threads@.len() - i,
    {
        let ghost before = placed_threads(r@);
        let tid: i32 = threads[i].0;
        let comm: String = threads[i].1.clone();
        let cpus: String = choose_cpus(rules, pkg, comm.as_str());
        assert(thread_views(threads@)[i as int] == (tid, comm@));
        assert((tid, comm@, cpus@) == all[i as int]);
        r.push((tid, comm, cpus));
        assert(placed_threads(r@) =~= before.push(all[i as int]));
        assert(all.take(i + 1) =~= before.push(all[i as int]));
        i += 1;
    }
    assert(all.take(i as int) =~= all);
    r
}

/// The placed process that an entry describes.
fn place_process(rules: &[R], s: &PackageSet, e: &ProcEntry) -> (r: Option<Placed>)
    ensures
        match r {
            Some(p) => placed_process(rule_views(rules@), s@, e@) == Some(placed_view(p)),
            None => placed_process(rule_views(rules@), s@, e@) is None,
        },
{
    let pid: i32 = match process_number(e.name.as_str()) {
        Some(pid) => pid,
        None => {
            return None;
        },
    };
    if !is_watched(s, e.cmdline.as_str()) {
        return None;
    }
    let pkg: String = package_name(e.cmdline.as_str());
    let threads: Vec<(i32, String)> = read_threads(&e.tasks);
    assert(thread_views(threads@).len() == threads@.len());
    if threads.len() == 0 {
        return None;
    }
    let th: Vec<(i32, String, String)> = place_threads(rules, pkg.as_str(), &threads);
    Some((pid, pkg, th))
}

/// The processes of packages in `s` that `entries` describe, their threads with the CPUs that
/// the rules `r` give them.
pub fn sp2(r: &[R], s: &PackageSet, entries: &[ProcEntry]) -> (v: Vec<Placed>)
    ensures
        placed_views(v@) == placed_processes(rule_views(r@), s@, entry_views(entries@)),
{
    let ghost all = entry_views(entries@);
    let mut v: Vec<Placed> = Vec::new();
    let mut i: usize = 0;
    assert(placed_views(v@) =~= placed_processes(rule_views(r@), s@, all.take(0)));
    while i < entries.len()
        invariant
            i <= entries@.len(),
            all == entry_views(entries@),
            placed_views(v@) == placed_processes(rule_views(r@), s@, all.take(i as int)),
        decreases entries@.len() - i,
    {
        let ghost before = placed_views(v@);
        assert(all.take(i + 1).drop_last() =~= all.take(i as int));
        assert(all.take(i + 1).last() == entries@[i as int]@);
        if let Some(p) = place_process(r, s, &entries[i]) {
            let ghost view = placed_view(p);
            v.push(p);
            assert(placed_views(v@) =~= before.push(view));
        }
        i += 1;
    }
    assert(all.take(i as int) =~= all);
    v
}

/// The process of an app without rules that an entry describes.
fn find_unknown(s: &PackageSet, e: &ProcEntry) -> (r: Option<Process>)
    ensures
        match r {
            Some(p) => unknown_process(s@, e@) == Some(process_view(p)),
            None => unknown_process(s@, e@) is None,
        },
{
    match (process_number(e.name.as_str()), &e.status) {
        (Some(pid), Some(status)) => {
            if !is_app_status(status.as_str()) || !is_unwatched_app(s, e.cmdline.as_str()) {
                return None;
            }
            let threads: Vec<(i32, String)> = read_threads(&e.tasks);
            assert(thread_views(threads@).len() == threads@.len());
            if threads.len() == 0 {
                return None;
            }
            Some((pid, package_name(e.cmdline.as_str()), threads))
        },
        _ => None,
    }
}

/// The processes of apps that are not in `s`, among those that `entries` describe.
pub fn scan_unknown(s: &PackageSet, entries: &[ProcEntry]) -> (v: Vec<Process>)
    ensures
        process_views(v@) == unknown_processes(s@, entry_views(entries@)),
{
    let ghost all = entry_views(entries@);
    let mut v: Vec<Process> = Vec::new();
    let mut i: usize = 0;
    assert(process_views(v@) =~= unknown_processes(s@, all.take(0)));
    while i < entries.len()
        invariant
            i <= entries@.len(),
            all == entry_views(entries@),
            process_views(v@) == unknown_processes(s@, all.take(i as int)),
        decreases entries@.len() - i,
    {
        let ghost before = process_views(v@);
        assert(all.take(i + 1).drop_last() =~= all.take(i as int));
        assert(all.take(i + 1).last() == entries@[i as int]@);
        if let Some(p) = find_unknown(s, &entries[i]) {
            let ghost view = process_view(p);
            v.push(p);
            assert(process_views(v@) =~= before.push(view));
        }
        i += 1;
    }
    assert(all.take(i as int) =~= all);
    v
}

/// Every placed process is one of a package in `s`, has a number that is looked at and at least
/// one thread, and each of its threads has the CPUs that the rules choose for it.
pub proof fn placed_processes_are_watched(
    rules: Seq<RuleView>,
    s: Set<Seq<char>>,
    entries: Seq<EntryView>,
    i: int,
)
    requires
        0 <= i < placed_processes(rules, s, entries).len(),
    ensures
        ({
            let p = placed_processes(rules, s, entries)[i];
            &&& p.0 >= FIRST_PID
            &&& p.1.len() > 0
            &&& s.contains(p.1)
            &&& p.2.len() > 0
            &&& forall|j: int|
                0 <= j < p.2.len() ==> (#[trigger] p.2[j]).2 == chosen_cpus(rules, p.1, p.2[j].1)
        }),
    decreases entries.len(),
{
    let rest = placed_processes(rules, s, entries.drop_last());
    if i < rest.len() {
        placed_processes_are_watched(rules, s, entries.drop_last(), i);
    }
}

/// Every unknown process is one of an app that is not in `s`.
pub proof fn unknown_processes_are_unwatched(s: Set<Seq<char>>, entries: Seq<EntryView>, i: int)
    requires
        0 <= i < unknown_processes(s, entries).len(),
    ensures
        ({
            let p = unknown_processes(s, entries)[i];
            &&& p.0 >= FIRST_PID
            &&& p.1.len() > 0
            &&& !s.contains(p.1)
            &&& p.2.len() > 0
        }),
    decreases entries.len(),
{
    let rest = unknown_processes(s, entries.drop_last());
    if i < rest.len() {
        unknown_processes_are_unwatched(s, entries.drop_last(), i);
    }
}

proof fn lemma_placed_source(
    rules: Seq<RuleView>,
    s: Set<Seq<char>>,
    entries: Seq<EntryView>,
    i: int,
) -> (a: int)
    requires
        0 <= i < placed_processes(rules, s, entries).len(),
    ensures
        0 <= a < entries.len(),
        placed_process(rules, s, entries[a]) == Some(placed_processes(rules, s, entries)[i]),
    decreases entries.len(),
{
    let init = entries.drop_last();
    if i < placed_processes(rules, s, init).len() {
        lemma_placed_source(rules, s, init, i)
    } else {
        entries.len() - 1
    }
}

proof fn lemma_unknown_source(s: Set<Seq<char>>, entries: Seq<EntryView>, i: int) -> (a: int)
    requires
        0 <= i < unknown_processes(s, entries).len(),
    ensures
        0 <= a < entries.len(),
        unknown_process(s, entries[a]) == Some(unknown_processes(s, entries)[i]),
    decreases entries.len(),
{
    let init = entries.drop_last();
    if i < unknown_processes(s, init).len() {
        lemma_unknown_source(s, init, i)
    } else {
        entries.len() - 1
    }
}

/// No process number is listed twice.
pub open spec fn numbers_differ(entries: Seq<EntryView>) -> bool {
    forall|a: int, b: int|
        0 <= a < b < entries.len() && process_number_of((#[trigger] entries[a]).name) is Some
            ==> process_number_of(entries[a].name) != process_number_of(
            (#[trigger] entries[b]).name,
        )
}

/// In one listing, no package is both among the placed and among the unknown processes, and no
/// process number is either, where none is listed twice.
pub proof fn placed_and_unknown_are_apart(
    rules: Seq<RuleView>,
    s: Set<Seq<char>>,
    entries: Seq<EntryView>,
    i: int,
    j: int,
)
    requires
        0 <= i < placed_processes(rules, s, entries).len(),
        0 <= j < unknown_processes(s, entries).len(),
    ensures
        placed_processes(rules, s, entries)[i].1 != unknown_processes(s, entries)[j].1,
        numbers_differ(entries) ==> placed_processes(rules, s, entries)[i].0 != unknown_processes(
            s,
            entries,
        )[j].0,
{
    placed_processes_are_watched(rules, s, entries, i);
    unknown_processes_are_unwatched(s, entries, j);
    let a = lemma_placed_source(rules, s, entries, i);
    let b = lemma_unknown_source(s, entries, j);
    assert(a != b);
    assert(process_number_of(entries[a].name) is Some && process_number_of(entries[b].name) is Some);
}

/// Once packages are in the set, the search for apps without rules leaves out their processes,
/// and finds all others as before.
pub proof fn known_packages_are_not_found_again(
    s: Set<Seq<char>>,
    t: Set<Seq<char>>,
    entries: Seq<EntryView>,
)
    ensures
        unknown_processes(s.union(t), entries) == unknown_processes(s, entries).filter(
            |p: ProcessView| !t.contains(p.1),
        ),
    decreases entries.len(),
{
    reveal(Seq::filter);
    if entries.len() > 0 {
        let init = entries.drop_last();
        let keep = |p: ProcessView| !t.contains(p.1);
        known_packages_are_not_found_again(s, t, init);
        if let Some(p) = unknown_process(s, entries.last()) {
            assert(unknown_processes(s, init).push(p).drop_last() =~= unknown_processes(s, init));
        }
    } else {
        assert(unknown_processes(s, entries).filter(|p: ProcessView| !t.contains(p.1))
            =~= Seq::<ProcessView>::empty());
    }
}

/// An entry that is not looked at, or whose command line is not that of a package in `s`, adds
/// no placed process, whatever else is read of it.
pub proof fn unwatched_entries_add_nothing(
    rules: Seq<RuleView>,
    s: Set<Seq<char>>,
    entries: Seq<EntryView>,
    e: EntryView,
)
    requires
        process_number_of(e.name) is None || !watched(s, e.cmdline),
    ensures
        placed_processes(rules, s, entries.push(e)) == placed_processes(rules, s, entries),
{
    assert(entries.push(e).drop_last() =~= entries);
}

/// An entry that is not looked at, is not that of an app's user, or whose command line is not
/// that of an app outside `s`, adds no unknown process, whatever else is read of it.
pub proof fn uninteresting_entries_add_nothing(
    s: Set<Seq<char>>,
    entries: Seq<EntryView>,
    e: EntryView,
)
    requires
        process_number_of(e.name) is None || e.status is None || !app_status(e.status.unwrap())
            || !unwatched_app(s, e.cmdline),
    ensures
        unknown_processes(s, entries.push(e)) == unknown_processes(s, entries),
{
    assert(entries.push(e).drop_last() =~= entries);
}

} // verus!
