//! Making rules for apps that have none: the threads that are expected to make much load go to
//! the fast CPUs, all others to the slow ones.

use vstd::prelude::*;

use crate::notation::{list_text, quoted, small_fractions};
use crate::packages::{est_load, expected_load, is_system_pkg, system_package};
use crate::readback::{extended_cache_fits, plain_entry};
use crate::text::{
    ends_with, join, joined, same_text, starts_with, texts, trim, trim_end, trim_start, trimmed,
    trimmed_end, trimmed_start,
};

verus! {

/// A process: its number, its package, and the numbers and names of its threads.
pub type Process = (i32, String, Vec<(i32, String)>);

/// What is known of a process.
pub type ProcessView = (i32, Seq<char>, Seq<(i32, Seq<char>)>);

/// What is known of a list of threads.
pub open spec fn thread_views(v: Seq<(i32, String)>) -> Seq<(i32, Seq<char>)> {
    v.map_values(|t: (i32, String)| (t.0, t.1@))
}

/// What is known of a process.
pub open spec fn process_view(p: Process) -> ProcessView {
    (p.0, p.1@, thread_views(p.2@))
}

/// What is known of a list of processes.
pub open spec fn process_views(v: Seq<Process>) -> Seq<ProcessView> {
    v.map_values(|p: Process| process_view(p))
}

/// The load from which on a thread belongs on the fast CPUs.
pub const HEAVY: i32 = 8;

/// The names of the threads that are expected to make much load.
pub open spec fn heavy_threads(threads: Seq<(i32, Seq<char>)>) -> Seq<Seq<char>>
    decreases threads.len(),
{
    if threads.len() == 0 {
        Seq::empty()
    } else {
        let rest = heavy_threads(threads.drop_last());
        if expected_load(threads.last().1) >= HEAVY {
            rest.push(threads.last().1)
        } else {
            rest
        }
    }
}

/// The names of the threads of `pkg` that are expected to make much load.
pub open spec fn heavy_names(procs: Seq<ProcessView>, pkg: Seq<char>) -> Seq<Seq<char>>
    decreases procs.len(),
{
    if procs.len() == 0 {
        Seq::empty()
    } else {
        let rest = heavy_names(procs.drop_last(), pkg);
        if procs.last().1 == pkg {
            rest + heavy_threads(procs.last().2)
        } else {
            rest
        }
    }
}

/// Each of `names` in double quotes.
pub open spec fn all_quoted(names: Seq<Seq<char>>) -> Seq<Seq<char>> {
    names.map_values(|n: Seq<char>| quoted(n))
}

/// The fields of a cached entry that list threads: `names`, on the CPUs `big`.
pub open spec fn threads_text(big: Seq<char>, names: Seq<Seq<char>>) -> Seq<char> {
    if names.len() == 0 {
        "        "@
    } else {
        "        "@ + quoted(big) + ": [\n        "@ + joined(all_quoted(names), ",\n        "@)
            + "\n        ]"@
    }
}

/// The cached entry for `pkg`: `names` on the CPUs `big`, all other threads on `little`.
pub open spec fn entry_text(
    pkg: Seq<char>,
    big: Seq<char>,
    little: Seq<char>,
    names: Seq<Seq<char>>,
) -> Seq<char> {
    "  {\n    "@ + quoted("friendly"@) + ": "@ + quoted("[auto] "@ + pkg) + ",\n    "@ + quoted(
        "packages"@,
    ) + ": ["@ + quoted(pkg) + "],\n    "@ + quoted("cpuset"@) + ": {\n      "@ + quoted("other"@)
        + ": "@ + quoted(little) + ",\n      "@ + quoted("comm"@) + ": {\n"@ + threads_text(
        big,
        names,
    ) + "\n      }\n    }\n  }"@
}

/// The cache text `old` is a list that can be added to.
pub open spec fn extends_list(old: Seq<char>) -> bool {
    &&& trimmed(old).len() > 0
    &&& seq!['['].is_prefix_of(trimmed_start(old))
    &&& seq![']'].is_suffix_of(trimmed_end(old))
}

/// The cache text `old` with `entry` added, or a new list where `old` is none.
pub open spec fn cache_text(old: Seq<char>, entry: Seq<char>) -> Seq<char> {
    if extends_list(old) {
        trimmed_end(trimmed_end(old).drop_last()) + ",\n"@ + entry + "\n]"@
    } else {
        "[\n"@ + entry + "\n]\n"@
    }
}

/// `text` is the cache text `old` with the entry for `pkg` added.
pub open spec fn adds_entry(
    text: Seq<char>,
    old: Seq<char>,
    pkg: Seq<char>,
    big: Seq<char>,
    little: Seq<char>,
    names: Seq<Seq<char>>,
) -> bool {
    text == cache_text(old, entry_text(pkg, big, little, names))
}

/// Adds the names of the threads that are expected to make much load.
fn add_heavy(names: &mut Vec<String>, threads: &Vec<(i32, String)>)
    ensures
        texts(final(names)@) == texts(old(names)@) + heavy_threads(thread_views(threads@)),
{
    let ghost all = thread_views(threads@);
    let ghost start = texts(names@);
    let mut i: usize = 0;
    assert(start =~= start + heavy_threads(all.take(0)));
    while i < threads.len()
        invariant
            i <= threads@.len(),
            all == thread_views(threads@),
            texts(names@) == start + heavy_threads(all.take(i as int)),
        decreases threads@.len() - i,
    {
        let ghost before = texts(names@);
        proof {
            assert(all.take(i + 1).drop_last() =~= all.take(i as int));
            assert(all.take(i + 1).last() == all[i as int]);
        }
        let comm: &String = &threads[i].1;
        if est_load(comm.as_str()) >= HEAVY {
            names.push(comm.clone());
            assert(texts(names@) =~= before.push(comm@));
        }
        assert(texts(names@) =~= start + heavy_threads(all.take(i + 1)));
        i += 1;
    }
    assert(all.take(i as int) =~= all);
}

/// The names of the threads of `pkg` that are expected to make much load.
fn list_heavy(procs: &[Process], pkg: &str) -> (r: Vec<String>)
    ensures
        texts(r@) == heavy_names(process_views(procs@), pkg@),
{
    let ghost all = process_views(procs@);
    let mut r: Vec<String> = Vec::new();
    let mut i: usize = 0;
    assert(texts(r@) =~= heavy_names(all.take(0), pkg@));
    while i < procs.len()
        invariant
            i <= procs@.len(),
            all == process_views(procs@),
            texts(r@) == heavy_names(all.take(i as int), pkg@),
        decreases procs@.len() - i,
    {
        proof {
            assert(all[i as int] == process_view(procs@[i as int]));
            assert(all.take(i + 1).drop_last() =~= all.take(i as int));
            assert(all.take(i + 1).last() == all[i as int]);
        }
        let p: &Process = &procs[i];
        if same_text(p.1.as_str(), pkg) {
            add_heavy(&mut r, &p.2);
        }
        i += 1;
    }
    assert(all.take(i as int) =~= all);
    r
}

/// Adds `s` in double quotes.
fn append_quoted(out: &mut String, s: &str)
    ensures
        final(out)@ == old(out)@ + quoted(s@),
{
    proof {
        reveal_strlit("\"");
        assert("\""@ =~= seq!['"']);
    }
    let ghost start = out@;
    out.append("\"");
    out.append(s);
    out.append("\"");
    assert(out@ =~= start + quoted(s@));
}

/// Each of `names` in double quotes.
fn quote_all(names: &Vec<String>) -> (r: Vec<String>)
    ensures
        texts(r@) == all_quoted(texts(names@)),
{
    let ghost all = all_quoted(texts(names@));
    let mut r: Vec<String> = Vec::new();
    let mut i: usize = 0;
    while i < names.len()
        invariant
            i <= names@.len(),
            all == all_quoted(texts(names@)),
            texts(r@) =~= all.take(i as int),
        decreases names@.len() - i,
    {
        let ghost before = texts(r@);
        let mut q: String = String::new();
        append_quoted(&mut q, names[i].as_str());
        assert(q@ =~= all[i as int]);
        r.push(q);
        assert(texts(r@) =~= before.push(q@));
        i += 1;
    }
    assert(all.take(i as int) =~= all);
    r
}

/// Writes the fields of a cached entry that list threads.
fn write_threads(big: &str, names: &Vec<String>) -> (r: String)
    ensures
        r@ == threads_text(big@, texts(names@)),
{
    let mut r: String = "        ".to_owned();
    if names.len() > 0 {
        append_quoted(&mut r, big);
        r.append(": [\n        ");
        r.append(join(&quote_all(names), ",\n        ").as_str());
        r.append("\n        ]");
    }
    r
}

/// Writes the cached entry for `pkg`.
fn write_entry(pkg: &str, big: &str, little: &str, names: &Vec<String>) -> (r: String)
    ensures
        r@ == entry_text(pkg@, big@, little@, texts(names@)),
{
    let mut friendly: String = "[auto] ".to_owned();
    friendly.append(pkg);
    let mut r: String = "  {\n    ".to_owned();
    append_quoted(&mut r, "friendly");
    r.append(": ");
    append_quoted(&mut r, friendly.as_str());
    r.append(",\n    ");
    append_quoted(&mut r, "packages");
    r.append(": [");
    append_quoted(&mut r, pkg);
    r.append("],\n    ");
    append_quoted(&mut r, "cpuset");
    r.append(": {\n      ");
    append_quoted(&mut r, "other");
    r.append(": ");
    append_quoted(&mut r, little);
    r.append(",\n      ");
    append_quoted(&mut r, "comm");
    r.append(": {\n");
    r.append(write_threads(big, names).as_str());
    r.append("\n      }\n    }\n  }");
    r
}

/// Adds `entry` to the cache text `old`, or starts a new list where `old` is none.
pub fn extend_cache(old: &str, entry: &str) -> (r: String)
    ensures
        r@ == cache_text(old@, entry@),
{
    proof {
        reveal_strlit("[");
        reveal_strlit("]");
        assert("["@ =~= seq!['[']);
        assert("]"@ =~= seq![']']);
    }
    let t = trim_end(old);
    if !trim(old).is_empty() && starts_with(trim_start(old), "[") && ends_with(t, "]") {
        let n: usize = t.unicode_len();
        assert(t@.drop_last() =~= t@.subrange(0, n - 1));
        let mut r: String = trim_end(t.substring_char(0, n - 1)).to_owned();
        r.append(",\n");
        r.append(entry);
        r.append("\n]");
        r
    } else {
        let mut r: String = "[\n".to_owned();
        r.append(entry);
        r.append("\n]\n");
        r
    }
}

/// The cache text `old` with an entry for `pkg` added, and the number of threads that go to the
/// CPUs `big`; `None` where `pkg` is one of the system.
pub fn auto_alloc(pkg: &str, procs: &[Process], big: &str, little: &str, old_text: &str) -> (r: Option<
    (String, usize),
>)
    ensures
        match r {
            Some((text, count)) => {
                let names = heavy_names(process_views(procs@), pkg@);
                &&& !system_package(pkg@)
                &&& adds_entry(text@, old_text@, pkg@, big@, little@, names)
                &&& count == names.len()
                &&& plain_entry(pkg@, big@, little@, names) && (extends_list(old_text@)
                    ==> list_text(old_text@) && small_fractions(old_text@)) ==> small_fractions(
                    text@,
                )
            },
            None => system_package(pkg@),
        },
{
    if is_system_pkg(pkg) {
        return None;
    }
    let names: Vec<String> = list_heavy(procs, pkg);
    assert(texts(names@).len() == names@.len());
    let entry: String = write_entry(pkg, big, little, &names);
    let text: String = extend_cache(old_text, entry.as_str());
    proof {
        let seen = texts(names@);
        if plain_entry(pkg@, big@, little@, seen) && (extends_list(old_text@) ==> list_text(
            old_text@,
        ) && small_fractions(old_text@)) {
            extended_cache_fits(text@, old_text@, pkg@, big@, little@, seen);
        }
    }
    Some((text, names.len()))
}

} // verus!
