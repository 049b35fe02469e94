//! Laws of the options, the pace, the log and the kernel program.

use vstd::prelude::*;

use crate::decimal::{decimal_int, unsigned};
use crate::bind::gone;
use crate::ebpf::{closing, outcome, program_for, walk_key};
use crate::run::{
    bind_counted, bind_is_due, initial_pace, log_text, next_action, next_pace, options,
    options_from, procs_noted, rescan_is_due, scan_counted, Event, PaceView,
};

use super::decimal::{digits_of_numbers, sign_of};

verus! {

/// From position `i` on, each option in `args` has a value.
pub open spec fn complete(args: Seq<Seq<char>>, i: int) -> bool
    decreases args.len() - i,
{
    if i >= args.len() {
        i == args.len()
    } else if args[i] == "-c"@ || args[i] == "-s"@ {
        i + 1 < args.len() && complete(args, i + 2)
    } else {
        complete(args, i + 1)
    }
}

proof fn lemma_options_go_on(
    a: Seq<Seq<char>>,
    b: Seq<Seq<char>>,
    i: int,
    config: Seq<char>,
    interval: u64,
)
    requires
        0 <= i,
        complete(a, i),
    ensures
        ({
            let given = options_from(a, i, config, interval);
            options_from(a + b, i, config, interval) == options_from(
                a + b,
                a.len() as int,
                given.0,
                given.1,
            )
        }),
        complete(a + b, i) == complete(a + b, a.len() as int),
    decreases a.len() - i,
{
    let all = a + b;
    if i < a.len() {
        assert(all[i] == a[i]);
        if a[i] == "-c"@ {
            assert(complete(a, i + 2));
            lemma_complete_bound(a, i + 2);
            assert(all[i + 1] == a[i + 1]);
            lemma_options_go_on(a, b, i + 2, a[i + 1], interval);
        } else if a[i] == "-s"@ {
            assert(complete(a, i + 2));
            lemma_complete_bound(a, i + 2);
            assert(all[i + 1] == a[i + 1]);
            let seconds = match unsigned(a[i + 1], u64::MAX as nat) {
                Some(n) => n as u64,
                None => 2,
            };
            lemma_options_go_on(a, b, i + 2, config, seconds);
        } else {
            lemma_options_go_on(a, b, i + 1, config, interval);
        }
    }
}

proof fn lemma_complete_bound(a: Seq<Seq<char>>, i: int)
    requires
        complete(a, i),
    ensures
        i <= a.len(),
{
}

proof fn lemma_option_names()
    ensures
        "-c"@ != "-s"@,
{
    reveal_strlit("-c");
    reveal_strlit("-s");
    assert("-c"@[1] == 'c');
    assert("-s"@[1] == 's');
}

/// The name of the program alone gives the defaults.
pub proof fn defaults(program: Seq<char>)
    ensures
        options(seq![program]) == ("/sdcard/Android/Aether/threads.json"@, 2u64),
        complete(seq![program], 1),
{
}

/// What is added to complete arguments counts last: `-c` and a path set the configuration, `-s` and
/// a number the seconds, which are two where it is no number and one where it is zero. A word that
/// is no option, and an option without a value, change nothing.
pub proof fn the_last_option_counts(a: Seq<Seq<char>>, x: Seq<char>, w: Seq<char>)
    requires
        complete(a, 1),
        w != "-c"@,
        w != "-s"@,
    ensures
        options(a + seq!["-c"@, x]) == (x, options(a).1),
        options(a + seq!["-s"@, x]).0 == options(a).0,
        options(a + seq!["-s"@, x]).1 == match unsigned(x, u64::MAX as nat) {
            Some(n) => if n == 0 {
                1
            } else {
                n as int
            },
            None => 2,
        },
        options(a + seq![w]) == options(a),
        options(a + seq!["-c"@]) == options(a),
        options(a + seq!["-s"@]) == options(a),
        complete(a + seq!["-c"@, x], 1),
        complete(a + seq!["-s"@, x], 1),
        complete(a + seq![w], 1),
{
    lemma_option_names();
    let path = "/sdcard/Android/Aether/threads.json"@;
    let n = a.len() as int;
    reveal_with_fuel(options_from, 3);
    reveal_with_fuel(complete, 3);
    lemma_options_go_on(a, seq!["-c"@, x], 1, path, 2);
    let c = a + seq!["-c"@, x];
    assert(c[n] == "-c"@ && c[n + 1] == x && c.len() == n + 2);
    lemma_options_go_on(a, seq!["-s"@, x], 1, path, 2);
    let s = a + seq!["-s"@, x];
    assert(s[n] == "-s"@ && s[n + 1] == x && s.len() == n + 2);
    lemma_options_go_on(a, seq![w], 1, path, 2);
    assert((a + seq![w])[n] == w);
    lemma_options_go_on(a, seq!["-c"@], 1, path, 2);
    assert((a + seq!["-c"@])[n] == "-c"@);
    lemma_options_go_on(a, seq!["-s"@], 1, path, 2);
    assert((a + seq!["-s"@])[n] == "-s"@);
}

/// The processes are looked up again where their number is not known or has grown by more than ten;
/// growth by one to ten binds all threads in this pass; else nothing changes but the number.
pub proof fn growth_sets_the_pace(p: PaceView, cur: u16)
    ensures
        rescan_is_due(p, None),
        procs_noted(p, None) == p,
        rescan_is_due(p, Some(cur)) <==> cur - p.procs > 10,
        procs_noted(p, Some(cur)).procs == cur,
        procs_noted(p, Some(cur)).passes == p.passes,
        1 <= cur - p.procs <= 10 ==> procs_noted(p, Some(cur)).left == 0,
        !(1 <= cur - p.procs <= 10) ==> procs_noted(p, Some(cur)).left == p.left,
{
}

/// The state after `n` passes that were counted towards the binding.
pub open spec fn after_bindings(n: nat) -> PaceView
    decreases n,
{
    if n == 0 {
        initial_pace()
    } else {
        bind_counted(after_bindings((n - 1) as nat))
    }
}

/// Where the number of processes does not grow, all threads are bound in the first pass and in
/// every fifth after it.
pub proof fn bindings_are_regular(n: nat)
    ensures
        bind_is_due(after_bindings(n)) <==> n % 5 == 0,
        n > 0 ==> after_bindings(n).left == 5 - (n - 1) % 5,
        n == 0 ==> after_bindings(n).left == 0,
        after_bindings(n).procs == 0,
        after_bindings(n).passes == 0,
    decreases n,
{
    if n > 0 {
        bindings_are_regular((n - 1) as nat);
    }
}

/// The three counters are kept apart: counting towards one leaves the others.
pub proof fn counters_are_apart(p: PaceView)
    ensures
        scan_counted(p).procs == p.procs,
        scan_counted(p).left == p.left,
        bind_counted(p).procs == p.procs,
        bind_counted(p).passes == p.passes,
{
}

/// A pass searches in every thirtieth round, then counts the processes; it looks them up where
/// there are many more or one is gone, else checks them; it binds where that is due, looks them up
/// once more where a thread was gone, and sleeps.
pub proof fn passes_do_what_is_due(p: PaceView, procs: Option<u16>)
    ensures
        next_action(p, Event::Started) is Search <==> p.passes + 1 >= 30,
        next_action(p, Event::Started) is CountProcs <==> p.passes + 1 < 30,
        next_pace(p, Event::Started) == scan_counted(p),
        next_action(p, Event::Searched) is CountProcs,
        next_pace(p, Event::Searched) == p,
        next_action(p, Event::Counted(None)) is LookUp,
        procs is Some ==> (next_action(p, Event::Counted(procs)) is LookUp <==> procs.unwrap()
            - p.procs > 10),
        procs is Some ==> (next_action(p, Event::Counted(procs)) is CheckProcs <==> procs.unwrap()
            - p.procs <= 10),
        next_pace(p, Event::Counted(procs)) == procs_noted(p, procs),
        next_action(p, Event::Checked(false)) is LookUp,
        next_pace(p, Event::Checked(false)) == p,
        next_action(p, Event::Checked(true)) is Bind <==> p.left <= 1,
        next_action(p, Event::Checked(true)) is Sleep <==> p.left > 1,
        next_pace(p, Event::Checked(true)) == bind_counted(p),
        next_action(p, Event::LookedUp) is Bind <==> p.left <= 1,
        next_action(p, Event::LookedUp) is Sleep <==> p.left > 1,
        next_pace(p, Event::LookedUp) == bind_counted(p),
        next_action(p, Event::Bound(true)) is LookUpAgain,
        next_action(p, Event::Bound(false)) is Sleep,
        next_pace(p, Event::Bound(true)) == p,
        next_pace(p, Event::Bound(false)) == p,
        next_action(p, Event::LookedUpAgain) is Sleep,
        next_pace(p, Event::LookedUpAgain) == p,
{
}

/// A line of the log gives hours, minutes and seconds by two digits each, the level and the
/// message.
pub proof fn log_lines(
    h: (nat, nat),
    m: (nat, nat),
    s: (nat, nat),
    level: Seq<char>,
    msg: Seq<char>,
)
    requires
        h.0 < 10 && h.1 < 10,
        m.0 < 10 && m.1 < 10,
        s.0 < 10 && s.1 < 10,
    ensures
        log_text(
            (10 * h.0 + h.1) as i32,
            (10 * m.0 + m.1) as i32,
            (10 * s.0 + s.1) as i32,
            level,
            msg,
        ) == seq!['[', sign_of(h.0), sign_of(h.1), ':', sign_of(m.0), sign_of(m.1), ':', sign_of(s.0), sign_of(s.1), ']', '[']
            + level + seq![']', ' '] + msg + seq!['\n'],
{
    lemma_two(h.0, h.1);
    lemma_two(m.0, m.1);
    lemma_two(s.0, s.1);
    reveal_strlit("[");
    reveal_strlit(":");
    reveal_strlit("][");
    reveal_strlit("] ");
    reveal_strlit("\n");
    assert(log_text(
        (10 * h.0 + h.1) as i32,
        (10 * m.0 + m.1) as i32,
        (10 * s.0 + s.1) as i32,
        level,
        msg,
    ) =~= seq!['[', sign_of(h.0), sign_of(h.1), ':', sign_of(m.0), sign_of(m.1), ':', sign_of(s.0), sign_of(s.1), ']', '[']
        + level + seq![']', ' '] + msg + seq!['\n']);
}

proof fn lemma_two(a: nat, b: nat)
    requires
        a < 10,
        b < 10,
    ensures
        crate::run::two_digits((10 * a + b) as i32) == seq![sign_of(a), sign_of(b)],
{
    reveal_strlit("0");
    digits_of_numbers(a, b);
    digits_of_numbers(0, b);
    digits_of_numbers(0, a);
    assert(crate::run::two_digits((10 * a + b) as i32) =~= seq![sign_of(a), sign_of(b)]);
}

/// Other numbers than those of two digits are written as they are.
pub proof fn long_numbers_are_written_as_they_are(n: i32)
    requires
        n < 0 || n >= 100,
    ensures
        crate::run::two_digits(n) == decimal_int(n as int),
{
}

/// One instruction of the kernel's machine: operation, target and source register, offset and
/// operand.
pub open spec fn instruction(op: int, target: int, source: int, offset: int, operand: int) -> int {
    op + target * 0x100 + source * 0x1000 + (if offset < 0 {
        offset + 0x1_0000
    } else {
        offset
    }) * 0x1_0000 + (if operand < 0 {
        operand + 0x1_0000_0000
    } else {
        operand
    }) * 0x1_0000_0000
}

/// The program keeps its context, asks for the process and takes its number from the high half of
/// the answer. It stores that on the stack as a key, loads the map, points at the key, stores a one
/// as the value, points at that, updates the map, and ends with zero.
pub proof fn the_program_notes_the_process(fd: int)
    requires
        0 <= fd < 0x8000_0000,
    ensures
        program_for(fd).len() == 16,
        program_for(fd)[0] == instruction(0xbf, 6, 1, 0, 0),
        program_for(fd)[1] == instruction(0x85, 0, 0, 0, 14),
        program_for(fd)[2] == instruction(0xbf, 7, 0, 0, 0),
        program_for(fd)[3] == instruction(0x77, 0, 0, 0, 32),
        program_for(fd)[4] == instruction(0x63, 10, 0, -4, 0),
        program_for(fd)[5] == instruction(0x18, 1, 1, 0, fd),
        program_for(fd)[6] == instruction(0, 0, 0, 0, 0),
        program_for(fd)[7] == instruction(0xbf, 2, 10, 0, 0),
        program_for(fd)[8] == instruction(0x07, 2, 0, 0, -4),
        program_for(fd)[9] == instruction(0xb7, 0, 0, 0, 1),
        program_for(fd)[10] == instruction(0x63, 10, 0, -8, 0),
        program_for(fd)[11] == instruction(0xbf, 3, 10, 0, 0),
        program_for(fd)[12] == instruction(0x07, 3, 0, 0, -8),
        program_for(fd)[13] == instruction(0x85, 0, 0, 0, 2),
        program_for(fd)[14] == instruction(0xb7, 0, 0, 0, 0),
        program_for(fd)[15] == instruction(0x95, 0, 0, 0, 0),
{
}

/// The attempt succeeds where both descriptors are there, and then hands them on; else it hands on
/// none.
pub proof fn attempts_need_both_descriptors(map_fd: i32, prog_fd: i32)
    ensures
        map_fd >= 0 && prog_fd >= 0 ==> outcome(map_fd, Some(prog_fd)) == (true, map_fd, prog_fd),
        map_fd < 0 || prog_fd < 0 ==> outcome(map_fd, Some(prog_fd)) == (false, -1i32, -1i32),
        outcome(map_fd, None) == (false, -1i32, -1i32),
{
}

/// A map is closed where it was made and its program was refused, and else kept.
pub proof fn maps_without_a_program_are_closed(map_fd: i32, prog_fd: i32)
    ensures
        map_fd >= 0 && prog_fd < 0 ==> closing(map_fd, Some(prog_fd)) == Some(map_fd),
        map_fd < 0 || prog_fd >= 0 ==> closing(map_fd, Some(prog_fd)) is None,
        closing(map_fd, None) is None,
        closing(map_fd, Some(prog_fd)) is Some ==> !outcome(map_fd, Some(prog_fd)).0,
{
}

/// A thread is gone where binding it failed, and failed with the error number for that.
pub proof fn gone_threads(status: i32, errno: i32, no_such_process: i32)
    ensures
        gone((status, Some(errno)), no_such_process) <==> status != 0 && errno == no_such_process,
        !gone((status, None), no_such_process),
{
}

/// A walk over the keys starts at zero and goes on from the key that it found last.
pub proof fn walks_go_on_from_the_last_key(found: Seq<u32>, key: u32)
    ensures
        walk_key(Seq::empty()) == 0,
        walk_key(found.push(key)) == key,
{
}

} // verus!
