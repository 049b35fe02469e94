//! How the daemon runs: its options, its pace, and the lines of its log.

use vstd::prelude::*;

use crate::decimal::{decimal_int, unsigned, parse_u64, to_decimal_int};
use crate::text::{same_text, texts};

verus! {

/// The seconds between two passes where no other number is given.
pub const DEFAULT_INTERVAL: u64 = 2;

/// The options that stand in `args` from position `i` on; `config` and `interval` hold where
/// none is given. Each option takes what follows it, and what is no option is passed over.
pub open spec fn options_from(
    args: Seq<Seq<char>>,
    i: int,
    config: Seq<char>,
    interval: u64,
) -> (Seq<char>, u64)
    decreases args.len() - i,
{
    if i >= args.len() {
        (config, interval)
    } else if args[i] == "-c"@ {
        if i + 1 < args.len() {
            options_from(args, i + 2, args[i + 1], interval)
        } else {
            (config, interval)
        }
    } else if args[i] == "-s"@ {
        if i + 1 < args.len() {
            let seconds = match unsigned(args[i + 1], u64::MAX as nat) {
                Some(n) => n as u64,
                None => DEFAULT_INTERVAL,
            };
            options_from(args, i + 2, config, seconds)
        } else {
            (config, interval)
        }
    } else {
        options_from(args, i + 1, config, interval)
    }
}

/// At least one second.
pub open spec fn at_least_one(seconds: u64) -> u64 {
    if seconds < 1 {
        1
    } else {
        seconds
    }
}

/// The path of the configuration and the seconds between two passes, from the arguments of the
/// program; the first of them is its name.
pub open spec fn options(args: Seq<Seq<char>>) -> (Seq<char>, u64) {
    let given = options_from(args, 1, "/sdcard/Android/Aether/threads.json"@, DEFAULT_INTERVAL);
    (given.0, at_least_one(given.1))
}

/// Reads the arguments of the program: the path of the configuration, and the seconds between
/// two passes.
pub fn parse_args(a: &[String]) -> (r: (String, u64))
    ensures
        (r.0@, r.1) == options(texts(a@)),
{
    let ghost args = texts(a@);
    let mut cp: String = "/sdcard/Android/Aether/threads.json".to_owned();
    let mut iv: u64 = DEFAULT_INTERVAL;
    let n: usize = a.len();
    let mut i: usize = 1;
    while i < n
        invariant
            n == a@.len(),
            args == texts(a@),
            1 <= i,
            options_from(args, 1, "/sdcard/Android/Aether/threads.json"@, DEFAULT_INTERVAL)
                == options_from(args, i as int, cp@, iv),
        decreases n - i,
    {
        assert(args[i as int] == a@[i as int]@);
        assert(i + 1 < n ==> args[i + 1] == a@[i + 1]@);
        let word: &str = a[i].as_str();
        i += 1;
        if same_text(word, "-c") {
            if i < n {
                cp = a[i].clone();
                i += 1;
            }
        } else if same_text(word, "-s") {
            if i < n {
                iv = match parse_u64(a[i].as_str()) {
                    Some(s) => s,
                    None => DEFAULT_INTERVAL,
                };
                i += 1;
            }
        }
    }
    if iv < 1 {
        iv = 1;
    }
    (cp, iv)
}

/// How many passes go by from one search for apps without rules to the next.
pub const SCAN_PASSES: i32 = 30;

/// How many passes go by from one binding of all threads to the next.
pub const BIND_PASSES: i32 = 5;

/// By how many the processes may grow in number before they are looked up again.
pub const GROWTH: i32 = 10;

/// When what is due.
pub struct Pace {
    lc: i32,
    cnt: i32,
    cache_scan_cnt: i32,
}

/// The state of the pace: the number of processes at the last pass, how many passes are left
/// until the next binding, and how many went by since the last search.
pub struct PaceView {
    pub procs: int,
    pub left: int,
    pub passes: int,
}

impl View for Pace {
    type V = PaceView;

    closed spec fn view(&self) -> PaceView {
        PaceView {
            procs: self.lc as int,
            left: self.cnt as int,
            passes: self.cache_scan_cnt as int,
        }
    }
}

/// A state that the pace can have between two passes.
pub open spec fn in_pace(p: PaceView) -> bool {
    &&& 0 <= p.procs <= u16::MAX
    &&& 0 <= p.left <= BIND_PASSES
    &&& 0 <= p.passes < SCAN_PASSES
}

/// The state at the start.
pub open spec fn initial_pace() -> PaceView {
    PaceView { procs: 0, left: 0, passes: 0 }
}

/// The search for apps without rules is due in this pass.
pub open spec fn scan_is_due(p: PaceView) -> bool {
    p.passes + 1 >= SCAN_PASSES
}

/// The state after a pass was counted towards the next search.
pub open spec fn scan_counted(p: PaceView) -> PaceView {
    PaceView {
        passes: if scan_is_due(p) {
            0
        } else {
            p.passes + 1
        },
        ..p
    }
}

/// The number of processes asks for looking them up again: it is not known, or has grown much.
pub open spec fn rescan_is_due(p: PaceView, procs: Option<u16>) -> bool {
    match procs {
        Some(cur) => cur > p.procs + GROWTH,
        None => true,
    }
}

/// The state after the number of processes was noted: a little growth asks for a binding in
/// this pass.
pub open spec fn procs_noted(p: PaceView, procs: Option<u16>) -> PaceView {
    match procs {
        Some(cur) => PaceView {
            procs: cur as int,
            left: if p.procs < cur <= p.procs + GROWTH {
                0
            } else {
                p.left
            },
            ..p
        },
        None => p,
    }
}

/// The binding of all threads is due in this pass.
pub open spec fn bind_is_due(p: PaceView) -> bool {
    p.left - 1 < 1
}

/// The state after a pass was counted towards the next binding.
pub open spec fn bind_counted(p: PaceView) -> PaceView {
    PaceView {
        left: if bind_is_due(p) {
            BIND_PASSES as int
        } else {
            p.left - 1
        },
        ..p
    }
}

impl Pace {
    /// The counters stay in their bounds.
    #[verifier::type_invariant]
    spec fn bounded(&self) -> bool {
        in_pace(self@)
    }

    /// The pace at the start.
    pub fn new() -> (r: Self)
        ensures
            r@ == initial_pace(),
    {
        Pace { lc: 0, cnt: 0, cache_scan_cnt: 0 }
    }

    /// Counts a pass, and tells whether the search for apps without rules is due in it.
    pub fn scan_due(&mut self) -> (r: bool)
        ensures
            r == scan_is_due(old(self)@),
            final(self)@ == scan_counted(old(self)@),
            in_pace(final(self)@),
    {
        proof {
            use_type_invariant(&*self);
        }
        if self.cache_scan_cnt + 1 >= SCAN_PASSES {
            self.cache_scan_cnt = 0;
            true
        } else {
            self.cache_scan_cnt = self.cache_scan_cnt + 1;
            false
        }
    }

    /// Notes the number of processes, `None` where it is not known, and tells whether the
    /// processes are to be looked up again.
    pub fn note_procs(&mut self, procs: Option<u16>) -> (r: bool)
        ensures
            r == rescan_is_due(old(self)@, procs),
            final(self)@ == procs_noted(old(self)@, procs),
            in_pace(final(self)@),
    {
        proof {
            use_type_invariant(&*self);
        }
        match procs {
            Some(p) => {
                let cur: i32 = p as i32;
                let before: i32 = self.lc;
                self.lc = cur;
                if cur > before + GROWTH {
                    true
                } else {
                    if cur > before {
                        self.cnt = 0;
                    }
                    false
                }
            },
            None => true,
        }
    }

    /// Counts a pass, and tells whether the binding of all threads is due in it.
    pub fn bind_due(&mut self) -> (r: bool)
        ensures
            r == bind_is_due(old(self)@),
            final(self)@ == bind_counted(old(self)@),
            in_pace(final(self)@),
    {
        proof {
            use_type_invariant(&*self);
        }
        if self.cnt - 1 < 1 {
            self.cnt = BIND_PASSES;
            true
        } else {
            self.cnt = self.cnt - 1;
            false
        }
    }
}

/// What happened in a pass.
pub enum Event {
    /// The pass has started.
    Started,
    /// The apps without rules were searched for.
    Searched,
    /// The processes were counted; `None` where that failed.
    Counted(Option<u16>),
    /// It was checked whether all placed processes are still there.
    Checked(bool),
    /// The processes were looked up.
    LookedUp,
    /// All threads were bound; true where one of them was gone.
    Bound(bool),
    /// The processes were looked up after the binding.
    LookedUpAgain,
}

/// What is to be done next in a pass.
pub enum Action {
    /// Search for apps without rules, and make rules for them.
    Search,
    /// Count the processes.
    CountProcs,
    /// Check whether all placed processes are still there.
    CheckProcs,
    /// Look up the processes of packages that have rules.
    LookUp,
    /// Bind all threads.
    Bind,
    /// Look up the processes once more.
    LookUpAgain,
    /// Sleep until the next pass.
    Sleep,
}

/// What is to be done once the processes are known.
pub open spec fn bind_or_sleep(p: PaceView) -> Action {
    if bind_is_due(p) {
        Action::Bind
    } else {
        Action::Sleep
    }
}

/// What is to be done after `e`.
pub open spec fn next_action(p: PaceView, e: Event) -> Action {
    match e {
        Event::Started => if scan_is_due(p) {
            Action::Search
        } else {
            Action::CountProcs
        },
        Event::Searched => Action::CountProcs,
        Event::Counted(procs) => if rescan_is_due(p, procs) {
            Action::LookUp
        } else {
            Action::CheckProcs
        },
        Event::Checked(all_there) => if all_there {
            bind_or_sleep(p)
        } else {
            Action::LookUp
        },
        Event::LookedUp => bind_or_sleep(p),
        Event::Bound(gone) => if gone {
            Action::LookUpAgain
        } else {
            Action::Sleep
        },
        Event::LookedUpAgain => Action::Sleep,
    }
}

/// The state of the pace after `e`.
pub open spec fn next_pace(p: PaceView, e: Event) -> PaceView {
    match e {
        Event::Started => scan_counted(p),
        Event::Counted(procs) => procs_noted(p, procs),
        Event::Checked(all_there) => if all_there {
            bind_counted(p)
        } else {
            p
        },
        Event::LookedUp => bind_counted(p),
        _ => p,
    }
}

impl Pace {
    fn after_look_up(&mut self) -> (r: Action)
        ensures
            r == bind_or_sleep(old(self)@),
            final(self)@ == bind_counted(old(self)@),
    {
        if self.bind_due() {
            Action::Bind
        } else {
            Action::Sleep
        }
    }

    /// Takes what happened in a pass, and tells what is to be done next.
    pub fn next(&mut self, e: Event) -> (r: Action)
        ensures
            r == next_action(old(self)@, e),
            final(self)@ == next_pace(old(self)@, e),
    {
        match e {
            Event::Started => if self.scan_due() {
                Action::Search
            } else {
                Action::CountProcs
            },
            Event::Searched => Action::CountProcs,
            Event::Counted(procs) => if self.note_procs(procs) {
                Action::LookUp
            } else {
                Action::CheckProcs
            },
            Event::Checked(all_there) => if all_there {
                self.after_look_up()
            } else {
                Action::LookUp
            },
            Event::LookedUp => self.after_look_up(),
            Event::Bound(gone) => if gone {
                Action::LookUpAgain
            } else {
                Action::Sleep
            },
            Event::LookedUpAgain => Action::Sleep,
        }
    }
}

/// `e` is what happens when `a` is done.
pub open spec fn answers(a: Action, e: Event) -> bool {
    match a {
        Action::Search => e is Searched,
        Action::CountProcs => e is Counted,
        Action::CheckProcs => e is Checked,
        Action::LookUp => e is LookedUp,
        Action::Bind => e is Bound,
        Action::LookUpAgain => e is LookedUpAgain,
        Action::Sleep => e is Started,
    }
}

/// The place of an action in a pass.
pub open spec fn stage(a: Action) -> int {
    match a {
        Action::Search => 1,
        Action::CountProcs => 2,
        Action::CheckProcs => 3,
        Action::LookUp => 4,
        Action::Bind => 5,
        Action::LookUpAgain => 6,
        Action::Sleep => 7,
    }
}

/// A pass goes forward: after each action comes one of a later stage, until it sleeps.
pub proof fn passes_end(p: PaceView, a: Action, e: Event)
    requires
        answers(a, e),
        !(a is Sleep),
    ensures
        stage(a) < stage(next_action(p, e)) <= 7,
{
}

/// The counters stay in their bounds, whatever happens.
pub proof fn pace_is_kept(p: PaceView, e: Event)
    requires
        in_pace(p),
    ensures
        in_pace(next_pace(p, e)),
{
}

/// Whatever the arguments are, two passes are at least a second apart.
pub proof fn passes_are_a_second_apart(args: Seq<Seq<char>>)
    ensures
        options(args).1 >= 1,
{
}

/// The state after `n` passes that were counted towards the search.
pub open spec fn after_passes(n: nat) -> PaceView
    decreases n,
{
    if n == 0 {
        initial_pace()
    } else {
        scan_counted(after_passes((n - 1) as nat))
    }
}

/// The search for apps without rules comes in every thirtieth pass and in no other.
pub proof fn searches_are_regular(n: nat)
    ensures
        after_passes(n).passes == n % 30,
        scan_is_due(after_passes(n)) <==> (n + 1) % 30 == 0,
    decreases n,
{
    if n > 0 {
        searches_are_regular((n - 1) as nat);
    }
}

/// Where the number of processes grows by at most ten, all threads are bound in the same pass.
pub proof fn growth_binds_at_once(p: PaceView, cur: u16)
    requires
        p.procs < cur <= p.procs + GROWTH,
    ensures
        bind_is_due(procs_noted(p, Some(cur))),
        !rescan_is_due(p, Some(cur)),
{
}

/// Whatever the numbers of processes are, each pass binds all threads or brings the next binding
/// nearer, and the binding is at most five passes away.
pub proof fn bindings_come_nearer(p: PaceView, procs: Option<u16>)
    requires
        in_pace(p),
    ensures
        ({
            let q = bind_counted(procs_noted(p, procs));
            &&& in_pace(q)
            &&& bind_is_due(procs_noted(p, procs)) ==> q.left == BIND_PASSES
            &&& !bind_is_due(procs_noted(p, procs)) ==> q.left < p.left
        }),
{
}

/// `n` with at least two digits.
pub open spec fn two_digits(n: i32) -> Seq<char> {
    if 0 <= n < 10 {
        "0"@ + decimal_int(n as int)
    } else {
        decimal_int(n as int)
    }
}

/// One line of the log.
pub open spec fn log_text(h: i32, m: i32, s: i32, level: Seq<char>, msg: Seq<char>) -> Seq<char> {
    "["@ + two_digits(h) + ":"@ + two_digits(m) + ":"@ + two_digits(s) + "]["@ + level + "] "@ + msg
        + "\n"@
}

/// Adds `n` with at least two digits.
fn add_two_digits(r: &mut String, n: i32)
    ensures
        final(r)@ == old(r)@ + two_digits(n),
{
    if 0 <= n && n < 10 {
        r.append("0");
    }
    r.append(to_decimal_int(n).as_str());
    assert(r@ =~= old(r)@ + two_digits(n));
}

/// One line of the log: the time of day, the level and the message.
pub fn log_line(h: i32, m: i32, s: i32, level: &str, msg: &str) -> (r: String)
    ensures
        r@ == log_text(h, m, s, level@, msg@),
{
    let mut r: String = "[".to_owned();
    add_two_digits(&mut r, h);
    r.append(":");
    add_two_digits(&mut r, m);
    r.append(":");
    add_two_digits(&mut r, s);
    r.append("][");
    r.append(level);
    r.append("] ");
    r.append(msg);
    r.append("\n");
    r
}

} // verus!
