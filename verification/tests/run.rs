use aether_threads::run::{log_line, parse_args, Action, Event, Pace};

const DEFAULT: &str = "/sdcard/Android/Aether/threads.json";

fn parsed(args: &[&str]) -> (String, u64) {
    let a: Vec<String> = args.iter().map(|s| s.to_string()).collect();
    parse_args(&a)
}

#[test]
fn options_and_their_defaults() {
    assert_eq!(parsed(&[]), (DEFAULT.to_string(), 2));
    assert_eq!(parsed(&["prog"]), (DEFAULT.to_string(), 2));
    assert_eq!(parsed(&["-c", "x"]), (DEFAULT.to_string(), 2));
    assert_eq!(parsed(&["prog", "-c", "/a.json", "-s", "9"]), ("/a.json".to_string(), 9));
    assert_eq!(parsed(&["prog", "x", "-s", "5", "y"]), (DEFAULT.to_string(), 5));
    assert_eq!(parsed(&["prog", "-s", "0"]), (DEFAULT.to_string(), 1));
    assert_eq!(parsed(&["prog", "-s", "fast"]), (DEFAULT.to_string(), 2));
    assert_eq!(parsed(&["prog", "-s", "7", "-s", "-1"]), (DEFAULT.to_string(), 2));
    assert_eq!(parsed(&["prog", "-c", "-s", "3"]), ("-s".to_string(), 2));
    assert_eq!(parsed(&["prog", "-c", "a", "-c", "b"]), ("b".to_string(), 2));
    assert_eq!(parsed(&["prog", "-s", "4", "-c"]), (DEFAULT.to_string(), 4));
    assert_eq!(parsed(&["prog", "-s"]), (DEFAULT.to_string(), 2));
}

#[test]
fn searches_come_every_thirty_passes() {
    let mut pace = Pace::new();
    for pass in 1..=90 {
        assert_eq!(pace.scan_due(), pass % 30 == 0);
    }
}

#[test]
fn bindings_come_every_five_passes() {
    let mut pace = Pace::new();
    assert!(pace.bind_due());
    for pass in 1..=20 {
        assert!(!pace.note_procs(Some(0)));
        assert_eq!(pace.bind_due(), pass % 5 == 0);
    }
}

#[test]
fn growth_changes_the_pace() {
    let mut pace = Pace::new();
    assert!(pace.note_procs(Some(100)));
    assert!(pace.bind_due());
    assert!(!pace.note_procs(Some(110)));
    assert!(pace.bind_due());
    assert!(pace.note_procs(Some(121)));
    assert!(!pace.bind_due());
    assert!(!pace.note_procs(Some(5)));
    assert!(!pace.bind_due());
    assert!(!pace.note_procs(Some(6)));
    assert!(pace.bind_due());
    assert!(pace.note_procs(None));
    assert!(!pace.bind_due());
    assert!(!pace.note_procs(Some(6)));
}

#[test]
fn lines_of_the_log() {
    assert_eq!(log_line(7, 5, 0, "INFO", "x"), "[07:05:00][INFO] x\n");
    assert_eq!(log_line(23, 59, 60, "ERROR", "配置失败"), "[23:59:60][ERROR] 配置失败\n");
    assert_eq!(log_line(0, -1, 100, "", ""), format!("[{:02}:{:02}:{:02}][] \n", 0, -1, 100));
}

#[test]
fn the_first_pass_binds() {
    let mut pace = Pace::new();
    assert!(matches!(pace.next(Event::Started), Action::CountProcs));
    assert!(matches!(pace.next(Event::Counted(Some(300))), Action::LookUp));
    assert!(matches!(pace.next(Event::LookedUp), Action::Bind));
    assert!(matches!(pace.next(Event::Bound(true)), Action::LookUpAgain));
    assert!(matches!(pace.next(Event::LookedUpAgain), Action::Sleep));
}

#[test]
fn quiet_passes_check_and_sleep() {
    let mut pace = Pace::new();
    for pass in 1..=60 {
        let first = pace.next(Event::Started);
        if pass % 30 == 0 {
            assert!(matches!(first, Action::Search));
            assert!(matches!(pace.next(Event::Searched), Action::CountProcs));
        } else {
            assert!(matches!(first, Action::CountProcs));
        }
        assert!(matches!(pace.next(Event::Counted(Some(0))), Action::CheckProcs));
        let last = pace.next(Event::Checked(true));
        if pass % 5 == 1 {
            assert!(matches!(last, Action::Bind));
            assert!(matches!(pace.next(Event::Bound(false)), Action::Sleep));
        } else {
            assert!(matches!(last, Action::Sleep));
        }
    }
}

#[test]
fn missing_processes_are_looked_up() {
    let mut pace = Pace::new();
    assert!(matches!(pace.next(Event::Started), Action::CountProcs));
    assert!(matches!(pace.next(Event::Counted(Some(10))), Action::CheckProcs));
    assert!(matches!(pace.next(Event::Checked(false)), Action::LookUp));
    assert!(matches!(pace.next(Event::LookedUp), Action::Bind));
    assert!(matches!(pace.next(Event::Counted(None)), Action::LookUp));
    assert!(matches!(pace.next(Event::LookedUp), Action::Sleep));
}
