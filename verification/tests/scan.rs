use aether_threads::packages::PackageSet;
use aether_threads::rules::{rp, R};
use aether_threads::scan::{
    is_app_status, is_unwatched_app, is_watched, process_number, scan_unknown, sp2, ProcEntry,
};

fn entry(name: &str, uid: Option<&str>, cmdline: &str, tasks: &[(&str, &str)]) -> ProcEntry {
    ProcEntry {
        name: name.to_string(),
        status: uid.map(|u| format!("Name:\tx\nUid:\t{}\t{}\nGid:\t0\n", u, u)),
        cmdline: cmdline.to_string(),
        tasks: tasks.iter().map(|t| (t.0.to_string(), t.1.to_string())).collect(),
    }
}

fn set(names: &[&str]) -> PackageSet {
    let mut s = PackageSet::new();
    for n in names {
        s.insert(n.to_string());
    }
    s
}

fn rule(p: &str, t: &str, c: &str) -> R {
    R { p: p.to_string(), t: t.to_string(), c: c.to_string(), pr: rp(t) }
}

#[test]
fn process_numbers() {
    assert_eq!(process_number("1000"), Some(1000));
    assert_eq!(process_number("999"), None);
    assert_eq!(process_number("self"), None);
    assert_eq!(process_number("-5000"), None);
    assert_eq!(process_number("99999999999"), None);
}

#[test]
fn user_numbers() {
    assert!(is_app_status("Name:\tx\nUid:\t10000\t0\t0\t0\n"));
    assert!(!is_app_status("Uid:\t9999\t10000\n"));
    assert!(!is_app_status("Uid:\nUid:\t10001\n"));
    assert!(!is_app_status("Uid:\tmany\nUid:\t10001\n"));
    assert!(is_app_status("xUid: 1\r\nUid: 10001\r\n"));
    assert!(!is_app_status(""));
}

#[test]
fn command_lines() {
    let s = set(&["com.a"]);
    assert!(is_watched(&s, "com.a\0x"));
    assert!(!is_watched(&s, "com.b"));
    assert!(!is_watched(&set(&[""]), "\0"));
    assert!(is_unwatched_app(&s, "com.b\0/x"));
    assert!(!is_unwatched_app(&s, "com.a"));
    assert!(!is_unwatched_app(&s, "/system/bin/x.y"));
    assert!(!is_unwatched_app(&s, "zygote"));
    assert!(!is_unwatched_app(&s, ""));
}

#[test]
fn watched_processes_are_placed() {
    let r = vec![rule("com.a", "", "0-3"), rule("com.a", "Render", "7")];
    let entries = vec![
        entry("1234", None, "com.a\0", &[("1234", "main\n"), ("1235", " Render \n"), ("x", "")]),
        entry("1300", None, "com.b\0", &[("1300", "main\n")]),
        entry("12", None, "com.a\0", &[("12", "main\n")]),
        entry("2000", None, "com.a\0", &[]),
        entry("net", None, "com.a\0", &[("1", "main\n")]),
        entry("3000", None, "com.c", &[("3000", "main\n")]),
    ];
    let v = sp2(&r, &set(&["com.a", "com.c"]), &entries);
    assert_eq!(
        v,
        vec![
            (
                1234,
                "com.a".to_string(),
                vec![
                    (1234, "main".to_string(), "0-3".to_string()),
                    (1235, "Render".to_string(), "7".to_string()),
                    (0, "".to_string(), "0-3".to_string()),
                ]
            ),
            (3000, "com.c".to_string(), vec![(3000, "main".to_string(), "".to_string())]),
        ]
    );
}

#[test]
fn unknown_apps_are_found() {
    let entries = vec![
        entry("1234", Some("10100"), "com.a\0", &[("1234", "main\n")]),
        entry("1235", Some("10101"), "com.b\0", &[("1235", "main\n"), ("1240", "GLThread")]),
        entry("1236", Some("1000"), "com.c\0", &[("1236", "main\n")]),
        entry("1237", None, "com.d\0", &[("1237", "main\n")]),
        entry("1238", Some("10102"), "sh\0", &[("1238", "sh\n")]),
        entry("1239", Some("10103"), "com.e\0", &[]),
        entry("500", Some("10104"), "com.f\0", &[("500", "main\n")]),
    ];
    let v = scan_unknown(&set(&["com.a"]), &entries);
    assert_eq!(
        v,
        vec![(
            1235,
            "com.b".to_string(),
            vec![(1235, "main".to_string()), (1240, "GLThread".to_string())]
        )]
    );
    assert!(scan_unknown(&set(&["com.a", "com.b"]), &entries).is_empty());
}

#[test]
fn no_process_is_both_known_and_unknown() {
    let entries = vec![
        entry("1234", Some("10100"), "com.a\0", &[("1234", "main\n")]),
        entry("1235", Some("10101"), "com.b\0", &[("1235", "main\n")]),
    ];
    let s = set(&["com.a"]);
    let known: Vec<String> = sp2(&[], &s, &entries).into_iter().map(|p| p.1).collect();
    let unknown: Vec<String> = scan_unknown(&s, &entries).into_iter().map(|p| p.1).collect();
    assert_eq!(known, vec!["com.a".to_string()]);
    assert_eq!(unknown, vec!["com.b".to_string()]);
}

#[test]
fn no_number_is_both_known_and_unknown() {
    let entries = vec![
        entry("1234", Some("10100"), "com.a\0", &[("1234", "main\n")]),
        entry("1235", Some("10101"), "com.b\0", &[("1235", "main\n")]),
        entry("1236", Some("10100"), "com.a\0", &[("1236", "main\n")]),
    ];
    let s = set(&["com.a"]);
    let known: Vec<i32> = sp2(&[], &s, &entries).into_iter().map(|p| p.0).collect();
    let unknown: Vec<i32> = scan_unknown(&s, &entries).into_iter().map(|p| p.0).collect();
    assert_eq!(known, vec![1234, 1236]);
    assert_eq!(unknown, vec![1235]);
}
