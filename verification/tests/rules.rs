use aether_threads::rules::{add_package_rule, add_rules, choose_cpus, mt, rp, R};

fn rule(p: &str, t: &str, c: &str) -> R {
    R { p: p.to_string(), t: t.to_string(), c: c.to_string(), pr: rp(t) }
}

#[test]
fn ranks_of_patterns() {
    assert_eq!(rp(""), 200);
    assert_eq!(rp("RenderThread"), 1012);
    assert_eq!(rp("é"), 1002);
    assert_eq!(rp("[a]"), 1003);
    assert_eq!(rp("Thread-*"), 107);
    assert_eq!(rp("*"), 100);
    assert_eq!(rp("Job?"), 303);
    assert_eq!(rp("J?b*"), 302);
    assert_eq!(rp("Job[0-9]*"), 506);
    assert_eq!(rp("Job[0-9]?"), 506);
}

#[test]
fn exact_patterns() {
    assert!(mt("main", "main"));
    assert!(!mt("main", "mainx"));
    assert!(!mt("main", ""));
    assert!(!mt("", ""));
    assert!(!mt("", "main"));
    assert!(mt("a?c", "a?c"));
    assert!(!mt("a?c", "abc"));
}

#[test]
fn wildcard_patterns() {
    assert!(mt("*", ""));
    assert!(mt("*", "anything"));
    assert!(mt("Job*", "Job"));
    assert!(mt("Job*", "Job.Worker"));
    assert!(!mt("Job*", "xJob"));
    assert!(mt("*Thread", "RenderThread"));
    assert!(mt("Job*3", "Job.Worker 3"));
    assert!(!mt("ab*ba", "aba"));
    assert!(mt("ab*ba", "abba"));
    assert!(mt("a**", "ab*"));
    assert!(!mt("a**", "ab"));
    assert!(mt("é*ü", "éxü"));
}

#[test]
fn exact_patterns_rank_highest() {
    assert!(rp("a") > rp("Job.Worker[0-9]?*"));
    assert!(rp("a") > rp("?????????????"));
}

#[test]
fn the_highest_rank_is_followed() {
    let r = vec![
        rule("app", "", "0-3"),
        rule("app", "Job*", "1"),
        rule("app", "Job?*", "2"),
        rule("app", "Render", "7"),
        rule("other", "Render", "5"),
    ];
    assert_eq!(choose_cpus(&r, "app", "Render"), "7");
    assert_eq!(choose_cpus(&r, "app", "idle"), "0-3");
    assert_eq!(choose_cpus(&r, "other", "Render"), "5");
    assert_eq!(choose_cpus(&r, "other", "idle"), "");
    assert_eq!(choose_cpus(&r, "third", "Render"), "");
    assert_eq!(choose_cpus(&[], "app", "Render"), "");
}

#[test]
fn short_wildcards_rank_below_the_package() {
    let r = vec![rule("app", "", "0-3"), rule("app", "Job*", "1")];
    assert_eq!(choose_cpus(&r, "app", "Job1"), "0-3");
    let alone = vec![rule("app", "Job*", "1")];
    assert_eq!(choose_cpus(&alone, "app", "Job1"), "1");
}

#[test]
fn of_equal_ranks_the_first_is_followed() {
    let r = vec![rule("app", "Job", "1"), rule("app", "Job", "2")];
    assert_eq!(choose_cpus(&r, "app", "Job"), "1");
    let p = vec![rule("app", "", "3"), rule("app", "", "4")];
    assert_eq!(choose_cpus(&p, "app", "Job"), "3");
}

#[test]
fn negative_ranks_are_never_followed() {
    let r = vec![R {
        p: "app".to_string(),
        t: "Job".to_string(),
        c: "1".to_string(),
        pr: -1,
    }];
    assert_eq!(choose_cpus(&r, "app", "Job"), "");
}

#[test]
fn rules_of_other_packages_change_nothing() {
    let mut r = vec![rule("app", "", "0-3")];
    let before = choose_cpus(&r, "app", "Render");
    r.push(rule("other", "Render", "7"));
    assert_eq!(choose_cpus(&r, "app", "Render"), before);
    r.push(rule("app", "Render", "6"));
    assert_eq!(choose_cpus(&r, "app", "Render"), "6");
}

#[test]
fn adding_rules() {
    let mut r: Vec<R> = Vec::new();
    add_package_rule(&mut r, "app", "0-3");
    add_rules(&mut r, "app", "4-7", &vec!["main".to_string(), "Job*".to_string()]);
    assert_eq!(r.len(), 3);
    assert_eq!((r[0].p.as_str(), r[0].t.as_str(), r[0].c.as_str(), r[0].pr), ("app", "", "0-3", 200));
    assert_eq!((r[1].p.as_str(), r[1].t.as_str(), r[1].c.as_str(), r[1].pr), ("app", "main", "4-7", 1004));
    assert_eq!((r[2].p.as_str(), r[2].t.as_str(), r[2].c.as_str(), r[2].pr), ("app", "Job*", "4-7", 103));
    let copy = r[2].clone();
    assert_eq!(copy.t, "Job*");
}

#[test]
fn tiers_of_patterns() {
    let star = format!("{}*", "a".repeat(199));
    let question = format!("{}?", "a".repeat(199));
    let bracket = format!("[*{}", "a".repeat(198));
    assert_eq!(rp(&star), 299);
    assert_eq!(rp(&question), 499);
    assert_eq!(rp(&bracket), 698);
    assert!(rp("?") > rp(&star));
    assert!(rp("[*") > rp(&question));
    assert!(rp("a") > rp(&bracket));
}
