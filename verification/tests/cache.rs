use aether_threads::assign::{auto_alloc, extend_cache, Process};
use aether_threads::cache::{add_cached, load_cache, try_load_cache};
use aether_threads::document::Json;
use aether_threads::packages::{est_load, PackageSet};
use aether_threads::rules::{choose_cpus, R};
use aether_threads::scan::{scan_unknown, ProcEntry};

fn rows(r: &[R]) -> Vec<(&str, &str, &str, i32)> {
    r.iter().map(|u| (u.p.as_str(), u.t.as_str(), u.c.as_str(), u.pr)).collect()
}

fn process(pid: i32, pkg: &str, threads: &[&str]) -> Process {
    let th = threads.iter().enumerate().map(|(i, n)| (pid + i as i32, n.to_string())).collect();
    (pid, pkg.to_string(), th)
}

#[test]
fn cached_entries_are_loaded() {
    let mut s = PackageSet::new();
    let mut r: Vec<R> = Vec::new();
    let text = r#"[
      {"packages":["com.a","com.a2"],"cpuset":{"other":"0,1,2","comm":{"6,7":["x","","y*"]}}},
      {"packages":["com.miui.home"],"cpuset":{"other":"1"}},
      {"packages":[]}
    ]"#;
    assert_eq!(load_cache(&mut s, &mut r, text), Some(3));
    assert_eq!(
        rows(&r),
        vec![("com.a", "", "0-2", 200), ("com.a", "x", "6-7", 1001), ("com.a", "y*", "6-7", 101)]
    );
    assert!(s.contains("com.a") && s.contains("com.a2") && !s.contains("com.miui.home"));
}

#[test]
fn other_texts_add_nothing() {
    let mut s = PackageSet::new();
    let mut r: Vec<R> = Vec::new();
    assert_eq!(load_cache(&mut s, &mut r, ""), None);
    assert_eq!(load_cache(&mut s, &mut r, "{}"), None);
    assert_eq!(load_cache(&mut s, &mut r, "[{]"), None);
    assert_eq!(load_cache(&mut s, &mut r, "[]"), Some(0));
    assert!(r.is_empty());
    assert_eq!(add_cached(&mut s, &mut r, &Json::Text("[]".to_string())), None);
}

#[test]
fn entries_without_cpus_get_the_first() {
    let mut s = PackageSet::new();
    let mut r: Vec<R> = Vec::new();
    assert_eq!(load_cache(&mut s, &mut r, r#"[{"packages":["a.b"]}]"#), Some(1));
    assert_eq!(rows(&r), vec![("a.b", "", "0", 200)]);
}

#[test]
fn a_new_cache_is_written() {
    let procs = vec![
        process(2000, "com.game", &["UnityMain", "binder", "RenderThread"]),
        process(3000, "com.other", &["GLThread"]),
        process(4000, "com.game", &["Codec"]),
    ];
    let (text, heavy) = auto_alloc("com.game", &procs, "7", "0-3", "").unwrap();
    assert_eq!(heavy, 3);
    assert_eq!(
        text,
        "[\n  {\n    \"friendly\": \"[auto] com.game\",\n    \"packages\": [\"com.game\"],\n    \"cpuset\": {\n      \"other\": \"0-3\",\n      \"comm\": {\n        \"7\": [\n        \"UnityMain\",\n        \"RenderThread\",\n        \"Codec\"\n        ]\n      }\n    }\n  }\n]\n"
    );
}

#[test]
fn apps_without_heavy_threads_list_none() {
    let procs = vec![process(2000, "com.calm", &["binder", "Thread-1"])];
    let (text, heavy) = auto_alloc("com.calm", &procs, "7", "0", "x").unwrap();
    assert_eq!(heavy, 0);
    assert_eq!(
        text,
        "[\n  {\n    \"friendly\": \"[auto] com.calm\",\n    \"packages\": [\"com.calm\"],\n    \"cpuset\": {\n      \"other\": \"0\",\n      \"comm\": {\n        \n      }\n    }\n  }\n]\n"
    );
}

#[test]
fn system_packages_get_no_entry() {
    assert!(auto_alloc("com.android.phone", &[], "7", "0", "").is_none());
}

#[test]
fn caches_are_extended() {
    assert_eq!(extend_cache("", "E"), "[\nE\n]\n");
    assert_eq!(extend_cache(" \n", "E"), "[\nE\n]\n");
    assert_eq!(extend_cache("{}", "E"), "[\nE\n]\n");
    assert_eq!(extend_cache("[1", "E"), "[\nE\n]\n");
    assert_eq!(extend_cache(" [\n1\n]\n", "E"), " [\n1,\nE\n]");
    assert_eq!(extend_cache("[1 ] ", "E"), "[1,\nE\n]");
    assert_eq!(extend_cache("[]", "E"), "[,\nE\n]");
}

#[test]
fn what_is_cached_reads_back() {
    let procs = vec![
        process(2000, "com.game", &["UnityMain", "binder", "", "GL é"]),
        process(3000, "com.chat", &["binder"]),
    ];
    let (one, _) = auto_alloc("com.game", &procs, "6,7", "0,1", "").unwrap();
    let (two, _) = auto_alloc("com.chat", &procs, "6,7", "0,1", &one).unwrap();
    let mut s = PackageSet::new();
    let mut r: Vec<R> = Vec::new();
    assert_eq!(load_cache(&mut s, &mut r, &two), Some(2));
    assert_eq!(
        rows(&r),
        vec![
            ("com.game", "", "0-1", 200),
            ("com.game", "UnityMain", "6-7", 1009),
            ("com.game", "GL é", "6-7", 1005),
            ("com.chat", "", "0-1", 200),
        ]
    );
    assert!(s.contains("com.game") && s.contains("com.chat"));
}

#[test]
fn caches_by_hand_read_back_too() {
    let procs = vec![process(2000, "com.b", &["Render"])];
    let old = "\t[ {\"packages\" : [ \"com.a\" ] }\n\n]  ";
    let (text, _) = auto_alloc("com.b", &procs, "7", "0", old).unwrap();
    let mut s = PackageSet::new();
    let mut r: Vec<R> = Vec::new();
    assert_eq!(load_cache(&mut s, &mut r, &text), Some(2));
    assert_eq!(
        rows(&r),
        vec![("com.a", "", "0", 200), ("com.b", "", "0", 200), ("com.b", "Render", "7", 1006)]
    );
}

#[test]
fn an_empty_list_cannot_be_extended() {
    let procs = vec![process(2000, "com.b", &["Render"])];
    let (text, _) = auto_alloc("com.b", &procs, "7", "0", "[]").unwrap();
    let mut s = PackageSet::new();
    let mut r: Vec<R> = Vec::new();
    assert_eq!(load_cache(&mut s, &mut r, &text), None);
}

#[test]
fn deep_lists_are_read_up_to_the_limit() {
    let mut s = PackageSet::new();
    let mut r: Vec<R> = Vec::new();
    let deep = format!("{}\"x\"{}", "[".repeat(512), "]".repeat(512));
    assert_eq!(load_cache(&mut s, &mut r, &deep), Some(1));
    let deeper = format!("{}\"x\"{}", "[".repeat(513), "]".repeat(513));
    assert_eq!(load_cache(&mut s, &mut r, &deeper), None);
}

#[test]
fn many_keys_keep_their_order() {
    let mut s = PackageSet::new();
    let mut r: Vec<R> = Vec::new();
    let lists: Vec<String> = (0..40).rev().map(|i| format!("\"{}\":[\"t{}\"]", i, i)).collect();
    let text = format!("[{{\"packages\":[\"a.b\"],\"cpuset\":{{\"comm\":{{{}}}}}}}]", lists.join(","));
    assert_eq!(load_cache(&mut s, &mut r, &text), Some(1));
    let cpus: Vec<String> = r.iter().skip(1).map(|u| u.c.clone()).collect();
    let expected: Vec<String> = (0..40).rev().map(|i| i.to_string()).collect();
    assert_eq!(cpus, expected);
}

#[test]
fn seen_threads_go_where_their_load_belongs() {
    let threads = ["UnityMain", "binder", "GLThread 3", "Thread-2", "", "AudioTrack"];
    let procs = vec![process(2000, "com.game", &threads), process(3000, "com.b", &["Render"])];
    let (text, heavy) = auto_alloc("com.game", &procs, "7", "0,1,2,3", "").unwrap();
    assert_eq!(heavy, 3);
    let mut s = PackageSet::new();
    let mut r: Vec<R> = Vec::new();
    assert_eq!(load_cache(&mut s, &mut r, &text), Some(1));
    for comm in threads {
        let expected = if est_load(comm) >= 8 { "7" } else { "0-3" };
        assert_eq!(choose_cpus(&r, "com.game", comm), expected);
    }
    assert_eq!(choose_cpus(&r, "com.b", "Render"), "");
}

#[test]
fn mixed_cpu_lists_lose_their_ranges_in_the_cache() {
    let procs = vec![process(2000, "com.game", &["Render"])];
    let (text, _) = auto_alloc("com.game", &procs, "0-1,3", "4-7", "").unwrap();
    let mut s = PackageSet::new();
    let mut r: Vec<R> = Vec::new();
    assert_eq!(load_cache(&mut s, &mut r, &text), Some(1));
    assert_eq!(rows(&r), vec![("com.game", "", "4-7", 200), ("com.game", "Render", "3", 1006)]);
}

#[test]
fn cached_apps_are_known() {
    let entries = vec![ProcEntry {
        name: "2000".to_string(),
        status: Some("Uid:\t10001\n".to_string()),
        cmdline: "com.game\0".to_string(),
        tasks: vec![("2000".to_string(), "UnityMain\n".to_string())],
    }];
    let mut s = PackageSet::new();
    let mut r: Vec<R> = Vec::new();
    let found = scan_unknown(&s, &entries);
    assert_eq!(found.len(), 1);
    let (text, _) = auto_alloc(&found[0].1, &found, "7", "0", "").unwrap();
    assert_eq!(load_cache(&mut s, &mut r, &text), Some(1));
    assert!(scan_unknown(&s, &entries).is_empty());
}

#[test]
fn caches_of_any_values_are_kept() {
    let procs = vec![process(2000, "com.b", &["Render"])];
    let deep = format!("[{}{}]", "[".repeat(511), "1".to_string() + &"]".repeat(511));
    let olds = [
        "[1]",
        "[0]",
        "[-0.50 ]",
        "[12345678901234567890123456789e+3\t]",
        "[1e-400, true, false , null]",
        "[\"\\u00e9\\n\\\"]\"]",
        "[\"]\"]\n\n",
        "  [[], {}]",
        "[{\"a\":[1,\"x]\"]},{\"packages\":[\"com.a\"]}]",
        deep.as_str(),
    ];
    for old in olds {
        let mut s = PackageSet::new();
        let mut r: Vec<R> = Vec::new();
        let before = load_cache(&mut s, &mut r, old).unwrap();
        let (text, _) = auto_alloc("com.b", &procs, "7", "0", old).unwrap();
        let mut t = PackageSet::new();
        let mut q: Vec<R> = Vec::new();
        assert_eq!(load_cache(&mut t, &mut q, &text), Some(before + 1), "{}", old);
        assert_eq!(q.len(), r.len() + 2);
        assert_eq!(rows(&q)[..r.len()], rows(&r)[..]);
        assert_eq!(
            rows(&q)[r.len()..],
            [("com.b", "", "0", 200), ("com.b", "Render", "7", 1006)]
        );
    }
}

#[test]
fn lists_have_brackets_at_their_ends() {
    let mut s = PackageSet::new();
    let mut r: Vec<R> = Vec::new();
    for text in ["[1]\u{a0}", "\u{3000}[1]", "[1\u{2003}]", "[1],", "x[1]", "[1] ]", "[1,]"] {
        assert_eq!(load_cache(&mut s, &mut r, text), None, "{}", text);
    }
    assert_eq!(load_cache(&mut s, &mut r, "\u{b}[1]\r\n \u{c}"), Some(1));
}

#[test]
fn any_cache_text_can_be_tried() {
    let mut s = PackageSet::new();
    let mut r: Vec<R> = Vec::new();
    let long = format!("[{{\"packages\":[\"a.b\"]}},0.{}1]", "0".repeat(40000));
    assert!(try_load_cache(&mut s, &mut r, &long).is_err());
    assert!(r.is_empty() && !s.contains("a.b"));
    assert!(matches!(try_load_cache(&mut s, &mut r, "[}"), Ok(None)));
    assert!(matches!(try_load_cache(&mut s, &mut r, "[{\"packages\":[\"a.b\"]}]"), Ok(Some(1))));
    assert_eq!(rows(&r), vec![("a.b", "", "0", 200)]);
}

#[test]
fn each_accepted_entry_leads_with_one_package_rule() {
    let mut s = PackageSet::new();
    let mut r: Vec<R> = Vec::new();
    let text = r#"[
      {"packages":["a.b"],"cpuset":{"other":"0,1","comm":{"4,5":["x",""],"7":["y"]}}},
      {"packages":["com.android.x"]},
      {"packages":["c.d"],"cpuset":{"comm":{"6":[""]}}}
    ]"#;
    assert_eq!(load_cache(&mut s, &mut r, text), Some(3));
    assert_eq!(
        rows(&r),
        vec![
            ("a.b", "", "0-1", 200),
            ("a.b", "x", "4-5", 1001),
            ("a.b", "y", "7", 1001),
            ("c.d", "", "0", 200),
        ]
    );
}

#[test]
fn loading_again_repeats_the_rules() {
    let mut s = PackageSet::new();
    let mut r: Vec<R> = Vec::new();
    let text = r#"[{"packages":["a.b"],"cpuset":{"comm":{"7":["y"]}}}]"#;
    assert_eq!(load_cache(&mut s, &mut r, text), Some(1));
    assert_eq!(load_cache(&mut s, &mut r, text), Some(1));
    assert_eq!(
        rows(&r),
        vec![("a.b", "", "0", 200), ("a.b", "y", "7", 1001), ("a.b", "", "0", 200), ("a.b", "y", "7", 1001)]
    );
    assert!(s.contains("a.b"));
}
