use std::time::{Duration, UNIX_EPOCH};

use aether_threads::config::C;
use aether_threads::document::{bool_of, fractions_fit, parse_document, text_of, Json};
use aether_threads::rules::R;

fn load(d: &str) -> Option<C> {
    C::load(d, UNIX_EPOCH)
}

fn rows(r: &[R]) -> Vec<(&str, &str, &str, i32)> {
    r.iter().map(|u| (u.p.as_str(), u.t.as_str(), u.c.as_str(), u.pr)).collect()
}

const FULL: &str = r#"
{
  "features": { "ebpf": false, "auto-for-none": true, "level": 3.5e1 },
  "rules": [
    {
      "friendly": "Game",
      "packages": ["com.game", "com.game.beta", 7],
      "cpuset": { "other": "0-3", "comm": { "7": ["UnityMain", "Job*"], "4-6": ["Render", null] } }
    },
    { "packages": [] },
    { "friendly": "no packages" },
    { "packages": ["com.plain"] }
  ]
}"#;

#[test]
fn rules_come_in_order() {
    let c = load(FULL).unwrap();
    assert_eq!(
        rows(&c.r),
        vec![
            ("com.game", "", "0-3", 200),
            ("com.game", "UnityMain", "7", 1009),
            ("com.game", "Job*", "7", 103),
            ("com.game", "Render", "4-6", 1006),
            ("com.plain", "", "0", 200),
        ]
    );
    assert!(c.s.contains("com.game") && c.s.contains("com.game.beta") && c.s.contains("com.plain"));
    assert!(!c.s.contains("Game"));
    assert!(!c.ebpf);
    assert!(c.auto_for_none);
}

#[test]
fn a_bare_list_has_default_features() {
    let c = load(r#"[{"packages":["a"],"cpuset":{"other":"1"}}]"#).unwrap();
    assert_eq!(rows(&c.r), vec![("a", "", "1", 200)]);
    assert!(c.ebpf);
    assert!(!c.auto_for_none);
}

#[test]
fn documents_without_entries_are_refused() {
    assert!(load("").is_none());
    assert!(load("{").is_none());
    assert!(load("{}").is_none());
    assert!(load(r#"{"rules":{}}"#).is_none());
    assert!(load(r#""rules""#).is_none());
    assert!(load("[]").is_some());
    assert_eq!(load(r#"{"rules":[]}"#).unwrap().r.len(), 0);
}

#[test]
fn values_of_other_kinds_are_passed_over() {
    let c = load(
        r#"{"features":{"ebpf":"no"},"rules":[1,"x",{"packages":"a"},
            {"packages":["b"],"cpuset":{"other":5,"comm":["x"]}}]}"#,
    )
    .unwrap();
    assert!(c.ebpf);
    assert_eq!(rows(&c.r), vec![("b", "", "0", 200)]);
}

#[test]
fn later_keys_replace_earlier_ones() {
    let c = load(r#"[{"packages":["a"],"packages":["b"],"cpuset":{"other":"1","other":"2"}}]"#);
    assert_eq!(rows(&c.unwrap().r), vec![("b", "", "2", 200)]);
}

#[test]
fn configurations_come_from_values_too() {
    let root = Json::Array(vec![Json::Object(vec![
        ("packages".to_string(), Json::Array(vec![Json::Text("a".to_string())])),
        (
            "cpuset".to_string(),
            Json::Object(vec![("other".to_string(), Json::Text("4".to_string()))]),
        ),
    ])]);
    assert_eq!(rows(&C::from_json(&root, UNIX_EPOCH).unwrap().r), vec![("a", "", "4", 200)]);
    assert!(C::from_json(&Json::Null, UNIX_EPOCH).is_none());
}

#[test]
fn documents_keep_what_is_read() {
    let j = parse_document(r#"{"a":["x","a long string that is not short",null,1],"b":true}"#).unwrap();
    assert!(!j.is_list());
    assert_eq!(
        j.get("a").unwrap().list_strings(),
        vec!["x".to_string(), "a long string that is not short".to_string()]
    );
    assert!(bool_of(j.get("b"), false));
    assert!(bool_of(j.get("missing"), true));
    assert_eq!(text_of(j.get("b"), "no"), "no");
    assert!(j.get_in("b", "c").is_none());
    assert!(parse_document("[1,]").is_none());
}

#[test]
fn escapes_are_read() {
    let j = parse_document("[\"a\\n\\u00e9\\\"\"]").unwrap();
    assert_eq!(j.list_strings(), vec!["a\né\"".to_string()]);
}

#[test]
fn long_fractions_are_seen() {
    assert!(fractions_fit(""));
    assert!(fractions_fit("[0.5, 1.000, 100.0]"));
    let long = format!("[0.{}1]", "0".repeat(40000));
    assert!(!fractions_fit(&long));
    let quoted = format!("[\"0.{}1\"]", "0".repeat(40000));
    assert!(fractions_fit(&quoted));
    let behind_digits = format!("[10.{}1]", "0".repeat(40000));
    assert!(fractions_fit(&behind_digits));
    let fits = format!("[0.{}1]", "0".repeat(32767));
    assert!(fractions_fit(&fits));
    assert!(!fractions_fit(&format!("[0.{}1]", "0".repeat(32768))));
    let digits = format!("[0.{}{}]", "0".repeat(32748), "9".repeat(100));
    assert!(fractions_fit(&digits));
    assert!(load(&digits).is_some());
    assert!(!fractions_fit(&format!("[0.{}{}]", "0".repeat(32749), "1".repeat(20))));
    assert!(load(&fits).is_some());
    assert!(load(&behind_digits).is_some());
}

#[test]
fn rules_are_for_tracked_packages() {
    let c = load(FULL).unwrap();
    for u in &c.r {
        assert!(c.s.contains(&u.p));
        assert_eq!(u.pr, aether_threads::rules::rp(&u.t));
    }
}

#[test]
fn words_are_read() {
    let j = parse_document(" [ null , true,false ] ").unwrap();
    match j {
        Json::Array(items) => {
            assert_eq!(items.len(), 3);
            assert!(matches!(items[0], Json::Null));
            assert!(matches!(items[1], Json::Bool(true)));
            assert!(matches!(items[2], Json::Bool(false)));
        }
        _ => panic!("a list"),
    }
}

#[test]
fn the_time_of_the_file_is_kept() {
    let m = UNIX_EPOCH + Duration::from_secs(77);
    assert_eq!(C::load("[]", m).unwrap().m, m);
    assert_eq!(C::from_json(&Json::Array(vec![]), m).unwrap().m, m);
}

#[test]
fn any_text_can_be_tried() {
    let long = format!("[0.{}1]", "0".repeat(40000));
    assert!(C::try_load(&long, UNIX_EPOCH).is_err());
    assert!(matches!(C::try_load("{", UNIX_EPOCH), Ok(None)));
    match C::try_load(FULL, UNIX_EPOCH) {
        Ok(Some(c)) => assert_eq!(c.r.len(), 5),
        _ => panic!("a configuration"),
    }
}

#[test]
fn exactly_the_named_packages_are_tracked() {
    let c = load(r#"[{"packages":["a","b",1]},{"packages":["c"]},{"other":["d"]}]"#).unwrap();
    assert!(c.s.contains("a") && c.s.contains("b") && c.s.contains("c") && !c.s.contains("d"));
    assert_eq!(rows(&c.r), vec![("a", "", "0", 200), ("c", "", "0", 200)]);
}
