use aether_threads::clusters::{detect_clusters, needs_cpu_freqs, Policy};
use aether_threads::cpus::affinity_mask;

fn policy(name: &str, related: &str, freq: &str) -> Policy {
    Policy {
        name: name.to_string(),
        related_cpus: Some(related.to_string()),
        max_freq: Some(freq.to_string()),
    }
}

fn topology(policies: &[Policy], freqs: &[&str]) -> (String, String, String) {
    let texts: Vec<String> = freqs.iter().map(|f| f.to_string()).collect();
    detect_clusters(policies, &texts)
}

fn three(a: &str, b: &str, c: &str) -> (String, String, String) {
    (a.to_string(), b.to_string(), c.to_string())
}

#[test]
fn policies_show_the_clusters() {
    let p = vec![
        policy("policy0", "0 1 2 3\n", "1800000\n"),
        policy("policy7", "7\n", "3000000\n"),
        policy("policy4", "4-6\n", "2400000\n"),
    ];
    assert!(!needs_cpu_freqs(&p));
    assert_eq!(topology(&p, &["1", "2"]), three("7", "0-3", "1+3+4"));
}

#[test]
fn broken_policies_are_passed_over() {
    let mut p = vec![
        policy("policy0", "0-3", "100"),
        policy("boost", "0-7", "900"),
        policy("policy4", "4-7", "fast"),
        policy("policy5", "", "300"),
        policy("policy6", "x,y", "300"),
    ];
    p.push(Policy { name: "policy7".to_string(), related_cpus: None, max_freq: Some("1".to_string()) });
    p.push(Policy { name: "policy8".to_string(), related_cpus: Some("1".to_string()), max_freq: None });
    assert!(needs_cpu_freqs(&p));
    p.push(policy("policy9", "4,5", "200"));
    assert!(!needs_cpu_freqs(&p));
    assert_eq!(topology(&p, &[]), three("4-5", "0-3", "2+4"));
}

#[test]
fn odd_ranges_of_policies() {
    let p = vec![policy("policy0", "x-2", "100"), policy("policy1", "5-y, 9-8", "200")];
    assert_eq!(topology(&p, &[]), three("5", "0-2", "1+3"));
}

#[test]
fn single_cpus_are_grouped() {
    let freqs = ["1800", "1800", " 2400\n", "1800", "bad", "3000", "2400"];
    assert_eq!(topology(&[], &freqs), three("5", "0-1,3", "1+2+3"));
    let one = vec![policy("policy0", "0-6", "1")];
    assert_eq!(topology(&one, &freqs), three("5", "0-1,3", "1+2+3"));
}

#[test]
fn nothing_known_is_one_cpu() {
    assert_eq!(topology(&[], &[]), three("0", "0", "1"));
    assert_eq!(topology(&[], &["x"]), three("0", "0", "1"));
}

#[test]
fn equal_frequencies_keep_their_order() {
    let p = vec![
        policy("policy0", "0-1", "100"),
        policy("policy2", "2", "100"),
        policy("policy3", "3-5", "100"),
    ];
    assert_eq!(topology(&p, &[]), three("0-1", "3-5", "2+1+3"));
}

#[test]
fn one_cluster_is_both_fast_and_slow() {
    assert_eq!(topology(&[], &["5", "5", "5", "5"]), three("0-3", "0-3", "4"));
}

#[test]
fn at_most_128_cpus_are_looked_at() {
    let mut freqs: Vec<String> = vec!["7".to_string(); 128];
    freqs.push("9".to_string());
    assert_eq!(detect_clusters(&[], &freqs), three("0-127", "0-127", "128"));
}

#[test]
fn cluster_lists_name_the_cpus() {
    let (big, _, _) = topology(&[], &["9", "1", "9", "9"]);
    assert_eq!(affinity_mask(&big, 5), Some(vec![true, false, true, true, false]));
}
