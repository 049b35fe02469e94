use aether_threads::bind::{aa, some_gone, thread_gone};
use aether_threads::scan::Placed;

fn thread(tid: i32, comm: &str, cpus: &str) -> (i32, String, String) {
    (tid, comm.to_string(), cpus.to_string())
}

#[test]
fn threads_with_cpus_are_bound_in_order() {
    let v: Vec<Placed> = vec![
        (1000, "a".to_string(), vec![thread(1000, "main", "0-3"), thread(1001, "x", "")]),
        (2000, "b".to_string(), vec![]),
        (3000, "c".to_string(), vec![thread(3000, "main", "7"), thread(3001, "y", "4")]),
    ];
    assert_eq!(
        aa(&v),
        vec![(1000, "0-3".to_string()), (3000, "7".to_string()), (3001, "4".to_string())]
    );
    assert!(aa(&[]).is_empty());
}

#[test]
fn missing_threads_are_told_apart() {
    assert!(thread_gone(-1, Some(3), 3));
    assert!(!thread_gone(0, Some(3), 3));
    assert!(!thread_gone(-1, Some(1), 3));
    assert!(!thread_gone(-1, None, 3));
}

#[test]
fn one_missing_thread_is_enough() {
    assert!(!some_gone(&[], 3));
    assert!(!some_gone(&[(0, Some(3)), (-1, Some(22))], 3));
    assert!(some_gone(&[(0, None), (-1, Some(3)), (0, None)], 3));
}
