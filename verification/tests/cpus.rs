use aether_threads::cpus::{affinity_mask, compress_cpus};

fn set(mask: &[bool]) -> Vec<usize> {
    (0..mask.len()).filter(|i| mask[*i]).collect()
}

fn named(c: &str) -> Vec<usize> {
    set(&affinity_mask(c, 1024).unwrap())
}

#[test]
fn runs_become_ranges() {
    assert_eq!(compress_cpus("0,1,2,3"), "0-3");
    assert_eq!(compress_cpus("0,1,2,3,6,7,9"), "0-3,6-7,9");
    assert_eq!(compress_cpus("4"), "4");
    assert_eq!(compress_cpus(" 4 , 5 "), "4-5");
}

#[test]
fn order_and_repetition_are_kept() {
    assert_eq!(compress_cpus("3,2,1"), "3,2,1");
    assert_eq!(compress_cpus("1,1,2"), "1,1-2");
}

#[test]
fn texts_without_numbers_stay() {
    assert_eq!(compress_cpus(""), "");
    assert_eq!(compress_cpus("0-3"), "0-3");
    assert_eq!(compress_cpus("big"), "big");
}

#[test]
fn ranges_beside_numbers_are_dropped() {
    assert_eq!(compress_cpus("0-3,5"), "5");
}

#[test]
fn masks_name_the_listed_cpus() {
    assert_eq!(named("0-3,6"), vec![0, 1, 2, 3, 6]);
    assert_eq!(named(" 1 - 2 , 7 "), vec![1, 2, 7]);
    assert_eq!(named(""), Vec::<usize>::new());
    assert_eq!(named("a,2-b,c-3,5"), vec![5]);
    assert_eq!(named("3-1"), Vec::<usize>::new());
    assert_eq!(named("1023"), vec![1023]);
}

#[test]
fn cpus_past_the_limit_are_refused() {
    assert!(affinity_mask("1024", 1024).is_none());
    assert!(affinity_mask("0-1024", 1024).is_none());
    assert!(affinity_mask("0-18446744073709551615", 1024).is_none());
    assert!(affinity_mask("2000-1", 1024).is_some());
    assert_eq!(affinity_mask("0-1", 3), Some(vec![true, true, false]));
}

#[test]
fn compressed_lists_bind_as_before() {
    for c in ["0,1,2,3", "7,6,5,4", "0,2,4,6", "1,1,2,3,5,8"] {
        assert_eq!(named(&compress_cpus(c)), named(c));
    }
}

#[test]
fn compressing_twice() {
    for c in ["0,1,2", "0,1,4,5", "0,2,4", "x"] {
        let once = compress_cpus(c);
        assert_eq!(compress_cpus(&once), once);
    }
    assert_eq!(compress_cpus(&compress_cpus("0,1,3")), "3");
}

#[test]
fn the_largest_number() {
    let max = usize::MAX;
    let before = max - 1;
    assert_eq!(compress_cpus(&format!("3,{}", max)), format!("3,{}", max));
    assert_eq!(compress_cpus(&format!("{},{}", before, max)), format!("{}-{}", before, max));
    assert_eq!(compress_cpus(&format!("{},5", max)), format!("{},5", max));
    assert_eq!(compress_cpus(&format!("{},0", max)), format!("{}-0", max));
}
