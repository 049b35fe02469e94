use aether_threads::ebpf::{map_to_close, probe_ebpf, program, KeyWalk};

#[test]
fn the_program_loads_its_map() {
    let words = program(5).unwrap();
    assert_eq!(words.len(), 16);
    assert_eq!(words[5], 0x0000000500001118);
    assert_eq!(words[0], 0x00000000000016bf);
    assert_eq!(words[4], 0x00000000fffc0a63);
    assert_eq!(words[12], 0xfffffff800000307);
    assert_eq!(words[15], 0x0000000000000095);
    assert_eq!(program(0).unwrap()[5], 0x1118);
    assert_eq!(program(i32::MAX).unwrap()[5], 0x7fffffff00001118);
    assert!(program(-1).is_none());
}

#[test]
fn outcomes_of_the_attempt() {
    assert_eq!(probe_ebpf(4, Some(5)), (true, 4, 5));
    assert_eq!(probe_ebpf(0, Some(0)), (true, 0, 0));
    assert_eq!(probe_ebpf(4, Some(-1)), (false, -1, -1));
    assert_eq!(probe_ebpf(4, None), (false, -1, -1));
    assert_eq!(probe_ebpf(-1, Some(5)), (false, -1, -1));
}

#[test]
fn walks_go_on_until_an_error() {
    let walk = KeyWalk::new();
    assert_eq!(walk.key(), 0);
    let walk = match walk.reply(0, 17) {
        Ok(w) => w,
        Err(_) => panic!("the walk goes on"),
    };
    assert_eq!(walk.key(), 17);
    let walk = match walk.reply(0, 4) {
        Ok(w) => w,
        Err(_) => panic!("the walk goes on"),
    };
    assert_eq!(walk.key(), 4);
    match walk.reply(-1, 99) {
        Ok(_) => panic!("the walk ends"),
        Err(pids) => assert_eq!(pids, vec![17, 4]),
    }
}

#[test]
fn maps_of_refused_programs_are_closed() {
    assert_eq!(map_to_close(4, Some(-1)), Some(4));
    assert_eq!(map_to_close(4, Some(5)), None);
    assert_eq!(map_to_close(-1, None), None);
    assert_eq!(map_to_close(4, None), None);
}
