//! The kernel program that notes each process that starts, and the map it notes them in.

use vstd::prelude::*;

verus! {

/// How many words the program has.
pub const PROGRAM_LEN: usize = 16;

/// The program before the map is known.
pub open spec fn template() -> Seq<u64> {
    seq![
        0x00000000000016bfu64,
        0x0000000e00000085u64,
        0x00000000000007bfu64,
        0x0000002000000077u64,
        0x00000000fffc0a63u64,
        0x0000000000001118u64,
        0x0000000000000000u64,
        0x000000000000a2bfu64,
        0xfffffffc00000207u64,
        0x00000001000000b7u64,
        0x00000000fff80a63u64,
        0x000000000000a3bfu64,
        0xfffffff800000307u64,
        0x0000000200000085u64,
        0x00000000000000b7u64,
        0x0000000000000095u64,
    ]
}

/// The word that loads the map `fd`: the operation in its low half, `fd` in its high half.
pub open spec fn load_map(fd: int) -> u64 {
    (0x1118 + fd * 0x1_0000_0000) as u64
}

/// The program for the map `fd`.
pub open spec fn program_for(fd: int) -> Seq<u64> {
    template().update(5, load_map(fd))
}

/// The map to close after an attempt: the one whose program was refused.
pub open spec fn closing(map_fd: i32, prog_fd: Option<i32>) -> Option<i32> {
    match prog_fd {
        Some(fd) => if map_fd >= 0 && fd < 0 {
            Some(map_fd)
        } else {
            None
        },
        None => None,
    }
}

/// What became of an attempt to set up the program: whether it runs, and the descriptors of the
/// map and of the program, each -1 where it does not.
pub open spec fn outcome(map_fd: i32, prog_fd: Option<i32>) -> (bool, i32, i32) {
    match prog_fd {
        Some(fd) => if map_fd >= 0 && fd >= 0 {
            (true, map_fd, fd)
        } else {
            (false, -1i32, -1i32)
        },
        None => (false, -1i32, -1i32),
    }
}

/// The program to load once the map `map_fd` was asked for; `None` where there is no map.
pub fn program(map_fd: i32) -> (r: Option<Vec<u64>>)
    ensures
        match r {
            Some(words) => map_fd >= 0 && words@ == program_for(map_fd as int),
            None => map_fd < 0,
        },
        r is Some ==> r.unwrap()@.len() == PROGRAM_LEN,
{
    if map_fd < 0 {
        return None;
    }
    let mut words: Vec<u64> = vec![
        0x00000000000016bf,
        0x0000000e00000085,
        0x00000000000007bf,
        0x0000002000000077,
        0x00000000fffc0a63,
        0x0000000000001118,
        0x0000000000000000,
        0x000000000000a2bf,
        0xfffffffc00000207,
        0x00000001000000b7,
        0x00000000fff80a63,
        0x000000000000a3bf,
        0xfffffff800000307,
        0x0000000200000085,
        0x00000000000000b7,
        0x0000000000000095,
    ];
    assert(words@ =~= template());
    let fd: u64 = map_fd as u64;
    let word: u64 = 0x18u64 | (1u64 << 8) | (1u64 << 12) | ((fd & 0xFFFF_FFFF) << 32);
    assert(word == 0x1118 + fd * 0x1_0000_0000) by (bit_vector)
        requires
            fd < 0x8000_0000,
            word == 0x18u64 | (1u64 << 8) | (1u64 << 12) | ((fd & 0xFFFF_FFFF) << 32),
    ;
    words.set(5, word);
    Some(words)
}

/// What became of the attempt: `prog_fd` is what loading the program gave, and `None` where it
/// was not tried.
pub fn probe_ebpf(map_fd: i32, prog_fd: Option<i32>) -> (r: (bool, i32, i32))
    ensures
        r == outcome(map_fd, prog_fd),
{
    match prog_fd {
        Some(fd) => if map_fd >= 0 && fd >= 0 {
            (true, map_fd, fd)
        } else {
            (false, -1, -1)
        },
        None => (false, -1, -1),
    }
}

/// The map to close after the attempt: the one whose program was refused.
pub fn map_to_close(map_fd: i32, prog_fd: Option<i32>) -> (r: Option<i32>)
    ensures
        r == closing(map_fd, prog_fd),
{
    match prog_fd {
        Some(fd) => if map_fd >= 0 && fd < 0 {
            Some(map_fd)
        } else {
            None
        },
        None => None,
    }
}

/// A walk over the keys of the map.
pub struct KeyWalk {
    pids: Vec<u32>,
    key: u32,
}

impl View for KeyWalk {
    type V = Seq<u32>;

    closed spec fn view(&self) -> Seq<u32> {
        self.pids@
    }
}

/// The key to go on from: the last one that was found, and zero before the first.
pub open spec fn walk_key(found: Seq<u32>) -> u32 {
    if found.len() == 0 {
        0
    } else {
        found.last()
    }
}

impl KeyWalk {
    /// The walk goes on from the last key that it found.
    #[verifier::type_invariant]
    spec fn from_last(&self) -> bool {
        self.key == walk_key(self.pids@)
    }

    /// A walk that has found no key yet.
    pub fn new() -> (r: Self)
        ensures
            r@ == Seq::<u32>::empty(),
    {
        KeyWalk { pids: Vec::new(), key: 0 }
    }

    /// The key whose successor is asked for next.
    pub fn key(&self) -> (r: u32)
        ensures
            r == walk_key(self@),
    {
        proof {
            use_type_invariant(self);
        }
        self.key
    }

    /// Takes the reply to that question, and gives the walk back where it is to go on, and else
    /// the keys that it found.
    pub fn reply(self, status: i32, next: u32) -> (r: Result<KeyWalk, Vec<u32>>)
        ensures
            match r {
                Ok(walk) => status == 0 && walk@ == self@.push(next),
                Err(pids) => status != 0 && pids@ == self@,
            },
    {
        let mut pids: Vec<u32> = self.pids;
        if status != 0 {
            return Err(pids);
        }
        pids.push(next);
        Ok(KeyWalk { pids, key: next })
    }
}

} // verus!
