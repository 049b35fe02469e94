//! What the names of packages and threads tell.

use vstd::hash_set::StringHashSet;
use vstd::prelude::*;

use crate::text::{
    first_of, occurs, texts, before_first, contains, ends_with, starts_with,
};

verus! {

/// `pkg` is a part of the system, by the start of its name.
pub open spec fn system_prefix(pkg: Seq<char>) -> bool {
    ||| "com.miui."@.is_prefix_of(pkg)
    ||| "com.xiaomi."@.is_prefix_of(pkg)
    ||| "android."@.is_prefix_of(pkg)
    ||| "com.android."@.is_prefix_of(pkg)
    ||| "vendor."@.is_prefix_of(pkg)
    ||| "com.qualcomm."@.is_prefix_of(pkg)
    ||| "com.qti."@.is_prefix_of(pkg)
    ||| "org.codeaurora."@.is_prefix_of(pkg)
    ||| "com.st.android."@.is_prefix_of(pkg)
    ||| "media."@.is_prefix_of(pkg)
    ||| "audio"@.is_prefix_of(pkg)
    ||| "com.milink."@.is_prefix_of(pkg)
    ||| ".qti"@.is_prefix_of(pkg)
    ||| ".qms"@.is_prefix_of(pkg)
    ||| ".cacert"@.is_prefix_of(pkg)
    ||| ".dataservices"@.is_prefix_of(pkg)
    ||| "com.lbe."@.is_prefix_of(pkg)
}

/// `pkg` is a service process, by the end of its name.
pub open spec fn service_suffix(pkg: Seq<char>) -> bool {
    ||| ":widgetProvider"@.is_suffix_of(pkg)
    ||| ":searchDataService"@.is_suffix_of(pkg)
    ||| ":coreService"@.is_suffix_of(pkg)
    ||| ":cognitionService"@.is_suffix_of(pkg)
    ||| ":bertAlgo"@.is_suffix_of(pkg)
    ||| ":bert"@.is_suffix_of(pkg)
    ||| ":privacy"@.is_suffix_of(pkg)
    ||| ":kit7"@.is_suffix_of(pkg)
    ||| ":services"@.is_suffix_of(pkg)
    ||| ":daemon"@.is_suffix_of(pkg)
}

/// `pkg` is no app that the user runs, and gets no rules of its own.
pub open spec fn system_package(pkg: Seq<char>) -> bool {
    system_prefix(pkg) || service_suffix(pkg)
}

/// How much load a thread is expected to make, by its name.
pub open spec fn expected_load(name: Seq<char>) -> i32 {
    if occurs("Render"@, name) || occurs("Gfx"@, name) || occurs("GL"@, name) || occurs(
        "Vulkan"@,
        name,
    ) {
        10
    } else if occurs("Decode"@, name) || occurs("Codec"@, name) || occurs("Video"@, name)
        || occurs("Audio"@, name) {
        8
    } else if occurs("Main"@, name) || occurs("Unity"@, name) || occurs("Game"@, name) {
        9
    } else if occurs("Worker"@, name) || occurs("Thread"@, name) || occurs("Job"@, name) {
        5
    } else if occurs("Io"@, name) || occurs("Network"@, name) || occurs("Http"@, name) {
        3
    } else if occurs("Background"@, name) || occurs("Idle"@, name) || occurs("Pool"@, name) {
        1
    } else {
        4
    }
}

/// The package that runs under a command line: what stands before the first NUL.
pub open spec fn package_of(cmdline: Seq<char>) -> Seq<char> {
    cmdline.take(first_of(cmdline, '\0', '\0'))
}

/// A set of package names: a hash set, and beside it the names in the order in which they came,
/// from which the set is copied.
pub struct PackageSet {
    set: StringHashSet,
    names: Vec<String>,
}

impl View for PackageSet {
    type V = Set<Seq<char>>;

    closed spec fn view(&self) -> Set<Seq<char>> {
        self.set@
    }
}

proof fn lemma_to_set_push(all: Seq<Seq<char>>, name: Seq<char>)
    ensures
        all.push(name).to_set() == all.to_set().insert(name),
{
    let more = all.push(name);
    assert forall|x: Seq<char>| #[trigger] more.contains(x) <==> all.contains(x) || x == name by {
        if all.contains(x) {
            let i = choose|i: int| 0 <= i < all.len() && all[i] == x;
            assert(more[i] == x);
        }
        if x == name {
            assert(more[all.len() as int] == x);
        }
    }
    assert(more.to_set() =~= all.to_set().insert(name));
}

impl PackageSet {
    /// The names are those in the set, and none is kept twice.
    #[verifier::type_invariant]
    spec fn listed(&self) -> bool {
        &&& texts(self.names@).no_duplicates()
        &&& self.set@ == texts(self.names@).to_set()
    }

    /// The empty set.
    pub fn new() -> (r: Self)
        ensures
            r@ == Set::<Seq<char>>::empty(),
    {
        let set: StringHashSet = StringHashSet::new();
        let names: Vec<String> = Vec::new();
        assert(set@ =~= texts(names@).to_set());
        PackageSet { set, names }
    }

    /// Tells whether `name` is in the set.
    pub fn contains(&self, name: &str) -> (r: bool)
        ensures
            r == self@.contains(name@),
    {
        self.set.contains(name)
    }

    /// Adds `name` to the set.
    pub fn insert(&mut self, name: String)
        ensures
            final(self)@ == old(self)@.insert(name@),
    {
        let mut taken = PackageSet::new();
        std::mem::swap(self, &mut taken);
        proof {
            use_type_invariant(&taken);
        }
        let ghost before = texts(taken.names@);
        let ghost added = name@;
        let mut set: StringHashSet = taken.set;
        let mut names: Vec<String> = taken.names;
        if set.insert(name.clone()) {
            names.push(name);
            proof {
                assert(texts(names@) =~= before.push(added));
                lemma_to_set_push(before, added);
                assert(!before.contains(added));
            }
        } else {
            assert(set@ =~= before.to_set());
        }
        *self = PackageSet { set, names };
    }
}

impl Clone for PackageSet {
    fn clone(&self) -> (r: Self)
        ensures
            r@ == self@,
    {
        proof {
            use_type_invariant(self);
        }
        let mut r = PackageSet::new();
        let ghost all = texts(self.names@);
        let mut i: usize = 0;
        assert(r@ =~= all.take(0).to_set());
        while i < self.names.len()
            invariant
                i <= self.names@.len(),
                all == texts(self.names@),
                r@ == all.take(i as int).to_set(),
            decreases self.names@.len() - i,
        {
            r.insert(self.names[i].clone());
            proof {
                lemma_to_set_push(all.take(i as int), all[i as int]);
                assert(all.take(i + 1) =~= all.take(i as int).push(all[i as int]));
            }
            i += 1;
        }
        assert(all.take(i as int) =~= all);
        r
    }
}

/// The package that runs under a command line.
pub fn package_name(cmdline: &str) -> (r: String)
    ensures
        r@ == package_of(cmdline@),
{
    before_first(cmdline, '\0').to_owned()
}

/// Tells whether `pkg` is a part of the system or a service process.
pub fn is_system_pkg(pkg: &str) -> (r: bool)
    ensures
        r == system_package(pkg@),
{
    starts_with(pkg, "com.miui.") || starts_with(pkg, "com.xiaomi.") || starts_with(pkg, "android.")
        || starts_with(pkg, "com.android.") || starts_with(pkg, "vendor.") || starts_with(
        pkg,
        "com.qualcomm.",
    ) || starts_with(pkg, "com.qti.") || starts_with(pkg, "org.codeaurora.") || starts_with(
        pkg,
        "com.st.android.",
    ) || starts_with(pkg, "media.") || starts_with(pkg, "audio") || starts_with(pkg, "com.milink.")
        || starts_with(pkg, ".qti") || starts_with(pkg, ".qms") || starts_with(pkg, ".cacert")
        || starts_with(pkg, ".dataservices") || starts_with(pkg, "com.lbe.") || ends_with(
        pkg,
        ":widgetProvider",
    ) || ends_with(pkg, ":searchDataService") || ends_with(pkg, ":coreService") || ends_with(
        pkg,
        ":cognitionService",
    ) || ends_with(pkg, ":bertAlgo") || ends_with(pkg, ":bert") || ends_with(pkg, ":privacy")
        || ends_with(pkg, ":kit7") || ends_with(pkg, ":services") || ends_with(pkg, ":daemon")
}

/// How much load a thread is expected to make, by its name.
pub fn est_load(name: &str) -> (r: i32)
    ensures
        r == expected_load(name@),
{
    if contains(name, "Render") || contains(name, "Gfx") || contains(name, "GL") || contains(
        name,
        "Vulkan",
    ) {
        return 10;
    }
    if contains(name, "Decode") || contains(name, "Codec") || contains(name, "Video") || contains(
        name,
        "Audio",
    ) {
        return 8;
    }
    if contains(name, "Main") || contains(name, "Unity") || contains(name, "Game") {
        return 9;
    }
    if contains(name, "Worker") || contains(name, "Thread") || contains(name, "Job") {
        return 5;
    }
    if contains(name, "Io") || contains(name, "Network") || contains(name, "Http") {
        return 3;
    }
    if contains(name, "Background") || contains(name, "Idle") || contains(name, "Pool") {
        return 1;
    }
    4
}

} // verus!
