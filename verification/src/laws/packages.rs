//! Laws of package and thread names.

use vstd::prelude::*;

use crate::assign::HEAVY;
use crate::packages::{expected_load, package_of, system_package};
use crate::text::{occurs, lemma_first_of};

use super::text::parts_occur;

verus! {

proof fn lemma_starts(p: Seq<char>, rest: Seq<char>)
    ensures
        p.is_prefix_of(p + rest),
{
    assert((p + rest).subrange(0, p.len() as int) =~= p);
}

proof fn lemma_ends(rest: Seq<char>, p: Seq<char>)
    ensures
        p.is_suffix_of(rest + p),
{
    assert((rest + p).subrange(rest.len() as int, (rest + p).len() as int) =~= p);
}

/// Whatever follows, a name that starts as those of the system is one of the system.
pub proof fn names_of_the_system(rest: Seq<char>)
    ensures
        system_package("com.miui."@ + rest),
        system_package("com.xiaomi."@ + rest),
        system_package("android."@ + rest),
        system_package("com.android."@ + rest),
        system_package("vendor."@ + rest),
        system_package("com.qualcomm."@ + rest),
        system_package("com.qti."@ + rest),
        system_package("org.codeaurora."@ + rest),
        system_package("com.st.android."@ + rest),
        system_package("media."@ + rest),
        system_package("audio"@ + rest),
        system_package("com.milink."@ + rest),
        system_package(".qti"@ + rest),
        system_package(".qms"@ + rest),
        system_package(".cacert"@ + rest),
        system_package(".dataservices"@ + rest),
        system_package("com.lbe."@ + rest),
{
    lemma_starts("com.miui."@, rest);
    lemma_starts("com.xiaomi."@, rest);
    lemma_starts("android."@, rest);
    lemma_starts("com.android."@, rest);
    lemma_starts("vendor."@, rest);
    lemma_starts("com.qualcomm."@, rest);
    lemma_starts("com.qti."@, rest);
    lemma_starts("org.codeaurora."@, rest);
    lemma_starts("com.st.android."@, rest);
    lemma_starts("media."@, rest);
    lemma_starts("audio"@, rest);
    lemma_starts("com.milink."@, rest);
    lemma_starts(".qti"@, rest);
    lemma_starts(".qms"@, rest);
    lemma_starts(".cacert"@, rest);
    lemma_starts(".dataservices"@, rest);
    lemma_starts("com.lbe."@, rest);
}

/// Whatever stands before, a name that ends as those of services is no app of the user.
pub proof fn names_of_services(rest: Seq<char>)
    ensures
        system_package(rest + ":widgetProvider"@),
        system_package(rest + ":searchDataService"@),
        system_package(rest + ":coreService"@),
        system_package(rest + ":cognitionService"@),
        system_package(rest + ":bertAlgo"@),
        system_package(rest + ":bert"@),
        system_package(rest + ":privacy"@),
        system_package(rest + ":kit7"@),
        system_package(rest + ":services"@),
        system_package(rest + ":daemon"@),
{
    lemma_ends(rest, ":widgetProvider"@);
    lemma_ends(rest, ":searchDataService"@);
    lemma_ends(rest, ":coreService"@);
    lemma_ends(rest, ":cognitionService"@);
    lemma_ends(rest, ":bertAlgo"@);
    lemma_ends(rest, ":bert"@);
    lemma_ends(rest, ":privacy"@);
    lemma_ends(rest, ":kit7"@);
    lemma_ends(rest, ":services"@);
    lemma_ends(rest, ":daemon"@);
}

/// All other names are those of apps that the user runs.
pub proof fn names_of_apps(pkg: Seq<char>)
    requires
        !"com.miui."@.is_prefix_of(pkg),
        !"com.xiaomi."@.is_prefix_of(pkg),
        !"android."@.is_prefix_of(pkg),
        !"com.android."@.is_prefix_of(pkg),
        !"vendor."@.is_prefix_of(pkg),
        !"com.qualcomm."@.is_prefix_of(pkg),
        !"com.qti."@.is_prefix_of(pkg),
        !"org.codeaurora."@.is_prefix_of(pkg),
        !"com.st.android."@.is_prefix_of(pkg),
        !"media."@.is_prefix_of(pkg),
        !"audio"@.is_prefix_of(pkg),
        !"com.milink."@.is_prefix_of(pkg),
        !".qti"@.is_prefix_of(pkg),
        !".qms"@.is_prefix_of(pkg),
        !".cacert"@.is_prefix_of(pkg),
        !".dataservices"@.is_prefix_of(pkg),
        !"com.lbe."@.is_prefix_of(pkg),
        !":widgetProvider"@.is_suffix_of(pkg),
        !":searchDataService"@.is_suffix_of(pkg),
        !":coreService"@.is_suffix_of(pkg),
        !":cognitionService"@.is_suffix_of(pkg),
        !":bertAlgo"@.is_suffix_of(pkg),
        !":bert"@.is_suffix_of(pkg),
        !":privacy"@.is_suffix_of(pkg),
        !":kit7"@.is_suffix_of(pkg),
        !":services"@.is_suffix_of(pkg),
        !":daemon"@.is_suffix_of(pkg),
    ensures
        !system_package(pkg),
{
}

/// A thread whose name holds a word for drawing, decoding or the main work makes much load,
/// whatever else its name holds.
pub proof fn heavy_words(a: Seq<char>, b: Seq<char>)
    ensures
        expected_load(a + "Render"@ + b) >= 8 && expected_load(a + "Render"@ + b) >= HEAVY,
        expected_load(a + "Gfx"@ + b) >= 8 && expected_load(a + "Gfx"@ + b) >= HEAVY,
        expected_load(a + "GL"@ + b) >= 8 && expected_load(a + "GL"@ + b) >= HEAVY,
        expected_load(a + "Vulkan"@ + b) >= 8 && expected_load(a + "Vulkan"@ + b) >= HEAVY,
        expected_load(a + "Decode"@ + b) >= 8 && expected_load(a + "Decode"@ + b) >= HEAVY,
        expected_load(a + "Codec"@ + b) >= 8 && expected_load(a + "Codec"@ + b) >= HEAVY,
        expected_load(a + "Video"@ + b) >= 8 && expected_load(a + "Video"@ + b) >= HEAVY,
        expected_load(a + "Audio"@ + b) >= 8 && expected_load(a + "Audio"@ + b) >= HEAVY,
        expected_load(a + "Main"@ + b) >= 8 && expected_load(a + "Main"@ + b) >= HEAVY,
        expected_load(a + "Unity"@ + b) >= 8 && expected_load(a + "Unity"@ + b) >= HEAVY,
        expected_load(a + "Game"@ + b) >= 8 && expected_load(a + "Game"@ + b) >= HEAVY,
        expected_load(a + "Render"@ + b) == 10,
        expected_load(a + "Gfx"@ + b) == 10,
        expected_load(a + "GL"@ + b) == 10,
        expected_load(a + "Vulkan"@ + b) == 10,
{
    parts_occur(a, "Render"@, b);
    parts_occur(a, "Gfx"@, b);
    parts_occur(a, "GL"@, b);
    parts_occur(a, "Vulkan"@, b);
    parts_occur(a, "Decode"@, b);
    parts_occur(a, "Codec"@, b);
    parts_occur(a, "Video"@, b);
    parts_occur(a, "Audio"@, b);
    parts_occur(a, "Main"@, b);
    parts_occur(a, "Unity"@, b);
    parts_occur(a, "Game"@, b);
}

/// `name` holds a word for drawing.
pub open spec fn draws(name: Seq<char>) -> bool {
    ||| occurs("Render"@, name)
    ||| occurs("Gfx"@, name)
    ||| occurs("GL"@, name)
    ||| occurs("Vulkan"@, name)
}

/// `name` holds a word for decoding.
pub open spec fn decodes(name: Seq<char>) -> bool {
    ||| occurs("Decode"@, name)
    ||| occurs("Codec"@, name)
    ||| occurs("Video"@, name)
    ||| occurs("Audio"@, name)
}

/// `name` holds a word for the main work.
pub open spec fn leads(name: Seq<char>) -> bool {
    ||| occurs("Main"@, name)
    ||| occurs("Unity"@, name)
    ||| occurs("Game"@, name)
}

/// A name without any of these words makes little load.
pub proof fn light_names(name: Seq<char>)
    requires
        !draws(name),
        !decodes(name),
        !leads(name),
    ensures
        expected_load(name) < 8,
        expected_load(name) < HEAVY,
{
}

/// Where several words stand in a name, drawing counts before decoding, and decoding before the
/// main work.
pub proof fn words_in_order(a: Seq<char>, b: Seq<char>)
    ensures
        !draws(a + "Decode"@ + b) ==> expected_load(a + "Decode"@ + b) == 8,
        !draws(a + "Codec"@ + b) ==> expected_load(a + "Codec"@ + b) == 8,
        !draws(a + "Video"@ + b) ==> expected_load(a + "Video"@ + b) == 8,
        !draws(a + "Audio"@ + b) ==> expected_load(a + "Audio"@ + b) == 8,
        !draws(a + "Main"@ + b) && !decodes(a + "Main"@ + b) ==> expected_load(a + "Main"@ + b) == 9,
        !draws(a + "Unity"@ + b) && !decodes(a + "Unity"@ + b) ==> expected_load(a + "Unity"@ + b) == 9,
        !draws(a + "Game"@ + b) && !decodes(a + "Game"@ + b) ==> expected_load(a + "Game"@ + b) == 9,
{
    parts_occur(a, "Decode"@, b);
    parts_occur(a, "Codec"@, b);
    parts_occur(a, "Video"@, b);
    parts_occur(a, "Audio"@, b);
    parts_occur(a, "Main"@, b);
    parts_occur(a, "Unity"@, b);
    parts_occur(a, "Game"@, b);
}

/// Among names of little load, those of workers come first, those that wait for others next, and
/// those of the background last; a name that tells nothing stands between.
pub proof fn light_words(name: Seq<char>)
    requires
        !draws(name),
        !decodes(name),
        !leads(name),
    ensures
        ({
            let works = occurs("Worker"@, name) || occurs("Thread"@, name) || occurs("Job"@, name);
            let waits = occurs("Io"@, name) || occurs("Network"@, name) || occurs("Http"@, name);
            let rests = occurs("Background"@, name) || occurs("Idle"@, name) || occurs(
                "Pool"@,
                name,
            );
            &&& works ==> expected_load(name) == 5
            &&& !works && waits ==> expected_load(name) == 3
            &&& !works && !waits && rests ==> expected_load(name) == 1
            &&& !works && !waits && !rests ==> expected_load(name) == 4
        }),
{
}

/// The package of a command line is what stands before the first NUL, or the whole line.
pub proof fn packages_end_at_the_first_nul(pkg: Seq<char>, rest: Seq<char>)
    requires
        !pkg.contains('\0'),
    ensures
        package_of(pkg + seq!['\0'] + rest) == pkg,
        package_of(pkg) == pkg,
{
    let s = pkg + seq!['\0'] + rest;
    let n = pkg.len() as int;
    assert forall|j: int| 0 <= j < n implies s[j] != '\0' by {
        assert(s[j] == pkg[j]);
    }
    assert(s[n] == '\0');
    lemma_first_of(s, '\0', '\0', n);
    assert(s.take(n) =~= pkg);
    assert forall|j: int| 0 <= j < n implies pkg[j] != '\0' by {}
    lemma_first_of(pkg, '\0', '\0', n);
    assert(pkg.take(n) =~= pkg);
}

} // verus!
