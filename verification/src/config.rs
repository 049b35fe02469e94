//! The configuration: which packages are tracked, and by which rules.

use std::time::SystemTime;

use vstd::prelude::*;

use crate::document::{
    bool_of, bool_or, fields_of, fractions_fit, items_of, json_document, json_view, member, parse_document,
    strings, text_of, text_or, Json, JsonView, LongFraction,
};
use crate::notation::{lemma_writes_no_fractions, small_fractions, writes};
use crate::packages::PackageSet;
use crate::rules::{
    add_package_rule, add_rules, package_rule, rank, rule_views, rules_for, RuleView, R,
};
use crate::text::texts;

verus! {

/// `std::time::SystemTime`, a point in time, which is only carried through.
#[verifier::external_type_specification]
#[verifier::external_body]
pub struct ExSystemTime(std::time::SystemTime);

/// A configuration.
pub struct C {
    /// The rules, in the order of the document.
    pub r: Vec<R>,
    /// The packages that are tracked.
    pub s: PackageSet,
    /// When the file that holds the configuration was changed.
    pub m: SystemTime,
    /// Whether new processes are watched for.
    pub ebpf: bool,
    /// Whether packages without rules get some.
    pub auto_for_none: bool,
}

/// What a configuration says.
pub struct ConfigView {
    pub r: Seq<RuleView>,
    pub s: Set<Seq<char>>,
    pub m: SystemTime,
    pub ebpf: bool,
    pub auto_for_none: bool,
}

impl View for C {
    type V = ConfigView;

    open spec fn view(&self) -> ConfigView {
        ConfigView {
            r: rule_views(self.r@),
            s: self.s@,
            m: self.m,
            ebpf: self.ebpf,
            auto_for_none: self.auto_for_none,
        }
    }
}

/// The packages that an entry names.
pub open spec fn entry_packages(e: JsonView) -> Seq<Seq<char>> {
    strings(items_of(member(e, "packages"@)))
}

/// The CPUs of an entry for threads without a rule of their own.
pub open spec fn entry_other(e: JsonView) -> Seq<char> {
    text_or(member(member(e, "cpuset"@), "other"@), "0"@)
}

/// The fields of an entry that list threads: CPUs, and the patterns for them.
pub open spec fn entry_threads(e: JsonView) -> Seq<(Seq<char>, JsonView)> {
    fields_of(member(member(e, "cpuset"@), "comm"@))
}

/// The rules for package `p` that the thread lists of an entry make.
pub open spec fn thread_rules(p: Seq<char>, lists: Seq<(Seq<char>, JsonView)>) -> Seq<RuleView>
    decreases lists.len(),
{
    if lists.len() == 0 {
        Seq::empty()
    } else {
        thread_rules(p, lists.drop_last()) + rules_for(
            p,
            lists.last().0,
            strings(items_of(lists.last().1)),
        )
    }
}

/// The rules that an entry makes: they are for the first package that it names.
pub open spec fn entry_rules(e: JsonView) -> Seq<RuleView> {
    let pl = entry_packages(e);
    if pl.len() == 0 {
        Seq::empty()
    } else {
        seq![package_rule(pl[0], entry_other(e))] + thread_rules(pl[0], entry_threads(e))
    }
}

/// The rules that a list of entries makes.
pub open spec fn all_rules(entries: Seq<JsonView>) -> Seq<RuleView>
    decreases entries.len(),
{
    if entries.len() == 0 {
        Seq::empty()
    } else {
        all_rules(entries.drop_last()) + entry_rules(entries.last())
    }
}

/// The packages that a list of entries names.
pub open spec fn all_packages(entries: Seq<JsonView>) -> Set<Seq<char>>
    decreases entries.len(),
{
    if entries.len() == 0 {
        Set::empty()
    } else {
        all_packages(entries.drop_last()).union(entry_packages(entries.last()).to_set())
    }
}

/// The value that lists the entries: the document itself, or what it has under `rules`.
pub open spec fn entry_list(root: JsonView) -> JsonView {
    if root is Array {
        root
    } else {
        member(root, "rules"@)
    }
}

/// The configuration that a document of time `m` holds, where it lists entries.
pub open spec fn config_of(root: JsonView, m: SystemTime) -> Option<ConfigView> {
    match entry_list(root) {
        JsonView::Array(entries) => Some(
            ConfigView {
                r: all_rules(entries),
                s: all_packages(entries),
                m,
                ebpf: bool_or(member(member(root, "features"@), "ebpf"@), true),
                auto_for_none: bool_or(member(member(root, "features"@), "auto-for-none"@), false),
            },
        ),
        _ => None,
    }
}

proof fn lemma_thread_rules(p: Seq<char>, lists: Seq<(Seq<char>, JsonView)>, i: int)
    requires
        0 <= i < thread_rules(p, lists).len(),
    ensures
        thread_rules(p, lists)[i].p == p,
        thread_rules(p, lists)[i].pr == rank(thread_rules(p, lists)[i].t),
    decreases lists.len(),
{
    let init = thread_rules(p, lists.drop_last());
    if i < init.len() {
        lemma_thread_rules(p, lists.drop_last(), i);
    }
}

/// Every rule of a configuration is for a package that it tracks, and has the rank of its
/// pattern.
pub proof fn rules_are_for_tracked_packages(entries: Seq<JsonView>, i: int)
    requires
        0 <= i < all_rules(entries).len(),
    ensures
        all_packages(entries).contains(all_rules(entries)[i].p),
        all_rules(entries)[i].pr == rank(all_rules(entries)[i].t),
    decreases entries.len(),
{
    let n = all_rules(entries.drop_last()).len();
    let e = entries.last();
    if i < n {
        rules_are_for_tracked_packages(entries.drop_last(), i);
    } else {
        let pl = entry_packages(e);
        if i > n {
            lemma_thread_rules(pl[0], entry_threads(e), i - n - 1);
        }
        assert(pl.to_set().contains(pl[0]));
    }
}

/// The first package that an entry names has a rule for all its threads.
pub proof fn first_packages_have_a_rule(entries: Seq<JsonView>, k: int)
    requires
        0 <= k < entries.len(),
        entry_packages(entries[k]).len() > 0,
    ensures
        all_rules(entries).contains(
            package_rule(entry_packages(entries[k])[0], entry_other(entries[k])),
        ),
    decreases entries.len(),
{
    let init = entries.drop_last();
    let rest = all_rules(init);
    let all = all_rules(entries);
    let u = package_rule(entry_packages(entries[k])[0], entry_other(entries[k]));
    if k < init.len() {
        assert(init[k] == entries[k]);
        first_packages_have_a_rule(init, k);
        let i = choose|i: int| 0 <= i < rest.len() && rest[i] == u;
        assert(all[i] == u);
    } else {
        assert(all[rest.len() as int] == u);
    }
}

/// A configuration tracks exactly the packages that its entries name.
pub proof fn tracked_packages_are_those_named(entries: Seq<JsonView>, p: Seq<char>)
    ensures
        all_packages(entries).contains(p) <==> exists|k: int|
            0 <= k < entries.len() && entry_packages(#[trigger] entries[k]).contains(p),
    decreases entries.len(),
{
    if entries.len() > 0 {
        let init = entries.drop_last();
        let last = entries.len() - 1;
        tracked_packages_are_those_named(init, p);
        if all_packages(init).contains(p) {
            let k = choose|k: int|
                0 <= k < init.len() && entry_packages(#[trigger] init[k]).contains(p);
            assert(entries[k] == init[k]);
        }
        if entry_packages(entries.last()).contains(p) {
            assert(entries[last] == entries.last());
        }
        if exists|k: int| 0 <= k < entries.len() && entry_packages(#[trigger] entries[k]).contains(p) {
            let k = choose|k: int|
                0 <= k < entries.len() && entry_packages(#[trigger] entries[k]).contains(p);
            if k < last {
                assert(init[k] == entries[k]);
            }
        }
    }
}

/// An entry that names packages makes a rule for the whole of the first, ahead of its other rules,
/// which are all for that package and have the ranks of their patterns; any other entry makes none.
pub proof fn entries_lead_with_their_package(e: JsonView, i: int)
    ensures
        entry_rules(e).len() > 0 <==> entry_packages(e).len() > 0,
        entry_packages(e).len() > 0 ==> entry_rules(e)[0] == package_rule(
            entry_packages(e)[0],
            entry_other(e),
        ),
        0 <= i < entry_rules(e).len() ==> entry_rules(e)[i].p == entry_packages(e)[0]
            && entry_rules(e)[i].pr == rank(entry_rules(e)[i].t),
{
    if 0 < i < entry_rules(e).len() {
        lemma_thread_rules(entry_packages(e)[0], entry_threads(e), i - 1);
    }
}

/// Adds `names` to the set `s`.
pub fn add_packages(s: &mut PackageSet, names: &Vec<String>)
    ensures
        final(s)@ == old(s)@.union(texts(names@).to_set()),
{
    let ghost all = texts(names@);
    let ghost start = s@;
    let mut i: usize = 0;
    assert(s@ =~= start.union(all.take(0).to_set()));
    while i < names.len()
        invariant
            i <= names@.len(),
            all == texts(names@),
            s@ == start.union(all.take(i as int).to_set()),
        decreases names@.len() - i,
    {
        s.insert(names[i].clone());
        proof {
            let now = all.take(i as int);
            let next = all.take(i + 1);
            assert forall|x: Seq<char>| #[trigger] next.contains(x) <==> now.contains(x) || x
                == all[i as int] by {
                if now.contains(x) {
                    let j = choose|j: int| 0 <= j < now.len() && now[j] == x;
                    assert(next[j] == x);
                }
                if x == all[i as int] {
                    assert(next[i as int] == x);
                }
                if next.contains(x) && x != all[i as int] {
                    let j = choose|j: int| 0 <= j < next.len() && next[j] == x;
                    assert(now[j] == x);
                }
            }
            assert(s@ =~= start.union(next.to_set()));
        }
        i += 1;
    }
    assert(all.take(i as int) =~= all);
}

/// Adds the rules for package `p` that the thread lists of an entry make.
fn add_thread_rules(r: &mut Vec<R>, p: &str, e: &Json)
    ensures
        rule_views(final(r)@) == rule_views(old(r)@) + thread_rules(p@, entry_threads(e@)),
{
    let ghost start = rule_views(r@);
    let ghost lists = entry_threads(e@);
    assert(start =~= start + thread_rules(p@, lists.take(0)));
    if let Some(comm) = e.get_in("cpuset", "comm") {
        if let Json::Object(fields) = comm {
            let mut i: usize = 0;
            while i < fields.len()
                invariant
                    i <= fields@.len(),
                    *comm == Json::Object(*fields),
                    lists == fields_of(comm@),
                    rule_views(r@) == start + thread_rules(p@, lists.take(i as int)),
                decreases fields@.len() - i,
            {
                let ghost before = rule_views(r@);
                let names: Vec<String> = fields[i].1.list_strings();
                add_rules(r, p, fields[i].0.as_str(), &names);
                proof {
                    let next = lists.take(i + 1);
                    assert(lists[i as int] == (fields@[i as int].0@, json_view(
                        fields@[i as int].1,
                    )));
                    assert(next.drop_last() =~= lists.take(i as int));
                    assert(next.last() == lists[i as int]);
                    assert(rule_views(r@) =~= start + thread_rules(p@, next));
                }
                i += 1;
            }
            assert(lists.take(i as int) =~= lists);
            return ;
        }
    }
    assert(lists =~= lists.take(0));
}

impl C {
    /// The configuration that a document of time `m` holds; `None` where it lists no entries.
    pub fn from_json(root: &Json, m: SystemTime) -> (res: Option<C>)
        ensures
            match res {
                Some(c) => config_of(root@, m) == Some(c@),
                None => config_of(root@, m) is None,
            },
    {
        let ebpf: bool = bool_of(root.get_in("features", "ebpf"), true);
        let auto_for_none: bool = bool_of(root.get_in("features", "auto-for-none"), false);
        let list: Option<&Json> = if root.is_list() {
            Some(root)
        } else {
            root.get("rules")
        };
        let entries: &Json = match list {
            Some(j) => j,
            None => return None,
        };
        match entries {
            Json::Array(items) => {
                let ghost all = items_of(entries@);
                let mut r: Vec<R> = Vec::new();
                let mut s: PackageSet = PackageSet::new();
                let mut i: usize = 0;
                assert(rule_views(r@) =~= all_rules(all.take(0)));
                assert(s@ =~= all_packages(all.take(0)));
                while i < items.len()
                    invariant
                        i <= items@.len(),
                        *entries == Json::Array(*items),
                        all == items_of(entries@),
                        rule_views(r@) == all_rules(all.take(i as int)),
                        s@ == all_packages(all.take(i as int)),
                    decreases items@.len() - i,
                {
                    let e: &Json = &items[i];
                    let ghost next = all.take(i + 1);
                    proof {
                        assert(all[i as int] == e@);
                        assert(next.drop_last() =~= all.take(i as int));
                        assert(next.last() == e@);
                    }
                    let pl: Vec<String> = match e.get("packages") {
                        Some(j) => j.list_strings(),
                        None => Vec::new(),
                    };
                    assert(texts(pl@) =~= entry_packages(e@));
                    if pl.len() > 0 {
                        let o: String = text_of(e.get_in("cpuset", "other"), "0");
                        assert(pl@[0]@ == entry_packages(e@)[0]);
                        add_packages(&mut s, &pl);
                        add_package_rule(&mut r, pl[0].as_str(), o.as_str());
                        add_thread_rules(&mut r, pl[0].as_str(), e);
                        assert(rule_views(r@) =~= all_rules(next));
                    } else {
                        assert(rule_views(r@) =~= all_rules(next));
                        assert(s@ =~= all_packages(next));
                    }
                    i += 1;
                }
                assert(all.take(i as int) =~= all);
                Some(C { r, s, m, ebpf, auto_for_none })
            },
            _ => None,
        }
    }

    /// The configuration that the text `d` of time `m` holds; `None` where it is no JSON document
    /// or lists no entries.
    pub fn load(d: &str, m: SystemTime) -> (res: Option<C>)
        requires
            small_fractions(d@),
        ensures
            match res {
                Some(c) => json_document(d@) is Some && config_of(json_document(d@)->0, m) == Some(c@),
                None => json_document(d@) is None || config_of(json_document(d@)->0, m) is None,
            },
            forall|v: JsonView| #[trigger]
                writes(d@, v) ==> match res {
                    Some(c) => config_of(v, m) == Some(c@),
                    None => config_of(v, m) is None,
                },
    {
        match parse_document(d) {
            Some(root) => C::from_json(&root, m),
            None => None,
        }
    }

    /// The configuration that any text `d` of time `m` holds, as [`C::load`] tells it; an error
    /// where a fraction in `d` is too long to be read.
    pub fn try_load(d: &str, m: SystemTime) -> (res: Result<Option<C>, LongFraction>)
        ensures
            match res {
                Ok(Some(c)) => small_fractions(d@) && json_document(d@) is Some && config_of(
                    json_document(d@)->0,
                    m,
                ) == Some(c@),
                Ok(None) => small_fractions(d@) && (json_document(d@) is None || config_of(
                    json_document(d@)->0,
                    m,
                ) is None),
                Err(_) => !small_fractions(d@),
            },
            forall|v: JsonView| #[trigger]
                writes(d@, v) ==> match res {
                    Ok(Some(c)) => config_of(v, m) == Some(c@),
                    Ok(None) => config_of(v, m) is None,
                    Err(_) => false,
                },
    {
        proof {
            assert forall|v: JsonView| #[trigger] writes(d@, v) implies small_fractions(d@) by {
                lemma_writes_no_fractions(d@, v);
            }
        }
        if fractions_fit(d) {
            Ok(C::load(d, m))
        } else {
            Err(LongFraction)
        }
    }
}

} // verus!
