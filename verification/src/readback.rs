//! What is cached reads back: the entries that are written for apps are the ones that are loaded.

use vstd::prelude::*;

use crate::assign::{
    adds_entry, all_quoted, cache_text, entry_text, extends_list, threads_text,
};
use crate::cache::{
    cached_entry_packages, cached_entry_rules, cached_packages, cached_rules, cached_thread_rules,
    named,
};
use crate::config::entry_packages;
use crate::cpus::compressed;
use crate::document::{fields_of, items_of, lookup, member, strings, JsonView};
use crate::notation::{
    all_blank, appends, blank, field_tokens, item_text, item_tokens, list_head, list_text,
    max_depth, plain, quoted, small_fractions, spelled, spells, tokens, writable, writes,
    lemma_appends_no_fractions, lemma_spells_concat, lemma_spells_first, lemma_spells_token,
    lemma_spells_trimmed, lemma_writes_no_fractions, Token,
};
use crate::packages::system_package;
use crate::rules::{package_rule, rules_for, RuleView};
use crate::text::{joined, trimmed_end, trimmed_start, lemma_joined_push, lemma_trimmed_end_keeps};

verus! {

/// The strings `names` as a JSON list.
pub open spec fn name_list(names: Seq<Seq<char>>) -> JsonView {
    JsonView::Array(names.map_values(|n: Seq<char>| JsonView::Text(n)))
}

/// The thread lists of a cached entry: `names`, on the CPUs `big`.
pub open spec fn threads_value(big: Seq<char>, names: Seq<Seq<char>>) -> JsonView {
    if names.len() == 0 {
        JsonView::Object(Seq::empty())
    } else {
        JsonView::Object(seq![(big, name_list(names))])
    }
}

/// The cached entry for `pkg`: `names` on the CPUs `big`, all other threads on `little`.
pub open spec fn entry_value(
    pkg: Seq<char>,
    big: Seq<char>,
    little: Seq<char>,
    names: Seq<Seq<char>>,
) -> JsonView {
    JsonView::Object(
        seq![
            ("friendly"@, JsonView::Text("[auto] "@ + pkg)),
            ("packages"@, name_list(seq![pkg])),
            (
                "cpuset"@,
                JsonView::Object(
                    seq![("other"@, JsonView::Text(little)), ("comm"@, threads_value(big, names))],
                ),
            ),
        ],
    )
}

/// No text that goes into an entry needs escapes.
pub open spec fn plain_entry(
    pkg: Seq<char>,
    big: Seq<char>,
    little: Seq<char>,
    names: Seq<Seq<char>>,
) -> bool {
    &&& plain(pkg)
    &&& plain(big)
    &&& plain(little)
    &&& forall|i: int| 0 <= i < names.len() ==> plain(#[trigger] names[i])
}

spec fn few_blanks(s: Seq<char>) -> bool {
    &&& s.len() <= 9
    &&& s.len() > 0 ==> blank(s[0])
    &&& s.len() > 1 ==> blank(s[1])
    &&& s.len() > 2 ==> blank(s[2])
    &&& s.len() > 3 ==> blank(s[3])
    &&& s.len() > 4 ==> blank(s[4])
    &&& s.len() > 5 ==> blank(s[5])
    &&& s.len() > 6 ==> blank(s[6])
    &&& s.len() > 7 ==> blank(s[7])
    &&& s.len() > 8 ==> blank(s[8])
}

proof fn lemma_few_blanks(s: Seq<char>)
    requires
        few_blanks(s),
    ensures
        all_blank(s),
{
    assert forall|i: int| 0 <= i < s.len() implies blank(#[trigger] s[i]) by {
        if i == 0 || i == 1 || i == 2 || i == 3 {
        } else if i == 4 || i == 5 || i == 6 || i == 7 || i == 8 {
        }
    }
}

proof fn lemma_sign(s: Seq<char>, t: Token, i: int)
    requires
        0 <= i < s.len(),
        spelled(t) == seq![s[i]],
        few_blanks(s.take(i)),
        few_blanks(s.skip(i + 1)),
    ensures
        spells(s, seq![t]),
{
    lemma_few_blanks(s.take(i));
    lemma_few_blanks(s.skip(i + 1));
    lemma_spells_token(s.take(i), t, s.skip(i + 1));
    assert(s =~= s.take(i) + spelled(t) + s.skip(i + 1));
}

proof fn lemma_two_signs(s: Seq<char>, t: Token, i: int, u: Token, j: int)
    requires
        0 <= i < j < s.len(),
        spelled(t) == seq![s[i]],
        spelled(u) == seq![s[j]],
        few_blanks(s.take(i)),
        few_blanks(s.subrange(i + 1, j)),
        few_blanks(s.skip(j + 1)),
    ensures
        spells(s, seq![t, u]),
{
    let a = s.take(j);
    let b = s.skip(j);
    assert(a.take(i) =~= s.take(i));
    assert(a.skip(i + 1) =~= s.subrange(i + 1, j));
    lemma_sign(a, t, i);
    assert(b.take(0) =~= Seq::<char>::empty());
    assert(b.skip(1) =~= s.skip(j + 1));
    lemma_sign(b, u, 0);
    lemma_spells_concat(a, seq![t], b, seq![u]);
    assert(a + b =~= s);
    assert(seq![t] + seq![u] =~= seq![t, u]);
}

proof fn lemma_signs()
    ensures
        spells("  {\n    "@, seq![Token::MapStart]),
        spells(": "@, seq![Token::Colon]),
        spells(",\n    "@, seq![Token::Comma]),
        spells(": ["@, seq![Token::Colon, Token::ListStart]),
        spells("],\n    "@, seq![Token::ListEnd, Token::Comma]),
        spells(": {\n      "@, seq![Token::Colon, Token::MapStart]),
        spells(",\n      "@, seq![Token::Comma]),
        spells(": {\n"@, seq![Token::Colon, Token::MapStart]),
        spells("\n      }\n    }\n  }"@, seq![Token::MapEnd, Token::MapEnd, Token::MapEnd]),
{
    reveal_strlit("  {\n    ");
    lemma_sign("  {\n    "@, Token::MapStart, 2);
    reveal_strlit(": ");
    lemma_sign(": "@, Token::Colon, 0);
    reveal_strlit(",\n    ");
    lemma_sign(",\n    "@, Token::Comma, 0);
    reveal_strlit(": [");
    lemma_two_signs(": ["@, Token::Colon, 0, Token::ListStart, 2);
    reveal_strlit("],\n    ");
    lemma_two_signs("],\n    "@, Token::ListEnd, 0, Token::Comma, 1);
    reveal_strlit(": {\n      ");
    lemma_two_signs(": {\n      "@, Token::Colon, 0, Token::MapStart, 2);
    reveal_strlit(",\n      ");
    lemma_sign(",\n      "@, Token::Comma, 0);
    reveal_strlit(": {\n");
    lemma_two_signs(": {\n"@, Token::Colon, 0, Token::MapStart, 2);
    reveal_strlit("\n      }\n    }\n  }");
    let s = "\n      }\n    }\n  }"@;
    let a = s.take(8);
    let b = s.skip(8);
    lemma_sign(a, Token::MapEnd, 7);
    lemma_two_signs(b, Token::MapEnd, 5, Token::MapEnd, 9);
    lemma_spells_concat(a, seq![Token::MapEnd], b, seq![Token::MapEnd, Token::MapEnd]);
    assert(a + b =~= s);
    assert(seq![Token::MapEnd] + seq![Token::MapEnd, Token::MapEnd] =~= seq![
        Token::MapEnd,
        Token::MapEnd,
        Token::MapEnd,
    ]);
}

proof fn lemma_list_signs()
    ensures
        all_blank("        "@),
        spells("        "@, Seq::empty()),
        spells(": [\n        "@, seq![Token::Colon, Token::ListStart]),
        spells(",\n        "@, seq![Token::Comma]),
        spells("\n        ]"@, seq![Token::ListEnd]),
        spells(",\n"@, seq![Token::Comma]),
        spells("\n]"@, seq![Token::ListEnd]),
        spells("[\n"@, seq![Token::ListStart]),
        spells("\n]\n"@, seq![Token::ListEnd]),
{
    reveal_strlit("        ");
    lemma_few_blanks("        "@);
    reveal_strlit(": [\n        ");
    lemma_two_signs(": [\n        "@, Token::Colon, 0, Token::ListStart, 2);
    reveal_strlit(",\n        ");
    lemma_sign(",\n        "@, Token::Comma, 0);
    reveal_strlit("\n        ]");
    lemma_sign("\n        ]"@, Token::ListEnd, 9);
    reveal_strlit(",\n");
    lemma_sign(",\n"@, Token::Comma, 0);
    reveal_strlit("\n]");
    lemma_sign("\n]"@, Token::ListEnd, 1);
    reveal_strlit("[\n");
    lemma_sign("[\n"@, Token::ListStart, 0);
    reveal_strlit("\n]\n");
    lemma_sign("\n]\n"@, Token::ListEnd, 1);
}

proof fn lemma_spells_quoted(s: Seq<char>)
    ensures
        spells(quoted(s), seq![Token::Text(s)]),
{
    let empty = Seq::<char>::empty();
    lemma_spells_token(empty, Token::Text(s), empty);
    assert(empty + quoted(s) + empty =~= quoted(s));
}

proof fn lemma_spells_joined(
    parts: Seq<Seq<char>>,
    toks: Seq<Seq<Token>>,
    sep: Seq<char>,
    sign: Seq<Token>,
)
    requires
        parts.len() == toks.len(),
        parts.len() > 0,
        forall|i: int| 0 <= i < parts.len() ==> spells(#[trigger] parts[i], toks[i]),
        spells(sep, sign),
    ensures
        spells(joined(parts, sep), joined(toks, sign)),
    decreases parts.len(),
{
    assert(spells(parts[0], toks[0]));
    if parts.len() > 1 {
        let rest = parts.skip(1);
        let more = toks.skip(1);
        assert forall|i: int| 0 <= i < rest.len() implies spells(#[trigger] rest[i], more[i]) by {
            assert(spells(parts[i + 1], toks[i + 1]));
        }
        lemma_spells_joined(rest, more, sep, sign);
        lemma_spells_concat(sep, sign, joined(rest, sep), joined(more, sign));
        lemma_spells_concat(
            parts[0],
            toks[0],
            sep + joined(rest, sep),
            sign + joined(more, sign),
        );
    }
}

proof fn lemma_name_list_tokens(names: Seq<Seq<char>>)
    ensures
        items_of(name_list(names)).len() == names.len(),
        tokens(name_list(names)) == seq![Token::ListStart] + joined(
            names.map_values(|n: Seq<char>| seq![Token::Text(n)]),
            seq![Token::Comma],
        ) + seq![Token::ListEnd],
{
    let items = items_of(name_list(names));
    assert(item_tokens(items) =~= names.map_values(|n: Seq<char>| seq![Token::Text(n)])) by {
        assert forall|i: int| 0 <= i < names.len() implies item_tokens(items)[i] == seq![
            Token::Text(names[i]),
        ] by {
            assert(items[i] == JsonView::Text(names[i]));
        }
    }
}

proof fn lemma_threads_spelled(big: Seq<char>, names: Seq<Seq<char>>)
    ensures
        spells(
            threads_text(big, names),
            joined(field_tokens(fields_of(threads_value(big, names))), seq![Token::Comma]),
        ),
{
    lemma_list_signs();
    let fields = fields_of(threads_value(big, names));
    let inner = joined(field_tokens(fields), seq![Token::Comma]);
    if names.len() == 0 {
        assert(inner =~= Seq::<Token>::empty());
    } else {
        let parts = all_quoted(names);
        let toks = names.map_values(|n: Seq<char>| seq![Token::Text(n)]);
        assert forall|i: int| 0 <= i < parts.len() implies spells(#[trigger] parts[i], toks[i]) by {
            lemma_spells_quoted(names[i]);
        }
        lemma_spells_joined(parts, toks, ",\n        "@, seq![Token::Comma]);
        lemma_name_list_tokens(names);
        lemma_spells_quoted(big);
        let a0 = "        "@;
        let a1 = a0 + quoted(big);
        let a2 = a1 + ": [\n        "@;
        let a3 = a2 + joined(parts, ",\n        "@);
        let t0 = Seq::<Token>::empty();
        let t1 = t0 + seq![Token::Text(big)];
        let t2 = t1 + seq![Token::Colon, Token::ListStart];
        let t3 = t2 + joined(toks, seq![Token::Comma]);
        lemma_spells_concat(a0, t0, quoted(big), seq![Token::Text(big)]);
        lemma_spells_concat(a1, t1, ": [\n        "@, seq![Token::Colon, Token::ListStart]);
        lemma_spells_concat(
            a2,
            t2,
            joined(parts, ",\n        "@),
            joined(toks, seq![Token::Comma]),
        );
        lemma_spells_concat(a3, t3, "\n        ]"@, seq![Token::ListEnd]);
        assert(field_tokens(fields).len() == 1);
        assert(inner == field_tokens(fields)[0]);
        assert(fields[0] == (big, name_list(names)));
        assert(inner =~= t3 + seq![Token::ListEnd]);
    }
}

/// The tokens of the entry for `pkg`, without what lists its threads.
spec fn entry_head(pkg: Seq<char>, little: Seq<char>) -> Seq<Token> {
    seq![
        Token::MapStart,
        Token::Text("friendly"@),
        Token::Colon,
        Token::Text("[auto] "@ + pkg),
        Token::Comma,
        Token::Text("packages"@),
        Token::Colon,
        Token::ListStart,
        Token::Text(pkg),
        Token::ListEnd,
        Token::Comma,
        Token::Text("cpuset"@),
        Token::Colon,
        Token::MapStart,
        Token::Text("other"@),
        Token::Colon,
        Token::Text(little),
        Token::Comma,
        Token::Text("comm"@),
        Token::Colon,
        Token::MapStart,
    ]
}

proof fn lemma_entry_tokens(
    pkg: Seq<char>,
    big: Seq<char>,
    little: Seq<char>,
    names: Seq<Seq<char>>,
)
    ensures
        tokens(entry_value(pkg, big, little, names)) == entry_head(pkg, little) + joined(
            field_tokens(fields_of(threads_value(big, names))),
            seq![Token::Comma],
        ) + seq![Token::MapEnd, Token::MapEnd, Token::MapEnd],
{
    reveal_with_fuel(joined, 4);
    let threads = threads_value(big, names);
    let inner = joined(field_tokens(fields_of(threads)), seq![Token::Comma]);
    assert(threads is Object);
    assert(tokens(threads) == seq![Token::MapStart] + inner + seq![Token::MapEnd]);
    let comma = seq![Token::Comma];
    let cpuset = seq![("other"@, JsonView::Text(little)), ("comm"@, threads)];
    let f = field_tokens(cpuset);
    assert(f.len() == 2);
    assert(f[0] =~= seq![Token::Text("other"@), Token::Colon, Token::Text(little)]);
    assert(f[1] == seq![Token::Text("comm"@), Token::Colon] + tokens(threads));
    assert(f.skip(1).len() == 1);
    assert(joined(f, comma) == f[0] + (comma + f[1]));
    let value = entry_value(pkg, big, little, names);
    let fields = fields_of(value);
    let g = field_tokens(fields);
    assert(g.len() == 3);
    assert(fields[0] == ("friendly"@, JsonView::Text("[auto] "@ + pkg)));
    assert(fields[1] == ("packages"@, name_list(seq![pkg])));
    assert(fields[2] == ("cpuset"@, JsonView::Object(cpuset)));
    assert(g[0] =~= seq![Token::Text("friendly"@), Token::Colon, Token::Text("[auto] "@ + pkg)]);
    lemma_name_list_tokens(seq![pkg]);
    let one = seq![pkg].map_values(|n: Seq<char>| seq![Token::Text(n)]);
    assert(one.len() == 1 && one[0] == seq![Token::Text(pkg)]);
    assert(joined(one, comma) == seq![Token::Text(pkg)]);
    assert(g[1] =~= seq![
        Token::Text("packages"@),
        Token::Colon,
        Token::ListStart,
        Token::Text(pkg),
        Token::ListEnd,
    ]);
    assert(g[2] == seq![Token::Text("cpuset"@), Token::Colon] + tokens(JsonView::Object(cpuset)));
    let g1 = g.skip(1);
    assert(g1.len() == 2 && g1[0] == g[1] && g1[1] == g[2]);
    assert(g1.skip(1).len() == 1 && g1.skip(1)[0] == g[2]);
    assert(joined(g1, comma) == g[1] + (comma + g[2]));
    assert(joined(g, comma) == g[0] + (comma + (g[1] + (comma + g[2]))));
    assert(tokens(value) =~= entry_head(pkg, little) + inner + seq![
        Token::MapEnd,
        Token::MapEnd,
        Token::MapEnd,
    ]);
}

proof fn lemma_entry_spelled(
    pkg: Seq<char>,
    big: Seq<char>,
    little: Seq<char>,
    names: Seq<Seq<char>>,
)
    ensures
        spells(
            entry_text(pkg, big, little, names),
            tokens(entry_value(pkg, big, little, names)),
        ),
{
    lemma_signs();
    lemma_entry_tokens(pkg, big, little, names);
    lemma_threads_spelled(big, names);
    let inner = joined(field_tokens(fields_of(threads_value(big, names))), seq![Token::Comma]);
    let colon = seq![Token::Colon];
    let comma = seq![Token::Comma];
    let auto_name = "[auto] "@ + pkg;
    lemma_spells_quoted("friendly"@);
    lemma_spells_quoted(auto_name);
    lemma_spells_quoted("packages"@);
    lemma_spells_quoted(pkg);
    lemma_spells_quoted("cpuset"@);
    lemma_spells_quoted("other"@);
    lemma_spells_quoted(little);
    lemma_spells_quoted("comm"@);
    let a0 = "  {\n    "@;
    let t0 = seq![Token::MapStart];
    let a1 = a0 + quoted("friendly"@);
    let t1 = t0 + seq![Token::Text("friendly"@)];
    lemma_spells_concat(a0, t0, quoted("friendly"@), seq![Token::Text("friendly"@)]);
    let a2 = a1 + ": "@;
    let t2 = t1 + colon;
    lemma_spells_concat(a1, t1, ": "@, colon);
    let a3 = a2 + quoted(auto_name);
    let t3 = t2 + seq![Token::Text(auto_name)];
    lemma_spells_concat(a2, t2, quoted(auto_name), seq![Token::Text(auto_name)]);
    let a4 = a3 + ",\n    "@;
    let t4 = t3 + comma;
    lemma_spells_concat(a3, t3, ",\n    "@, comma);
    let a5 = a4 + quoted("packages"@);
    let t5 = t4 + seq![Token::Text("packages"@)];
    lemma_spells_concat(a4, t4, quoted("packages"@), seq![Token::Text("packages"@)]);
    let a6 = a5 + ": ["@;
    let t6 = t5 + seq![Token::Colon, Token::ListStart];
    lemma_spells_concat(a5, t5, ": ["@, seq![Token::Colon, Token::ListStart]);
    let a7 = a6 + quoted(pkg);
    let t7 = t6 + seq![Token::Text(pkg)];
    lemma_spells_concat(a6, t6, quoted(pkg), seq![Token::Text(pkg)]);
    let a8 = a7 + "],\n    "@;
    let t8 = t7 + seq![Token::ListEnd, Token::Comma];
    lemma_spells_concat(a7, t7, "],\n    "@, seq![Token::ListEnd, Token::Comma]);
    let a9 = a8 + quoted("cpuset"@);
    let t9 = t8 + seq![Token::Text("cpuset"@)];
    lemma_spells_concat(a8, t8, quoted("cpuset"@), seq![Token::Text("cpuset"@)]);
    let b0 = a9 + ": {\n      "@;
    let u0 = t9 + seq![Token::Colon, Token::MapStart];
    lemma_spells_concat(a9, t9, ": {\n      "@, seq![Token::Colon, Token::MapStart]);
    let b1 = b0 + quoted("other"@);
    let u1 = u0 + seq![Token::Text("other"@)];
    lemma_spells_concat(b0, u0, quoted("other"@), seq![Token::Text("other"@)]);
    let b2 = b1 + ": "@;
    let u2 = u1 + colon;
    lemma_spells_concat(b1, u1, ": "@, colon);
    let b3 = b2 + quoted(little);
    let u3 = u2 + seq![Token::Text(little)];
    lemma_spells_concat(b2, u2, quoted(little), seq![Token::Text(little)]);
    let b4 = b3 + ",\n      "@;
    let u4 = u3 + comma;
    lemma_spells_concat(b3, u3, ",\n      "@, comma);
    let b5 = b4 + quoted("comm"@);
    let u5 = u4 + seq![Token::Text("comm"@)];
    lemma_spells_concat(b4, u4, quoted("comm"@), seq![Token::Text("comm"@)]);
    let b6 = b5 + ": {\n"@;
    let u6 = u5 + seq![Token::Colon, Token::MapStart];
    lemma_spells_concat(b5, u5, ": {\n"@, seq![Token::Colon, Token::MapStart]);
    let b7 = b6 + threads_text(big, names);
    let u7 = u6 + inner;
    lemma_spells_concat(b6, u6, threads_text(big, names), inner);
    let ends = seq![Token::MapEnd, Token::MapEnd, Token::MapEnd];
    lemma_spells_concat(b7, u7, "\n      }\n    }\n  }"@, ends);
    assert(u6 =~= entry_head(pkg, little));
}

proof fn lemma_writable_deeper(v: JsonView, d: nat, e: nat)
    requires
        writable(v, d),
        d <= e,
    ensures
        writable(v, e),
    decreases d,
{
    match v {
        JsonView::Array(items) => {
            assert forall|i: int| 0 <= i < items.len() implies writable(
                #[trigger] items[i],
                (e - 1) as nat,
            ) by {
                lemma_writable_deeper(items[i], (d - 1) as nat, (e - 1) as nat);
            }
        },
        JsonView::Object(fields) => {
            assert forall|i: int| 0 <= i < fields.len() implies plain((#[trigger] fields[i]).0)
                && writable(fields[i].1, (e - 1) as nat) by {
                lemma_writable_deeper(fields[i].1, (d - 1) as nat, (e - 1) as nat);
            }
        },
        _ => {},
    }
}

proof fn lemma_name_list_writable(names: Seq<Seq<char>>)
    requires
        forall|i: int| 0 <= i < names.len() ==> plain(#[trigger] names[i]),
    ensures
        writable(name_list(names), 1),
{
    let items = items_of(name_list(names));
    assert forall|i: int| 0 <= i < items.len() implies writable(#[trigger] items[i], 0) by {
        assert(plain(names[i]));
    }
}

proof fn lemma_keys()
    ensures
        plain("friendly"@),
        plain("packages"@),
        plain("cpuset"@),
        plain("other"@),
        plain("comm"@),
        plain("[auto] "@),
        "friendly"@ != "packages"@,
        "friendly"@ != "cpuset"@,
        "packages"@ != "cpuset"@,
        "other"@ != "comm"@,
{
    reveal_strlit("friendly");
    reveal_strlit("packages");
    reveal_strlit("cpuset");
    reveal_strlit("other");
    reveal_strlit("comm");
    reveal_strlit("[auto] ");
    assert("friendly"@[0] == 'f');
    assert("packages"@[0] == 'p');
    lemma_short_plain("friendly"@);
    lemma_short_plain("packages"@);
    lemma_short_plain("cpuset"@);
    lemma_short_plain("other"@);
    lemma_short_plain("comm"@);
    lemma_short_plain("[auto] "@);
}

spec fn plain_char(c: char) -> bool {
    c as u32 >= 32 && c != '"' && c != '\\'
}

proof fn lemma_short_plain(s: Seq<char>)
    requires
        s.len() <= 8,
        s.len() > 0 ==> plain_char(s[0]),
        s.len() > 1 ==> plain_char(s[1]),
        s.len() > 2 ==> plain_char(s[2]),
        s.len() > 3 ==> plain_char(s[3]),
        s.len() > 4 ==> plain_char(s[4]),
        s.len() > 5 ==> plain_char(s[5]),
        s.len() > 6 ==> plain_char(s[6]),
        s.len() > 7 ==> plain_char(s[7]),
    ensures
        plain(s),
{
    assert forall|i: int| 0 <= i < s.len() implies (#[trigger] s[i]) as u32 >= 32 && s[i] != '"'
        && s[i] != '\\' by {
        if i == 0 || i == 1 || i == 2 || i == 3 {
            assert(plain_char(s[i]));
        } else if i == 4 || i == 5 || i == 6 || i == 7 {
            assert(plain_char(s[i]));
        }
    }
}

proof fn lemma_plain_concat(a: Seq<char>, b: Seq<char>)
    requires
        plain(a),
        plain(b),
    ensures
        plain(a + b),
{
    assert forall|i: int| 0 <= i < (a + b).len() implies (#[trigger] (a + b)[i]) as u32 >= 32 && (a
        + b)[i] != '"' && (a + b)[i] != '\\' by {
        if i < a.len() {
            assert((a + b)[i] == a[i]);
        } else {
            assert((a + b)[i] == b[i - a.len()]);
        }
    }
}

proof fn lemma_entry_writable(
    pkg: Seq<char>,
    big: Seq<char>,
    little: Seq<char>,
    names: Seq<Seq<char>>,
)
    requires
        plain_entry(pkg, big, little, names),
    ensures
        writable(entry_value(pkg, big, little, names), 4),
{
    lemma_keys();
    lemma_plain_concat("[auto] "@, pkg);
    lemma_name_list_writable(names);
    let threads = threads_value(big, names);
    assert(writable(threads, 2));
    let cpuset = seq![("other"@, JsonView::Text(little)), ("comm"@, threads)];
    assert(writable(JsonView::Object(cpuset), 3)) by {
        assert forall|i: int| 0 <= i < cpuset.len() implies plain((#[trigger] cpuset[i]).0)
            && writable(cpuset[i].1, 2) by {
            if i == 0 {
            } else {
                assert(i == 1);
            }
        }
    }
    assert forall|i: int| 0 <= i < seq![pkg].len() implies plain(#[trigger] seq![pkg][i]) by {
        assert(i == 0);
    }
    lemma_name_list_writable(seq![pkg]);
    lemma_writable_deeper(name_list(seq![pkg]), 1, 3);
    let fields = fields_of(entry_value(pkg, big, little, names));
    assert forall|i: int| 0 <= i < fields.len() implies plain((#[trigger] fields[i]).0)
        && writable(fields[i].1, 3) by {
        if i == 0 {
        } else if i == 1 {
        } else {
            assert(i == 2);
        }
    }
    assert forall|i: int, j: int| 0 <= i < j < fields.len() implies (#[trigger] fields[i]).0 != (
    #[trigger] fields[j]).0 by {
        if i == 0 && j == 1 {
        } else if i == 0 && j == 2 {
        } else {
            assert(i == 1 && j == 2);
        }
    }
}

proof fn lemma_spells_trim(text: Seq<char>, toks: Seq<Token>)
    requires
        toks.len() > 0,
        spells(text, toks),
    ensures
        spells(trimmed_end(text), toks),
{
    let head = lemma_spells_trimmed(text, toks);
    let last = toks.last();
    let empty = Seq::<char>::empty();
    lemma_spells_token(empty, last, empty);
    assert(empty + spelled(last) + empty =~= spelled(last));
    lemma_spells_concat(head, toks.drop_last(), spelled(last), seq![last]);
    assert(toks.drop_last() + seq![last] =~= toks);
}

proof fn lemma_list_tokens_push(items: Seq<JsonView>, e: JsonView)
    requires
        items.len() > 0,
    ensures
        tokens(JsonView::Array(items.push(e))) == tokens(JsonView::Array(items)).drop_last()
            + seq![Token::Comma] + tokens(e) + seq![Token::ListEnd],
{
    let comma = seq![Token::Comma];
    let parts = item_tokens(items);
    assert(item_tokens(items.push(e)) =~= parts.push(tokens(e)));
    lemma_joined_push(parts, tokens(e), comma);
    assert(tokens(JsonView::Array(items)).drop_last() =~= seq![Token::ListStart] + joined(
        parts,
        comma,
    ));
    assert(tokens(JsonView::Array(items.push(e))) =~= tokens(JsonView::Array(items)).drop_last()
        + comma + tokens(e) + seq![Token::ListEnd]);
}

proof fn lemma_list_writable_push(items: Seq<JsonView>, e: JsonView)
    requires
        items.len() == 0 || writable(JsonView::Array(items), max_depth()),
        writable(e, 4),
    ensures
        writable(JsonView::Array(items.push(e)), max_depth()),
{
    let d = (max_depth() - 1) as nat;
    lemma_writable_deeper(e, 4, d);
    let all = items.push(e);
    assert forall|i: int| 0 <= i < all.len() implies writable(#[trigger] all[i], d) by {
        if i < items.len() {
            let v = JsonView::Array(items);
            assert(writable(v, max_depth()));
            assert(v->Array_0[i] == items[i]);
            assert(all[i] == items[i]);
        } else {
            assert(all[i] == e);
        }
    }
}

/// Where there is no list to add to, the new cache text spells out a list of the one entry.
pub proof fn new_cache_holds_the_entry(
    old_text: Seq<char>,
    pkg: Seq<char>,
    big: Seq<char>,
    little: Seq<char>,
    names: Seq<Seq<char>>,
)
    requires
        !extends_list(old_text),
        plain_entry(pkg, big, little, names),
    ensures
        writes(
            cache_text(old_text, entry_text(pkg, big, little, names)),
            JsonView::Array(seq![entry_value(pkg, big, little, names)]),
        ),
        small_fractions(cache_text(old_text, entry_text(pkg, big, little, names))),
{
    let e = entry_value(pkg, big, little, names);
    let text = entry_text(pkg, big, little, names);
    lemma_entry_spelled(pkg, big, little, names);
    lemma_entry_writable(pkg, big, little, names);
    lemma_list_signs();
    lemma_spells_concat("[\n"@, seq![Token::ListStart], text, tokens(e));
    lemma_spells_concat(
        "[\n"@ + text,
        seq![Token::ListStart] + tokens(e),
        "\n]\n"@,
        seq![Token::ListEnd],
    );
    let items = Seq::<JsonView>::empty();
    lemma_list_writable_push(items, e);
    assert(items.push(e) =~= seq![e]);
    assert(item_tokens(seq![e]) =~= seq![tokens(e)]);
    lemma_writes_no_fractions(cache_text(old_text, text), JsonView::Array(seq![e]));
}

/// Where the cache text spells out a list with entries, the new text spells out that list with
/// the new entry behind them.
pub proof fn extended_cache_keeps_the_entries(
    old_text: Seq<char>,
    items: Seq<JsonView>,
    pkg: Seq<char>,
    big: Seq<char>,
    little: Seq<char>,
    names: Seq<Seq<char>>,
)
    requires
        writes(old_text, JsonView::Array(items)),
        items.len() > 0,
        plain_entry(pkg, big, little, names),
    ensures
        writes(
            cache_text(old_text, entry_text(pkg, big, little, names)),
            JsonView::Array(items.push(entry_value(pkg, big, little, names))),
        ),
        small_fractions(cache_text(old_text, entry_text(pkg, big, little, names))),
{
    let e = entry_value(pkg, big, little, names);
    let text = entry_text(pkg, big, little, names);
    let toks = tokens(JsonView::Array(items));
    lemma_entry_spelled(pkg, big, little, names);
    lemma_entry_writable(pkg, big, little, names);
    lemma_list_signs();
    lemma_list_tokens_push(items, e);
    lemma_list_writable_push(items, e);
    assert(toks[0] == Token::ListStart);
    assert(toks.last() == Token::ListEnd);
    lemma_spells_first(old_text, toks);
    lemma_trimmed_end_keeps(trimmed_start(old_text));
    let head = lemma_spells_trimmed(old_text, toks);
    assert(trimmed_end(old_text).drop_last() =~= head);
    assert(seq![']'].is_suffix_of(trimmed_end(old_text)));
    assert(seq!['['].is_prefix_of(trimmed_start(old_text)));
    assert(extends_list(old_text));
    let kept = toks.drop_last();
    lemma_spells_trim(head, kept);
    let a0 = trimmed_end(head);
    lemma_spells_concat(a0, kept, ",\n"@, seq![Token::Comma]);
    lemma_spells_concat(a0 + ",\n"@, kept + seq![Token::Comma], text, tokens(e));
    lemma_spells_concat(
        a0 + ",\n"@ + text,
        kept + seq![Token::Comma] + tokens(e),
        "\n]"@,
        seq![Token::ListEnd],
    );
    lemma_writes_no_fractions(cache_text(old_text, text), JsonView::Array(items.push(e)));
}

/// The entry for `pkg` as it stands in a list, on lines of its own.
pub open spec fn entry_item(
    pkg: Seq<char>,
    big: Seq<char>,
    little: Seq<char>,
    names: Seq<Seq<char>>,
) -> Seq<char> {
    "\n"@ + entry_text(pkg, big, little, names) + "\n"@
}

/// A cache that fits before an entry is added fits afterwards.
pub proof fn extended_cache_fits(
    text: Seq<char>,
    old_text: Seq<char>,
    pkg: Seq<char>,
    big: Seq<char>,
    little: Seq<char>,
    names: Seq<Seq<char>>,
)
    requires
        extends_list(old_text) ==> list_text(old_text) && small_fractions(old_text),
        adds_entry(text, old_text, pkg, big, little, names),
        plain_entry(pkg, big, little, names),
    ensures
        small_fractions(text),
{
    if extends_list(old_text) {
        entries_are_appended(text, old_text, pkg, big, little, names);
    } else {
        new_cache_holds_the_entry(old_text, pkg, big, little, names);
    }
}

/// Whatever a list holds, the text with an entry added to it is the text of the list with one
/// spelled item behind the others, and brings no fraction into it.
pub proof fn entries_are_appended(
    text: Seq<char>,
    old_text: Seq<char>,
    pkg: Seq<char>,
    big: Seq<char>,
    little: Seq<char>,
    names: Seq<Seq<char>>,
)
    requires
        list_text(old_text),
        adds_entry(text, old_text, pkg, big, little, names),
        plain_entry(pkg, big, little, names),
    ensures
        appends(
            text,
            old_text,
            entry_item(pkg, big, little, names),
        ),
        item_text(
            entry_item(pkg, big, little, names),
            entry_value(pkg, big, little, names),
        ),
        small_fractions(old_text) ==> small_fractions(text),
{
    let e = entry_value(pkg, big, little, names);
    let entry = entry_text(pkg, big, little, names);
    let item = entry_item(pkg, big, little, names);
    reveal_strlit("\n");
    reveal_strlit(",\n");
    reveal_strlit("\n]");
    assert(trimmed_start(old_text).subrange(0, 1)[0] == '[');
    lemma_trimmed_end_keeps(trimmed_start(old_text));
    assert(extends_list(old_text));
    assert(text =~= list_head(old_text) + seq![','] + item + seq![']']);
    lemma_entry_spelled(pkg, big, little, names);
    lemma_entry_writable(pkg, big, little, names);
    lemma_writable_deeper(e, 4, (max_depth() - 1) as nat);
    let none = Seq::<Token>::empty();
    assert(all_blank("\n"@));
    lemma_spells_concat("\n"@, none, entry, tokens(e));
    lemma_spells_concat("\n"@ + entry, none + tokens(e), "\n"@, none);
    assert(none + tokens(e) + none =~= tokens(e));
    if small_fractions(old_text) {
        lemma_appends_no_fractions(text, old_text, item, e);
    }
}

proof fn lemma_name_list_strings(names: Seq<Seq<char>>)
    ensures
        strings(items_of(name_list(names))) == names,
    decreases names.len(),
{
    let items = items_of(name_list(names));
    if names.len() > 0 {
        let rest = names.drop_last();
        lemma_name_list_strings(rest);
        assert(items.drop_last() =~= items_of(name_list(rest)));
        assert(items.last() == JsonView::Text(names.last()));
        assert(strings(items) =~= names);
    } else {
        assert(strings(items) =~= names);
    }
}

/// What an entry says once it is loaded: the rule for the package, and one for each thread with
/// a name that is not empty.
pub proof fn entry_makes_its_rules(
    pkg: Seq<char>,
    big: Seq<char>,
    little: Seq<char>,
    names: Seq<Seq<char>>,
)
    requires
        !system_package(pkg),
    ensures
        cached_entry_rules(entry_value(pkg, big, little, names)) == seq![
            package_rule(pkg, compressed(little)),
        ] + rules_for(pkg, compressed(big), named(names)),
        cached_entry_packages(entry_value(pkg, big, little, names)) == set![pkg],
{
    lemma_keys();
    reveal_with_fuel(lookup, 4);
    let e = entry_value(pkg, big, little, names);
    let fields = fields_of(e);
    assert(fields.skip(1)[0] == fields[1]);
    assert(fields.skip(1).skip(1)[0] == fields[2]);
    let threads = threads_value(big, names);
    let cpuset = seq![("other"@, JsonView::Text(little)), ("comm"@, threads)];
    assert(cpuset.skip(1)[0] == cpuset[1]);
    assert(member(e, "packages"@) == name_list(seq![pkg]));
    assert(member(e, "cpuset"@) == JsonView::Object(cpuset));
    assert(member(member(e, "cpuset"@), "other"@) == JsonView::Text(little));
    assert(member(member(e, "cpuset"@), "comm"@) == threads);
    lemma_name_list_strings(seq![pkg]);
    lemma_name_list_strings(names);
    assert(entry_packages(e) == seq![pkg]);
    assert(entry_packages(e).to_set() =~= set![pkg]) by {
        assert forall|x: Seq<char>| seq![pkg].contains(x) <==> x == pkg by {
            if x == pkg {
                assert(seq![pkg][0] == x);
            }
        }
    }
    let lists = fields_of(threads);
    if names.len() == 0 {
        assert(named(names) =~= Seq::<Seq<char>>::empty()) by {
            reveal(Seq::filter);
        }
        assert(cached_thread_rules(pkg, lists) =~= rules_for(pkg, compressed(big), named(names)));
    } else {
        assert(lists.drop_last() =~= Seq::<(Seq<char>, JsonView)>::empty());
        assert(lists.last() == (big, name_list(names)));
        assert(cached_thread_rules(pkg, lists.drop_last()) =~= Seq::<RuleView>::empty());
        assert(cached_thread_rules(pkg, lists) =~= rules_for(pkg, compressed(big), named(names)));
    }
}

/// What is cached reads back: behind the rules and packages of the entries that the cache had,
/// loading it gives those that were made for `pkg`.
pub proof fn cached_entry_reads_back(
    items: Seq<JsonView>,
    pkg: Seq<char>,
    big: Seq<char>,
    little: Seq<char>,
    names: Seq<Seq<char>>,
)
    requires
        !system_package(pkg),
    ensures
        cached_rules(items.push(entry_value(pkg, big, little, names))) == cached_rules(items)
            + seq![package_rule(pkg, compressed(little))] + rules_for(
            pkg,
            compressed(big),
            named(names),
        ),
        cached_packages(items.push(entry_value(pkg, big, little, names))) == cached_packages(
            items,
        ).insert(pkg),
{
    let e = entry_value(pkg, big, little, names);
    entry_makes_its_rules(pkg, big, little, names);
    let all = items.push(e);
    assert(all.drop_last() =~= items);
    assert(cached_rules(all) =~= cached_rules(items) + seq![package_rule(pkg, compressed(little))]
        + rules_for(pkg, compressed(big), named(names)));
    assert(cached_packages(all) =~= cached_packages(items).insert(pkg));
}

} // verus!
