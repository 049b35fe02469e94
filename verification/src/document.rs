//! JSON documents: what the library reads of them, and how they come from text.

use vstd::prelude::*;

use json::JsonValue;

use crate::notation::{
    appends, fits_from, item_text, list_text, scan_fits, scan_step, small_fractions, writes, Scan,
    MAX_DIGITS,
};
use crate::text::{chars_of, same_text, texts};

verus! {

/// A JSON value. `null`, numbers and absent values are all `Null`: nothing here reads a number.
pub enum Json {
    Null,
    Bool(bool),
    Text(String),
    Array(Vec<Json>),
    Object(Vec<(String, Json)>),
}

/// What a JSON value holds.
pub enum JsonView {
    Null,
    Bool(bool),
    Text(Seq<char>),
    Array(Seq<JsonView>),
    Object(Seq<(Seq<char>, JsonView)>),
}

/// What `j` holds.
pub open spec fn json_view(j: Json) -> JsonView
    decreases j,
{
    match j {
        Json::Null => JsonView::Null,
        Json::Bool(b) => JsonView::Bool(b),
        Json::Text(s) => JsonView::Text(s@),
        Json::Array(v) => JsonView::Array(
            Seq::new(
                v@.len(),
                |i: int|
                    if 0 <= i < v@.len() {
                        json_view(v@[i])
                    } else {
                        JsonView::Null
                    },
            ),
        ),
        Json::Object(v) => JsonView::Object(
            Seq::new(
                v@.len(),
                |i: int|
                    if 0 <= i < v@.len() {
                        (v@[i].0@, json_view(v@[i].1))
                    } else {
                        (Seq::empty(), JsonView::Null)
                    },
            ),
        ),
    }
}

impl View for Json {
    type V = JsonView;

    open spec fn view(&self) -> JsonView {
        json_view(*self)
    }
}

/// The value of the first of `fields` with key `key`.
pub open spec fn lookup(fields: Seq<(Seq<char>, JsonView)>, key: Seq<char>) -> JsonView
    decreases fields.len(),
{
    if fields.len() == 0 {
        JsonView::Null
    } else if fields[0].0 == key {
        fields[0].1
    } else {
        lookup(fields.skip(1), key)
    }
}

/// The value that `j` has under `key`.
pub open spec fn member(j: JsonView, key: Seq<char>) -> JsonView {
    match j {
        JsonView::Object(fields) => lookup(fields, key),
        _ => JsonView::Null,
    }
}

/// The items of `j`, where it is a list.
pub open spec fn items_of(j: JsonView) -> Seq<JsonView> {
    match j {
        JsonView::Array(items) => items,
        _ => Seq::empty(),
    }
}

/// The fields of `j`, where it is an object.
pub open spec fn fields_of(j: JsonView) -> Seq<(Seq<char>, JsonView)> {
    match j {
        JsonView::Object(fields) => fields,
        _ => Seq::empty(),
    }
}

/// The strings among `items`, in order.
pub open spec fn strings(items: Seq<JsonView>) -> Seq<Seq<char>>
    decreases items.len(),
{
    if items.len() == 0 {
        Seq::empty()
    } else {
        match items.last() {
            JsonView::Text(s) => strings(items.drop_last()).push(s),
            _ => strings(items.drop_last()),
        }
    }
}

/// The string `j`, or `default` where it is none.
pub open spec fn text_or(j: JsonView, default: Seq<char>) -> Seq<char> {
    match j {
        JsonView::Text(s) => s,
        _ => default,
    }
}

/// The boolean `j`, or `default` where it is none.
pub open spec fn bool_or(j: JsonView, default: bool) -> bool {
    match j {
        JsonView::Bool(b) => b,
        _ => default,
    }
}

impl Json {
    /// The value under `key`, where this is an object that has one.
    pub fn get(&self, key: &str) -> (r: Option<&Json>)
        ensures
            match r {
                Some(j) => member(self@, key@) == j@,
                None => member(self@, key@) is Null,
            },
    {
        match self {
            Json::Object(fields) => {
                let ghost all = fields_of(self@);
                let mut i: usize = 0;
                assert(all.skip(0) =~= all);
                while i < fields.len()
                    invariant
                        i <= fields@.len(),
                        *self == Json::Object(*fields),
                        all == fields_of(self@),
                        lookup(all, key@) == lookup(all.skip(i as int), key@),
                    decreases fields@.len() - i,
                {
                    proof {
                        assert(all[i as int] == (fields@[i as int].0@, json_view(
                            fields@[i as int].1,
                        )));
                        assert(all.skip(i as int)[0] == all[i as int]);
                        assert(all.skip(i as int).skip(1) =~= all.skip(i + 1));
                    }
                    if same_text(fields[i].0.as_str(), key) {
                        return Some(&fields[i].1);
                    }
                    i += 1;
                }
                None
            },
            _ => None,
        }
    }

    /// The value under `outer` and there under `inner`, where both are there.
    pub fn get_in(&self, outer: &str, inner: &str) -> (r: Option<&Json>)
        ensures
            match r {
                Some(j) => member(member(self@, outer@), inner@) == j@,
                None => member(member(self@, outer@), inner@) is Null,
            },
    {
        match self.get(outer) {
            Some(j) => j.get(inner),
            None => None,
        }
    }

    /// Tells whether this is a list.
    pub fn is_list(&self) -> (r: bool)
        ensures
            r == (self@ is Array),
    {
        match self {
            Json::Array(_) => true,
            _ => false,
        }
    }

    /// The strings of a list, in order.
    pub fn list_strings(&self) -> (r: Vec<String>)
        ensures
            texts(r@) == strings(items_of(self@)),
    {
        let mut r: Vec<String> = Vec::new();
        if let Json::Array(items) = self {
            let ghost all = items_of(self@);
            let mut i: usize = 0;
            while i < items.len()
                invariant
                    i <= items@.len(),
                    *self == Json::Array(*items),
                    all == items_of(self@),
                    texts(r@) == strings(all.take(i as int)),
                decreases items@.len() - i,
            {
                let ghost before = texts(r@);
                proof {
                    assert(all[i as int] == json_view(items@[i as int]));
                    assert(all.take(i + 1).drop_last() =~= all.take(i as int));
                    assert(all.take(i + 1).last() == all[i as int]);
                }
                if let Json::Text(s) = &items[i] {
                    r.push(s.clone());
                    assert(texts(r@) =~= before.push(s@));
                }
                i += 1;
            }
            assert(all.take(i as int) =~= all);
        }
        r
    }
}

/// The string `j`, or `default` where it is none.
pub fn text_of(j: Option<&Json>, default: &str) -> (r: String)
    ensures
        r@ == match j {
            Some(j) => text_or(j@, default@),
            None => default@,
        },
{
    match j {
        Some(Json::Text(s)) => s.clone(),
        _ => default.to_owned(),
    }
}

/// The boolean `j`, or `default` where it is none.
pub fn bool_of(j: Option<&Json>, default: bool) -> (r: bool)
    ensures
        r == match j {
            Some(j) => bool_or(j@, default),
            None => default,
        },
{
    match j {
        Some(Json::Bool(b)) => *b,
        _ => default,
    }
}

/// `json::JsonValue`, the value type of the `json` crate. Nothing is claimed of its insides but
/// through [`json_tree`].
#[verifier::external_type_specification]
#[verifier::external_body]
pub struct ExJsonValue(json::JsonValue);

/// `json::Error`, the error type of the `json` crate, which is only carried through.
#[verifier::external_type_specification]
#[verifier::external_body]
pub struct ExJsonError(json::Error);

/// What a `json::JsonValue` holds: its strings, whether short or long, its booleans, the members
/// of its arrays and the entries of its objects in the order in which they are stored. `null`
/// and numbers are not told apart.
pub uninterp spec fn json_tree(v: JsonValue) -> JsonView;

/// What `json::parse` reads in `text`, or `None` where it reports an error.
pub uninterp spec fn json_document(text: Seq<char>) -> Option<JsonView>;

/// `json::parse`: what it returns depends on the text alone. A text that spells out `null`,
/// booleans, strings without escapes, lists and objects with distinct keys, nested no deeper than
/// its limit of 512, is read as the value that is spelled. A text that is read as a list has the
/// outline of one. It reads lists from left to right: where a text is read as a list with items,
/// whatever they are, that text with one spelled item put behind the last of them is read as the
/// list with that item more. It counts the digits of a fraction in an `i16`, which a fraction that
/// starts with `0.` and very many zeros exceeds, so texts with such a fraction are left out.
pub assume_specification[ json::parse ](source: &str) -> (r: Result<JsonValue, json::Error>)
    requires
        small_fractions(source@),
    ensures
        match r {
            Ok(v) => json_document(source@) == Some(json_tree(v)),
            Err(_) => json_document(source@) is None,
        },
        forall|v: JsonView| #[trigger]
            writes(source@, v) ==> match r {
                Ok(x) => json_tree(x) == v,
                Err(_) => false,
            },
        match r {
            Ok(x) => json_tree(x) is Array ==> list_text(source@),
            Err(_) => true,
        },
        forall|old: Seq<char>, item: Seq<char>, v: JsonView| #[trigger]
            appends(source@, old, item) && #[trigger] item_text(item, v) && small_fractions(old)
                ==> match json_document(old) {
                Some(JsonView::Array(items)) => items.len() > 0 ==> match r {
                    Ok(x) => json_tree(x) == JsonView::Array(items.push(v)),
                    Err(_) => false,
                },
                _ => true,
            },
;

/// `JsonValue::is_array`: true of arrays and of nothing else.
pub assume_specification[ JsonValue::is_array ](v: &JsonValue) -> (r: bool)
    ensures
        r == (json_tree(*v) is Array),
;

/// `JsonValue::is_object`: true of objects and of nothing else.
pub assume_specification[ JsonValue::is_object ](v: &JsonValue) -> (r: bool)
    ensures
        r == (json_tree(*v) is Object),
;

/// `JsonValue::as_str`: the characters of a string, and `None` for every other value.
pub assume_specification[ JsonValue::as_str ](v: &JsonValue) -> (r: Option<&str>)
    ensures
        match r {
            Some(s) => json_tree(*v) == JsonView::Text(s@),
            None => !(json_tree(*v) is Text),
        },
;

/// `JsonValue::as_bool`: the value of a boolean, and `None` for every other value.
pub assume_specification[ JsonValue::as_bool ](v: &JsonValue) -> (r: Option<bool>)
    ensures
        match r {
            Some(b) => json_tree(*v) == JsonView::Bool(b),
            None => !(json_tree(*v) is Bool),
        },
;

/// `JsonValue::members`: the items of an array in order, and none for every other value.
#[verifier::external_body]
fn members<'a>(v: &'a JsonValue) -> (r: Vec<&'a JsonValue>)
    ensures
        match json_tree(*v) {
            JsonView::Array(items) => items == r@.map_values(|x: &JsonValue| json_tree(*x)),
            _ => r@.len() == 0,
        },
{
    v.members().collect()
}

/// `JsonValue::entries`: the keys and values of an object in the order in which they are stored,
/// and none for every other value.
#[verifier::external_body]
fn entries<'a>(v: &'a JsonValue) -> (r: Vec<(&'a str, &'a JsonValue)>)
    ensures
        match json_tree(*v) {
            JsonView::Object(fields) => fields == r@.map_values(
                |x: (&str, &JsonValue)| (x.0@, json_tree(*x.1)),
            ),
            _ => r@.len() == 0,
        },
{
    v.entries().collect()
}

/// The contents of a value of the `json` crate.
fn tree(v: &JsonValue) -> (r: Json)
    ensures
        r@ == json_tree(*v),
    decreases json_tree(*v),
{
    if v.is_array() {
        let items: Vec<&JsonValue> = members(v);
        let mut out: Vec<Json> = Vec::new();
        let mut i: usize = 0;
        let ghost all = json_tree(*v)->Array_0;
        while i < items.len()
            invariant
                i <= items@.len(),
                json_tree(*v) == JsonView::Array(all),
                all == items@.map_values(|x: &JsonValue| json_tree(*x)),
                out@.len() == i,
                forall|j: int| 0 <= j < i ==> json_view(#[trigger] out@[j]) == all[j],
            decreases items@.len() - i,
        {
            assert(all[i as int] == json_tree(*items@[i as int]));
            assert(decreases_to!(json_tree(*v) => json_tree(*v)->Array_0));
            assert(decreases_to!(all => all[i as int]));
            out.push(tree(items[i]));
            i += 1;
        }
        let r = Json::Array(out);
        assert(r@->Array_0 =~= all);
        r
    } else if v.is_object() {
        let fields: Vec<(&str, &JsonValue)> = entries(v);
        let mut out: Vec<(String, Json)> = Vec::new();
        let mut i: usize = 0;
        let ghost all = json_tree(*v)->Object_0;
        while i < fields.len()
            invariant
                i <= fields@.len(),
                json_tree(*v) == JsonView::Object(all),
                all == fields@.map_values(|x: (&str, &JsonValue)| (x.0@, json_tree(*x.1))),
                out@.len() == i,
                forall|j: int|
                    0 <= j < i ==> ((#[trigger] out@[j]).0@, json_view(out@[j].1)) == all[j],
            decreases fields@.len() - i,
        {
            assert(all[i as int] == (fields@[i as int].0@, json_tree(*fields@[i as int].1)));
            assert(decreases_to!(json_tree(*v) => json_tree(*v)->Object_0));
            assert(decreases_to!(all => all[i as int]));
            assert(decreases_to!(all[i as int] => all[i as int].1));
            out.push((fields[i].0.to_owned(), tree(fields[i].1)));
            i += 1;
        }
        let r = Json::Object(out);
        assert(r@->Object_0 =~= all);
        r
    } else if let Some(s) = v.as_str() {
        Json::Text(s.to_owned())
    } else if let Some(b) = v.as_bool() {
        Json::Bool(b)
    } else {
        proof {
            assert(json_tree(*v) is Null);
        }
        Json::Null
    }
}

/// Tells whether no fraction in `text` that starts with `0.` has more than [`MAX_DIGITS`] digits
/// that count.
pub fn fractions_fit(text: &str) -> (r: bool)
    ensures
        r == small_fractions(text@),
{
    let sc: Vec<char> = chars_of(text);
    let mut quoted: bool = false;
    let mut escaped: bool = false;
    let mut digits: bool = false;
    let mut zero: bool = false;
    let mut fraction: Option<(u32, u64)> = None;
    let ghost mut at = Scan::Outside;
    let mut i: usize = 0;
    assert(text@.skip(0) =~= text@);
    while i < sc.len()
        invariant
            i <= sc@.len(),
            sc@ == text@,
            small_fractions(text@) == fits_from(at, text@.skip(i as int)),
            scan_fits(at),
            quoted == (at is Quoted || at is Escaped),
            escaped == (at is Escaped),
            digits == (at is Digits),
            zero == (at is Zero),
            match fraction {
                Some((count, number)) => at == Scan::Fraction(count as nat, number as nat) && count
                    <= MAX_DIGITS,
                None => !(at is Fraction),
            },
        decreases sc@.len() - i,
    {
        let c: char = sc[i];
        proof {
            assert(text@.skip(i as int)[0] == c);
            assert(text@.skip(i as int).skip(1) =~= text@.skip(i + 1));
            at = scan_step(at, c);
        }
        if escaped {
            escaped = false;
        } else if quoted {
            if c == '\\' {
                escaped = true;
            } else if c == '"' {
                quoted = false;
            }
        } else if c == '"' {
            quoted = true;
            digits = false;
            zero = false;
            fraction = None;
        } else if '0' <= c && c <= '9' {
            match fraction {
                Some((count, number)) => {
                    let d: u64 = (c as u32 - 48) as u64;
                    if number <= (u64::MAX - d) / 10 {
                        if count == MAX_DIGITS {
                            assert(!fits_from(at, text@.skip(i + 1)));
                            return false;
                        }
                        fraction = Some((count + 1, 10 * number + d));
                    }
                },
                None => {
                    if c == '0' && !zero && !digits {
                        zero = true;
                    } else {
                        zero = false;
                        digits = true;
                    }
                },
            }
        } else {
            fraction = if c == '.' && zero {
                Some((0, 0))
            } else {
                None
            };
            digits = false;
            zero = false;
        }
        i += 1;
    }
    true
}

/// A text holds a fraction with too many digits to be read.
pub struct LongFraction;

/// Reads a JSON document; `None` where `text` is none.
pub fn parse_document(text: &str) -> (r: Option<Json>)
    requires
        small_fractions(text@),
    ensures
        match r {
            Some(j) => json_document(text@) == Some(j@),
            None => json_document(text@) is None,
        },
        forall|v: JsonView| #[trigger]
            writes(text@, v) ==> json_document(text@) == Some(v),
        json_document(text@) matches Some(v) ==> v is Array ==> list_text(text@),
        forall|old: Seq<char>, item: Seq<char>, v: JsonView| #[trigger]
            appends(text@, old, item) && #[trigger] item_text(item, v) && small_fractions(old)
                ==> match json_document(old) {
                Some(JsonView::Array(items)) => items.len() > 0 ==> json_document(text@) == Some(
                    JsonView::Array(items.push(v)),
                ),
                _ => true,
            },
{
    match json::parse(text) {
        Ok(v) => Some(tree(&v)),
        Err(_) => None,
    }
}

} // verus!
