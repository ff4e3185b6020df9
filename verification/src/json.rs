//! JSON texts as plain values, read through `serde_json`, and the fields of
//! a release record of the releases API.

use vstd::prelude::*;
use crate::text::{push_str, str_eq};

verus! {

#[verifier::external_type_specification]
#[verifier::external_body]
pub struct ExJsonValue(serde_json::Value);

/// A JSON value. A number keeps its value when it is a whole number from 0
/// to `u64::MAX`; an object keeps its entries in order.
#[derive(Debug)]
pub enum JsonValue {
    Null,
    Bool(bool),
    Number(Option<u64>),
    Str(String),
    Array(Vec<JsonValue>),
    Object(Vec<(String, JsonValue)>),
}

/// What `serde_json::from_str::<serde_json::Value>` makes of a text, as a
/// plain value (objects with their entries in the order of serde_json's map,
/// numbers by `Number::as_u64`), or the text of its error. It reads only the
/// text.
pub uninterp spec fn json_of(text: Seq<char>) -> Result<JsonValue, Seq<char>>;

/// serde_json's value as a plain value, one variant to one: a number by
/// `Number::as_u64`, an array element by element, an object entry by entry
/// in the order of its map.
#[verifier::external_body]
fn json_from_value(v: &serde_json::Value) -> JsonValue {
    match v {
        serde_json::Value::Null => JsonValue::Null,
        serde_json::Value::Bool(b) => JsonValue::Bool(*b),
        serde_json::Value::Number(n) => JsonValue::Number(n.as_u64()),
        serde_json::Value::String(s) => JsonValue::Str(s.clone()),
        serde_json::Value::Array(a) => JsonValue::Array(a.iter().map(json_from_value).collect()),
        serde_json::Value::Object(o) => JsonValue::Object(
            o.iter().map(|(k, x)| (k.clone(), json_from_value(x))).collect(),
        ),
    }
}

/// `serde_json::from_str::<serde_json::Value>`: the value of a JSON text,
/// or the message of its syntax error.
#[verifier::external_body]
pub(crate) fn parse_json(text: &str) -> (r: Result<JsonValue, String>)
    ensures
        match r {
            Ok(v) => json_of(text@) == Ok::<JsonValue, Seq<char>>(v),
            Err(m) => json_of(text@) == Err::<JsonValue, Seq<char>>(m@),
        },
{
    match serde_json::from_str::<serde_json::Value>(text) {
        Ok(v) => Ok(json_from_value(&v)),
        Err(e) => Err(e.to_string()),
    }
}

/// Position of the first entry named `key` from `k` on.
pub open spec fn entry_index(es: Seq<(String, JsonValue)>, key: Seq<char>, k: int) -> Option<int>
    decreases es.len() - k,
{
    if k < 0 || k >= es.len() {
        None
    } else if es[k].0@ == key {
        Some(k)
    } else {
        entry_index(es, key, k + 1)
    }
}

/// The value of the field `key` of an object (the first entry of that
/// name); nothing for a missing field or a value that is no object.
pub open spec fn json_field(v: JsonValue, key: Seq<char>) -> Option<JsonValue> {
    match v {
        JsonValue::Object(es) => match entry_index(es@, key, 0) {
            Some(k) => Some(es@[k].1),
            None => None,
        },
        _ => None,
    }
}

/// The field `key` when it is a string.
pub open spec fn field_str(v: JsonValue, key: Seq<char>) -> Option<Seq<char>> {
    match json_field(v, key) {
        Some(JsonValue::Str(s)) => Some(s@),
        _ => None,
    }
}

/// The field `key` when it is a whole number that fits in `u64`.
pub open spec fn field_u64(v: JsonValue, key: Seq<char>) -> Option<u64> {
    match json_field(v, key) {
        Some(JsonValue::Number(Some(n))) => Some(n),
        _ => None,
    }
}

pub open spec fn str_or_empty(s: Option<Seq<char>>) -> Seq<char> {
    match s {
        Some(x) => x,
        None => Seq::empty(),
    }
}

/// An asset of a release record: its name, download link and size, empty
/// or 0 where the record has none.
pub open spec fn json_asset(a: JsonValue) -> (Seq<char>, Seq<char>, u64) {
    (
        str_or_empty(field_str(a, "name"@)),
        str_or_empty(field_str(a, "browser_download_url"@)),
        match field_u64(a, "size"@) {
            Some(n) => n,
            None => 0,
        },
    )
}

/// The assets of a release record: those of its `assets` array, none where
/// it has no array.
pub open spec fn json_assets(v: JsonValue) -> Seq<(Seq<char>, Seq<char>, u64)> {
    match json_field(v, "assets"@) {
        Some(JsonValue::Array(xs)) => xs@.map_values(|a: JsonValue| json_asset(a)),
        _ => Seq::empty(),
    }
}

pub open spec fn asset_view(a: (String, String, u64)) -> (Seq<char>, Seq<char>, u64) {
    (a.0@, a.1@, a.2)
}

pub open spec fn opt_string_view(s: Option<String>) -> Option<Seq<char>> {
    match s {
        Some(x) => Some(x@),
        None => None,
    }
}

/// The field `key` of `v`, if `v` is an object that has it.
pub fn get_field<'a>(v: &'a JsonValue, key: &str) -> (r: Option<&'a JsonValue>)
    ensures
        match r {
            Some(x) => json_field(*v, key@) == Some(*x),
            None => json_field(*v, key@) is None,
        },
{
    match v {
        JsonValue::Object(es) => {
            let mut k: usize = 0;
            while k < es.len()
                invariant
                    k <= es.len(),
                    *v == JsonValue::Object(*es),
                    entry_index(es@, key@, 0) == entry_index(es@, key@, k as int),
                decreases es.len() - k,
            {
                if str_eq(es[k].0.as_str(), key) {
                    assert(es@[k as int].0@ == key@);
                    assert(entry_index(es@, key@, k as int) == Some(k as int));
                    let r = &es[k].1;
                    return Some(r);
                }
                k += 1;
            }
            None
        },
        _ => None,
    }
}

fn copy_string(s: &str) -> (r: String)
    ensures
        r@ == s@,
{
    let mut out = String::new();
    push_str(&mut out, s);
    assert(out@ =~= s@);
    out
}

/// The field `key` of `v` when it is a string.
pub fn get_str_field(v: &JsonValue, key: &str) -> (r: Option<String>)
    ensures
        opt_string_view(r) == field_str(*v, key@),
{
    match get_field(v, key) {
        Some(JsonValue::Str(s)) => Some(copy_string(s.as_str())),
        _ => None,
    }
}

/// The field `key` of `v` when it is a whole number that fits in `u64`.
pub fn get_u64_field(v: &JsonValue, key: &str) -> (r: Option<u64>)
    ensures
        r == field_u64(*v, key@),
{
    match get_field(v, key) {
        Some(JsonValue::Number(Some(n))) => Some(*n),
        _ => None,
    }
}

/// The fields of a release record that an update check reads: the tag
/// (empty where it has none), the release name, notes and page (where they
/// are strings), and each asset's name, link and size.
pub fn api_release_fields(v: &JsonValue) -> (r: (
    String,
    Option<String>,
    Option<String>,
    Option<String>,
    Vec<(String, String, u64)>,
))
    ensures
        r.0@ == str_or_empty(field_str(*v, "tag_name"@)),
        opt_string_view(r.1) == field_str(*v, "name"@),
        opt_string_view(r.2) == field_str(*v, "body"@),
        opt_string_view(r.3) == field_str(*v, "html_url"@),
        r.4@.map_values(|a: (String, String, u64)| asset_view(a)) == json_assets(*v),
{
    let tag = match get_str_field(v, "tag_name") {
        Some(t) => t,
        None => String::new(),
    };
    let name = get_str_field(v, "name");
    let body = get_str_field(v, "body");
    let url = get_str_field(v, "html_url");
    let mut assets: Vec<(String, String, u64)> = Vec::new();
    match get_field(v, "assets") {
        Some(JsonValue::Array(xs)) => {
            let mut k: usize = 0;
            while k < xs.len()
                invariant
                    k <= xs.len(),
                    assets@.map_values(|a: (String, String, u64)| asset_view(a)) == xs@.take(
                        k as int,
                    ).map_values(|a: JsonValue| json_asset(a)),
                decreases xs.len() - k,
            {
                let a = &xs[k];
                let n = match get_str_field(a, "name") {
                    Some(s) => s,
                    None => String::new(),
                };
                let u = match get_str_field(a, "browser_download_url") {
                    Some(s) => s,
                    None => String::new(),
                };
                let z = match get_u64_field(a, "size") {
                    Some(s) => s,
                    None => 0,
                };
                let ghost before = assets@;
                assets.push((n, u, z));
                proof {
                    assert(*a == xs@[k as int]);
                    assert(asset_view((n, u, z)) == json_asset(xs@[k as int]));
                    assert(xs@.take(k + 1) =~= xs@.take(k as int).push(xs@[k as int]));
                    assert(assets@ =~= before.push((n, u, z)));
                    let f = |a: (String, String, u64)| asset_view(a);
                    let g = |a: JsonValue| json_asset(a);
                    assert(assets@.map_values(f) =~= before.map_values(f).push(asset_view((n, u, z))));
                    assert(xs@.take(k + 1).map_values(g) =~= xs@.take(k as int).map_values(g).push(
                        json_asset(xs@[k as int]),
                    ));
                    assert(assets@.map_values(|a: (String, String, u64)| asset_view(a)) =~= xs@.take(
                        k + 1,
                    ).map_values(|a: JsonValue| json_asset(a)));
                }
                k += 1;
            }
            assert(xs@.take(xs.len() as int) =~= xs@);
        },
        _ => {
            assert(assets@.map_values(|a: (String, String, u64)| asset_view(a)) =~= Seq::<
                (Seq<char>, Seq<char>, u64),
            >::empty());
        },
    }
    proof {
        reveal_strlit("");
    }
    (tag, name, body, url, assets)
}

} // verus!
