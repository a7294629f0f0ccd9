use vstd::prelude::*;

use crate::readme::{readme_spec, readme_text, README_FOOTER};

verus! {

/// The string that serde_json finds under `key` in the object that `data` holds
/// as JSON; `None` when `data` is no JSON, is no object, lacks the member, or
/// holds something other than a string there.
pub uninterp spec fn json_str_member(data: Seq<u8>, key: Seq<char>) -> Option<Seq<char>>;

/// The items of the array that serde_json finds under `key` in the object that
/// `data` holds as JSON, each a string (`Some`) or some other value (`None`);
/// `None` when there is no such array.
pub uninterp spec fn json_array_member(data: Seq<u8>, key: Seq<char>) -> Option<Seq<Option<Seq<char>>>>;

pub open spec fn opt_text(x: Option<String>) -> Option<Seq<char>> {
    match x {
        Some(s) => Some(s@),
        None => None,
    }
}

/// `serde_json::from_slice::<Value>`, then `get(key)` on the value: the member's
/// text when it is a string.
#[verifier::external_body]
fn json_str_member_of(data: &[u8], key: &str) -> (r: Option<String>)
    ensures
        opt_text(r) == json_str_member(data@, key@),
{
    let json: serde_json::Value = match serde_json::from_slice(data) {
        Ok(v) => v,
        Err(_) => return None,
    };
    match json.get(key) {
        Some(serde_json::Value::String(s)) => Some(s.clone()),
        _ => None,
    }
}

/// `serde_json::from_slice::<Value>`, then `get(key)` on the value: when the member
/// is an array, each of its items, a string as `Some` of its text and any other
/// value as `None`.
#[verifier::external_body]
fn json_array_member_of(data: &[u8], key: &str) -> (r: Option<Vec<Option<String>>>)
    ensures
        match r {
            Some(v) => json_array_member(data@, key@) == Some(v@.map_values(|x: Option<String>| opt_text(x))),
            None => json_array_member(data@, key@) is None,
        },
{
    let json: serde_json::Value = match serde_json::from_slice(data) {
        Ok(v) => v,
        Err(_) => return None,
    };
    match json.get(key) {
        Some(serde_json::Value::Array(items)) => Some(items.iter().map(|x| match x {
            serde_json::Value::String(s) => Some(s.clone()),
            _ => None,
        }).collect()),
        _ => None,
    }
}

pub open spec fn name_key() -> Seq<char> {
    seq!['n', 'a', 'm', 'e']
}

pub open spec fn description_key() -> Seq<char> {
    seq!['d', 'e', 's', 'c', 'r', 'i', 'p', 't', 'i', 'o', 'n']
}

pub open spec fn authors_key() -> Seq<char> {
    seq!['a', 'u', 't', 'h', 'o', 'r', 's']
}

/// The strings among `items`, in order.
pub open spec fn strings_of(items: Seq<Option<Seq<char>>>) -> Seq<Seq<char>>
    decreases items.len(),
{
    if items.len() == 0 {
        seq![]
    } else {
        let before = strings_of(items.drop_last());
        match items.last() {
            Some(s) => before.push(s),
            None => before,
        }
    }
}

/// The author names of an `avatar.json`: the strings of its `authors` array, none
/// when it has no such array.
pub open spec fn avatar_authors(data: Seq<u8>) -> Seq<Seq<char>> {
    match json_array_member(data, authors_key()) {
        Some(items) => strings_of(items),
        None => seq![],
    }
}

/// The strings among the items of a JSON array, in order; other items are
/// skipped.
pub fn string_items(items: &Vec<Option<String>>) -> (v: Vec<String>)
    ensures
        v@.map_values(|a: String| a@) == strings_of(items@.map_values(|x: Option<String>| opt_text(x))),
{
    let ghost iv = items@.map_values(|x: Option<String>| opt_text(x));
    let mut out: Vec<String> = Vec::new();
    let mut k: usize = 0;
    proof {
        assert(iv.take(0) =~= Seq::<Option<Seq<char>>>::empty());
        assert(out@.map_values(|a: String| a@) =~= Seq::<Seq<char>>::empty());
    }
    while k < items.len()
        invariant
            k <= items@.len(),
            iv == items@.map_values(|x: Option<String>| opt_text(x)),
            out@.map_values(|a: String| a@) == strings_of(iv.take(k as int)),
        decreases items.len() - k,
    {
        proof {
            assert(iv.take(k + 1).drop_last() =~= iv.take(k as int));
            assert(iv.take(k + 1).last() == opt_text(items@[k as int]));
        }
        match &items[k] {
            Some(s) => {
                let ghost before = out@.map_values(|a: String| a@);
                out.push(s.clone());
                assert(out@.map_values(|a: String| a@) =~= before.push(s@));
            }
            None => {}
        }
        k += 1;
    }
    assert(iv.take(items.len() as int) =~= iv);
    out
}

/// What an avatar's `avatar.json` says of it.
pub struct AvatarInfo {
    pub name: String,
    pub description: Option<String>,
    pub authors: Vec<String>,
}

/// The description that an `avatar.json` gives, if it gives one as a string.
pub fn avatar_description(data: &[u8]) -> (r: Option<String>)
    ensures
        opt_text(r) == json_str_member(data@, description_key()),
{
    proof {
        reveal_strlit("description");
        assert("description"@ =~= description_key());
    }
    json_str_member_of(data, "description")
}

/// The name, description and authors of an avatar from its `avatar.json`;
/// `None` when it gives no name as a string.
pub fn avatar_info(data: &[u8]) -> (r: Option<AvatarInfo>)
    ensures
        r is Some <==> json_str_member(data@, name_key()) is Some,
        r matches Some(i) ==> json_str_member(data@, name_key()) == Some(i.name@)
            && opt_text(i.description) == json_str_member(data@, description_key())
            && i.authors@.map_values(|a: String| a@) == avatar_authors(data@),
{
    proof {
        reveal_strlit("name");
        reveal_strlit("authors");
        assert("name"@ =~= name_key());
        assert("authors"@ =~= authors_key());
    }
    let name = match json_str_member_of(data, "name") {
        Some(n) => n,
        None => return None,
    };
    let description = avatar_description(data);
    let authors = match json_array_member_of(data, "authors") {
        Some(items) => string_items(&items),
        None => {
            let none: Vec<String> = Vec::new();
            assert(none@.map_values(|a: String| a@) =~= Seq::<Seq<char>>::empty());
            none
        }
    };
    Some(AvatarInfo { name, description, authors })
}

/// The README generated from an `avatar.json` (see `readme_spec`); `None` when it
/// gives no name as a string.
pub fn readme_from_avatar(data: &[u8]) -> (r: Option<String>)
    ensures
        r is Some <==> json_str_member(data@, name_key()) is Some,
        r matches Some(t) ==> json_str_member(data@, name_key()) matches Some(name)
            && t@ == readme_spec(name, json_str_member(data@, description_key()), avatar_authors(data@), README_FOOTER@),
{
    let info = match avatar_info(data) {
        Some(i) => i,
        None => return None,
    };
    let t = match &info.description {
        Some(d) => readme_text(info.name.as_str(), Some(d.as_str()), &info.authors),
        None => readme_text(info.name.as_str(), None, &info.authors),
    };
    Some(t)
}

} // verus!
