//! The list of models an inference server offers.  The program fetches the
//! list and hands its JSON body over as a `Json` value.
use crate::text::{
    chars_of, eq_str, push_str, string_of,
};
use vstd::prelude::*;

verus! {

/// A JSON document.
pub enum Json {
    Null,
    Bool(bool),
    /// A number, as written.
    Number(String),
    Str(String),
    Array(Vec<Json>),
    /// An object's members; keys are distinct, as in a parsed document.
    Object(Vec<(String, Json)>),
}

/// The first member of `fields` named `key`, from index `i` on.
pub open spec fn member_from(fields: Seq<(String, Json)>, key: Seq<char>, i: int) -> Option<Json>
    decreases fields.len() - i,
{
    if i < 0 || i >= fields.len() {
        None
    } else if fields[i].0@ == key {
        Some(fields[i].1)
    } else {
        member_from(fields, key, i + 1)
    }
}

/// `v[key]` when `v` is an object that has the member.
pub open spec fn member(v: Json, key: Seq<char>) -> Option<Json> {
    match v {
        Json::Object(fields) => member_from(fields@, key, 0),
        _ => None,
    }
}

/// The `id` of a listed model, when it is a string.
pub open spec fn model_id(m: Json) -> Option<Seq<char>> {
    match member(m, "id"@) {
        Some(Json::Str(s)) => Some(s@),
        _ => None,
    }
}

/// The string ids, in order, of the entries of `items`.
pub open spec fn ids_of(items: Seq<Json>) -> Seq<Seq<char>>
    decreases items.len(),
{
    if items.len() == 0 {
        seq![]
    } else {
        ids_of(items.drop_last()) + match model_id(items.last()) {
            Some(id) => seq![id],
            None => seq![],
        }
    }
}

/// The model ids of a `/models` response: the string `id` of every entry
/// of its `data` array; none when there is no such array.
pub open spec fn spec_model_ids(body: Json) -> Seq<Seq<char>> {
    match member(body, "data"@) {
        Some(Json::Array(items)) => ids_of(items@),
        _ => seq![],
    }
}

fn find_member<'a>(fields: &'a Vec<(String, Json)>, key: &str) -> (r: Option<&'a Json>)
    ensures
        match member_from(fields@, key@, 0) {
            Some(v) => r matches Some(x) && *x == v,
            None => r is None,
        },
{
    let mut i: usize = 0;
    while i < fields.len()
        invariant
            i <= fields.len(),
            member_from(fields@, key@, 0) == member_from(fields@, key@, i as int),
        decreases fields.len() - i,
    {
        let k = chars_of(fields[i].0.as_str());
        if eq_str(&k, key) {
            return Some(&fields[i].1);
        }
        i += 1;
    }
    None
}

fn get_member<'a>(v: &'a Json, key: &str) -> (r: Option<&'a Json>)
    ensures
        match member(*v, key@) {
            Some(x) => r matches Some(y) && *y == x,
            None => r is None,
        },
{
    match v {
        Json::Object(fields) => find_member(fields, key),
        _ => None,
    }
}

/// The ids of the models listed in a `/models` response body.
pub fn model_ids(body: &Json) -> (r: Vec<String>)
    ensures
        r@.map_values(|s: String| s@) == spec_model_ids(*body),
{
    let mut out: Vec<String> = Vec::new();
    proof {
        reveal_strlit("data");
        reveal_strlit("id");
    }
    match get_member(body, "data") {
        Some(Json::Array(items)) => {
            let mut i: usize = 0;
            assert(items@.take(0) =~= Seq::<Json>::empty());
            while i < items.len()
                invariant
                    i <= items.len(),
                    out@.map_values(|s: String| s@) == ids_of(items@.take(i as int)),
                decreases items.len() - i,
            {
                assert(items@.take(i + 1).drop_last() =~= items@.take(i as int));
                let ghost before = out@.map_values(|s: String| s@);
                match get_member(&items[i], "id") {
                    Some(Json::Str(s)) => {
                        out.push(s.clone());
                        assert(out@.map_values(|s: String| s@) =~= before.push(s@));
                    },
                    _ => {},
                }
                i += 1;
            }
            assert(items@.take(i as int) =~= items@);
            out
        },
        _ => out,
    }
}

pub open spec fn is_slash() -> spec_fn(char) -> bool {
    |c: char| c == '/'
}

/// The models endpoint under a base URL: trailing slashes dropped, then
/// `/models`.
pub open spec fn spec_models_url(base: Seq<char>) -> Seq<char> {
    base.take(base.len() - crate::text::trail_len(base, is_slash())) + "/models"@
}

/// The URL of the models endpoint for a base URL.
pub fn models_url(base: &str) -> (r: String)
    ensures
        r@ == spec_models_url(base@),
{
    let b = chars_of(base);
    let mut end: usize = b.len();
    assert(base@.subrange(0, b.len() as int) =~= base@);
    while end > 0 && b[end - 1] == '/'
        invariant
            end <= b.len(),
            b@ == base@,
            crate::text::trail_len(base@, is_slash()) == (b.len() - end)
                + crate::text::trail_len(base@.subrange(0, end as int), is_slash()),
        decreases end,
    {
        proof {
            crate::text::lemma_trail_len_step(base@, 0, end as int, is_slash());
        }
        end -= 1;
    }
    proof {
        if end > 0 {
            crate::text::lemma_trail_len_step(base@, 0, end as int, is_slash());
        } else {
            assert(base@.subrange(0, 0) =~= Seq::<char>::empty());
        }
    }
    let mut out = crate::text::slice_chars(&b, 0, end);
    push_str(&mut out, "/models");
    string_of(&out)
}

} // verus!
