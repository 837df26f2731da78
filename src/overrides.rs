//! The override map of forced exports, read from its JSON text.
use vstd::prelude::*;
use vstd::string::*;
use crate::plugin::{has_key, keys_distinct, lookup, SharedEntryData};

verus! {

/// A character with the Unicode White_Space property.
pub open spec fn is_white_space(c: char) -> bool {
    let u = c as u32;
    (0x9 <= u <= 0xD) || u == 0x20 || u == 0x85 || u == 0xA0 || u == 0x1680 || (0x2000 <= u <= 0x200A) || u == 0x2028
        || u == 0x2029 || u == 0x202F || u == 0x205F || u == 0x3000
}

/// The text holds nothing but white space.
pub open spec fn blank_of(s: Seq<char>) -> bool {
    forall|i: int| 0 <= i < s.len() ==> is_white_space(#[trigger] s[i])
}

/// Whether `s` holds nothing but white space.
pub fn is_blank(s: &str) -> (r: bool)
    ensures
        r == blank_of(s@),
{
    let n = s.unicode_len();
    let mut i: usize = 0;
    while i < n
        invariant
            0 <= i <= n,
            n == s@.len(),
            forall|j: int| 0 <= j < i ==> is_white_space(#[trigger] s@[j]),
        decreases n - i,
    {
        let c = s.get_char(i);
        let u = c as u32;
        if !((0x9 <= u && u <= 0xD) || u == 0x20 || u == 0x85 || u == 0xA0 || u == 0x1680 || (0x2000 <= u && u <= 0x200A)
            || u == 0x2028 || u == 0x2029 || u == 0x202F || u == 0x205F || u == 0x3000) {
            assert(!is_white_space(s@[i as int]));
            return false;
        }
        i = i + 1;
    }
    true
}

/// The map from share key to export names that a JSON text denotes, where it is an
/// object of string lists.
pub uninterp spec fn override_map_of(s: Seq<char>) -> Option<Map<Seq<char>, Set<Seq<char>>>>;

/// `v` holds exactly the keys of `m`, each once, with the names `m` gives it.
pub open spec fn holds_map(v: Seq<SharedEntryData>, m: Map<Seq<char>, Set<Seq<char>>>) -> bool {
    &&& keys_distinct(v)
    &&& forall|k: Seq<char>| #[trigger] has_key(v, k) == m.dom().contains(k)
    &&& forall|k: Seq<char>| m.dom().contains(k) ==> #[trigger] lookup(v, k) == m[k]
}

/// Relies on `serde_json::from_str` into a `HashMap<String, Vec<String>>`: it fails
/// exactly where the text is not such an object, and the map holds each key once with
/// its list. The entries come in the map's own order, which the contract leaves open.
#[verifier::external_body]
fn parse_override_map(raw: &str) -> (r: Option<Vec<SharedEntryData>>)
    ensures
        r is None <==> override_map_of(raw@) is None,
        r is Some ==> holds_map(r->Some_0@, override_map_of(raw@)->Some_0),
{
    serde_json::from_str::<std::collections::HashMap<String, Vec<String>>>(raw).ok().map(
        |m| m.into_iter().map(|(k, v)| SharedEntryData { share_key: k, used_exports: v }).collect(),
    )
}

/// The override map given by `raw`: empty where there is no text, where it is blank,
/// or where it does not parse; otherwise exactly the map it denotes.
pub fn load_custom_referenced_exports(raw: Option<String>) -> (r: Vec<SharedEntryData>)
    ensures
        keys_distinct(r@),
        raw is None ==> r.len() == 0,
        raw is Some && blank_of(raw->Some_0@) ==> r.len() == 0,
        raw is Some && !blank_of(raw->Some_0@) && override_map_of(raw->Some_0@) is None ==> r.len() == 0,
        raw is Some && !blank_of(raw->Some_0@) && override_map_of(raw->Some_0@) is Some ==> holds_map(
            r@,
            override_map_of(raw->Some_0@)->Some_0,
        ),
{
    match raw {
        Some(s) => {
            if is_blank(s.as_str()) {
                Vec::new()
            } else {
                match parse_override_map(s.as_str()) {
                    Some(v) => v,
                    None => Vec::new(),
                }
            }
        },
        None => Vec::new(),
    }
}

} // verus!
