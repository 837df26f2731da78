//! The build manifest as a JSON value, and the patch that records, for each shared
//! entry, the exports used under its name.
use vstd::prelude::*;
use crate::names::copy_name;
use crate::state::FlatUsedExports;

verus! {

/// A JSON value. Numbers keep their text.
pub enum JsonValue {
    Null,
    Bool(bool),
    Number(String),
    Str(String),
    Array(Vec<JsonValue>),
    Object(Vec<JsonMember>),
}

/// One member of a JSON object.
pub struct JsonMember {
    pub key: String,
    pub value: JsonValue,
}

/// The first member of `ms` with key `k` is at `i`.
pub open spec fn first_at(ms: Seq<JsonMember>, k: Seq<char>, i: int) -> bool {
    &&& 0 <= i < ms.len()
    &&& ms[i].key@ == k
    &&& forall|j: int| 0 <= j < i ==> (#[trigger] ms[j]).key@ != k
}

/// `v` is an array of strings holding the names of `names`, in order.
pub open spec fn is_string_array(v: JsonValue, names: Seq<String>) -> bool {
    &&& v is Array
    &&& v->Array_0.len() == names.len()
    &&& forall|i: int| 0 <= i < names.len() ==> (#[trigger] v->Array_0@[i]) is Str && v->Array_0@[i]->Str_0@ == names[i]@
}

/// `new` is `old` with the member `k` set to the string array of `names`: replaced in
/// place where `old` has one, appended where it has none.
pub open spec fn member_set(old: Seq<JsonMember>, new: Seq<JsonMember>, k: Seq<char>, names: Seq<String>) -> bool {
    ||| exists|i: int| #[trigger] first_at(old, k, i) && new.len() == old.len() && new[i].key@ == k && is_string_array(
        new[i].value,
        names,
    ) && forall|j: int| 0 <= j < old.len() && j != i ==> #[trigger] new[j] == old[j]
    ||| (forall|j: int| 0 <= j < old.len() ==> (#[trigger] old[j]).key@ != k) && new.len() == old.len() + 1
        && new[old.len() as int].key@ == k && is_string_array(new[old.len() as int].value, names) && forall|j: int|
        0 <= j < old.len() ==> #[trigger] new[j] == old[j]
}

/// The shared entry `item` is an object whose first `name` member is the string `n`.
pub open spec fn entry_named(item: JsonValue, n: Seq<char>) -> bool {
    &&& item is Object
    &&& exists|i: int| #[trigger] first_at(item->Object_0@, "name"@, i) && item->Object_0@[i].value is Str
        && item->Object_0@[i].value->Str_0@ == n
}

/// The first entry of `flat` for `n` is at `j`.
pub open spec fn flat_first(flat: Seq<FlatUsedExports>, n: Seq<char>, j: int) -> bool {
    &&& 0 <= j < flat.len()
    &&& flat[j].share_key@ == n
    &&& forall|i: int| 0 <= i < j ==> (#[trigger] flat[i]).share_key@ != n
}

/// `new` is the shared entry `old` patched from `flat`: where `old` is named after a
/// share key of `flat`, its `usedExports` member is set to that key's exports;
/// otherwise it is unchanged.
pub open spec fn entry_patched(old: JsonValue, new: JsonValue, flat: Seq<FlatUsedExports>) -> bool {
    if exists|n: Seq<char>, j: int| entry_named(old, n) && #[trigger] flat_first(flat, n, j) {
        exists|n: Seq<char>, j: int|
            entry_named(old, n) && #[trigger] flat_first(flat, n, j) && new is Object && member_set(
                old->Object_0@,
                new->Object_0@,
                "usedExports"@,
                flat[j].exports@,
            )
    } else {
        new == old
    }
}

/// The members of `ms` up to the first with key `k`: its position, or none.
pub fn find_member(ms: &Vec<JsonMember>, k: &String) -> (r: Option<usize>)
    ensures
        r matches Some(i) ==> first_at(ms@, k@, i as int),
        r is None ==> forall|j: int| 0 <= j < ms.len() ==> (#[trigger] ms@[j]).key@ != k@,
{
    let mut i: usize = 0;
    while i < ms.len()
        invariant
            0 <= i <= ms.len(),
            forall|j: int| 0 <= j < i ==> (#[trigger] ms@[j]).key@ != k@,
        decreases ms.len() - i,
    {
        if ms[i].key == *k {
            return Some(i);
        }
        i = i + 1;
    }
    None
}

/// The JSON array of the strings of `names`.
pub fn string_array(names: &Vec<String>) -> (r: JsonValue)
    ensures
        is_string_array(r, names@),
{
    let mut items: Vec<JsonValue> = Vec::new();
    let mut i: usize = 0;
    while i < names.len()
        invariant
            0 <= i <= names.len(),
            items.len() == i,
            forall|j: int| 0 <= j < i ==> (#[trigger] items@[j]) is Str && items@[j]->Str_0@ == names@[j]@,
        decreases names.len() - i,
    {
        items.push(JsonValue::Str(copy_name(&names[i])));
        i = i + 1;
    }
    JsonValue::Array(items)
}

/// Sets the member `k` to the string array of `names`.
pub fn set_member(ms: &mut Vec<JsonMember>, k: &String, names: &Vec<String>)
    ensures
        member_set(old(ms)@, final(ms)@, k@, names@),
{
    let value = string_array(names);
    match find_member(ms, k) {
        Some(i) => {
            ms.set(i, JsonMember { key: copy_name(k), value });
            assert(first_at(old(ms)@, k@, i as int));
        },
        None => {
            ms.push(JsonMember { key: copy_name(k), value });
        },
    }
}

/// The position of the first entry of `flat` for `n`.
pub fn find_flat(flat: &Vec<FlatUsedExports>, n: &String) -> (r: Option<usize>)
    ensures
        r matches Some(j) ==> flat_first(flat@, n@, j as int),
        r is None ==> forall|j: int| 0 <= j < flat.len() ==> (#[trigger] flat@[j]).share_key@ != n@,
{
    let mut i: usize = 0;
    while i < flat.len()
        invariant
            0 <= i <= flat.len(),
            forall|j: int| 0 <= j < i ==> (#[trigger] flat@[j]).share_key@ != n@,
        decreases flat.len() - i,
    {
        if flat[i].share_key == *n {
            return Some(i);
        }
        i = i + 1;
    }
    None
}

/// Patches one entry of the manifest's `shared` array.
pub fn patch_entry(item: JsonValue, flat: &Vec<FlatUsedExports>) -> (r: JsonValue)
    ensures
        entry_patched(item, r, flat@),
{
    let ghost old_item = item;
    match item {
        JsonValue::Object(mut ms) => {
            let name_key = String::from_str("name");
            let found = find_member(&ms, &name_key);
            let name: Option<String> = match found {
                Some(i) => match &ms[i].value {
                    JsonValue::Str(s) => Some(copy_name(s)),
                    _ => None,
                },
                None => None,
            };
            proof {
                assert(forall|n: Seq<char>| #[trigger] entry_named(old_item, n) ==> (name is Some && name->Some_0@ == n)) by {
                    assert forall|n: Seq<char>| #[trigger] entry_named(old_item, n) implies (name is Some && name->Some_0@ == n) by {
                        let i = choose|i: int| #[trigger] first_at(ms@, "name"@, i) && ms@[i].value is Str && ms@[i].value->Str_0@ == n;
                        let fi = found->Some_0 as int;
                        if i < fi {
                        } else if fi < i {
                        }
                    }
                }
            }
            match name {
                Some(n) => {
                    proof {
                        assert(entry_named(old_item, n@));
                    }
                    match find_flat(flat, &n) {
                        Some(j) => {
                            let used_key = String::from_str("usedExports");
                            set_member(&mut ms, &used_key, &flat[j].exports);
                            let r = JsonValue::Object(ms);
                            assert(flat_first(flat@, n@, j as int));
                            r
                        },
                        None => {
                            proof {
                                assert forall|n2: Seq<char>, j: int| entry_named(old_item, n2) implies !#[trigger] flat_first(flat@, n2, j) by {}
                            }
                            JsonValue::Object(ms)
                        },
                    }
                },
                None => JsonValue::Object(ms),
            }
        },
        other => other,
    }
}

/// `new` is the manifest `old` patched from `flat`: where `old` is an object whose first
/// `shared` member is an array, each entry of that array is patched; otherwise the
/// manifest is unchanged.
pub open spec fn manifest_patched(old: JsonValue, new: JsonValue, flat: Seq<FlatUsedExports>) -> bool {
    if old is Object && exists|s: int| #[trigger] first_at(old->Object_0@, "shared"@, s) && old->Object_0@[s].value is Array {
        exists|s: int|
            #[trigger] first_at(old->Object_0@, "shared"@, s) && old->Object_0@[s].value is Array && new is Object && {
                let oms = old->Object_0@;
                let nms = new->Object_0@;
                let items = oms[s].value->Array_0@;
                &&& nms.len() == oms.len()
                &&& forall|j: int| 0 <= j < oms.len() && j != s ==> #[trigger] nms[j] == oms[j]
                &&& nms[s].key == oms[s].key
                &&& nms[s].value is Array
                &&& nms[s].value->Array_0.len() == items.len()
                &&& forall|i: int| 0 <= i < items.len() ==> entry_patched(items[i], #[trigger] nms[s].value->Array_0@[i], flat)
            }
    } else {
        new == old
    }
}

/// Records under each entry of the manifest's `shared` array whose `name` is a share
/// key of `flat` that key's used exports, as the entry's `usedExports` member.
pub fn patch_manifest(json: JsonValue, flat: &Vec<FlatUsedExports>) -> (r: JsonValue)
    ensures
        manifest_patched(json, r, flat@),
{
    let ghost old_json = json;
    match json {
        JsonValue::Object(mut ms) => {
            let shared_key = String::from_str("shared");
            match find_member(&ms, &shared_key) {
                Some(s) => {
                    let is_array = match &ms[s].value {
                        JsonValue::Array(_) => true,
                        _ => false,
                    };
                    if !is_array {
                        proof {
                            assert forall|s2: int| #[trigger] first_at(ms@, "shared"@, s2) implies !(ms@[s2].value is Array) by {
                                if s2 < s as int {
                                } else if (s as int) < s2 {
                                }
                            }
                        }
                        return JsonValue::Object(ms);
                    }
                    let ghost oms = ms@;
                    let member = ms.remove(s);
                    let key = member.key;
                    let mut items = match member.value {
                        JsonValue::Array(items) => items,
                        _ => Vec::new(),
                    };
                    let ghost old_items = items@;
                    let mut out: Vec<JsonValue> = Vec::new();
                    while items.len() > 0
                        invariant
                            out.len() + items.len() == old_items.len(),
                            items@ == old_items.subrange(out.len() as int, old_items.len() as int),
                            forall|i: int| 0 <= i < out.len() ==> entry_patched(old_items[i], #[trigger] out@[i], flat@),
                        decreases items.len(),
                    {
                        let item = items.remove(0);
                        let ghost at = out.len() as int;
                        assert(item == old_items[at]);
                        let patched = patch_entry(item, flat);
                        out.push(patched);
                        assert(items@ =~= old_items.subrange(out.len() as int, old_items.len() as int));
                    }
                    ms.insert(s, JsonMember { key, value: JsonValue::Array(out) });
                    proof {
                        assert(oms[s as int].value is Array);
                        assert(first_at(oms, "shared"@, s as int));
                        assert forall|j: int| 0 <= j < oms.len() && j != s implies #[trigger] ms@[j] == oms[j] by {
                            if j < s {
                            } else {
                            }
                        }
                        assert(old_items == oms[s as int].value->Array_0@);
                    }
                    JsonValue::Object(ms)
                },
                None => JsonValue::Object(ms),
            }
        },
        other => other,
    }
}

} // verus!
