//! Free-form component metadata: a JSON object whose values the library
//! never interprets, only moves.

use vstd::prelude::*;

verus! {

#[verifier::external_type_specification]
#[verifier::external_body]
pub struct ExValue(serde_json::Value);

#[verifier::external_type_specification]
#[verifier::external_body]
#[verifier::reject_recursive_types(K)]
#[verifier::reject_recursive_types(V)]
pub struct ExJsonMap<K, V>(serde_json::Map<K, V>);

/// Metadata of a component: keys are annotation names, values are opaque JSON.
pub type Metadata = serde_json::Map<String, serde_json::Value>;

/// The mathematical content of a metadata object.
pub type MetaModel = vstd::map::Map<Seq<char>, serde_json::Value>;

/// The key/value pairs a `serde_json::Map<String, Value>` holds.
pub uninterp spec fn meta_view(m: serde_json::Map<String, serde_json::Value>) -> vstd::map::Map<Seq<char>, serde_json::Value>;

/// The result of combining curated metadata `base` with freshly offered
/// metadata `patch`: every key of `base` keeps its value, keys that only
/// `patch` has are added.
pub open spec fn combined(base: MetaModel, patch: MetaModel) -> MetaModel {
    patch.union_prefer_right(base)
}

/// Relies on serde_json::Map::contains_key: true exactly when the key is present.
#[verifier::external_body]
fn meta_contains(m: &Metadata, key: &String) -> (r: bool)
    ensures
        r == meta_view(*m).contains_key(key@),
{
    m.contains_key(key.as_str())
}

/// Relies on serde_json::Map::insert: the key is bound to the value, replacing
/// any earlier binding, and no other entry changes.
#[verifier::external_body]
fn meta_insert(m: &mut Metadata, key: String, value: serde_json::Value)
    ensures
        meta_view(*final(m)) == meta_view(*old(m)).insert(key@, value),
{
    m.insert(key, value);
}

/// Relies on serde_json::Map::remove: the value bound to the key, if any, is
/// taken out and no other entry changes.
#[verifier::external_body]
pub(crate) fn meta_remove(m: &mut Metadata, key: &str) -> (r: Option<serde_json::Value>)
    ensures
        r == (if meta_view(*old(m)).contains_key(key@) {
            Some(meta_view(*old(m))[key@])
        } else {
            None
        }),
        meta_view(*final(m)) == meta_view(*old(m)).remove(key@),
{
    m.remove(key)
}

/// Relies on serde_json::Map's `Clone`: the copy holds the same entries.
#[verifier::external_body]
pub(crate) fn meta_clone(m: &Metadata) -> (r: Metadata)
    ensures
        meta_view(r) == meta_view(*m),
{
    m.clone()
}

/// Relies on serde_json::Map's `into_iter`: each entry comes out exactly once.
#[verifier::external_body]
pub(crate) fn meta_entries(m: Metadata) -> (r: Vec<(String, serde_json::Value)>)
    ensures
        forall|i: int, j: int| 0 <= i < j < r@.len() ==> r@[i].0@ != r@[j].0@,
        forall|i: int|
            0 <= i < r@.len() ==> meta_view(m).contains_key(#[trigger] r@[i].0@) && meta_view(m)[r@[i].0@]
                == r@[i].1,
        forall|k: Seq<char>|
            meta_view(m).contains_key(k) ==> exists|i: int| 0 <= i < r@.len() && #[trigger] r@[i].0@ == k,
{
    m.into_iter().collect()
}

/// Combines curated metadata `base` with freshly offered metadata `patch`:
/// keys already in `base` are never overwritten, keys only in `patch` are added.
pub fn combine_meta(base: Metadata, patch: Metadata) -> (r: Metadata)
    ensures
        meta_view(r) == combined(meta_view(base), meta_view(patch)),
{
    let ghost b0 = meta_view(base);
    let ghost p0 = meta_view(patch);
    let mut entries = meta_entries(patch);
    let ghost e0 = entries@;
    let mut acc = base;
    while entries.len() > 0
        invariant
            entries@ == e0.subrange(0, entries@.len() as int),
            entries@.len() <= e0.len(),
            forall|a: int, c: int| 0 <= a < c < e0.len() ==> e0[a].0@ != e0[c].0@,
            forall|a: int|
                0 <= a < e0.len() ==> p0.contains_key(#[trigger] e0[a].0@) && p0[e0[a].0@] == e0[a].1,
            forall|k: Seq<char>|
                p0.contains_key(k) ==> exists|a: int| 0 <= a < e0.len() && #[trigger] e0[a].0@ == k,
            forall|k: Seq<char>|
                #[trigger] meta_view(acc).contains_key(k) <==> (b0.contains_key(k) || exists|a: int|
                    entries@.len() <= a < e0.len() && #[trigger] e0[a].0@ == k),
            forall|k: Seq<char>|
                #[trigger] meta_view(acc).contains_key(k) ==> meta_view(acc)[k] == (if b0.contains_key(k) {
                    b0[k]
                } else {
                    p0[k]
                }),
        decreases entries@.len(),
    {
        let ghost j = entries@.len() - 1;
        let (key, value) = entries.pop().unwrap();
        assert(e0[j].0@ == key@ && e0[j].1 == value);
        if !meta_contains(&acc, &key) {
            meta_insert(&mut acc, key, value);
        }
    }
    assert(meta_view(acc) =~= combined(b0, p0));
    acc
}

} // verus!
