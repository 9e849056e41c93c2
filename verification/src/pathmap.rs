//! Bindings to the concurrent hash map that keys the cache by canonical path.
//!
//! The map itself comes from an outside crate; its contents are named by an
//! uninterpreted function, and the few operations the cache needs carry
//! contracts over that name. The cache holds the map exclusively and changes
//! it only through the `&mut` operations below, so the named contents track
//! the map's real state.

use vstd::prelude::*;

verus! {

#[verifier::external_type_specification]
#[verifier::external_body]
#[verifier::reject_recursive_types(K)]
#[verifier::reject_recursive_types(V)]
#[verifier::reject_recursive_types(S)]
pub struct ExConcurrentMap<K, V, S>(papaya::HashMap<K, V, S>);

/// The association from canonical path to entry slot that a concurrent map
/// holds.
pub uninterp spec fn path_map_entries(m: papaya::HashMap<String, usize>) -> Map<Seq<char>, usize>;

/// Relies on `papaya::HashMap::new`: a freshly built map holds no entries.
#[verifier::external_body]
pub(crate) fn path_map_new() -> (m: papaya::HashMap<String, usize>)
    ensures
        forall|p: Seq<char>| !path_map_entries(m).contains_key(p),
{
    papaya::HashMap::new()
}

/// Relies on `papaya::HashMap::pin` and `HashMapRef::get`: lookup returns the
/// value currently stored under the key, or nothing when the key is absent.
#[verifier::external_body]
pub(crate) fn path_map_get(m: &papaya::HashMap<String, usize>, key: &String) -> (r: Option<usize>)
    ensures
        match r {
            Some(v) => path_map_entries(*m).contains_pair(key@, v),
            None => !path_map_entries(*m).contains_key(key@),
        },
{
    m.pin().get(key).copied()
}

/// Relies on `papaya::HashMap::pin` and `HashMapRef::insert`: inserting stores
/// the value under the key, replacing any previous value there, and leaves
/// every other key unchanged.
#[verifier::external_body]
pub(crate) fn path_map_insert(m: &mut papaya::HashMap<String, usize>, key: String, value: usize)
    ensures
        path_map_entries(*final(m)) == path_map_entries(*old(m)).insert(key@, value),
{
    m.pin().insert(key, value);
}

} // verus!
