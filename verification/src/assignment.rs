//! Trusted interface to `indexmap::IndexMap`, which stores an assignment:
//! a mapping from variable name to boolean value that remembers insertion
//! order. The contracts here state what the crate's own documentation and
//! source promise of `new`, `insert` and `get`; nothing else of the type is
//! assumed.

use vstd::prelude::*;

verus! {

#[verifier::external_type_specification]
#[verifier::external_body]
#[verifier::reject_recursive_types(K)]
#[verifier::reject_recursive_types(V)]
#[verifier::reject_recursive_types(S)]
pub struct ExIndexMap<K, V, S>(indexmap::IndexMap<K, V, S>);

/// The mapping an assignment holds: each variable name (as its character
/// sequence) to the boolean value stored for it.
pub uninterp spec fn imap_map(m: indexmap::IndexMap<String, bool>) -> Map<Seq<char>, bool>;

/// The keys of an assignment, in insertion order.
pub uninterp spec fn imap_keys(m: indexmap::IndexMap<String, bool>) -> Seq<Seq<char>>;

/// The model of an assignment that binds nothing.
pub open spec fn empty_assignment_map() -> Map<Seq<char>, bool> {
    Map::empty()
}

/// Relies on indexmap::IndexMap::new: creates an empty map.
#[verifier::external_body]
pub(crate) fn imap_new() -> (r: indexmap::IndexMap<String, bool>)
    ensures
        imap_map(r) == empty_assignment_map(),
        imap_keys(r) == Seq::<Seq<char>>::empty(),
{
    indexmap::IndexMap::new()
}

/// Relies on indexmap::IndexMap::insert: an equivalent key keeps its place
/// in the order and gets the new value, with the older value returned; a
/// fresh key is appended last in order and `None` is returned. Two `String`
/// keys are equivalent exactly when they hold the same characters.
#[verifier::external_body]
pub(crate) fn imap_insert(
    m: &mut indexmap::IndexMap<String, bool>,
    key: String,
    value: bool,
) -> (r: Option<bool>)
    ensures
        imap_map(*final(m)) == imap_map(*old(m)).insert(key@, value),
        imap_keys(*final(m)) == if imap_map(*old(m)).dom().contains(key@) {
            imap_keys(*old(m))
        } else {
            imap_keys(*old(m)).push(key@)
        },
        r == if imap_map(*old(m)).dom().contains(key@) {
            Some(imap_map(*old(m))[key@])
        } else {
            None::<bool>
        },
{
    m.insert(key, value)
}

/// Relies on indexmap::IndexMap::get: returns the value stored for the key
/// if an equivalent key is present, else `None`.
#[verifier::external_body]
pub(crate) fn imap_get(m: &indexmap::IndexMap<String, bool>, key: &String) -> (r: Option<bool>)
    ensures
        r == if imap_map(*m).dom().contains(key@) {
            Some(imap_map(*m)[key@])
        } else {
            None::<bool>
        },
{
    m.get(key).copied()
}

} // verus!

