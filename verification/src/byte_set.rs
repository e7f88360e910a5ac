//! Hash sets of bytes and hash maps from a byte to such a set.
//!
//! The collections are those of the standard library with the hasher of the
//! `ahash` crate, as `egui` hands it on. Their contents are read through the
//! views `Set<u8>` and `Map<u8, ByteSet>`. What each operation does to the
//! contents is stated here and taken on trust: the verifier does not look
//! into the hasher.

use egui::ahash::{HashMap, HashMapExt, HashSet, HashSetExt};
use vstd::prelude::*;

verus! {

/// The state from which `ahash` builds its hashers. Nothing is known of it.
#[verifier::external_type_specification]
#[verifier::external_body]
pub struct ExHasherState(egui::ahash::RandomState);

/// A hash set of bytes.
pub type ByteSet = HashSet<u8>;

/// A hash map from a byte to a set of bytes.
pub type ByteTable = HashMap<u8, ByteSet>;

/// The bytes that a table records under a difference: those of its entry, or
/// none where it has no entry.
pub open spec fn entry_of(table: Map<u8, ByteSet>, difference: u8) -> Set<u8> {
    if table.contains_key(difference) {
        table[difference]@
    } else {
        Set::empty()
    }
}

/// `HashSetExt::new` of `ahash`: a set with the default hasher state that
/// holds nothing.
#[verifier::external_body]
pub(crate) fn byte_set_new() -> (set: ByteSet)
    ensures
        set@ == Set::<u8>::empty(),
{
    HashSet::new()
}

/// `HashSet::insert`: afterwards the set holds the byte besides what it held
/// before.
#[verifier::external_body]
pub(crate) fn byte_set_insert(set: &mut ByteSet, byte: u8)
    ensures
        final(set)@ == old(set)@.insert(byte),
{
    set.insert(byte);
}

/// `HashSet::contains`: whether the set holds the byte.
#[verifier::external_body]
pub(crate) fn byte_set_contains(set: &ByteSet, byte: u8) -> (found: bool)
    ensures
        found == set@.contains(byte),
{
    set.contains(&byte)
}

/// `HashSet::len`: the number of bytes that the set holds.
#[verifier::external_body]
pub(crate) fn byte_set_len(set: &ByteSet) -> (len: usize)
    ensures
        len == set@.len(),
{
    set.len()
}

/// `HashSet::iter`: every byte of the set once, in an order that the hasher
/// decides and that is left open here.
#[verifier::external_body]
pub(crate) fn byte_set_items(set: &ByteSet) -> (items: Vec<u8>)
    ensures
        items@.no_duplicates(),
        forall|byte: u8| items@.contains(byte) <==> set@.contains(byte),
{
    set.iter().copied().collect()
}

/// `HashMapExt::new` of `ahash`: a map with the default hasher state that
/// holds nothing.
#[verifier::external_body]
pub(crate) fn table_new() -> (table: ByteTable)
    ensures
        table@.dom() == Set::<u8>::empty(),
{
    HashMap::new()
}

/// `HashMap::get`: the set stored under the key, if there is one.
#[verifier::external_body]
pub(crate) fn table_get(table: &ByteTable, key: u8) -> (found: Option<&ByteSet>)
    ensures
        match found {
            Some(set) => table@.contains_key(key) && *set == table@[key],
            None => !table@.contains_key(key),
        },
{
    table.get(&key)
}

/// `HashMap::remove`: takes the set stored under the key out of the map and
/// returns it, if there is one; the other entries stay.
#[verifier::external_body]
pub(crate) fn table_remove(table: &mut ByteTable, key: u8) -> (removed: Option<ByteSet>)
    ensures
        final(table)@ == old(table)@.remove(key),
        match removed {
            Some(set) => old(table)@.contains_key(key) && set == old(table)@[key],
            None => !old(table)@.contains_key(key),
        },
{
    table.remove(&key)
}

/// `HashMap::insert`: afterwards the key maps to the given set; the other
/// entries stay.
#[verifier::external_body]
pub(crate) fn table_insert(table: &mut ByteTable, key: u8, set: ByteSet)
    ensures
        final(table)@ == old(table)@.insert(key, set),
{
    table.insert(key, set);
}

} // verus!
