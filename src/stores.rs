use vstd::prelude::*;

use dashmap::DashMap;

verus! {

#[verifier::external_type_specification]
#[verifier::external_body]
#[verifier::reject_recursive_types(K)]
#[verifier::reject_recursive_types(V)]
#[verifier::reject_recursive_types(S)]
pub struct ExDashMap<K, V, S>(DashMap<K, V, S>);

/// A map from query ids to slots.
pub type SlotMap = DashMap<u64, usize>;

/// A term as a map key: its field id and its text.
pub type TermKey = (u32, String);

/// A map from terms to counts.
pub type CountMap = DashMap<TermKey, u64>;

/// What a map from query ids to slots holds.
pub uninterp spec fn slot_entries(m: SlotMap) -> Map<u64, usize>;

/// What a map from terms to counts holds.
pub uninterp spec fn count_entries(m: CountMap) -> Map<(u32, Seq<char>), u64>;

/// Relies on `DashMap::new`: a new map is empty.
#[verifier::external_body]
pub(crate) fn new_slot_map() -> (r: SlotMap)
    ensures
        slot_entries(r).dom() == Set::<u64>::empty(),
{
    DashMap::new()
}

/// Relies on `DashMap::get`: the value under the key, if there is one.
#[verifier::external_body]
pub(crate) fn slot_get(m: &SlotMap, key: u64) -> (r: Option<usize>)
    ensures
        r == (if slot_entries(*m).contains_key(key) {
            Some(slot_entries(*m)[key])
        } else {
            None
        }),
{
    m.get(&key).map(|entry| *entry.value())
}

/// Relies on `DashMap::insert`: the key maps to the value afterwards, and
/// every other key keeps its value.
#[verifier::external_body]
pub(crate) fn slot_insert(m: &mut SlotMap, key: u64, value: usize)
    ensures
        slot_entries(*final(m)) == slot_entries(*old(m)).insert(key, value),
{
    m.insert(key, value);
}

/// Relies on `DashMap::new`: a new map is empty.
#[verifier::external_body]
pub(crate) fn new_count_map() -> (r: CountMap)
    ensures
        count_entries(r).dom().len() == 0 && count_entries(r).dom().finite(),
{
    DashMap::new()
}

/// Relies on `DashMap::get`: the count under the key, if there is one.
#[verifier::external_body]
pub(crate) fn count_get(m: &CountMap, key: &TermKey) -> (r: Option<u64>)
    ensures
        r == (if count_entries(*m).contains_key(key@) {
            Some(count_entries(*m)[key@])
        } else {
            None
        }),
{
    m.get(key).map(|entry| *entry.value())
}

/// Relies on `DashMap::insert`: the key maps to the count afterwards, and
/// every other key keeps its count.
#[verifier::external_body]
pub(crate) fn count_insert(m: &mut CountMap, key: TermKey, value: u64)
    ensures
        count_entries(*final(m)) == count_entries(*old(m)).insert(key@, value),
{
    m.insert(key, value);
}

} // verus!
