//! Hash maps from keys to positions, kept by the `dashmap` crate.
//!
//! What is stated here of `DashMap` is not proved. No entry of a map is borrowed outside one call,
//! so the locks inside a map are free whenever a call is made.
use vstd::prelude::*;

verus! {

/// `dashmap::DashMap`, of which nothing is known but what the functions below state.
#[verifier::external_type_specification]
#[verifier::external_body]
#[verifier::reject_recursive_types(K)]
#[verifier::reject_recursive_types(V)]
#[verifier::reject_recursive_types(S)]
pub struct ExDashMap<K, V, S>(dashmap::DashMap<K, V, S>);

/// The positions that a map keyed by texts holds.
pub uninterp spec fn text_slots(m: dashmap::DashMap<String, usize>) -> Map<Seq<char>, usize>;

/// The positions that a map keyed by pairs of texts holds.
pub uninterp spec fn pair_slots(m: dashmap::DashMap<(String, String), usize>) -> Map<
    (Seq<char>, Seq<char>),
    usize,
>;

/// `DashMap::new`, keyed by texts: a map without entries.
#[verifier::external_body]
pub(crate) fn new_text_slots() -> (m: dashmap::DashMap<String, usize>)
    ensures
        text_slots(m).dom() =~= Set::empty(),
{
    dashmap::DashMap::new()
}

/// `DashMap::get`, keyed by texts: the position stored under `key`, if there is one.
#[verifier::external_body]
pub(crate) fn get_text_slot(m: &dashmap::DashMap<String, usize>, key: &String) -> (r: Option<usize>)
    ensures
        r == text_slots(*m).get(key@),
{
    m.get(key).map(|entry| *entry.value())
}

/// `DashMap::insert`, keyed by texts: stores `slot` under `key`, in place of what was there.
#[verifier::external_body]
pub(crate) fn put_text_slot(m: &mut dashmap::DashMap<String, usize>, key: String, slot: usize)
    ensures
        text_slots(*final(m)) == text_slots(*old(m)).insert(key@, slot),
{
    m.insert(key, slot);
}

/// `DashMap::remove`, keyed by texts: takes the entry of `key` out, where there is one.
#[verifier::external_body]
pub(crate) fn drop_text_slot(m: &mut dashmap::DashMap<String, usize>, key: &String)
    ensures
        text_slots(*final(m)) == text_slots(*old(m)).remove(key@),
{
    m.remove(key);
}

/// `DashMap::new`, keyed by pairs of texts: a map without entries.
#[verifier::external_body]
pub(crate) fn new_pair_slots() -> (m: dashmap::DashMap<(String, String), usize>)
    ensures
        pair_slots(m).dom() =~= Set::empty(),
{
    dashmap::DashMap::new()
}

/// `DashMap::get`, keyed by pairs of texts: the position stored under `key`, if there is one.
#[verifier::external_body]
pub(crate) fn get_pair_slot(
    m: &dashmap::DashMap<(String, String), usize>,
    key: &(String, String),
) -> (r: Option<usize>)
    ensures
        r == pair_slots(*m).get((key.0@, key.1@)),
{
    m.get(key).map(|entry| *entry.value())
}

/// `DashMap::insert`, keyed by pairs of texts: stores `slot` under `key`, in place of what was
/// there.
#[verifier::external_body]
pub(crate) fn put_pair_slot(
    m: &mut dashmap::DashMap<(String, String), usize>,
    key: (String, String),
    slot: usize,
)
    ensures
        pair_slots(*final(m)) == pair_slots(*old(m)).insert((key.0@, key.1@), slot),
{
    m.insert(key, slot);
}

/// `DashMap::remove`, keyed by pairs of texts: takes the entry of `key` out, where there is one.
#[verifier::external_body]
pub(crate) fn drop_pair_slot(
    m: &mut dashmap::DashMap<(String, String), usize>,
    key: &(String, String),
)
    ensures
        pair_slots(*final(m)) == pair_slots(*old(m)).remove((key.0@, key.1@)),
{
    m.remove(key);
}

} // verus!
