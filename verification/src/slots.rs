//! Slot map storage of the library's nodes, behind trusted wrappers of `slotmap`.
//!
//! Keys are carried as the 64-bit integers of `KeyData::as_ffi`; the contents of a slot map
//! are named as a map from those integers to the stored values.
use vstd::prelude::*;
use slotmap::{DefaultKey, Key, KeyData, SlotMap};
use crate::file::File;
use crate::folder::Folder;
use crate::panes::{Split, SplitKey};

verus! {

/// A `slotmap::SlotMap` with default keys, held opaque: what it stores is read through the
/// named contents below and changed only through the wrappers that follow.
#[verifier::external_body]
#[verifier::reject_recursive_types(V)]
pub struct Store<V> {
    map: SlotMap<DefaultKey, V>,
}

/// Whether the version half of a key's integer is odd, as it is in every key that a slot map
/// gives out for a stored value.
pub open spec fn odd_version(k: u64) -> bool {
    (k >> 32u64) % 2 == 1
}

/// Upper bound (exclusive) on the number of values a slot map holds before an insert panics.
pub open spec fn slot_limit() -> nat {
    (u32::MAX - 1) as nat
}

/// What a store of folders holds, by the `as_ffi` integer of each key.
pub uninterp spec fn folder_slots(m: Store<Folder>) -> Map<u64, Folder>;

/// `SlotMap::new`: an empty slot map.
#[verifier::external_body]
pub(crate) fn folders_new() -> (res: Store<Folder>)
    ensures
        folder_slots(res).dom() == Set::<u64>::empty(),
{
    Store { map: SlotMap::new() }
}

/// `SlotMap::insert`: stores the value under a key that the map did not hold, and returns it.
/// The map panics only once it holds `u32::MAX - 1` values, which `requires` leaves out.
#[verifier::external_body]
pub(crate) fn folders_insert(m: &mut Store<Folder>, v: Folder) -> (k: u64)
    requires
        folder_slots(*old(m)).dom().finite(),
        folder_slots(*old(m)).len() < slot_limit(),
    ensures
        !folder_slots(*old(m)).dom().contains(k),
        odd_version(k),
        folder_slots(*final(m)) == folder_slots(*old(m)).insert(k, v),
{
    m.map.insert(v).data().as_ffi()
}

/// `Index for SlotMap`: the value stored under a key that the map holds.
#[verifier::external_body]
pub(crate) fn folders_get(m: &Store<Folder>, k: u64) -> (v: &Folder)
    requires
        folder_slots(*m).dom().contains(k),
    ensures
        *v == folder_slots(*m)[k],
{
    &m.map[DefaultKey::from(KeyData::from_ffi(k))]
}

/// `IndexMut for SlotMap`: a mutable reference to the value stored under a key that the map
/// holds; what is written through it is what the map holds there afterwards.
#[verifier::external_body]
pub(crate) fn folders_get_mut(m: &mut Store<Folder>, k: u64) -> (v: &mut Folder)
    requires
        folder_slots(*old(m)).dom().contains(k),
    ensures
        *v == folder_slots(*old(m))[k],
        folder_slots(*final(m)) == folder_slots(*old(m)).insert(k, *final(v)),
{
    &mut m.map[DefaultKey::from(KeyData::from_ffi(k))]
}

/// What a store of files holds, by the `as_ffi` integer of each key.
pub uninterp spec fn file_slots(m: Store<File>) -> Map<u64, File>;

/// `SlotMap::new`: an empty slot map.
#[verifier::external_body]
pub(crate) fn files_new() -> (res: Store<File>)
    ensures
        file_slots(res).dom() == Set::<u64>::empty(),
{
    Store { map: SlotMap::new() }
}

/// `SlotMap::insert`: stores the value under a key that the map did not hold, and returns it.
/// The map panics only once it holds `u32::MAX - 1` values, which `requires` leaves out.
#[verifier::external_body]
pub(crate) fn files_insert(m: &mut Store<File>, v: File) -> (k: u64)
    requires
        file_slots(*old(m)).dom().finite(),
        file_slots(*old(m)).len() < slot_limit(),
    ensures
        !file_slots(*old(m)).dom().contains(k),
        odd_version(k),
        file_slots(*final(m)) == file_slots(*old(m)).insert(k, v),
{
    m.map.insert(v).data().as_ffi()
}

/// `Index for SlotMap`: the value stored under a key that the map holds.
#[verifier::external_body]
pub(crate) fn files_get(m: &Store<File>, k: u64) -> (v: &File)
    requires
        file_slots(*m).dom().contains(k),
    ensures
        *v == file_slots(*m)[k],
{
    &m.map[DefaultKey::from(KeyData::from_ffi(k))]
}

/// `IndexMut for SlotMap`: a mutable reference to the value stored under a key that the map
/// holds; what is written through it is what the map holds there afterwards.
#[verifier::external_body]
pub(crate) fn files_get_mut(m: &mut Store<File>, k: u64) -> (v: &mut File)
    requires
        file_slots(*old(m)).dom().contains(k),
    ensures
        *v == file_slots(*old(m))[k],
        file_slots(*final(m)) == file_slots(*old(m)).insert(k, *final(v)),
{
    &mut m.map[DefaultKey::from(KeyData::from_ffi(k))]
}


/// `SlotMap::len`: the number of values stored.
#[verifier::external_body]
pub(crate) fn folders_len(m: &Store<Folder>) -> (n: usize)
    ensures
        n == folder_slots(*m).len(),
{
    m.map.len()
}

/// `SlotMap::len`: the number of values stored.
#[verifier::external_body]
pub(crate) fn files_len(m: &Store<File>) -> (n: usize)
    ensures
        n == file_slots(*m).len(),
{
    m.map.len()
}

/// `SlotMap::contains_key`: whether a value is stored under the key. A key that the map never
/// gave out may alias a stored one (`KeyData::from_ffi` leaves that unspecified), so only keys
/// whose version half is odd, as every key the map gives out is, are asked about.
#[verifier::external_body]
pub(crate) fn folders_contains(m: &Store<Folder>, k: u64) -> (b: bool)
    ensures
        odd_version(k) ==> b == folder_slots(*m).contains_key(k),
{
    m.map.contains_key(DefaultKey::from(KeyData::from_ffi(k)))
}

/// `SlotMap::contains_key`: whether a value is stored under the key, for keys whose version half
/// is odd (see `folders_contains`).
#[verifier::external_body]
pub(crate) fn files_contains(m: &Store<File>, k: u64) -> (b: bool)
    ensures
        odd_version(k) ==> b == file_slots(*m).contains_key(k),
{
    m.map.contains_key(DefaultKey::from(KeyData::from_ffi(k)))
}
/// What a store of splits holds, by the `as_ffi` integer of each key.
pub uninterp spec fn split_slots(m: Store<Split>) -> Map<u64, Split>;

/// `SlotMap::new`: an empty slot map.
#[verifier::external_body]
pub(crate) fn splits_new() -> (res: Store<Split>)
    ensures
        split_slots(res).dom() == Set::<u64>::empty(),
{
    Store { map: SlotMap::new() }
}

/// `SlotMap::insert`: stores the value under a key that the map did not hold, and returns it.
/// The map panics only once it holds `u32::MAX - 1` values, which `requires` leaves out.
#[verifier::external_body]
pub(crate) fn splits_insert(m: &mut Store<Split>, v: Split) -> (k: u64)
    requires
        split_slots(*old(m)).dom().finite(),
        split_slots(*old(m)).len() < slot_limit(),
    ensures
        !split_slots(*old(m)).dom().contains(k),
        odd_version(k),
        split_slots(*final(m)) == split_slots(*old(m)).insert(k, v),
{
    m.map.insert(v).data().as_ffi()
}

/// `Index for SlotMap`: the value stored under a key that the map holds.
#[verifier::external_body]
pub(crate) fn splits_get(m: &Store<Split>, k: u64) -> (v: &Split)
    requires
        split_slots(*m).dom().contains(k),
    ensures
        *v == split_slots(*m)[k],
{
    &m.map[DefaultKey::from(KeyData::from_ffi(k))]
}

/// `IndexMut for SlotMap`: a mutable reference to the value stored under a key that the map
/// holds; what is written through it is what the map holds there afterwards.
#[verifier::external_body]
pub(crate) fn splits_get_mut(m: &mut Store<Split>, k: u64) -> (v: &mut Split)
    requires
        split_slots(*old(m)).dom().contains(k),
    ensures
        *v == split_slots(*old(m))[k],
        split_slots(*final(m)) == split_slots(*old(m)).insert(k, *final(v)),
{
    &mut m.map[DefaultKey::from(KeyData::from_ffi(k))]
}

/// `SlotMap::len`: the number of values stored.
#[verifier::external_body]
pub(crate) fn splits_len(m: &Store<Split>) -> (n: usize)
    ensures
        n == split_slots(*m).len(),
{
    m.map.len()
}

/// `SlotMap::contains_key`: whether a value is stored under the key. A key that the map never
/// gave out may alias a stored one (`KeyData::from_ffi` leaves that unspecified), so only keys
/// whose version half is odd, as every key the map gives out is, are asked about.
#[verifier::external_body]
pub(crate) fn splits_contains(m: &Store<Split>, k: u64) -> (b: bool)
    ensures
        odd_version(k) ==> b == split_slots(*m).contains_key(k),
{
    m.map.contains_key(DefaultKey::from(KeyData::from_ffi(k)))
}


/// `SlotMap::remove`: takes the value stored under a key that the map holds out of it.
#[verifier::external_body]
pub(crate) fn splits_remove(m: &mut Store<Split>, k: u64) -> (v: Split)
    requires
        split_slots(*old(m)).dom().contains(k),
    ensures
        v == split_slots(*old(m))[k],
        split_slots(*final(m)) == split_slots(*old(m)).remove(k),
{
    m.map.remove(DefaultKey::from(KeyData::from_ffi(k))).unwrap()
}
/// What a store of pane parents holds, by the `as_ffi` integer of each key.
pub uninterp spec fn pane_slots(m: Store<SplitKey>) -> Map<u64, SplitKey>;

/// `SlotMap::new`: an empty slot map.
#[verifier::external_body]
pub(crate) fn panes_new() -> (res: Store<SplitKey>)
    ensures
        pane_slots(res).dom() == Set::<u64>::empty(),
{
    Store { map: SlotMap::new() }
}

/// `SlotMap::insert`: stores the value under a key that the map did not hold, and returns it.
/// The map panics only once it holds `u32::MAX - 1` values, which `requires` leaves out.
#[verifier::external_body]
pub(crate) fn panes_insert(m: &mut Store<SplitKey>, v: SplitKey) -> (k: u64)
    requires
        pane_slots(*old(m)).dom().finite(),
        pane_slots(*old(m)).len() < slot_limit(),
    ensures
        !pane_slots(*old(m)).dom().contains(k),
        odd_version(k),
        pane_slots(*final(m)) == pane_slots(*old(m)).insert(k, v),
{
    m.map.insert(v).data().as_ffi()
}

/// `Index for SlotMap`: the value stored under a key that the map holds.
#[verifier::external_body]
pub(crate) fn panes_get(m: &Store<SplitKey>, k: u64) -> (v: &SplitKey)
    requires
        pane_slots(*m).dom().contains(k),
    ensures
        *v == pane_slots(*m)[k],
{
    &m.map[DefaultKey::from(KeyData::from_ffi(k))]
}

/// `IndexMut for SlotMap`: a mutable reference to the value stored under a key that the map
/// holds; what is written through it is what the map holds there afterwards.
#[verifier::external_body]
pub(crate) fn panes_get_mut(m: &mut Store<SplitKey>, k: u64) -> (v: &mut SplitKey)
    requires
        pane_slots(*old(m)).dom().contains(k),
    ensures
        *v == pane_slots(*old(m))[k],
        pane_slots(*final(m)) == pane_slots(*old(m)).insert(k, *final(v)),
{
    &mut m.map[DefaultKey::from(KeyData::from_ffi(k))]
}

/// `SlotMap::len`: the number of values stored.
#[verifier::external_body]
pub(crate) fn panes_len(m: &Store<SplitKey>) -> (n: usize)
    ensures
        n == pane_slots(*m).len(),
{
    m.map.len()
}

/// `SlotMap::contains_key`: whether a value is stored under the key. A key that the map never
/// gave out may alias a stored one (`KeyData::from_ffi` leaves that unspecified), so only keys
/// whose version half is odd, as every key the map gives out is, are asked about.
#[verifier::external_body]
pub(crate) fn panes_contains(m: &Store<SplitKey>, k: u64) -> (b: bool)
    ensures
        odd_version(k) ==> b == pane_slots(*m).contains_key(k),
{
    m.map.contains_key(DefaultKey::from(KeyData::from_ffi(k)))
}


/// `SlotMap::remove`: takes the value stored under a key that the map holds out of it.
#[verifier::external_body]
pub(crate) fn panes_remove(m: &mut Store<SplitKey>, k: u64) -> (v: SplitKey)
    requires
        pane_slots(*old(m)).dom().contains(k),
    ensures
        v == pane_slots(*old(m))[k],
        pane_slots(*final(m)) == pane_slots(*old(m)).remove(k),
{
    m.map.remove(DefaultKey::from(KeyData::from_ffi(k))).unwrap()
}
} // verus!
