//! The key index: a concurrent skip list from key to the place of its
//! latest value record, `(segment id, offset, length)`.
use vstd::prelude::*;
use vstd::utf8::encode_utf8;
use crossbeam_skiplist::SkipMap;

verus! {

/// `crossbeam_skiplist::SkipMap`, opaque: what it holds is `slot_map`.
#[verifier::external_type_specification]
#[verifier::external_body]
#[verifier::reject_recursive_types(K)]
#[verifier::reject_recursive_types(V)]
pub struct ExSkipMap<K, V>(SkipMap<K, V>);

/// The place of a record: segment id, byte offset, byte length.
pub type Slot = (u64, u64, u64);

/// A skip list from key to slot.
pub type SlotIndex = SkipMap<String, Slot>;

/// What a skip list of slots holds, by key.
pub uninterp spec fn slot_map(m: SlotIndex) -> Map<Seq<char>, Slot>;

/// Byte string `a` sorts before `b`: the order of `Ord` on byte slices.
pub open spec fn bytes_before(a: Seq<u8>, b: Seq<u8>) -> bool
    decreases a.len(),
{
    if a.len() == 0 {
        b.len() > 0
    } else if b.len() == 0 {
        false
    } else if a[0] != b[0] {
        a[0] < b[0]
    } else {
        bytes_before(a.skip(1), b.skip(1))
    }
}

/// Key `a` sorts before `b`: `Ord` on `String` compares the UTF-8 bytes.
pub open spec fn key_before(a: Seq<char>, b: Seq<char>) -> bool {
    bytes_before(encode_utf8(a), encode_utf8(b))
}

/// Relies on `SkipMap::new`: a new skip list is empty.
#[verifier::external_body]
pub(crate) fn index_new() -> (r: SlotIndex)
    ensures
        slot_map(r).dom() == Set::<Seq<char>>::empty(),
{
    SkipMap::new()
}

/// Relies on `SkipMap::get`: the entry stored under the key, if any.
#[verifier::external_body]
pub(crate) fn index_get(m: &SlotIndex, k: &String) -> (r: Option<Slot>)
    ensures
        slot_map(*m).contains_key(k@) ==> r == Some(slot_map(*m)[k@]),
        !slot_map(*m).contains_key(k@) ==> r is None,
{
    m.get(k.as_str()).map(|e| *e.value())
}

/// Relies on `SkipMap::insert`: the key is bound to the slot, replacing any
/// earlier entry of the key.
#[verifier::external_body]
pub(crate) fn index_insert(m: &mut SlotIndex, k: String, s: Slot)
    ensures
        slot_map(*final(m)) == slot_map(*old(m)).insert(k@, s),
{
    m.insert(k, s);
}

/// Relies on `SkipMap::remove`: the entry of the key is taken out and
/// handed back.
#[verifier::external_body]
pub(crate) fn index_remove(m: &mut SlotIndex, k: &String) -> (r: Option<Slot>)
    ensures
        slot_map(*old(m)).contains_key(k@) ==> r == Some(slot_map(*old(m))[k@]),
        !slot_map(*old(m)).contains_key(k@) ==> r is None,
        slot_map(*final(m)) == slot_map(*old(m)).remove(k@),
{
    m.remove(k.as_str()).map(|e| *e.value())
}

/// Relies on `SkipMap::iter`: every entry once, keys in ascending order.
#[verifier::external_body]
pub(crate) fn index_entries(m: &SlotIndex) -> (r: Vec<(String, Slot)>)
    ensures
        forall|i: int|
            0 <= i < r@.len() ==> #[trigger] slot_map(*m).contains_key(r@[i].0@)
                && slot_map(*m)[r@[i].0@] == r@[i].1,
        forall|i: int, j: int| 0 <= i < j < r@.len() ==> r@[i].0@ != r@[j].0@,
        forall|i: int, j: int| 0 <= i < j < r@.len() ==> key_before(r@[i].0@, r@[j].0@),
        forall|k: Seq<char>|
            #[trigger] slot_map(*m).contains_key(k) ==> exists|i: int|
                0 <= i < r@.len() && r@[i].0@ == k,
{
    m.iter().map(|e| (e.key().clone(), *e.value())).collect()
}

} // verus!
