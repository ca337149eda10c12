//! The frontier's priority queue: radix-heap's `RadixHeapMap`, keyed by `u64`
//! priorities and holding `u64` node indices.
//!
//! The heap pops its greatest key first and is monotone: once a key has been
//! popped, it becomes the heap's top and no greater key may be pushed.
use radix_heap::RadixHeapMap;
use vstd::multiset::Multiset;
use vstd::prelude::*;

verus! {

#[verifier::external_type_specification]
#[verifier::external_body]
#[verifier::reject_recursive_types(K)]
#[verifier::reject_recursive_types(V)]
pub struct ExRadixHeapMap<K, V>(RadixHeapMap<K, V>);

/// The (key, value) pairs that a heap holds.
pub uninterp spec fn heap_items(h: RadixHeapMap<u64, u64>) -> Multiset<(u64, u64)>;

/// The heap's top key: `None` until a key is popped, then the key last popped.
pub uninterp spec fn heap_top(h: RadixHeapMap<u64, u64>) -> Option<u64>;

/// Relies on `RadixHeapMap::new`: an empty heap with no top key.
#[verifier::external_body]
pub(crate) fn heap_new() -> (r: RadixHeapMap<u64, u64>)
    ensures
        heap_items(r) =~= Multiset::empty(),
        heap_top(r) == None::<u64>,
{
    RadixHeapMap::new()
}

/// Relies on `RadixHeapMap::clear`: drops every item and unsets the top key.
#[verifier::external_body]
pub(crate) fn heap_clear(h: &mut RadixHeapMap<u64, u64>)
    ensures
        heap_items(*final(h)) =~= Multiset::empty(),
        heap_top(*final(h)) == None::<u64>,
{
    h.clear()
}

/// Relies on `RadixHeapMap::push`, which panics on a key above the top key.
#[verifier::external_body]
pub(crate) fn heap_push(h: &mut RadixHeapMap<u64, u64>, key: u64, value: u64)
    requires
        heap_top(*old(h)) matches Some(t) ==> key <= t,
    ensures
        heap_items(*final(h)) =~= heap_items(*old(h)).insert((key, value)),
        heap_top(*final(h)) == heap_top(*old(h)),
{
    h.push(key, value)
}

/// Relies on `RadixHeapMap::pop`: removes an item of greatest key, which
/// becomes the top key; on an empty heap, returns `None` and changes nothing.
#[verifier::external_body]
pub(crate) fn heap_pop(h: &mut RadixHeapMap<u64, u64>) -> (r: Option<(u64, u64)>)
    ensures
        heap_items(*old(h)).len() == 0 ==> r is None && heap_items(*final(h)) =~= heap_items(
            *old(h),
        ) && heap_top(*final(h)) == heap_top(*old(h)),
        heap_items(*old(h)).len() > 0 ==> (r matches Some(item) && {
            &&& heap_items(*old(h)).contains(item)
            &&& heap_items(*final(h)) =~= heap_items(*old(h)).remove(item)
            &&& heap_top(*final(h)) == Some(item.0)
            &&& forall|other: (u64, u64)| #[trigger]
                heap_items(*old(h)).contains(other) ==> other.0 <= item.0
        }),
{
    h.pop()
}

/// Relies on `RadixHeapMap::top`.
#[verifier::external_body]
pub(crate) fn heap_top_key(h: &RadixHeapMap<u64, u64>) -> (r: Option<u64>)
    ensures
        r == heap_top(*h),
{
    h.top()
}

/// Relies on `RadixHeapMap::iter`: every item once, in no stated order.
#[verifier::external_body]
pub(crate) fn heap_entries(h: &RadixHeapMap<u64, u64>) -> (r: Vec<(u64, u64)>)
    ensures
        r@.to_multiset() =~= heap_items(*h),
{
    h.iter().map(|(k, v)| (*k, *v)).collect()
}

} // verus!
