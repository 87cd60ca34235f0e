//! The priority queue of the merge learner: an 8-ary max-heap of integer keys.

use dary_heap::DaryHeap;
use dary_heap::OctonaryHeap;
use vstd::multiset::Multiset;
use vstd::prelude::*;

verus! {

/// What the queue holds for one job: the published count, the two ids of the
/// pair counted down from the largest id, and the job's number. Tuples are
/// ordered field by field, so the largest key has the highest count, then the
/// smallest pair, then the highest number.
pub type HeapKey = (u64, u32, u32, usize);

/// The order of tuples of integers: by the first field in which two keys differ.
pub open spec fn key_le(x: HeapKey, y: HeapKey) -> bool {
    if x.0 != y.0 {
        x.0 < y.0
    } else if x.1 != y.1 {
        x.1 < y.1
    } else if x.2 != y.2 {
        x.2 < y.2
    } else {
        x.3 <= y.3
    }
}

/// `DaryHeap` of dary_heap: a max-heap in which a node has `D` children.
#[verifier::external_type_specification]
#[verifier::external_body]
#[verifier::reject_recursive_types(T)]
pub struct ExDaryHeap<T, const D: usize>(DaryHeap<T, D>);

/// The keys that a heap holds, each as often as it was pushed and not yet popped.
pub uninterp spec fn heap_keys(heap: OctonaryHeap<HeapKey>) -> Multiset<HeapKey>;

/// `DaryHeap::new` of dary_heap: a heap that holds nothing.
#[verifier::external_body]
pub(crate) fn heap_new() -> (heap: OctonaryHeap<HeapKey>)
    ensures
        heap_keys(heap) == Multiset::<HeapKey>::empty(),
{
    OctonaryHeap::new()
}

/// `DaryHeap::push` of dary_heap: the heap holds one more copy of `key` and is
/// otherwise unchanged.
#[verifier::external_body]
pub(crate) fn heap_push(heap: &mut OctonaryHeap<HeapKey>, key: HeapKey)
    ensures
        heap_keys(*final(heap)) == heap_keys(*old(heap)).insert(key),
{
    heap.push(key)
}

/// `DaryHeap::pop` of dary_heap: `None` on a heap that holds nothing, which stays
/// as it is; else a key of the heap that no other key of it exceeds, of which the
/// heap then holds one copy less.
#[verifier::external_body]
pub(crate) fn heap_pop(heap: &mut OctonaryHeap<HeapKey>) -> (top: Option<HeapKey>)
    ensures
        top is None ==> heap_keys(*old(heap)).len() == 0 && heap_keys(*final(heap)) == heap_keys(
            *old(heap),
        ),
        top matches Some(key) ==> heap_keys(*old(heap)).contains(key) && heap_keys(*final(heap))
            == heap_keys(*old(heap)).remove(key) && forall|other: HeapKey|
            heap_keys(*old(heap)).contains(other) ==> key_le(other, key),
{
    heap.pop()
}

} // verus!
