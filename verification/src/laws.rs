//! Container-wide laws, stated over the public model.

use vstd::prelude::*;

use crate::ring::FrodoRing;
use crate::window::as_slots;
use crate::window::live_of;
use crate::window::lemma_live_len;
use crate::window::lemma_live_index;
use crate::window::lemma_live_all_some;

verus! {

/// Capacity invariant: in every reachable state the live count never exceeds
/// the used window length, which never exceeds the ring size, and the window
/// is empty exactly when the queue is.
pub proof fn lemma_capacity_invariant<T, const N: usize>(r: &FrodoRing<T, N>)
    requires
        r.wf(),
    ensures
        r.queue().len() <= r.spec_used() <= N,
        r.spec_used() == 0 <==> r.queue().len() == 0,
{
    lemma_live_len(r@);
    r.lemma_wf_ends();
    if r.spec_used() > 0 {
        lemma_live_index(r@, 0);
    }
}

/// No leading or trailing hole: a non-empty window is occupied at slot-order
/// offsets `0` and `used - 1`.
pub proof fn lemma_no_boundary_holes<T, const N: usize>(r: &FrodoRing<T, N>)
    requires
        r.wf(),
        r.spec_used() > 0,
    ensures
        r@[0] is Some,
        r@[r.spec_used() - 1] is Some,
{
    r.lemma_wf_ends();
}

/// Queue/slot equivalence when no holes exist: while no removal has taken
/// place every window slot is occupied, and then queue-order addressing and
/// slot-order addressing agree at every valid index.
pub proof fn lemma_queue_slot_agree<T, const N: usize>(r: &FrodoRing<T, N>, i: int)
    requires
        r.wf(),
        forall|k: int| 0 <= k < r.spec_used() ==> r@[k] is Some,
        0 <= i < r.spec_used(),
    ensures
        r.queue().len() == r.spec_used(),
        r.spec_at(i) == Some(r.queue()[i]),
{
    lemma_live_all_some(r@);
}

/// Negative indexing: when the window spans the whole ring, the end-relative
/// position `-1` addresses the same slot as the last slot-order offset
/// `used - 1`. (With a shorter window, `-1` resolves past the window's end
/// and yields nothing, so the window must be full for the two to agree.)
pub proof fn lemma_negative_indexing<T, const N: usize>(r: &FrodoRing<T, N>)
    requires
        r.wf(),
        r.spec_used() == N as int,
        r.spec_used() > 0,
    ensures
        r.spec_at(-1) == r.spec_at(r.spec_used() - 1),
{
}

/// Order preservation under compaction: a window rebuilt as exactly its
/// live elements — the shape `push` leaves behind when it reclaims holes,
/// stated in its `ensures` through `as_slots` — carries the same live
/// sequence, element for element: nothing reordered, lost or duplicated.
pub proof fn lemma_compaction_preserves_order<T>(q: Seq<T>)
    ensures
        live_of(as_slots(q)) == q,
{
    assert forall|i: int| 0 <= i < as_slots(q).len() implies as_slots(q)[i] is Some by {}
    lemma_live_all_some(as_slots(q));
    assert(live_of(as_slots(q)) =~= q);
}

/// Order preservation under removal: removing the queue element at index
/// `j` — which is what `remove`, `remove_at` and `pick` do to the queue
/// view — keeps every surviving element in its relative order: elements
/// before `j` keep their index, elements after it each move forward by
/// exactly one.
pub proof fn lemma_order_preservation<T>(q: Seq<T>, j: int)
    requires
        0 <= j < q.len(),
    ensures
        q.remove(j).len() == q.len() - 1,
        forall|k: int| 0 <= k < j ==> q.remove(j)[k] == q[k],
        forall|k: int| j <= k < q.len() - 1 ==> q.remove(j)[k] == q[k + 1],
{
    q.remove_ensures(j);
}

} // verus!
