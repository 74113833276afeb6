//! The mathematical model of the ring's window.
//!
//! A window is a sequence of slots, `Seq<Option<T>>`: `Some` is an occupied
//! slot, `None` a hole. Queue order is obtained by dropping the holes
//! (`live_of`); shrinking the window from either end while the end slot is a
//! hole is `trim_front` / `trim_back`.

use vstd::prelude::*;

verus! {

/// Physical slot index of window offset `off` in a ring of `n` slots whose
/// window starts at physical index `head`.
///
/// Equals `(head + off) % n`, written without `%` so that all facts about it
/// stay in linear arithmetic. Meaningful for `0 <= head < n` and
/// `0 <= off <= n`.
pub open spec fn wrap_index(head: int, off: int, n: int) -> int {
    if head + off < n {
        head + off
    } else {
        head + off - n
    }
}

/// Distinct window offsets resolve to distinct physical slots.
pub proof fn lemma_wrap_index_injective(head: int, o1: int, o2: int, n: int)
    requires
        0 <= head < n,
        0 <= o1 < n,
        0 <= o2 < n,
        o1 != o2,
    ensures
        wrap_index(head, o1, n) != wrap_index(head, o2, n),
{
}

/// The live elements of a window in slot order: the payloads of the occupied
/// slots, with the holes dropped. This is the queue-order content.
pub open spec fn live_of<T>(w: Seq<Option<T>>) -> Seq<T>
    decreases w.len(),
{
    if w.len() == 0 {
        Seq::empty()
    } else {
        match w.last() {
            Some(v) => live_of(w.drop_last()).push(v),
            None => live_of(w.drop_last()),
        }
    }
}

/// A window holds at least as many slots as live elements.
pub proof fn lemma_live_len<T>(w: Seq<Option<T>>)
    ensures
        live_of(w).len() <= w.len(),
    decreases w.len(),
{
    if w.len() > 0 {
        lemma_live_len(w.drop_last());
    }
}

/// Dropping holes distributes over concatenation.
pub proof fn lemma_live_append<T>(a: Seq<Option<T>>, b: Seq<Option<T>>)
    ensures
        live_of(a + b) == live_of(a) + live_of(b),
    decreases b.len(),
{
    if b.len() == 0 {
        assert(a + b =~= a);
        assert(live_of(a) + live_of(b) =~= live_of(a));
    } else {
        lemma_live_append(a, b.drop_last());
        assert((a + b).drop_last() =~= a + b.drop_last());
        assert((a + b).last() == b.last());
        match b.last() {
            Some(v) => {
                assert(live_of(a) + live_of(b) =~= (live_of(a) + live_of(b.drop_last())).push(v));
            },
            None => {},
        }
    }
}

/// Extending a prefix of `w` by one slot extends its live content by the
/// slot's payload, if any.
pub proof fn lemma_live_take_succ<T>(w: Seq<Option<T>>, i: int)
    requires
        0 <= i < w.len(),
    ensures
        live_of(w.take(i + 1)) == match w[i] {
            Some(v) => live_of(w.take(i)).push(v),
            None => live_of(w.take(i)),
        },
{
    assert(w.take(i + 1).drop_last() =~= w.take(i));
    assert(w.take(i + 1).last() == w[i]);
}

/// The payload of an occupied slot appears in the live sequence at the index
/// given by the live count of the slots before it.
pub proof fn lemma_live_index<T>(w: Seq<Option<T>>, o: int)
    requires
        0 <= o < w.len(),
        w[o] is Some,
    ensures
        ({
            let j = live_of(w.take(o)).len();
            &&& j < live_of(w).len()
            &&& live_of(w)[j as int] == w[o]->0
        }),
{
    assert(w =~= w.take(o + 1) + w.skip(o + 1));
    lemma_live_append(w.take(o + 1), w.skip(o + 1));
    lemma_live_take_succ(w, o);
}

/// A hole strictly separates the live count from the slot count.
pub proof fn lemma_live_len_lt<T>(w: Seq<Option<T>>, o: int)
    requires
        0 <= o < w.len(),
        w[o] is None,
    ensures
        live_of(w).len() < w.len(),
{
    assert(w =~= w.take(o + 1) + w.skip(o + 1));
    lemma_live_append(w.take(o + 1), w.skip(o + 1));
    lemma_live_take_succ(w, o);
    lemma_live_len(w.take(o));
    lemma_live_len(w.skip(o + 1));
}

/// In a window without holes every slot's payload is live, at its own offset.
pub proof fn lemma_live_all_some<T>(w: Seq<Option<T>>)
    requires
        forall|i: int| 0 <= i < w.len() ==> w[i] is Some,
    ensures
        live_of(w).len() == w.len(),
        forall|i: int| 0 <= i < w.len() ==> live_of(w)[i] == w[i]->0,
    decreases w.len(),
{
    if w.len() > 0 {
        lemma_live_all_some(w.drop_last());
    }
}

/// A fully occupied window holding exactly the given elements, in order.
pub open spec fn as_slots<T>(q: Seq<T>) -> Seq<Option<T>> {
    q.map_values(|v: T| Some(v))
}

/// The window with its leading holes dropped.
pub open spec fn trim_front<T>(w: Seq<Option<T>>) -> Seq<Option<T>>
    decreases w.len(),
{
    if w.len() > 0 && w[0] is None {
        trim_front(w.drop_first())
    } else {
        w
    }
}

/// The window with its trailing holes dropped.
pub open spec fn trim_back<T>(w: Seq<Option<T>>) -> Seq<Option<T>>
    decreases w.len(),
{
    if w.len() > 0 && w.last() is None {
        trim_back(w.drop_last())
    } else {
        w
    }
}

/// The window with leading and trailing holes dropped: the window as it
/// stands after a removal at either end has shrunk it back to occupied ends.
pub open spec fn trim<T>(w: Seq<Option<T>>) -> Seq<Option<T>> {
    trim_back(trim_front(w))
}

/// Dropping leading holes keeps the live content.
pub proof fn lemma_live_trim_front<T>(w: Seq<Option<T>>)
    ensures
        live_of(trim_front(w)) == live_of(w),
    decreases w.len(),
{
    if w.len() > 0 && w[0] is None {
        assert(w =~= seq![w[0]] + w.drop_first());
        lemma_live_append(seq![w[0]], w.drop_first());
        let s = seq![w[0]];
        assert(s.drop_last() =~= Seq::<Option<T>>::empty());
        assert(live_of(s.drop_last()) =~= Seq::<T>::empty());
        assert(s.last() == w[0]);
        assert(live_of(s) =~= Seq::<T>::empty());
        assert(live_of(w) =~= live_of(w.drop_first()));
        lemma_live_trim_front(w.drop_first());
    }
}

/// Dropping trailing holes keeps the live content.
pub proof fn lemma_live_trim_back<T>(w: Seq<Option<T>>)
    ensures
        live_of(trim_back(w)) == live_of(w),
    decreases w.len(),
{
    if w.len() > 0 && w.last() is None {
        lemma_live_trim_back(w.drop_last());
    }
}

/// `trim_front` leaves a window whose first slot is occupied, or nothing.
pub proof fn lemma_trim_front_shape<T>(w: Seq<Option<T>>)
    ensures
        trim_front(w).len() == 0 || trim_front(w)[0] is Some,
        trim_front(w).len() > 0 ==> trim_front(w).last() == w.last(),
        trim_front(w).len() <= w.len(),
    decreases w.len(),
{
    if w.len() > 0 && w[0] is None {
        lemma_trim_front_shape(w.drop_first());
    }
}

/// Trimming a window that already has an occupied (or no) end slot on each
/// side changes nothing.
pub proof fn lemma_trim_noop<T>(w: Seq<Option<T>>)
    requires
        w.len() == 0 || (w[0] is Some && w.last() is Some),
    ensures
        trim(w) == w,
{
}

/// Removing the payload of an occupied slot removes exactly the matching
/// element, at its live index, from the live sequence.
pub proof fn lemma_live_update_none<T>(w: Seq<Option<T>>, o: int)
    requires
        0 <= o < w.len(),
        w[o] is Some,
    ensures
        ({
            let j = live_of(w.take(o)).len();
            live_of(w.update(o, None)) == live_of(w).remove(j as int)
        }),
{
    let j = live_of(w.take(o)).len() as int;
    let u = w.update(o, None);
    assert(w =~= w.take(o + 1) + w.skip(o + 1));
    lemma_live_append(w.take(o + 1), w.skip(o + 1));
    lemma_live_take_succ(w, o);
    assert(u =~= u.take(o + 1) + u.skip(o + 1));
    lemma_live_append(u.take(o + 1), u.skip(o + 1));
    lemma_live_take_succ(u, o);
    assert(u.take(o) =~= w.take(o));
    assert(u.skip(o + 1) =~= w.skip(o + 1));
    lemma_live_len(w.take(o));
    assert(live_of(w).remove(j) =~= live_of(w.take(o)) + live_of(w.skip(o + 1)));
    assert(live_of(u) =~= live_of(w.take(o)) + live_of(w.skip(o + 1)));
}

} // verus!
