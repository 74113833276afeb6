//! The ring container itself.

use vstd::prelude::*;
use vstd::string::StringExecFns;

use crate::render::decimal_digits;
use crate::render::render_usize;
use crate::window::as_slots;
use crate::window::live_of;
use crate::window::trim;
use crate::window::trim_front;
use crate::window::trim_back;
use crate::window::wrap_index;
use crate::window::lemma_wrap_index_injective;
use crate::window::lemma_live_len;
use crate::window::lemma_live_take_succ;
use crate::window::lemma_live_index;
use crate::window::lemma_live_len_lt;
use crate::window::lemma_live_all_some;
use crate::window::lemma_live_update_none;
use crate::window::lemma_live_trim_front;
use crate::window::lemma_live_trim_back;
use crate::window::lemma_trim_front_shape;
use crate::window::lemma_trim_noop;

verus! {

/// Moves the contents of cell `i` out of the vector, leaving `None` there.
fn slot_take<T>(buffer: &mut Vec<Option<T>>, i: usize) -> (r: Option<T>)
    requires
        i < old(buffer)@.len(),
    ensures
        final(buffer)@ == old(buffer)@.update(i as int, None),
        r == old(buffer)@[i as int],
{
    let r = buffer.remove(i);
    buffer.insert(i, None);
    proof {
        assert(buffer@ =~= old(buffer)@.update(i as int, None));
    }
    r
}

/// A fixed-capacity FIFO queue on a ring of `N` slots.
///
/// Each slot independently holds an element (`Some`) or is empty (`None`);
/// a separate validity tag per slot is not needed because `Option` already
/// records occupancy without demanding an "empty" sentinel of `T` itself.
/// `head` is the physical index of the first window slot, and `cap` the
/// number of slots — live elements and interior holes together — that the
/// queue currently spans.
pub struct FrodoRing<T, const N: usize> {
    /// The `N` storage cells, physical order.
    buffer: Vec<Option<T>>,
    /// Physical index of the first slot of the window.
    head: usize,
    /// Used window length: slots from `head`, wrapping forward, that belong
    /// to the queue, holes included.
    cap: usize,
}

impl<T, const N: usize> View for FrodoRing<T, N> {
    type V = Seq<Option<T>>;

    /// Slot-order view of the used window: offset 0 is the head slot, holes
    /// appear as `None`.
    closed spec fn view(&self) -> Seq<Option<T>> {
        Seq::new(self.cap as nat, |i: int| self.slot(i))
    }
}

impl<T, const N: usize> FrodoRing<T, N> {
    /// Contents of the slot at window offset `off`, for `0 <= off < N`.
    pub closed spec fn slot(&self, off: int) -> Option<T> {
        self.buffer@[wrap_index(self.head as int, off, N as int)]
    }

    /// Used window length: slots the queue spans, holes included.
    pub open spec fn spec_used(&self) -> int {
        self@.len() as int
    }

    /// Physical index of the window's first slot.
    pub closed spec fn spec_head(&self) -> int {
        self.head as int
    }

    /// Contents of the physical cell `i` of the backing array, for
    /// `0 <= i < N` — by physical index, not window offset.
    pub closed spec fn phys_slot(&self, i: int) -> Option<T> {
        self.buffer@[i]
    }

    /// The slot lines of the diagnostic rendering, one per physical cell
    /// `0..n` in index order: an occupied cell shows a rendered text of its
    /// own (the matching entry of `texts`), an empty cell the explicit
    /// `None` marker.
    pub open spec fn debug_lines(&self, texts: Seq<Seq<char>>, n: int) -> Seq<char>
        decreases n,
    {
        if n <= 0 {
            Seq::empty()
        } else {
            self.debug_lines(texts, n - 1) + (if self.phys_slot(n - 1) is Some {
                "\t"@ + texts[n - 1] + ",\n"@
            } else {
                "\tNone,\n"@
            })
        }
    }

    /// The lines for the first `n` cells read only the first `n` texts, so
    /// appending another text changes nothing.
    proof fn lemma_debug_lines_extend(&self, texts: Seq<Seq<char>>, t: Seq<char>, n: int)
        requires
            0 <= n <= texts.len(),
        ensures
            self.debug_lines(texts.push(t), n) == self.debug_lines(texts, n),
        decreases n,
    {
        if n > 0 {
            self.lemma_debug_lines_extend(texts, t, n - 1);
            assert(texts.push(t)[n - 1] == texts[n - 1]);
        }
    }

    /// Queue-order content: the live elements, holes skipped.
    pub open spec fn queue(&self) -> Seq<T> {
        live_of(self@)
    }

    /// Structural invariant: the buffer has exactly `N` cells, the window
    /// fits in the ring, every slot outside the window is empty, and a
    /// non-empty window is occupied at both ends (holes are only interior).
    pub closed spec fn wf(&self) -> bool {
        &&& self.buffer@.len() == N as int
        &&& self.cap <= N
        &&& (if N == 0 {
            self.head == 0
        } else {
            self.head < N
        })
        &&& (forall|i: int| self.cap <= i < N ==> self.slot(i) is None)
        &&& (self.cap > 0 ==> self@[0] is Some && self@[self.cap - 1] is Some)
    }

    /// A non-empty window starts and ends on an occupied slot.
    pub proof fn lemma_wf_ends(&self)
        requires
            self.wf(),
        ensures
            self.spec_used() <= N,
            self.spec_used() > 0 ==> self@[0] is Some && self@[self.spec_used() - 1] is Some,
    {
    }

    /// Creates an empty ring: no slot occupied, nothing used.
    pub fn new() -> (r: Self)
        ensures
            r.wf(),
            r@ == Seq::<Option<T>>::empty(),
            r.queue() == Seq::<T>::empty(),
    {
        let mut buffer: Vec<Option<T>> = Vec::new();
        while buffer.len() < N
            invariant
                buffer@.len() <= N,
                forall|i: int| 0 <= i < buffer@.len() ==> buffer@[i] is None,
            decreases N - buffer@.len(),
        {
            buffer.push(None);
        }
        let r = FrodoRing { buffer, head: 0, cap: 0 };
        proof {
            assert(r@ =~= Seq::<Option<T>>::empty());
            assert(r.queue() =~= Seq::<T>::empty());
        }
        r
    }

    /// Physical slot index of a non-negative window offset: `(head + off) % N`.
    fn real_pos(&self, off: usize) -> (r: usize)
        requires
            self.head < N,
            off <= N,
        ensures
            r == wrap_index(self.head as int, off as int, N as int),
            r < N,
    {
        if off >= N - self.head {
            off - (N - self.head)
        } else {
            self.head + off
        }
    }

    /// Physical slot index of a 1-based offset counted from the end of the
    /// ring: `(head + N - off) % N`. Offset `1` is the slot just before
    /// `head`, which is the last window slot exactly when the window spans
    /// the whole ring.
    fn neg_pos(&self, off: usize) -> (r: usize)
        requires
            self.head < N,
            0 < off <= N,
        ensures
            r == wrap_index(self.head as int, N as int - off as int, N as int),
            r < N,
    {
        self.real_pos(N - off)
    }

    /// Window offset that a signed slot-order position resolves to:
    /// non-negative positions are used as they are, negative ones count from
    /// the end of the ring (`-1` resolves to offset `N - 1`).
    pub open spec fn offset_of(&self, naive_pos: int) -> int {
        if naive_pos >= 0 {
            naive_pos
        } else {
            N + naive_pos
        }
    }

    /// What slot-order addressing yields: `None` for a position outside
    /// `[-used, used)`, otherwise the contents of the resolved slot — which
    /// is `None` when the slot is a hole or lies beyond the window.
    pub open spec fn spec_at(&self, naive_pos: int) -> Option<T> {
        if self.spec_used() == 0 || naive_pos >= self.spec_used() || naive_pos < -self.spec_used() {
            None
        } else {
            let o = self.offset_of(naive_pos);
            if o < self.spec_used() {
                self@[o]
            } else {
                None
            }
        }
    }

    /// Live index of the element in the slot at window offset `o`: how many
    /// live elements the slots before it hold.
    pub open spec fn live_index_at(&self, o: int) -> int {
        live_of(self@.take(o)).len() as int
    }

    /// Resolves a signed slot-order position to a window offset, `None` when
    /// it falls outside `[-used, used)`.
    fn resolve(&self, naive_pos: isize) -> (r: Option<usize>)
        requires
            self.wf(),
        ensures
            match r {
                Some(o) => {
                    &&& self.spec_used() > 0
                    &&& -self.spec_used() <= naive_pos < self.spec_used()
                    &&& o == self.offset_of(naive_pos as int)
                    &&& o < N
                },
                None => self.spec_at(naive_pos as int) is None && (self.spec_used() == 0
                    || naive_pos >= self.spec_used() || naive_pos < -self.spec_used()),
            },
    {
        if self.cap == 0 {
            return None;
        }
        if naive_pos >= 0 {
            let p = naive_pos as usize;
            if p >= self.cap {
                return None;
            }
            Some(p)
        } else {
            let m_wide: i128 = -(naive_pos as i128);
            if m_wide > self.cap as i128 {
                return None;
            }
            let m = m_wide as usize;
            Some(N - m)
        }
    }

    /// Gets the element held by the slot at a signed slot-order position.
    ///
    /// Offset `0` is the first element of the queue; `used() - 1` the last
    /// window slot; `-1` the last slot of a window that spans the whole
    /// ring. A position outside `[-used, used)` or one resolving to a hole
    /// yields `None`, never a fault.
    pub fn at(&self, naive_pos: isize) -> (r: Option<&T>)
        requires
            self.wf(),
        ensures
            match r {
                Some(v) => self.spec_at(naive_pos as int) == Some(*v),
                None => self.spec_at(naive_pos as int) is None,
            },
    {
        if self.cap == 0 {
            return None;
        }
        let ghost o = self.offset_of(naive_pos as int);
        let phys: usize;
        if naive_pos >= 0 {
            let p = naive_pos as usize;
            if p >= self.cap {
                return None;
            }
            phys = self.real_pos(p);
        } else {
            let m_wide: i128 = -(naive_pos as i128);
            if m_wide > self.cap as i128 {
                return None;
            }
            let m = m_wide as usize;
            phys = self.neg_pos(m);
        }
        proof {
            assert(phys == wrap_index(self.head as int, o, N as int));
            if o >= self.cap {
                assert(self.slot(o) is None);
            } else {
                assert(self@[o] == self.slot(o));
            }
        }
        self.buffer[phys].as_ref()
    }

    /// Number of live elements in the queue.
    pub fn len(&self) -> (r: usize)
        requires
            self.wf(),
        ensures
            r == self.queue().len(),
    {
        let mut o: usize = 0;
        let mut count: usize = 0;
        while o < self.cap
            invariant
                self.wf(),
                o <= self.cap,
                count == live_of(self@.take(o as int)).len(),
            decreases self.cap - o,
        {
            proof {
                lemma_live_take_succ(self@, o as int);
                lemma_live_len(self@.take(o as int));
            }
            let p = self.real_pos(o);
            if self.buffer[p].is_some() {
                proof {
                    assert(self@[o as int] == self.slot(o as int));
                }
                count = count + 1;
            }
            o = o + 1;
        }
        proof {
            assert(self@.take(self.cap as int) =~= self@);
        }
        count
    }

    /// Gets the element at a queue-order index: index 0 is the first live
    /// element, holes are skipped. An index at or beyond the live count
    /// yields `None`.
    pub fn get(&self, pos: usize) -> (r: Option<&T>)
        requires
            self.wf(),
        ensures
            match r {
                Some(v) => pos < self.queue().len() && self.queue()[pos as int] == *v,
                None => pos >= self.queue().len(),
            },
    {
        if self.cap == 0 || pos >= self.cap {
            proof {
                lemma_live_len(self@);
            }
            return None;
        }
        let mut o: usize = 0;
        let mut cnt: usize = 0;
        while o < self.cap
            invariant
                self.wf(),
                o <= self.cap,
                cnt == live_of(self@.take(o as int)).len(),
                cnt <= pos,
            decreases self.cap - o,
        {
            proof {
                lemma_live_take_succ(self@, o as int);
            }
            let p = self.real_pos(o);
            proof {
                assert(self@[o as int] == self.slot(o as int));
            }
            match self.buffer[p].as_ref() {
                Some(v) => {
                    if cnt == pos {
                        proof {
                            lemma_live_index(self@, o as int);
                        }
                        return Some(v);
                    }
                    cnt = cnt + 1;
                },
                None => {},
            }
            o = o + 1;
        }
        proof {
            assert(self@.take(self.cap as int) =~= self@);
        }
        None
    }

    /// Removal core: empties the occupied slot at window offset `o`, returns
    /// its element, and shrinks the window from whichever end the removal
    /// left a hole on, so that only interior holes remain.
    fn take_at_offset(&mut self, o: usize) -> (r: T)
        requires
            old(self).wf(),
            o < old(self).spec_used(),
            old(self)@[o as int] is Some,
        ensures
            final(self).wf(),
            old(self)@[o as int] == Some(r),
            final(self)@ == trim(old(self)@.update(o as int, None)),
            final(self).queue() == old(self).queue().remove(
                old(self).live_index_at(o as int),
            ),
            0 <= old(self).live_index_at(o as int) < old(self).queue().len(),
            old(self).queue()[old(self).live_index_at(o as int)] == r,
            o > 0 ==> final(self).spec_head() == old(self).spec_head(),
            o == 0 ==> final(self).spec_head() == wrap_index(
                old(self).spec_head(),
                old(self).spec_used() - final(self).spec_used(),
                N as int,
            ),
    {
        proof {
            lemma_live_update_none(old(self)@, o as int);
            lemma_live_index(old(self)@, o as int);
            lemma_live_len(old(self)@.take(o as int));
        }
        let p = self.real_pos(o);
        let v = slot_take(&mut self.buffer, p);
        let ghost w0 = old(self)@.update(o as int, None);
        proof {
            assert forall|i: int| 0 <= i < N && i != o implies self.slot(i) == old(self).slot(i) by {
                lemma_wrap_index_injective(self.head as int, i, o as int, N as int);
            }
            assert(self.slot(o as int) is None);
            assert(self@ =~= w0);
        }
        if o == 0 {
            let ghost h0 = self.head;
            proof {
                assert(self@[0] is None);
                if w0.len() >= 2 {
                    assert(w0.last() == old(self)@[old(self).spec_used() - 1]);
                }
            }
            loop
                invariant_except_break
                    0 < self.cap,
                    self@[0] is None,
                invariant
                    N > 0,
                    self.buffer@.len() == N as int,
                    self.head < N,
                    self.cap <= N,
                    h0 < N,
                    self.cap <= w0.len() <= N,
                    self.head == wrap_index(h0 as int, w0.len() - self.cap, N as int),
                    trim_front(self@) == trim_front(w0),
                    forall|i: int| self.cap <= i < N ==> self.slot(i) is None,
                    self.cap > 0 ==> self@.last() == w0.last(),
                    w0.len() >= 2 ==> w0.last() is Some,
                ensures
                    self.buffer@.len() == N as int,
                    self.head < N,
                    self.cap <= N,
                    self.cap <= w0.len(),
                    self.head == wrap_index(h0 as int, w0.len() - self.cap, N as int),
                    self@ == trim_front(w0),
                    forall|i: int| self.cap <= i < N ==> self.slot(i) is None,
                    self.cap > 0 ==> self@[0] is Some && self@.last() == w0.last(),
                    w0.len() >= 2 ==> w0.last() is Some,
                decreases self.cap,
            {
                let ghost prev_self = *self;
                let ghost prev = self@;
                let h = self.head + 1;
                self.head = if h == N {
                    0
                } else {
                    h
                };
                self.cap = self.cap - 1;
                proof {
                    assert(prev[0] == prev_self.slot(0));
                    assert forall|i: int| 0 <= i < self.cap implies self.slot(i) == prev[i + 1] by {
                        assert(self.slot(i) == prev_self.slot(i + 1));
                    }
                    assert(self@ =~= prev.drop_first());
                    assert(trim_front(prev) == trim_front(prev.drop_first()));
                    assert forall|i: int| self.cap <= i < N implies self.slot(i) is None by {
                        if i < N - 1 {
                            assert(self.slot(i) == prev_self.slot(i + 1));
                        } else {
                            assert(self.slot(i) == prev_self.slot(0));
                        }
                    }
                    if self.cap > 0 {
                        assert(self@.last() == prev.last());
                    }
                }
                if self.cap == 0 {
                    break;
                }
                let hp = self.head;
                if self.buffer[hp].is_some() {
                    proof {
                        assert(self@[0] == self.slot(0));
                        assert(trim_front(self@) == self@);
                    }
                    break;
                }
                proof {
                    assert(self@[0] == self.slot(0));
                }
            }
            proof {
                lemma_live_trim_front(w0);
                lemma_trim_front_shape(w0);
                if self.cap > 0 {
                    if w0.len() == 1 {
                        assert(w0.drop_first().len() == 0);
                        assert(trim_front(w0.drop_first()) == w0.drop_first());
                        assert(trim_front(w0).len() == 0);
                    }
                    assert(w0.len() >= 2);
                    assert(self@.last() is Some);
                    assert(trim_back(self@) == self@);
                } else {
                    assert(self@ =~= Seq::<Option<T>>::empty());
                    assert(trim_back(self@) == self@);
                }
                assert(self@ == trim(w0));
            }
        } else if o == self.cap - 1 {
            proof {
                assert(w0[0] == old(self)@[0]);
                assert(w0[0] is Some);
            }
            loop
                invariant
                    N > 0,
                    self.buffer@.len() == N as int,
                    self.head == old(self).head,
                    self.head < N,
                    0 < self.cap <= N,
                    self@[0] == w0[0],
                    w0[0] is Some,
                    trim_back(self@) == trim_back(w0),
                    live_of(self@) == live_of(w0),
                    forall|i: int| self.cap <= i < N ==> self.slot(i) is None,
                ensures
                    self.buffer@.len() == N as int,
                    self.head == old(self).head,
                    self.head < N,
                    0 < self.cap <= N,
                    self@ == trim_back(w0),
                    live_of(self@) == live_of(w0),
                    forall|i: int| self.cap <= i < N ==> self.slot(i) is None,
                    self@[0] == w0[0],
                    self@.last() is Some,
                decreases self.cap,
            {
                let p2 = self.real_pos(self.cap - 1);
                if self.buffer[p2].is_some() {
                    proof {
                        assert(self@[self.cap - 1] == self.slot(self.cap - 1));
                        assert(trim_back(self@) == self@);
                    }
                    break;
                }
                let ghost prev_self = *self;
                let ghost prev = self@;
                proof {
                    assert(prev.last() == self.slot(self.cap - 1));
                    assert(prev.last() is None);
                    assert(self.cap > 1);
                }
                self.cap = self.cap - 1;
                proof {
                    assert forall|i: int| self.cap <= i < N implies self.slot(i) is None by {
                        assert(self.slot(i) == prev_self.slot(i));
                        if i == self.cap {
                            assert(prev_self.slot(i) == prev.last());
                        }
                    }
                    assert(self@ =~= prev.drop_last());
                    assert(trim_back(prev) == trim_back(prev.drop_last()));
                }
            }
            proof {
                lemma_live_trim_back(w0);
                assert(trim_front(w0) == w0);
                assert(self@ == trim(w0));
            }
        } else {
            proof {
                assert(w0[0] == old(self)@[0]);
                assert(w0.last() == old(self)@[old(self).spec_used() - 1]);
                lemma_trim_noop(w0);
            }
        }
        proof {
            if self.cap > 0 {
                assert(self@[0] is Some);
                assert(self@[self.cap - 1] == self@.last());
            }
        }
        v.unwrap()
    }

    /// Removes the contents of the slot at a signed slot-order position and
    /// returns it.
    ///
    /// A position outside `[-used, used)` or one resolving to a hole is a
    /// no-op yielding `None`. Removing the head or tail slot shrinks the
    /// window past any holes adjacent to that end; removing an interior slot
    /// leaves a hole in place and moves nothing.
    pub fn remove_at(&mut self, naive_pos: isize) -> (r: Option<T>)
        requires
            old(self).wf(),
        ensures
            final(self).wf(),
            match r {
                Some(v) => ({
                    let o = old(self).offset_of(naive_pos as int);
                    let j = old(self).live_index_at(o);
                    &&& old(self).spec_at(naive_pos as int) == Some(v)
                    &&& final(self)@ == trim(old(self)@.update(o, None))
                    &&& final(self).queue() == old(self).queue().remove(j)
                    &&& 0 <= j < old(self).queue().len()
                    &&& old(self).queue()[j] == v
                    &&& (o > 0 ==> final(self).spec_head() == old(self).spec_head())
                    &&& (o == 0 ==> final(self).spec_head() == wrap_index(
                        old(self).spec_head(),
                        old(self).spec_used() - final(self).spec_used(),
                        N as int,
                    ))
                }),
                None => old(self).spec_at(naive_pos as int) is None && *final(self) == *old(
                    self,
                ),
            },
    {
        let o = match self.resolve(naive_pos) {
            None => {
                return None;
            },
            Some(o) => o,
        };
        if o >= self.cap {
            return None;
        }
        let p = self.real_pos(o);
        if self.buffer[p].is_some() {
            proof {
                assert(self@[o as int] == self.slot(o as int));
            }
            let v = self.take_at_offset(o);
            Some(v)
        } else {
            proof {
                assert(self@[o as int] == self.slot(o as int));
            }
            None
        }
    }

    /// Removes and returns the first element of the queue, `None` when the
    /// queue is empty.
    pub fn pick(&mut self) -> (r: Option<T>)
        requires
            old(self).wf(),
        ensures
            final(self).wf(),
            match r {
                Some(v) => old(self).queue().len() > 0 && v == old(self).queue()[0]
                    && final(self).queue() == old(self).queue().drop_first() && final(self)@
                    == trim(old(self)@.update(0, None)) && final(self).spec_head() == wrap_index(
                    old(self).spec_head(),
                    old(self).spec_used() - final(self).spec_used(),
                    N as int,
                ),
                None => old(self).queue().len() == 0 && *final(self) == *old(self),
            },
    {
        proof {
            if old(self).spec_used() > 0 {
                lemma_live_index(old(self)@, 0);
                assert(old(self)@.take(0) =~= Seq::<Option<T>>::empty());
            } else {
                assert(old(self)@ =~= Seq::<Option<T>>::empty());
            }
        }
        let r = self.remove_at(0);
        proof {
            if r is Some {
                assert(old(self).queue().remove(0) =~= old(self).queue().drop_first());
            }
        }
        r
    }

    /// Removes and returns the element at a queue-order index: index 0 is
    /// the first live element, holes are skipped. An index at or beyond the
    /// live count is a no-op yielding `None`.
    pub fn remove(&mut self, pos: usize) -> (r: Option<T>)
        requires
            old(self).wf(),
        ensures
            final(self).wf(),
            match r {
                Some(v) => pos < old(self).queue().len() && old(self).queue()[pos as int] == v
                    && final(self).queue() == old(self).queue().remove(pos as int) && (exists|
                    o: int,
                |
                    0 <= o < old(self).spec_used() && old(self)@[o] is Some && old(
                        self,
                    ).live_index_at(o) == pos && final(self)@ == trim(
                        #[trigger] old(self)@.update(o, None),
                    ) && (o > 0 ==> final(self).spec_head() == old(self).spec_head()) && (o == 0
                        ==> final(self).spec_head() == wrap_index(
                        old(self).spec_head(),
                        old(self).spec_used() - final(self).spec_used(),
                        N as int,
                    ))),
                None => pos >= old(self).queue().len() && *final(self) == *old(self),
            },
    {
        if self.cap == 0 || pos >= self.cap {
            proof {
                lemma_live_len(self@);
            }
            return None;
        }
        let mut o: usize = 0;
        let mut cnt: usize = 0;
        while o < self.cap
            invariant
                self.wf(),
                *self == *old(self),
                o <= self.cap,
                cnt == live_of(self@.take(o as int)).len(),
                cnt <= pos,
            decreases self.cap - o,
        {
            proof {
                lemma_live_take_succ(self@, o as int);
            }
            let p = self.real_pos(o);
            proof {
                assert(self@[o as int] == self.slot(o as int));
            }
            if self.buffer[p].is_some() {
                if cnt == pos {
                    proof {
                        lemma_live_index(self@, o as int);
                    }
                    let ghost oo = o as int;
                    let v = self.take_at_offset(o);
                    proof {
                        assert(0 <= oo < old(self).spec_used() && old(self)@[oo] is Some && old(
                            self,
                        ).live_index_at(oo) == pos && self@ == trim(
                            old(self)@.update(oo, None),
                        ));
                    }
                    return Some(v);
                }
                cnt = cnt + 1;
            }
            o = o + 1;
        }
        proof {
            assert(self@.take(self.cap as int) =~= self@);
        }
        None
    }

    /// Whether every slot of the ring is occupied; callable only when the
    /// window spans the whole ring.
    fn all_occupied(&self) -> (b: bool)
        requires
            self.wf(),
            self.spec_used() == N as int,
        ensures
            b <==> self.queue().len() == N as int,
    {
        let mut o: usize = 0;
        while o < N
            invariant
                self.wf(),
                self.spec_used() == N as int,
                o <= N,
                forall|i: int| 0 <= i < o ==> self@[i] is Some,
            decreases N - o,
        {
            let p = self.real_pos(o);
            proof {
                assert(self@[o as int] == self.slot(o as int));
            }
            if self.buffer[p].is_none() {
                proof {
                    lemma_live_len_lt(self@, o as int);
                }
                return false;
            }
            o = o + 1;
        }
        proof {
            lemma_live_all_some(self@);
        }
        true
    }

    /// In-place compaction: relocates every live element leftwards (in slot
    /// order) over the holes, keeping queue order, then shrinks the window to
    /// exactly the live elements. Returns the physical index of the first
    /// slot freed, the insertion point for the element whose `push` ran it.
    fn compact(&mut self) -> (r: usize)
        requires
            old(self).wf(),
            old(self).spec_used() == N as int,
            old(self).queue().len() < N as int,
        ensures
            final(self).wf(),
            final(self).queue() == old(self).queue(),
            final(self)@ == as_slots(old(self).queue()),
            final(self).spec_used() == old(self).queue().len(),
            final(self).head == old(self).head,
            r == wrap_index(final(self).head as int, final(self).spec_used(), N as int),
            r < N,
    {
        proof {
            lemma_live_len(self@);
        }
        let ghost orig = self@;
        let mut read: usize = 0;
        let mut write: usize = 0;
        while read < N
            invariant
                N > 0,
                self.head == old(self).head,
                self.head < N,
                self.cap == N,
                self.buffer@.len() == N as int,
                orig == old(self)@,
                orig.len() == N as int,
                write <= read <= N,
                write == live_of(orig.take(read as int)).len(),
                forall|i: int|
                    0 <= i < write ==> self.slot(i) == Some(
                        live_of(orig.take(read as int))[i],
                    ),
                forall|i: int| write <= i < read ==> self.slot(i) is None,
                forall|i: int| read <= i < N ==> self.slot(i) == orig[i],
            decreases N - read,
        {
            let ghost prev_live = live_of(orig.take(read as int));
            proof {
                lemma_live_take_succ(orig, read as int);
                lemma_live_len(orig.take(read as int));
            }
            let rp = self.real_pos(read);
            proof {
                assert(self.slot(read as int) == orig[read as int]);
            }
            let ghost prev_self = *self;
            if self.buffer[rp].is_some() {
                if read != write {
                    let wp = self.real_pos(write);
                    proof {
                        lemma_wrap_index_injective(
                            self.head as int,
                            read as int,
                            write as int,
                            N as int,
                        );
                    }
                    let v = slot_take(&mut self.buffer, rp);
                    self.buffer[wp] = v;
                    proof {
                        assert forall|i: int|
                            0 <= i < N && i != read && i != write implies self.slot(i)
                            == prev_self.slot(i) by {
                            lemma_wrap_index_injective(self.head as int, i, read as int, N as int);
                            lemma_wrap_index_injective(self.head as int, i, write as int, N as int);
                        }
                        assert(self.slot(write as int) == orig[read as int]);
                        assert(self.slot(read as int) is None);
                    }
                }
                write = write + 1;
                read = read + 1;
                proof {
                    let nl = live_of(orig.take(read as int));
                    assert(nl == prev_live.push(orig[read - 1]->0));
                    assert(nl.len() == write);
                    assert forall|i: int| 0 <= i < write implies self.slot(i) == Some(nl[i]) by {
                        if i < write - 1 {
                            assert(self.slot(i) == prev_self.slot(i));
                            assert(prev_self.slot(i) == Some(prev_live[i]));
                        } else {
                            assert(self.slot(i) == orig[read - 1]);
                        }
                    }
                    assert forall|i: int| write <= i < read implies self.slot(i) is None by {
                        if i < read - 1 {
                            assert(self.slot(i) == prev_self.slot(i));
                        }
                    }
                    assert forall|i: int| read <= i < N implies self.slot(i) == orig[i] by {
                        assert(self.slot(i) == prev_self.slot(i));
                    }
                }
            } else {
                read = read + 1;
                proof {
                    assert(live_of(orig.take(read as int)) == prev_live);
                }
            }
        }
        proof {
            assert(orig.take(N as int) =~= orig);
        }
        let ghost done = *self;
        self.cap = write;
        let ghost live = live_of(orig);
        proof {
            assert forall|i: int| 0 <= i < write implies self.slot(i) == Some(live[i]) by {
                assert(self.slot(i) == done.slot(i));
            }
            assert(self@ =~= as_slots(live));
            lemma_live_all_some(self@);
            assert(live_of(self@) =~= live);
            assert forall|i: int| write <= i < N implies self.slot(i) is None by {
                assert(self.slot(i) == done.slot(i));
            }
            if write > 0 {
                assert(self@[0] is Some);
                assert(self@[write - 1] is Some);
            }
        }
        self.real_pos(write)
    }

    /// Inserts one element at the logical tail of the queue.
    ///
    /// When the window has a free slot past its end, the element goes there.
    /// When the window spans the whole ring but holes remain, compaction
    /// reclaims them first. When every slot is occupied the queue is at true
    /// capacity: the push fails and hands the element back unchanged, with
    /// the container untouched.
    pub fn push(&mut self, item: T) -> (r: Result<(), T>)
        requires
            old(self).wf(),
        ensures
            final(self).wf(),
            match r {
                Ok(()) => old(self).queue().len() < N && final(self).queue() == old(
                    self,
                ).queue().push(item) && final(self).spec_head() == old(self).spec_head() && (old(
                    self,
                ).spec_used() < N ==> final(self)@ == old(self)@.push(Some(item))) && (old(
                    self,
                ).spec_used() == N ==> final(self)@ == as_slots(old(self).queue()).push(
                    Some(item),
                )),
                Err(v) => v == item && old(self).queue().len() == N && *final(self) == *old(self),
            },
    {
        let target: usize;
        if self.cap == N {
            if self.all_occupied() {
                return Err(item);
            }
            proof {
                lemma_live_len(self@);
            }
            target = self.compact();
        } else {
            proof {
                lemma_live_len(self@);
            }
            target = self.real_pos(self.cap);
        }
        let ghost before = *self;
        self.buffer[target] = Some(item);
        self.cap = self.cap + 1;
        proof {
            assert forall|i: int| 0 <= i < N && i != before.cap implies self.slot(i)
                == before.slot(i) by {
                lemma_wrap_index_injective(self.head as int, i, before.cap as int, N as int);
            }
            assert(self.slot(before.cap as int) == Some(item));
            assert(self@ =~= before@.push(Some(item)));
            assert(before@.push(Some(item)).drop_last() =~= before@);
            assert(self.queue() == before.queue().push(item));
            if before.cap > 0 {
                assert(self@[0] == before@[0]);
            }
            assert forall|i: int| self.cap <= i < N implies self.slot(i) is None by {
                assert(self.slot(i) == before.slot(i));
            }
            assert(self@[self.cap - 1] is Some);
        }
        Ok(())
    }

    /// Creates an iterator over the live elements, in queue order, starting
    /// at the head. Each call starts afresh from the first element.
    pub fn iter(&self) -> (it: FrodoRingIterator<'_, T, N>)
        requires
            self.wf(),
        ensures
            it.wf(),
            it.ring() == *self,
            it.yielded() == 0,
    {
        let it = FrodoRingIterator { ring: self, naive_pos: 0 };
        proof {
            assert(self@.take(0) =~= Seq::<Option<T>>::empty());
        }
        it
    }

    /// Slot-order offset of the first live element satisfying the predicate,
    /// scanning the window from the head; `None` when no live element does.
    ///
    /// The returned offset is head-relative, so it can be handed directly to
    /// [`Self::at`] or [`Self::remove_at`] to fetch or remove the match.
    pub fn position<F: Fn(&T) -> bool>(&self, f: F) -> (r: Option<isize>)
        requires
            self.wf(),
            N <= isize::MAX as usize,
            forall|v: &T| #[trigger] f.requires((v,)),
        ensures
            match r {
                Some(o) => {
                    &&& 0 <= o < self.spec_used()
                    &&& self@[o as int] is Some
                    &&& f.ensures((&self@[o as int]->0,), true)
                    &&& forall|k: int|
                        0 <= k < o ==> (#[trigger] self@[k]) is None || f.ensures(
                            (&self@[k]->0,),
                            false,
                        )
                },
                None => forall|k: int|
                    0 <= k < self.spec_used() ==> (#[trigger] self@[k]) is None || f.ensures(
                        (&self@[k]->0,),
                        false,
                    ),
            },
    {
        let mut o: usize = 0;
        while o < self.cap
            invariant
                self.wf(),
                o <= self.cap,
                N <= isize::MAX as usize,
                forall|v: &T| #[trigger] f.requires((v,)),
                forall|k: int|
                    0 <= k < o ==> (#[trigger] self@[k]) is None || f.ensures(
                        (&self@[k]->0,),
                        false,
                    ),
            decreases self.cap - o,
        {
            let p = self.real_pos(o);
            proof {
                assert(self@[o as int] == self.slot(o as int));
            }
            match self.buffer[p].as_ref() {
                Some(v) => {
                    if f(v) {
                        return Some(o as isize);
                    }
                },
                None => {},
            }
            o = o + 1;
        }
        None
    }

    /// Number of used slots in the window, holes included.
    pub fn used(&self) -> (r: usize)
        ensures
            r == self.spec_used(),
    {
        self.cap
    }

    /// Whether the queue holds no element.
    pub fn is_empty(&self) -> (r: bool)
        requires
            self.wf(),
        ensures
            r <==> self.spec_used() == 0,
            r <==> self.queue().len() == 0,
    {
        proof {
            if self.cap > 0 {
                lemma_live_index(self@, 0);
            }
        }
        self.cap == 0
    }
}

impl<T, const N: usize> Default for FrodoRing<T, N> {
    /// Same as [`FrodoRing::new`]: an empty ring.
    fn default() -> (r: Self)
        ensures
            r.wf(),
            r@ == Seq::<Option<T>>::empty(),
            r.queue() == Seq::<T>::empty(),
    {
        Self::new()
    }
}

/// Relies on `format!` with `core::fmt::Debug`: renders one value the way
/// the type's own `Debug` implementation chooses to; nothing more is assumed
/// of the text.
#[verifier::external_body]
fn render_value<T: core::fmt::Debug>(v: &T) -> String {
    format!("{:?}", v)
}

impl<T: core::fmt::Debug, const N: usize> FrodoRing<T, N> {
    /// The opening of the diagnostic rendering: the live count, the head's
    /// physical index and the used window length, each in decimal.
    pub open spec fn debug_header(&self) -> Seq<char> {
        "Ring: occupied = "@ + decimal_digits(self.queue().len()) + ", head = "@ + decimal_digits(
            self.spec_head() as nat,
        ) + ", capacity = "@ + decimal_digits(self.spec_used() as nat) + "\nElements: [\n"@
    }

    /// Diagnostic rendering of the physical layout: the counters of
    /// [`Self::debug_header`], then one line per physical cell `0..N` in
    /// index order — the cell's value in its `Debug` form, or the explicit
    /// `None` marker for an empty cell — and a closing bracket. Only the
    /// per-value texts are left open: they come from the type's own `Debug`
    /// implementation.
    pub fn debug_string(&self) -> (r: String)
        requires
            self.wf(),
        ensures
            exists|texts: Seq<Seq<char>>|
                r@ == self.debug_header() + #[trigger] self.debug_lines(texts, N as int)
                    + "]\n"@,
            r@.len() >= self.debug_header().len(),
            r@.take(self.debug_header().len() as int) == self.debug_header(),
    {
        let live = self.len();
        let mut r = String::new();
        r.append("Ring: occupied = ");
        let s1 = render_usize(live);
        r.append(s1.as_str());
        r.append(", head = ");
        let s2 = render_usize(self.head);
        r.append(s2.as_str());
        r.append(", capacity = ");
        let s3 = render_usize(self.cap);
        r.append(s3.as_str());
        r.append("\nElements: [\n");
        proof {
            assert(r@ =~= self.debug_header());
        }
        let ghost hdr = r@;
        let ghost mut texts: Seq<Seq<char>> = Seq::empty();
        let mut i: usize = 0;
        while i < N
            invariant
                self.wf(),
                i <= N,
                texts.len() == i as int,
                hdr == self.debug_header(),
                r@ == hdr + self.debug_lines(texts, i as int),
            decreases N - i,
        {
            match self.buffer[i].as_ref() {
                Some(v) => {
                    r.append("\t");
                    let sv = render_value(v);
                    r.append(sv.as_str());
                    r.append(",\n");
                    proof {
                        self.lemma_debug_lines_extend(texts, sv@, i as int);
                        texts = texts.push(sv@);
                        assert(r@ =~= hdr + self.debug_lines(texts, i + 1));
                    }
                },
                None => {
                    r.append("\tNone,\n");
                    proof {
                        self.lemma_debug_lines_extend(texts, Seq::empty(), i as int);
                        texts = texts.push(Seq::empty());
                        assert(r@ =~= hdr + self.debug_lines(texts, i + 1));
                    }
                },
            }
            i = i + 1;
        }
        r.append("]\n");
        proof {
            assert(r@ =~= self.debug_header() + self.debug_lines(texts, N as int) + "]\n"@);
            assert(r@.take(self.debug_header().len() as int) =~= self.debug_header());
        }
        r
    }
}

/// An iterator handle over the live elements of a ring, in queue order.
///
/// It walks slot-order offsets upward and skips holes, so it yields exactly
/// the live elements, first to last. The ring is borrowed for the whole walk
/// and therefore cannot change under the iterator.
pub struct FrodoRingIterator<'ring, T, const N: usize> {
    ring: &'ring FrodoRing<T, N>,
    naive_pos: usize,
}

impl<'ring, T, const N: usize> FrodoRingIterator<'ring, T, N> {
    /// The ring this iterator walks.
    pub closed spec fn ring(&self) -> FrodoRing<T, N> {
        *self.ring
    }

    /// The iterator's cursor: the next slot-order offset to look at.
    pub closed spec fn cursor(&self) -> int {
        self.naive_pos as int
    }

    /// Well-formed iterator: its ring is well-formed and the cursor is
    /// within the window.
    pub open spec fn wf(&self) -> bool {
        &&& self.ring().wf()
        &&& 0 <= self.cursor() <= self.ring().spec_used()
    }

    /// Number of elements yielded so far: the live count of the slots the
    /// cursor has passed.
    pub open spec fn yielded(&self) -> int {
        live_of(self.ring()@.take(self.cursor())).len() as int
    }

    /// Yields the next live element in queue order, or `None` once every
    /// live element has been yielded.
    pub fn next(&mut self) -> (r: Option<&'ring T>)
        requires
            old(self).wf(),
        ensures
            final(self).wf(),
            final(self).ring() == old(self).ring(),
            match r {
                Some(v) => {
                    &&& old(self).yielded() < old(self).ring().queue().len()
                    &&& *v == old(self).ring().queue()[old(self).yielded()]
                    &&& final(self).yielded() == old(self).yielded() + 1
                },
                None => {
                    &&& old(self).yielded() == old(self).ring().queue().len()
                    &&& final(self).yielded() == old(self).yielded()
                },
            },
    {
        let ring: &'ring FrodoRing<T, N> = self.ring;
        while self.naive_pos < ring.cap
            invariant
                self.wf(),
                self.ring == old(self).ring,
                ring == old(self).ring,
                self.yielded() == old(self).yielded(),
            decreases ring.cap - self.naive_pos,
        {
            let o = self.naive_pos;
            proof {
                lemma_live_take_succ(ring@, o as int);
                assert(ring@[o as int] == ring.slot(o as int));
            }
            let p = ring.real_pos(o);
            self.naive_pos = o + 1;
            match ring.buffer[p].as_ref() {
                Some(v) => {
                    proof {
                        lemma_live_index(ring@, o as int);
                    }
                    return Some(v);
                },
                None => {},
            }
        }
        proof {
            assert(ring@.take(ring.cap as int) =~= ring@);
        }
        None
    }
}

} // verus!
