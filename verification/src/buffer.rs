//! The circular buffer itself: a bounded FIFO queue over fixed storage.
//!
//! The queue is modelled by a mathematical sequence (`view`) holding the live
//! elements from oldest to newest.  A buffer over storage of capacity `N`
//! keeps at most `N - 1` elements: the slot just before `head` (circularly)
//! stays free, which is what lets `head == tail` mean "empty" rather than
//! "full".

use vstd::arithmetic::div_mod::{lemma_mod_multiples_vanish, lemma_small_mod};
use vstd::prelude::*;

verus! {

/// The circular position `i` steps into storage of length `n`, for `i` below
/// `2 * n`: positions past the end wrap around to the start.
pub open spec fn wrap_index(i: int, n: int) -> int {
    if i < n {
        i
    } else {
        i - n
    }
}

/// For offsets below `2 * n`, reduction modulo `n` is a single wrap.
proof fn lemma_mod_is_wrap(x: int, n: int)
    requires
        1 <= n,
        0 <= x < 2 * n,
    ensures
        x % n == wrap_index(x, n),
{
    if x < n {
        lemma_small_mod(x as nat, n as nat);
    } else {
        lemma_mod_multiples_vanish(1, x - n, n);
        lemma_small_mod((x - n) as nat, n as nat);
    }
}

/// Whether a queue whose contents are `s`, over storage of capacity `cap`,
/// has room for one more element (at most `cap - 1` slots are ever occupied).
pub open spec fn can_enqueue<T>(s: Seq<T>, cap: int) -> bool {
    s.len() < cap - 1
}

/// Contents after an enqueue of `v`: appended when there is room, unchanged
/// when the queue is full.
pub open spec fn spec_enqueue<T>(s: Seq<T>, cap: int, v: T) -> Seq<T> {
    if can_enqueue(s, cap) {
        s.push(v)
    } else {
        s
    }
}

/// Outcome of a dequeue on contents `s`: the oldest element and the remaining
/// contents, or absence on an empty queue.
pub open spec fn spec_dequeue<T>(s: Seq<T>) -> (Option<T>, Seq<T>) {
    if s.len() == 0 {
        (None, s)
    } else {
        (Some(s[0]), s.drop_first())
    }
}

/// The subsequence of `s` at the positions where `keep` is true, in order.
/// `keep` records, element by element, the verdict of a retain predicate.
pub open spec fn filtered<T>(s: Seq<T>, keep: Seq<bool>) -> Seq<T>
    recommends
        s.len() == keep.len(),
    decreases s.len(),
{
    if s.len() == 0 {
        Seq::empty()
    } else {
        let rest = filtered(s.drop_last(), keep.drop_last());
        if keep.last() {
            rest.push(s.last())
        } else {
            rest
        }
    }
}

/// Extending both the elements and the verdicts by one step extends the
/// filtered subsequence exactly when the new verdict is true.
proof fn lemma_filtered_push<T>(s: Seq<T>, keep: Seq<bool>, x: T, b: bool)
    requires
        s.len() == keep.len(),
    ensures
        filtered(s.push(x), keep.push(b)) == if b {
            filtered(s, keep).push(x)
        } else {
            filtered(s, keep)
        },
{
    assert(s.push(x).drop_last() =~= s);
    assert(keep.push(b).drop_last() =~= keep);
}

/// A bounded FIFO queue laid out circularly in a fixed-size storage vector.
///
/// `head` is the index of the oldest occupied slot; `tail` is the index one
/// past the newest, i.e. the next slot to write.  `head == tail` means empty;
/// the queue is full when one more enqueue would make `tail` reach `head`,
/// so usable capacity is one less than the storage length.
pub struct RingBuffer<T> {
    ring: Vec<T>,
    head: usize,
    tail: usize,
}

impl<T> RingBuffer<T> {
    /// The storage length `N`; the queue holds at most `N - 1` elements.
    pub closed spec fn capacity(self) -> int {
        self.ring@.len() as int
    }

    /// Structural well-formedness: non-trivial storage and in-bounds cursors.
    pub closed spec fn wf(self) -> bool {
        &&& self.ring@.len() >= 1
        &&& self.head < self.ring@.len()
        &&& self.tail < self.ring@.len()
    }

    /// Number of live elements, from the two cursors.
    closed spec fn spec_len(self) -> int {
        if self.tail >= self.head {
            self.tail - self.head
        } else {
            self.ring@.len() - self.head + self.tail
        }
    }
}

impl<T> View for RingBuffer<T> {
    type V = Seq<T>;

    /// The live elements, oldest first: slot `head + i` (circularly) holds
    /// element `i`.
    closed spec fn view(&self) -> Seq<T> {
        Seq::new(
            self.spec_len() as nat,
            |i: int| self.ring@[wrap_index(self.head + i, self.ring@.len() as int)],
        )
    }
}

/// A well-formed queue always has room for its reserved slot: the contents
/// never fill the whole storage.
pub proof fn lemma_len_below_capacity<T>(q: &RingBuffer<T>)
    requires
        q.wf(),
    ensures
        q@.len() < q.capacity(),
{
}

impl<T: Copy> RingBuffer<T> {
    /// Binds the queue to the given storage, initially empty.  The storage
    /// must have at least one slot (one slot always stays free).
    pub fn new(ring: Vec<T>) -> (q: RingBuffer<T>)
        requires
            ring@.len() >= 1,
        ensures
            q.wf(),
            q@ == Seq::<T>::empty(),
            q.capacity() == ring@.len(),
    {
        let q = RingBuffer { head: 0, tail: 0, ring };
        proof {
            assert(q@ =~= Seq::<T>::empty());
        }
        q
    }

    /// True exactly when the queue holds at least one element.
    pub fn has_elements(&self) -> (r: bool)
        requires
            self.wf(),
        ensures
            r == (self@.len() != 0),
    {
        self.head != self.tail
    }

    /// True exactly when the queue holds its maximum of `capacity() - 1`
    /// elements, i.e. when the next enqueue would be rejected.
    pub fn is_full(&self) -> (r: bool)
        requires
            self.wf(),
        ensures
            r == !can_enqueue(self@, self.capacity()),
            r == (self@.len() == self.capacity() - 1),
    {
        let n = self.ring.len();
        proof {
            lemma_mod_is_wrap(self.tail + 1, n as int);
        }
        self.head == (self.tail + 1) % n
    }

    /// Attempts to insert `val` as the newest element.  On a full queue the
    /// insertion is rejected and the queue is left entirely unchanged; this
    /// is a capacity-control signal, not a fault.
    pub fn enqueue(&mut self, val: T) -> (r: bool)
        requires
            old(self).wf(),
        ensures
            final(self).wf(),
            final(self).capacity() == old(self).capacity(),
            r == can_enqueue(old(self)@, old(self).capacity()),
            final(self)@ == spec_enqueue(old(self)@, old(self).capacity(), val),
            !r ==> *final(self) == *old(self),
    {
        let n = self.ring.len();
        proof {
            lemma_mod_is_wrap(self.tail + 1, n as int);
        }
        if (self.tail + 1) % n == self.head {
            // Incrementing tail would make it collide with head.
            false
        } else {
            self.ring[self.tail] = val;
            self.tail = (self.tail + 1) % n;
            proof {
                assert(self@ =~= old(self)@.push(val));
            }
            true
        }
    }

    /// Removes and returns the oldest element, or reports absence on an
    /// empty queue, which is then left entirely unchanged.
    pub fn dequeue(&mut self) -> (r: Option<T>)
        requires
            old(self).wf(),
        ensures
            final(self).wf(),
            final(self).capacity() == old(self).capacity(),
            r == spec_dequeue(old(self)@).0,
            final(self)@ == spec_dequeue(old(self)@).1,
            old(self)@.len() == 0 ==> *final(self) == *old(self),
    {
        if self.has_elements() {
            let n = self.ring.len();
            let val = self.ring[self.head];
            proof {
                lemma_mod_is_wrap(self.head + 1, n as int);
            }
            self.head = (self.head + 1) % n;
            proof {
                assert(self@ =~= old(self)@.drop_first());
            }
            Some(val)
        } else {
            None
        }
    }

    /// Discards all contents in one step by resetting both cursors; storage
    /// slots are not touched, their stale contents are simply no longer live.
    pub fn empty(&mut self)
        requires
            old(self).wf(),
        ensures
            final(self).wf(),
            final(self).capacity() == old(self).capacity(),
            final(self)@ == Seq::<T>::empty(),
    {
        self.head = 0;
        self.tail = 0;
        proof {
            assert(self@ =~= Seq::<T>::empty());
        }
    }

    /// Compacts the queue in place, keeping exactly the elements for which
    /// `f` answers true, in their original FIFO order; the rest are dropped.
    /// `head` never moves: survivors are shifted toward `head` to close gaps,
    /// and `tail` is pulled back to just past the last survivor.
    ///
    /// The predicate is an arbitrary function value, so its verdicts are only
    /// known through its postcondition: the contract exposes the recorded
    /// verdict sequence and states that the new contents are exactly the old
    /// ones filtered by it.
    pub fn retain<F: Fn(&T) -> bool>(&mut self, f: F)
        requires
            old(self).wf(),
            forall|i: int| 0 <= i < old(self)@.len() ==> call_requires(f, (&old(self)@[i],)),
        ensures
            final(self).wf(),
            final(self).capacity() == old(self).capacity(),
            (exists|keep: Seq<bool>|
                {
                    &&& keep.len() == old(self)@.len()
                    &&& (forall|i: int|
                        0 <= i < keep.len() ==> call_ensures(f, (&old(self)@[i],), #[trigger] keep[i]))
                    &&& final(self)@ == #[trigger] filtered(old(self)@, keep)
                }),
    {
        let n = self.ring.len();
        let ghost orig = self@;
        let ghost head0 = self.head as int;
        let ghost tail0 = self.tail as int;
        let ghost len0 = orig.len() as int;

        // Index over the elements before the retain operation.
        let mut src = self.head;
        // Index over the retained elements.
        let mut dst = self.head;

        let ghost mut i: int = 0;
        let ghost mut keep: Seq<bool> = Seq::empty();
        let ghost mut kept: Seq<T> = Seq::empty();

        proof {
            assert(orig.take(0) =~= Seq::<T>::empty());
        }

        while src != self.tail
            invariant
                self.wf(),
                self.ring@.len() == n as int,
                self.head as int == head0,
                self.tail as int == tail0,
                orig.len() == len0,
                0 <= len0 < n as int,
                tail0 == wrap_index(head0 + len0, n as int),
                0 <= i <= len0,
                keep.len() == i,
                kept.len() <= i,
                kept == filtered(orig.take(i), keep),
                src as int == wrap_index(head0 + i, n as int),
                dst as int == wrap_index(head0 + kept.len(), n as int),
                forall|m: int|
                    0 <= m < kept.len() ==> self.ring@[wrap_index(head0 + m, n as int)] == kept[m],
                forall|m: int|
                    i <= m < len0 ==> self.ring@[wrap_index(head0 + m, n as int)] == orig[m],
                forall|m: int| 0 <= m < i ==> call_ensures(f, (&orig[m],), #[trigger] keep[m]),
                forall|m: int| 0 <= m < len0 ==> call_requires(f, (&orig[m],)),
            decreases len0 - i,
        {
            let elem = self.ring[src];
            proof {
                assert(self.ring@[wrap_index(head0 + i, n as int)] == orig[i]);
            }
            let keep_it = f(&elem);
            if keep_it {
                // Move the current element to the destination if needed, and
                // advance the destination index.
                if src != dst {
                    self.ring[dst] = elem;
                }
                proof {
                    lemma_mod_is_wrap(dst + 1, n as int);
                }
                dst = (dst + 1) % n;
            }
            proof {
                lemma_mod_is_wrap(src + 1, n as int);
            }
            src = (src + 1) % n;
            proof {
                lemma_filtered_push(orig.take(i), keep, orig[i], keep_it);
                assert(orig.take(i + 1) =~= orig.take(i).push(orig[i]));
                keep = keep.push(keep_it);
                if keep_it {
                    kept = kept.push(elem);
                }
                i = i + 1;
            }
        }

        proof {
            assert(i == len0);
            assert(orig.take(len0) =~= orig);
        }
        self.tail = dst;
        proof {
            assert(self@ =~= kept);
        }
    }

    /// The number of elements currently held.
    pub fn len(&self) -> (r: usize)
        requires
            self.wf(),
        ensures
            r == self@.len(),
    {
        if self.tail > self.head {
            self.tail - self.head
        } else if self.tail < self.head {
            (self.ring.len() - self.head) + self.tail
        } else {
            0
        }
    }
}

} // verus!
