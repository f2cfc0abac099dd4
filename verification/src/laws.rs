//! Laws relating the queue's operations, stated and proved over the model
//! functions that the operations' contracts use.

use vstd::prelude::*;

verus! {

use crate::buffer::{can_enqueue, filtered, spec_dequeue, spec_enqueue};

/// Contents after enqueueing each value of `vs` in turn onto contents `s`,
/// over storage of capacity `cap`.
pub open spec fn enqueue_all<T>(s: Seq<T>, cap: int, vs: Seq<T>) -> Seq<T>
    decreases vs.len(),
{
    if vs.len() == 0 {
        s
    } else {
        enqueue_all(spec_enqueue(s, cap, vs[0]), cap, vs.drop_first())
    }
}

/// Contents after `k` dequeues on contents `s`.
pub open spec fn remaining_after<T>(s: Seq<T>, k: int) -> Seq<T>
    decreases k,
{
    if k <= 0 {
        s
    } else {
        spec_dequeue(remaining_after(s, k - 1)).1
    }
}

/// How many verdicts in `keep` are true.
pub open spec fn count_true(keep: Seq<bool>) -> int
    decreases keep.len(),
{
    if keep.len() == 0 {
        0
    } else {
        count_true(keep.drop_last()) + if keep.last() {
            1int
        } else {
            0int
        }
    }
}

/// Where the element at position `i` lands after filtering by `keep`: one
/// slot per kept element before it.
pub open spec fn kept_position(keep: Seq<bool>, i: int) -> int {
    count_true(keep.take(i))
}

/// While the combined lengths stay within the usable capacity `cap - 1`, a
/// run of enqueues drops nothing: the values are simply appended.
pub proof fn lemma_enqueue_all_appends<T>(s: Seq<T>, cap: int, vs: Seq<T>)
    requires
        s.len() + vs.len() <= cap - 1,
    ensures
        enqueue_all(s, cap, vs) == s + vs,
    decreases vs.len(),
{
    if vs.len() == 0 {
        assert(s + vs =~= s);
    } else {
        assert(spec_enqueue(s, cap, vs[0]) == s.push(vs[0]));
        lemma_enqueue_all_appends(s.push(vs[0]), cap, vs.drop_first());
        assert(s.push(vs[0]) + vs.drop_first() =~= s + vs);
    }
}

/// Filling within capacity: starting from an empty queue over storage of
/// capacity `cap`, a run of at most `cap - 1` enqueues is accepted at every
/// step, and after the first `k` of them the queue holds exactly the first
/// `k` values, in order.
pub proof fn lemma_fill_within_capacity<T>(vs: Seq<T>, cap: int, k: int)
    requires
        vs.len() <= cap - 1,
        0 <= k <= vs.len(),
    ensures
        enqueue_all(Seq::<T>::empty(), cap, vs.take(k)) == vs.take(k),
        enqueue_all(Seq::<T>::empty(), cap, vs.take(k)).len() == k,
        k < vs.len() ==> can_enqueue(enqueue_all(Seq::<T>::empty(), cap, vs.take(k)), cap),
{
    lemma_enqueue_all_appends(Seq::<T>::empty(), cap, vs.take(k));
    assert(Seq::<T>::empty() + vs.take(k) =~= vs.take(k));
}

/// First-in, first-out: enqueue the values of `vs` (at most `cap - 1` of
/// them) onto an empty queue, then dequeue with no enqueues in between.
/// Before the dequeues the queue holds exactly `vs`; after `j` of them it
/// holds the suffix `vs.skip(j)`, and the next dequeue yields `vs[j]` — the
/// values come back in exactly the order they went in.
pub proof fn lemma_fifo_round_trip<T>(vs: Seq<T>, cap: int, j: int)
    requires
        vs.len() <= cap - 1,
        0 <= j < vs.len(),
    ensures
        enqueue_all(Seq::<T>::empty(), cap, vs) == vs,
        remaining_after(vs, j) == vs.skip(j),
        spec_dequeue(remaining_after(vs, j)).0 == Some(vs[j]),
        spec_dequeue(remaining_after(vs, j)).1 == vs.skip(j + 1),
{
    lemma_enqueue_all_appends(Seq::<T>::empty(), cap, vs);
    assert(Seq::<T>::empty() + vs =~= vs);
    lemma_remaining_after_is_skip(vs, j);
    assert(vs.skip(j).drop_first() =~= vs.skip(j + 1));
}

/// After `k` dequeues (no more than the length), what remains of contents
/// `s` is exactly the suffix `s.skip(k)`.
pub proof fn lemma_remaining_after_is_skip<T>(s: Seq<T>, k: int)
    requires
        0 <= k <= s.len(),
    ensures
        remaining_after(s, k) == s.skip(k),
    decreases k,
{
    if k == 0 {
        assert(s.skip(0) =~= s);
    } else {
        lemma_remaining_after_is_skip(s, k - 1);
        assert(s.skip(k - 1).drop_first() =~= s.skip(k));
    }
}

/// Filtering keeps exactly as many elements as there are true verdicts: the
/// length after a retain is the number of elements the predicate accepted.
pub proof fn lemma_retain_length<T>(s: Seq<T>, keep: Seq<bool>)
    requires
        s.len() == keep.len(),
    ensures
        filtered(s, keep).len() == count_true(keep),
    decreases s.len(),
{
    if s.len() != 0 {
        lemma_retain_length(s.drop_last(), keep.drop_last());
    }
}

/// A retain whose predicate accepts everything is a no-op on the logical
/// contents: order and values are untouched.
pub proof fn lemma_retain_all_true<T>(s: Seq<T>, keep: Seq<bool>)
    requires
        s.len() == keep.len(),
        forall|m: int| 0 <= m < keep.len() ==> keep[m],
    ensures
        filtered(s, keep) == s,
    decreases s.len(),
{
    if s.len() != 0 {
        lemma_retain_all_true(s.drop_last(), keep.drop_last());
        assert(filtered(s.drop_last(), keep.drop_last()).push(s.last()) =~= s);
    }
}

/// One more verdict adds one to the count of true verdicts exactly when it
/// is true.
proof fn lemma_count_true_take_step(keep: Seq<bool>, i: int)
    requires
        0 <= i < keep.len(),
    ensures
        count_true(keep.take(i + 1)) == count_true(keep.take(i)) + if keep[i] {
            1int
        } else {
            0int
        },
{
    assert(keep.take(i + 1).drop_last() =~= keep.take(i));
}

/// The count of true verdicts never decreases as the prefix grows.
proof fn lemma_count_true_take_monotone(keep: Seq<bool>, x: int, y: int)
    requires
        0 <= x <= y <= keep.len(),
    ensures
        count_true(keep.take(x)) <= count_true(keep.take(y)),
    decreases y - x,
{
    if x < y {
        lemma_count_true_take_monotone(keep, x, y - 1);
        lemma_count_true_take_step(keep, y - 1);
    }
}

/// A kept element survives a retain: if the verdict on position `i` is true,
/// the element at `i` reappears in the filtered contents, at the position
/// given by the number of kept elements before it.
pub proof fn lemma_retain_keeps_element<T>(s: Seq<T>, keep: Seq<bool>, i: int)
    requires
        s.len() == keep.len(),
        0 <= i < s.len(),
        keep[i],
    ensures
        0 <= kept_position(keep, i) < filtered(s, keep).len(),
        filtered(s, keep)[kept_position(keep, i)] == s[i],
    decreases s.len(),
{
    lemma_retain_length(s, keep);
    if i == s.len() - 1 {
        lemma_retain_length(s.drop_last(), keep.drop_last());
        assert(keep.take(i) =~= keep.drop_last());
    } else {
        lemma_retain_keeps_element(s.drop_last(), keep.drop_last(), i);
        assert(keep.drop_last().take(i) =~= keep.take(i));
    }
}

/// Retain preserves relative order: of two kept elements, the earlier one
/// reappears at a strictly earlier position in the filtered contents.
pub proof fn lemma_retain_preserves_order<T>(s: Seq<T>, keep: Seq<bool>, a: int, b: int)
    requires
        s.len() == keep.len(),
        0 <= a < b < s.len(),
        keep[a],
        keep[b],
    ensures
        kept_position(keep, a) < kept_position(keep, b),
{
    lemma_count_true_take_step(keep, a);
    lemma_count_true_take_monotone(keep, a + 1, b);
}

/// When the verdicts agree pointwise with a predicate `p`, the filtered
/// contents are exactly the elements satisfying `p`, in their original
/// order.
pub proof fn lemma_retain_matches_predicate<T>(s: Seq<T>, keep: Seq<bool>, p: spec_fn(T) -> bool)
    requires
        s.len() == keep.len(),
        forall|m: int| 0 <= m < s.len() ==> keep[m] == p(s[m]),
    ensures
        filtered(s, keep) == s.filter(p),
    decreases s.len(),
{
    reveal(Seq::filter);
    if s.len() != 0 {
        lemma_retain_matches_predicate(s.drop_last(), keep.drop_last(), p);
    }
}

} // verus!
