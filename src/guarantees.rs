//! What holds across calls of a `BitIndex`, stated over
//! the occupancy sequences that its operations' contracts speak of.
use vstd::prelude::*;
use crate::bits::{
    count_true, fresh_byte, lemma_count_append, lemma_count_bounds, lemma_count_push, lemma_count_update, padded,
    rank, takes_slot,
};

verus! {

/// Taking a slot never shrinks the buffer and never frees a slot; the slot
/// taken is then occupied.
pub proof fn lemma_take_keeps(s: Seq<bool>, t: Seq<bool>, r: int)
    requires
        takes_slot(s, t, r),
    ensures
        t.len() >= s.len(),
        0 <= r < t.len(),
        t[r],
        forall|p: int| 0 <= p < s.len() && s[p] ==> t[p],
{
    if r == s.len() {
        assert(t[r] == fresh_byte()[0]);
    }
}

/// Taking a slot and then freeing it gives back the occupied count from
/// before and the same occupancy (the buffer may have grown by free slots);
/// a slot taken after that was not occupied before either.
pub proof fn lemma_take_then_free(s: Seq<bool>, t: Seq<bool>, r: int, t2: Seq<bool>, r2: int)
    requires
        takes_slot(s, t, r),
        takes_slot(t.update(r, false), t2, r2),
    ensures
        count_true(t.update(r, false)) == count_true(s),
        t.update(r, false) == padded(s, t.len()),
        r2 >= s.len() || !s[r2],
{
    let u = t.update(r, false);
    lemma_take_keeps(s, t, r);
    lemma_count_update(t, r, false);
    if r < s.len() {
        lemma_count_update(s, r, true);
        assert(u =~= padded(s, t.len()));
    } else {
        lemma_count_append(s, fresh_byte());
        let rest = Seq::new(7, |k: int| false);
        assert(fresh_byte() =~= Seq::<bool>::empty().push(true) + rest);
        lemma_count_append(Seq::<bool>::empty().push(true), rest);
        lemma_count_push(Seq::<bool>::empty(), true);
        lemma_count_bounds(rest);
        assert(u =~= padded(s, t.len()));
    }
    if 0 <= r2 < s.len() {
        assert(u[r2] == s[r2]);
    }
}

/// Slots taken one after another, with nothing freed between, are pairwise
/// distinct: `states[i + 1]` is `states[i]` with `slots[i]` taken.
pub proof fn lemma_takes_distinct(states: Seq<Seq<bool>>, slots: Seq<int>)
    requires
        states.len() == slots.len() + 1,
        forall|i: int| 0 <= i < slots.len() ==> takes_slot(states[i], #[trigger] states[i + 1], slots[i]),
    ensures
        forall|i: int, j: int| 0 <= i < j < slots.len() ==> slots[i] != slots[j],
{
    assert forall|i: int, j: int| 0 <= i < j < slots.len() implies slots[i] != slots[j] by {
        lemma_taken_stays(states, slots, i, j);
        assert(takes_slot(states[j], states[j + 1], slots[j]));
    }
}

/// A slot taken at step `i` is still occupied at any later step `j`.
proof fn lemma_taken_stays(states: Seq<Seq<bool>>, slots: Seq<int>, i: int, j: int)
    requires
        states.len() == slots.len() + 1,
        forall|i: int| 0 <= i < slots.len() ==> takes_slot(states[i], #[trigger] states[i + 1], slots[i]),
        0 <= i < j <= slots.len(),
    ensures
        0 <= slots[i] < states[j].len(),
        states[j][slots[i]],
    decreases j - i,
{
    if j == i + 1 {
        assert(takes_slot(states[i], states[i + 1], slots[i]));
        lemma_take_keeps(states[i], states[i + 1], slots[i]);
    } else {
        let k = j - 1;
        lemma_taken_stays(states, slots, i, k);
        assert(takes_slot(states[k], states[k + 1], slots[k]));
        lemma_take_keeps(states[k], states[k + 1], slots[k]);
    }
}

/// An occupied slot's ordinal is below the occupied count, and ordinals
/// follow slot order: among occupied slots, the one with the smaller index
/// has the smaller ordinal, so each ordinal names exactly one slot.
pub proof fn lemma_ordinal_order(s: Seq<bool>, p: int, q: int)
    requires
        0 <= p < s.len(),
        0 <= q < s.len(),
        s[p],
        s[q],
    ensures
        rank(s, p) < count_true(s),
        p < q <==> rank(s, p) < rank(s, q),
        p == q <==> rank(s, p) == rank(s, q),
{
    lemma_rank_grows(s, p, s.len() as int);
    assert(s.subrange(0, s.len() as int) =~= s);
    if p < q {
        lemma_rank_grows(s, p, q);
    } else if q < p {
        lemma_rank_grows(s, q, p);
    }
}

/// Past an occupied slot `p`, the rank has grown by at least one.
proof fn lemma_rank_grows(s: Seq<bool>, p: int, q: int)
    requires
        0 <= p < q <= s.len(),
        s[p],
    ensures
        rank(s, p) < count_true(s.subrange(0, q)),
{
    let head = s.subrange(0, p + 1);
    let tail = s.subrange(p + 1, q);
    assert(s.subrange(0, q) =~= head + tail);
    assert(head =~= s.subrange(0, p).push(s[p]));
    lemma_count_append(head, tail);
    lemma_count_push(s.subrange(0, p), s[p]);
}

/// The first occupied slot is the one of ordinal 0.
pub proof fn lemma_first_is_ordinal_zero(s: Seq<bool>, p: int)
    requires
        0 <= p < s.len(),
        s[p],
    ensures
        rank(s, p) == 0 <==> forall|j: int| 0 <= j < p ==> !s[j],
{
    let head = s.subrange(0, p);
    lemma_count_bounds(head);
    assert(forall|j: int| 0 <= j < p ==> head[j] == s[j]);
}

} // verus!
