//! The slot allocator and its ordinal index.
use vstd::prelude::*;
use crate::bits::{
    bit_of, bits_of, count_true, lemma_bit_clear, lemma_bit_set, lemma_bits_update, lemma_count_bounds,
    lemma_count_update, lemma_slot_in_byte, lemma_bit_uniform, lemma_bit_is_0_or_1, lemma_bits_push,
    lemma_count_append, byte_bits, fresh_byte, takes_slot, first_free_from, rank, lemma_count_push,
    lemma_bits_byte, set_bits, grown_len, padded, filled,
};

verus! {

/// Why a request on a [`BitIndex`] was refused.
#[derive(Debug, Clone, Copy, PartialEq, Eq, Structural)]
pub enum BitIndexError {
    /// The slot lies at or beyond the current capacity.
    IndexOutOfRange,
    /// The ordinal is not below the number of occupied slots.
    OrdinalOutOfRange,
}

/// A growth-only bitmap of slots: slot `i` is occupied when bit `i % 8` of
/// byte `i / 8` is set. Most operations scan the buffer, which is expected
/// to stay small (thousands of slots).
pub struct BitIndex {
    data: Vec<u8>,
    /// The slot at which the next search for a free slot starts.
    cursor: usize,
    /// The number of set bits.
    size: usize,
}

impl View for BitIndex {
    type V = Seq<bool>;

    /// Occupancy of each slot, by slot index; its length is the capacity.
    closed spec fn view(&self) -> Seq<bool> {
        bits_of(self.data@)
    }
}

impl BitIndex {
    /// The buffer's length in slots fits a `usize`, the count of set bits
    /// is kept exactly, and the cursor names a slot once there is one.
    pub closed spec fn wf(&self) -> bool {
        &&& self.data@.len() * 8 <= usize::MAX
        &&& self.size == count_true(self@)
        &&& self.data@.len() > 0 ==> self.cursor < self.data@.len() * 8
    }

    /// The capacity is always a whole number of bytes.
    pub proof fn lemma_capacity_whole_bytes(&self)
        ensures
            self@.len() % 8 == 0,
    {
    }

    /// The slot at which the next search for a free slot starts.
    pub closed spec fn scan_start(&self) -> int {
        self.cursor as int
    }

    pub fn new() -> (r: BitIndex)
        ensures
            r.wf(),
            r@ == Seq::<bool>::empty(),
    {
        let r = BitIndex { data: Vec::new(), cursor: 0, size: 0 };
        assert(r@ =~= Seq::<bool>::empty());
        r
    }

    /// How many slots are occupied.
    pub fn size(&self) -> (r: usize)
        requires
            self.wf(),
        ensures
            r == count_true(self@),
    {
        self.size
    }

    /// How many slots the buffer holds before it has to grow.
    pub fn total_size(&self) -> (r: usize)
        requires
            self.wf(),
        ensures
            r == self@.len(),
    {
        self.data.len() * 8
    }

    /// The first slot in `[from, to)` whose occupancy is `want`; a byte with
    /// no such bit is passed over whole.
    fn scan(&self, from: usize, to: usize, want: bool) -> (r: Option<usize>)
        requires
            self.wf(),
            from <= to <= self@.len(),
        ensures
            match r {
                Some(p) => {
                    &&& from <= p < to
                    &&& self@[p as int] == want
                    &&& forall|j: int| from <= j < p ==> self@[j] != want
                },
                None => forall|j: int| from <= j < to ==> self@[j] != want,
            },
    {
        let skip: u8 = if want { 0u8 } else { 0xffu8 };
        let mut pos: usize = from;
        while pos < to
            invariant
                self.wf(),
                skip == if want { 0u8 } else { 0xffu8 },
                from <= pos <= to <= self@.len(),
                forall|j: int| from <= j < pos ==> self@[j] != want,
            decreases to - pos,
        {
            let n = pos / 8;
            let byte = self.data[n];
            proof {
                lemma_slot_in_byte(pos as int, n as int);
            }
            if byte == skip {
                let next = (n + 1) * 8;
                proof {
                    assert forall|j: int| pos <= j < next implies self@[j] != want by {
                        lemma_slot_in_byte(j, n as int);
                        let k = (j % 8) as u8;
                        lemma_bit_uniform(k);
                        assert(self@[j] == bit_of(skip, k));
                        if want {
                            assert(!bit_of(0u8, k));
                        } else {
                            assert(bit_of(0xffu8, k));
                        }
                    }
                }
                pos = if next < to { next } else { to };
            } else {
                let k = (pos % 8) as u8;
                proof {
                    lemma_bit_is_0_or_1(byte, k);
                }
                if ((byte >> k) & 1u8 == 1u8) == want {
                    return Some(pos);
                }
                pos = pos + 1;
            }
        }
        None
    }

    /// Appends free bytes until slot `idx` lies within the buffer.
    fn grow_to_hold(&mut self, idx: usize)
        requires
            old(self).wf(),
            idx + 8 <= usize::MAX,
        ensures
            final(self).wf(),
            final(self)@ == padded(old(self)@, grown_len(old(self)@.len(), idx as nat)),
            old(self)@.len() > 0 ==> final(self).cursor == old(self).cursor,
    {
        let ghost old_bits = self@;
        let ghost old_len = self.data@.len();
        if self.data.len() == 0 {
            self.cursor = 0;
        }
        while self.data.len() * 8 <= idx
            invariant
                self.wf(),
                idx + 8 <= usize::MAX,
                old_len <= self.data@.len(),
                self.data@.len() > old_len ==> self.data@.len() <= idx / 8 + 1,
                old_len > 0 ==> self.cursor == old(self).cursor,
                old_len == 0 ==> self.cursor == 0,
                old_bits == bits_of(old(self).data@),
                old_len == old(self).data@.len(),
                self@ == padded(old_bits, self@.len()),
            decreases idx + 8 - self.data@.len() * 8,
        {
            proof {
                lemma_bits_push(self.data@, 0u8);
                lemma_count_append(self@, byte_bits(0u8));
                assert forall|k: int| 0 <= k < 8 implies !byte_bits(0u8)[k] by {
                    lemma_bit_uniform(k as u8);
                }
                lemma_count_bounds(byte_bits(0u8));
                assert(self@ + byte_bits(0u8) =~= padded(old_bits, self@.len() + 8));
            }
            self.data.push(0u8);
        }
        proof {
            assert(self@ =~= padded(old_bits, grown_len(old_bits.len(), idx as nat)));
        }
    }

    /// Sets slot `idx` to `v`, keeping the count and the cursor.
    fn put(&mut self, idx: usize, v: bool)
        requires
            old(self).wf(),
            idx < old(self)@.len(),
        ensures
            final(self).wf(),
            final(self)@ == old(self)@.update(idx as int, v),
            final(self).cursor == old(self).cursor,
    {
        let n = idx / 8;
        let k = (idx % 8) as u8;
        let byte = self.data[n];
        let was = (byte >> k) & 1u8 == 1u8;
        let nb = if v { byte | (1u8 << k) } else { byte & !(1u8 << k) };
        proof {
            lemma_slot_in_byte(idx as int, n as int);
            let old_bits = old(self)@;
            let new_data = self.data@.update(n as int, nb);
            lemma_bits_update(self.data@, n as int, nb);
            assert forall|j: u8| j < 8 implies bit_of(nb, j) == (if j == k { v } else { bit_of(byte, j) }) by {
                if v {
                    lemma_bit_set(byte, k, j);
                } else {
                    lemma_bit_clear(byte, k, j);
                }
            }
            assert forall|i: int| 0 <= i < old_bits.len() implies #[trigger] bits_of(new_data)[i] == old_bits.update(idx as int, v)[i] by {
                if 8 * n <= i < 8 * n + 8 {
                    lemma_slot_in_byte(i, n as int);
                    assert(bits_of(new_data)[8 * n + (i - 8 * n)] == bit_of(nb, (i - 8 * n) as u8));
                }
            }
            assert(bits_of(new_data) =~= old_bits.update(idx as int, v));
            lemma_count_update(old_bits, idx as int, v);
            lemma_count_bounds(old_bits);
        }
        self.data.set(n, nb);
        if was && !v {
            self.size = self.size - 1;
        } else if !was && v {
            self.size = self.size + 1;
        }
    }
}

impl BitIndex {
    /// Takes the next free slot, searching circularly from the cursor, and
    /// returns its index. A full buffer grows by one byte, whose first slot
    /// is taken.
    pub fn reserve_slot(&mut self) -> (r: usize)
        requires
            old(self).wf(),
            count_true(old(self)@) == old(self)@.len() ==> old(self)@.len() + 8 <= usize::MAX,
        ensures
            final(self).wf(),
            takes_slot(old(self)@, final(self)@, r as int),
            count_true(final(self)@) == count_true(old(self)@) + 1,
            final(self)@.len() >= old(self)@.len(),
            count_true(old(self)@) == old(self)@.len() ==> {
                &&& r == old(self)@.len()
                &&& final(self).scan_start() == r + 1
            },
            count_true(old(self)@) < old(self)@.len() ==> {
                &&& first_free_from(old(self)@, old(self).scan_start(), r as int)
                &&& final(self).scan_start() == if r + 1 == old(self)@.len() { 0 } else { r + 1 }
            },
    {
        let total = self.data.len() * 8;
        proof {
            lemma_count_bounds(self@);
        }
        if self.size == total {
            proof {
                lemma_bits_push(self.data@, 1u8);
                assert forall|k: int| 0 <= k < 8 implies byte_bits(1u8)[k] == fresh_byte()[k] by {
                    lemma_bit_uniform(k as u8);
                }
                assert(byte_bits(1u8) =~= fresh_byte());
                lemma_count_append(self@, fresh_byte());
                let rest = Seq::new(7, |k: int| false);
                assert(fresh_byte() =~= Seq::<bool>::empty().push(true) + rest);
                lemma_count_append(Seq::<bool>::empty().push(true), rest);
                lemma_count_push(Seq::<bool>::empty(), true);
                lemma_count_bounds(rest);
            }
            self.data.push(1u8);
            self.cursor = total + 1;
            self.size = self.size + 1;
            return total;
        }
        let start = self.cursor;
        let found = match self.scan(start, total, false) {
            Some(p) => p,
            None => {
                let wrapped = self.scan(0, start, false);
                match wrapped {
                    Some(p) => p,
                    None => {
                        // every slot is taken, which the count rules out
                        proof {
                            assert forall|j: int| 0 <= j < self@.len() implies self@[j] by {
                                if j < start {
                                    assert(self@[j]);
                                }
                            }
                        }
                        0
                    },
                }
            },
        };
        proof {
            lemma_count_update(self@, found as int, true);
        }
        self.put(found, true);
        self.cursor = if found + 1 == total { 0 } else { found + 1 };
        found
    }

    /// Frees slot `idx`; freeing a free slot changes nothing. A slot beyond
    /// the capacity is refused.
    pub fn remove(&mut self, idx: usize) -> (r: Result<(), BitIndexError>)
        requires
            old(self).wf(),
        ensures
            final(self).wf(),
            final(self).scan_start() == old(self).scan_start(),
            final(self)@.len() == old(self)@.len(),
            idx >= old(self)@.len() ==> {
                &&& r == Err::<(), BitIndexError>(BitIndexError::IndexOutOfRange)
                &&& final(self)@ == old(self)@
            },
            idx < old(self)@.len() ==> {
                &&& r == Ok::<(), BitIndexError>(())
                &&& final(self)@ == old(self)@.update(idx as int, false)
                &&& count_true(final(self)@) + (if old(self)@[idx as int] { 1int } else { 0int })
                    == count_true(old(self)@)
            },
    {
        if idx >= self.data.len() * 8 {
            return Err(BitIndexError::IndexOutOfRange);
        }
        proof {
            lemma_count_update(self@, idx as int, false);
        }
        self.put(idx, false);
        Ok(())
    }

    /// Marks slot `idx` occupied (`value`) or free. Occupying a slot beyond
    /// the capacity first grows the buffer, byte by byte, until it holds
    /// that slot; freeing one there changes nothing.
    pub fn set(&mut self, idx: usize, value: bool)
        requires
            old(self).wf(),
            value ==> idx + 8 <= usize::MAX,
        ensures
            final(self).wf(),
            final(self)@.len() >= old(self)@.len(),
            value ==> final(self)@ == padded(old(self)@, grown_len(old(self)@.len(), idx as nat)).update(
                idx as int,
                true,
            ),
            !value ==> final(self)@ == if idx < old(self)@.len() {
                old(self)@.update(idx as int, false)
            } else {
                old(self)@
            },
    {
        if value {
            self.grow_to_hold(idx);
            self.put(idx, true);
        } else if idx < self.data.len() * 8 {
            self.put(idx, false);
        }
    }

    /// Occupies every slot in `[from, to)`, growing the buffer, byte by
    /// byte, until it holds slot `to - 1`. An empty range changes nothing.
    pub fn add_range(&mut self, from: usize, to: usize)
        requires
            old(self).wf(),
            from < to ==> to + 7 <= usize::MAX,
        ensures
            final(self).wf(),
            final(self)@.len() >= old(self)@.len(),
            from < to ==> final(self)@ == filled(
                padded(old(self)@, grown_len(old(self)@.len(), (to - 1) as nat)),
                from as int,
                to as int,
            ),
            from >= to ==> final(self)@ == old(self)@,
    {
        if from >= to {
            return;
        }
        self.grow_to_hold(to - 1);
        let ghost base = self@;
        let mut i: usize = from;
        while i < to
            invariant
                self.wf(),
                from <= i <= to <= self@.len(),
                self@.len() == base.len(),
                self@ == filled(base, from as int, i as int),
            decreases to - i,
        {
            self.put(i, true);
            proof {
                assert(self@ =~= filled(base, from as int, i + 1));
            }
            i = i + 1;
        }
    }

    /// The smallest occupied slot at or after `start_idx`, if there is one.
    pub fn find_next(&self, start_idx: usize) -> (r: Option<usize>)
        requires
            self.wf(),
        ensures
            match r {
                Some(p) => {
                    &&& start_idx <= p < self@.len()
                    &&& self@[p as int]
                    &&& forall|j: int| start_idx <= j < p ==> !self@[j]
                },
                None => forall|j: int| start_idx <= j < self@.len() ==> !self@[j],
            },
    {
        let total = self.data.len() * 8;
        if start_idx >= total {
            return None;
        }
        self.scan(start_idx, total, true)
    }

    /// The slot of the `ordinal`-th occupied slot (counting from 0) in
    /// ascending slot order. An ordinal not below the number of occupied
    /// slots is refused.
    pub fn find_idx_by_ordinal(&self, ordinal: usize) -> (r: Result<usize, BitIndexError>)
        requires
            self.wf(),
        ensures
            match r {
                Ok(p) => {
                    &&& p < self@.len()
                    &&& self@[p as int]
                    &&& rank(self@, p as int) == ordinal
                },
                Err(e) => e == BitIndexError::OrdinalOutOfRange,
            },
            r is Err <==> ordinal >= count_true(self@),
    {
        if ordinal >= self.size {
            return Err(BitIndexError::OrdinalOutOfRange);
        }
        let len = self.data.len();
        let mut n: usize = 0;
        let mut seen: usize = 0;
        while n < len
            invariant
                self.wf(),
                len == self.data@.len(),
                ordinal < count_true(self@),
                n <= len,
                seen <= ordinal,
                seen == rank(self@, 8 * n),
            decreases len - n,
        {
            let byte = self.data[n];
            let here = set_bits(byte);
            proof {
                lemma_bits_byte(self.data@, n as int);
                assert(self@.subrange(0, 8 * n + 8) =~= self@.subrange(0, 8 * n as int) + self@.subrange(
                    8 * n as int,
                    8 * n + 8,
                ));
                lemma_count_append(self@.subrange(0, 8 * n as int), self@.subrange(8 * n as int, 8 * n + 8));
                lemma_count_bounds(byte_bits(byte));
                lemma_count_bounds(self@.subrange(0, 8 * n + 8));
            }
            if seen + (here as usize) > ordinal {
                let mut k: u8 = 0;
                let mut before: usize = seen;
                while k < 8
                    invariant
                        self.wf(),
                        n < len == self.data@.len(),
                        byte == self.data@[n as int],
                        k <= 8,
                        before <= ordinal,
                        before == rank(self@, 8 * n + k),
                        ordinal < seen + here,
                        ordinal < count_true(self@),
                        seen + here == rank(self@, 8 * n + 8),
                    decreases 8 - k,
                {
                    let p = n * 8 + k as usize;
                    proof {
                        lemma_slot_in_byte(p as int, n as int);
                        lemma_bit_is_0_or_1(byte, k);
                        assert(self@.subrange(0, p + 1) =~= self@.subrange(0, p as int).push(self@[p as int]));
                        lemma_count_push(self@.subrange(0, p as int), self@[p as int]);
                    }
                    if (byte >> k) & 1u8 == 1u8 {
                        if before == ordinal {
                            return Ok(p);
                        }
                        before = before + 1;
                    }
                    k = k + 1;
                }
            }
            seen = seen + here as usize;
            n = n + 1;
        }
        proof {
            assert(self@.subrange(0, 8 * len as int) =~= self@);
        }
        Err(BitIndexError::OrdinalOutOfRange)
    }
}

} // verus!
