//! The mathematical model of a bit buffer: each byte packs eight slots,
//! bit `b` of byte `B` standing for slot `8 * B + b`.
use vstd::prelude::*;

verus! {

/// Whether bit `k` (0 being the lowest) of `b` is set.
pub open spec fn bit_of(b: u8, k: u8) -> bool {
    (b >> k) & 1u8 == 1u8
}

/// The eight slots packed in one byte, lowest bit first.
pub open spec fn byte_bits(b: u8) -> Seq<bool> {
    Seq::new(8, |k: int| bit_of(b, k as u8))
}

/// The slots packed in a byte buffer.
pub open spec fn bits_of(data: Seq<u8>) -> Seq<bool> {
    Seq::new(data.len() * 8, |i: int| bit_of(data[i / 8], (i % 8) as u8))
}

/// The number of `true` entries of `s`.
pub open spec fn count_true(s: Seq<bool>) -> nat
    decreases s.len(),
{
    if s.len() == 0 {
        0
    } else {
        count_true(s.drop_last()) + if s.last() { 1nat } else { 0nat }
    }
}

/// The number of 1-bits in a byte.
pub fn set_bits(byte: u8) -> (r: u8)
    ensures
        r as nat == count_true(byte_bits(byte)),
{
    let mut r: u8 = 0;
    let mut k: u8 = 0;
    while k < 8
        invariant
            k <= 8,
            r <= k,
            r as nat == count_true(byte_bits(byte).subrange(0, k as int)),
        decreases 8 - k,
    {
        let bit = (byte >> k) & 1u8;
        proof {
            let s = byte_bits(byte);
            assert(s.subrange(0, k + 1).drop_last() =~= s.subrange(0, k as int));
            assert(bit == 0u8 || bit == 1u8) by (bit_vector)
                requires
                    bit == (byte >> k) & 1u8,
            ;
        }
        r = r + bit;
        k = k + 1;
    }
    proof {
        assert(byte_bits(byte).subrange(0, 8) =~= byte_bits(byte));
    }
    r
}

/// The number of set slots strictly below `p`: the ordinal of slot `p` when
/// it is set.
pub open spec fn rank(s: Seq<bool>, p: int) -> nat {
    count_true(s.subrange(0, p))
}

/// The byte that a fresh slot starts in: its first slot taken, the other
/// seven free.
pub open spec fn fresh_byte() -> Seq<bool> {
    Seq::new(8, |k: int| k == 0)
}

/// `t` is `s` with slot `r` newly taken: a free slot set, or, where the
/// buffer is full, the first slot of a fresh byte appended to it.
pub open spec fn takes_slot(s: Seq<bool>, t: Seq<bool>, r: int) -> bool {
    ||| (0 <= r < s.len() && !s[r] && t == s.update(r, true))
    ||| (r == s.len() && t == s + fresh_byte())
}

/// `r` is the first free slot that a scan of `s` meets when it starts at
/// slot `c` and wraps round from the last slot to slot 0.
pub open spec fn first_free_from(s: Seq<bool>, c: int, r: int) -> bool {
    &&& 0 <= r < s.len()
    &&& !s[r]
    &&& if c <= r {
        forall|j: int| c <= j < r ==> s[j]
    } else {
        &&& forall|j: int| c <= j < s.len() ==> s[j]
        &&& forall|j: int| 0 <= j < r ==> s[j]
    }
}

/// The capacity, in slots, of a buffer of `len` slots once it has grown
/// byte by byte until it holds slot `idx`.
pub open spec fn grown_len(len: nat, idx: nat) -> nat {
    if idx < len {
        len
    } else {
        (idx / 8 + 1) * 8
    }
}

/// `s` lengthened to `n` slots with free ones.
pub open spec fn padded(s: Seq<bool>, n: nat) -> Seq<bool> {
    Seq::new(n, |i: int| i < s.len() && s[i])
}

/// `s` with every slot in `[from, to)` taken.
pub open spec fn filled(s: Seq<bool>, from: int, to: int) -> Seq<bool> {
    Seq::new(s.len(), |i: int| (from <= i < to) || s[i])
}

/// Counts add up over a concatenation.
pub proof fn lemma_count_append(a: Seq<bool>, b: Seq<bool>)
    ensures
        count_true(a + b) == count_true(a) + count_true(b),
    decreases b.len(),
{
    if b.len() == 0 {
        assert(a + b =~= a);
    } else {
        assert((a + b).drop_last() =~= a + b.drop_last());
        lemma_count_append(a, b.drop_last());
    }
}

/// Appending one entry adds one to the count when it is set.
pub proof fn lemma_count_push(s: Seq<bool>, v: bool)
    ensures
        count_true(s.push(v)) == count_true(s) + if v { 1nat } else { 0nat },
{
    assert(s.push(v).drop_last() =~= s);
}

/// The count never exceeds the length; it reaches it exactly when every
/// entry is set, and is zero exactly when none is.
pub proof fn lemma_count_bounds(s: Seq<bool>)
    ensures
        count_true(s) <= s.len(),
        count_true(s) == s.len() <==> forall|j: int| 0 <= j < s.len() ==> s[j],
        count_true(s) == 0 <==> forall|j: int| 0 <= j < s.len() ==> !s[j],
    decreases s.len(),
{
    if s.len() > 0 {
        let t = s.drop_last();
        lemma_count_bounds(t);
        assert(forall|j: int| 0 <= j < t.len() ==> t[j] == s[j]);
        if count_true(s) == s.len() {
            assert forall|j: int| 0 <= j < s.len() implies s[j] by {
                if j < t.len() {
                    assert(t[j]);
                }
            }
        }
        if count_true(s) == 0 {
            assert forall|j: int| 0 <= j < s.len() implies !s[j] by {
                if j < t.len() {
                    assert(!t[j]);
                }
            }
        }
    }
}

/// Overwriting one entry moves the count by the difference.
pub proof fn lemma_count_update(s: Seq<bool>, i: int, v: bool)
    requires
        0 <= i < s.len(),
    ensures
        count_true(s.update(i, v)) + (if s[i] { 1int } else { 0int }) == count_true(s) + (if v { 1int } else { 0int }),
{
    let pre = s.subrange(0, i);
    let post = s.subrange(i + 1, s.len() as int);
    assert(s =~= pre.push(s[i]) + post);
    assert(s.update(i, v) =~= pre.push(v) + post);
    lemma_count_append(pre.push(s[i]), post);
    lemma_count_append(pre.push(v), post);
    lemma_count_push(pre, s[i]);
    lemma_count_push(pre, v);
}

/// Or-ing in bit `k` sets that bit and keeps the others.
pub proof fn lemma_bit_set(b: u8, k: u8, j: u8)
    requires
        k < 8,
        j < 8,
    ensures
        bit_of(b | (1u8 << k), j) == (j == k || bit_of(b, j)),
{
    assert(bit_of(b | (1u8 << k), j) == (j == k || bit_of(b, j))) by (bit_vector)
        requires
            k < 8,
            j < 8,
    ;
}

/// And-ing with the complement of bit `k` clears that bit and keeps the others.
pub proof fn lemma_bit_clear(b: u8, k: u8, j: u8)
    requires
        k < 8,
        j < 8,
    ensures
        bit_of(b & !(1u8 << k), j) == (j != k && bit_of(b, j)),
{
    assert(bit_of(b & !(1u8 << k), j) == (j != k && bit_of(b, j))) by (bit_vector)
        requires
            k < 8,
            j < 8,
    ;
}

/// A full byte has every bit set, an empty one none.
pub proof fn lemma_bit_uniform(j: u8)
    requires
        j < 8,
    ensures
        bit_of(0xffu8, j),
        !bit_of(0u8, j),
        bit_of(1u8, j) == (j == 0),
{
    assert(bit_of(0xffu8, j) && !bit_of(0u8, j) && bit_of(1u8, j) == (j == 0)) by (bit_vector)
        requires
            j < 8,
    ;
}

/// A shifted-and-masked bit is 0 or 1.
pub proof fn lemma_bit_is_0_or_1(b: u8, k: u8)
    ensures
        (b >> k) & 1u8 == 0u8 || (b >> k) & 1u8 == 1u8,
{
    assert((b >> k) & 1u8 == 0u8 || (b >> k) & 1u8 == 1u8) by (bit_vector);
}

/// Slot `i` sits in byte `i / 8`, at bit `i % 8`.
pub proof fn lemma_slot_in_byte(i: int, n: int)
    requires
        8 * n <= i < 8 * n + 8,
    ensures
        i / 8 == n,
        i % 8 == i - 8 * n,
{
}

/// Appending a byte appends its eight slots.
pub proof fn lemma_bits_push(data: Seq<u8>, b: u8)
    ensures
        bits_of(data.push(b)) =~= bits_of(data) + byte_bits(b),
{
    let n = data.len() as int;
    assert forall|i: int| 0 <= i < 8 * n + 8 implies #[trigger] bits_of(data.push(b))[i] == (bits_of(data) + byte_bits(b))[i] by {
        if i < 8 * n {
            assert(i / 8 < n);
        } else {
            lemma_slot_in_byte(i, n);
        }
    }
}

/// The slots of byte `n` are that byte's bits.
pub proof fn lemma_bits_byte(data: Seq<u8>, n: int)
    requires
        0 <= n < data.len(),
    ensures
        bits_of(data).subrange(8 * n, 8 * n + 8) =~= byte_bits(data[n]),
{
    assert forall|k: int| 0 <= k < 8 implies #[trigger] bits_of(data).subrange(8 * n, 8 * n + 8)[k] == byte_bits(data[n])[k] by {
        lemma_slot_in_byte(8 * n + k, n);
    }
}

/// Rewriting byte `n` rewrites its eight slots and no others.
pub proof fn lemma_bits_update(data: Seq<u8>, n: int, b: u8)
    requires
        0 <= n < data.len(),
    ensures
        bits_of(data.update(n, b)).len() == bits_of(data).len(),
        forall|i: int|
            0 <= i < bits_of(data).len() && (i < 8 * n || i >= 8 * n + 8) ==> #[trigger] bits_of(data.update(n, b))[i] == bits_of(data)[i],
        forall|k: int| 0 <= k < 8 ==> #[trigger] bits_of(data.update(n, b))[8 * n + k] == bit_of(b, k as u8),
{
    assert forall|i: int|
        0 <= i < bits_of(data).len() && (i < 8 * n || i >= 8 * n + 8) implies #[trigger] bits_of(data.update(n, b))[i] == bits_of(data)[i] by {
        if i < 8 * n {
            assert(i / 8 < n);
        } else {
            assert(i / 8 > n);
        }
    }
    assert forall|k: int| 0 <= k < 8 implies #[trigger] bits_of(data.update(n, b))[8 * n + k] == bit_of(b, k as u8) by {
        lemma_slot_in_byte(8 * n + k, n);
    }
}

} // verus!
