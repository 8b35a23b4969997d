//! A growable bit vector backed by 32-bit words, most significant bit first.

use crate::ranges::{covers, lemma_covers_push, separated};
use std::ops::Range;
use vstd::prelude::*;

verus! {

/// Number of bits in one backing word.
pub const BITS: usize = 32;

/// Mask of the first (most significant) bit of a word.
pub const FIRST_BIT: u32 = 0x8000_0000;

/// Whether bit `k` (counted from the most significant end) of `w` is set.
pub open spec fn word_has(w: u32, k: u32) -> bool {
    (w & (0x8000_0000u32 >> k)) != 0
}

/// Setting bit `s` of `w` sets that bit and leaves the others.
proof fn lemma_word_or(w: u32, s: u32, k: u32)
    requires
        s < 32,
        k < 32,
    ensures
        word_has(w | (0x8000_0000u32 >> s), k) == (k == s || word_has(w, k)),
{
    assert(((w | (0x8000_0000u32 >> s)) & (0x8000_0000u32 >> k)) != 0 <==> (k == s || (w & (
    0x8000_0000u32 >> k)) != 0)) by (bit_vector)
        requires
            s < 32,
            k < 32,
    ;
}

/// Clearing bit `s` of `w` clears that bit and leaves the others.
proof fn lemma_word_and_not(w: u32, s: u32, k: u32)
    requires
        s < 32,
        k < 32,
    ensures
        word_has(w & !(0x8000_0000u32 >> s), k) == (k != s && word_has(w, k)),
{
    assert(((w & !(0x8000_0000u32 >> s)) & (0x8000_0000u32 >> k)) != 0 <==> (k != s && (w & (
    0x8000_0000u32 >> k)) != 0)) by (bit_vector)
        requires
            s < 32,
            k < 32,
    ;
}

/// A word whose first `k` bits are clear, and whose bit `k` is clear, has its
/// first `k + 1` bits clear.
proof fn lemma_word_top_step(c: u32, k: u32)
    requires
        k < 32,
        (c & !(0xFFFF_FFFFu32 >> k)) == 0,
        (c & (0x8000_0000u32 >> k)) == 0,
    ensures
        (c & !(0xFFFF_FFFFu32 >> ((k + 1) as u32))) == 0,
{
    let k1 = (k + 1) as u32;
    assert((c & !(0xFFFF_FFFFu32 >> k1)) == 0) by (bit_vector)
        requires
            k < 32,
            k1 == k + 1,
            (c & !(0xFFFF_FFFFu32 >> k)) == 0,
            (c & (0x8000_0000u32 >> k)) == 0,
    ;
}

/// A word with no bit set among its first `k` bits, for `k` up to 32.
proof fn lemma_word_top_clear(c: u32, k: u32)
    requires
        k <= 32,
        forall|j: u32| j < k ==> !word_has(c, j),
    ensures
        (c & !(0xFFFF_FFFFu32 >> k)) == 0,
    decreases k,
{
    if k == 0 {
        assert((c & !(0xFFFF_FFFFu32 >> 0u32)) == 0) by (bit_vector);
    } else {
        let k0 = (k - 1) as u32;
        lemma_word_top_clear(c, k0);
        assert(!word_has(c, k0));
        lemma_word_top_step(c, k0);
    }
}

/// A word with no bit set is zero.
pub proof fn lemma_word_zero(c: u32)
    requires
        forall|j: u32| j < 32 ==> !word_has(c, j),
    ensures
        c == 0,
{
    lemma_word_top_clear(c, 32);
    assert((c & !(0xFFFF_FFFFu32 >> 32u32)) == 0 ==> c == 0) by (bit_vector);
}

/// The zero word has no bit set.
proof fn lemma_word_none(k: u32)
    ensures
        !word_has(0, k),
{
    assert((0u32 & (0x8000_0000u32 >> k)) == 0) by (bit_vector);
}

/// Two words with the same bits are equal.
pub proof fn lemma_word_ext(a: u32, b: u32)
    requires
        forall|j: u32| j < 32 ==> word_has(a, j) == word_has(b, j),
    ensures
        a == b,
{
    assert forall|j: u32| j < 32 implies !word_has(a ^ b, j) by {
        assert(word_has(a, j) == word_has(b, j));
        assert(((a ^ b) & (0x8000_0000u32 >> j)) != 0 <==> (((a & (0x8000_0000u32 >> j)) != 0) != ((
        b & (0x8000_0000u32 >> j)) != 0))) by (bit_vector)
            requires
                j < 32,
        ;
    }
    lemma_word_zero(a ^ b);
    assert(a ^ b == 0 ==> a == b) by (bit_vector);
}

/// `a & b == a` holds exactly when every bit of `a` is a bit of `b`.
proof fn lemma_word_subset(a: u32, b: u32)
    ensures
        ((b & a) == a) <==> (forall|j: u32| j < 32 ==> word_has(a, j) ==> word_has(b, j)),
{
    if (b & a) == a {
        assert forall|j: u32| j < 32 && word_has(a, j) implies word_has(b, j) by {
            assert((b & a) == a && (a & (0x8000_0000u32 >> j)) != 0 ==> (b & (0x8000_0000u32 >> j))
                != 0) by (bit_vector);
        }
    } else {
        let c = a & !b;
        assert((b & a) != a ==> c != 0) by (bit_vector)
            requires
                c == a & !b,
        ;
        if forall|j: u32| j < 32 ==> word_has(a, j) ==> word_has(b, j) {
            assert forall|j: u32| j < 32 implies !word_has(c, j) by {
                assert(word_has(a, j) ==> word_has(b, j));
                assert(((a & (0x8000_0000u32 >> j)) != 0 ==> (b & (0x8000_0000u32 >> j)) != 0) ==> (
                c & (0x8000_0000u32 >> j)) == 0) by (bit_vector)
                    requires
                        c == a & !b,
                ;
            }
            lemma_word_zero(c);
        }
    }
}

/// A dynamically sized bit field.
///
/// Its view is the set of indices of its set bits; the number of backing words
/// (its capacity) is not part of the view, so two fields that differ only in
/// trailing zero words are equal.
pub struct BitField {
    values: Vec<u32>,
}

impl BitField {
    /// Whether bit `i` is set.
    pub closed spec fn has(&self, i: nat) -> bool {
        let p = i / 32;
        p < self.values.len() && word_has(self.values@[p as int], (i % 32) as u32)
    }

    /// The number of bits that can be held without growing.
    pub closed spec fn cap(&self) -> nat {
        (self.values.len() * 32) as nat
    }

    /// The capacity in bits fits in a `usize`.
    pub closed spec fn wf(&self) -> bool {
        self.values.len() <= usize::MAX / 32
    }

    /// The capacity is a whole number of words, and no bit at or beyond it
    /// is set.
    pub proof fn lemma_cap(&self)
        ensures
            self.cap() % 32 == 0,
            forall|i: nat| i >= self.cap() ==> !#[trigger] self@.contains(i),
    {
        assert forall|i: nat| i >= self.cap() implies !#[trigger] self@.contains(i) by {
            assert(i / 32 >= self.values.len());
        }
    }

    /// Create a new, empty [BitField].
    pub fn new() -> (r: Self)
        ensures
            r.wf(),
            r@ == Set::<nat>::empty(),
            r.cap() == 0,
    {
        let r = BitField { values: Vec::new() };
        assert(r@ =~= Set::<nat>::empty());
        r
    }

    /// Get the value of the bit at index `i`; bits beyond the capacity are clear.
    pub fn get(&self, i: usize) -> (r: bool)
        ensures
            r == self@.contains(i as nat),
            i >= self.cap() ==> !r,
    {
        let position = i / BITS;
        let shift = i % BITS;
        if position < self.values.len() {
            (self.values[position] & (FIRST_BIT >> (shift as u32))) != 0
        } else {
            false
        }
    }

    /// Set the value of the bit at index `i`, growing the field when a bit
    /// beyond the capacity is set.
    pub fn set(&mut self, i: usize, value: bool)
        requires
            old(self).wf(),
            value ==> i / 32 < usize::MAX / 32,
        ensures
            final(self).wf(),
            final(self)@ == (if value {
                old(self)@.insert(i as nat)
            } else {
                old(self)@.remove(i as nat)
            }),
            final(self).cap() == (if value && old(self).cap() <= i {
                (i / 32 + 1) * 32
            } else {
                old(self).cap() as int
            }),
    {
        let position = i / BITS;
        let shift = i % BITS;
        let bit = FIRST_BIT >> (shift as u32);
        let ghost pre = *self;
        if value {
            if self.values.len() <= position {
                self.extend_to_position(position);
            }
            let w = self.values[position];
            self.values.set(position, w | bit);
            assert forall|j: nat| #[trigger] self.has(j) == (j == i || pre.has(j)) by {
                if j / 32 == position {
                    assert(j == i <==> j % 32 == shift);
                    lemma_word_or(w, shift as u32, (j % 32) as u32);
                    if position >= pre.values.len() {
                        lemma_word_none((j % 32) as u32);
                    }
                } else if j / 32 < self.values.len() && j / 32 >= pre.values.len() {
                    lemma_word_none((j % 32) as u32);
                }
            }
        } else {
            if self.values.len() <= position {
                assert(self@ =~= old(self)@.remove(i as nat));
                return;
            }
            let w = self.values[position];
            self.values.set(position, w & !bit);
            assert forall|j: nat| #[trigger] self.has(j) == (j != i && pre.has(j)) by {
                if j / 32 == position {
                    assert(j == i <==> j % 32 == shift);
                    lemma_word_and_not(w, shift as u32, (j % 32) as u32);
                }
            }
        }
        assert(self@ =~= (if value {
            old(self)@.insert(i as nat)
        } else {
            old(self)@.remove(i as nat)
        }));
    }

    /// Create a new [BitField] able to hold at least `capacity` bits.
    pub fn with_capacity(capacity: usize) -> (r: Self)
        requires
            capacity <= usize::MAX - 31,
        ensures
            r.wf(),
            r@ == Set::<nat>::empty(),
            r.cap() == (capacity as int + 31) / 32 * 32,
    {
        let mut r = Self::new();
        r.ensure_capacity(capacity);
        r
    }

    /// Set all bits to zero, keeping the capacity.
    pub fn clear(&mut self)
        requires
            old(self).wf(),
        ensures
            final(self).wf(),
            final(self)@ == Set::<nat>::empty(),
            final(self).cap() == old(self).cap(),
    {
        let n = self.values.len();
        let mut k: usize = 0;
        while k < n
            invariant
                0 <= k <= n,
                n == self.values.len(),
                forall|j: int| 0 <= j < k ==> self.values@[j] == 0u32,
            decreases n - k,
        {
            self.values.set(k, 0);
            k += 1;
        }
        assert forall|i: nat| !self.has(i) by {
            if i / 32 < n {
                lemma_word_none((i % 32) as u32);
            }
        }
        assert(self@ =~= Set::<nat>::empty());
    }

    /// Grow the field so that it holds at least `capacity` bits; the set bits
    /// do not change.
    pub fn ensure_capacity(&mut self, capacity: usize)
        requires
            old(self).wf(),
            capacity <= usize::MAX - 31,
        ensures
            final(self).wf(),
            final(self)@ == old(self)@,
            final(self).cap() == (if old(self).cap() < capacity {
                (capacity as int + 31) / 32 * 32
            } else {
                old(self).cap() as int
            }),
    {
        if self.values.len() < (capacity / BITS) + (if capacity % BITS == 0 { 0 } else { 1 }) {
            let mut count = capacity / BITS;
            if count * BITS < capacity {
                count += 1;
            }
            let count = count - self.values.len();
            self.push_zero_words(count);
        }
    }

    /// Get the capacity of the [BitField] in bits.
    pub fn capacity(&self) -> (r: usize)
        requires
            self.wf(),
        ensures
            r == self.cap(),
    {
        self.values.len() * BITS
    }

    /// Reserve room for at least `count` more bits.
    pub fn reserve(&mut self, count: usize)
        requires
            old(self).wf(),
            old(self).cap() / 32 + (count as int + 31) / 32 <= usize::MAX / 32,
        ensures
            final(self).wf(),
            final(self)@ == old(self)@,
            final(self).cap() == old(self).cap() + (count as int + 31) / 32 * 32,
    {
        let mut new = count / BITS;
        if new * BITS < count {
            new += 1;
        }
        self.push_zero_words(new);
    }

    /// Append `count` zero words.
    fn push_zero_words(&mut self, count: usize)
        requires
            old(self).wf(),
            old(self).values.len() + count <= usize::MAX / 32,
        ensures
            final(self).wf(),
            final(self)@ == old(self)@,
            final(self).values.len() == old(self).values.len() + count,
    {
        let ghost pre = *self;
        let mut k: usize = 0;
        while k < count
            invariant
                0 <= k <= count,
                self.values.len() == pre.values.len() + k,
                pre.values.len() + count <= usize::MAX / 32,
                forall|j: int| 0 <= j < pre.values.len() ==> self.values@[j] == pre.values@[j],
                forall|j: int| pre.values.len() <= j < self.values.len() ==> self.values@[j] == 0u32,
            decreases count - k,
        {
            self.values.push(0);
            k += 1;
        }
        assert forall|i: nat| self.has(i) == pre.has(i) by {
            if i / 32 >= pre.values.len() && i / 32 < self.values.len() {
                lemma_word_none((i % 32) as u32);
            }
        }
        assert(self@ =~= pre@);
    }

    /// Check whether every set bit of this field is set in `other`.
    pub fn is_subset_of(&self, other: &BitField) -> (r: bool)
        ensures
            r == self@.subset_of(other@),
    {
        let n = self.values.len();
        let m = other.values.len();
        let mut k: usize = 0;
        while k < n
            invariant
                0 <= k <= n,
                n == self.values.len(),
                m == other.values.len(),
                forall|i: nat| i / 32 < k && #[trigger] self.has(i) ==> other.has(i),
            decreases n - k,
        {
            let mask = self.values[k];
            let bits = if k < m { other.values[k] } else { 0 };
            proof {
                lemma_word_subset(mask, bits);
            }
            if (bits & mask) != mask {
                let ghost j = choose|j: u32| j < 32 && word_has(mask, j) && !word_has(bits, j);
                proof {
                    let i: nat = (k * 32 + j) as nat;
                    assert(i / 32 == k && i % 32 == j);
                    assert(self.has(i));
                    if k >= m {
                        lemma_word_none(j);
                    }
                    assert(!other.has(i));
                    assert(!self@.contains(i) || !other@.contains(i));
                }
                return false;
            }
            assert forall|i: nat| i / 32 < k + 1 && #[trigger] self.has(i) implies other.has(i) by {
                if i / 32 == k {
                    let j = (i % 32) as u32;
                    assert(word_has(mask, j));
                    if k >= m {
                        lemma_word_none(j);
                    }
                }
            }
            k += 1;
        }
        assert forall|i: nat| self@.contains(i) implies other@.contains(i) by {
            assert(self.has(i));
        }
        true
    }

    /// Whether no bit is set.
    pub fn is_empty(&self) -> (r: bool)
        ensures
            r == (self@ == Set::<nat>::empty()),
    {
        let n = self.values.len();
        let mut k: usize = 0;
        while k < n
            invariant
                0 <= k <= n,
                n == self.values.len(),
                forall|j: int| 0 <= j < k ==> self.values@[j] == 0u32,
            decreases n - k,
        {
            if self.values[k] != 0 {
                proof {
                    let w = self.values@[k as int];
                    if forall|j: u32| j < 32 ==> !word_has(w, j) {
                        lemma_word_zero(w);
                    }
                    let j = choose|j: u32| j < 32 && word_has(w, j);
                    let i: nat = (k * 32 + j) as nat;
                    assert(i / 32 == k && i % 32 == j);
                    assert(self@.contains(i));
                }
                return false;
            }
            k += 1;
        }
        proof {
            assert forall|i: nat| !self.has(i) by {
                if i / 32 < n {
                    lemma_word_none((i % 32) as u32);
                }
            }
            assert(self@ =~= Set::<nat>::empty());
        }
        true
    }

    /// Make this field hold the same bits as `other`, keeping at least its own
    /// capacity.
    pub fn copy_from(&mut self, other: &BitField)
        requires
            old(self).wf(),
            other.wf(),
        ensures
            final(self).wf(),
            final(self)@ == other@,
            final(self).cap() >= other.cap(),
            final(self).cap() >= old(self).cap(),
    {
        let n = other.values.len();
        if self.values.len() < n {
            let extra = n - self.values.len();
            self.push_zero_words(extra);
        }
        let ghost len = self.values.len();
        let mut k: usize = 0;
        while k < self.values.len()
            invariant
                0 <= k <= self.values.len(),
                self.values.len() == len,
                n <= len <= usize::MAX / 32,
                n == other.values.len(),
                forall|j: int| 0 <= j < k ==> self.values@[j] == (if j < n {
                    other.values@[j]
                } else {
                    0u32
                }),
            decreases self.values.len() - k,
        {
            let w = if k < n { other.values[k] } else { 0 };
            self.values.set(k, w);
            k += 1;
        }
        assert forall|i: nat| self.has(i) == other.has(i) by {
            if i / 32 >= n && i / 32 < len {
                lemma_word_none((i % 32) as u32);
            }
        }
        assert(self@ =~= other@);
    }

    /// The ranges of consecutive set bits, in ascending order; two set bits on
    /// either side of a word boundary belong to one range.
    pub fn iter_ranges(&self) -> (r: Vec<Range<usize>>)
        requires
            self.wf(),
        ensures
            separated(r@),
            forall|i: nat| #[trigger] self@.contains(i) <==> covers(r@, i as int),
            forall|j: int| 0 <= j < r@.len() ==> #[trigger] r@[j].end <= self.cap(),
    {
        let cap = self.values.len() * BITS;
        let mut out: Vec<Range<usize>> = Vec::new();
        let mut pos: usize = 0;
        let mut run: Option<usize> = None;
        while pos < cap
            invariant
                cap == self.cap(),
                cap % 32 == 0,
                pos <= cap,
                separated(out@),
                forall|j: int| 0 <= j < out@.len() ==> #[trigger] out@[j].end <= pos,
                run is None ==> forall|j: int| 0 <= j < out@.len() ==> #[trigger] out@[j].end < pos,
                run matches Some(st) ==> st < pos && (forall|j: int|
                    0 <= j < out@.len() ==> #[trigger] out@[j].end < st) && (forall|k: nat|
                    st <= k < pos ==> #[trigger] self.has(k)),
                forall|i: nat|
                    i < pos ==> (#[trigger] self.has(i) <==> (covers(out@, i as int) || (
                    run matches Some(st) && st <= i))),
            decreases cap - pos,
        {
            let position = pos / BITS;
            if pos % BITS == 0 && run.is_none() && self.values[position] == 0 {
                proof {
                    assert forall|i: nat| pos <= i < pos + 32 implies !self.has(i) by {
                        assert(i / 32 == position);
                        lemma_word_none((i % 32) as u32);
                    }
                    assert forall|i: nat| i < pos + 32 implies (#[trigger] self.has(i) <==> (covers(
                        out@,
                        i as int,
                    ) || (run matches Some(st) && st <= i))) by {
                        if i >= pos {
                            if covers(out@, i as int) {
                                let j = choose|j: int|
                                    0 <= j < out@.len() && (#[trigger] out@[j]).start <= i < out@[j].end;
                                assert(out@[j].end <= pos);
                            }
                        }
                    }
                }
                pos = pos + BITS;
            } else {
                let b = self.get(pos);
                proof {
                    assert(self@.contains(pos as nat) == self.has(pos as nat));
                }
                match run {
                    None => {
                        if b {
                            run = Some(pos);
                        }
                    },
                    Some(st) => {
                        if !b {
                            let ghost old_out = out@;
                            out.push(Range { start: st, end: pos });
                            run = None;
                            proof {
                                assert forall|i: nat| i < pos + 1 implies (#[trigger] self.has(i)
                                    <==> covers(out@, i as int)) by {
                                    lemma_covers_push(old_out, Range { start: st, end: pos }, i as int);
                                }
                                assert forall|j: int, k: int|
                                    0 <= j < k < out@.len() implies #[trigger] out@[j].end < #[trigger] out@[k].start by {
                                    if k == out@.len() - 1 {
                                        assert(old_out[j].end < st);
                                    } else {
                                        assert(old_out[j].end < old_out[k].start);
                                    }
                                }
                            }
                        }
                    },
                }
                proof {
                    assert forall|i: nat| i < pos + 1 implies (#[trigger] self.has(i) <==> (covers(
                        out@,
                        i as int,
                    ) || (run matches Some(st) && st <= i))) by {
                        if i == pos && covers(out@, i as int) {
                            let j = choose|j: int|
                                0 <= j < out@.len() && (#[trigger] out@[j]).start <= i < out@[j].end;
                            assert(out@[j].end <= pos);
                        }
                    }
                }
                pos = pos + 1;
            }
        }
        if let Some(st) = run {
            let ghost old_out = out@;
            out.push(Range { start: st, end: cap });
            proof {
                assert forall|i: nat| i < cap implies (#[trigger] self.has(i) <==> covers(out@, i as int)) by {
                    lemma_covers_push(old_out, Range { start: st, end: cap }, i as int);
                }
                assert forall|j: int, k: int|
                    0 <= j < k < out@.len() implies #[trigger] out@[j].end < #[trigger] out@[k].start by {
                    if k == out@.len() - 1 {
                        assert(old_out[j].end < st);
                    } else {
                        assert(old_out[j].end < old_out[k].start);
                    }
                }
            }
        }
        proof {
            assert forall|i: nat| #[trigger] self@.contains(i) <==> covers(out@, i as int) by {
                if i >= cap {
                    if covers(out@, i as int) {
                        let j = choose|j: int|
                            0 <= j < out@.len() && (#[trigger] out@[j]).start <= i < out@[j].end;
                    }
                }
            }
        }
        out
    }

    /// Set the bits at all of `indices` to `VALUE`; every index lies within the
    /// capacity.
    pub fn set_batch_unchecked<const VALUE: bool>(&mut self, indices: &[usize])
        requires
            old(self).wf(),
            forall|k: int| 0 <= k < indices@.len() ==> (#[trigger] indices@[k]) < old(self).cap(),
        ensures
            final(self).wf(),
            final(self).cap() == old(self).cap(),
            forall|i: nat| #[trigger]
                final(self)@.contains(i) == (if exists|k: int|
                    0 <= k < indices@.len() && indices@[k] == i {
                    VALUE
                } else {
                    old(self)@.contains(i)
                }),
    {
        let ghost pre = *self;
        let mut n: usize = 0;
        while n < indices.len()
            invariant
                0 <= n <= indices@.len(),
                self.wf(),
                self.cap() == pre.cap(),
                forall|k: int| 0 <= k < indices@.len() ==> (#[trigger] indices@[k]) < pre.cap(),
                forall|i: nat| #[trigger]
                    self@.contains(i) == (if exists|k: int| 0 <= k < n && indices@[k] == i {
                        VALUE
                    } else {
                        pre@.contains(i)
                    }),
            decreases indices@.len() - n,
        {
            let i = indices[n];
            proof {
                assert(indices@[n as int] == i);
                assert(i / 32 < self.cap() / 32);
            }
            self.set(i, VALUE);
            proof {
                assert forall|j: nat| #[trigger]
                    self@.contains(j) == (if exists|k: int| 0 <= k < n + 1 && indices@[k] == j {
                        VALUE
                    } else {
                        pre@.contains(j)
                    }) by {
                    if j == i {
                        assert(indices@[n as int] == j);
                    } else if exists|k: int| 0 <= k < n + 1 && indices@[k] == j {
                        let k = choose|k: int| 0 <= k < n + 1 && indices@[k] == j;
                        assert(k < n);
                    }
                }
            }
            n += 1;
        }
    }

    /// Append zero words until the word at `position` exists.
    fn extend_to_position(&mut self, position: usize)
        requires
            old(self).values.len() <= position,
            position < usize::MAX / 32,
        ensures
            final(self).values@ =~= old(self).values@ + Seq::new(
                (position + 1 - old(self).values.len()) as nat,
                |k: int| 0u32,
            ),
    {
        let ghost start = self.values@;
        while self.values.len() <= position
            invariant
                start.len() <= self.values.len() <= position + 1,
                position < usize::MAX / 32,
                self.values@ =~= start + Seq::new(
                    (self.values.len() - start.len()) as nat,
                    |k: int| 0u32,
                ),
            decreases position + 1 - self.values.len(),
        {
            self.values.push(0);
        }
    }
}

/// Subset is transitive: if `a ⊆ b` and `b ⊆ c`, then `a ⊆ c`.
pub proof fn lemma_subset_transitive(a: &BitField, b: &BitField, c: &BitField)
    requires
        a@.subset_of(b@),
        b@.subset_of(c@),
    ensures
        a@.subset_of(c@),
{
}

impl PartialEq for BitField {
    /// Two fields are equal when they hold the same set bits, whatever their
    /// capacities.
    fn eq(&self, other: &BitField) -> (r: bool)
        ensures
            r == (self@ == other@),
    {
        let n = self.values.len();
        let m = other.values.len();
        let top = if n > m { n } else { m };
        let mut k: usize = 0;
        while k < top
            invariant
                0 <= k <= top,
                n == self.values.len(),
                m == other.values.len(),
                top == if n > m { n } else { m },
                forall|i: nat| i / 32 < k ==> #[trigger] self.has(i) == other.has(i),
            decreases top - k,
        {
            let a = if k < n { self.values[k] } else { 0 };
            let b = if k < m { other.values[k] } else { 0 };
            if a != b {
                proof {
                    if forall|j: u32| j < 32 ==> word_has(a, j) == word_has(b, j) {
                        lemma_word_ext(a, b);
                    }
                    let j = choose|j: u32| j < 32 && word_has(a, j) != word_has(b, j);
                    let i: nat = (k * 32 + j) as nat;
                    assert(i / 32 == k && i % 32 == j);
                    lemma_word_none(j);
                    assert(self.has(i) != other.has(i));
                    assert(self@.contains(i) != other@.contains(i));
                }
                return false;
            }
            proof {
                assert forall|i: nat| i / 32 < k + 1 implies #[trigger] self.has(i) == other.has(i) by {
                    if i / 32 == k {
                        lemma_word_none((i % 32) as u32);
                    }
                }
            }
            k += 1;
        }
        proof {
            assert forall|i: nat| #[trigger] self.has(i) == other.has(i) by {
                if i / 32 >= top {
                }
            }
            assert(self@ =~= other@);
        }
        true
    }
}

impl vstd::std_specs::cmp::PartialEqSpecImpl for BitField {
    open spec fn obeys_eq_spec() -> bool {
        true
    }

    open spec fn eq_spec(&self, other: &BitField) -> bool {
        self@ == other@
    }
}

impl View for BitField {
    type V = Set<nat>;

    closed spec fn view(&self) -> Set<nat> {
        Set::new(|i: nat| self.has(i))
    }
}

} // verus!
