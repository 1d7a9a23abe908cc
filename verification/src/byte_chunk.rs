//! A fixed-width group of byte lanes with per-lane operations.
//!
//! A [`Chunk`] holds [`SIZE`] bytes and supports the handful of lane-wise
//! operations that the scanning engines need: broadcast, bitwise AND,
//! per-lane equality test, per-lane addition, and a horizontal sum.  Every
//! operation is defined lane by lane, independent of lane position, so the
//! engines can reason about one lane at a time.

use vstd::prelude::*;

verus! {

/// Number of byte lanes in a [`Chunk`].
pub const SIZE: usize = 16;

/// Largest number of per-lane additions that cannot wrap a lane, given that
/// every addend contributes at most 1 per lane: a lane holds values up to
/// `u8::MAX`, so up to 255 such additions are safe.
pub const MAX_ACC: usize = 255;

/// Sum of all bytes of a sequence, as an unbounded integer.
pub open spec fn byte_sum(s: Seq<u8>) -> int
    decreases s.len(),
{
    if s.len() == 0 {
        0
    } else {
        s[0] + byte_sum(s.skip(1))
    }
}

/// The byte sum of a concatenation is the sum of the byte sums.
pub proof fn lemma_byte_sum_concat(a: Seq<u8>, b: Seq<u8>)
    ensures
        byte_sum(a + b) == byte_sum(a) + byte_sum(b),
    decreases a.len(),
{
    if a.len() == 0 {
        assert(a + b =~= b);
    } else {
        assert((a + b).skip(1) =~= a.skip(1) + b);
        lemma_byte_sum_concat(a.skip(1), b);
    }
}

/// A sequence of zero bytes sums to zero.
pub proof fn lemma_byte_sum_zero(s: Seq<u8>)
    requires
        forall|i: int| 0 <= i < s.len() ==> s[i] == 0u8,
    ensures
        byte_sum(s) == 0,
    decreases s.len(),
{
    if s.len() > 0 {
        lemma_byte_sum_zero(s.skip(1));
    }
}

/// Summing lane-wise sums the byte sums: when `c` is the lane-wise sum of
/// `a` and `b` without wrapping, its byte sum is the sum of theirs.
pub proof fn lemma_byte_sum_lanewise_sum(a: Seq<u8>, b: Seq<u8>, c: Seq<u8>)
    requires
        a.len() == b.len(),
        a.len() == c.len(),
        forall|i: int| 0 <= i < a.len() ==> c[i] as int == a[i] + b[i],
    ensures
        byte_sum(c) == byte_sum(a) + byte_sum(b),
    decreases a.len(),
{
    if a.len() > 0 {
        lemma_byte_sum_lanewise_sum(a.skip(1), b.skip(1), c.skip(1));
    }
}

/// A fixed-width vector of [`SIZE`] byte lanes.
pub struct Chunk {
    lanes: [u8; 16],
}

impl View for Chunk {
    type V = Seq<u8>;

    closed spec fn view(&self) -> Seq<u8> {
        self.lanes@
    }
}

impl Chunk {
    /// A chunk with every lane zero.
    pub fn zero() -> (r: Chunk)
        ensures
            r@.len() == SIZE,
            forall|i: int| 0 <= i < SIZE ==> r@[i] == 0u8,
    {
        Chunk { lanes: [0u8; 16] }
    }

    /// A chunk with every lane set to `b`.
    pub fn splat(b: u8) -> (r: Chunk)
        ensures
            r@.len() == SIZE,
            forall|i: int| 0 <= i < SIZE ==> r@[i] == b,
    {
        Chunk { lanes: [b; 16] }
    }

    /// The chunk whose lanes are the bytes `bytes[offset .. offset + SIZE]`.
    pub fn from_slice(bytes: &[u8], offset: usize) -> (r: Chunk)
        requires
            offset + SIZE <= bytes@.len(),
        ensures
            r@ == bytes@.subrange(offset as int, offset as int + SIZE),
    {
        let len = bytes.len();
        let mut lanes: [u8; 16] = [0u8; 16];
        let mut k: usize = 0;
        while k < 16
            invariant
                k <= 16,
                offset + 16 <= len,
                len == bytes@.len(),
                forall|i: int| 0 <= i < k ==> lanes@[i] == bytes@[offset + i],
            decreases 16 - k,
        {
            lanes[k] = bytes[offset + k];
            k += 1;
        }
        let r = Chunk { lanes };
        proof {
            assert(r@ =~= bytes@.subrange(offset as int, offset as int + SIZE));
        }
        r
    }

    /// Lane-wise bitwise AND.
    pub fn bitand(&self, other: &Chunk) -> (r: Chunk)
        ensures
            r@.len() == SIZE,
            forall|i: int| 0 <= i < SIZE ==> r@[i] == (self@[i] & other@[i]),
    {
        let mut lanes: [u8; 16] = [0u8; 16];
        let mut k: usize = 0;
        while k < 16
            invariant
                k <= 16,
                forall|i: int| 0 <= i < k ==> lanes@[i] == (self@[i] & other@[i]),
            decreases 16 - k,
        {
            lanes[k] = self.lanes[k] & other.lanes[k];
            k += 1;
        }
        Chunk { lanes }
    }

    /// Lane-wise equality test: each lane of the result is 1 where the
    /// corresponding lane of `self` equals `b`, and 0 elsewhere.
    pub fn cmp_eq_byte(&self, b: u8) -> (r: Chunk)
        ensures
            r@.len() == SIZE,
            forall|i: int| 0 <= i < SIZE ==> r@[i] == (if self@[i] == b {
                1u8
            } else {
                0u8
            }),
    {
        let mut lanes: [u8; 16] = [0u8; 16];
        let mut k: usize = 0;
        while k < 16
            invariant
                k <= 16,
                forall|i: int|
                    0 <= i < k ==> lanes@[i] == (if self@[i] == b {
                        1u8
                    } else {
                        0u8
                    }),
            decreases 16 - k,
        {
            lanes[k] = if self.lanes[k] == b {
                1
            } else {
                0
            };
            k += 1;
        }
        Chunk { lanes }
    }

    /// Lane-wise addition, wrapping on per-lane overflow.  Callers that need
    /// exact sums must keep every lane's total at or below `u8::MAX`, which
    /// holds whenever at most [`MAX_ACC`] indicator chunks are accumulated.
    pub fn add(&self, other: &Chunk) -> (r: Chunk)
        ensures
            r@.len() == SIZE,
            forall|i: int|
                0 <= i < SIZE ==> r@[i] as int == (if self@[i] + other@[i] <= 255 {
                    self@[i] + other@[i]
                } else {
                    self@[i] + other@[i] - 256
                }),
    {
        let mut lanes: [u8; 16] = [0u8; 16];
        let mut k: usize = 0;
        while k < 16
            invariant
                k <= 16,
                forall|i: int|
                    0 <= i < k ==> lanes@[i] as int == (if self@[i] + other@[i] <= 255 {
                        self@[i] + other@[i]
                    } else {
                        self@[i] + other@[i] - 256
                    }),
            decreases 16 - k,
        {
            lanes[k] = self.lanes[k].wrapping_add(other.lanes[k]);
            k += 1;
        }
        Chunk { lanes }
    }

    /// Horizontal sum of all lanes.
    pub fn sum_bytes(&self) -> (r: usize)
        ensures
            r as int == byte_sum(self@),
    {
        let mut sum: usize = 0;
        let mut k: usize = 0;
        while k < 16
            invariant
                k <= 16,
                sum as int == byte_sum(self@.take(k as int)),
                sum <= 255 * k,
            decreases 16 - k,
        {
            proof {
                assert(self@.take(k + 1) =~= self@.take(k as int) + seq![self@[k as int]]);
                lemma_byte_sum_concat(self@.take(k as int), seq![self@[k as int]]);
                assert(byte_sum(seq![self@[k as int]]) == self@[k as int] + byte_sum(
                    seq![self@[k as int]].skip(1),
                ));
                assert(seq![self@[k as int]].skip(1) =~= Seq::<u8>::empty());
            }
            sum = sum + (self.lanes[k] as usize);
            k += 1;
        }
        proof {
            assert(self@.take(16) =~= self@);
        }
        sum
    }
}

} // verus!
