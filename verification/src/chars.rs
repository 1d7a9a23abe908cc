//! Index by chars.
//!
//! Character counting and the two index translations over UTF-8 text.  A
//! character start is any byte that is not a UTF-8 continuation byte, so
//! counting characters is counting the bytes whose top two bits are not
//! `10`.

use crate::byte_chunk::{byte_sum, lemma_byte_sum_lanewise_sum, Chunk, MAX_ACC, SIZE};
use vstd::prelude::*;
use vstd::string::StringSliceAdditionalSpecFns;
use vstd::utf8::*;

verus! {

/// Number of character-start bytes of `bytes`: the bytes that are not UTF-8
/// continuation bytes.  On well-formed UTF-8 this is the number of encoded
/// characters.
pub open spec fn count_chars(bytes: Seq<u8>) -> nat
    decreases bytes.len(),
{
    if bytes.len() == 0 {
        0
    } else {
        (if is_continuation_byte(bytes[0]) {
            0nat
        } else {
            1nat
        }) + count_chars(bytes.skip(1))
    }
}

/// Character counts add over concatenation.
pub proof fn lemma_count_chars_concat(a: Seq<u8>, b: Seq<u8>)
    ensures
        count_chars(a + b) == count_chars(a) + count_chars(b),
    decreases a.len(),
{
    if a.len() == 0 {
        assert(a + b =~= b);
    } else {
        assert((a + b).skip(1) =~= a.skip(1) + b);
        lemma_count_chars_concat(a.skip(1), b);
    }
}

/// A sequence has at most as many character starts as bytes.
pub proof fn lemma_count_chars_le_len(bytes: Seq<u8>)
    ensures
        count_chars(bytes) <= bytes.len(),
    decreases bytes.len(),
{
    if bytes.len() > 0 {
        lemma_count_chars_le_len(bytes.skip(1));
    }
}

/// Character count of a single byte.
proof fn lemma_count_chars_singleton(b: u8)
    ensures
        count_chars(seq![b]) == (if is_continuation_byte(b) {
            0nat
        } else {
            1nat
        }),
{
    reveal_with_fuel(count_chars, 2);
    assert(seq![b].skip(1) =~= Seq::<u8>::empty());
}

/// Splitting a subrange at an interior point splits its character count.
proof fn lemma_count_chars_subrange_split(s: Seq<u8>, p: int, q: int, r: int)
    requires
        0 <= p <= q <= r <= s.len(),
    ensures
        count_chars(s.subrange(p, r)) == count_chars(s.subrange(p, q)) + count_chars(
            s.subrange(q, r),
        ),
{
    assert(s.subrange(p, r) =~= s.subrange(p, q) + s.subrange(q, r));
    lemma_count_chars_concat(s.subrange(p, q), s.subrange(q, r));
}

/// Extending a prefix by one byte extends its character count by that byte's
/// contribution.
proof fn lemma_count_chars_take_step(s: Seq<u8>, i: int)
    requires
        0 <= i < s.len(),
    ensures
        count_chars(s.take(i + 1)) == count_chars(s.take(i)) + (if is_continuation_byte(s[i]) {
            0nat
        } else {
            1nat
        }),
{
    assert(s.take(i + 1) =~= s.take(i) + seq![s[i]]);
    lemma_count_chars_concat(s.take(i), seq![s[i]]);
    lemma_count_chars_singleton(s[i]);
}

/// The byte sum of a continuation-indicator sequence is the number of
/// continuation bytes of the data it was computed from.
proof fn lemma_byte_sum_indicator(ind: Seq<u8>, data: Seq<u8>)
    requires
        ind.len() == data.len(),
        forall|i: int|
            0 <= i < ind.len() ==> ind[i] == (if is_continuation_byte(data[i]) {
                1u8
            } else {
                0u8
            }),
    ensures
        byte_sum(ind) + count_chars(data) == data.len(),
    decreases ind.len(),
{
    if ind.len() > 0 {
        lemma_byte_sum_indicator(ind.skip(1), data.skip(1));
    }
}

/// Longer prefixes hold at least as many character starts.
proof fn lemma_count_chars_take_monotone(s: Seq<u8>, i: int, j: int)
    requires
        0 <= i <= j <= s.len(),
    ensures
        count_chars(s.take(i)) <= count_chars(s.take(j)),
{
    assert(s.take(j) =~= s.take(i) + s.subrange(i, j));
    lemma_count_chars_concat(s.take(i), s.subrange(i, j));
}

/// Byte offset of the start of the character with index `char_idx`, by the
/// naive per-byte scan: bytes are consumed one at a time, counting
/// character starts, until consuming one more byte would move the count
/// past `char_idx`.  When `char_idx` is at or past the total character
/// count, every byte is consumed and the result is the byte length.
pub open spec fn byte_index_of(bytes: Seq<u8>, char_idx: int) -> int
    decreases bytes.len(),
{
    if bytes.len() == 0 {
        0
    } else if char_idx <= 0 && !is_continuation_byte(bytes[0]) {
        0
    } else {
        1 + byte_index_of(
            bytes.skip(1),
            char_idx - if is_continuation_byte(bytes[0]) {
                0int
            } else {
                1int
            },
        )
    }
}

/// Index of the character that contains byte `byte_idx`: one less than the
/// number of character starts at or before it.  A `byte_idx` at or past the
/// end yields the one-past-the-end character index.
pub open spec fn char_index_of(bytes: Seq<u8>, byte_idx: int) -> int
    recommends
        valid_utf8(bytes),
        0 <= byte_idx,
{
    if byte_idx >= bytes.len() {
        count_chars(bytes) as int
    } else {
        count_chars(bytes.take(byte_idx + 1)) - 1
    }
}

/// What [`byte_index_of`] returns: the byte length when `char_idx` is out
/// of range, and otherwise the unique character-start byte with exactly
/// `char_idx` character starts before it.
pub proof fn lemma_byte_index_of_properties(bytes: Seq<u8>, n: int)
    requires
        0 <= n,
    ensures
        0 <= byte_index_of(bytes, n) <= bytes.len(),
        n >= count_chars(bytes) ==> byte_index_of(bytes, n) == bytes.len(),
        n < count_chars(bytes) ==> byte_index_of(bytes, n) < bytes.len()
            && !is_continuation_byte(bytes[byte_index_of(bytes, n)]) && count_chars(
            bytes.take(byte_index_of(bytes, n)),
        ) == n,
    decreases bytes.len(),
{
    if bytes.len() == 0 {
    } else if n <= 0 && !is_continuation_byte(bytes[0]) {
        assert(bytes.take(0) =~= Seq::<u8>::empty());
    } else {
        let ind0: int = if is_continuation_byte(bytes[0]) {
            0
        } else {
            1
        };
        let tail = bytes.skip(1);
        lemma_byte_index_of_properties(tail, n - ind0);
        let b1 = byte_index_of(tail, n - ind0);
        assert(byte_index_of(bytes, n) == 1 + b1);
        assert(bytes.take(1 + b1) =~= seq![bytes[0]] + tail.take(b1));
        lemma_count_chars_concat(seq![bytes[0]], tail.take(b1));
        lemma_count_chars_singleton(bytes[0]);
    }
}

/// A character-start byte with exactly `n` character starts before it is
/// where [`byte_index_of`] sends `n`.
pub proof fn lemma_byte_index_of_unique(bytes: Seq<u8>, n: int, b: int)
    requires
        0 <= b < bytes.len(),
        !is_continuation_byte(bytes[b]),
        count_chars(bytes.take(b)) == n,
    ensures
        byte_index_of(bytes, n) == b,
{
    lemma_count_chars_take_step(bytes, b);
    lemma_count_chars_take_monotone(bytes, b + 1, bytes.len() as int);
    assert(bytes.take(bytes.len() as int) =~= bytes);
    assert(count_chars(bytes) >= n + 1);
    lemma_byte_index_of_properties(bytes, n);
    let b1 = byte_index_of(bytes, n);
    if b1 < b {
        lemma_count_chars_take_step(bytes, b1);
        lemma_count_chars_take_monotone(bytes, b1 + 1, b);
        assert(false);
    } else if b < b1 {
        lemma_count_chars_take_monotone(bytes, b + 1, b1);
        assert(false);
    }
}

/// On well-formed UTF-8 the character-start bytes are in one-to-one
/// correspondence with the encoded characters, so counting them counts the
/// decoded character sequence.
pub proof fn lemma_count_chars_decoded(bytes: Seq<u8>)
    requires
        valid_utf8(bytes),
    ensures
        count_chars(bytes) == decode_utf8(bytes).len(),
    decreases bytes.len(),
{
    if bytes.len() > 0 {
        let k = length_of_first_scalar(bytes);
        let head = take_first_scalar(bytes);
        let tail = pop_first_scalar(bytes);
        assert(1 <= k <= bytes.len());
        lemma_count_chars_subrange_split(bytes, 0, k, bytes.len() as int);
        assert(bytes.subrange(0, bytes.len() as int) =~= bytes);
        assert(count_chars(head) == 1) by {
            reveal_with_fuel(count_chars, 5);
            assert(head.len() == k);
            assert(head[0] == bytes[0]);
            assert(!is_continuation_byte(head[0]));
            assert(forall|i: int| 1 <= i < k ==> is_continuation_byte(#[trigger] head[i]));
        }
        lemma_count_chars_decoded(tail);
    }
}

/// Whether `b` is a UTF-8 continuation byte, tested as the scanner does:
/// by masking the top two bits.
fn is_cont_byte(b: u8) -> (r: bool)
    ensures
        r == is_continuation_byte(b),
{
    proof {
        utf8_byte_ranges_bitwise(b);
    }
    (b & 0xC0) == 0x80
}

/// Continuation bytes in `bytes[from .. to]`, counted byte by byte.
fn cont_bytes_in_range(bytes: &[u8], from: usize, to: usize) -> (r: usize)
    requires
        from <= to,
        to <= bytes@.len(),
    ensures
        r + count_chars(bytes@.subrange(from as int, to as int)) == to - from,
{
    let mut r: usize = 0;
    let mut i: usize = from;
    while i < to
        invariant
            from <= i <= to,
            to <= bytes@.len(),
            r + count_chars(bytes@.subrange(from as int, i as int)) == i - from,
            r <= i - from,
        decreases to - i,
    {
        proof {
            assert(bytes@.subrange(from as int, i + 1) =~= bytes@.subrange(from as int, i as int)
                + seq![bytes@[i as int]]);
            lemma_count_chars_concat(
                bytes@.subrange(from as int, i as int),
                seq![bytes@[i as int]],
            );
            lemma_count_chars_singleton(bytes@[i as int]);
        }
        if is_cont_byte(bytes[i]) {
            r += 1;
        }
        i += 1;
    }
    r
}

/// Continuation bytes in `bytes[pos .. pos + SIZE * round_len]`, counted in
/// one accumulation round: each chunk is masked to its top two bits per
/// lane, compared against the continuation pattern, and added into a lane
/// accumulator; a single horizontal sum then accounts for the whole round.
/// Capping the round at [`MAX_ACC`] chunks keeps every accumulator lane at
/// or below `u8::MAX`, so no lane wraps.
fn scan_round(bytes: &[u8], pos: usize, round_len: usize) -> (r: usize)
    requires
        round_len <= MAX_ACC,
        pos + SIZE * round_len <= bytes@.len(),
    ensures
        r + count_chars(bytes@.subrange(pos as int, pos as int + SIZE * round_len)) == SIZE
            * round_len,
{
    let len = bytes.len();
    let mask = Chunk::splat(0xC0);
    let mut acc = Chunk::zero();
    proof {
        crate::byte_chunk::lemma_byte_sum_zero(acc@);
        assert(bytes@.subrange(pos as int, pos as int) =~= Seq::<u8>::empty());
    }
    let mut k: usize = 0;
    while k < round_len
        invariant
            k <= round_len,
            round_len <= 255,
            pos + 16 * round_len <= len,
            len == bytes@.len(),
            acc@.len() == 16,
            mask@.len() == 16,
            forall|i: int| 0 <= i < 16 ==> mask@[i] == 0xC0u8,
            forall|i: int| 0 <= i < 16 ==> acc@[i] <= k,
            byte_sum(acc@) + count_chars(bytes@.subrange(pos as int, pos + 16 * k)) == 16 * k,
        decreases round_len - k,
    {
        let chunk = Chunk::from_slice(bytes, pos + SIZE * k);
        let ind = chunk.bitand(&mask).cmp_eq_byte(0x80);
        let new_acc = acc.add(&ind);
        proof {
            assert forall|i: int| 0 <= i < 16 implies ind@[i] == (if is_continuation_byte(
                chunk@[i],
            ) {
                1u8
            } else {
                0u8
            }) by {
                utf8_byte_ranges_bitwise(chunk@[i]);
            }
            lemma_byte_sum_indicator(ind@, chunk@);
            assert(forall|i: int| 0 <= i < 16 ==> new_acc@[i] as int == acc@[i] + ind@[i]);
            lemma_byte_sum_lanewise_sum(acc@, ind@, new_acc@);
            assert(chunk@ =~= bytes@.subrange(pos + 16 * k, pos + 16 * (k + 1)));
            lemma_count_chars_subrange_split(
                bytes@,
                pos as int,
                pos + 16 * k,
                pos + 16 * (k + 1),
            );
        }
        acc = new_acc;
        k += 1;
    }
    acc.sum_bytes()
}

/// Core of the count engine: the character count of an arbitrary byte
/// slice, as the number of non-continuation bytes.  Short slices are
/// scanned byte by byte; longer ones in whole chunks first, in rounds of at
/// most [`MAX_ACC`] chunks, with the remainder scanned byte by byte.
pub fn count_impl(bytes: &[u8]) -> (r: usize)
    ensures
        r == count_chars(bytes@),
{
    let len = bytes.len();
    proof {
        lemma_count_chars_le_len(bytes@);
    }
    if len < SIZE {
        let cont = cont_bytes_in_range(bytes, 0, len);
        proof {
            assert(bytes@.subrange(0, len as int) =~= bytes@);
        }
        len - cont
    } else {
        // The whole-chunk region starts at offset 0: the lane-wise
        // operations do not depend on where a byte sits in memory, so the
        // unaligned head of the split is empty by construction.
        let n_chunks = len / SIZE;
        proof {
            vstd::arithmetic::div_mod::lemma_fundamental_div_mod(len as int, 16);
        }
        let mut inv_count: usize = 0;
        let mut pos: usize = 0;
        let mut chunk_idx: usize = 0;
        while chunk_idx < n_chunks
            invariant
                chunk_idx <= n_chunks,
                pos == 16 * chunk_idx,
                16 * n_chunks <= len,
                len == bytes@.len(),
                inv_count + count_chars(bytes@.take(pos as int)) == pos,
                inv_count <= pos,
            decreases n_chunks - chunk_idx,
        {
            let rl = if MAX_ACC < n_chunks - chunk_idx {
                MAX_ACC
            } else {
                n_chunks - chunk_idx
            };
            let cont = scan_round(bytes, pos, rl);
            proof {
                assert(bytes@.take(pos + 16 * rl) =~= bytes@.take(pos as int) + bytes@.subrange(
                    pos as int,
                    pos + 16 * rl,
                ));
                lemma_count_chars_concat(
                    bytes@.take(pos as int),
                    bytes@.subrange(pos as int, pos + 16 * rl),
                );
            }
            inv_count += cont;
            pos += SIZE * rl;
            chunk_idx += rl;
        }
        let cont_tail = cont_bytes_in_range(bytes, pos, len);
        proof {
            assert(bytes@.take(len as int) =~= bytes@.take(pos as int) + bytes@.subrange(
                pos as int,
                len as int,
            ));
            lemma_count_chars_concat(
                bytes@.take(pos as int),
                bytes@.subrange(pos as int, len as int),
            );
            assert(bytes@.take(len as int) =~= bytes@);
        }
        len - (inv_count + cont_tail)
    }
}

/// Core of the seek engine: the byte offset where the character with index
/// `char_idx` starts, agreeing exactly with the naive per-byte scan
/// [`byte_index_of`] on every input.  Whole chunks are first skipped in
/// batched rounds that provably stop short of the target, then one chunk at
/// a time, and the remaining bytes are scanned one by one.
pub fn to_byte_idx_impl(bytes: &[u8], char_idx: usize) -> (r: usize)
    ensures
        r == byte_index_of(bytes@, char_idx as int),
        r <= bytes@.len(),
{
    let len = bytes.len();
    // The whole-chunk region starts at offset 0; see `count_impl`.
    let n_chunks = len / SIZE;
    proof {
        vstd::arithmetic::div_mod::lemma_fundamental_div_mod(len as int, 16);
        assert(bytes@.take(0) =~= Seq::<u8>::empty());
    }
    let mut byte_count: usize = 0;
    let mut char_count: usize = 0;
    let mut chunk_idx: usize = 0;

    // Fast-skip phase: each round is capped so that even if every one of
    // its bytes were a character start, the count would stay at or below
    // the target.
    let mut max_round_len: usize = char_idx / MAX_ACC;
    proof {
        vstd::arithmetic::div_mod::lemma_fundamental_div_mod(char_idx as int, 255);
    }
    while max_round_len > 0 && chunk_idx < n_chunks
        invariant
            chunk_idx <= n_chunks,
            byte_count == 16 * chunk_idx,
            16 * n_chunks <= len,
            len == bytes@.len(),
            char_count == count_chars(bytes@.take(byte_count as int)),
            char_count <= byte_count,
            16 * max_round_len <= char_idx - char_count,
        decreases max_round_len,
    {
        let rl = {
            let a = if max_round_len < n_chunks - chunk_idx {
                max_round_len
            } else {
                n_chunks - chunk_idx
            };
            if MAX_ACC < a {
                MAX_ACC
            } else {
                a
            }
        };
        max_round_len -= rl;
        let cont = scan_round(bytes, byte_count, rl);
        proof {
            assert(bytes@.take(byte_count + 16 * rl) =~= bytes@.take(byte_count as int)
                + bytes@.subrange(byte_count as int, byte_count + 16 * rl));
            lemma_count_chars_concat(
                bytes@.take(byte_count as int),
                bytes@.subrange(byte_count as int, byte_count + 16 * rl),
            );
        }
        char_count += SIZE * rl - cont;
        byte_count += SIZE * rl;
        chunk_idx += rl;
    }

    // Slow phase: consume one chunk at a time, stopping before any chunk
    // whose full consumption would reach the target.
    while chunk_idx < n_chunks
        invariant
            chunk_idx <= n_chunks,
            byte_count == 16 * chunk_idx,
            16 * n_chunks <= len,
            len == bytes@.len(),
            char_count == count_chars(bytes@.take(byte_count as int)),
            char_count <= byte_count,
            char_count <= char_idx,
        ensures
            byte_count <= len,
            len == bytes@.len(),
            char_count == count_chars(bytes@.take(byte_count as int)),
            char_count <= byte_count,
            char_count <= char_idx,
        decreases n_chunks - chunk_idx,
    {
        let cont = scan_round(bytes, byte_count, 1);
        let new_char_count = char_count + (SIZE - cont);
        if new_char_count >= char_idx {
            break ;
        }
        proof {
            assert(bytes@.take(byte_count + 16) =~= bytes@.take(byte_count as int)
                + bytes@.subrange(byte_count as int, byte_count + 16));
            lemma_count_chars_concat(
                bytes@.take(byte_count as int),
                bytes@.subrange(byte_count as int, byte_count + 16),
            );
        }
        char_count = new_char_count;
        byte_count += SIZE;
        chunk_idx += 1;
    }

    // Tail phase: scan the remaining bytes one at a time, stopping the
    // moment one more character start would move the count past the target.
    while byte_count < len
        invariant
            byte_count <= len,
            len == bytes@.len(),
            char_count == count_chars(bytes@.take(byte_count as int)),
            char_count <= byte_count,
            char_count <= char_idx,
        ensures
            byte_count <= len,
            char_count == count_chars(bytes@.take(byte_count as int)),
            char_count <= char_idx,
            byte_count == len || (!is_continuation_byte(bytes@[byte_count as int]) && char_count
                == char_idx),
        decreases len - byte_count,
    {
        let inc: usize = if is_cont_byte(bytes[byte_count]) {
            0
        } else {
            1
        };
        proof {
            lemma_count_chars_take_step(bytes@, byte_count as int);
        }
        if char_count + inc > char_idx {
            break ;
        }
        char_count += inc;
        byte_count += 1;
    }

    proof {
        if byte_count == len {
            assert(bytes@.take(len as int) =~= bytes@);
            lemma_byte_index_of_properties(bytes@, char_idx as int);
        } else {
            lemma_byte_index_of_unique(bytes@, char_idx as int, byte_count as int);
        }
    }
    byte_count
}

/// Counts the chars in a string slice.
///
/// Runs in O(N) time.
pub fn count(text: &str) -> (r: usize)
    ensures
        r == count_chars(text.spec_bytes()),
        r == text@.len(),
{
    proof {
        encode_utf8_valid_utf8(text@);
        encode_utf8_decode_utf8(text@);
        lemma_count_chars_decoded(text.spec_bytes());
    }
    count_impl(text.as_bytes())
}

/// Counts the chars in a string slice, for callers that want the counting
/// engine inlined into a hot path.
#[inline]
pub fn count_inline(text: &str) -> (r: usize)
    ensures
        r == count_chars(text.spec_bytes()),
        r == text@.len(),
{
    proof {
        encode_utf8_valid_utf8(text@);
        encode_utf8_decode_utf8(text@);
        lemma_count_chars_decoded(text.spec_bytes());
    }
    count_impl(text.as_bytes())
}

/// Converts from byte-index to char-index in a string slice.
///
/// If the byte is in the middle of a multi-byte char, returns the index of
/// the char that the byte belongs to.
///
/// Any past-the-end index will return the one-past-the-end char index.
///
/// Runs in O(N) time.
pub fn from_byte_idx(text: &str, byte_idx: usize) -> (r: usize)
    ensures
        r == char_index_of(text.spec_bytes(), byte_idx as int),
        r <= text@.len(),
{
    let bytes = text.as_bytes();
    let len = bytes.len();
    proof {
        encode_utf8_valid_utf8(text@);
        encode_utf8_decode_utf8(text@);
        lemma_count_chars_decoded(bytes@);
    }
    // Walk backward to the nearest character-start boundary; an index at or
    // past the end of the text snaps to the end.
    let mut i: usize = if byte_idx < len {
        byte_idx
    } else {
        len
    };
    while i < len && is_cont_byte(bytes[i])
        invariant
            i <= len,
            len == bytes@.len(),
            bytes@ == text.spec_bytes(),
            valid_utf8(bytes@),
            byte_idx < len ==> i <= byte_idx && count_chars(bytes@.take(i + 1)) == count_chars(
                bytes@.take(byte_idx + 1),
            ),
            byte_idx >= len ==> i == len,
        decreases i,
    {
        proof {
            if i == 0 {
                // The first byte of well-formed UTF-8 is a leading byte.
                assert(valid_first_scalar(bytes@));
                assert(false);
            }
            lemma_count_chars_take_step(bytes@, i as int);
        }
        i -= 1;
    }
    let r = count_impl(&bytes[0..i]);
    proof {
        assert(bytes@.subrange(0, i as int) =~= bytes@.take(i as int));
        lemma_count_chars_take_monotone(bytes@, i as int, len as int);
        assert(bytes@.take(len as int) =~= bytes@);
        if byte_idx < len {
            lemma_count_chars_take_step(bytes@, i as int);
        }
    }
    r
}

/// Converts from char-index to byte-index in a string slice.
///
/// Any past-the-end index will return the one-past-the-end byte index.
///
/// Runs in O(N) time.
#[inline]
pub fn to_byte_idx(text: &str, char_idx: usize) -> (r: usize)
    ensures
        r == byte_index_of(text.spec_bytes(), char_idx as int),
        r <= text.spec_bytes().len(),
        is_char_boundary(text.spec_bytes(), r as int),
{
    proof {
        // The result is never a byte strictly inside a multi-byte char.
        let bytes = text.spec_bytes();
        encode_utf8_valid_utf8(text@);
        lemma_byte_index_of_properties(bytes, char_idx as int);
        is_char_boundary_start_end_of_seq(bytes);
        if char_idx < count_chars(bytes) {
            is_char_boundary_iff_not_is_continuation_byte(
                bytes,
                byte_index_of(bytes, char_idx as int),
            );
        }
    }
    to_byte_idx_impl(text.as_bytes(), char_idx)
}

/// Seeking to the total character count, or past it, lands one past the
/// end of the bytes.
pub proof fn lemma_seek_at_or_past_count(bytes: Seq<u8>, char_idx: int)
    requires
        char_idx >= count_chars(bytes),
    ensures
        byte_index_of(bytes, char_idx) == bytes.len(),
{
    lemma_byte_index_of_properties(bytes, char_idx);
}

/// Round trip: snapping a character-start boundary to its character index
/// and seeking back returns the same boundary.
pub proof fn lemma_round_trip(bytes: Seq<u8>, b: int)
    requires
        valid_utf8(bytes),
        is_char_boundary(bytes, b),
    ensures
        byte_index_of(bytes, char_index_of(bytes, b)) == b,
{
    is_char_boundary_start_end_of_seq(bytes);
    if b == bytes.len() {
        assert(bytes.take(b) =~= bytes);
        lemma_seek_at_or_past_count(bytes, char_index_of(bytes, b));
    } else {
        is_char_boundary_iff_not_is_continuation_byte(bytes, b);
        lemma_count_chars_take_step(bytes, b);
        lemma_byte_index_of_unique(bytes, char_index_of(bytes, b), b);
    }
}

/// The snapped character index lies in `[0, count]` and never decreases as
/// the byte offset grows.
pub proof fn lemma_char_index_of_monotone(bytes: Seq<u8>, i: int, j: int)
    requires
        valid_utf8(bytes),
        0 <= i <= j,
    ensures
        0 <= char_index_of(bytes, i) <= char_index_of(bytes, j) <= count_chars(bytes),
{
    let len = bytes.len() as int;
    lemma_count_chars_le_len(bytes);
    if bytes.len() > 0 {
        assert(valid_first_scalar(bytes));
        assert(!is_continuation_byte(bytes[0]));
    }
    if i < len {
        // A nonempty prefix of well-formed UTF-8 holds at least one start.
        assert(bytes.take(1) =~= seq![bytes[0]]);
        lemma_count_chars_singleton(bytes[0]);
        lemma_count_chars_take_monotone(bytes, 1, i + 1);
        let jc = if j < len {
            j + 1
        } else {
            len
        };
        lemma_count_chars_take_monotone(bytes, i + 1, jc);
        lemma_count_chars_take_monotone(bytes, jc, len);
        assert(bytes.take(len) =~= bytes);
    }
}

} // verus!
