//! The bit engine: a writer and a reader that move spans of 1 to 32 bits
//! through a 64-bit scratch accumulator over a word-aligned byte buffer.
//!
//! This file holds the mathematical model that both cursors are specified
//! against, and the facts about it that the rest of the crate builds on.
use vstd::arithmetic::power2::{lemma_pow2_unfold, pow2};
use vstd::prelude::*;

use crate::bitpacker::bit_reader::BitReader;
use crate::bitpacker::bit_writer::BitWriter;

pub mod bit_reader;
pub mod bit_writer;

verus! {

/// Whether bit `i` of `v` is set, bit 0 being the least significant.
pub open spec fn bit_at(v: u64, i: u64) -> bool {
    (v >> i) & 1 == 1
}

/// The `n` low bits of `v` in stream order, least significant first.
pub open spec fn value_bits(v: u64, n: nat) -> Seq<bool> {
    Seq::new(n, |i: int| bit_at(v, i as u64))
}

/// The bits of a byte sequence in stream order: byte after byte, and within
/// each byte the least significant bit first.
pub open spec fn byte_bits(bytes: Seq<u8>) -> Seq<bool> {
    Seq::new(8 * bytes.len(), |i: int| bit_at(bytes[i / 8] as u64, (i % 8) as u64))
}

/// The number that a bit sequence spells, its first bit being the least
/// significant.
pub open spec fn bits_value(bits: Seq<bool>) -> nat
    decreases bits.len(),
{
    if bits.len() == 0 {
        0
    } else {
        (if bits[0] { 1nat } else { 0nat }) + 2 * bits_value(bits.drop_first())
    }
}

/// The number that the `n` bits from position `at` of a stream spell.
pub open spec fn field_value(bits: Seq<bool>, at: nat, n: nat) -> nat {
    bits_value(bits.subrange(at as int, (at + n) as int))
}

/// `n` cleared bits.
pub open spec fn zero_bits(n: nat) -> Seq<bool> {
    Seq::new(n, |i: int| false)
}

/// The value whose `n` low bits are set and no others, for `n < 64`.
pub open spec fn low_mask(n: u64) -> u64 {
    ((1u64 << n) - 1) as u64
}

/// Number of 32-bit words that `bits` bits occupy.
pub open spec fn words_spanned(bits: nat) -> int {
    (bits as int + 31) / 32
}

/// Number of padding bits between position `bits` and the next byte boundary.
pub open spec fn align_gap(bits: nat) -> nat {
    ((8 - bits % 8) % 8) as nat
}

/// Two byte sequences of one length that agree at every index from `from`
/// on.
pub open spec fn same_from(a: Seq<u8>, b: Seq<u8>, from: int) -> bool {
    &&& a.len() == b.len()
    &&& forall|j: int| from <= j < a.len() ==> a[j] == b[j]
}

/// The four bytes of the low word of `v`, least significant byte first.
pub open spec fn word_bytes(v: u64) -> Seq<u8> {
    seq![
        (v & 0xff) as u8,
        ((v >> 8) & 0xff) as u8,
        ((v >> 16) & 0xff) as u8,
        ((v >> 24) & 0xff) as u8,
    ]
}

/// The word that four bytes spell, least significant byte first.
pub open spec fn word_of_bytes(b0: u8, b1: u8, b2: u8, b3: u8) -> u64 {
    (b0 as u64) | ((b1 as u64) << 8) | ((b2 as u64) << 16) | ((b3 as u64) << 24)
}

/// What a stream holds after the bytes of `bytes` have been appended to
/// `before` one at a time, each as a field of eight bits.
pub open spec fn appended_bytewise(before: Seq<bool>, bytes: Seq<u8>) -> Seq<bool>
    decreases bytes.len(),
{
    if bytes.len() == 0 {
        before
    } else {
        appended_bytewise(before, bytes.drop_last()) + value_bits(bytes.last() as u64, 8)
    }
}

/// Whether a buffer holds a stream as a flush leaves it: its front spells
/// the stream's bits, padded with zero bits to whole words.
pub open spec fn holds_flushed(buffer: Seq<u8>, bits: Seq<bool>) -> bool {
    &&& 4 * words_spanned(bits.len()) <= buffer.len()
    &&& byte_bits(buffer.take(4 * words_spanned(bits.len()))) == bits + zero_bits(
        (32 * words_spanned(bits.len()) - bits.len()) as nat,
    )
}

/// What was written is what is read: a reader over the buffer that a writer
/// has flushed reads the writer's bits first.
pub proof fn lemma_written_is_read(writer: BitWriter, reader: BitReader)
    requires
        holds_flushed(writer.buffer(), writer.bits()),
        reader.wf(),
        reader.data() == writer.buffer(),
        writer.bits().len() <= reader.limit(),
    ensures
        reader.bits().take(writer.bits().len() as int) == writer.bits(),
        reader.bits() == writer.bits() + reader.bits().skip(writer.bits().len() as int),
{
    reader.lemma_wf();
    lemma_flushed_stream(writer.bits(), writer.buffer(), reader.limit() as int);
    lemma_concat_skip(
        writer.bits(),
        byte_bits(writer.buffer()).subrange(writer.bits().len() as int, reader.limit() as int),
    );
}

/// Round trip of a bit field through a buffer: where a writer has written
/// the `n` low bits of `v` among its bits and flushed, a reader over its
/// buffer that stands where the field starts reads `v` masked to `n` bits,
/// which is `v` itself where `v` fits in `n` bits.
pub proof fn lemma_bits_read_back(
    writer: BitWriter,
    reader: BitReader,
    before: Seq<bool>,
    v: u32,
    n: nat,
    after: Seq<bool>,
)
    requires
        1 <= n <= 32,
        writer.bits() == before + value_bits(v as u64, n) + after,
        holds_flushed(writer.buffer(), writer.bits()),
        reader.wf(),
        reader.data() == writer.buffer(),
        writer.bits().len() <= reader.limit(),
    ensures
        field_value(reader.bits(), before.len(), n) == (v as u64 & low_mask(n as u64)),
        v as u64 & low_mask(n as u64) == v as u64 ==> field_value(reader.bits(), before.len(), n)
            == v,
{
    lemma_written_is_read(writer, reader);
    let rest = after + reader.bits().skip(writer.bits().len() as int);
    assert(reader.bits() =~= before + value_bits(v as u64, n) + rest);
    assert(reader.bits().subrange(before.len() as int, (before.len() + n) as int) =~= value_bits(
        v as u64,
        n,
    ));
    lemma_bits_value_of_value_bits(v as u64, n);
}

/// Byte-block equivalence of buffers: two writers that started on the same
/// buffer contents, one of which has written a block of bytes at once and
/// the other the same bytes one by one, eight bits each, hold the same
/// stream, and once flushed the same buffer, byte for byte.
pub proof fn lemma_block_and_bytewise_buffers_agree(
    bulk: BitWriter,
    plain: BitWriter,
    start: Seq<u8>,
    before: Seq<bool>,
    bytes: Seq<u8>,
)
    requires
        bulk.bits() == before + byte_bits(bytes),
        plain.bits() == appended_bytewise(before, bytes),
        holds_flushed(bulk.buffer(), bulk.bits()),
        holds_flushed(plain.buffer(), plain.bits()),
        same_from(bulk.buffer(), start, 4 * words_spanned(bulk.bits().len())),
        same_from(plain.buffer(), start, 4 * words_spanned(plain.bits().len())),
    ensures
        bulk.bits() == plain.bits(),
        bulk.buffer() == plain.buffer(),
{
    lemma_byte_block_equivalence(before, bytes);
    let m = 4 * words_spanned(bulk.bits().len());
    lemma_byte_bits_injective(bulk.buffer().take(m), plain.buffer().take(m));
    assert forall|j: int| 0 <= j < bulk.buffer().len() implies bulk.buffer()[j]
        == plain.buffer()[j] by {
        if j < m {
            assert(bulk.buffer()[j] == bulk.buffer().take(m)[j]);
            assert(plain.buffer()[j] == plain.buffer().take(m)[j]);
        }
    }
    assert(bulk.buffer() =~= plain.buffer());
}

/// Round trip of a bit field: `n` bits that spell `v`, wherever they stand in
/// a stream, are read back as `v`, provided `v` fits in `n` bits.
pub proof fn lemma_bits_round_trip(before: Seq<bool>, v: u32, n: nat, after: Seq<bool>)
    requires
        1 <= n <= 32,
        v as u64 & low_mask(n as u64) == v as u64,
    ensures
        field_value(before + value_bits(v as u64, n) + after, before.len(), n) == v,
{
    let all = before + value_bits(v as u64, n) + after;
    assert(all.subrange(before.len() as int, (before.len() + n) as int) =~= value_bits(
        v as u64,
        n,
    ));
    lemma_bits_value_of_value_bits(v as u64, n);
}

/// Byte-block equivalence: appending a block of bytes at once gives the
/// stream that appending them one by one, eight bits each, gives. `write_bytes`
/// appends `byte_bits` of the block whatever the position within a word at
/// which it starts, and each `write_bits` of a byte appends its `value_bits`,
/// so the two ways of writing leave one stream, of any length and from any
/// byte offset.
pub proof fn lemma_byte_block_equivalence(before: Seq<bool>, bytes: Seq<u8>)
    ensures
        before + byte_bits(bytes) == appended_bytewise(before, bytes),
    decreases bytes.len(),
{
    if bytes.len() == 0 {
        assert(before + byte_bits(bytes) =~= before);
    } else {
        let init = bytes.drop_last();
        lemma_byte_block_equivalence(before, init);
        assert(bytes.take(bytes.len() - 1) =~= init);
        assert(bytes.take(bytes.len() as int) =~= bytes);
        lemma_byte_bits_step(bytes, bytes.len() - 1);
        assert(before + (byte_bits(init) + value_bits(bytes.last() as u64, 8)) =~= before
            + byte_bits(init) + value_bits(bytes.last() as u64, 8));
    }
}

/// Byte sequences with the same bits are the same: what a flushed buffer
/// holds is fixed by the stream that was written.
pub proof fn lemma_byte_bits_injective(a: Seq<u8>, b: Seq<u8>)
    requires
        byte_bits(a) == byte_bits(b),
    ensures
        a == b,
{
    assert(8 * a.len() == byte_bits(a).len());
    assert(8 * b.len() == byte_bits(b).len());
    assert forall|i: int| 0 <= i < a.len() implies a[i] == b[i] by {
        lemma_byte_bit_of_stream(a, i, 0);
        lemma_byte_bit_of_stream(a, i, 1);
        lemma_byte_bit_of_stream(a, i, 2);
        lemma_byte_bit_of_stream(a, i, 3);
        lemma_byte_bit_of_stream(a, i, 4);
        lemma_byte_bit_of_stream(a, i, 5);
        lemma_byte_bit_of_stream(a, i, 6);
        lemma_byte_bit_of_stream(a, i, 7);
        lemma_byte_bit_of_stream(b, i, 0);
        lemma_byte_bit_of_stream(b, i, 1);
        lemma_byte_bit_of_stream(b, i, 2);
        lemma_byte_bit_of_stream(b, i, 3);
        lemma_byte_bit_of_stream(b, i, 4);
        lemma_byte_bit_of_stream(b, i, 5);
        lemma_byte_bit_of_stream(b, i, 6);
        lemma_byte_bit_of_stream(b, i, 7);
        lemma_byte_from_bits(a[i], b[i]);
    }
    assert(a =~= b);
}

/// What was written is what is read: a buffer whose front, after a flush,
/// spells the bits written, padded to whole words, gives a reader those
/// bits first, whatever follows them. So every round trip that holds of a
/// stream of the form `before + field + after` holds of a write pass
/// followed by a read pass over the same buffer.
pub proof fn lemma_flushed_stream(bits: Seq<bool>, buffer: Seq<u8>, limit: int)
    requires
        4 * words_spanned(bits.len()) <= buffer.len(),
        byte_bits(buffer.take(4 * words_spanned(bits.len()))) == bits + zero_bits(
            (32 * words_spanned(bits.len()) - bits.len()) as nat,
        ),
        bits.len() <= limit <= 8 * buffer.len(),
    ensures
        byte_bits(buffer).take(limit) == bits + byte_bits(buffer).subrange(
            bits.len() as int,
            limit,
        ),
{
    let words = 4 * words_spanned(bits.len());
    lemma_byte_bits_take(buffer, words);
    let all = byte_bits(buffer);
    assert(all.take(8 * words).take(bits.len() as int) =~= bits);
    assert(all.take(limit) =~= bits + all.subrange(bits.len() as int, limit));
}

/// Only cleared bits spell zero: padding reads as zero exactly where every
/// padding bit is cleared.
pub proof fn lemma_zero_value_is_cleared(bits: Seq<bool>)
    ensures
        bits_value(bits) == 0 <==> bits == zero_bits(bits.len()),
    decreases bits.len(),
{
    lemma_zero_bits_value(bits.len());
    if bits.len() > 0 {
        let rest = bits.drop_first();
        lemma_zero_value_is_cleared(rest);
        if bits_value(bits) == 0 {
            assert(!bits[0]);
            assert(rest == zero_bits(rest.len()));
            assert forall|i: int| 0 <= i < bits.len() implies !bits[i] by {
                if i > 0 {
                    assert(bits[i] == rest[i - 1]);
                }
            }
            assert(bits =~= zero_bits(bits.len()));
        }
    } else {
        assert(bits =~= zero_bits(0));
    }
}

/// What stands behind the first of two sequences laid end to end is the
/// second.
pub proof fn lemma_concat_skip<T>(a: Seq<T>, b: Seq<T>)
    ensures
        (a + b).skip(a.len() as int) == b,
        (a + b).take(a.len() as int) == a,
{
    assert((a + b).skip(a.len() as int) =~= b);
    assert((a + b).take(a.len() as int) =~= a);
}

/// A sequence is its front and its rest laid end to end.
pub proof fn lemma_take_skip<T>(s: Seq<T>, n: int)
    requires
        0 <= n <= s.len(),
    ensures
        s == s.take(n) + s.skip(n),
{
    assert(s =~= s.take(n) + s.skip(n));
}

/// Byte sequences laid end to end give their bits laid end to end.
pub proof fn lemma_byte_bits_concat(a: Seq<u8>, b: Seq<u8>)
    ensures
        byte_bits(a + b) == byte_bits(a) + byte_bits(b),
{
    let lhs = byte_bits(a + b);
    let rhs = byte_bits(a) + byte_bits(b);
    assert(lhs.len() == rhs.len());
    assert forall|i: int| 0 <= i < lhs.len() implies lhs[i] == rhs[i] by {
        if i < 8 * a.len() {
            assert((a + b)[i / 8] == a[i / 8]);
        } else {
            let j = i - 8 * a.len();
            assert(j / 8 == i / 8 - a.len());
            assert(j % 8 == i % 8);
            assert((a + b)[i / 8] == b[j / 8]);
        }
    }
    assert(lhs =~= rhs);
}

/// The bits of a prefix of a byte sequence are a prefix of its bits.
pub proof fn lemma_byte_bits_take(bytes: Seq<u8>, n: int)
    requires
        0 <= n <= bytes.len(),
    ensures
        byte_bits(bytes.take(n)) == byte_bits(bytes).take(8 * n),
{
    assert(byte_bits(bytes.take(n)) =~= byte_bits(bytes).take(8 * n));
}

/// The low bits of zero are cleared bits.
pub proof fn lemma_zero_value_bits(n: nat)
    requires
        n <= 64,
    ensures
        value_bits(0, n) == zero_bits(n),
{
    let lhs = value_bits(0, n);
    assert forall|i: int| 0 <= i < n implies #[trigger] lhs[i] == false by {
        let k = i as u64;
        assert((0u64 >> k) & 1 == 0) by (bit_vector);
    }
    assert(lhs =~= zero_bits(n));
}

/// From a byte boundary, the bytes that complete the current word lead to a
/// word boundary.
pub proof fn lemma_head_reaches_word(len: nat)
    requires
        len % 8 == 0,
    ensures
        (len + 8 * ((4 - (len % 32) / 8) % 4)) % 32 == 0,
        (4 - (len % 32) / 8) % 4 < 4,
{
    let r = len % 32;
    assert(r == 0 || r == 8 || r == 16 || r == 24);
}

/// One byte contributes its eight low bits.
pub proof fn lemma_byte_bits_single(b: u8)
    ensures
        byte_bits(seq![b]) == value_bits(b as u64, 8),
{
    assert(byte_bits(seq![b]) =~= value_bits(b as u64, 8));
}

/// Taking one more byte of a sequence appends that byte's eight bits.
pub proof fn lemma_byte_bits_step(bytes: Seq<u8>, i: int)
    requires
        0 <= i < bytes.len(),
    ensures
        byte_bits(bytes.take(i + 1)) == byte_bits(bytes.take(i)) + value_bits(bytes[i] as u64, 8),
{
    assert(bytes.take(i + 1) =~= bytes.take(i) + seq![bytes[i]]);
    lemma_byte_bits_concat(bytes.take(i), seq![bytes[i]]);
    lemma_byte_bits_single(bytes[i]);
}

proof fn lemma_or_shift_bit(s: u64, v: u64, k: u64, n: u64, i: u64)
    by (bit_vector)
    requires
        k < 32,
        1 <= n <= 32,
        s >> k == 0,
        i < k + n,
    ensures
        bit_at(s | ((v & low_mask(n)) << k), i) == (if i < k {
            bit_at(s, i)
        } else {
            bit_at(v, (i - k) as u64)
        }),
        (s | ((v & low_mask(n)) << k)) >> ((k + n) as u64) == 0,
{
}

/// Or-ing the `n` low bits of `v` into a scratch value above its `k` valid
/// bits appends them to the scratch's bit sequence.
pub proof fn lemma_scratch_append(s: u64, k: u64, v: u64, n: u64)
    requires
        k < 32,
        1 <= n <= 32,
        s >> k == 0,
    ensures
        value_bits(s | ((v & low_mask(n)) << k), (k + n) as nat) == value_bits(s, k as nat)
            + value_bits(v, n as nat),
        (s | ((v & low_mask(n)) << k)) >> ((k + n) as u64) == 0,
{
    let s2 = s | ((v & low_mask(n)) << k);
    let lhs = value_bits(s2, (k + n) as nat);
    let rhs = value_bits(s, k as nat) + value_bits(v, n as nat);
    lemma_or_shift_bit(s, v, k, n, 0);
    assert forall|i: int| 0 <= i < k + n implies lhs[i] == rhs[i] by {
        lemma_or_shift_bit(s, v, k, n, i as u64);
    }
    assert(lhs =~= rhs);
}

proof fn lemma_word_byte_bit(s: u64, j: u64, r: u64)
    by (bit_vector)
    requires
        j < 4,
        r < 8,
    ensures
        bit_at((((s >> ((8 * j) as u64)) & 0xff) as u8) as u64, r) == bit_at(
            s,
            (8 * j + r) as u64,
        ),
{
}

proof fn lemma_high_word_bit(s: u64, total: u64, i: u64)
    by (bit_vector)
    requires
        32 <= total < 64,
        s >> total == 0,
        i < 32,
    ensures
        bit_at(s >> 32, i) == bit_at(s, (i + 32) as u64),
        (s >> 32) >> ((total - 32) as u64) == 0,
{
}

/// Splitting a scratch value of at least 32 valid bits into its low word,
/// as bytes, and the rest keeps its bit sequence.
pub proof fn lemma_scratch_commit(s: u64, total: u64)
    requires
        32 <= total < 64,
        s >> total == 0,
    ensures
        byte_bits(word_bytes(s)) + value_bits(s >> 32, (total - 32) as nat) == value_bits(
            s,
            total as nat,
        ),
        (s >> 32) >> ((total - 32) as u64) == 0,
{
    let lhs = byte_bits(word_bytes(s)) + value_bits(s >> 32, (total - 32) as nat);
    let rhs = value_bits(s, total as nat);
    lemma_high_word_bit(s, total, 0);
    assert((s >> 0u64) == s) by (bit_vector);
    assert forall|i: int| 0 <= i < total implies lhs[i] == rhs[i] by {
        if i < 32 {
            let j = (i / 8) as u64;
            let r = (i % 8) as u64;
            lemma_word_byte_bit(s, j, r);
            assert(word_bytes(s)[i / 8] == ((s >> ((8 * j) as u64)) & 0xff) as u8);
        } else {
            lemma_high_word_bit(s, total, (i - 32) as u64);
        }
    }
    assert(lhs =~= rhs);
}

proof fn lemma_flush_bit(s: u64, k: u64, j: u64)
    by (bit_vector)
    requires
        k < 32,
        s >> k == 0,
        j < 32,
    ensures
        j >= k ==> !bit_at(s, j),
        s >> 32 == 0,
{
}

/// The low word of a scratch value with fewer than 32 valid bits is those
/// bits followed by cleared bits.
pub proof fn lemma_scratch_flush(s: u64, k: u64)
    requires
        k < 32,
        s >> k == 0,
    ensures
        byte_bits(word_bytes(s)) == value_bits(s, k as nat) + zero_bits((32 - k) as nat),
{
    lemma_flush_bit(s, k, 0);
    lemma_scratch_commit(s, 32);
    assert(value_bits(s >> 32, 0) =~= Seq::<bool>::empty());
    assert(byte_bits(word_bytes(s)) =~= value_bits(s, 32));
    let rhs = value_bits(s, k as nat) + zero_bits((32 - k) as nat);
    assert forall|i: int| 0 <= i < 32 implies #[trigger] value_bits(s, 32)[i] == rhs[i] by {
        lemma_flush_bit(s, k, i as u64);
    }
    assert(value_bits(s, 32) =~= rhs);
}

proof fn lemma_word_of_bytes_bit(b0: u8, b1: u8, b2: u8, b3: u8, i: u64)
    by (bit_vector)
    requires
        i < 32,
    ensures
        bit_at(word_of_bytes(b0, b1, b2, b3), i) == (if i < 8 {
            bit_at(b0 as u64, i)
        } else if i < 16 {
            bit_at(b1 as u64, (i - 8) as u64)
        } else if i < 24 {
            bit_at(b2 as u64, (i - 16) as u64)
        } else {
            bit_at(b3 as u64, (i - 24) as u64)
        }),
        word_of_bytes(b0, b1, b2, b3) & low_mask(32) == word_of_bytes(b0, b1, b2, b3),
{
}

/// Or-ing a word read from four bytes into a scratch value above its `k`
/// valid bits appends the bits of those bytes.
pub proof fn lemma_scratch_load(s: u64, k: u64, b0: u8, b1: u8, b2: u8, b3: u8)
    requires
        k < 32,
        s >> k == 0,
    ensures
        value_bits(s | (word_of_bytes(b0, b1, b2, b3) << k), (k + 32) as nat) == value_bits(
            s,
            k as nat,
        ) + byte_bits(seq![b0, b1, b2, b3]),
        (s | (word_of_bytes(b0, b1, b2, b3) << k)) >> ((k + 32) as u64) == 0,
{
    let word = word_of_bytes(b0, b1, b2, b3);
    lemma_word_of_bytes_bit(b0, b1, b2, b3, 0);
    lemma_scratch_append(s, k, word, 32);
    let lhs = value_bits(word, 32);
    let rhs = byte_bits(seq![b0, b1, b2, b3]);
    assert forall|i: int| 0 <= i < 32 implies #[trigger] lhs[i] == rhs[i] by {
        lemma_word_of_bytes_bit(b0, b1, b2, b3, i as u64);
    }
    assert(lhs =~= rhs);
}

proof fn lemma_take_bit(s: u64, total: u64, n: u64, i: u64)
    by (bit_vector)
    requires
        1 <= n <= 32,
        n <= total < 64,
        s >> total == 0,
        i < 64,
    ensures
        i < n ==> bit_at(s & low_mask(n), i) == bit_at(s, i),
        i + n < 64 ==> bit_at(s >> n, i) == bit_at(s, (i + n) as u64),
        (s >> n) >> ((total - n) as u64) == 0,
        (s & low_mask(n)) & low_mask(n) == s & low_mask(n),
        (s & low_mask(n)) >> 32 == 0,
{
}

/// Taking the `n` low bits off a scratch value of `total` valid bits splits
/// its bit sequence at `n`.
pub proof fn lemma_scratch_take(s: u64, total: u64, n: u64)
    requires
        1 <= n <= 32,
        n <= total < 64,
        s >> total == 0,
    ensures
        value_bits(s & low_mask(n), n as nat) == value_bits(s, total as nat).take(n as int),
        value_bits(s >> n, (total - n) as nat) == value_bits(s, total as nat).skip(n as int),
        (s >> n) >> ((total - n) as u64) == 0,
        (s & low_mask(n)) <= u32::MAX,
        bits_value(value_bits(s, total as nat).take(n as int)) == s & low_mask(n),
{
    let all = value_bits(s, total as nat);
    let low = value_bits(s & low_mask(n), n as nat);
    let high = value_bits(s >> n, (total - n) as nat);
    lemma_take_bit(s, total, n, 0);
    assert forall|i: int| 0 <= i < n implies #[trigger] low[i] == all.take(n as int)[i] by {
        lemma_take_bit(s, total, n, i as u64);
    }
    assert(low =~= all.take(n as int));
    assert forall|i: int| 0 <= i < total - n implies #[trigger] high[i] == all.skip(
        n as int,
    )[i] by {
        lemma_take_bit(s, total, n, i as u64);
    }
    assert(high =~= all.skip(n as int));
    let out = s & low_mask(n);
    assert(out <= u32::MAX) by (bit_vector)
        requires
            out >> 32 == 0,
    ;
    lemma_bits_value_of_value_bits(out, n as nat);
}

/// Eight bits of a byte stream that start at a byte boundary spell that
/// byte.
pub proof fn lemma_field_is_byte(bytes: Seq<u8>, p: int)
    requires
        0 <= p < bytes.len(),
    ensures
        field_value(byte_bits(bytes), (8 * p) as nat, 8) == bytes[p],
{
    let b = bytes[p];
    assert(byte_bits(bytes).subrange(8 * p, 8 * p + 8) =~= value_bits(b as u64, 8));
    lemma_bits_value_of_value_bits(b as u64, 8);
    assert((b as u64) & low_mask(8) == b as u64) by (bit_vector);
}

/// A value read back from its own `n` low bits is the value masked to `n`
/// bits.
pub proof fn lemma_bits_value_of_value_bits(v: u64, n: nat)
    requires
        n <= 32,
    ensures
        bits_value(value_bits(v, n)) == (v & low_mask(n as u64)) as nat,
    decreases n,
{
    if n == 0 {
        assert(v & low_mask(0) == 0) by (bit_vector);
    } else {
        let s = value_bits(v, n);
        let t = value_bits(v >> 1, (n - 1) as nat);
        assert forall|i: int| 0 <= i < n - 1 implies s.drop_first()[i] == t[i] by {
            let k = i as u64;
            assert(bit_at(v, (k + 1) as u64) == bit_at(v >> 1, k)) by (bit_vector)
                requires
                    k < 32,
            ;
        }
        assert(s.drop_first() =~= t);
        lemma_bits_value_of_value_bits(v >> 1, (n - 1) as nat);
        let m = n as u64;
        assert(v & low_mask(m) == (v & 1) + 2 * ((v >> 1) & low_mask((m - 1) as u64)))
            by (bit_vector)
            requires
                1 <= m <= 32,
        ;
        assert(s[0] == bit_at(v, 0));
        assert((v >> 0u64) & 1 == v & 1) by (bit_vector);
        assert(v & 1 == 0 || v & 1 == 1) by (bit_vector);
        assert(((n - 1) as nat) as u64 == (m - 1) as u64);
        assert(bits_value(s) == (if s[0] { 1nat } else { 0nat }) + 2 * bits_value(t));
    }
}

/// A sequence of `n` bits spells a number below `2^n`.
pub proof fn lemma_bits_value_bound(bits: Seq<bool>)
    ensures
        bits_value(bits) < pow2(bits.len()),
    decreases bits.len(),
{
    if bits.len() == 0 {
        vstd::arithmetic::power2::lemma2_to64();
    } else {
        lemma_bits_value_bound(bits.drop_first());
        lemma_pow2_unfold(bits.len());
    }
}

/// A field of `n` bits spells a number below `2^n`.
pub proof fn lemma_field_value_bound(bits: Seq<bool>, at: nat, n: nat)
    requires
        at + n <= bits.len(),
    ensures
        field_value(bits, at, n) < pow2(n),
{
    lemma_bits_value_bound(bits.subrange(at as int, (at + n) as int));
}

proof fn lemma_low_bit_and_rest(v: u64, b: u64, w: u64, i: u64)
    by (bit_vector)
    requires
        v == b + 2 * w,
        b <= 1,
        w <= 0xffff_ffff,
        i < 32,
    ensures
        v & 1 == b,
        v >> 1 == w,
        bit_at(v, 0) == (b == 1),
        bit_at(v, (i + 1) as u64) == bit_at(w, i),
        v <= 0x1_ffff_ffff,
{
}

/// The number that at most 32 bits spell has those bits as its low bits.
pub proof fn lemma_value_bits_of_bits_value(bits: Seq<bool>)
    requires
        bits.len() <= 32,
    ensures
        bits_value(bits) <= u32::MAX,
        value_bits(bits_value(bits) as u64, bits.len()) == bits,
    decreases bits.len(),
{
    if bits.len() == 0 {
        assert(value_bits(0, 0) =~= bits);
    } else {
        let rest = bits.drop_first();
        lemma_value_bits_of_bits_value(rest);
        lemma_bits_value_bound(bits);
        vstd::arithmetic::power2::lemma2_to64();
        vstd::arithmetic::power2::lemma_pow2_strictly_increases(bits.len(), 33);
        if bits.len() < 32 {
            vstd::arithmetic::power2::lemma_pow2_strictly_increases(bits.len(), 32);
        }
        let b: u64 = if bits[0] { 1 } else { 0 };
        let w = bits_value(rest) as u64;
        let v = bits_value(bits) as u64;
        assert(v == b + 2 * w);
        lemma_low_bit_and_rest(v, b, w, 0);
        let out = value_bits(v, bits.len());
        assert forall|i: int| 0 <= i < bits.len() implies out[i] == bits[i] by {
            if i > 0 {
                lemma_low_bit_and_rest(v, b, w, (i - 1) as u64);
                assert(value_bits(w, rest.len())[i - 1] == rest[i - 1]);
            }
        }
        assert(out =~= bits);
    }
}

/// Cleared bits spell zero.
pub proof fn lemma_zero_bits_value(n: nat)
    ensures
        bits_value(zero_bits(n)) == 0,
    decreases n,
{
    if n > 0 {
        assert(zero_bits(n).drop_first() =~= zero_bits((n - 1) as nat));
        lemma_zero_bits_value((n - 1) as nat);
    }
}

/// The bytes that a byte-aligned bit sequence spells have that sequence as
/// their bits.
pub proof fn lemma_bytes_spell_their_bits(bits: Seq<bool>, bytes: Seq<u8>)
    requires
        bits.len() == 8 * bytes.len(),
        forall|i: int|
            0 <= i < bytes.len() ==> #[trigger] bytes[i] == field_value(
                bits,
                (8 * i) as nat,
                8,
            ) as u8,
    ensures
        byte_bits(bytes) == bits,
{
    assert forall|k: int| 0 <= k < bits.len() implies byte_bits(bytes)[k] == bits[k] by {
        let i = k / 8;
        let r = k % 8;
        let piece = bits.subrange(8 * i, 8 * i + 8);
        lemma_value_bits_of_bits_value(piece);
        lemma_bits_value_bound(piece);
        vstd::arithmetic::power2::lemma2_to64();
        assert(bytes[i] == bits_value(piece) as u8);
        assert(value_bits(bits_value(piece) as u64, 8)[r] == piece[r]);
    }
    assert(byte_bits(bytes) =~= bits);
}

proof fn lemma_byte_from_bits(a: u8, b: u8)
    by (bit_vector)
    requires
        bit_at(a as u64, 0) == bit_at(b as u64, 0),
        bit_at(a as u64, 1) == bit_at(b as u64, 1),
        bit_at(a as u64, 2) == bit_at(b as u64, 2),
        bit_at(a as u64, 3) == bit_at(b as u64, 3),
        bit_at(a as u64, 4) == bit_at(b as u64, 4),
        bit_at(a as u64, 5) == bit_at(b as u64, 5),
        bit_at(a as u64, 6) == bit_at(b as u64, 6),
        bit_at(a as u64, 7) == bit_at(b as u64, 7),
    ensures
        a == b,
{
}

proof fn lemma_byte_bit_of_stream(bytes: Seq<u8>, i: int, r: int)
    requires
        0 <= i < bytes.len(),
        0 <= r < 8,
    ensures
        byte_bits(bytes)[8 * i + r] == bit_at(bytes[i] as u64, r as u64),
{
    assert((8 * i + r) / 8 == i);
    assert((8 * i + r) % 8 == r);
}

} // verus!
