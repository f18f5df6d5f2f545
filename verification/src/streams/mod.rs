//! The stream layer: one interface, implemented by a writing and a reading
//! stream, so that a serialization routine is written once and serves both
//! directions.
//!
//! A stream is modelled by a `StreamView`: a direction, a bit sequence, a
//! position, a limit and the latched error.
use vstd::arithmetic::logarithm::{lemma_log0, lemma_log_s, log};
use vstd::prelude::*;

use crate::bitpacker::{
    align_gap, byte_bits, field_value, holds_flushed, lemma_bits_round_trip, lemma_concat_skip,
    lemma_field_is_byte, lemma_flushed_stream, lemma_zero_bits_value, low_mask, value_bits,
    zero_bits,
};
use crate::constants::ProtocolError;
use crate::helpers::marker_hash;

use crate::streams::read_stream::ReadStream;
use crate::streams::write_stream::WriteStream;

pub mod read_stream;
pub mod write_stream;

verus! {

/// Number of bits that a value between `min` and `max` takes on the wire:
/// none where the two are equal, else the bit length of `max - min`.
pub open spec fn bits_required(min: int, max: int) -> nat
    recommends
        min <= max,
{
    bit_length((max - min) as nat)
}

/// Number of binary digits of `d`: zero for zero, else `floor(log2(d)) + 1`.
pub open spec fn bit_length(d: nat) -> nat
    decreases d,
{
    if d == 0 {
        0
    } else {
        1 + bit_length(d / 2)
    }
}

/// The bit length of a positive number is one more than its binary
/// logarithm, rounded down.
pub proof fn lemma_bit_length_is_log(d: nat)
    requires
        d > 0,
    ensures
        bit_length(d) == log(2, d as int) + 1,
    decreases d,
{
    if d == 1 {
        lemma_log0(2, 1);
        assert(bit_length(1) == 1 + bit_length(0));
    } else {
        lemma_log_s(2, d as int);
        lemma_bit_length_is_log(d / 2);
    }
}

/// A value below `2^k` has at most `k` binary digits.
pub proof fn lemma_bit_length_le(d: nat, k: nat)
    requires
        k < 64,
        d <= u64::MAX,
        (d as u64) >> (k as u64) == 0,
    ensures
        bit_length(d) <= k,
    decreases d,
{
    let v = d as u64;
    let s = k as u64;
    if d != 0 {
        let h = (d / 2) as u64;
        assert(s >= 1 && v >> 1 == h && h >> ((s - 1) as u64) == 0) by (bit_vector)
            requires
                h == v / 2,
                v != 0,
                s < 64,
                v >> s == 0,
        ;
        lemma_bit_length_le(d / 2, (k - 1) as nat);
    }
}

/// A value has no bits above its bit length.
pub proof fn lemma_bit_length_bound(d: nat)
    requires
        d <= u32::MAX,
    ensures
        bit_length(d) <= 32,
        (d as u64) & low_mask(bit_length(d) as u64) == d,
    decreases d,
{
    let v = d as u64;
    assert(v >> 32 == 0) by (bit_vector)
        requires
            v <= 0xffff_ffff,
    ;
    lemma_bit_length_le(d, 32);
    if d == 0 {
        assert(0u64 & low_mask(0) == 0) by (bit_vector);
    } else {
        lemma_bit_length_bound(d / 2);
        let n = bit_length(d) as u64;
        let h = (d / 2) as u64;
        assert(v >> 1 == h) by (bit_vector)
            requires
                h == v / 2,
        ;
        assert(v & low_mask(n) == v) by (bit_vector)
            requires
                1 <= n <= 32,
                (v >> 1) & low_mask((n - 1) as u64) == v >> 1,
        ;
    }
}

/// Number of binary digits of `d`.
pub fn bit_length_of(d: u32) -> (bits: u32)
    ensures
        bits == bit_length(d as nat),
        bits <= 32,
        d > 0 ==> bits >= 1,
{
    let mut rest: u32 = d;
    let mut bits: u32 = 0;
    proof {
        lemma_bit_length_bound(d as nat);
    }
    while rest != 0
        invariant
            bits + bit_length(rest as nat) == bit_length(d as nat),
            bit_length(d as nat) <= 32,
        decreases rest,
    {
        assert(rest >> 1 == rest / 2) by (bit_vector);
        rest = rest >> 1;
        bits = bits + 1;
    }
    bits
}

/// Number of bits that a value between `min` and `max` takes on the wire.
pub fn bits_required_for(min: i32, max: i32) -> (bits: u32)
    requires
        min <= max,
    ensures
        bits == bits_required(min as int, max as int),
        bits <= 32,
        min < max ==> bits >= 1,
{
    bit_length_of((max as i64 - min as i64) as u32)
}

/// The bits that stand for `value` in the range from `min` to `max`: its
/// distance from `min`, in `bits_required(min, max)` bits.
pub open spec fn int_bits(value: int, min: int, max: int) -> Seq<bool> {
    value_bits((value - min) as u64, bits_required(min, max))
}

/// The integer that the bits at position `at` stand for in the range from
/// `min` to `max`. It may exceed `max`.
pub open spec fn int_at(bits: Seq<bool>, at: nat, min: int, max: int) -> int {
    min + field_value(bits, at, bits_required(min, max))
}

/// The `n` bytes that the bits from position `at` spell.
pub open spec fn bytes_at(bits: Seq<bool>, at: nat, n: nat) -> Seq<u8> {
    Seq::new(n, |i: int| field_value(bits, (at + 8 * i) as nat, 8) as u8)
}

/// What a writing stream appends for a block of bytes: the padding to the
/// next byte boundary, then the bytes.
pub open spec fn block_bits(at: nat, bytes: Seq<u8>) -> Seq<bool> {
    zero_bits(align_gap(at)) + byte_bits(bytes)
}

/// What a writing stream appends for a check marker: the padding to the next
/// byte boundary, then the marker's hash.
pub open spec fn check_bits(at: nat, marker: Seq<char>) -> Seq<bool> {
    zero_bits(align_gap(at)) + value_bits(marker_hash(marker) as u64, 32)
}

/// Whether the padding from position `at` to the next byte boundary is all
/// zero bits.
pub open spec fn padding_clean(bits: Seq<bool>, at: nat) -> bool {
    field_value(bits, at, align_gap(at)) == 0
}

/// What a stream is to a contract.
///
/// On a writing stream `bits` is what has been written, `position` is its
/// length and `limit` is the capacity. On a reading stream `bits` is fixed,
/// `position` counts what has been read and `limit` is the length of `bits`.
/// `storage` is the number of bytes of the buffer underneath.
pub struct StreamView {
    pub writing: bool,
    pub bits: Seq<bool>,
    pub position: nat,
    pub limit: nat,
    pub storage: nat,
    pub error: ProtocolError,
}

/// A writing step: `after` is `before` with `added` appended, and nothing
/// else changed.
pub open spec fn appended(before: StreamView, after: StreamView, added: Seq<bool>) -> bool {
    &&& after.writing
    &&& after.bits == before.bits + added
    &&& after.position == before.position + added.len()
    &&& after.limit == before.limit
    &&& after.storage == before.storage
    &&& after.error == before.error
}

/// A reading step: `after` is `before` moved on by `n` bits. The error is
/// not spoken of.
pub open spec fn advanced(before: StreamView, after: StreamView, n: nat) -> bool {
    &&& !after.writing
    &&& after.bits == before.bits
    &&& after.position == before.position + n
    &&& after.limit == before.limit
    &&& after.storage == before.storage
}

/// A reading step that left the error as it was.
pub open spec fn read_on(before: StreamView, after: StreamView, n: nat) -> bool {
    advanced(before, after, n) && after.error == before.error
}

/// A reading step that ran into the end of the stream.
pub open spec fn ran_out(before: StreamView, after: StreamView, n: nat) -> bool {
    advanced(before, after, n) && after.error == ProtocolError::StreamOverflow
}

/// Round trip of a bounded integer: the bits that stand for a value of the
/// range from `min` to `max`, wherever they stand in a stream, are read back
/// as that value.
pub proof fn lemma_int_round_trip(
    before: Seq<bool>,
    value: i32,
    min: i32,
    max: i32,
    after: Seq<bool>,
)
    requires
        min < max,
        min <= value <= max,
    ensures
        int_at(
            before + int_bits(value as int, min as int, max as int) + after,
            before.len(),
            min as int,
            max as int,
        ) == value,
        bits_required(min as int, max as int) >= 1,
{
    let n = bits_required(min as int, max as int);
    let span = (max - min) as u64;
    let v = (value - min) as u64;
    lemma_bit_length_bound((max - min) as nat);
    let m = n as u64;
    assert(v & low_mask(m) == v) by (bit_vector)
        requires
            v <= span,
            span & low_mask(m) == span,
            m <= 32,
    ;
    lemma_bits_round_trip(before, v as u32, n, after);
}

/// A writing pass: `after` is `before` with something appended, and nothing
/// else changed.
pub open spec fn extended(before: StreamView, after: StreamView) -> bool {
    &&& before.bits.len() <= after.bits.len()
    &&& appended(before, after, after.bits.skip(before.bits.len() as int))
}

/// A reading pass: `after` is `before` moved on by some number of bits. A
/// latched error stays latched.
pub open spec fn moved_on(before: StreamView, after: StreamView) -> bool {
    &&& before.position <= after.position
    &&& advanced(before, after, (after.position - before.position) as nat)
    &&& before.error != ProtocolError::NoError ==> after.error == before.error
}

/// What was written is what is read, of streams: a reading stream over the
/// buffer that a writing stream has flushed holds the bits written first.
pub proof fn lemma_stream_written_is_read(writer: WriteStream, reader: ReadStream)
    requires
        holds_flushed(writer.buffer(), writer@.bits),
        reader.wf(),
        reader.data() == writer.buffer(),
        writer@.bits.len() <= reader@.limit,
    ensures
        reader@.bits == writer@.bits + reader@.bits.skip(writer@.bits.len() as int),
        !reader@.writing,
        reader@.limit == reader@.bits.len(),
{
    reader.lemma_bits();
    reader.lemma_reading();
    reader.lemma_stream();
    lemma_flushed_stream(writer@.bits, writer.buffer(), reader@.limit as int);
    lemma_concat_skip(
        writer@.bits,
        byte_bits(writer.buffer()).subrange(writer@.bits.len() as int, reader@.limit as int),
    );
}

/// Round trip of a bounded integer through a buffer: where a writing stream
/// has written a value of the range from `min` to `max` among its bits and
/// flushed, a read of an integer of that range by a reading stream over its
/// buffer that stands where the integer starts succeeds, gives the value,
/// and leaves the stream's error as it was.
pub proof fn lemma_int_read_back(
    writer: WriteStream,
    reader: ReadStream,
    before: Seq<bool>,
    value: i32,
    min: i32,
    max: i32,
    after: Seq<bool>,
    then: StreamView,
    old_out: i32,
    out: i32,
    ok: bool,
)
    requires
        min < max,
        min <= value <= max,
        writer@.bits == before + int_bits(value as int, min as int, max as int) + after,
        holds_flushed(writer.buffer(), writer@.bits),
        reader.wf(),
        reader.data() == writer.buffer(),
        writer@.bits.len() <= reader@.limit,
        reader@.position == before.len(),
        int_serialized(reader@, then, old_out, out, min as int, max as int, ok),
    ensures
        ok,
        out == value,
        then.error == reader@.error,
{
    lemma_stream_written_is_read(writer, reader);
    let rest = after + reader@.bits.skip(writer@.bits.len() as int);
    assert(reader@.bits =~= before + int_bits(value as int, min as int, max as int) + rest);
    lemma_int_round_trip(before, value, min, max, rest);
}

/// Round trip of a byte block: where a stream holds, from position
/// `before.len()`, what a writer appends there for a block of bytes, the
/// padding reads as clean and the bytes behind it are read back as the
/// block.
pub proof fn lemma_block_round_trip(before: Seq<bool>, bytes: Seq<u8>, after: Seq<bool>)
    ensures
        padding_clean(before + block_bits(before.len(), bytes) + after, before.len()),
        bytes_at(
            before + block_bits(before.len(), bytes) + after,
            before.len() + align_gap(before.len()),
            bytes.len(),
        ) == bytes,
{
    let gap = align_gap(before.len());
    let all = before + block_bits(before.len(), bytes) + after;
    let at = before.len() as int;
    assert(all.subrange(at, at + gap) =~= zero_bits(gap));
    lemma_zero_bits_value(gap);
    let read = bytes_at(all, (at + gap) as nat, bytes.len());
    assert forall|i: int| 0 <= i < bytes.len() implies read[i] == bytes[i] by {
        lemma_field_is_byte(bytes, i);
        assert(all.subrange(at + gap + 8 * i, at + gap + 8 * i + 8) =~= byte_bits(bytes).subrange(
            8 * i,
            8 * i + 8,
        ));
    }
    assert(read =~= bytes);
}

/// Round trip of a check marker: where a stream holds, from position
/// `before.len()`, what a writer appends there for a marker, the 32 bits
/// behind the padding are read back as the marker's hash.
pub proof fn lemma_check_round_trip(before: Seq<bool>, marker: Seq<char>, after: Seq<bool>)
    ensures
        field_value(
            before + check_bits(before.len(), marker) + after,
            before.len() + align_gap(before.len()),
            32,
        ) == marker_hash(marker),
{
    let gap = zero_bits(align_gap(before.len()));
    let hash = marker_hash(marker);
    let all = before + check_bits(before.len(), marker) + after;
    assert(all =~= (before + gap) + value_bits(hash as u64, 32) + after);
    assert((hash as u64) & low_mask(32) == hash as u64) by (bit_vector)
        requires
            hash as u64 <= 0xffff_ffff,
    ;
    lemma_bits_round_trip(before + gap, hash, 32, after);
}

/// What reading one item off a stream comes to: how many bits it consumed,
/// whether it ran into the end of the stream, and the item, if one was read.
pub struct Parsed<T> {
    pub used: nat,
    pub overflow: bool,
    pub value: Option<T>,
}

/// A reading step described by its outcome: `after` is `before` moved on by
/// what was consumed, with the overflow latched if the end was hit, and
/// success is reported exactly when an item was read.
pub open spec fn parsed<T>(
    before: StreamView,
    after: StreamView,
    ok: bool,
    outcome: Parsed<T>,
) -> bool {
    &&& ok == outcome.value.is_some()
    &&& advanced(before, after, outcome.used)
    &&& after.error == (if outcome.overflow {
        ProtocolError::StreamOverflow
    } else {
        before.error
    })
}

/// Whether a step of `n` bits may be taken: a writing stream needs room for
/// it, a reading stream may always try.
pub open spec fn room_for(stream: StreamView, n: nat) -> bool {
    stream.writing ==> stream.position + n <= stream.limit
}

/// What serializing an integer in the range from `min` to `max` does.
///
/// Writing appends the value's bits. Reading past the end latches the
/// overflow and consumes nothing. Otherwise the field is consumed, and the
/// value read is handed out unless it exceeds `max`.
pub open spec fn int_serialized(
    before: StreamView,
    after: StreamView,
    old_value: i32,
    new_value: i32,
    min: int,
    max: int,
    ok: bool,
) -> bool {
    let n = bits_required(min, max);
    let read = int_at(before.bits, before.position, min, max);
    if before.writing {
        ok && new_value == old_value && appended(
            before,
            after,
            int_bits(old_value as int, min, max),
        )
    } else if before.position + n > before.limit {
        !ok && new_value == old_value && ran_out(before, after, 0)
    } else {
        &&& read_on(before, after, n)
        &&& ok == (read <= max)
        &&& new_value == (if ok {
            read
        } else {
            old_value as int
        })
    }
}

/// What serializing a field of `n` bits does.
pub open spec fn bits_serialized(
    before: StreamView,
    after: StreamView,
    old_value: u32,
    new_value: u32,
    n: nat,
    ok: bool,
) -> bool {
    if before.writing {
        ok && new_value == old_value && appended(before, after, value_bits(old_value as u64, n))
    } else if before.position + n > before.limit {
        !ok && new_value == old_value && ran_out(before, after, 0)
    } else {
        ok && new_value == field_value(before.bits, before.position, n) && read_on(before, after, n)
    }
}

/// What aligning to the next byte boundary does.
pub open spec fn align_serialized(before: StreamView, after: StreamView, ok: bool) -> bool {
    if before.writing {
        ok && appended(before, after, zero_bits(align_gap(before.position)))
    } else {
        ok == padding_clean(before.bits, before.position) && read_on(
            before,
            after,
            align_gap(before.position),
        )
    }
}

/// What serializing a block of `n` bytes does.
///
/// Reading stops after the padding where the padding is not clean, and
/// latches the overflow there where fewer than `n` bytes are left.
pub open spec fn bytes_serialized(
    before: StreamView,
    after: StreamView,
    old_bytes: Seq<u8>,
    new_bytes: Seq<u8>,
    n: nat,
    ok: bool,
) -> bool {
    let gap = align_gap(before.position);
    let start = before.position + gap;
    if before.writing {
        ok && new_bytes == old_bytes && appended(
            before,
            after,
            block_bits(before.position, old_bytes.take(n as int)),
        )
    } else if !padding_clean(before.bits, before.position) {
        !ok && new_bytes == old_bytes && read_on(before, after, gap)
    } else if start + 8 * n > before.limit {
        !ok && new_bytes == old_bytes && ran_out(before, after, gap)
    } else {
        &&& ok
        &&& new_bytes == bytes_at(before.bits, start, n) + old_bytes.skip(n as int)
        &&& read_on(before, after, gap + 8 * n)
    }
}

/// What serializing a check marker does.
pub open spec fn check_serialized(
    before: StreamView,
    after: StreamView,
    marker: Seq<char>,
    ok: bool,
) -> bool {
    let gap = align_gap(before.position);
    let start = before.position + gap;
    if before.writing {
        ok && appended(before, after, check_bits(before.position, marker))
    } else if start + 32 > before.limit {
        !ok && ran_out(before, after, gap)
    } else {
        ok == (field_value(before.bits, start, 32) == marker_hash(marker)) && read_on(
            before,
            after,
            gap + 32,
        )
    }
}

/// The interface that serialization routines are written against.
///
/// Writing past the capacity is a caller's error, so the writing direction
/// asks for room in `requires`. Reading past the end is bad input: the stream
/// latches `StreamOverflow` and reports failure.
pub trait Stream: Sized {
    /// The invariant of the stream.
    spec fn wf(&self) -> bool;

    /// The stream as contracts see it.
    spec fn view(&self) -> StreamView;

    /// What the invariant gives.
    proof fn lemma_stream(&self)
        requires
            self.wf(),
        ensures
            self@.position <= self@.limit,
            self@.limit % 8 == 0,
            self@.limit <= u32::MAX,
            self@.limit <= 8 * self@.storage,
            self@.writing ==> self@.position == self@.bits.len() && self@.limit % 32 == 0,
            !self@.writing ==> self@.limit == self@.bits.len(),
            self@.error == ProtocolError::NoError || self@.error == ProtocolError::StreamOverflow,
    ;

    /// Whether the stream reads.
    fn is_reading(&self) -> (reading: bool)
        ensures
            reading == !self@.writing,
    ;

    /// Whether the stream writes.
    fn is_writing(&self) -> (writing: bool)
        ensures
            writing == self@.writing,
    ;

    /// Writes `value` as a member of the range from `min` to `max`, or reads
    /// one. A value read that exceeds `max` is refused.
    fn serialise_int(&mut self, value: &mut i32, min: i32, max: i32) -> (ok: bool)
        requires
            old(self).wf(),
            min < max,
            old(self)@.writing ==> min <= *old(value) <= max,
            room_for(old(self)@, bits_required(min as int, max as int)),
        ensures
            final(self).wf(),
            int_serialized(
                old(self)@,
                final(self)@,
                *old(value),
                *final(value),
                min as int,
                max as int,
                ok,
            ),
    ;

    /// Writes the `bits` low bits of `value`, or reads `bits` bits into it.
    fn serialize_bits(&mut self, value: &mut u32, bits: u32) -> (ok: bool)
        requires
            old(self).wf(),
            1 <= bits <= 32,
            room_for(old(self)@, bits as nat),
        ensures
            final(self).wf(),
            bits_serialized(
                old(self)@,
                final(self)@,
                *old(value),
                *final(value),
                bits as nat,
                ok,
            ),
    ;

    /// Pads with zero bits to the next byte boundary, or reads the padding
    /// and tells whether it was all zero.
    fn serialize_align(&mut self) -> (ok: bool)
        requires
            old(self).wf(),
        ensures
            final(self).wf(),
            align_serialized(old(self)@, final(self)@, ok),
    ;

    /// Aligns, then writes the first `num_bytes` bytes of `bytes` or reads
    /// that many into its front.
    fn serialize_bytes(&mut self, bytes: &mut Vec<u8>, num_bytes: u32) -> (ok: bool)
        requires
            old(self).wf(),
            num_bytes > 0,
            num_bytes <= old(bytes)@.len(),
            room_for(old(self)@, (align_gap(old(self)@.position) + 8 * num_bytes) as nat),
        ensures
            final(self).wf(),
            bytes_serialized(
                old(self)@,
                final(self)@,
                old(bytes)@,
                final(bytes)@,
                num_bytes as nat,
                ok,
            ),
    ;

    /// Aligns, then writes the 32-bit hash of `marker`, or reads 32 bits and
    /// compares them with it. Both sides call this with one text at
    /// matching points, so that a reader out of step with its writer
    /// notices.
    fn serialize_check(&mut self, marker: &mut String) -> (ok: bool)
        requires
            old(self).wf(),
            room_for(old(self)@, align_gap(old(self)@.position) + 32),
        ensures
            final(self).wf(),
            *final(marker) == *old(marker),
            check_serialized(old(self)@, final(self)@, old(marker)@, ok),
    ;

    /// Number of bytes that hold the bits written or read so far.
    fn get_bytes_processed(&self) -> (n: u32)
        requires
            self.wf(),
        ensures
            n == (self@.position + 7) / 8,
    ;

    /// Number of bits written or read so far.
    fn get_bits_processed(&self) -> (n: u32)
        requires
            self.wf(),
        ensures
            n == self@.position,
    ;

    /// Number of bits between the position and the limit.
    fn get_bits_remaining(&self) -> (n: u32)
        requires
            self.wf(),
        ensures
            n == self@.limit - self@.position,
    ;

    /// The latched error.
    fn get_error(&self) -> (error: ProtocolError)
        ensures
            error == self@.error,
    ;
}

} // verus!
