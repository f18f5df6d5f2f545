//! Typed serialization routines. Each is written once against `Stream` and
//! serves both directions.
use std::string::FromUtf8Error;
use vstd::prelude::*;
use vstd::utf8::{decode_utf8, encode_utf8, valid_utf8};

use crate::bitpacker::{
    align_gap, bits_value, field_value, holds_flushed, value_bits, zero_bits,
};
use crate::streams::read_stream::ReadStream;
use crate::streams::write_stream::WriteStream;
use crate::streams::{
    align_serialized, appended, bit_length, bit_length_of, bits_required, bits_serialized,
    block_bits, bytes_at, bytes_serialized, int_at, int_bits, int_serialized,
    lemma_block_round_trip, lemma_int_round_trip, lemma_stream_written_is_read, padding_clean,
    parsed, ran_out, read_on, room_for, Parsed, Stream, StreamView,
};

verus! {

/// Size of the index space that object indices are drawn from. The value
/// itself closes an index list.
pub const MAX_OBJECTS: u32 = 1024;

/// Writes or reads an integer in the range from `min` to `max`.
pub fn serialize_int_macro<S: Stream>(
    stream: &mut S,
    value: &mut i32,
    min: i32,
    max: i32,
) -> (ok: bool)
    requires
        old(stream).wf(),
        min < max,
        old(stream)@.writing ==> min <= *old(value) <= max,
        room_for(old(stream)@, bits_required(min as int, max as int)),
    ensures
        final(stream).wf(),
        int_serialized(
            old(stream)@,
            final(stream)@,
            *old(value),
            *final(value),
            min as int,
            max as int,
            ok,
        ),
{
    let mut val: i32 = 0;
    if stream.is_writing() {
        val = *value;
    }
    if !stream.serialise_int(&mut val, min, max) {
        return false;
    }
    if stream.is_reading() {
        *value = val;
        if val < min || val > max {
            return false;
        }
    }
    true
}

/// Writes or reads a field of `bits` bits.
pub fn serialize_bits_macro<S: Stream>(stream: &mut S, value: &mut u32, bits: u32) -> (ok: bool)
    requires
        old(stream).wf(),
        1 <= bits <= 32,
        room_for(old(stream)@, bits as nat),
    ensures
        final(stream).wf(),
        bits_serialized(old(stream)@, final(stream)@, *old(value), *final(value), bits as nat, ok),
{
    let mut u32_val: u32 = 0;
    if stream.is_writing() {
        u32_val = *value;
    }
    if !stream.serialize_bits(&mut u32_val, bits) {
        return false;
    }
    if stream.is_reading() {
        *value = u32_val;
    }
    true
}

/// What serializing a truth value does: one bit, set for `true`.
pub open spec fn bool_serialized(
    before: StreamView,
    after: StreamView,
    old_value: bool,
    new_value: bool,
    ok: bool,
) -> bool {
    if before.writing {
        ok && new_value == old_value && appended(
            before,
            after,
            seq![old_value],
        )
    } else if before.position + 1 > before.limit {
        !ok && new_value == old_value && ran_out(before, after, 0)
    } else {
        ok && new_value == before.bits[before.position as int] && read_on(before, after, 1)
    }
}

/// Writes or reads a truth value.
pub fn serialize_bool_macro<S: Stream>(stream: &mut S, value: &mut bool) -> (ok: bool)
    requires
        old(stream).wf(),
        room_for(old(stream)@, 1),
    ensures
        final(stream).wf(),
        bool_serialized(old(stream)@, final(stream)@, *old(value), *final(value), ok),
{
    let mut uint32_bool_value: u32 = 0;
    if stream.is_writing() {
        if *value {
            uint32_bool_value = 1;
        }
    }
    proof {
        stream.lemma_stream();
        lemma_one_bit(old(stream)@.bits, old(stream)@.position, *value);
    }
    if !serialize_bits_macro(stream, &mut uint32_bool_value, 1) {
        return false;
    }
    if stream.is_reading() {
        *value = uint32_bool_value == 1;
    }
    true
}

/// A field of one bit is that bit, and a truth value is one bit.
proof fn lemma_one_bit(bits: Seq<bool>, at: nat, flag: bool)
    ensures
        value_bits(if flag { 1u64 } else { 0u64 }, 1) == seq![flag],
        at < bits.len() ==> field_value(bits, at, 1) == (if bits[at as int] { 1nat } else { 0nat }),
{
    assert((1u64 >> 0u64) & 1 == 1) by (bit_vector);
    assert((0u64 >> 0u64) & 1 == 0) by (bit_vector);
    assert(value_bits(if flag { 1u64 } else { 0u64 }, 1) =~= seq![flag]);
    if at < bits.len() {
        let one = bits.subrange(at as int, at as int + 1);
        assert(one.drop_first() =~= Seq::<bool>::empty());
        assert(bits_value(one) == (if one[0] { 1nat } else { 0nat }) + 2 * bits_value(
            one.drop_first(),
        ));
    }
}

/// Pads to the next byte boundary, or reads and checks the padding.
pub fn serialize_align_macro<S: Stream>(stream: &mut S) -> (ok: bool)
    requires
        old(stream).wf(),
    ensures
        final(stream).wf(),
        align_serialized(old(stream)@, final(stream)@, ok),
{
    stream.serialize_align()
}

/// Writes or reads the bit pattern of a 32-bit float, as it is. `value`
/// holds the pattern: `f32::to_bits` gives it and `f32::from_bits` takes it.
pub fn serialize_float_internal<S: Stream>(stream: &mut S, value: &mut u32) -> (ok: bool)
    requires
        old(stream).wf(),
        room_for(old(stream)@, 32),
    ensures
        final(stream).wf(),
        bits_serialized(old(stream)@, final(stream)@, *old(value), *final(value), 32, ok),
{
    let mut as_int: u32 = *value;
    let result = stream.serialize_bits(&mut as_int, 32);
    if stream.is_reading() {
        *value = as_int;
    }
    result
}

/// Writes or reads the bit pattern of a 32-bit float.
pub fn serialize_float_macro<S: Stream>(stream: &mut S, value: &mut u32) -> (ok: bool)
    requires
        old(stream).wf(),
        room_for(old(stream)@, 32),
    ensures
        final(stream).wf(),
        bits_serialized(old(stream)@, final(stream)@, *old(value), *final(value), 32, ok),
{
    if !serialize_float_internal(stream, value) {
        return false;
    }
    true
}

/// Writes or reads a step number on a scale of `steps` steps, the integer
/// form of a value held to a range at a fixed precision. It takes as many
/// bits as `steps` has binary digits.
pub fn serialize_quantized<S: Stream>(stream: &mut S, step: &mut u32, steps: u32) -> (ok: bool)
    requires
        old(stream).wf(),
        steps > 0,
        room_for(old(stream)@, bit_length(steps as nat)),
    ensures
        final(stream).wf(),
        bits_serialized(
            old(stream)@,
            final(stream)@,
            *old(step),
            *final(step),
            bit_length(steps as nat),
            ok,
        ),
{
    let bits: u32 = bit_length_of(steps);
    stream.serialize_bits(step, bits)
}

/// Writes the first `num_bytes` bytes of `bytes` at the next byte boundary,
/// or reads that many into its front.
pub fn serialize_bytes_internal<S: Stream>(
    stream: &mut S,
    bytes: &mut Vec<u8>,
    num_bytes: u32,
) -> (ok: bool)
    requires
        old(stream).wf(),
        num_bytes > 0,
        num_bytes <= old(bytes)@.len(),
        room_for(old(stream)@, (align_gap(old(stream)@.position) + 8 * num_bytes) as nat),
    ensures
        final(stream).wf(),
        bytes_serialized(
            old(stream)@,
            final(stream)@,
            old(bytes)@,
            final(bytes)@,
            num_bytes as nat,
            ok,
        ),
{
    stream.serialize_bytes(bytes, num_bytes)
}

/// Writes the first `num_bytes` bytes of `bytes` at the next byte boundary,
/// or reads that many into its front.
pub fn serialize_bytes_macro<S: Stream>(
    stream: &mut S,
    bytes: &mut Vec<u8>,
    num_bytes: u32,
) -> (ok: bool)
    requires
        old(stream).wf(),
        num_bytes > 0,
        num_bytes <= old(bytes)@.len(),
        room_for(old(stream)@, (align_gap(old(stream)@.position) + 8 * num_bytes) as nat),
    ensures
        final(stream).wf(),
        bytes_serialized(
            old(stream)@,
            final(stream)@,
            old(bytes)@,
            final(bytes)@,
            num_bytes as nat,
            ok,
        ),
{
    serialize_bytes_internal(stream, bytes, num_bytes)
}

/// The error of `String::from_utf8`. Nothing is read out of it.
#[verifier::external_type_specification]
#[verifier::external_body]
pub struct ExFromUtf8Error(FromUtf8Error);

/// `String::from_utf8` gives the string that the bytes encode where they are
/// valid UTF-8, and an error where they are not.
pub assume_specification[ String::from_utf8 ](vec: Vec<u8>) -> (text: Result<String, FromUtf8Error>)
    ensures
        text.is_ok() == valid_utf8(vec@),
        text matches Ok(s) ==> s@ == decode_utf8(vec@),
;

/// What a writing stream at position `at` appends for a string: the number
/// of bytes of its UTF-8 form as an integer between 0 and `max_len - 1`, and,
/// unless that is zero, those bytes as a block.
pub open spec fn string_bits(at: nat, text: Seq<char>, max_len: int) -> Seq<bool> {
    let bytes = encode_utf8(text);
    let head = int_bits(bytes.len() as int, 0, max_len - 1);
    if bytes.len() == 0 {
        head
    } else {
        head + block_bits(at + head.len(), bytes)
    }
}

/// What reading a string off a stream comes to.
///
/// The read fails at the length where the stream ends or the length exceeds
/// `max_len - 1`, after the padding where that is not clean or too few bytes
/// follow, and after the bytes where they are not valid UTF-8.
pub open spec fn string_read(stream: StreamView, max_len: int) -> Parsed<Seq<char>> {
    let width = bits_required(0, max_len - 1);
    let len = int_at(stream.bits, stream.position, 0, max_len - 1);
    let gap = align_gap(stream.position + width);
    let start = stream.position + width + gap;
    let bytes = bytes_at(stream.bits, start, len as nat);
    if stream.position + width > stream.limit {
        Parsed { used: 0, overflow: true, value: None }
    } else if len > max_len - 1 {
        Parsed { used: width, overflow: false, value: None }
    } else if len == 0 {
        Parsed { used: width, overflow: false, value: Some(Seq::empty()) }
    } else if !padding_clean(stream.bits, stream.position + width) {
        Parsed { used: width + gap, overflow: false, value: None }
    } else if start + 8 * len > stream.limit {
        Parsed { used: width + gap, overflow: true, value: None }
    } else if !valid_utf8(bytes) {
        Parsed { used: (width + gap + 8 * len) as nat, overflow: false, value: None }
    } else {
        Parsed {
            used: (width + gap + 8 * len) as nat,
            overflow: false,
            value: Some(decode_utf8(bytes)),
        }
    }
}

/// What serializing a string of at most `max_len - 1` bytes does.
pub open spec fn string_serialized(
    before: StreamView,
    after: StreamView,
    old_text: Seq<char>,
    new_text: Seq<char>,
    max_len: int,
    ok: bool,
) -> bool {
    if before.writing {
        ok && new_text == old_text && appended(
            before,
            after,
            string_bits(before.position, old_text, max_len),
        )
    } else {
        let outcome = string_read(before, max_len);
        parsed(before, after, ok, outcome) && new_text == (match outcome.value {
            Some(text) => text,
            None => old_text,
        })
    }
}

/// Round trip of a string: where a stream holds, from its position on, what
/// a writer appends there for a string, the string is read back, and reading
/// consumes what was appended and no more.
pub proof fn lemma_string_round_trip(
    stream: StreamView,
    before: Seq<bool>,
    text: Seq<char>,
    max_len: int,
    after: Seq<bool>,
)
    requires
        2 <= max_len <= i32::MAX,
        encode_utf8(text).len() <= max_len - 1,
        stream.bits == before + string_bits(before.len(), text, max_len) + after,
        stream.position == before.len(),
        stream.limit == stream.bits.len(),
    ensures
        string_read(stream, max_len) == (Parsed {
            used: string_bits(before.len(), text, max_len).len(),
            overflow: false,
            value: Some(text),
        }),
{
    let bytes = encode_utf8(text);
    let len = bytes.len() as int;
    let head = int_bits(len, 0, max_len - 1);
    lemma_int_round_trip(before, len as i32, 0, (max_len - 1) as i32, after);
    if len == 0 {
        vstd::utf8::encode_utf8_decode_utf8(text);
        assert(text =~= Seq::<char>::empty());
    } else {
        let block = block_bits(before.len() + head.len(), bytes);
        assert(stream.bits =~= before + head + (block + after));
        lemma_int_round_trip(before, len as i32, 0, (max_len - 1) as i32, block + after);
        assert(stream.bits =~= (before + head) + block + after);
        lemma_block_round_trip(before + head, bytes, after);
        vstd::utf8::encode_utf8_valid_utf8(text);
        vstd::utf8::encode_utf8_decode_utf8(text);
    }
}

/// Writes a string as its length in bytes, a number between 0 and
/// `buffer_size - 1`, followed by its UTF-8 bytes; or reads one.
#[verifier::rlimit(50)]
pub fn serialize_string_internal<S: Stream>(
    stream: &mut S,
    string: &mut String,
    buffer_size: usize,
) -> (ok: bool)
    requires
        old(stream).wf(),
        2 <= buffer_size <= i32::MAX,
        old(stream)@.writing ==> encode_utf8(old(string)@).len() <= buffer_size - 1,
        room_for(
            old(stream)@,
            string_bits(old(stream)@.position, old(string)@, buffer_size as int).len(),
        ),
    ensures
        final(stream).wf(),
        string_serialized(
            old(stream)@,
            final(stream)@,
            old(string)@,
            final(string)@,
            buffer_size as int,
            ok,
        ),
{
    let max: i32 = (buffer_size - 1) as i32;
    let ghost before = stream@;
    let mut length: i32 = 0;
    let mut bytes: Vec<u8> = Vec::new();
    proof {
        stream.lemma_stream();
    }
    if stream.is_writing() {
        let text: &[u8] = string.as_str().as_bytes();
        length = text.len() as i32;
        let mut i: usize = 0;
        while i < text.len()
            invariant
                i <= text@.len(),
                bytes@ == text@.take(i as int),
            decreases text@.len() - i,
        {
            bytes.push(text[i]);
            assert(text@.take(i + 1) =~= text@.take(i as int).push(text@[i as int]));
            i = i + 1;
        }
        assert(text@.take(i as int) =~= text@);
    }
    if !serialize_int_macro(stream, &mut length, 0, max) {
        return false;
    }
    if length == 0 {
        if stream.is_reading() {
            *string = String::new();
        }
        return true;
    }
    if stream.is_reading() {
        let mut i: i32 = 0;
        while i < length
            invariant
                i <= length,
                bytes@.len() == i,
            decreases length - i,
        {
            bytes.push(0);
            i = i + 1;
        }
    }
    let ghost mid = stream@;
    proof {
        stream.lemma_stream();
    }
    if !serialize_bytes_macro(stream, &mut bytes, length as u32) {
        return false;
    }
    if stream.is_reading() {
        assert(bytes@ =~= bytes_at(
            before.bits,
            (mid.position + align_gap(mid.position)) as nat,
            length as nat,
        ));
        match String::from_utf8(bytes) {
            Ok(text) => {
                *string = text;
            },
            Err(_) => {
                return false;
            },
        }
    } else {
        proof {
            let head = int_bits(length as int, 0, max as int);
            assert(bytes@.take(length as int) =~= bytes@);
            assert(before.bits + head + block_bits(mid.position, bytes@) =~= before.bits + (head
                + block_bits(mid.position, bytes@)));
        }
    }
    true
}

/// Writes a string as its length in bytes followed by its UTF-8 bytes, or
/// reads one.
pub fn serialize_string_macro<S: Stream>(
    stream: &mut S,
    string: &mut String,
    buffer_size: usize,
) -> (ok: bool)
    requires
        old(stream).wf(),
        2 <= buffer_size <= i32::MAX,
        old(stream)@.writing ==> encode_utf8(old(string)@).len() <= buffer_size - 1,
        room_for(
            old(stream)@,
            string_bits(old(stream)@.position, old(string)@, buffer_size as int).len(),
        ),
    ensures
        final(stream).wf(),
        string_serialized(
            old(stream)@,
            final(stream)@,
            old(string)@,
            final(string)@,
            buffer_size as int,
            ok,
        ),
{
    serialize_string_internal(stream, string, buffer_size)
}

/// Number of ranges that the index code tries before it falls back to the
/// raw form.
pub const INDEX_LEVELS: u32 = 6;

/// Smallest difference of the index code's range number `level`. Level 0
/// holds the difference 1 alone; each further level holds twice as many
/// differences as the one before; past the last level stands the raw range.
pub open spec fn level_lo(level: nat) -> int {
    if level == 0 {
        1
    } else if level == 1 {
        2
    } else if level == 2 {
        6
    } else if level == 3 {
        14
    } else if level == 4 {
        30
    } else if level == 5 {
        62
    } else {
        126
    }
}

/// Largest difference of the index code's range number `level`.
pub open spec fn level_hi(level: nat) -> int {
    if level == 0 {
        1
    } else if level == 1 {
        5
    } else if level == 2 {
        13
    } else if level == 3 {
        29
    } else if level == 4 {
        61
    } else if level == 5 {
        125
    } else {
        MAX_OBJECTS + 1
    }
}

/// The code of a difference `d`, as far as it is left to write once the
/// ranges below `level` have been passed over: a set flag and the difference
/// within the range where it lies in this one, a cleared flag and the rest
/// where it does not, and the difference within the raw range after the last
/// flag.
pub open spec fn index_code_from(d: int, level: nat) -> Seq<bool>
    decreases INDEX_LEVELS - level,
{
    if level >= INDEX_LEVELS {
        int_bits(d, level_lo(level), level_hi(level))
    } else if d <= level_hi(level) {
        seq![true] + int_bits(d, level_lo(level), level_hi(level))
    } else {
        seq![false] + index_code_from(d, level + 1)
    }
}

/// The code of the difference `d` between an index and the one before it.
pub open spec fn index_code(d: int) -> Seq<bool> {
    index_code_from(d, 0)
}

/// What reading a difference comes to once `level` cleared flags have been
/// read, the next bit standing at `at`.
pub open spec fn index_read_from(stream: StreamView, at: nat, level: nat) -> Parsed<int>
    decreases INDEX_LEVELS - level,
{
    let used = (at - stream.position) as nat;
    let flagged = if level >= INDEX_LEVELS {
        at
    } else {
        at + 1
    };
    let width = bits_required(level_lo(level), level_hi(level));
    let read = int_at(stream.bits, flagged, level_lo(level), level_hi(level));
    if flagged > stream.limit {
        Parsed { used: used, overflow: true, value: None }
    } else if level < INDEX_LEVELS && !stream.bits[at as int] {
        index_read_from(stream, at + 1, level + 1)
    } else if flagged + width > stream.limit {
        Parsed { used: (flagged - stream.position) as nat, overflow: true, value: None }
    } else if read > level_hi(level) {
        Parsed { used: (flagged + width - stream.position) as nat, overflow: false, value: None }
    } else {
        Parsed {
            used: (flagged + width - stream.position) as nat,
            overflow: false,
            value: Some(read),
        }
    }
}

/// What reading a difference off a stream comes to.
pub open spec fn index_read(stream: StreamView) -> Parsed<int> {
    index_read_from(stream, stream.position, 0)
}

/// The index that a difference leads to from the index before it: their
/// sum, held to `MAX_OBJECTS`.
pub open spec fn index_after(previous: int, difference: int) -> int {
    if previous + difference > MAX_OBJECTS {
        MAX_OBJECTS as int
    } else {
        previous + difference
    }
}

/// What serializing an object index relative to the one before does.
///
/// Writing appends the code of their difference. Reading takes a difference
/// off the stream and adds it to the index before. Either way the index
/// becomes the new index before; where reading fails, both stay.
pub open spec fn index_serialized(
    before: StreamView,
    after: StreamView,
    old_previous: i32,
    old_current: i32,
    new_previous: i32,
    new_current: i32,
    ok: bool,
) -> bool {
    if before.writing {
        &&& ok
        &&& new_current == old_current
        &&& new_previous == old_current
        &&& appended(before, after, index_code(old_current - old_previous))
    } else {
        let outcome = index_read(before);
        &&& parsed(before, after, ok, outcome)
        &&& match outcome.value {
            Some(d) => new_current == index_after(old_previous as int, d) && new_previous
                == new_current,
            None => new_current == old_current && new_previous == old_previous,
        }
    }
}

/// The bounds of the index code's range number `level`.
fn level_range(level: u32) -> (range: (i32, i32))
    ensures
        range.0 == level_lo(level as nat),
        range.1 == level_hi(level as nat),
        1 <= range.0 <= range.1 <= MAX_OBJECTS + 1,
{
    if level == 0 {
        (1, 1)
    } else if level == 1 {
        (2, 5)
    } else if level == 2 {
        (6, 13)
    } else if level == 3 {
        (14, 29)
    } else if level == 4 {
        (30, 61)
    } else if level == 5 {
        (62, 125)
    } else {
        (126, MAX_OBJECTS as i32 + 1)
    }
}

/// The code's flags and fields add up to the code's length.
proof fn lemma_index_code_len(d: int, level: nat)
    requires
        level <= INDEX_LEVELS,
    ensures
        index_code_from(d, level).len() == (if level >= INDEX_LEVELS {
            bits_required(level_lo(level), level_hi(level))
        } else if d <= level_hi(level) {
            1 + bits_required(level_lo(level), level_hi(level))
        } else {
            1 + index_code_from(d, level + 1).len()
        }),
{
}

/// Writes an object index as the code of its difference from the index
/// before it, or reads one. `previous` then holds the index.
#[verifier::rlimit(50)]
pub fn serialize_object_index_internal<S: Stream>(
    stream: &mut S,
    previous: &mut i32,
    current: &mut i32,
) -> (ok: bool)
    requires
        old(stream).wf(),
        -1 <= *old(previous) <= MAX_OBJECTS,
        old(stream)@.writing ==> *old(previous) < *old(current) <= MAX_OBJECTS,
        room_for(old(stream)@, index_code(*old(current) - *old(previous)).len()),
    ensures
        final(stream).wf(),
        index_serialized(
            old(stream)@,
            final(stream)@,
            *old(previous),
            *old(current),
            *final(previous),
            *final(current),
            ok,
        ),
{
    let ghost before = stream@;
    let writing: bool = stream.is_writing();
    let mut difference: i32 = 0;
    if writing {
        difference = *current - *previous;
    }
    let ghost d = difference as int;
    let mut level: u32 = 0;
    let mut found: bool = false;
    proof {
        stream.lemma_stream();
        assert(before.bits + Seq::<bool>::empty() =~= before.bits);
        assert(Seq::<bool>::empty() + index_code_from(d, 0) =~= index_code(d));
    }
    while level < INDEX_LEVELS && !found
        invariant
            level <= INDEX_LEVELS,
            before == old(stream)@,
            writing == before.writing,
            stream.wf(),
            *previous == *old(previous),
            *current == *old(current),
            -1 <= *previous <= MAX_OBJECTS,
            before.position <= before.limit,
            !writing ==> before.limit == before.bits.len(),
            writing ==> d == *current - *previous && difference == d && 1 <= d <= MAX_OBJECTS + 1,
            writing && !found ==> {
                &&& appended(before, stream@, zero_bits(level as nat))
                &&& index_code(d) == zero_bits(level as nat) + index_code_from(d, level as nat)
                &&& room_for(stream@, index_code_from(d, level as nat).len())
                &&& forall|j: nat| j < level ==> d > level_hi(j)
            },
            writing && found ==> appended(before, stream@, index_code(d)),
            !writing && !found ==> {
                &&& read_on(before, stream@, level as nat)
                &&& index_read(before) == index_read_from(
                    before,
                    before.position + level as nat,
                    level as nat,
                )
            },
            !writing && found ==> {
                &&& parsed(before, stream@, true, index_read(before))
                &&& index_read(before).value == Some(difference as int)
                &&& 1 <= difference <= MAX_OBJECTS + 1
            },
        decreases INDEX_LEVELS - level + (if found { 0int } else { 1int }),
    {
        let range = level_range(level);
        let lo: i32 = range.0;
        let hi: i32 = range.1;
        let ghost at_flag = stream@;
        let mut in_range: bool = false;
        if writing {
            in_range = difference <= hi;
        }
        let ghost outcome = index_read_from(before, at_flag.position, level as nat);
        proof {
            stream.lemma_stream();
            lemma_index_code_len(d, level as nat);
            if writing && level > 0 {
                assert(d > level_hi((level - 1) as nat));
            }
        }
        if !serialize_bool_macro(stream, &mut in_range) {
            assert(outcome == Parsed::<int> { used: level as nat, overflow: true, value: None });
            return false;
        }
        let ghost at_field = stream@;
        if in_range {
            if lo < hi {
                if !serialize_int_macro(stream, &mut difference, lo, hi) {
                    assert(outcome.value.is_none());
                    return false;
                }
            } else if !writing {
                difference = lo;
                proof {
                    let at = at_field.position as int;
                    assert(before.bits.subrange(at, at) =~= Seq::<bool>::empty());
                }
            }
            found = true;
            proof {
                if writing {
                    let flags = zero_bits(level as nat);
                    let field = int_bits(d, lo as int, hi as int);
                    if lo == hi {
                        assert(field =~= Seq::<bool>::empty());
                    }
                    assert(stream@.bits =~= before.bits + (flags + (seq![true] + field)));
                }
            }
        } else {
            proof {
                if writing {
                    let flags = zero_bits(level as nat);
                    assert(flags + seq![false] =~= zero_bits((level + 1) as nat));
                    assert(stream@.bits =~= before.bits + zero_bits((level + 1) as nat));
                    assert(flags + (seq![false] + index_code_from(d, (level + 1) as nat))
                        =~= zero_bits((level + 1) as nat) + index_code_from(
                        d,
                        (level + 1) as nat,
                    ));
                    assert forall|j: nat| j < level + 1 implies d > level_hi(j) by {
                        if j == level {
                        }
                    }
                }
            }
            level = level + 1;
        }
    }
    if !found {
        let ghost at_raw = stream@;
        proof {
            stream.lemma_stream();
            lemma_index_code_len(d, INDEX_LEVELS as nat);
            if writing {
                assert(d > level_hi(5));
            }
        }
        if !serialize_int_macro(stream, &mut difference, 126, MAX_OBJECTS as i32 + 1) {
            return false;
        }
        proof {
            if writing {
                let flags = zero_bits(INDEX_LEVELS as nat);
                let field = int_bits(d, 126, MAX_OBJECTS + 1);
                assert(stream@.bits =~= before.bits + (flags + field));
            }
        }
    }
    if !writing {
        let mut index: i32 = *previous + difference;
        if index > MAX_OBJECTS as i32 {
            index = MAX_OBJECTS as i32;
        }
        *current = index;
    }
    *previous = *current;
    true
}

/// Reads an object index relative to `previous`.
pub fn read_object_index_macro<S: Stream>(
    stream: &mut S,
    previous: &mut i32,
    current: &mut i32,
) -> (ok: bool)
    requires
        old(stream).wf(),
        !old(stream)@.writing,
        -1 <= *old(previous) <= MAX_OBJECTS,
    ensures
        final(stream).wf(),
        index_serialized(
            old(stream)@,
            final(stream)@,
            *old(previous),
            *old(current),
            *final(previous),
            *final(current),
            ok,
        ),
{
    serialize_object_index_internal(stream, previous, current)
}

/// Writes the object index `current` relative to `previous`.
pub fn write_object_index_macro<S: Stream>(
    stream: &mut S,
    previous: &mut i32,
    current: i32,
) -> (ok: bool)
    requires
        old(stream).wf(),
        old(stream)@.writing,
        -1 <= *old(previous) < current <= MAX_OBJECTS,
        room_for(old(stream)@, index_code(current - *old(previous)).len()),
    ensures
        ok,
        final(stream).wf(),
        *final(previous) == current,
        appended(old(stream)@, final(stream)@, index_code(current - *old(previous))),
{
    let mut temp_current: i32 = current;
    serialize_object_index_internal(stream, previous, &mut temp_current)
}

proof fn lemma_index_round_trip_from(
    stream: StreamView,
    before: Seq<bool>,
    d: int,
    level: nat,
    after: Seq<bool>,
)
    requires
        level <= INDEX_LEVELS,
        level_lo(level) <= d <= MAX_OBJECTS + 1,
        stream.bits == before + index_code_from(d, level) + after,
        stream.position <= before.len(),
        stream.limit == stream.bits.len(),
    ensures
        index_read_from(stream, before.len(), level) == (Parsed {
            used: (before.len() + index_code_from(d, level).len() - stream.position) as nat,
            overflow: false,
            value: Some(d),
        }),
    decreases INDEX_LEVELS - level,
{
    let at = before.len() as int;
    let lo = level_lo(level);
    let hi = level_hi(level);
    let field = int_bits(d, lo, hi);
    lemma_index_code_len(d, level);
    if level >= INDEX_LEVELS {
        lemma_int_round_trip(before, d as i32, lo as i32, hi as i32, after);
    } else if d <= hi {
        let flagged = before + seq![true];
        assert(stream.bits =~= flagged + field + after);
        assert(stream.bits[at]);
        if lo < hi {
            lemma_int_round_trip(flagged, d as i32, lo as i32, hi as i32, after);
        } else {
            assert(stream.bits.subrange(at + 1, at + 1) =~= Seq::<bool>::empty());
        }
    } else {
        let flagged = before + seq![false];
        assert(stream.bits =~= flagged + index_code_from(d, level + 1) + after);
        assert(!stream.bits[at]);
        lemma_index_round_trip_from(stream, flagged, d, level + 1, after);
    }
}

/// Round trip of an index difference: the code of a difference between 1
/// and `MAX_OBJECTS + 1`, wherever it stands in a stream, is read back as
/// that difference, and reading consumes the code and no more.
pub proof fn lemma_index_round_trip(stream: StreamView, before: Seq<bool>, d: int, after: Seq<bool>)
    requires
        1 <= d <= MAX_OBJECTS + 1,
        stream.bits == before + index_code(d) + after,
        stream.position == before.len(),
        stream.limit == stream.bits.len(),
    ensures
        index_read(stream) == (Parsed {
            used: index_code(d).len(),
            overflow: false,
            value: Some(d),
        }),
{
    lemma_index_round_trip_from(stream, before, d, 0, after);
}

/// What writing an index list appends: the code of each index relative to
/// the one before it, then the code of the sentinel `MAX_OBJECTS`.
pub open spec fn index_list_code(previous: int, indices: Seq<int>) -> Seq<bool>
    decreases indices.len(),
{
    if indices.len() == 0 {
        index_code(MAX_OBJECTS - previous)
    } else {
        index_code(indices[0] - previous) + index_list_code(indices[0], indices.drop_first())
    }
}

/// The index list that reading index after index gives, up to the
/// sentinel; nothing where a read fails before the sentinel.
pub open spec fn index_list_read(stream: StreamView, previous: int) -> Option<Seq<int>>
    decreases stream.limit - stream.position,
{
    let outcome = index_read(stream);
    let rest = StreamView { position: stream.position + outcome.used, ..stream };
    match outcome.value {
        None => None,
        Some(d) => {
            let index = index_after(previous, d);
            if index == MAX_OBJECTS {
                Some(Seq::empty())
            } else if outcome.used == 0 || rest.position > stream.limit {
                None
            } else {
                match index_list_read(rest, index) {
                    Some(tail) => Some(seq![index] + tail),
                    None => None,
                }
            }
        },
    }
}

/// Round trip of an index list: the indices of a strictly increasing list
/// drawn from `0` up to but not including `MAX_OBJECTS`, written one after
/// the other and closed by the sentinel, are read back as that list, in its
/// order, and reading stops at the sentinel.
pub proof fn lemma_index_list_round_trip(
    stream: StreamView,
    before: Seq<bool>,
    previous: int,
    indices: Seq<int>,
    after: Seq<bool>,
)
    requires
        -1 <= previous < MAX_OBJECTS,
        forall|i: int| 0 <= i < indices.len() ==> previous < #[trigger] indices[i] < MAX_OBJECTS,
        forall|i: int, j: int| 0 <= i < j < indices.len() ==> indices[i] < indices[j],
        stream.bits == before + index_list_code(previous, indices) + after,
        stream.position == before.len(),
        stream.limit == stream.bits.len(),
    ensures
        index_list_read(stream, previous) == Some(indices),
        index_list_parsed(stream, previous) == (Parsed {
            used: index_list_code(previous, indices).len(),
            overflow: false,
            value: Some(indices),
        }),
    decreases indices.len(),
{
    if indices.len() == 0 {
        lemma_index_round_trip(stream, before, MAX_OBJECTS - previous, after);
        assert(indices =~= Seq::<int>::empty());
    } else {
        let first = indices[0];
        let d = first - previous;
        let tail = indices.drop_first();
        let code = index_code(d);
        let more = index_list_code(first, tail);
        lemma_index_code_len(d, 0);
        assert(stream.bits =~= before + code + (more + after));
        lemma_index_round_trip(stream, before, d, more + after);
        let rest = StreamView { position: stream.position + code.len(), ..stream };
        assert(stream.bits =~= (before + code) + more + after);
        assert forall|i: int| 0 <= i < tail.len() implies first < #[trigger] tail[i]
            < MAX_OBJECTS by {
            assert(tail[i] == indices[i + 1]);
        }
        assert forall|i: int, j: int| 0 <= i < j < tail.len() implies tail[i] < tail[j] by {
            assert(tail[i] == indices[i + 1]);
            assert(tail[j] == indices[j + 1]);
        }
        lemma_index_list_round_trip(rest, before + code, first, tail, after);
        assert(indices =~= seq![first] + tail);
    }
}

/// A list of object indices as integers.
pub open spec fn index_ints(indices: Seq<i32>) -> Seq<int> {
    Seq::new(indices.len(), |i: int| indices[i] as int)
}

/// Whether a list of object indices can be written: its indices lie from 0
/// up to but not including `MAX_OBJECTS` and each is larger than the one
/// before.
pub open spec fn index_list_ok(indices: Seq<i32>) -> bool {
    &&& forall|i: int| 0 <= i < indices.len() ==> 0 <= #[trigger] indices[i] < MAX_OBJECTS
    &&& forall|i: int, j: int| 0 <= i < j < indices.len() ==> indices[i] < indices[j]
}

/// What reading a list of object indices off a stream comes to: the indices
/// up to the sentinel, the bits that they and the sentinel take, and nothing
/// where the read of an index fails before the sentinel.
pub open spec fn index_list_parsed(stream: StreamView, previous: int) -> Parsed<Seq<int>>
    decreases stream.limit - stream.position,
{
    let outcome = index_read(stream);
    let rest = StreamView { position: stream.position + outcome.used, ..stream };
    match outcome.value {
        None => Parsed { used: outcome.used, overflow: outcome.overflow, value: None },
        Some(d) => {
            let index = index_after(previous, d);
            if index == MAX_OBJECTS {
                Parsed { used: outcome.used, overflow: false, value: Some(Seq::empty()) }
            } else if outcome.used == 0 || rest.position > stream.limit {
                Parsed { used: outcome.used, overflow: false, value: None }
            } else {
                let tail = index_list_parsed(rest, index);
                Parsed {
                    used: outcome.used + tail.used,
                    overflow: tail.overflow,
                    value: match tail.value {
                        Some(indices) => Some(seq![index] + indices),
                        None => None,
                    },
                }
            }
        },
    }
}

/// The indices that reading a list comes to are those of `index_list_read`.
pub proof fn lemma_index_list_parsed_value(stream: StreamView, previous: int)
    ensures
        index_list_parsed(stream, previous).value == index_list_read(stream, previous),
    decreases stream.limit - stream.position,
{
    let outcome = index_read(stream);
    let rest = StreamView { position: stream.position + outcome.used, ..stream };
    match outcome.value {
        None => {},
        Some(d) => {
            let index = index_after(previous, d);
            if index != MAX_OBJECTS && !(outcome.used == 0 || rest.position > stream.limit) {
                lemma_index_list_parsed_value(rest, index);
            }
        },
    }
}

/// A difference that is read is at least 1 and at most `MAX_OBJECTS + 1`,
/// and reading it takes at least one bit, stays within the stream and
/// leaves its error as it was.
proof fn lemma_index_read_bounds(stream: StreamView, at: nat, level: nat)
    requires
        level <= INDEX_LEVELS,
        stream.position <= at,
    ensures
        index_read_from(stream, at, level).value matches Some(d) ==> {
            &&& level_lo(level) <= d <= MAX_OBJECTS + 1
            &&& stream.position + index_read_from(stream, at, level).used <= stream.limit
            &&& index_read_from(stream, at, level).used > at - stream.position
            &&& !index_read_from(stream, at, level).overflow
        },
    decreases INDEX_LEVELS - level,
{
    if level < INDEX_LEVELS {
        lemma_index_read_bounds(stream, at + 1, level + 1);
    } else {
        assert(bit_length(899) == 1 + bit_length(449));
    }
}

/// Writes a list of object indices: each index as the code of its
/// difference from the one before it, the first from -1, and then the
/// sentinel `MAX_OBJECTS`, which closes the list.
pub fn write_object_indices<S: Stream>(stream: &mut S, indices: &Vec<i32>) -> (ok: bool)
    requires
        old(stream).wf(),
        old(stream)@.writing,
        index_list_ok(indices@),
        room_for(old(stream)@, index_list_code(-1, index_ints(indices@)).len()),
    ensures
        ok,
        final(stream).wf(),
        appended(old(stream)@, final(stream)@, index_list_code(-1, index_ints(indices@))),
{
    let ghost before = stream@;
    let ghost all = index_ints(indices@);
    let mut previous: i32 = -1;
    let mut k: usize = 0;
    proof {
        stream.lemma_stream();
        assert(all.skip(0) =~= all);
        assert(before.bits + Seq::<bool>::empty() =~= before.bits);
        assert(Seq::<bool>::empty() + index_list_code(-1, all) =~= index_list_code(-1, all));
    }
    let ghost mut done: Seq<bool> = Seq::empty();
    while k < indices.len()
        invariant
            k <= indices@.len(),
            all == index_ints(indices@),
            index_list_ok(indices@),
            stream.wf(),
            before.writing,
            appended(before, stream@, done),
            index_list_code(-1, all) == done + index_list_code(previous as int, all.skip(k as int)),
            room_for(before, index_list_code(-1, all).len()),
            -1 <= previous < MAX_OBJECTS,
            k > 0 ==> previous == indices@[k - 1],
            k == 0 ==> previous == -1,
        decreases indices@.len() - k,
    {
        let current: i32 = indices[k];
        proof {
            let rest = all.skip(k as int);
            assert(rest[0] == current);
            assert(rest.drop_first() =~= all.skip(k + 1));
            if k > 0 {
                assert(indices@[k - 1] < indices@[k as int]);
            }
        }
        let ghost code = index_code(current - previous);
        write_object_index_macro(stream, &mut previous, current);
        proof {
            assert(stream@.bits =~= before.bits + (done + code));
            assert(done + (code + index_list_code(current as int, all.skip(k + 1))) =~= (done
                + code) + index_list_code(current as int, all.skip(k + 1)));
            done = done + code;
        }
        k = k + 1;
    }
    proof {
        assert(all.skip(k as int) =~= Seq::<int>::empty());
    }
    let ghost code = index_code(MAX_OBJECTS - previous);
    write_object_index_macro(stream, &mut previous, MAX_OBJECTS as i32);
    proof {
        assert(stream@.bits =~= before.bits + (done + code));
    }
    true
}

/// Reads a list of object indices up to the sentinel `MAX_OBJECTS`. Gives
/// nothing where the read of an index fails before the sentinel.
pub fn read_object_indices<S: Stream>(stream: &mut S) -> (indices: Option<Vec<i32>>)
    requires
        old(stream).wf(),
        !old(stream)@.writing,
    ensures
        final(stream).wf(),
        parsed(
            old(stream)@,
            final(stream)@,
            indices.is_some(),
            index_list_parsed(old(stream)@, -1),
        ),
        indices matches Some(list) ==> Some(index_ints(list@)) == index_list_read(
            old(stream)@,
            -1,
        ),
{
    let ghost before = stream@;
    let mut list: Vec<i32> = Vec::new();
    let mut previous: i32 = -1;
    proof {
        stream.lemma_stream();
        lemma_index_list_parsed_value(before, -1);
        assert(index_ints(list@) =~= Seq::<int>::empty());
    }
    loop
        invariant
            stream.wf(),
            !before.writing,
            before == old(stream)@,
            before.position <= stream@.position <= before.limit,
            stream@ == (StreamView { position: stream@.position, ..before }),
            -1 <= previous < MAX_OBJECTS,
            index_list_parsed(before, -1).used == (stream@.position - before.position)
                + index_list_parsed(stream@, previous as int).used,
            index_list_parsed(before, -1).overflow == index_list_parsed(
                stream@,
                previous as int,
            ).overflow,
            index_list_parsed(before, -1).value == (match index_list_parsed(
                stream@,
                previous as int,
            ).value {
                Some(tail) => Some(index_ints(list@) + tail),
                None => None,
            }),
            index_list_parsed(before, -1).value == index_list_read(before, -1),
        decreases MAX_OBJECTS - previous,
    {
        let ghost here = stream@;
        let ghost shown = index_ints(list@);
        let mut current: i32 = 0;
        proof {
            lemma_index_read_bounds(here, here.position, 0);
        }
        if !read_object_index_macro(stream, &mut previous, &mut current) {
            return None;
        }
        proof {
            stream.lemma_stream();
        }
        if current == MAX_OBJECTS as i32 {
            proof {
                assert(shown + Seq::<int>::empty() =~= shown);
            }
            return Some(list);
        }
        list.push(current);
        proof {
            let tail = index_list_parsed(stream@, current as int);
            assert(index_ints(list@) =~= shown + seq![current as int]);
            match tail.value {
                Some(more) => {
                    assert(shown + (seq![current as int] + more) =~= index_ints(list@) + more);
                },
                None => {},
            }
        }
    }
}

/// Round trip of an index list through a buffer: where a writing stream
/// has written a list with `write_object_indices` among its bits and
/// flushed, `read_object_indices` on a reading stream over its buffer that
/// stands where the list starts gives that list, index for index, takes
/// what was written for it and no more, and leaves the stream's error as it
/// was.
pub proof fn lemma_index_list_read_back(
    writer: WriteStream,
    reader: ReadStream,
    before: Seq<bool>,
    indices: Seq<i32>,
    after: Seq<bool>,
)
    requires
        index_list_ok(indices),
        writer@.bits == before + index_list_code(-1, index_ints(indices)) + after,
        holds_flushed(writer.buffer(), writer@.bits),
        reader.wf(),
        reader.data() == writer.buffer(),
        writer@.bits.len() <= reader@.limit,
        reader@.position == before.len(),
    ensures
        index_list_parsed(reader@, -1) == (Parsed {
            used: index_list_code(-1, index_ints(indices)).len(),
            overflow: false,
            value: Some(index_ints(indices)),
        }),
        index_list_read(reader@, -1) == Some(index_ints(indices)),
{
    lemma_stream_written_is_read(writer, reader);
    let rest = after + reader@.bits.skip(writer@.bits.len() as int);
    assert(reader@.bits =~= before + index_list_code(-1, index_ints(indices)) + rest);
    lemma_index_list_round_trip(reader@, before, -1, index_ints(indices), rest);
}

} // verus!
