//! The packet envelope: prefix bytes, checksum, optional header, packet type
//! tag, packet body and closing check marker.
//!
//! A frame is the part of a packet from the end of the prefix bytes to the
//! packet's end. Unless packets are raw, its first four bytes are the
//! checksum slot, which holds the CRC-32 of the protocol id followed by the
//! frame with that slot zeroed.
use vstd::prelude::*;

use crate::bitpacker::{
    align_gap, byte_bits, field_value, lemma_byte_bits_take, lemma_field_is_byte,
    lemma_zero_value_bits, value_bits, words_spanned, zero_bits,
};
use crate::constants::{Buffer, ProtocolError};
use crate::helpers::{calc_packet_crc32, crc32, crc_domain, le_bytes, marker_hash};
use crate::packets::object::{Object, Packet};
use crate::packets::packet_factory::PacketFactory;
use crate::packets::packet_info::PacketInfo;
use crate::streams::read_stream::ReadStream;
use crate::streams::write_stream::WriteStream;
use crate::streams::{
    bits_required, bytes_at, check_bits, check_serialized, int_at, int_bits, ran_out, read_on,
    room_for, Stream, StreamView,
};

pub mod fragment_packet;
pub mod fragmentation;
pub mod object;
pub mod packet_buffer;
pub mod packet_data;
pub mod packet_factory;
pub mod packet_info;

verus! {

/// The text of the check marker that closes every packet.
pub open spec fn end_marker() -> Seq<char> {
    "end of packet"@
}

/// Four zero bytes: what the checksum slot counts as when the checksum is
/// taken.
pub open spec fn zero_slot() -> Seq<u8> {
    seq![0u8, 0u8, 0u8, 0u8]
}

/// A frame with its first four bytes replaced by `slot`.
pub open spec fn with_slot(frame: Seq<u8>, slot: Seq<u8>) -> Seq<u8> {
    slot + frame.skip(4)
}

/// The checksum that belongs in a frame's slot.
pub open spec fn frame_crc(protocol_id: u32, frame: Seq<u8>) -> u32 {
    crc32(crc_domain(protocol_id, with_slot(frame, zero_slot())))
}

/// A frame with its checksum in its slot.
pub open spec fn sealed(protocol_id: u32, frame: Seq<u8>) -> Seq<u8> {
    with_slot(frame, le_bytes(frame_crc(protocol_id, frame)))
}

/// Whether a frame's slot holds the frame's checksum.
pub open spec fn seal_intact(protocol_id: u32, frame: Seq<u8>) -> bool {
    frame.len() >= 4 && frame.take(4) == le_bytes(frame_crc(protocol_id, frame))
}

/// A sealed frame passes the check.
pub proof fn lemma_sealed_is_intact(protocol_id: u32, frame: Seq<u8>)
    requires
        frame.len() >= 4,
    ensures
        seal_intact(protocol_id, sealed(protocol_id, frame)),
        sealed(protocol_id, frame).len() == frame.len(),
        sealed(protocol_id, frame).skip(4) == frame.skip(4),
{
    let crc = le_bytes(frame_crc(protocol_id, frame));
    let out = sealed(protocol_id, frame);
    assert(crc.len() == 4);
    assert(out.skip(4) =~= frame.skip(4));
    assert(with_slot(out, zero_slot()) =~= with_slot(frame, zero_slot()));
    assert(out.take(4) =~= crc);
}

/// Damage to the checksum slot is always noticed: of two frames that agree
/// but for their slots, at most one passes the check.
pub proof fn lemma_slot_damage_detected(protocol_id: u32, frame: Seq<u8>, damaged: Seq<u8>)
    requires
        seal_intact(protocol_id, frame),
        damaged.len() == frame.len(),
        damaged.skip(4) == frame.skip(4),
        damaged != frame,
    ensures
        !seal_intact(protocol_id, damaged),
{
    assert(with_slot(damaged, zero_slot()) =~= with_slot(frame, zero_slot()));
    if seal_intact(protocol_id, damaged) {
        assert(damaged =~= damaged.take(4) + damaged.skip(4));
        assert(frame =~= frame.take(4) + frame.skip(4));
    }
}

/// The bytes that a byte-aligned bit sequence spells.
pub open spec fn packed(bits: Seq<bool>) -> Seq<u8> {
    bytes_at(bits, 0, bits.len() / 8)
}

/// The bytes of a finished packet, given the bits that its stream held
/// before the closing marker: those bits and the marker, packed into bytes,
/// with the frame behind the prefix sealed unless packets are raw.
pub open spec fn packet_bytes(
    bits: Seq<bool>,
    prefix_bytes: u32,
    raw_format: bool,
    protocol_id: u32,
) -> Seq<u8> {
    let all = packed(bits + check_bits(bits.len(), end_marker()));
    if raw_format {
        all
    } else {
        all.take(prefix_bytes as int) + sealed(protocol_id, all.skip(prefix_bytes as int))
    }
}

/// The checksum of the frame `buffer[start..end]`, its slot counted as zero.
fn checksum_of_frame(buffer: &Buffer, start: usize, end: usize, protocol_id: u32) -> (sum: u32)
    requires
        start + 4 <= end <= buffer@.len(),
    ensures
        sum == frame_crc(protocol_id, buffer@.subrange(start as int, end as int)),
{
    let ghost frame = buffer@.subrange(start as int, end as int);
    let mut zeroed: Vec<u8> = Vec::new();
    zeroed.push(0);
    zeroed.push(0);
    zeroed.push(0);
    zeroed.push(0);
    let mut i: usize = start + 4;
    while i < end
        invariant
            start + 4 <= i <= end <= buffer@.len(),
            frame == buffer@.subrange(start as int, end as int),
            zeroed@ == zero_slot() + frame.subrange(4, i - start),
        decreases end - i,
    {
        zeroed.push(buffer[i]);
        assert(zeroed@ =~= zero_slot() + frame.subrange(4, i + 1 - start));
        i = i + 1;
    }
    assert(zeroed@ =~= with_slot(frame, zero_slot()));
    calc_packet_crc32(&zeroed, protocol_id)
}

/// A buffer whose front spells a byte-aligned bit sequence, whatever
/// follows, holds that sequence's bytes at its front.
proof fn lemma_flushed_is_packed(buffer: Seq<u8>, bits: Seq<bool>, pad: Seq<bool>, m: int)
    requires
        bits.len() % 8 == 0,
        0 <= m <= buffer.len(),
        byte_bits(buffer.take(m)) == bits + pad,
    ensures
        bits.len() / 8 <= m,
        buffer.take(bits.len() as int / 8) == packed(bits),
{
    let n = bits.len() as int / 8;
    let front = buffer.take(m);
    assert(byte_bits(front).len() == 8 * m);
    assert forall|i: int| 0 <= i < n implies buffer.take(n)[i] == packed(bits)[i] by {
        lemma_field_is_byte(front, i);
        assert(byte_bits(front).subrange(8 * i, 8 * i + 8) =~= bits.subrange(8 * i, 8 * i + 8));
    }
    assert(buffer.take(n) =~= packed(bits));
}

/// Starts a packet in `buffer`: writes the prefix bytes as zeros and, unless
/// packets are raw, a zeroed checksum slot.
pub fn begin_packet(buffer: Buffer, prefix_bytes: u32, raw_format: bool) -> (stream: WriteStream)
    requires
        buffer@.len() % 4 == 0,
        8 * buffer@.len() <= u32::MAX,
        8 * prefix_bytes + (if raw_format { 0int } else { 32int }) <= 8 * buffer@.len(),
    ensures
        stream.wf(),
        stream@ == (StreamView {
            writing: true,
            bits: zero_bits((8 * prefix_bytes + (if raw_format { 0int } else { 32int })) as nat),
            position: (8 * prefix_bytes + (if raw_format { 0int } else { 32int })) as nat,
            limit: (8 * buffer@.len()) as nat,
            storage: buffer@.len(),
            error: ProtocolError::NoError,
        }),
{
    let size: usize = buffer.len();
    let mut stream = WriteStream::new(buffer, size);
    let ghost start = stream@;
    let mut i: u32 = 0;
    proof {
        assert(start.bits =~= zero_bits(0));
        lemma_zero_value_bits(8);
        lemma_zero_value_bits(32);
    }
    while i < prefix_bytes
        invariant
            i <= prefix_bytes,
            stream.wf(),
            stream@ == (StreamView {
                bits: zero_bits((8 * i) as nat),
                position: (8 * i) as nat,
                ..start
            }),
            start.writing,
            start.limit == 8 * size,
            8 * prefix_bytes + (if raw_format { 0int } else { 32int }) <= 8 * size,
            value_bits(0, 8) == zero_bits(8),
        decreases prefix_bytes - i,
    {
        let mut zero: u32 = 0;
        stream.serialize_bits(&mut zero, 8);
        assert(zero_bits((8 * i) as nat) + zero_bits(8) =~= zero_bits((8 * (i + 1)) as nat));
        i = i + 1;
    }
    if !raw_format {
        let mut crc_32: u32 = 0;
        stream.serialize_bits(&mut crc_32, 32);
        assert(zero_bits((8 * prefix_bytes) as nat) + zero_bits(32) =~= zero_bits(
            (8 * prefix_bytes + 32) as nat,
        ));
    }
    stream
}

/// Puts the checksum of the frame `buffer[start..end]` into its slot.
pub fn seal_frame(buffer: &mut Buffer, start: usize, end: usize, protocol_id: u32)
    requires
        start + 4 <= end <= old(buffer)@.len(),
    ensures
        final(buffer)@.len() == old(buffer)@.len(),
        final(buffer)@.take(end as int) == old(buffer)@.take(start as int) + sealed(
            protocol_id,
            old(buffer)@.subrange(start as int, end as int),
        ),
        final(buffer)@.skip(end as int) == old(buffer)@.skip(end as int),
{
    let sum: u32 = checksum_of_frame(buffer, start, end, protocol_id);
    let wide: u64 = sum as u64;
    buffer.set(start, #[verifier::truncate] ((wide & 0xff) as u8));
    buffer.set(start + 1, #[verifier::truncate] (((wide >> 8) & 0xff) as u8));
    buffer.set(start + 2, #[verifier::truncate] (((wide >> 16) & 0xff) as u8));
    buffer.set(start + 3, #[verifier::truncate] (((wide >> 24) & 0xff) as u8));
    proof {
        let frame = old(buffer)@.subrange(start as int, end as int);
        assert(buffer@.take(end as int) =~= old(buffer)@.take(start as int) + sealed(
            protocol_id,
            frame,
        ));
        assert(buffer@.skip(end as int) =~= old(buffer)@.skip(end as int));
    }
}

/// The words that hold a stream fit in the buffer that the stream's limit
/// was taken from.
proof fn lemma_words_fit(len: nat, limit: nat, storage: nat)
    requires
        len <= limit,
        limit % 32 == 0,
        limit <= 8 * storage,
    ensures
        0 <= 4 * words_spanned(len) <= storage,
        len <= 32 * words_spanned(len),
{
}

/// Ends a write pass that stands at a byte boundary: flushes, and returns
/// the buffer and the number of bytes written.
#[verifier::rlimit(50)]
pub fn flush_to_bytes(stream: WriteStream) -> (result: (Buffer, u32))
    requires
        stream.wf(),
        stream@.writing,
        stream@.position % 8 == 0,
    ensures
        result.0@.len() == stream@.storage,
        8 * result.1 == stream@.position,
        result.1 <= result.0@.len(),
        result.0@.take(result.1 as int) == packed(stream@.bits),
{
    let mut stream = stream;
    let ghost bits = stream@.bits;
    proof {
        stream.lemma_stream();
    }
    stream.flush();
    let size: u32 = stream.get_bytes_processed();
    proof {
        stream.lemma_writing();
    }
    let ghost flushed = stream.buffer();
    let buffer: Buffer = stream.into_buffer();
    proof {
        let m = 4 * words_spanned(bits.len());
        let pad = zero_bits((32 * words_spanned(bits.len()) - bits.len()) as nat);
        lemma_words_fit(bits.len(), stream@.limit, flushed.len());
        lemma_flushed_is_packed(flushed, bits, pad, m);
    }
    (buffer, size)
}

/// Ends a packet: writes the closing check marker, flushes, and, unless
/// packets are raw, puts the frame's checksum into its slot. Returns the
/// buffer and the packet's size in bytes.
#[verifier::rlimit(50)]
pub fn finish_packet(
    stream: WriteStream,
    prefix_bytes: u32,
    raw_format: bool,
    protocol_id: u32,
) -> (result: (Buffer, u32))
    requires
        stream.wf(),
        stream@.writing,
        room_for(stream@, align_gap(stream@.position) + 32),
        8 * prefix_bytes + (if raw_format { 0int } else { 32int }) <= stream@.position,
    ensures
        result.0@.len() == stream@.storage,
        8 * result.1 == stream@.position + align_gap(stream@.position) + 32,
        result.0@.take(result.1 as int) == packet_bytes(
            stream@.bits,
            prefix_bytes,
            raw_format,
            protocol_id,
        ),
{
    let mut stream = stream;
    let ghost before = stream@;
    proof {
        stream.lemma_stream();
    }
    let mut marker: String = "end of packet".to_owned();
    stream.serialize_check(&mut marker);
    let ghost bits = stream@.bits;
    proof {
        stream.lemma_stream();
        assert(bits == before.bits + check_bits(before.bits.len(), end_marker()));
    }
    let (mut buffer, size) = flush_to_bytes(stream);
    if !raw_format {
        let start: usize = prefix_bytes as usize;
        let ghost flushed = buffer@;
        seal_frame(&mut buffer, start, size as usize, protocol_id);
        proof {
            let all = packed(bits);
            assert(flushed.subrange(start as int, size as int) =~= all.skip(start as int));
            assert(flushed.take(start as int) =~= all.take(start as int));
        }
    }
    (buffer, size)
}

/// Number of bits of the packet type tag: none where the factory knows one
/// type only, else what a number between 0 and the number of types takes.
pub open spec fn tag_bits(num_packet_types: u32) -> nat {
    if num_packet_types > 1 {
        bits_required(0, num_packet_types as int)
    } else {
        0
    }
}

/// Number of bits of a packet before its header: the prefix bytes and,
/// unless packets are raw, the checksum slot.
pub open spec fn lead_bits(prefix_bytes: u32, raw_format: bool) -> nat {
    (8 * prefix_bytes + (if raw_format { 0int } else { 32int })) as nat
}

/// What a packet's type tag adds to the stream: nothing where the factory
/// knows one type only, else the tag as a number between 0 and the number
/// of types.
pub open spec fn tag_code(packet_type: u32, num_packet_types: u32) -> Seq<bool> {
    if num_packet_types > 1 {
        int_bits(packet_type as int, 0, num_packet_types as int)
    } else {
        Seq::empty()
    }
}

/// The bits of a packet up to its closing marker: the zeroed lead, what the
/// header wrote, the type tag, and what the packet wrote.
pub open spec fn packet_stream(
    lead: nat,
    header: Seq<bool>,
    tag: Seq<bool>,
    body: Seq<bool>,
) -> Seq<bool> {
    zero_bits(lead) + header + tag + body
}

/// Number of bits that a packet may take in all under `info`, header and
/// closing marker included.
pub open spec fn packet_bits_bound<F: PacketFactory>(
    info: &PacketInfo<F>,
    header_bits: nat,
    body_bits: nat,
) -> nat {
    lead_bits(info.prefix_bytes, info.raw_format) + header_bits + tag_bits(
        info.packet_factory.num_packet_types(),
    ) + body_bits + 7 + 32
}

/// What the header of a packet writes behind the lead: what it says it
/// writes there, or nothing to write where there is no header.
pub open spec fn head_written(header: Option<&mut dyn Object>, lead: nat) -> Option<Seq<bool>> {
    match header {
        Some(h) => h.written(lead),
        None => Some(Seq::empty()),
    }
}

/// Writes `packet` into `buffer` as one framed packet: the prefix bytes,
/// the checksum slot unless packets are raw, the header if there is one, the
/// packet type tag if the factory knows more than one type, the packet, and
/// the closing check marker. Returns the packet's size in bytes, or 0 where
/// the write of the header or of the packet fails.
///
/// The checksum covers the protocol id and the packet from the end of the
/// prefix bytes to the packet's end, the checksum slot counted as zero. The
/// tag is written as a number between 0 and the number of packet types, the
/// number itself included.
///
/// What header and packet write is their own affair; the contract speaks of
/// it by the name that they give it, `written`. A packet that was written
/// passes `check_frame`.
#[verifier::rlimit(50)]
pub fn write_packet<F: PacketFactory, P: Packet>(
    info: &PacketInfo<F>,
    packet: &mut P,
    buffer: &mut Buffer,
    buffer_length: usize,
    header: Option<&mut dyn Object>,
) -> (written: u32)
    requires
        0 < old(buffer)@.len() <= buffer_length,
        old(buffer)@.len() % 4 == 0,
        8 * old(buffer)@.len() <= u32::MAX,
        0 < info.packet_factory.num_packet_types() <= i32::MAX,
        info.packet_factory.num_packet_types() > 1 ==> old(packet).packet_type()
            <= info.packet_factory.num_packet_types(),
        packet_bits_bound(
            info,
            match header {
                Some(h) => h.max_bits(),
                None => 0,
            },
            old(packet).max_bits(),
        ) <= 8 * old(buffer)@.len(),
    ensures
        final(buffer)@.len() == old(buffer)@.len(),
        ({
            let lead = lead_bits(info.prefix_bytes, info.raw_format);
            let tag = tag_code(old(packet).packet_type(), info.packet_factory.num_packet_types());
            match head_written(header, lead) {
                Some(head) => match old(packet).written(lead + head.len() + tag.len()) {
                    Some(body) => {
                        let bits = packet_stream(lead, head, tag, body);
                        &&& 8 * written == bits.len() + align_gap(bits.len()) + 32
                        &&& final(buffer)@.take(written as int) == packet_bytes(
                            bits,
                            info.prefix_bytes,
                            info.raw_format,
                            info.protocol_id,
                        )
                    },
                    None => written == 0,
                },
                None => written == 0,
            }
        }),
        written > 0 ==> {
            &&& info.prefix_bytes + (if info.raw_format { 0int } else { 4int }) + 4 <= written
                <= old(buffer)@.len()
            &&& frame_error(
                final(buffer)@.take(written as int),
                info.prefix_bytes,
                info.raw_format,
                info.protocol_id,
            ) == ProtocolError::NoError
        },
{
    let num_packet_types: u32 = info.packet_factory.get_num_packet_types();
    let ghost lead = lead_bits(info.prefix_bytes, info.raw_format);
    let ghost tag = tag_code(old(packet).packet_type(), num_packet_types);
    let ghost head = head_written(header, lead);
    let mut owned: Buffer = Vec::new();
    core::mem::swap(buffer, &mut owned);
    let mut stream = begin_packet(owned, info.prefix_bytes, info.raw_format);
    let ghost begun = stream@;
    proof {
        stream.lemma_stream();
    }
    match header {
        Some(h) => {
            if !h.serialize_internal_w(&mut stream) {
                let mut out = stream.into_buffer();
                proof {
                    stream.lemma_writing();
                }
                core::mem::swap(buffer, &mut out);
                return 0;
            }
        },
        None => {
            assert(begun.bits + Seq::<bool>::empty() =~= begun.bits);
        },
    }
    let ghost with_header = stream@;
    proof {
        stream.lemma_stream();
        assert(with_header.bits == begun.bits + head.unwrap());
    }
    let mut packet_type: i32 = 0;
    if num_packet_types > 1 {
        packet_type = packet.get_packet_type() as i32;
        stream.serialise_int(&mut packet_type, 0, num_packet_types as i32);
    }
    let ghost with_tag = stream@;
    proof {
        stream.lemma_stream();
        if num_packet_types <= 1 {
            assert(with_header.bits + tag =~= with_header.bits);
        }
        assert(with_tag.bits == with_header.bits + tag);
    }
    let ghost body = old(packet).written(with_tag.position);
    if !packet.serialize_internal_w(&mut stream) {
        let mut out = stream.into_buffer();
        proof {
            stream.lemma_writing();
        }
        core::mem::swap(buffer, &mut out);
        return 0;
    }
    let ghost bits = stream@.bits;
    proof {
        stream.lemma_stream();
        stream.lemma_writing();
        assert(bits =~= packet_stream(lead, head.unwrap(), tag, body.unwrap()));
    }
    let (mut out, size) = finish_packet(
        stream,
        info.prefix_bytes,
        info.raw_format,
        info.protocol_id,
    );
    proof {
        lemma_packet_passes_check(bits, info.prefix_bytes, info.raw_format, info.protocol_id);
    }
    core::mem::swap(buffer, &mut out);
    size
}

/// What is wrong with a received packet before any of it is read: it is
/// shorter than its prefix and checksum slot, which counts as an overflow, or
/// its checksum does not match, which counts as a failed header.
pub open spec fn frame_error(
    bytes: Seq<u8>,
    prefix_bytes: u32,
    raw_format: bool,
    protocol_id: u32,
) -> ProtocolError {
    if bytes.len() < prefix_bytes + (if raw_format { 0int } else { 4int }) {
        ProtocolError::StreamOverflow
    } else if !raw_format && !seal_intact(protocol_id, bytes.skip(prefix_bytes as int)) {
        ProtocolError::SerializeHeaderFailed
    } else {
        ProtocolError::NoError
    }
}

/// Whether the slot of the frame `buffer[start..end]` holds the frame's
/// checksum.
pub fn frame_intact(buffer: &Buffer, start: usize, end: usize, protocol_id: u32) -> (intact: bool)
    requires
        start <= end <= buffer@.len(),
    ensures
        intact == seal_intact(protocol_id, buffer@.subrange(start as int, end as int)),
{
    if end - start < 4 {
        return false;
    }
    let sum: u32 = checksum_of_frame(buffer, start, end, protocol_id);
    let wide: u64 = sum as u64;
    let b0: u8 = #[verifier::truncate] ((wide & 0xff) as u8);
    let b1: u8 = #[verifier::truncate] (((wide >> 8) & 0xff) as u8);
    let b2: u8 = #[verifier::truncate] (((wide >> 16) & 0xff) as u8);
    let b3: u8 = #[verifier::truncate] (((wide >> 24) & 0xff) as u8);
    let ghost frame = buffer@.subrange(start as int, end as int);
    proof {
        assert(frame.take(4) =~= seq![frame[0], frame[1], frame[2], frame[3]]);
    }
    if buffer[start] == b0 && buffer[start + 1] == b1 && buffer[start + 2] == b2 && buffer[start
        + 3] == b3 {
        proof {
            assert(frame.take(4) =~= le_bytes(sum));
        }
        true
    } else {
        false
    }
}

/// A finished packet passes the check of length and checksum under the
/// settings it was written with.
pub proof fn lemma_packet_passes_check(
    bits: Seq<bool>,
    prefix_bytes: u32,
    raw_format: bool,
    protocol_id: u32,
)
    requires
        8 * prefix_bytes + (if raw_format { 0int } else { 32int }) <= bits.len(),
    ensures
        frame_error(
            packet_bytes(bits, prefix_bytes, raw_format, protocol_id),
            prefix_bytes,
            raw_format,
            protocol_id,
        ) == ProtocolError::NoError,
{
    let all = packed(bits + check_bits(bits.len(), end_marker()));
    let out = packet_bytes(bits, prefix_bytes, raw_format, protocol_id);
    if !raw_format {
        let frame = all.skip(prefix_bytes as int);
        lemma_sealed_is_intact(protocol_id, frame);
        assert(out.skip(prefix_bytes as int) =~= sealed(protocol_id, frame));
    }
}

/// Checks a received packet's length and checksum.
pub fn check_frame(
    buffer: &Buffer,
    prefix_bytes: u32,
    raw_format: bool,
    protocol_id: u32,
) -> (error: ProtocolError)
    ensures
        error == frame_error(buffer@, prefix_bytes, raw_format, protocol_id),
{
    let size: usize = buffer.len();
    let start: usize = prefix_bytes as usize;
    if raw_format {
        if size < start {
            return ProtocolError::StreamOverflow;
        }
        return ProtocolError::NoError;
    }
    if size < 4 || size - 4 < start {
        return ProtocolError::StreamOverflow;
    }
    proof {
        assert(buffer@.subrange(start as int, size as int) =~= buffer@.skip(start as int));
    }
    if frame_intact(buffer, start, size, protocol_id) {
        ProtocolError::NoError
    } else {
        ProtocolError::SerializeHeaderFailed
    }
}

/// Whether `packet_type` is among the allowed packet types.
pub fn packet_type_allowed(allowed_packet_types: &Vec<u32>, packet_type: u32) -> (allowed: bool)
    ensures
        allowed == allowed_packet_types@.contains(packet_type),
{
    let mut i: usize = 0;
    while i < allowed_packet_types.len()
        invariant
            i <= allowed_packet_types@.len(),
            forall|j: int| 0 <= j < i ==> allowed_packet_types@[j] != packet_type,
        decreases allowed_packet_types@.len() - i,
    {
        if allowed_packet_types[i] == packet_type {
            return true;
        }
        i = i + 1;
    }
    false
}

/// The type tag that stands at position `at` of a received packet: the tag
/// 0 where the factory knows one type only, else the number read there, or
/// nothing where the packet ends before it or the number exceeds the number
/// of types.
pub open spec fn tag_at(bits: Seq<bool>, at: nat, num_packet_types: u32) -> Option<u32> {
    let read = int_at(bits, at, 0, num_packet_types as int);
    if num_packet_types <= 1 {
        Some(0)
    } else if at + tag_bits(num_packet_types) > bits.len() || read > num_packet_types {
        None
    } else {
        Some(read as u32)
    }
}

/// What reading the type tag at position `at` comes to: the tag where it can
/// be read and is allowed, `InvalidPacketType` where it cannot be read or
/// exceeds the number of types, `PacketTypeNotAllowed` where it is not among
/// the allowed types.
pub open spec fn tag_verdict(
    bits: Seq<bool>,
    at: nat,
    num_packet_types: u32,
    allowed: Seq<u32>,
) -> Result<u32, ProtocolError> {
    match tag_at(bits, at, num_packet_types) {
        None => Err(ProtocolError::InvalidPacketType),
        Some(tag) => if allowed.contains(tag) {
            Ok(tag)
        } else {
            Err(ProtocolError::PacketTypeNotAllowed)
        },
    }
}

/// Reads a packet's type tag, where the factory knows more than one type,
/// and tests it against the allowed types.
pub fn read_type_tag(
    stream: &mut ReadStream,
    num_packet_types: u32,
    allowed_packet_types: &Vec<u32>,
) -> (tag: Result<u32, ProtocolError>)
    requires
        old(stream).wf(),
        0 < num_packet_types <= i32::MAX,
    ensures
        final(stream).wf(),
        tag == tag_verdict(
            old(stream)@.bits,
            old(stream)@.position,
            num_packet_types,
            allowed_packet_types@,
        ),
        num_packet_types <= 1 ==> final(stream)@ == old(stream)@,
        num_packet_types > 1 ==> if old(stream)@.position + tag_bits(num_packet_types) > old(
            stream,
        )@.limit {
            ran_out(old(stream)@, final(stream)@, 0)
        } else {
            read_on(old(stream)@, final(stream)@, tag_bits(num_packet_types))
        },
{
    proof {
        stream.lemma_stream();
        stream.lemma_reading();
    }
    let mut packet_type: u32 = 0;
    if num_packet_types > 1 {
        let mut temp_packet_type: i32 = 0;
        if !stream.serialise_int(&mut temp_packet_type, 0, num_packet_types as i32) {
            return Err(ProtocolError::InvalidPacketType);
        }
        if temp_packet_type < 0 {
            return Err(ProtocolError::InvalidPacketType);
        }
        packet_type = temp_packet_type as u32;
    }
    if !packet_type_allowed(allowed_packet_types, packet_type) {
        return Err(ProtocolError::PacketTypeNotAllowed);
    }
    Ok(packet_type)
}

/// Whether the closing check marker stands at the next byte boundary from
/// position `at`.
pub open spec fn marker_at(bits: Seq<bool>, at: nat) -> bool {
    &&& at + align_gap(at) + 32 <= bits.len()
    &&& field_value(bits, at + align_gap(at), 32) == marker_hash(end_marker())
}

/// Ends the reading of a packet, given whether the packet's own read
/// worked: reports `SerializePacketFailed` where it did not; else reads the
/// closing check marker and reports `SerializeCheckFailed` where that is not
/// found; else reports the error that the stream has latched, if any.
pub fn conclude_read(stream: &mut ReadStream, body_ok: bool) -> (error: ProtocolError)
    requires
        old(stream).wf(),
    ensures
        final(stream).wf(),
        error == (if !body_ok {
            ProtocolError::SerializePacketFailed
        } else if !marker_at(old(stream)@.bits, old(stream)@.position) {
            ProtocolError::SerializeCheckFailed
        } else {
            old(stream)@.error
        }),
        !body_ok ==> final(stream)@ == old(stream)@,
        body_ok ==> check_serialized(
            old(stream)@,
            final(stream)@,
            end_marker(),
            marker_at(old(stream)@.bits, old(stream)@.position),
        ),
{
    proof {
        stream.lemma_stream();
        stream.lemma_reading();
    }
    if !body_ok {
        return ProtocolError::SerializePacketFailed;
    }
    let mut marker: String = "end of packet".to_owned();
    if !stream.serialize_check(&mut marker) {
        return ProtocolError::SerializeCheckFailed;
    }
    stream.get_error()
}

/// How far the header of a received packet reads from position `at`: what
/// it says it reads there, or nothing to read where there is no header.
pub open spec fn head_consumed(
    header: Option<&mut dyn Object>,
    bits: Seq<bool>,
    at: nat,
) -> Option<nat> {
    match header {
        Some(h) => h.consumed(bits, at),
        None => Some(0),
    }
}

/// The error that reading a packet ends with, `NoError` standing for a
/// packet read, given how far the header reads. In the order of the
/// packet's parts:
///
/// - what `frame_error` finds wrong with length and checksum;
/// - `SerializeHeaderFailed` where the header's read fails;
/// - what `tag_verdict` finds wrong with the type tag behind the header;
/// - `CreatePacketFailed` where the factory makes no packet of that type;
/// - `SerializePacketFailed` where the packet's read fails;
/// - `SerializeCheckFailed` where the closing check marker does not stand
///   behind the packet.
pub open spec fn read_verdict<F: PacketFactory>(
    info: &PacketInfo<F>,
    bytes: Seq<u8>,
    head: Option<nat>,
) -> ProtocolError {
    let framing = frame_error(bytes, info.prefix_bytes, info.raw_format, info.protocol_id);
    let bits = byte_bits(bytes);
    let types = info.packet_factory.num_packet_types();
    if framing != ProtocolError::NoError {
        framing
    } else {
        match head {
            None => ProtocolError::SerializeHeaderFailed,
            Some(used) => {
                let at = lead_bits(info.prefix_bytes, info.raw_format) + used;
                match tag_verdict(bits, at, types, info.allowed_packet_types@) {
                    Err(error) => error,
                    Ok(tag) => if !info.packet_factory.makes(tag) {
                        ProtocolError::CreatePacketFailed
                    } else {
                        match info.packet_factory.made_consumes(tag, bits, at + tag_bits(types)) {
                            None => ProtocolError::SerializePacketFailed,
                            Some(body) => if marker_at(bits, at + tag_bits(types) + body) {
                                ProtocolError::NoError
                            } else {
                                ProtocolError::SerializeCheckFailed
                            },
                        }
                    },
                }
            },
        }
    }
}

/// A word-aligned copy of `buffer`, padded with zero bytes.
fn word_aligned_copy(buffer: &Buffer) -> (copy: Buffer)
    requires
        buffer@.len() + 3 <= usize::MAX,
    ensures
        copy@.len() % 4 == 0,
        buffer@.len() <= copy@.len() < buffer@.len() + 4,
        copy@.take(buffer@.len() as int) == buffer@,
{
    let mut copy: Buffer = Vec::new();
    let mut i: usize = 0;
    while i < buffer.len()
        invariant
            i <= buffer@.len(),
            copy@ == buffer@.take(i as int),
        decreases buffer@.len() - i,
    {
        copy.push(buffer[i]);
        assert(copy@ =~= buffer@.take(i + 1));
        i = i + 1;
    }
    assert(buffer@.take(i as int) =~= buffer@);
    let pad: usize = (4 - buffer.len() % 4) % 4;
    let mut j: usize = 0;
    while j < pad
        invariant
            j <= pad < 4,
            copy@.len() == buffer@.len() + j,
            copy@.take(buffer@.len() as int) == buffer@,
        decreases pad - j,
    {
        copy.push(0);
        assert(copy@.take(buffer@.len() as int) =~= buffer@);
        j = j + 1;
    }
    copy
}

/// Reads one framed packet from `buffer`, which holds the packet and
/// nothing else. Gives the packet, made by the factory of `info` and filled
/// from the buffer, and leaves `NoError` in `error`; or gives nothing and
/// leaves in `error` what went wrong first, as `read_verdict` has it:
///
/// - `StreamOverflow` where the buffer is shorter than prefix and checksum
///   slot, and `SerializeHeaderFailed` where the checksum does not match;
/// - `SerializeHeaderFailed` where the header's read fails;
/// - `InvalidPacketType` where the type tag cannot be read or exceeds the
///   number of packet types;
/// - `PacketTypeNotAllowed` where the tag is not among the allowed types;
/// - `CreatePacketFailed` where the factory makes no packet of that type;
/// - `SerializePacketFailed` where the packet's read fails;
/// - `SerializeCheckFailed` where the closing check marker is not found
///   behind the packet.
///
/// How far header and packet read is their own affair; the contract speaks
/// of it by the names that they and the factory give it.
#[verifier::rlimit(50)]
pub fn read_packet<F: PacketFactory>(
    info: &PacketInfo<F>,
    buffer: &mut Buffer,
    header: Option<&mut dyn Object>,
    error: &mut ProtocolError,
) -> (packet: Option<F::Output>)
    requires
        0 < old(buffer)@.len(),
        8 * (old(buffer)@.len() + 3) <= u32::MAX,
        0 < info.packet_factory.num_packet_types() <= i32::MAX,
    ensures
        final(buffer)@ == old(buffer)@,
        packet.is_none() == (*final(error) != ProtocolError::NoError),
        *final(error) == read_verdict(
            info,
            old(buffer)@,
            head_consumed(
                header,
                byte_bits(old(buffer)@),
                lead_bits(info.prefix_bytes, info.raw_format),
            ),
        ),
{
    *error = ProtocolError::NoError;
    let ghost bits = byte_bits(buffer@);
    let ghost lead = lead_bits(info.prefix_bytes, info.raw_format);
    let ghost head = head_consumed(header, bits, lead);
    let framing: ProtocolError = check_frame(
        buffer,
        info.prefix_bytes,
        info.raw_format,
        info.protocol_id,
    );
    if framing != ProtocolError::NoError {
        *error = framing;
        return None;
    }
    let size: usize = buffer.len();
    let mut aligned: Buffer = word_aligned_copy(buffer);
    proof {
        lemma_byte_bits_take(aligned@, size as int);
    }
    let mut stream = ReadStream::new(&mut aligned, size);
    let mut i: u32 = 0;
    while i < info.prefix_bytes
        invariant
            i <= info.prefix_bytes,
            stream.wf(),
            !stream@.writing,
            stream@.bits == bits,
            stream@.limit == 8 * size,
            stream@.position == 8 * i,
            stream@.error == ProtocolError::NoError,
            info.prefix_bytes + (if info.raw_format { 0int } else { 4int }) <= size,
        decreases info.prefix_bytes - i,
    {
        let mut dummy: u32 = 0;
        stream.serialize_bits(&mut dummy, 8);
        i = i + 1;
    }
    if !info.raw_format {
        let mut read_crc32: u32 = 0;
        stream.serialize_bits(&mut read_crc32, 32);
    }
    assert(stream@.position == lead);
    match header {
        Some(h) => {
            if !h.serialize_internal_r(&mut stream) {
                *error = ProtocolError::SerializeHeaderFailed;
                return None;
            }
        },
        None => {},
    }
    let ghost at = stream@.position;
    assert(at == lead + head.unwrap());
    let num_packet_types: u32 = info.packet_factory.get_num_packet_types();
    proof {
        stream.lemma_stream();
    }
    let packet_type: u32 = match read_type_tag(
        &mut stream,
        num_packet_types,
        &info.allowed_packet_types,
    ) {
        Ok(tag) => tag,
        Err(refused) => {
            *error = refused;
            return None;
        },
    };
    let ghost start = stream@.position;
    assert(start == at + tag_bits(num_packet_types));
    let mut packet = match info.packet_factory.create_packet(packet_type) {
        Some(packet) => packet,
        None => {
            *error = ProtocolError::CreatePacketFailed;
            return None;
        },
    };
    let ghost body = packet.consumed(bits, start);
    assert(body == info.packet_factory.made_consumes(packet_type, bits, start));
    let body_ok: bool = packet.serialize_internal_r(&mut stream);
    proof {
        stream.lemma_stream();
    }
    let verdict: ProtocolError = conclude_read(&mut stream, body_ok);
    if verdict != ProtocolError::NoError {
        *error = verdict;
        return None;
    }
    Some(packet)
}

/// What a packet read vouches for. Where reading a packet ends without an
/// error, so that a packet is returned:
///
/// - the packet is as long as its prefix and checksum slot at least, and,
///   unless the format is raw, its slot holds the checksum of its frame;
/// - the header's read worked;
/// - the type tag behind the header is one that the factory knows and that
///   is allowed, and the factory makes a packet of it;
/// - that packet's read worked, and the closing check marker stands at the
///   next byte boundary from where it ended.
pub proof fn lemma_packet_read_is_vouched_for<F: PacketFactory>(
    info: &PacketInfo<F>,
    bytes: Seq<u8>,
    head: Option<nat>,
)
    requires
        read_verdict(info, bytes, head) == ProtocolError::NoError,
    ensures
        bytes.len() >= info.prefix_bytes + (if info.raw_format { 0int } else { 4int }),
        !info.raw_format ==> seal_intact(info.protocol_id, bytes.skip(info.prefix_bytes as int)),
        head.is_some(),
        ({
            let bits = byte_bits(bytes);
            let types = info.packet_factory.num_packet_types();
            let at = lead_bits(info.prefix_bytes, info.raw_format) + head.unwrap();
            &&& tag_at(bits, at, types).is_some()
            &&& info.allowed_packet_types@.contains(tag_at(bits, at, types).unwrap())
            &&& info.packet_factory.makes(tag_at(bits, at, types).unwrap())
            &&& info.packet_factory.made_consumes(
                tag_at(bits, at, types).unwrap(),
                bits,
                at + tag_bits(types),
            ) matches Some(body) && marker_at(bits, at + tag_bits(types) + body)
        }),
{
}

/// Damage behind the checksum slot is noticed wherever it changes the
/// checksum: of two frames with the same slot and different checksums, at
/// most one passes the check.
pub proof fn lemma_frame_damage_detected(protocol_id: u32, frame: Seq<u8>, damaged: Seq<u8>)
    requires
        seal_intact(protocol_id, frame),
        damaged.len() == frame.len(),
        damaged.take(4) == frame.take(4),
        frame_crc(protocol_id, damaged) != frame_crc(protocol_id, frame),
    ensures
        !seal_intact(protocol_id, damaged),
{
    let kept = frame_crc(protocol_id, frame);
    let found = frame_crc(protocol_id, damaged);
    if seal_intact(protocol_id, damaged) {
        let a = kept as u64;
        let b = found as u64;
        assert(le_bytes(kept)[0] == le_bytes(found)[0]);
        assert(le_bytes(kept)[1] == le_bytes(found)[1]);
        assert(le_bytes(kept)[2] == le_bytes(found)[2]);
        assert(le_bytes(kept)[3] == le_bytes(found)[3]);
        assert(a == b) by (bit_vector)
            requires
                a <= 0xffff_ffff,
                b <= 0xffff_ffff,
                (a & 0xff) as u8 == (b & 0xff) as u8,
                ((a >> 8) & 0xff) as u8 == ((b >> 8) & 0xff) as u8,
                ((a >> 16) & 0xff) as u8 == ((b >> 16) & 0xff) as u8,
                ((a >> 24) & 0xff) as u8 == ((b >> 24) & 0xff) as u8,
        ;
    }
}

} // verus!
