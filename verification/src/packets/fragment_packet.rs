//! The envelope that carries one fragment of a packet.
//!
//! On the wire a fragment is: the checksum (32 bits), the packet's sequence
//! number (16 bits), the packet type tag 0 (2 bits), the fragment's id (8
//! bits), the number of fragments (8 bits), zero bits up to the next byte
//! boundary, and the fragment's bytes. A packet that is no fragment shares
//! the first three fields and differs in the tag.
use vstd::arithmetic::power2::lemma2_to64;
use vstd::prelude::*;

use crate::bitpacker::{
    align_gap, byte_bits, field_value, lemma_field_value_bound, value_bits, zero_bits,
};
use crate::constants::{
    PacketTypes, ProtocolError, MAX_FRAGMENT_SIZE, MAX_PACKET_FRAGMENT_SIZE,
};
use crate::packets::object::{Object, Packet};
use crate::serialization::{
    serialize_align_macro, serialize_bits_macro, serialize_bytes_internal, serialize_int_macro,
};
use crate::streams::read_stream::ReadStream;
use crate::streams::write_stream::WriteStream;
use crate::streams::{
    appended, bit_length, bits_required, block_bits, bytes_at, int_bits, padding_clean, parsed,
    room_for, Parsed, Stream, StreamView,
};

verus! {

/// Number of bits of a fragment's header, before the padding.
pub const FRAGMENT_HEADER_BITS: u32 = 66;

/// The largest packet type tag that the envelope carries: the one below
/// `PacketTypes::NUM_TYPES`.
pub const MAX_PACKET_TYPE: i32 = 3;

/// One fragment: the fields that travel, and the number of payload bytes,
/// which is given when writing and found out from the datagram's size when
/// reading.
pub struct FragmentPacket {
    pub fragment_size: u32,
    pub crc32: u32,
    pub sequence: u16,
    pub packet_type: u32,
    pub fragment_id: u8,
    pub num_fragments: u8,
    pub fragment_data: Vec<u8>,
}

/// What a fragment datagram holds.
pub struct FragmentView {
    pub crc32: u32,
    pub sequence: u16,
    pub packet_type: u32,
    pub fragment_id: u8,
    pub num_fragments: u8,
    pub payload: Seq<u8>,
}

/// What a writing stream at position `at` appends for a fragment.
pub open spec fn fragment_bits(
    at: nat,
    crc32: u32,
    sequence: u16,
    fragment_id: u8,
    num_fragments: u8,
    payload: Seq<u8>,
) -> Seq<bool> {
    value_bits(crc32 as u64, 32) + value_bits(sequence as u64, 16) + int_bits(
        0,
        0,
        MAX_PACKET_TYPE as int,
    )
        + value_bits(fragment_id as u64, 8) + value_bits(num_fragments as u64, 8) + block_bits(
        at + FRAGMENT_HEADER_BITS as nat,
        payload,
    )
}

/// What reading a fragment datagram comes to.
///
/// A tag other than 0 ends the read after the tag: the datagram is a whole
/// packet. Else the payload is all that follows the header's padding, and
/// the read fails where that is nothing or more than `MAX_FRAGMENT_SIZE`
/// bytes.
pub open spec fn fragment_read(stream: StreamView) -> Parsed<FragmentView> {
    let p = stream.position;
    let crc32 = field_value(stream.bits, p, 32) as u32;
    let sequence = field_value(stream.bits, p + 32, 16) as u16;
    let tag = field_value(stream.bits, p + 48, 2) as u32;
    let fragment_id = field_value(stream.bits, p + 50, 8) as u8;
    let num_fragments = field_value(stream.bits, p + 58, 8) as u8;
    let gap = align_gap(p + 66);
    let start = p + 66 + gap;
    let size = (stream.limit - start) / 8;
    if p + 32 > stream.limit {
        Parsed { used: 0, overflow: true, value: None }
    } else if p + 48 > stream.limit {
        Parsed { used: 32, overflow: true, value: None }
    } else if p + 50 > stream.limit {
        Parsed { used: 48, overflow: true, value: None }
    } else if tag != 0 {
        Parsed {
            used: 50,
            overflow: false,
            value: Some(
                FragmentView {
                    crc32,
                    sequence,
                    packet_type: tag,
                    fragment_id: 0,
                    num_fragments: 0,
                    payload: Seq::empty(),
                },
            ),
        }
    } else if p + 58 > stream.limit {
        Parsed { used: 50, overflow: true, value: None }
    } else if p + 66 > stream.limit {
        Parsed { used: 58, overflow: true, value: None }
    } else if !padding_clean(stream.bits, p + 66) {
        Parsed { used: 66 + gap, overflow: false, value: None }
    } else if size <= 0 || size > MAX_FRAGMENT_SIZE {
        Parsed { used: 66 + gap, overflow: false, value: None }
    } else {
        Parsed {
            used: (stream.limit - p) as nat,
            overflow: false,
            value: Some(
                FragmentView {
                    crc32,
                    sequence,
                    packet_type: 0,
                    fragment_id,
                    num_fragments,
                    payload: bytes_at(stream.bits, start, size as nat),
                },
            ),
        }
    }
}

/// What serializing a fragment does.
///
/// Writing appends the fragment and sets the packet's tag to 0. Reading
/// fills the packet from the datagram, the payload going to the front of its
/// data; where reading fails the packet stays as it was.
pub open spec fn fragment_serialized(
    before: StreamView,
    after: StreamView,
    old_packet: FragmentPacket,
    new_packet: FragmentPacket,
    ok: bool,
) -> bool {
    if before.writing {
        &&& ok
        &&& new_packet.same_fields(FragmentPacket { packet_type: 0, ..old_packet })
        &&& appended(
            before,
            after,
            fragment_bits(
                before.position,
                old_packet.crc32,
                old_packet.sequence,
                old_packet.fragment_id,
                old_packet.num_fragments,
                old_packet.fragment_data@.take(old_packet.fragment_size as int),
            ),
        )
    } else {
        let outcome = fragment_read(before);
        &&& parsed(before, after, ok, outcome)
        &&& match outcome.value {
            Some(read) => {
                &&& new_packet.crc32 == read.crc32
                &&& new_packet.sequence == read.sequence
                &&& new_packet.packet_type == read.packet_type
                &&& new_packet.fragment_id == read.fragment_id
                &&& new_packet.num_fragments == read.num_fragments
                &&& new_packet.fragment_size == read.payload.len()
                &&& new_packet.fragment_data@ == read.payload + old_packet.fragment_data@.skip(
                    read.payload.len() as int,
                )
            },
            None => new_packet.same_fields(old_packet),
        }
    }
}

/// Number of bits that a fragment with `size` payload bytes takes at most.
pub open spec fn fragment_bits_bound(size: nat) -> nat {
    (FRAGMENT_HEADER_BITS + 7 + 8 * size) as nat
}

impl FragmentPacket {
    /// A fragment with all fields zero and room for the largest payload.
    pub fn new() -> (packet: FragmentPacket)
        ensures
            packet.fragment_size == 0,
            packet.crc32 == 0,
            packet.sequence == 0,
            packet.packet_type == 0,
            packet.fragment_id == 0,
            packet.num_fragments == 0,
            packet.fragment_data@ == Seq::new(MAX_PACKET_FRAGMENT_SIZE as nat, |i: int| 0u8),
    {
        let mut data: Vec<u8> = Vec::new();
        let mut i: usize = 0;
        while i < MAX_PACKET_FRAGMENT_SIZE
            invariant
                i <= MAX_PACKET_FRAGMENT_SIZE,
                data@ == Seq::new(i as nat, |i: int| 0u8),
            decreases MAX_PACKET_FRAGMENT_SIZE - i,
        {
            data.push(0);
            assert(data@ =~= Seq::new((i + 1) as nat, |i: int| 0u8));
            i = i + 1;
        }
        FragmentPacket {
            fragment_size: 0,
            crc32: 0,
            sequence: 0,
            packet_type: 0,
            fragment_id: 0,
            num_fragments: 0,
            fragment_data: data,
        }
    }

    /// Whether two packets agree in every field, their data byte for byte.
    pub open spec fn same_fields(self, other: FragmentPacket) -> bool {
        &&& self.fragment_size == other.fragment_size
        &&& self.crc32 == other.crc32
        &&& self.sequence == other.sequence
        &&& self.packet_type == other.packet_type
        &&& self.fragment_id == other.fragment_id
        &&& self.num_fragments == other.num_fragments
        &&& self.fragment_data@ == other.fragment_data@
    }

    /// Whether the packet can be written as it stands: its payload size is
    /// between 1 and `MAX_FRAGMENT_SIZE`, and its data holds that many bytes.
    pub open spec fn writable(&self) -> bool {
        &&& 0 < self.fragment_size <= MAX_FRAGMENT_SIZE
        &&& self.fragment_size <= self.fragment_data@.len()
    }

    /// Writes the fragment to `stream`, or reads one from it.
    #[verifier::rlimit(50)]
    pub fn serialize<S: Stream>(&mut self, stream: &mut S) -> (ok: bool)
        requires
            old(stream).wf(),
            old(stream)@.writing ==> old(self).writable() && room_for(
                old(stream)@,
                fragment_bits_bound(old(self).fragment_size as nat),
            ),
            !old(stream)@.writing ==> old(self).fragment_data@.len() >= MAX_FRAGMENT_SIZE,
        ensures
            final(stream).wf(),
            fragment_serialized(old(stream)@, final(stream)@, *old(self), *final(self), ok),
    {
        let ghost before = stream@;
        let writing: bool = stream.is_writing();
        proof {
            stream.lemma_stream();
            lemma_tag_width();
        }
        let mut crc32: u32 = self.crc32;
        if !serialize_bits_macro(stream, &mut crc32, 32) {
            return false;
        }
        let mut sequence: u32 = self.sequence as u32;
        if !serialize_bits_macro(stream, &mut sequence, 16) {
            return false;
        }
        let mut packet_type: i32 = 0;
        if !serialize_int_macro(stream, &mut packet_type, 0, MAX_PACKET_TYPE) {
            proof {
                if before.position + 50 <= before.limit {
                    lemma_field_value_bound(before.bits, before.position + 48, 2);
                    lemma2_to64();
                }
            }
            return false;
        }
        proof {
            if !writing {
                lemma_field_value_bound(before.bits, before.position, 32);
                lemma_field_value_bound(before.bits, before.position + 32, 16);
                lemma_field_value_bound(before.bits, before.position + 48, 2);
                lemma2_to64();
            }
        }
        if packet_type != 0 {
            self.crc32 = crc32;
            self.sequence = sequence as u16;
            self.packet_type = packet_type as u32;
            self.fragment_id = 0;
            self.num_fragments = 0;
            self.fragment_size = 0;
            proof {
                assert(self.fragment_data@ =~= Seq::<u8>::empty() + old(self).fragment_data@.skip(
                    0,
                ));
            }
            return true;
        }
        let mut fragment_id: u32 = self.fragment_id as u32;
        if !serialize_bits_macro(stream, &mut fragment_id, 8) {
            return false;
        }
        let mut num_fragments: u32 = self.num_fragments as u32;
        if !serialize_bits_macro(stream, &mut num_fragments, 8) {
            return false;
        }
        proof {
            if !writing {
                lemma_field_value_bound(before.bits, before.position + 50, 8);
                lemma_field_value_bound(before.bits, before.position + 58, 8);
            }
        }
        if !serialize_align_macro(stream) {
            return false;
        }
        let mut fragment_size: u32 = self.fragment_size;
        if !writing {
            proof {
                stream.lemma_stream();
            }
            fragment_size = stream.get_bits_remaining() / 8;
            if fragment_size == 0 || fragment_size > MAX_FRAGMENT_SIZE as u32 {
                return false;
            }
        }
        let ghost aligned = stream@;
        proof {
            stream.lemma_stream();
            assert(align_gap(aligned.position) == 0);
            assert(aligned.bits.subrange(aligned.position as int, aligned.position as int)
                =~= Seq::<bool>::empty());
        }
        if !serialize_bytes_internal(stream, &mut self.fragment_data, fragment_size) {
            return false;
        }
        self.packet_type = 0;
        if !writing {
            self.crc32 = crc32;
            self.sequence = sequence as u16;
            self.fragment_id = fragment_id as u8;
            self.num_fragments = num_fragments as u8;
            self.fragment_size = fragment_size;
        } else {
            proof {
                let payload = old(self).fragment_data@.take(old(self).fragment_size as int);
                let head = value_bits(old(self).crc32 as u64, 32) + value_bits(
                    old(self).sequence as u64,
                    16,
                ) + int_bits(0, 0, 3) + value_bits(old(self).fragment_id as u64, 8) + value_bits(
                    old(self).num_fragments as u64,
                    8,
                );
                let pad = zero_bits(align_gap(before.position + 66));
                assert(stream@.bits =~= before.bits + (head + (pad + byte_bits(
                    payload,
                ))));
                assert(pad + byte_bits(payload) =~= block_bits(
                    before.position + 66,
                    payload,
                ));
            }
        }
        true
    }
}

/// The packet type tag of the envelope takes two bits.
proof fn lemma_tag_width()
    ensures
        bits_required(0, 3) == 2,
{
    assert(bit_length(3) == 1 + bit_length(1));
    assert(bit_length(1) == 1 + bit_length(0));
}

impl Object for FragmentPacket {
    open spec fn max_bits(&self) -> nat {
        fragment_bits_bound(self.fragment_size as nat)
    }

    open spec fn written(&self, at: nat) -> Option<Seq<bool>> {
        if self.writable() {
            Some(
                fragment_bits(
                    at,
                    self.crc32,
                    self.sequence,
                    self.fragment_id,
                    self.num_fragments,
                    self.fragment_data@.take(self.fragment_size as int),
                ),
            )
        } else {
            None
        }
    }

    open spec fn consumed(&self, bits: Seq<bool>, at: nat) -> Option<nat> {
        let outcome = fragment_read(
            StreamView {
                writing: false,
                bits,
                position: at,
                limit: bits.len(),
                storage: 0,
                error: ProtocolError::NoError,
            },
        );
        if self.fragment_data@.len() >= MAX_FRAGMENT_SIZE && outcome.value.is_some() {
            Some(outcome.used)
        } else {
            None
        }
    }

    fn serialize_internal_r(&mut self, stream: &mut ReadStream) -> (ok: bool) {
        proof {
            stream.lemma_stream();
            stream.lemma_reading();
        }
        if self.fragment_data.len() < MAX_FRAGMENT_SIZE {
            return false;
        }
        self.serialize(stream)
    }

    fn serialize_internal_w(&mut self, stream: &mut WriteStream) -> (ok: bool) {
        proof {
            stream.lemma_stream();
            stream.lemma_writing();
            lemma_tag_width();
        }
        if self.fragment_size == 0 || self.fragment_size > MAX_FRAGMENT_SIZE as u32
            || self.fragment_size as usize > self.fragment_data.len() {
            assert(stream@.bits.skip(stream@.bits.len() as int) =~= Seq::<bool>::empty());
            assert(stream@.bits + Seq::<bool>::empty() =~= stream@.bits);
            return false;
        }
        let ghost before = stream@;
        let ok = self.serialize(stream);
        proof {
            let added = fragment_bits(
                before.position,
                old(self).crc32,
                old(self).sequence,
                old(self).fragment_id,
                old(self).num_fragments,
                old(self).fragment_data@.take(old(self).fragment_size as int),
            );
            assert(stream@.bits.skip(before.bits.len() as int) =~= added);
        }
        ok
    }
}

impl Packet for FragmentPacket {
    open spec fn packet_type(&self) -> u32 {
        0
    }

    fn get_packet_type(&self) -> (tag: u32) {
        PacketTypes::FRAGMENT.tag()
    }
}

} // verus!
