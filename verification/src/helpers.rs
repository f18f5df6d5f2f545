//! Error texts, byte conversions, the marker hash and the packet checksum.
use std::collections::hash_map::DefaultHasher;
use std::hash::{Hash, Hasher};
use vstd::prelude::*;
use vstd::std_specs::hash::DefaultHasherAdditionalSpecFns;

use crate::bitpacker::word_bytes;
use crate::constants::{Buffer, ProtocolError};

verus! {

/// The text that describes an error.
pub open spec fn error_text(error: ProtocolError) -> Seq<char> {
    match error {
        ProtocolError::NoError => "No error"@,
        ProtocolError::StreamOverflow => "Stream overflow"@,
        ProtocolError::SerializeHeaderFailed => "Failed to serialize header"@,
        ProtocolError::CreatePacketFailed => "Failed to create packet"@,
        ProtocolError::InvalidPacketType => "Invalid packet type"@,
        ProtocolError::PacketTypeNotAllowed => "Packet type not allowed"@,
        ProtocolError::SerializeCheckFailed => "Serialize check failed"@,
        ProtocolError::SerializePacketFailed => "Serialize packet failed"@,
    }
}

/// The text that describes an error.
pub fn get_error_string(error: ProtocolError) -> (text: &'static str)
    ensures
        text@ == error_text(error),
{
    match error {
        ProtocolError::NoError => "No error",
        ProtocolError::StreamOverflow => "Stream overflow",
        ProtocolError::SerializeHeaderFailed => "Failed to serialize header",
        ProtocolError::CreatePacketFailed => "Failed to create packet",
        ProtocolError::InvalidPacketType => "Invalid packet type",
        ProtocolError::PacketTypeNotAllowed => "Packet type not allowed",
        ProtocolError::SerializeCheckFailed => "Serialize check failed",
        ProtocolError::SerializePacketFailed => "Serialize packet failed",
    }
}

/// Byte `k` of the big-endian form of `v`, byte 0 being the most
/// significant.
pub open spec fn be_byte(v: u32, k: int) -> u8 {
    if k == 0 {
        (v >> 24) as u8
    } else if k == 1 {
        ((v >> 16) & 0xff) as u8
    } else if k == 2 {
        ((v >> 8) & 0xff) as u8
    } else {
        (v & 0xff) as u8
    }
}

/// The big-endian bytes of a sequence of words, word after word.
pub open spec fn be_bytes(words: Seq<u32>) -> Seq<u8> {
    Seq::new(4 * words.len(), |i: int| be_byte(words[i / 4], i % 4))
}

/// The big-endian bytes of `input`, word after word.
pub fn to_bytes(input: &[u32]) -> (bytes: Vec<u8>)
    ensures
        bytes@ == be_bytes(input@),
{
    let mut bytes: Vec<u8> = Vec::new();
    let mut i: usize = 0;
    while i < input.len()
        invariant
            i <= input@.len(),
            bytes@ == be_bytes(input@.take(i as int)),
        decreases input@.len() - i,
    {
        let v: u32 = input[i];
        let ghost prev = bytes@;
        bytes.push(#[verifier::truncate] ((v >> 24) as u8));
        bytes.push(#[verifier::truncate] (((v >> 16) & 0xff) as u8));
        bytes.push(#[verifier::truncate] (((v >> 8) & 0xff) as u8));
        bytes.push(#[verifier::truncate] ((v & 0xff) as u8));
        proof {
            let next = be_bytes(input@.take(i + 1));
            assert(bytes@.len() == next.len());
            assert forall|j: int| 0 <= j < next.len() implies bytes@[j] == next[j] by {
                if j < 4 * i {
                    assert(input@.take(i + 1)[j / 4] == input@.take(i as int)[j / 4]);
                    assert(bytes@[j] == prev[j]);
                } else {
                    assert(j / 4 == i);
                    assert(input@.take(i + 1)[j / 4] == v);
                }
            }
            assert(bytes@ =~= next);
        }
        i = i + 1;
    }
    proof {
        assert(input@.take(i as int) =~= input@);
    }
    bytes
}

/// The writes by which a string feeds itself to a hasher.
pub uninterp spec fn string_writes(text: Seq<char>) -> Seq<Seq<u8>>;

/// `<String as Hash>::hash` feeds the string to the hasher. The writes it
/// performs depend on the string's text alone: equal strings hash alike.
/// Nothing else is claimed of them.
#[verifier::external_body]
fn feed_string(text: &String, state: &mut DefaultHasher)
    ensures
        final(state)@ == old(state)@ + string_writes(text@),
{
    text.hash(state);
}

/// The 32-bit marker hash of a text: the low half of what the standard
/// library's default hasher, freshly made, gives for the text.
pub open spec fn marker_hash(text: Seq<char>) -> u32 {
    (DefaultHasher::spec_finish(string_writes(text)) & 0xffff_ffff) as u32
}

/// The 32-bit hash of `input` that check markers carry.
pub fn hash_string(input: &mut String) -> (hash: u32)
    ensures
        *final(input) == *old(input),
        hash == marker_hash(old(input)@),
{
    let mut hasher = DefaultHasher::new();
    feed_string(input, &mut hasher);
    let digest: u64 = hasher.finish();
    proof {
        assert(Seq::<Seq<u8>>::empty() + string_writes(input@) =~= string_writes(input@));
    }
    assert(digest & 0xffff_ffff <= 0xffff_ffff) by (bit_vector);
    (digest & 0xffff_ffff) as u32
}

/// The CRC-32 checksum (IEEE) of a byte sequence.
pub uninterp spec fn crc32(bytes: Seq<u8>) -> u32;

/// `crc32fast::hash` returns the CRC-32 (IEEE) checksum of the slice it is
/// given, whichever of its implementations the processor selects.
pub assume_specification[ crc32fast::hash ](buf: &[u8]) -> (sum: u32)
    ensures
        sum == crc32(buf@),
;

/// The bytes of `v`, least significant first.
pub open spec fn le_bytes(v: u32) -> Seq<u8> {
    word_bytes(v as u64)
}

/// The bytes that a packet's checksum covers: the protocol id, least
/// significant byte first, then the frame.
pub open spec fn crc_domain(protocol_id: u32, frame: Seq<u8>) -> Seq<u8> {
    le_bytes(protocol_id) + frame
}

/// The checksum of `buffer` salted with `protocol_id`.
pub fn calc_packet_crc32(buffer: &Buffer, protocol_id: u32) -> (sum: u32)
    ensures
        sum == crc32(crc_domain(protocol_id, buffer@)),
{
    let mut crc_bytes: Vec<u8> = Vec::new();
    let id: u64 = protocol_id as u64;
    crc_bytes.push(#[verifier::truncate] ((id & 0xff) as u8));
    crc_bytes.push(#[verifier::truncate] (((id >> 8) & 0xff) as u8));
    crc_bytes.push(#[verifier::truncate] (((id >> 16) & 0xff) as u8));
    crc_bytes.push(#[verifier::truncate] (((id >> 24) & 0xff) as u8));
    assert(crc_bytes@ =~= le_bytes(protocol_id));
    let mut i: usize = 0;
    while i < buffer.len()
        invariant
            i <= buffer@.len(),
            crc_bytes@ == le_bytes(protocol_id) + buffer@.take(i as int),
        decreases buffer@.len() - i,
    {
        crc_bytes.push(buffer[i]);
        assert(buffer@.take(i + 1) =~= buffer@.take(i as int).push(buffer@[i as int]));
        assert(crc_bytes@ =~= le_bytes(protocol_id) + buffer@.take(i + 1));
        i = i + 1;
    }
    assert(buffer@.take(i as int) =~= buffer@);
    crc32fast::hash(crc_bytes.as_slice())
}

} // verus!
