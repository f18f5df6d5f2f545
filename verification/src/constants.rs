//! Size limits of the protocol and the error taxonomy.
use vstd::prelude::*;

verus! {

/// Salt that distinguishes this protocol's datagrams in the checksum.
pub const PROTOCOL_ID: u32 = 0x55667788;

/// Number of slots in the receiver's reassembly window.
pub const PACKET_BUFFER_SIZE: usize = 256;

/// Largest payload, in bytes, that one fragment carries.
pub const MAX_FRAGMENT_SIZE: usize = 1024;

/// Largest number of fragments that one packet is split into.
pub const MAX_FRAGMENTS_PER_PACKET: usize = 256;

/// Largest packet, in bytes, that fragmentation can carry.
pub const MAX_PACKET_SIZE: usize = 262144;

/// Room reserved in a fragment datagram for the fragment header.
pub const PACKET_FRAGMENT_HEADER_BYTES: usize = 16;

/// Size of the buffer that holds one fragment datagram.
pub const MAX_PACKET_FRAGMENT_SIZE: usize = 1040;

/// A byte buffer. Buffers handed to a bit writer or reader are word-aligned:
/// their length is a multiple of 4.
pub type Buffer = Vec<u8>;

/// Packet type tags of the fragment envelope. Tag 0 marks a fragment.
#[allow(non_camel_case_types)]
#[derive(Clone, Copy, Debug, PartialEq, Eq, Structural)]
pub enum PacketTypes {
    FRAGMENT,
    A,
    B,
    C,
    NUM_TYPES,
}

impl PacketTypes {
    /// The tag's number on the wire.
    pub open spec fn spec_tag(self) -> u32 {
        match self {
            PacketTypes::FRAGMENT => 0,
            PacketTypes::A => 1,
            PacketTypes::B => 2,
            PacketTypes::C => 3,
            PacketTypes::NUM_TYPES => 4,
        }
    }

    /// The tag's number on the wire.
    #[verifier::when_used_as_spec(spec_tag)]
    pub fn tag(self) -> (t: u32)
        ensures
            t == self.spec_tag(),
    {
        match self {
            PacketTypes::FRAGMENT => 0,
            PacketTypes::A => 1,
            PacketTypes::B => 2,
            PacketTypes::C => 3,
            PacketTypes::NUM_TYPES => 4,
        }
    }
}

/// What can go wrong while a packet is written or read.
#[derive(Clone, Copy, Debug, PartialEq, Eq, Structural)]
pub enum ProtocolError {
    NoError,
    StreamOverflow,
    SerializeHeaderFailed,
    InvalidPacketType,
    PacketTypeNotAllowed,
    CreatePacketFailed,
    SerializePacketFailed,
    SerializeCheckFailed,
}

} // verus!
