//! The settings of one framing pass.
use vstd::prelude::*;

use crate::packets::packet_factory::PacketFactory;

verus! {

/// How packets are framed: with or without checksum, after how many bytes
/// of the caller's own, under which protocol id, and which packet types may
/// be read.
pub struct PacketInfo<'a, F: PacketFactory> {
    /// Whether packets are written raw, that is without a checksum.
    pub raw_format: bool,
    /// Number of bytes at the start of each packet that are the caller's.
    pub prefix_bytes: u32,
    /// The salt of the checksum, which tells this protocol's packets from
    /// others.
    pub protocol_id: u32,
    /// The packet types that reading accepts.
    pub allowed_packet_types: Vec<u32>,
    /// Makes the packets that are read.
    pub packet_factory: &'a F,
}

impl<'a, F: PacketFactory> PacketInfo<'a, F> {
    /// Settings for framed packets without prefix, under protocol id 0, that
    /// allow no packet type yet.
    pub fn new(packet_factory: &'a F) -> (info: PacketInfo<'a, F>)
        ensures
            !info.raw_format,
            info.prefix_bytes == 0,
            info.protocol_id == 0,
            info.allowed_packet_types@ == Seq::<u32>::empty(),
            info.packet_factory == packet_factory,
    {
        PacketInfo {
            raw_format: false,
            prefix_bytes: 0,
            protocol_id: 0,
            allowed_packet_types: Vec::new(),
            packet_factory,
        }
    }
}

} // verus!
