//! The registry of packet types that a caller provides.
use vstd::prelude::*;

use crate::packets::object::{Object, Packet};

verus! {

/// Makes packets from type tags. Which tags there are and what becomes of the
/// packets made is the caller's bookkeeping.
///
/// Which types a factory makes packets of, and how far a read into a packet
/// that it has made goes, is its own affair, but the same for the same type:
/// `makes` and `made_consumes` give it names, by which `read_packet` says
/// what error it reports.
pub trait PacketFactory {
    /// The packets that this factory makes.
    type Output: Packet;

    /// Number of packet types that are registered. An implementation
    /// states its own; as given here there is one type.
    open spec fn num_packet_types(&self) -> u32 {
        1
    }

    /// Number of packet types that are registered.
    fn get_num_packet_types(&self) -> (n: u32)
        ensures
            n == self.num_packet_types(),
    ;

    /// Number of packets made and not yet destroyed.
    fn get_num_allocated_packets(&self) -> u32;

    /// Whether the factory makes packets of the type `packet_type`. An
    /// implementation states its own; as given here it makes every type.
    open spec fn makes(&self, packet_type: u32) -> bool {
        true
    }

    /// What `Object::consumed` is of a packet that the factory has made for
    /// the type `packet_type`. An implementation states its own; as given
    /// here it suits packets that read nothing.
    open spec fn made_consumes(&self, packet_type: u32, bits: Seq<bool>, at: nat) -> Option<nat> {
        Some(0)
    }

    /// A fresh packet of the type `packet_type`, or nothing where the
    /// factory makes none of that type.
    fn create_packet(&self, packet_type: u32) -> (made: Option<Self::Output>)
        ensures
            made.is_some() == self.makes(packet_type),
            made matches Some(packet) ==> forall|bits: Seq<bool>, at: nat|
                #[trigger] packet.consumed(bits, at) == self.made_consumes(packet_type, bits, at),
    ;

    /// Tells the factory that a packet it made is gone.
    fn destroy_packet(&self);
}

} // verus!
