//! A datagram's bytes together with their count.
use vstd::prelude::*;

use crate::constants::MAX_PACKET_FRAGMENT_SIZE;

verus! {

/// A buffer and the number of its bytes that are in use.
#[derive(Debug)]
pub struct PacketData {
    pub size: u32,
    pub data: Vec<u8>,
}

impl PacketData {
    /// An unused buffer of the size of one fragment datagram, all zero.
    pub fn new() -> (packet: PacketData)
        ensures
            packet.size == 0,
            packet.data@ == Seq::new(MAX_PACKET_FRAGMENT_SIZE as nat, |i: int| 0u8),
    {
        let mut data: Vec<u8> = Vec::new();
        let mut i: usize = 0;
        while i < MAX_PACKET_FRAGMENT_SIZE
            invariant
                i <= MAX_PACKET_FRAGMENT_SIZE,
                data@ == Seq::new(i as nat, |i: int| 0u8),
            decreases MAX_PACKET_FRAGMENT_SIZE - i,
        {
            data.push(0);
            assert(data@ =~= Seq::new((i + 1) as nat, |i: int| 0u8));
            i = i + 1;
        }
        PacketData { size: 0, data }
    }
}

} // verus!
