//! What a caller implements to have values of its own carried in packets.
use vstd::prelude::*;

use crate::streams::read_stream::ReadStream;
use crate::streams::write_stream::WriteStream;
use crate::streams::{appended, extended, moved_on, read_on, room_for, Stream};

verus! {

/// A value that can be written to a stream and read from one. The two
/// directions are separate methods because they may differ: a size, for one,
/// is given when writing and found out when reading.
///
/// A writer's buffer is sized before the write pass, so an object says how
/// many bits it appends at most, and a caller makes that much room. In
/// return the object appends only, and no more than it said.
///
/// What an object writes, and whether its write succeeds, is its own affair,
/// but it is the same whenever the same value is written at the same
/// position: `written` gives it a name, by which `write_packet` says what a
/// packet holds. In the same way `consumed` names how far a read goes and
/// whether it succeeds, by which `read_packet` says what error it reports.
///
/// Nothing holds an implementation to these promises but its own proof:
/// what is proved of `write_packet` and `read_packet` is proved of objects
/// that keep them.
pub trait Object {
    /// The largest number of bits that one write of this value appends. An
    /// implementation states its own bound; as given here the bound suits an
    /// object that writes nothing.
    open spec fn max_bits(&self) -> nat {
        0
    }

    /// What one write of this value appends to a stream that stands at
    /// position `at`, or nothing where the write fails. An implementation
    /// states its own; as given here it suits an object that writes nothing.
    open spec fn written(&self, at: nat) -> Option<Seq<bool>> {
        Some(Seq::empty())
    }

    /// Number of bits that one read into this value takes off a stream that
    /// holds `bits` and stands at position `at`, or nothing where the read
    /// fails. An implementation states its own; as given here it suits an
    /// object that reads nothing.
    open spec fn consumed(&self, bits: Seq<bool>, at: nat) -> Option<nat> {
        Some(0)
    }

    /// Reads the value from `stream`. The result tells whether that worked.
    /// A read that works leaves the stream's error as it was.
    fn serialize_internal_r(&mut self, stream: &mut ReadStream) -> (ok: bool)
        requires
            old(stream).wf(),
        ensures
            final(stream).wf(),
            moved_on(old(stream)@, final(stream)@),
            ok == old(self).consumed(old(stream)@.bits, old(stream)@.position).is_some(),
            ok ==> read_on(
                old(stream)@,
                final(stream)@,
                old(self).consumed(old(stream)@.bits, old(stream)@.position).unwrap(),
            ),
    ;

    /// Writes the value to `stream`. The result tells whether that worked.
    fn serialize_internal_w(&mut self, stream: &mut WriteStream) -> (ok: bool)
        requires
            old(stream).wf(),
            room_for(old(stream)@, old(self).max_bits()),
        ensures
            final(stream).wf(),
            extended(old(stream)@, final(stream)@),
            final(stream)@.position <= old(stream)@.position + old(self).max_bits(),
            ok == old(self).written(old(stream)@.position).is_some(),
            ok ==> appended(
                old(stream)@,
                final(stream)@,
                old(self).written(old(stream)@.position).unwrap(),
            ),
    ;
}

/// An object that travels as a packet of its own, under a type tag.
pub trait Packet: Object {
    /// The packet's type tag. An implementation states its own; as given
    /// here it is the tag 0.
    open spec fn packet_type(&self) -> u32 {
        0
    }

    /// The packet's type tag.
    fn get_packet_type(&self) -> (tag: u32)
        ensures
            tag == self.packet_type(),
    ;
}

} // verus!
