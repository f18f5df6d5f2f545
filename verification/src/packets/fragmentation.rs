//! The sender's side of fragmentation: a packet that exceeds one datagram
//! is cut into fragments, and each travels in an envelope of its own.
use vstd::prelude::*;

use crate::bitpacker::{
    align_gap, byte_bits, lemma_bits_round_trip, lemma_byte_bits_concat,
    lemma_bytes_spell_their_bits, lemma_concat_skip, lemma_field_value_bound, lemma_take_skip,
    low_mask, value_bits,
};
use crate::helpers::le_bytes;
use crate::constants::{
    Buffer, MAX_FRAGMENT_SIZE, MAX_PACKET_FRAGMENT_SIZE, PROTOCOL_ID,
};
use crate::packets::fragment_packet::{fragment_bits, FragmentPacket};
use crate::packets::packet_data::PacketData;
use crate::constants::PACKET_BUFFER_SIZE;
use crate::packets::packet_buffer::{
    arrival, assembled, complete, drained, fed, fragments_of_a_packet,
    lemma_one_packet_is_handed_out,
    lemma_reassembly_in_any_order, sequence_ahead, slot_of, vacant, view_wf, whole_packets,
    Arrival, PacketBufferView,
};
use crate::packets::{
    flush_to_bytes, frame_crc, lemma_sealed_is_intact, packed, seal_frame, seal_intact, sealed,
};
use crate::streams::{bit_length, block_bits, int_bits, lemma_block_round_trip};
use crate::streams::write_stream::WriteStream;
use crate::streams::Stream;

verus! {

/// Largest packet that can be cut into fragments: the number of fragments
/// travels in eight bits.
pub const MAX_SPLIT_SIZE: u32 = 261120;

/// Number of fragments that a packet of `size` bytes is cut into.
pub open spec fn fragment_count(size: int) -> int {
    (size + MAX_FRAGMENT_SIZE - 1) / MAX_FRAGMENT_SIZE as int
}

/// The bytes of fragment number `id` of a packet: `MAX_FRAGMENT_SIZE` bytes
/// from the place where the fragment before it ended, or what is left of the
/// packet.
pub open spec fn fragment_payload(packet: Seq<u8>, id: int) -> Seq<u8> {
    let start = id * MAX_FRAGMENT_SIZE;
    let end = if start + MAX_FRAGMENT_SIZE <= packet.len() {
        start + MAX_FRAGMENT_SIZE
    } else {
        packet.len() as int
    };
    packet.subrange(start, end)
}

/// The datagram that carries one fragment: its envelope, sealed with the
/// checksum under this protocol's id.
pub open spec fn fragment_datagram(sequence: u16, id: u8, count: u8, payload: Seq<u8>) -> Seq<u8> {
    sealed(PROTOCOL_ID, packed(fragment_bits(0, 0, sequence, id, count, payload)))
}

/// A zeroed buffer of the size of one fragment datagram.
fn datagram_buffer() -> (buffer: Buffer)
    ensures
        buffer@.len() == MAX_PACKET_FRAGMENT_SIZE,
{
    let mut buffer: Buffer = Vec::new();
    let mut i: usize = 0;
    while i < MAX_PACKET_FRAGMENT_SIZE
        invariant
            i <= MAX_PACKET_FRAGMENT_SIZE,
            buffer@.len() == i,
        decreases MAX_PACKET_FRAGMENT_SIZE - i,
    {
        buffer.push(0);
        i = i + 1;
    }
    buffer
}

/// Builds the datagram of one fragment: the `size` bytes of `packet_data`
/// from index `start` under the envelope of fragment `id` of `count`.
fn build_fragment(
    sequence: u16,
    packet_data: &Buffer,
    start: usize,
    size: u32,
    id: u8,
    count: u8,
) -> (datagram: PacketData)
    requires
        0 < size <= MAX_FRAGMENT_SIZE,
        start + size <= packet_data@.len(),
    ensures
        datagram.data@.len() == MAX_PACKET_FRAGMENT_SIZE,
        datagram.size == 9 + size,
        datagram.data@.take(datagram.size as int) == fragment_datagram(
            sequence,
            id,
            count,
            packet_data@.subrange(start as int, start + size),
        ),
{
    let ghost payload = packet_data@.subrange(start as int, start + size);
    let len: usize = packet_data.len();
    let mut bytes: Vec<u8> = Vec::new();
    let mut i: usize = 0;
    while i < size as usize
        invariant
            i <= size,
            len == packet_data@.len(),
            start + size <= len,
            payload == packet_data@.subrange(start as int, start + size),
            bytes@ == payload.take(i as int),
        decreases size - i,
    {
        bytes.push(packet_data[start + i]);
        assert(bytes@ =~= payload.take(i + 1));
        i = i + 1;
    }
    assert(payload.take(size as int) =~= payload);
    assert(bytes@.take(size as int) =~= payload);
    let mut fragment_packet = FragmentPacket {
        fragment_size: size,
        crc32: 0,
        sequence,
        packet_type: 0,
        fragment_id: id,
        num_fragments: count,
        fragment_data: bytes,
    };
    let mut stream = WriteStream::new(datagram_buffer(), MAX_PACKET_FRAGMENT_SIZE);
    proof {
        stream.lemma_stream();
    }
    fragment_packet.serialize(&mut stream);
    proof {
        stream.lemma_stream();
        stream.lemma_writing();
        lemma_fragment_bits_len(0, 0, sequence, id, count, payload);
        assert(stream@.bits =~= fragment_bits(0, 0, sequence, id, count, payload));
    }
    let (mut data, written) = flush_to_bytes(stream);
    seal_frame(&mut data, 0, written as usize, PROTOCOL_ID);
    proof {
        let all = packed(fragment_bits(0, 0, sequence, id, count, payload));
        assert(all.take(0) + sealed(PROTOCOL_ID, all) =~= sealed(PROTOCOL_ID, all));
    }
    PacketData { size: written, data }
}

/// A fragment that starts a datagram takes nine bytes of envelope and its
/// payload.
pub proof fn lemma_fragment_bits_len(
    at: nat,
    crc32: u32,
    sequence: u16,
    id: u8,
    count: u8,
    payload: Seq<u8>,
)
    ensures
        fragment_bits(at, crc32, sequence, id, count, payload).len() == 66 + align_gap(at + 66) + 8
            * payload.len(),
        at % 8 == 0 ==> fragment_bits(at, crc32, sequence, id, count, payload).len() == 72 + 8
            * payload.len(),
{
    assert(bit_length(3) == 1 + bit_length(1));
    assert(bit_length(1) == 1 + bit_length(0));
}

/// Cuts the first `big_packet_size` bytes of `packet_data` into fragments of
/// `MAX_FRAGMENT_SIZE` bytes, the last one holding what is left, and puts the
/// datagram of each into `fragment_packets`, in the order of their ids, under
/// the packet sequence number `sequence`. `num_fragments` receives their
/// number.
pub fn split_packet_into_fragments(
    sequence: u16,
    packet_data: &mut Buffer,
    big_packet_size: u32,
    num_fragments: &mut u32,
    fragment_packets: &mut Vec<PacketData>,
) -> (done: bool)
    requires
        0 < big_packet_size <= MAX_SPLIT_SIZE,
        big_packet_size <= old(packet_data)@.len(),
        fragment_count(big_packet_size as int) <= old(fragment_packets)@.len(),
    ensures
        done,
        final(packet_data)@ == old(packet_data)@,
        *final(num_fragments) == fragment_count(big_packet_size as int),
        final(fragment_packets)@.len() == old(fragment_packets)@.len(),
        forall|i: int|
            0 <= i < fragment_count(big_packet_size as int) ==> {
                let payload = fragment_payload(old(packet_data)@.take(big_packet_size as int), i);
                let datagram = #[trigger] final(fragment_packets)@[i];
                &&& datagram.size == 9 + payload.len()
                &&& datagram.data@.len() == MAX_PACKET_FRAGMENT_SIZE
                &&& datagram.data@.take(datagram.size as int) == fragment_datagram(
                    sequence,
                    i as u8,
                    fragment_count(big_packet_size as int) as u8,
                    payload,
                )
            },
        forall|i: int|
            fragment_count(big_packet_size as int) <= i < old(fragment_packets)@.len()
                ==> #[trigger] final(fragment_packets)@[i] == old(fragment_packets)@[i],
{
    let count: u32 = (big_packet_size + MAX_FRAGMENT_SIZE as u32 - 1) / MAX_FRAGMENT_SIZE as u32;
    *num_fragments = count;
    let ghost packet = packet_data@.take(big_packet_size as int);
    let mut i: u32 = 0;
    while i < count
        invariant
            i <= count <= 255,
            count == fragment_count(big_packet_size as int),
            0 < big_packet_size <= MAX_SPLIT_SIZE,
            big_packet_size <= packet_data@.len(),
            packet == packet_data@.take(big_packet_size as int),
            packet_data@ == old(packet_data)@,
            count <= fragment_packets@.len(),
            fragment_packets@.len() == old(fragment_packets)@.len(),
            forall|x: int|
                0 <= x < i ==> {
                    let payload = fragment_payload(packet, x);
                    let datagram = #[trigger] fragment_packets@[x];
                    &&& datagram.size == 9 + payload.len()
                    &&& datagram.data@.len() == MAX_PACKET_FRAGMENT_SIZE
                    &&& datagram.data@.take(datagram.size as int) == fragment_datagram(
                        sequence,
                        x as u8,
                        count as u8,
                        payload,
                    )
                },
            forall|x: int|
                i <= x < fragment_packets@.len() ==> #[trigger] fragment_packets@[x] == old(
                    fragment_packets,
                )@[x],
        decreases count - i,
    {
        assert(i * MAX_FRAGMENT_SIZE <= 254 * MAX_FRAGMENT_SIZE) by (nonlinear_arith)
            requires
                i <= 254,
        ;
        let start: u32 = i * MAX_FRAGMENT_SIZE as u32;
        let fragment_size: u32 = if start + MAX_FRAGMENT_SIZE as u32 <= big_packet_size {
            MAX_FRAGMENT_SIZE as u32
        } else {
            big_packet_size - start
        };
        proof {
            assert(packet_data@.subrange(start as int, start + fragment_size)
                =~= fragment_payload(packet, i as int));
        }
        let datagram = build_fragment(
            sequence,
            packet_data,
            start as usize,
            fragment_size,
            i as u8,
            count as u8,
        );
        fragment_packets[i as usize] = datagram;
        i = i + 1;
    }
    true
}

/// The bits of a fragment's datagram: the sealed checksum, then the
/// fragment's own bits from the sequence number on.
#[verifier::rlimit(50)]
proof fn lemma_datagram_bits(sequence: u16, id: u8, count: u8, payload: Seq<u8>)
    ensures
        ({
            let bits = fragment_bits(0, 0, sequence, id, count, payload);
            let datagram = fragment_datagram(sequence, id, count, payload);
            &&& datagram.len() == 9 + payload.len()
            &&& byte_bits(datagram).len() == bits.len()
            &&& byte_bits(datagram).skip(32) == bits.skip(32)
            &&& seal_intact(PROTOCOL_ID, datagram)
        }),
{
    let bits = fragment_bits(0, 0, sequence, id, count, payload);
    lemma_fragment_bits_len(0, 0, sequence, id, count, payload);
    let raw = packed(bits);
    assert(raw.len() == 9 + payload.len());
    lemma_bytes_spell_their_bits(bits, raw);
    let datagram = fragment_datagram(sequence, id, count, payload);
    lemma_sealed_is_intact(PROTOCOL_ID, raw);
    let slot = le_bytes(frame_crc(PROTOCOL_ID, raw));
    let rest = raw.skip(4);
    assert(slot.len() == 4);
    assert(datagram == slot + rest);
    lemma_byte_bits_concat(slot, rest);
    lemma_concat_skip(byte_bits(slot), byte_bits(rest));
    lemma_take_skip(raw, 4);
    lemma_byte_bits_concat(raw.take(4), rest);
    lemma_concat_skip(byte_bits(raw.take(4)), byte_bits(rest));
    assert(byte_bits(slot).len() == 32);
    assert(byte_bits(raw.take(4)).len() == 32);
}

/// Fragment round trip: the datagram that carries a fragment brings the
/// receiver that fragment: its payload, its packet's sequence number, its
/// id and its packet's number of fragments.
#[verifier::rlimit(50)]
pub proof fn lemma_fragment_arrives(sequence: u16, id: u8, count: u8, payload: Seq<u8>)
    requires
        0 < payload.len() <= MAX_FRAGMENT_SIZE,
    ensures
        arrival(fragment_datagram(sequence, id, count, payload)) == Some(
            Arrival { payload, sequence, fragment_id: id as int, count: count as int },
        ),
{
    let bits = fragment_bits(0, 0, sequence, id, count, payload);
    let datagram = fragment_datagram(sequence, id, count, payload);
    lemma_datagram_bits(sequence, id, count, payload);
    lemma_fragment_bits_len(0, 0, sequence, id, count, payload);
    let all = byte_bits(datagram);
    let crc = all.take(32);
    let s16 = value_bits(sequence as u64, 16);
    let tag = value_bits(0, 2);
    let i8 = value_bits(id as u64, 8);
    let c8 = value_bits(count as u64, 8);
    let block = block_bits(66, payload);
    assert(bit_length(3) == 1 + bit_length(1));
    assert(bit_length(1) == 1 + bit_length(0));
    assert(int_bits(0, 0, 3) == tag);
    assert(bits.skip(32) =~= s16 + tag + i8 + c8 + block);
    assert(all =~= crc + all.skip(32));
    let none = Seq::<bool>::empty();
    assert(all =~= crc + s16 + (tag + i8 + c8 + block));
    assert(all =~= (crc + s16) + tag + (i8 + c8 + block));
    assert(all =~= (crc + s16 + tag) + i8 + (c8 + block));
    assert(all =~= (crc + s16 + tag + i8) + c8 + block);
    assert(all =~= (crc + s16 + tag + i8 + c8) + block + none);
    let seq64 = sequence as u64;
    let id64 = id as u64;
    let count64 = count as u64;
    assert(seq64 & low_mask(16) == seq64) by (bit_vector)
        requires
            seq64 <= 0xffff,
    ;
    assert(id64 & low_mask(8) == id64 && count64 & low_mask(8) == count64) by (bit_vector)
        requires
            id64 <= 0xff,
            count64 <= 0xff,
    ;
    assert(0u64 & low_mask(2) == 0) by (bit_vector);
    lemma_bits_round_trip(crc, sequence as u32, 16, tag + i8 + c8 + block);
    lemma_bits_round_trip(crc + s16, 0, 2, i8 + c8 + block);
    lemma_bits_round_trip(crc + s16 + tag, id as u32, 8, c8 + block);
    lemma_bits_round_trip(crc + s16 + tag + i8, count as u32, 8, block);
    lemma_block_round_trip(crc + s16 + tag + i8 + c8, payload, none);
    lemma_field_value_bound(all, 0, 32);
    vstd::arithmetic::power2::lemma2_to64();
}

/// The fragments of a packet, laid end to end, are the packet.
pub proof fn lemma_fragments_make_the_packet(packet: Seq<u8>)
    requires
        packet.len() > 0,
    ensures
        assembled(
            Seq::new(
                fragment_count(packet.len() as int) as nat,
                |id: int| fragment_payload(packet, id),
            ),
        ) == packet,
{
    lemma_fragments_up_to(packet, fragment_count(packet.len() as int));
    assert(packet.take(packet.len() as int) =~= packet);
}

/// The first `n` fragments of a packet, laid end to end, are the packet up
/// to where fragment `n` starts.
proof fn lemma_fragments_up_to(packet: Seq<u8>, n: int)
    requires
        0 <= n <= fragment_count(packet.len() as int),
    ensures
        assembled(Seq::new(n as nat, |id: int| fragment_payload(packet, id))) == packet.take(
            if n * MAX_FRAGMENT_SIZE <= packet.len() {
                n * MAX_FRAGMENT_SIZE
            } else {
                packet.len() as int
            },
        ),
    decreases n,
{
    let pieces = Seq::new(n as nat, |id: int| fragment_payload(packet, id));
    if n == 0 {
        assert(packet.take(0) =~= Seq::<u8>::empty());
    } else {
        lemma_fragments_up_to(packet, n - 1);
        assert(pieces.drop_last() =~= Seq::new(
            (n - 1) as nat,
            |id: int| fragment_payload(packet, id),
        ));
        let start = (n - 1) * MAX_FRAGMENT_SIZE;
        let end = if n * MAX_FRAGMENT_SIZE <= packet.len() {
            n * MAX_FRAGMENT_SIZE
        } else {
            packet.len() as int
        };
        assert(start < packet.len());
        assert(pieces.last() == packet.subrange(start, end));
        assert(packet.take(start) + packet.subrange(start, end) =~= packet.take(end));
    }
}

/// The fragments that a packet is cut into, by id.
pub open spec fn fragments_of(packet: Seq<u8>) -> Seq<Seq<u8>> {
    Seq::new(fragment_count(packet.len() as int) as nat, |id: int| fragment_payload(packet, id))
}

/// Fragmentation round trip: a packet is cut into fragments; the datagram
/// of each brings the receiver that fragment; and once all have been taken
/// in, each once and in whatever order, by a buffer whose slot for the
/// packet was free and whose window admits it, the slot is whole and hands
/// out the packet as it was.
pub proof fn lemma_fragmentation_round_trip(
    view: PacketBufferView,
    sequence: u16,
    packet: Seq<u8>,
    order: Seq<int>,
)
    requires
        view_wf(view),
        view.slots[slot_of(sequence)].is_none(),
        -(PACKET_BUFFER_SIZE as int) < sequence_ahead(sequence, view.current) <= 1024,
        0 < packet.len() <= MAX_SPLIT_SIZE,
        order.len() == fragment_count(packet.len() as int),
        order.no_duplicates(),
        forall|k: int| 0 <= k < order.len() ==> 0 <= #[trigger] order[k] < order.len(),
        forall|j: int| 0 <= j < order.len() ==> order.contains(j),
    ensures
        forall|id: int|
            0 <= id < fragment_count(packet.len() as int) ==> arrival(
                #[trigger] fragment_datagram(
                    sequence,
                    id as u8,
                    fragment_count(packet.len() as int) as u8,
                    fragments_of(packet)[id],
                ),
            ) == Some(
                Arrival {
                    payload: fragments_of(packet)[id],
                    sequence,
                    fragment_id: id,
                    count: fragment_count(packet.len() as int),
                },
            ),
        complete(fed(view, sequence, fragments_of(packet), order).slots[slot_of(sequence)]),
        assembled(
            fed(view, sequence, fragments_of(packet), order).slots[slot_of(
                sequence,
            )].unwrap().fragments,
        ) == packet,
{
    let count = fragment_count(packet.len() as int);
    let payloads = fragments_of(packet);
    lemma_fragments_fit(packet);
    assert forall|id: int| 0 <= id < count implies arrival(
        #[trigger] fragment_datagram(sequence, id as u8, count as u8, payloads[id]),
    ) == Some(Arrival { payload: payloads[id], sequence, fragment_id: id, count }) by {
        lemma_fragment_arrives(sequence, id as u8, count as u8, payloads[id]);
    }
    lemma_reassembly_in_any_order(view, sequence, payloads, order);
    lemma_fragments_make_the_packet(packet);
}

/// The fragments of a packet can be the fragments of one packet, as the
/// receiver asks.
proof fn lemma_fragments_fit(packet: Seq<u8>)
    requires
        0 < packet.len() <= MAX_SPLIT_SIZE,
    ensures
        fragments_of_a_packet(fragments_of(packet)),
{
    let count = fragment_count(packet.len() as int);
    let payloads = fragments_of(packet);
    assert(1 <= count <= 255);
    assert forall|j: int| 0 <= j < count implies 0 < (#[trigger] payloads[j]).len()
        <= MAX_FRAGMENT_SIZE && (j < count - 1 ==> payloads[j].len() == MAX_FRAGMENT_SIZE) by {
        assert(j * MAX_FRAGMENT_SIZE < packet.len());
    }
}

/// A fragmented packet is received as it was sent: a packet is cut into
/// fragments, and once a buffer that held nothing, and whose window admits
/// the packet, has taken them all in, each once and in whatever order, what
/// it hands out is that packet, byte for byte, and nothing else; the buffer
/// is empty again.
pub proof fn lemma_fragmented_packet_is_received(
    view: PacketBufferView,
    sequence: u16,
    packet: Seq<u8>,
    order: Seq<int>,
)
    requires
        view_wf(view),
        vacant(view),
        -(PACKET_BUFFER_SIZE as int) < sequence_ahead(sequence, view.current) <= 1024,
        0 < packet.len() <= MAX_SPLIT_SIZE,
        order.len() == fragment_count(packet.len() as int),
        order.no_duplicates(),
        forall|k: int| 0 <= k < order.len() ==> 0 <= #[trigger] order[k] < order.len(),
        forall|j: int| 0 <= j < order.len() ==> order.contains(j),
    ensures
        whole_packets(
            fed(view, sequence, fragments_of(packet), order),
            PACKET_BUFFER_SIZE as int,
        ) == seq![packet],
        vacant(drained(fed(view, sequence, fragments_of(packet), order))),
{
    lemma_fragments_fit(packet);
    lemma_one_packet_is_handed_out(view, sequence, fragments_of(packet), order);
    lemma_fragments_make_the_packet(packet);
}

} // verus!
