use protocol::constants::{
    MAX_FRAGMENTS_PER_PACKET, MAX_FRAGMENT_SIZE, MAX_PACKET_FRAGMENT_SIZE, PACKET_BUFFER_SIZE,
    PROTOCOL_ID,
};
use protocol::helpers::calc_packet_crc32;
use protocol::packets::fragment_packet::FragmentPacket;
use protocol::packets::fragmentation::split_packet_into_fragments;
use protocol::packets::object::Packet;
use protocol::packets::packet_buffer::{sequence_difference, sequence_in_window, PacketBuffer};
use protocol::packets::packet_data::PacketData;
use protocol::streams::read_stream::ReadStream;
use protocol::streams::write_stream::WriteStream;
use protocol::streams::Stream;

fn packet_of(size: usize) -> Vec<u8> {
    (0..size).map(|i| ((i * 31 + i / 7) % 251) as u8).collect()
}

fn split(sequence: u16, packet: &Vec<u8>) -> Vec<PacketData> {
    let mut data = packet.clone();
    let mut count: u32 = 0;
    let mut fragments: Vec<PacketData> = Vec::new();
    for _ in 0..MAX_FRAGMENTS_PER_PACKET {
        fragments.push(PacketData::new());
    }
    assert!(split_packet_into_fragments(
        sequence,
        &mut data,
        packet.len() as u32,
        &mut count,
        &mut fragments
    ));
    assert_eq!(&data, packet);
    fragments.truncate(count as usize);
    fragments
}

#[test]
fn packet_data_is_a_zeroed_datagram_buffer() {
    let data = PacketData::new();
    assert_eq!(data.size, 0);
    assert_eq!(data.data, vec![0u8; MAX_PACKET_FRAGMENT_SIZE]);
}

#[test]
fn fragment_packet_defaults() {
    let packet = FragmentPacket::new();
    assert_eq!(packet.fragment_size, 0);
    assert_eq!(packet.crc32, 0);
    assert_eq!(packet.sequence, 0);
    assert_eq!(packet.packet_type, 0);
    assert_eq!(packet.fragment_id, 0);
    assert_eq!(packet.num_fragments, 0);
    assert_eq!(packet.fragment_data, vec![0u8; MAX_PACKET_FRAGMENT_SIZE]);
    assert_eq!(packet.get_packet_type(), 0);
}

#[test]
fn fragment_envelope_layout() {
    let mut packet = FragmentPacket::new();
    packet.fragment_size = 3;
    packet.crc32 = 0x0403_0201;
    packet.sequence = 0x0605;
    packet.fragment_id = 0x21;
    packet.num_fragments = 0x43;
    packet.fragment_data[..3].copy_from_slice(&[0xaa, 0xbb, 0xcc]);
    let mut stream = WriteStream::new(vec![0; 16], 16);
    assert!(packet.serialize(&mut stream));
    assert_eq!(stream.get_bits_processed(), 96);
    stream.flush();
    let mut buffer = stream.into_buffer();
    // After checksum and sequence come two tag bits, both zero, then id and
    // count, each shifted up by those two bits, then padding to the byte.
    assert_eq!(
        buffer[..12],
        [1, 2, 3, 4, 5, 6, 0x21 << 2, 0x43 << 2 | 0x21 >> 6, 0x43 >> 6, 0xaa, 0xbb, 0xcc]
    );

    let mut read = FragmentPacket::new();
    let mut stream = ReadStream::new(&mut buffer, 12);
    assert!(read.serialize(&mut stream));
    assert_eq!(read.crc32, 0x0403_0201);
    assert_eq!(read.sequence, 0x0605);
    assert_eq!(read.packet_type, 0);
    assert_eq!(read.fragment_id, 0x21);
    assert_eq!(read.num_fragments, 0x43);
    assert_eq!(read.fragment_size, 3);
    assert_eq!(read.fragment_data[..3], [0xaa, 0xbb, 0xcc]);
}

#[test]
fn fragment_read_failures() {
    // Nothing behind the header.
    let mut buffer = vec![0u8; 12];
    let mut read = FragmentPacket::new();
    let mut stream = ReadStream::new(&mut buffer, 9);
    assert!(!read.serialize(&mut stream));
    // More than the largest fragment behind the header.
    let mut buffer = vec![0u8; 1040];
    let mut stream = ReadStream::new(&mut buffer, 9 + MAX_FRAGMENT_SIZE + 1);
    assert!(!read.serialize(&mut stream));
    // Too short for the header.
    let mut buffer = vec![0u8; 8];
    let mut stream = ReadStream::new(&mut buffer, 5);
    assert!(!read.serialize(&mut stream));
    // Dirty padding behind the header.
    let mut buffer = vec![0u8; 12];
    buffer[8] = 0x80;
    let mut stream = ReadStream::new(&mut buffer, 12);
    assert!(!read.serialize(&mut stream));
    // A tag other than 0 ends the read behind the tag.
    let mut buffer = vec![0u8; 8];
    buffer[4] = 0x34;
    buffer[5] = 0x12;
    buffer[6] = 0b10;
    let mut stream = ReadStream::new(&mut buffer, 8);
    assert!(read.serialize(&mut stream));
    assert_eq!(read.packet_type, 2);
    assert_eq!(read.sequence, 0x1234);
    assert_eq!(stream.get_bits_processed(), 50);
}

#[test]
fn split_sizes_of_a_3000_byte_packet() {
    let fragments = split(7, &packet_of(3000));
    assert_eq!(fragments.len(), 3);
    assert_eq!(fragments[0].size, 9 + 1024);
    assert_eq!(fragments[1].size, 9 + 1024);
    assert_eq!(fragments[2].size, 9 + 952);
    for (id, fragment) in fragments.iter().enumerate() {
        assert_eq!(fragment.data.len(), MAX_PACKET_FRAGMENT_SIZE);
        let mut datagram = fragment.data.clone();
        let mut read = FragmentPacket::new();
        let mut stream = ReadStream::new(&mut datagram, fragment.size as usize);
        assert!(read.serialize(&mut stream));
        assert_eq!(read.sequence, 7);
        assert_eq!(read.fragment_id as usize, id);
        assert_eq!(read.num_fragments, 3);
        // The checksum covers the protocol id and the datagram with its
        // checksum slot zeroed.
        let mut zeroed = fragment.data[..fragment.size as usize].to_vec();
        zeroed[..4].copy_from_slice(&[0; 4]);
        assert_eq!(read.crc32, calc_packet_crc32(&zeroed, PROTOCOL_ID));
    }
}

#[test]
fn split_of_whole_multiples_and_small_packets() {
    assert_eq!(split(0, &packet_of(1)).len(), 1);
    assert_eq!(split(0, &packet_of(1)).first().unwrap().size, 10);
    assert_eq!(split(0, &packet_of(1024)).len(), 1);
    let two = split(0, &packet_of(2048));
    assert_eq!(two.len(), 2);
    assert_eq!(two[1].size, 9 + 1024);
    assert_eq!(split(0, &packet_of(2049)).len(), 3);
    assert_eq!(split(0, &packet_of(255 * 1024)).len(), 255);
}

fn reassembled(order: &[usize]) -> Vec<PacketData> {
    let packet = packet_of(3000);
    let mut fragments = split(300, &packet);
    let mut buffer = PacketBuffer::new();
    for (n, id) in order.iter().enumerate() {
        assert!(buffer.receive_packets().is_empty());
        let size = fragments[*id].size;
        assert!(buffer.process_packet(&mut fragments[*id].data, size));
        assert_eq!(buffer.get_num_buffered_fragments() as usize, n + 1);
    }
    assert_eq!(buffer.get_current_sequence(), 300);
    let packets = buffer.receive_packets();
    assert_eq!(buffer.get_num_buffered_fragments(), 0);
    assert!(buffer.receive_packets().is_empty());
    packets
}

#[test]
fn fragmentation_round_trip_in_any_order() {
    let packet = packet_of(3000);
    let orders: [[usize; 3]; 6] =
        [[0, 1, 2], [0, 2, 1], [1, 0, 2], [1, 2, 0], [2, 0, 1], [2, 1, 0]];
    for order in orders {
        let packets = reassembled(&order);
        assert_eq!(packets.len(), 1);
        assert_eq!(packets[0].size, 3000);
        assert_eq!(packets[0].data, packet);
    }
}

#[test]
fn duplicate_and_damaged_datagrams_are_dropped() {
    let packet = packet_of(3000);
    let mut fragments = split(1, &packet);
    let mut buffer = PacketBuffer::new();
    let size = fragments[1].size;
    assert!(buffer.process_packet(&mut fragments[1].data, size));
    assert!(!buffer.process_packet(&mut fragments[1].data, size));
    assert_eq!(buffer.get_num_buffered_fragments(), 1);
    // One flipped payload bit fails the checksum.
    let mut damaged = fragments[0].data.clone();
    damaged[500] ^= 0x04;
    assert!(!buffer.process_packet(&mut damaged, fragments[0].size));
    // So does a flipped bit of the checksum.
    let mut damaged = fragments[0].data.clone();
    damaged[2] ^= 0x80;
    assert!(!buffer.process_packet(&mut damaged, fragments[0].size));
    // And a datagram cut short.
    let mut cut = fragments[0].data.clone();
    assert!(!buffer.process_packet(&mut cut, fragments[0].size - 4));
    assert_eq!(buffer.get_num_buffered_fragments(), 1);
    assert!(buffer.receive_packets().is_empty());
}

#[test]
fn malicious_fragments_are_refused_and_change_nothing() {
    let mut buffer = PacketBuffer::new();
    let mut full: Vec<u8> = vec![7; MAX_FRAGMENT_SIZE];
    assert!(buffer.process_fragment(&mut full, 1024, 5, 0, 3));
    assert_eq!(buffer.get_num_buffered_fragments(), 1);
    assert_eq!(buffer.get_current_sequence(), 5);

    // An id at or above the number of fragments.
    assert!(!buffer.process_fragment(&mut full, 1024, 5, 3, 3));
    assert!(!buffer.process_fragment(&mut full, 1024, 6, 9, 2));
    // A fragment that is not the last and is not of full size.
    assert!(!buffer.process_fragment(&mut full, 1000, 5, 1, 3));
    assert!(!buffer.process_fragment(&mut full, 1, 6, 0, 2));
    // A size of zero or above the largest.
    assert!(!buffer.process_fragment(&mut full, 0, 5, 2, 3));
    let mut large: Vec<u8> = vec![7; MAX_FRAGMENT_SIZE + 1];
    assert!(!buffer.process_fragment(&mut large, 1025, 5, 2, 3));
    // A number of fragments of zero or above the largest.
    assert!(!buffer.process_fragment(&mut full, 1024, 6, 0, 0));
    assert!(!buffer.process_fragment(&mut full, 1024, 6, 0, 257));
    // Another number of fragments than the packet has.
    assert!(!buffer.process_fragment(&mut full, 1024, 5, 1, 4));
    // A sequence number too far ahead, or behind the window.
    assert!(!buffer.process_fragment(&mut full, 1024, 5 + 1025, 0, 1));
    assert!(!buffer.process_fragment(&mut full, 1024, 5u16.wrapping_sub(256), 0, 1));
    // A slot taken by another packet.
    assert!(!buffer.process_fragment(&mut full, 1024, 5 + 256, 0, 1));

    assert_eq!(buffer.get_num_buffered_fragments(), 1);
    assert_eq!(buffer.get_current_sequence(), 5);
    assert!(buffer.receive_packets().is_empty());

    // The packet can still be completed, and is what was sent.
    assert!(buffer.process_fragment(&mut full, 1024, 5, 1, 3));
    let mut last: Vec<u8> = vec![9; 10];
    assert!(buffer.process_fragment(&mut last, 10, 5, 2, 3));
    let packets = buffer.receive_packets();
    assert_eq!(packets.len(), 1);
    assert_eq!(packets[0].size, 2058);
    assert_eq!(packets[0].data[..2048], vec![7u8; 2048][..]);
    assert_eq!(packets[0].data[2048..], [9u8; 10]);
}

#[test]
fn fragments_within_the_window_are_taken() {
    let mut buffer = PacketBuffer::new();
    let mut one: Vec<u8> = vec![1; 4];
    assert!(buffer.process_fragment(&mut one, 4, 1024, 0, 1));
    assert_eq!(buffer.get_current_sequence(), 1024);
    // The oldest sequence number of the window, and one within.
    assert!(buffer.process_fragment(&mut one, 4, 1024 - 255, 0, 1));
    assert!(buffer.process_fragment(&mut one, 4, 1000, 1, 2));
    assert_eq!(buffer.get_current_sequence(), 1024);
    assert_eq!(buffer.get_num_buffered_fragments(), 3);
    // Whole packets come out oldest first; the unfinished one stays.
    let packets = buffer.receive_packets();
    assert_eq!(packets.len(), 2);
    assert_eq!(buffer.get_num_buffered_fragments(), 1);
}

#[test]
fn whole_packets_come_out_oldest_first() {
    let mut buffer = PacketBuffer::new();
    for (sequence, fill) in [(40u16, 4u8), (38, 3), (41, 5), (39, 9)] {
        let mut data: Vec<u8> = vec![fill; fill as usize];
        assert!(buffer.process_fragment(&mut data, fill as u32, sequence, 0, 1));
    }
    let packets = buffer.receive_packets();
    let sizes: Vec<u32> = packets.iter().map(|p| p.size).collect();
    assert_eq!(sizes, vec![3, 9, 4, 5]);
    assert_eq!(packets[1].data, vec![9u8; 9]);
}

#[test]
fn window_eviction() {
    let mut buffer = PacketBuffer::new();
    let mut full: Vec<u8> = vec![1; MAX_FRAGMENT_SIZE];
    for sequence in 0..10u16 {
        assert!(buffer.process_fragment(&mut full, 1024, sequence, 0, 2));
    }
    assert_eq!(buffer.get_num_buffered_fragments(), 10);
    assert_eq!(buffer.get_current_sequence(), 9);

    // Moving back, or not at all, changes nothing.
    buffer.advance(9);
    buffer.advance(3);
    assert_eq!(buffer.get_num_buffered_fragments(), 10);
    assert_eq!(buffer.get_current_sequence(), 9);

    // Moving on by less than the window keeps what is still inside.
    buffer.advance(9 + 250);
    assert_eq!(buffer.get_current_sequence(), 259);
    assert_eq!(buffer.get_num_buffered_fragments(), 6);

    // Moving on by more than the window leaves nothing.
    buffer.advance(259 + PACKET_BUFFER_SIZE as u16 + 1);
    assert_eq!(buffer.get_num_buffered_fragments(), 0);
    assert!(buffer.receive_packets().is_empty());
    // The slots are free again.
    assert!(buffer.process_fragment(&mut full, 1024, 516, 1, 2));
    assert_eq!(buffer.get_num_buffered_fragments(), 1);
}

#[test]
fn a_new_packet_moves_the_window_and_evicts() {
    let mut buffer = PacketBuffer::new();
    let mut data: Vec<u8> = vec![1; 8];
    assert!(buffer.process_fragment(&mut data, 8, 10, 1, 2));
    assert!(buffer.process_fragment(&mut data, 8, 400, 1, 2));
    assert_eq!(buffer.get_current_sequence(), 400);
    assert_eq!(buffer.get_num_buffered_fragments(), 1);
}

#[test]
fn sequence_numbers_wrap() {
    assert_eq!(sequence_difference(5, 3), 2);
    assert_eq!(sequence_difference(3, 5), -2);
    assert_eq!(sequence_difference(2, 65534), 4);
    assert_eq!(sequence_difference(65534, 2), -4);
    assert_eq!(sequence_difference(32768, 0), 32768);
    assert_eq!(sequence_difference(0, 32768), 32768);
    assert_eq!(sequence_difference(0, 32769), 32767);
    assert_eq!(sequence_difference(32769, 0), -32767);
    assert!(sequence_in_window(10, 10));
    assert!(sequence_in_window(65535, 10));
    assert!(sequence_in_window(10u16.wrapping_sub(255), 10));
    assert!(!sequence_in_window(10u16.wrapping_sub(256), 10));
    assert!(!sequence_in_window(11, 10));

    let mut buffer = PacketBuffer::new();
    let mut data: Vec<u8> = vec![1; 8];
    buffer.advance(65530);
    assert!(buffer.process_fragment(&mut data, 8, 65535, 0, 1));
    assert!(buffer.process_fragment(&mut data, 8, 2, 0, 1));
    assert_eq!(buffer.get_current_sequence(), 2);
    assert_eq!(buffer.receive_packets().len(), 2);
}

#[test]
fn whole_packets_travel_as_their_own_only_fragment() {
    // A datagram whose tag is not 0: checksum, sequence 77, tag 1.
    let mut datagram: Vec<u8> = vec![0, 0, 0, 0, 77, 0, 0b01, 0xaa, 0xbb, 0, 0, 0];
    let sum = calc_packet_crc32(&datagram[..9].to_vec(), PROTOCOL_ID);
    datagram[..4].copy_from_slice(&sum.to_le_bytes());
    let mut buffer = PacketBuffer::new();
    assert!(buffer.process_packet(&mut datagram, 9));
    let packets = buffer.receive_packets();
    assert_eq!(packets.len(), 1);
    assert_eq!(packets[0].data, datagram[..9].to_vec());
}

#[test]
fn slots_in_use() {
    let mut buffer = PacketBuffer::new();
    for index in 0..PACKET_BUFFER_SIZE {
        assert!(!buffer.slot_in_use(index));
    }
    let mut data: Vec<u8> = vec![1; 8];
    assert!(buffer.process_fragment(&mut data, 8, 261, 1, 2));
    assert!(buffer.slot_in_use(5));
    assert!(!buffer.slot_in_use(4));
    buffer.advance(261 + 256);
    assert!(!buffer.slot_in_use(5));
}

#[test]
fn a_fragment_larger_than_its_data_is_refused() {
    let mut buffer = PacketBuffer::new();
    let mut data: Vec<u8> = vec![1; 8];
    assert!(!buffer.process_fragment(&mut data, 9, 3, 0, 1));
    assert_eq!(buffer.get_num_buffered_fragments(), 0);
    assert!(!buffer.slot_in_use(3));
    assert!(buffer.process_fragment(&mut data, 8, 3, 0, 1));
}
