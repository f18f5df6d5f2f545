use protocol::constants::ProtocolError;
use protocol::helpers::{calc_packet_crc32, hash_string};
use protocol::packets::object::{Object, Packet};
use protocol::packets::packet_factory::PacketFactory;
use protocol::packets::packet_info::PacketInfo;
use protocol::packets::{
    begin_packet, check_frame, conclude_read, finish_packet, flush_to_bytes, frame_intact,
    packet_type_allowed, read_packet, read_type_tag, seal_frame, write_packet,
};
use protocol::serialization::{serialize_bits_macro, serialize_int_macro, serialize_string_macro};
use protocol::streams::read_stream::ReadStream;
use protocol::streams::write_stream::WriteStream;
use protocol::streams::Stream;

#[derive(Debug, PartialEq, Clone)]
struct Position {
    x: i32,
    y: i32,
    z: i32,
}

impl Position {
    fn serialize<S: Stream>(&mut self, stream: &mut S) -> bool {
        serialize_int_macro(stream, &mut self.x, -1000, 1000)
            && serialize_int_macro(stream, &mut self.y, -1000, 1000)
            && serialize_int_macro(stream, &mut self.z, -1000, 1000)
    }
}

#[derive(Debug, PartialEq, Clone)]
struct Greeting {
    text: String,
}

impl Greeting {
    fn serialize<S: Stream>(&mut self, stream: &mut S) -> bool {
        serialize_string_macro(stream, &mut self.text, 64)
    }
}

#[derive(Debug, PartialEq, Clone)]
enum TestPacket {
    Position(Position),
    Greeting(Greeting),
    Broken,
}

impl Object for TestPacket {
    fn serialize_internal_r(&mut self, stream: &mut ReadStream) -> bool {
        match self {
            TestPacket::Position(p) => p.serialize(stream),
            TestPacket::Greeting(g) => g.serialize(stream),
            TestPacket::Broken => false,
        }
    }

    fn serialize_internal_w(&mut self, stream: &mut WriteStream) -> bool {
        match self {
            TestPacket::Position(p) => p.serialize(stream),
            TestPacket::Greeting(g) => g.serialize(stream),
            TestPacket::Broken => false,
        }
    }
}

impl Packet for TestPacket {
    fn get_packet_type(&self) -> u32 {
        match self {
            TestPacket::Position(_) => 0,
            TestPacket::Greeting(_) => 1,
            TestPacket::Broken => 2,
        }
    }
}

struct TestPacketFactory {
    num_packet_types: u32,
}

impl PacketFactory for TestPacketFactory {
    type Output = TestPacket;

    fn get_num_packet_types(&self) -> u32 {
        self.num_packet_types
    }

    fn get_num_allocated_packets(&self) -> u32 {
        0
    }

    fn create_packet(&self, packet_type: u32) -> Option<TestPacket> {
        match packet_type {
            0 => Some(TestPacket::Position(Position { x: 0, y: 0, z: 0 })),
            1 => Some(TestPacket::Greeting(Greeting { text: String::new() })),
            2 => Some(TestPacket::Broken),
            _ => None,
        }
    }

    fn destroy_packet(&self) {}
}

struct SequenceHeader {
    sequence: u16,
}

impl Object for SequenceHeader {
    fn serialize_internal_r(&mut self, stream: &mut ReadStream) -> bool {
        let mut value: u32 = 0;
        if !serialize_bits_macro(stream, &mut value, 16) {
            return false;
        }
        self.sequence = value as u16;
        true
    }

    fn serialize_internal_w(&mut self, stream: &mut WriteStream) -> bool {
        let mut value: u32 = self.sequence as u32;
        serialize_bits_macro(stream, &mut value, 16)
    }
}

fn info_for(factory: &TestPacketFactory) -> PacketInfo<'_, TestPacketFactory> {
    let mut info = PacketInfo::new(factory);
    info.protocol_id = 0x5566_7788;
    info.allowed_packet_types = vec![0, 1, 2];
    info
}

fn written(info: &PacketInfo<TestPacketFactory>, packet: &mut TestPacket) -> Vec<u8> {
    let mut buffer: Vec<u8> = vec![0; 256];
    let bytes = write_packet(info, packet, &mut buffer, 256, None);
    assert!(bytes > 0);
    assert_eq!(buffer.len(), 256);
    buffer.truncate(bytes as usize);
    buffer
}

#[test]
fn packet_info_defaults() {
    let factory = TestPacketFactory { num_packet_types: 3 };
    let info = PacketInfo::new(&factory);
    assert!(!info.raw_format);
    assert_eq!(info.prefix_bytes, 0);
    assert_eq!(info.protocol_id, 0);
    assert!(info.allowed_packet_types.is_empty());
}

#[test]
fn packet_round_trip() {
    let factory = TestPacketFactory { num_packet_types: 3 };
    let info = info_for(&factory);
    let packets = [
        TestPacket::Position(Position { x: 10, y: -20, z: 1000 }),
        TestPacket::Greeting(Greeting { text: String::from("hello there") }),
    ];
    for packet in packets {
        let mut frame = written(&info, &mut packet.clone());
        let mut error = ProtocolError::StreamOverflow;
        let read = read_packet(&info, &mut frame, None, &mut error);
        assert_eq!(error, ProtocolError::NoError);
        assert_eq!(read, Some(packet));
    }
}

#[test]
fn packet_layout() {
    let factory = TestPacketFactory { num_packet_types: 3 };
    let mut info = info_for(&factory);
    info.prefix_bytes = 2;
    let mut packet = TestPacket::Greeting(Greeting { text: String::from("ok") });
    let frame = written(&info, &mut packet);
    // Prefix, checksum, then: tag 1 in two bits, length 2 in six bits, and
    // the text from the next byte boundary; then the marker.
    assert_eq!(frame.len(), 2 + 4 + 1 + 2 + 4);
    assert_eq!(frame[..2], [0, 0]);
    assert_eq!(frame[6], 0b0000_1001);
    assert_eq!(frame[7..9], [b'o', b'k']);
    let marker = hash_string(&mut String::from("end of packet"));
    assert_eq!(frame[9..], marker.to_le_bytes());
    let mut zeroed = frame[2..].to_vec();
    zeroed[..4].copy_from_slice(&[0, 0, 0, 0]);
    assert_eq!(frame[2..6], calc_packet_crc32(&zeroed, 0x5566_7788).to_le_bytes());
}

#[test]
fn raw_packets_have_no_checksum() {
    let factory = TestPacketFactory { num_packet_types: 3 };
    let mut info = info_for(&factory);
    info.raw_format = true;
    let mut packet = TestPacket::Position(Position { x: 1, y: 2, z: 3 });
    let mut frame = written(&info, &mut packet);
    // Tag (2 bits), three numbers of 11 bits, padding, marker.
    assert_eq!(frame.len(), 5 + 4);
    let mut error = ProtocolError::NoError;
    assert_eq!(read_packet(&info, &mut frame, None, &mut error), Some(packet));
    assert_eq!(error, ProtocolError::NoError);
}

#[test]
fn single_type_factory_writes_no_tag() {
    let factory = TestPacketFactory { num_packet_types: 1 };
    let mut info = info_for(&factory);
    info.raw_format = true;
    let mut packet = TestPacket::Position(Position { x: 0, y: 0, z: 0 });
    let mut frame = written(&info, &mut packet);
    // Three numbers of 11 bits take 33 bits: five bytes, then the marker.
    assert_eq!(frame.len(), 5 + 4);
    let mut error = ProtocolError::NoError;
    assert!(read_packet(&info, &mut frame, None, &mut error).is_some());
}

#[test]
fn header_travels_before_the_packet() {
    let factory = TestPacketFactory { num_packet_types: 3 };
    let info = info_for(&factory);
    let mut packet = TestPacket::Position(Position { x: 5, y: 6, z: 7 });
    let mut header = SequenceHeader { sequence: 0xbeef };
    let mut buffer: Vec<u8> = vec![0; 64];
    let bytes = write_packet(&info, &mut packet, &mut buffer, 64, Some(&mut header));
    assert!(bytes > 0);
    assert_eq!(buffer[4..6], [0xef, 0xbe]);
    buffer.truncate(bytes as usize);
    let mut read_header = SequenceHeader { sequence: 0 };
    let mut error = ProtocolError::NoError;
    let read = read_packet(&info, &mut buffer, Some(&mut read_header), &mut error);
    assert_eq!(read, Some(packet));
    assert_eq!(read_header.sequence, 0xbeef);
}

#[test]
fn write_reports_failure_as_zero() {
    let factory = TestPacketFactory { num_packet_types: 3 };
    let info = info_for(&factory);
    let mut buffer: Vec<u8> = vec![0; 64];
    assert_eq!(write_packet(&info, &mut TestPacket::Broken, &mut buffer, 64, None), 0);
    assert_eq!(buffer.len(), 64);
}

#[test]
fn every_flipped_bit_of_a_frame_is_noticed() {
    let factory = TestPacketFactory { num_packet_types: 3 };
    let info = info_for(&factory);
    let mut packet = TestPacket::Greeting(Greeting { text: String::from("integrity") });
    let frame = written(&info, &mut packet);
    for bit in 0..(8 * frame.len()) {
        let mut damaged = frame.clone();
        damaged[bit / 8] ^= 1 << (bit % 8);
        let mut error = ProtocolError::NoError;
        let read = read_packet(&info, &mut damaged, None, &mut error);
        assert!(read.is_none());
        assert_eq!(error, ProtocolError::SerializeHeaderFailed);
    }
}

#[test]
fn raw_frames_fall_back_on_the_check_marker() {
    let factory = TestPacketFactory { num_packet_types: 3 };
    let mut info = info_for(&factory);
    info.raw_format = true;
    let mut packet = TestPacket::Position(Position { x: 1, y: 2, z: 3 });
    let frame = written(&info, &mut packet);
    let mut damaged = frame.clone();
    let last = damaged.len() - 1;
    damaged[last] ^= 0x10;
    let mut error = ProtocolError::NoError;
    assert!(read_packet(&info, &mut damaged, None, &mut error).is_none());
    assert_eq!(error, ProtocolError::SerializeCheckFailed);
}

#[test]
fn read_errors() {
    let factory = TestPacketFactory { num_packet_types: 3 };
    let info = info_for(&factory);
    let mut error = ProtocolError::NoError;

    // Shorter than the checksum slot.
    let mut short: Vec<u8> = vec![1, 2, 3];
    assert!(read_packet(&info, &mut short, None, &mut error).is_none());
    assert_eq!(error, ProtocolError::StreamOverflow);

    // A type that is not allowed.
    let mut narrow = info_for(&factory);
    narrow.allowed_packet_types = vec![0];
    let mut frame = written(&info, &mut TestPacket::Greeting(Greeting { text: String::new() }));
    assert!(read_packet(&narrow, &mut frame, None, &mut error).is_none());
    assert_eq!(error, ProtocolError::PacketTypeNotAllowed);

    // A type that the factory does not make: tag 3 is within the tag's
    // range, which includes the number of types itself.
    let mut raw = info_for(&factory);
    raw.raw_format = true;
    raw.allowed_packet_types = vec![0, 1, 2, 3];
    let mut unknown: Vec<u8> = vec![0b0000_0011, 0, 0, 0, 0, 0, 0, 0];
    assert!(read_packet(&raw, &mut unknown, None, &mut error).is_none());
    assert_eq!(error, ProtocolError::CreatePacketFailed);

    // A tag above the number of types.
    let wide = TestPacketFactory { num_packet_types: 4 };
    let mut wide_info = info_for(&wide);
    wide_info.raw_format = true;
    let mut above: Vec<u8> = vec![0b0000_0111, 0, 0, 0, 0, 0, 0, 0];
    assert!(read_packet(&wide_info, &mut above, None, &mut error).is_none());
    assert_eq!(error, ProtocolError::InvalidPacketType);

    // A packet that fails to read itself.
    let mut broken: Vec<u8> = vec![0b0000_0010, 0, 0, 0, 0, 0, 0, 0];
    assert!(read_packet(&raw, &mut broken, None, &mut error).is_none());
    assert_eq!(error, ProtocolError::SerializePacketFailed);

    // A header that cannot be read.
    let mut tiny: Vec<u8> = vec![9];
    let mut header = SequenceHeader { sequence: 0 };
    assert!(read_packet(&raw, &mut tiny, Some(&mut header), &mut error).is_none());
    assert_eq!(error, ProtocolError::SerializeHeaderFailed);

    // A missing check marker.
    let mut unmarked: Vec<u8> = vec![0; 12];
    assert!(read_packet(&raw, &mut unmarked, None, &mut error).is_none());
    assert_eq!(error, ProtocolError::SerializeCheckFailed);

    // An error from before is cleared by a good read.
    let mut good = written(&info, &mut TestPacket::Position(Position { x: 0, y: 0, z: 0 }));
    assert!(read_packet(&info, &mut good, None, &mut error).is_some());
    assert_eq!(error, ProtocolError::NoError);
}

#[test]
fn check_frame_verdicts() {
    let factory = TestPacketFactory { num_packet_types: 3 };
    let info = info_for(&factory);
    let frame = written(&info, &mut TestPacket::Position(Position { x: 3, y: 2, z: 1 }));
    assert_eq!(check_frame(&frame, 0, false, 0x5566_7788), ProtocolError::NoError);
    assert_eq!(check_frame(&frame, 0, false, 0x5566_7789), ProtocolError::SerializeHeaderFailed);
    assert_eq!(check_frame(&frame, 1, false, 0x5566_7788), ProtocolError::SerializeHeaderFailed);
    assert_eq!(check_frame(&frame, 0, true, 0), ProtocolError::NoError);
    assert_eq!(check_frame(&vec![0; 3], 0, false, 0), ProtocolError::StreamOverflow);
    assert_eq!(check_frame(&vec![0; 3], 4, true, 0), ProtocolError::StreamOverflow);
    assert_eq!(check_frame(&vec![0; 3], 3, true, 0), ProtocolError::NoError);
}

#[test]
fn allowed_types() {
    assert!(packet_type_allowed(&vec![4, 7, 9], 7));
    assert!(!packet_type_allowed(&vec![4, 7, 9], 8));
    assert!(!packet_type_allowed(&vec![], 0));
}

#[test]
fn a_packet_built_by_hand() {
    let mut stream = begin_packet(vec![0xee; 32], 3, false);
    assert_eq!(stream.get_bits_processed(), 8 * 3 + 32);
    let mut value: u32 = 0x2a;
    serialize_bits_macro(&mut stream, &mut value, 7);
    let (buffer, size) = finish_packet(stream, 3, false, 0xabcd);
    // Prefix, checksum, one byte of payload, marker.
    assert_eq!(size, 3 + 4 + 1 + 4);
    assert_eq!(buffer.len(), 32);
    assert_eq!(buffer[..3], [0, 0, 0]);
    assert_eq!(buffer[7], 0x2a);
    let marker = hash_string(&mut String::from("end of packet"));
    assert_eq!(buffer[8..12], marker.to_le_bytes());
    assert_eq!(buffer[12..], [0xee; 20]);
    assert!(frame_intact(&buffer, 3, size as usize, 0xabcd));
    assert!(!frame_intact(&buffer, 3, size as usize, 0xabce));
    assert!(!frame_intact(&buffer, 3, size as usize - 1, 0xabcd));
    assert!(!frame_intact(&buffer, 3, 6, 0xabcd));
    assert_eq!(check_frame(&buffer[..size as usize].to_vec(), 3, false, 0xabcd), ProtocolError::NoError);
}

#[test]
fn flushing_to_bytes_and_sealing() {
    let mut stream = WriteStream::new(vec![0x55; 12], 12);
    let mut value: u32 = 0x0605_0403;
    serialize_bits_macro(&mut stream, &mut value, 32);
    let mut last: u32 = 7;
    serialize_bits_macro(&mut stream, &mut last, 8);
    let (mut buffer, size) = flush_to_bytes(stream);
    assert_eq!(size, 5);
    assert_eq!(buffer, vec![3, 4, 5, 6, 7, 0, 0, 0, 0x55, 0x55, 0x55, 0x55]);
    seal_frame(&mut buffer, 0, 5, 9);
    assert_eq!(buffer[..4], calc_packet_crc32(&vec![0, 0, 0, 0, 7], 9).to_le_bytes());
    assert_eq!(buffer[4..], [7, 0, 0, 0, 0x55, 0x55, 0x55, 0x55]);
    assert!(frame_intact(&buffer, 0, 5, 9));
}

#[test]
fn type_tag_reading() {
    // With three types the tag takes two bits and may be 0 to 3.
    let mut buffer: Vec<u8> = vec![0b0000_1110, 0, 0, 0];
    let mut stream = ReadStream::new(&mut buffer, 1);
    assert_eq!(read_type_tag(&mut stream, 3, &vec![0, 1, 2]), Ok(2));
    assert_eq!(stream.get_bits_processed(), 2);
    assert_eq!(read_type_tag(&mut stream, 3, &vec![0, 1, 2]), Err(ProtocolError::PacketTypeNotAllowed));
    assert_eq!(stream.get_bits_processed(), 4);
    assert_eq!(read_type_tag(&mut stream, 3, &vec![]), Err(ProtocolError::PacketTypeNotAllowed));
    // With four types the tag takes three bits; 7 exceeds the number.
    let mut buffer: Vec<u8> = vec![0b0010_0111, 0, 0, 0];
    let mut stream = ReadStream::new(&mut buffer, 1);
    assert_eq!(read_type_tag(&mut stream, 4, &vec![7]), Err(ProtocolError::InvalidPacketType));
    assert_eq!(read_type_tag(&mut stream, 4, &vec![4]), Ok(4));
    // A stream that ends before the tag.
    assert_eq!(read_type_tag(&mut stream, 4, &vec![0]), Err(ProtocolError::InvalidPacketType));
    assert_eq!(stream.get_error(), ProtocolError::StreamOverflow);
    // A single type is not written: nothing is read.
    let mut stream = ReadStream::new(&mut buffer, 1);
    assert_eq!(read_type_tag(&mut stream, 1, &vec![0]), Ok(0));
    assert_eq!(read_type_tag(&mut stream, 1, &vec![1]), Err(ProtocolError::PacketTypeNotAllowed));
    assert_eq!(stream.get_bits_processed(), 0);
}

#[test]
fn concluding_a_read() {
    let marker = hash_string(&mut String::from("end of packet"));
    let mut buffer: Vec<u8> = vec![0x01, 0, 0, 0, 0, 0, 0, 0];
    buffer[1..5].copy_from_slice(&marker.to_le_bytes());

    let mut stream = ReadStream::new(&mut buffer, 5);
    let mut bit: u32 = 0;
    serialize_bits_macro(&mut stream, &mut bit, 1);
    assert_eq!(conclude_read(&mut stream, false), ProtocolError::SerializePacketFailed);
    assert_eq!(stream.get_bits_processed(), 1);
    assert_eq!(conclude_read(&mut stream, true), ProtocolError::NoError);
    assert_eq!(stream.get_bits_processed(), 40);
    // Nothing is left to hold a marker.
    assert_eq!(conclude_read(&mut stream, true), ProtocolError::SerializeCheckFailed);

    // The marker is not where the packet's read ended.
    let mut stream = ReadStream::new(&mut buffer, 8);
    serialize_bits_macro(&mut stream, &mut bit, 9);
    assert_eq!(conclude_read(&mut stream, true), ProtocolError::SerializeCheckFailed);

    // A latched overflow is handed on.
    let mut stream = ReadStream::new(&mut buffer, 5);
    let mut block: Vec<u8> = vec![0; 6];
    assert!(!stream.serialize_bytes(&mut block, 6));
    assert_eq!(stream.get_bits_processed(), 0);
    serialize_bits_macro(&mut stream, &mut bit, 1);
    assert_eq!(conclude_read(&mut stream, true), ProtocolError::StreamOverflow);
    assert_eq!(stream.get_bits_processed(), 40);
}

#[test]
fn a_packet_without_its_marker_is_not_returned() {
    let factory = TestPacketFactory { num_packet_types: 3 };
    let mut info = info_for(&factory);
    info.raw_format = true;
    let mut packet = TestPacket::Position(Position { x: 1, y: 2, z: 3 });
    let frame = written(&info, &mut packet);
    for cut in 1..=4 {
        let mut short = frame[..frame.len() - cut].to_vec();
        let mut error = ProtocolError::NoError;
        assert!(read_packet(&info, &mut short, None, &mut error).is_none());
        assert_eq!(error, ProtocolError::SerializeCheckFailed);
    }
}
