use std::collections::hash_map::DefaultHasher;
use std::hash::{Hash, Hasher};

use protocol::constants::ProtocolError;
use protocol::helpers::{calc_packet_crc32, get_error_string, hash_string, to_bytes};

#[test]
fn error_strings() {
    assert_eq!(get_error_string(ProtocolError::NoError), "No error");
    assert_eq!(get_error_string(ProtocolError::StreamOverflow), "Stream overflow");
    assert_eq!(get_error_string(ProtocolError::SerializeHeaderFailed), "Failed to serialize header");
    assert_eq!(get_error_string(ProtocolError::InvalidPacketType), "Invalid packet type");
    assert_eq!(get_error_string(ProtocolError::PacketTypeNotAllowed), "Packet type not allowed");
    assert_eq!(get_error_string(ProtocolError::CreatePacketFailed), "Failed to create packet");
    assert_eq!(get_error_string(ProtocolError::SerializePacketFailed), "Serialize packet failed");
    assert_eq!(get_error_string(ProtocolError::SerializeCheckFailed), "Serialize check failed");
}

#[test]
fn to_bytes_is_big_endian() {
    assert_eq!(to_bytes(&[]), Vec::<u8>::new());
    assert_eq!(to_bytes(&[0x0102_0304]), vec![1, 2, 3, 4]);
    assert_eq!(
        to_bytes(&[0xdead_beef, 0, 0x0000_00ff]),
        vec![0xde, 0xad, 0xbe, 0xef, 0, 0, 0, 0, 0, 0, 0, 0xff]
    );
}

#[test]
fn hash_string_is_the_low_half_of_the_default_hash() {
    for text in ["", "end of packet", "test object serialize check", "héllo"] {
        let mut input = String::from(text);
        let mut hasher = DefaultHasher::new();
        input.hash(&mut hasher);
        let expected = hasher.finish() as u32;
        assert_eq!(hash_string(&mut input), expected);
        assert_eq!(input, text);
    }
}

#[test]
fn hash_string_tells_markers_apart() {
    let a = hash_string(&mut String::from("end of packet"));
    let b = hash_string(&mut String::from("end of packet"));
    let c = hash_string(&mut String::from("end of packer"));
    assert_eq!(a, b);
    assert_ne!(a, c);
}

#[test]
fn packet_crc_is_the_crc32_of_id_and_buffer() {
    // The CRC-32 of the ASCII digits 1 to 9 is the algorithm's check value.
    let buffer: Vec<u8> = b"56789".to_vec();
    assert_eq!(calc_packet_crc32(&buffer, 0x3433_3231), 0xcbf4_3926);
    assert_eq!(calc_packet_crc32(&Vec::new(), 0x3433_3231), crc32fast::hash(b"1234"));
    assert_ne!(calc_packet_crc32(&buffer, 0x3433_3232), 0xcbf4_3926);
}
