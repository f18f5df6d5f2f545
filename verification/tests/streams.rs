use protocol::constants::ProtocolError;
use protocol::helpers::hash_string;
use protocol::streams::bits_required_for;
use protocol::streams::read_stream::ReadStream;
use protocol::streams::write_stream::WriteStream;
use protocol::streams::Stream;

#[test]
fn bits_required_values() {
    assert_eq!(bits_required_for(5, 5), 0);
    assert_eq!(bits_required_for(0, 1), 1);
    assert_eq!(bits_required_for(0, 2), 2);
    assert_eq!(bits_required_for(0, 3), 2);
    assert_eq!(bits_required_for(0, 4), 3);
    assert_eq!(bits_required_for(2, 5), 2);
    assert_eq!(bits_required_for(6, 13), 3);
    assert_eq!(bits_required_for(14, 29), 4);
    assert_eq!(bits_required_for(30, 61), 5);
    assert_eq!(bits_required_for(62, 125), 6);
    assert_eq!(bits_required_for(126, 1025), 10);
    assert_eq!(bits_required_for(-10, 10), 5);
    assert_eq!(bits_required_for(-100, 10000), 14);
    assert_eq!(bits_required_for(0, i32::MAX), 31);
    assert_eq!(bits_required_for(i32::MIN, i32::MAX), 32);
}

#[test]
fn directions() {
    let writer = WriteStream::new(vec![0; 4], 4);
    assert!(writer.is_writing());
    assert!(!writer.is_reading());
    assert_eq!(writer.get_error(), ProtocolError::NoError);
    assert_eq!(writer.get_bits_remaining(), 32);
    let mut buffer = vec![0u8; 4];
    let reader = ReadStream::new(&mut buffer, 4);
    assert!(reader.is_reading());
    assert!(!reader.is_writing());
    assert_eq!(reader.get_error(), ProtocolError::NoError);
    assert_eq!(reader.get_bits_remaining(), 32);
}

#[test]
fn int_round_trip_over_ranges() {
    let ranges: [(i32, i32); 6] =
        [(0, 1), (-10, 10), (-100, 10000), (0, i32::MAX), (i32::MIN, i32::MAX), (7, 1000)];
    for (min, max) in ranges {
        let mid = (min as i64 + (max as i64 - min as i64) / 2) as i32;
        for value in [min, max, mid, min + 1, max - 1] {
            let mut stream = WriteStream::new(vec![0; 8], 8);
            let mut written = value;
            assert!(stream.serialise_int(&mut written, min, max));
            assert_eq!(written, value);
            assert_eq!(stream.get_bits_processed(), bits_required_for(min, max));
            stream.flush();
            let mut buffer = stream.into_buffer();
            let mut stream = ReadStream::new(&mut buffer, 8);
            let mut read: i32 = min;
            assert!(stream.serialise_int(&mut read, min, max));
            assert_eq!(read, value);
            assert_eq!(stream.get_bits_processed(), bits_required_for(min, max));
        }
    }
}

#[test]
fn int_is_written_as_distance_from_min() {
    let mut stream = WriteStream::new(vec![0; 4], 4);
    let mut value: i32 = -7;
    stream.serialise_int(&mut value, -10, 10);
    stream.flush();
    assert_eq!(stream.get_bytes_processed(), 1);
    assert_eq!(stream.into_buffer(), vec![3, 0, 0, 0]);
}

#[test]
fn int_read_above_max_is_refused() {
    // The range 0 to 5 takes three bits, which can spell 7.
    let mut buffer = vec![0b0000_0111u8, 0, 0, 0];
    let mut stream = ReadStream::new(&mut buffer, 4);
    let mut value: i32 = 2;
    assert!(!stream.serialise_int(&mut value, 0, 5));
    assert_eq!(value, 2);
    assert_eq!(stream.get_bits_processed(), 3);
    assert_eq!(stream.get_error(), ProtocolError::NoError);
}

#[test]
fn reading_past_the_end_latches_overflow() {
    let mut buffer = vec![0xffu8; 4];
    let mut stream = ReadStream::new(&mut buffer, 1);
    let mut value: u32 = 77;
    assert!(stream.serialize_bits(&mut value, 4));
    assert_eq!(value, 0xf);
    assert!(!stream.serialize_bits(&mut value, 5));
    assert_eq!(value, 0xf);
    assert_eq!(stream.get_error(), ProtocolError::StreamOverflow);
    assert_eq!(stream.get_bits_processed(), 4);
    // A later read that fits still works, and the error stays.
    assert!(stream.serialize_bits(&mut value, 4));
    assert_eq!(stream.get_error(), ProtocolError::StreamOverflow);
    let mut number: i32 = 0;
    assert!(!stream.serialise_int(&mut number, 0, 1));
    assert_eq!(stream.get_error(), ProtocolError::StreamOverflow);
}

#[test]
fn bytes_are_aligned_first() {
    let mut stream = WriteStream::new(vec![0; 8], 8);
    let mut flag: u32 = 1;
    stream.serialize_bits(&mut flag, 1);
    let mut bytes: Vec<u8> = vec![0x11, 0x22, 0x33, 0x44, 0x55];
    assert!(stream.serialize_bytes(&mut bytes, 5));
    assert_eq!(stream.get_bits_processed(), 48);
    stream.flush();
    let mut buffer = stream.into_buffer();
    assert_eq!(buffer, vec![1, 0x11, 0x22, 0x33, 0x44, 0x55, 0, 0]);

    let mut stream = ReadStream::new(&mut buffer, 6);
    let mut flag: u32 = 0;
    assert!(stream.serialize_bits(&mut flag, 1));
    let mut out: Vec<u8> = vec![0; 5];
    assert!(stream.serialize_bytes(&mut out, 5));
    assert_eq!(out, vec![0x11, 0x22, 0x33, 0x44, 0x55]);
    assert_eq!(stream.get_bits_remaining(), 0);
    assert_eq!(stream.get_bytes_processed(), 6);
}

#[test]
fn bytes_read_fails_on_dirty_padding_and_on_short_input() {
    let mut dirty = vec![0b0000_0011u8, 9, 9, 9];
    let mut stream = ReadStream::new(&mut dirty, 4);
    let mut flag: u32 = 0;
    stream.serialize_bits(&mut flag, 1);
    let mut out: Vec<u8> = vec![0; 2];
    assert!(!stream.serialize_bytes(&mut out, 2));
    assert_eq!(out, vec![0, 0]);
    assert_eq!(stream.get_error(), ProtocolError::NoError);
    assert_eq!(stream.get_bits_processed(), 8);

    let mut short = vec![1u8, 9, 9, 9];
    let mut stream = ReadStream::new(&mut short, 2);
    stream.serialize_bits(&mut flag, 1);
    assert!(!stream.serialize_bytes(&mut out, 2));
    assert_eq!(out, vec![0, 0]);
    assert_eq!(stream.get_error(), ProtocolError::StreamOverflow);
    assert_eq!(stream.get_bits_processed(), 8);
}

#[test]
fn check_marker_round_trip_and_mismatch() {
    let mut stream = WriteStream::new(vec![0; 12], 12);
    let mut flag: u32 = 1;
    stream.serialize_bits(&mut flag, 3);
    assert!(stream.serialize_check(&mut String::from("scene start")));
    assert_eq!(stream.get_bits_processed(), 40);
    stream.flush();
    let mut buffer = stream.into_buffer();
    let hash = hash_string(&mut String::from("scene start"));
    assert_eq!(buffer[0], 1);
    assert_eq!(buffer[1..5], hash.to_le_bytes());

    {
        let mut stream = ReadStream::new(&mut buffer, 12);
        stream.serialize_bits(&mut flag, 3);
        assert!(stream.serialize_check(&mut String::from("scene start")));
        assert_eq!(stream.get_bits_processed(), 40);
    }
    {
        let mut stream = ReadStream::new(&mut buffer, 12);
        stream.serialize_bits(&mut flag, 3);
        assert!(!stream.serialize_check(&mut String::from("scene end")));
        assert_eq!(stream.get_error(), ProtocolError::NoError);
    }
    {
        let mut stream = ReadStream::new(&mut buffer, 4);
        stream.serialize_bits(&mut flag, 3);
        assert!(!stream.serialize_check(&mut String::from("scene start")));
        assert_eq!(stream.get_error(), ProtocolError::StreamOverflow);
        assert_eq!(stream.get_bits_processed(), 8);
    }
}

#[test]
fn align_on_both_sides() {
    let mut stream = WriteStream::new(vec![0xff; 4], 4);
    let mut value: u32 = 0b11;
    stream.serialize_bits(&mut value, 2);
    assert!(stream.serialize_align());
    assert_eq!(stream.get_bits_processed(), 8);
    stream.flush();
    let mut buffer = stream.into_buffer();
    assert_eq!(buffer[0], 0b11);
    let mut stream = ReadStream::new(&mut buffer, 4);
    stream.serialize_bits(&mut value, 2);
    assert!(stream.serialize_align());
    assert_eq!(stream.get_bits_processed(), 8);
}
