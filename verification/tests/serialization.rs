use protocol::constants::ProtocolError;
use protocol::serialization::{
    read_object_index_macro, read_object_indices, serialize_align_macro, serialize_bits_macro, serialize_bool_macro,
    serialize_bytes_macro, serialize_float_macro, serialize_int_macro,
    serialize_object_index_internal, serialize_quantized, serialize_string_macro,
    write_object_index_macro, write_object_indices, MAX_OBJECTS,
};
use protocol::streams::read_stream::ReadStream;
use protocol::streams::write_stream::WriteStream;
use protocol::streams::Stream;

#[derive(PartialEq, Debug)]
struct TestData {
    test_int_a: i32,
    test_int_b: i32,
    test_int_c: i32,
    test_int_d: u32,
    test_int_e: u32,
    test_int_f: u32,
    test_bool: bool,
    test_float: f32,
    test_string: String,
}

impl Default for TestData {
    fn default() -> Self {
        TestData {
            test_int_a: 0,
            test_int_b: 0,
            test_int_c: 0,
            test_int_d: 0,
            test_int_e: 0,
            test_int_f: 0,
            test_bool: false,
            test_float: 0.0,
            test_string: String::from_utf8(vec![0; 500]).unwrap(),
        }
    }
}

#[derive(Debug)]
struct TestObject {
    max_int: i32,
    min_int: i32,
    data: TestData,
}

impl TestObject {
    fn new() -> TestObject {
        TestObject { max_int: 10, min_int: -10, data: TestData::default() }
    }

    fn init(&mut self) {
        self.data.test_int_a = 1;
        self.data.test_int_b = -2;
        self.data.test_int_c = 150;
        self.data.test_int_d = 55;
        self.data.test_int_e = 255;
        self.data.test_int_f = 127;
        self.data.test_bool = true;
        self.data.test_float = 3.1315926;
        self.data.test_string = String::from("Hello world!");
    }

    fn serialize<T: Stream>(&mut self, stream: &mut T) -> bool {
        serialize_int_macro(stream, &mut self.data.test_int_a, self.min_int, self.max_int);
        serialize_int_macro(stream, &mut self.data.test_int_b, self.min_int, self.max_int);
        serialize_int_macro(stream, &mut self.data.test_int_c, -100, 10000);
        serialize_bits_macro(stream, &mut self.data.test_int_d, 6);
        serialize_bits_macro(stream, &mut self.data.test_int_e, 8);
        serialize_bits_macro(stream, &mut self.data.test_int_f, 7);
        serialize_bool_macro(stream, &mut self.data.test_bool);
        let mut float_bits = self.data.test_float.to_bits();
        serialize_float_macro(stream, &mut float_bits);
        if stream.is_reading() {
            self.data.test_float = f32::from_bits(float_bits);
        }
        serialize_string_macro(stream, &mut self.data.test_string, 100);
        true
    }
}

#[test]
fn test_serialization() {
    let mut write_obj = TestObject::new();
    write_obj.init();
    let buffer = vec![0; 100];
    let buffer_size = buffer.len();

    let mut buffer = {
        let mut write_stream = WriteStream::new(buffer, buffer_size);
        write_obj.serialize(&mut write_stream);
        write_stream.flush();
        write_stream.into_buffer()
    };

    let mut read_stream = ReadStream::new(&mut buffer, buffer_size);
    let mut read_object = TestObject::new();
    read_object.serialize(&mut read_stream);

    assert!(read_object.data == write_obj.data);
}

#[test]
fn float_bits_travel_unchanged() {
    for value in [0.0f32, -0.0, 1.5, -3.1315926, f32::MAX, f32::MIN_POSITIVE, f32::INFINITY] {
        let mut stream = WriteStream::new(vec![0; 4], 4);
        let mut bits = value.to_bits();
        assert!(serialize_float_macro(&mut stream, &mut bits));
        stream.flush();
        let mut buffer = stream.into_buffer();
        assert_eq!(buffer, value.to_bits().to_le_bytes().to_vec());
        let mut stream = ReadStream::new(&mut buffer, 4);
        let mut read: u32 = 0;
        assert!(serialize_float_macro(&mut stream, &mut read));
        assert_eq!(f32::from_bits(read).to_bits(), value.to_bits());
    }
}

#[test]
fn bool_takes_one_bit() {
    let mut stream = WriteStream::new(vec![0; 4], 4);
    let mut yes = true;
    let mut no = false;
    assert!(serialize_bool_macro(&mut stream, &mut yes));
    assert!(serialize_bool_macro(&mut stream, &mut no));
    assert!(serialize_bool_macro(&mut stream, &mut yes));
    assert_eq!(stream.get_bits_processed(), 3);
    stream.flush();
    let mut buffer = stream.into_buffer();
    assert_eq!(buffer[0], 0b101);
    let mut stream = ReadStream::new(&mut buffer, 4);
    let mut read = false;
    assert!(serialize_bool_macro(&mut stream, &mut read));
    assert!(read);
    assert!(serialize_bool_macro(&mut stream, &mut read));
    assert!(!read);
    assert!(serialize_bool_macro(&mut stream, &mut read));
    assert!(read);
}

#[test]
fn bool_read_past_the_end_fails() {
    let mut buffer = vec![0xffu8; 4];
    let mut stream = ReadStream::new(&mut buffer, 0);
    let mut read = false;
    assert!(!serialize_bool_macro(&mut stream, &mut read));
    assert!(!read);
    assert_eq!(stream.get_error(), ProtocolError::StreamOverflow);
}

#[test]
fn int_macro_rejects_values_out_of_range_on_read() {
    let mut buffer = vec![0b0001_1111u8, 0, 0, 0];
    let mut stream = ReadStream::new(&mut buffer, 4);
    let mut value: i32 = 0;
    // -10 to 10 takes five bits; 31 - 10 = 21 lies above the range.
    assert!(!serialize_int_macro(&mut stream, &mut value, -10, 10));
    assert_eq!(value, 0);
}

#[test]
fn string_round_trip() {
    for text in ["", "a", "Hello world!", "grüße, 世界"] {
        let mut stream = WriteStream::new(vec![0; 64], 64);
        let mut flag: u32 = 1;
        serialize_bits_macro(&mut stream, &mut flag, 1);
        let mut written = String::from(text);
        assert!(serialize_string_macro(&mut stream, &mut written, 40));
        assert_eq!(written, text);
        stream.flush();
        let mut buffer = stream.into_buffer();
        let mut stream = ReadStream::new(&mut buffer, 64);
        serialize_bits_macro(&mut stream, &mut flag, 1);
        let mut read = String::from("to be replaced");
        assert!(serialize_string_macro(&mut stream, &mut read, 40));
        assert_eq!(read, text);
    }
}

#[test]
fn string_layout() {
    let mut stream = WriteStream::new(vec![0; 8], 8);
    let mut text = String::from("hi");
    // Lengths 0 to 99 take seven bits; the bytes start at the next byte.
    assert!(serialize_string_macro(&mut stream, &mut text, 100));
    assert_eq!(stream.get_bits_processed(), 24);
    stream.flush();
    assert_eq!(stream.into_buffer()[..3], [2, b'h', b'i']);

    let mut stream = WriteStream::new(vec![0; 8], 8);
    let mut empty = String::new();
    assert!(serialize_string_macro(&mut stream, &mut empty, 100));
    assert_eq!(stream.get_bits_processed(), 7);
}

#[test]
fn string_of_the_largest_length() {
    let mut stream = WriteStream::new(vec![0; 16], 16);
    let mut text = String::from("abcdefg");
    assert!(serialize_string_macro(&mut stream, &mut text, 8));
    stream.flush();
    let mut buffer = stream.into_buffer();
    let mut stream = ReadStream::new(&mut buffer, 16);
    let mut read = String::new();
    assert!(serialize_string_macro(&mut stream, &mut read, 8));
    assert_eq!(read, "abcdefg");
}

#[test]
fn string_read_failures() {
    // A length above the largest allowed: 7 where at most 4 bytes may come.
    let mut buffer = vec![0b0000_0111u8, b'a', b'b', b'c'];
    let mut stream = ReadStream::new(&mut buffer, 4);
    let mut read = String::from("kept");
    assert!(!serialize_string_macro(&mut stream, &mut read, 5));
    assert_eq!(read, "kept");
    assert_eq!(stream.get_error(), ProtocolError::NoError);

    // Bytes that are not UTF-8.
    let mut buffer = vec![2u8, 0xff, 0xfe, 0];
    let mut stream = ReadStream::new(&mut buffer, 4);
    assert!(!serialize_string_macro(&mut stream, &mut read, 100));
    assert_eq!(read, "kept");
    assert_eq!(stream.get_error(), ProtocolError::NoError);

    // Fewer bytes than the length announces.
    let mut buffer = vec![3u8, b'a', b'b', 0];
    let mut stream = ReadStream::new(&mut buffer, 3);
    assert!(!serialize_string_macro(&mut stream, &mut read, 100));
    assert_eq!(read, "kept");
    assert_eq!(stream.get_error(), ProtocolError::StreamOverflow);

    // Dirty padding between length and bytes.
    let mut buffer = vec![0b1000_0001u8, b'a', 0, 0];
    let mut stream = ReadStream::new(&mut buffer, 4);
    assert!(!serialize_string_macro(&mut stream, &mut read, 100));
    assert_eq!(read, "kept");
}

#[test]
fn bytes_macro_round_trip() {
    let mut stream = WriteStream::new(vec![0; 16], 16);
    let mut bytes: Vec<u8> = vec![1, 2, 3, 4, 5, 6, 7];
    assert!(serialize_bytes_macro(&mut stream, &mut bytes, 7));
    assert!(serialize_align_macro(&mut stream));
    stream.flush();
    let mut buffer = stream.into_buffer();
    let mut stream = ReadStream::new(&mut buffer, 16);
    let mut read: Vec<u8> = vec![0; 7];
    assert!(serialize_bytes_macro(&mut stream, &mut read, 7));
    assert_eq!(read, bytes);
}

fn index_code_bits(previous: i32, current: i32) -> (u32, Vec<u8>) {
    let mut stream = WriteStream::new(vec![0; 8], 8);
    let mut before = previous;
    assert!(write_object_index_macro(&mut stream, &mut before, current));
    assert_eq!(before, current);
    let bits = stream.get_bits_processed();
    stream.flush();
    (bits, stream.into_buffer())
}

#[test]
fn index_code_lengths() {
    // One flag for a difference of 1.
    assert_eq!(index_code_bits(-1, 0).0, 1);
    assert_eq!(index_code_bits(9, 10).0, 1);
    // Two flags and two bits for 2 to 5.
    assert_eq!(index_code_bits(0, 2).0, 4);
    assert_eq!(index_code_bits(0, 5).0, 4);
    // Three flags and three bits for 6 to 13.
    assert_eq!(index_code_bits(0, 6).0, 6);
    assert_eq!(index_code_bits(0, 13).0, 6);
    assert_eq!(index_code_bits(0, 14).0, 8);
    assert_eq!(index_code_bits(0, 29).0, 8);
    assert_eq!(index_code_bits(0, 30).0, 10);
    assert_eq!(index_code_bits(0, 61).0, 10);
    assert_eq!(index_code_bits(0, 62).0, 12);
    assert_eq!(index_code_bits(0, 125).0, 12);
    // Six cleared flags and ten bits for the rest.
    assert_eq!(index_code_bits(0, 126).0, 16);
    assert_eq!(index_code_bits(-1, 1024).0, 16);
}

#[test]
fn index_code_bit_patterns() {
    assert_eq!(index_code_bits(-1, 0).1[0], 0b1);
    // Difference 4: flags 0, 1, then 4 - 2 = 2 in two bits.
    assert_eq!(index_code_bits(0, 4).1[0], 0b1010);
    // Difference 13: flags 0, 0, 1, then 13 - 6 = 7 in three bits.
    assert_eq!(index_code_bits(0, 13).1[0], 0b11_1100);
    // Difference 126: six cleared flags, then 0 in ten bits.
    assert_eq!(index_code_bits(0, 126).1[..2], [0, 0]);
    // Difference 1025: six cleared flags, then 899 in ten bits.
    let code = index_code_bits(-1, 1024).1;
    assert_eq!(u16::from_le_bytes([code[0], code[1]]), 899 << 6);
}

#[test]
fn index_round_trip_for_every_difference() {
    for previous in [-1i32, 0, 17] {
        for current in (previous + 1)..=(MAX_OBJECTS as i32) {
            let (bits, mut buffer) = index_code_bits(previous, current);
            let mut stream = ReadStream::new(&mut buffer, 8);
            let mut before = previous;
            let mut read: i32 = -5;
            assert!(read_object_index_macro(&mut stream, &mut before, &mut read));
            assert_eq!(read, current);
            assert_eq!(before, current);
            assert_eq!(stream.get_bits_processed(), bits);
        }
    }
}

#[test]
fn index_list_round_trip() {
    let indices: Vec<i32> = vec![0, 1, 2, 7, 8, 20, 21, 50, 111, 112, 300, 1000, 1023];
    let mut stream = WriteStream::new(vec![0; 64], 64);
    let mut previous: i32 = -1;
    for index in indices.iter() {
        assert!(write_object_index_macro(&mut stream, &mut previous, *index));
    }
    assert!(write_object_index_macro(&mut stream, &mut previous, MAX_OBJECTS as i32));
    stream.flush();
    let mut buffer = stream.into_buffer();

    let mut stream = ReadStream::new(&mut buffer, 64);
    let mut previous: i32 = -1;
    let mut read: Vec<i32> = Vec::new();
    loop {
        let mut index: i32 = 0;
        assert!(read_object_index_macro(&mut stream, &mut previous, &mut index));
        if index == MAX_OBJECTS as i32 {
            break;
        }
        read.push(index);
    }
    assert_eq!(read, indices);
}

#[test]
fn empty_index_list_is_the_sentinel_alone() {
    let mut stream = WriteStream::new(vec![0; 8], 8);
    let mut previous: i32 = -1;
    assert!(write_object_index_macro(&mut stream, &mut previous, MAX_OBJECTS as i32));
    stream.flush();
    let mut buffer = stream.into_buffer();
    let mut stream = ReadStream::new(&mut buffer, 8);
    let mut previous: i32 = -1;
    let mut index: i32 = 0;
    assert!(read_object_index_macro(&mut stream, &mut previous, &mut index));
    assert_eq!(index, MAX_OBJECTS as i32);
}

#[test]
fn index_read_clamps_and_fails_cleanly() {
    // From 1000, a difference of 1025 would lead past the sentinel.
    let (_, mut buffer) = index_code_bits(-1, 1024);
    let mut stream = ReadStream::new(&mut buffer, 8);
    let mut previous: i32 = 1000;
    let mut index: i32 = 0;
    assert!(serialize_object_index_internal(&mut stream, &mut previous, &mut index));
    assert_eq!(index, MAX_OBJECTS as i32);
    assert_eq!(previous, MAX_OBJECTS as i32);

    // A stream that ends within the code.
    let mut buffer = vec![0u8; 4];
    let mut stream = ReadStream::new(&mut buffer, 1);
    let mut previous: i32 = 3;
    let mut index: i32 = 9;
    assert!(!read_object_index_macro(&mut stream, &mut previous, &mut index));
    assert_eq!((previous, index), (3, 9));
    assert_eq!(stream.get_error(), ProtocolError::StreamOverflow);

    // A raw difference above the largest: ten set bits spell 126 + 1023.
    let mut buffer = vec![0b1100_0000u8, 0xff, 0, 0];
    let mut stream = ReadStream::new(&mut buffer, 4);
    assert!(!read_object_index_macro(&mut stream, &mut previous, &mut index));
    assert_eq!((previous, index), (3, 9));
    assert_eq!(stream.get_error(), ProtocolError::NoError);
}

fn compressed(value: f32, min: f32, max: f32, precision: f32) -> (u32, f32) {
    let delta = max - min;
    let steps = f32::ceil(delta / precision) as u32;
    let normalised = ((value - min) / delta).clamp(0.0, 1.0);
    let mut step = f32::floor(normalised * steps as f32 + 0.05) as u32;
    let mut stream = WriteStream::new(vec![0; 8], 8);
    assert!(serialize_quantized(&mut stream, &mut step, steps));
    let bits = stream.get_bits_processed();
    stream.flush();
    let mut buffer = stream.into_buffer();
    let mut stream = ReadStream::new(&mut buffer, 8);
    let mut read: u32 = 0;
    assert!(serialize_quantized(&mut stream, &mut read, steps));
    assert_eq!(read, step);
    (bits, read as f32 / steps as f32 * delta + min)
}

#[test]
fn quantized_steps_carry_a_float_to_within_its_precision() {
    // Sixteen steps of one half between 0 and 8 take five bits.
    assert_eq!(compressed(3.0, 0.0, 8.0, 0.5), (5, 3.0));
    assert_eq!(compressed(0.0, 0.0, 8.0, 0.5), (5, 0.0));
    assert_eq!(compressed(8.0, 0.0, 8.0, 0.5), (5, 8.0));
    // The step is found by rounding down, so a value comes back up to one
    // step below itself.
    assert_eq!(compressed(3.3, 0.0, 8.0, 0.5), (5, 3.0));
    assert_eq!(compressed(3.49, 0.0, 8.0, 0.5), (5, 3.5));
    // Values outside the range are held to it.
    assert_eq!(compressed(-4.0, 0.0, 8.0, 0.5), (5, 0.0));
    assert_eq!(compressed(9.0, -1.0, 1.0, 0.25), (4, 1.0));
    for i in 0..=1000 {
        let value = -5.0 + i as f32 * 0.015;
        let (bits, decoded) = compressed(value, -5.0, 10.0, 0.01);
        assert_eq!(bits, 11);
        assert!((decoded - value).abs() <= 0.01 + 1e-4);
    }
}

fn written_indices(indices: &Vec<i32>) -> (u32, Vec<u8>) {
    let mut stream = WriteStream::new(vec![0; 64], 64);
    assert!(write_object_indices(&mut stream, indices));
    let bits = stream.get_bits_processed();
    stream.flush();
    (bits, stream.into_buffer())
}

#[test]
fn index_lists_written_and_read_as_one() {
    let lists: Vec<Vec<i32>> = vec![
        vec![],
        vec![0],
        vec![1023],
        vec![0, 1, 2, 3],
        vec![5, 9, 130, 131, 700, 1023],
    ];
    for indices in lists.iter() {
        let (bits, mut buffer) = written_indices(indices);
        let mut stream = ReadStream::new(&mut buffer, 64);
        assert_eq!(read_object_indices(&mut stream), Some(indices.clone()));
        assert_eq!(stream.get_bits_processed(), bits);
        assert_eq!(stream.get_error(), ProtocolError::NoError);
    }
}

#[test]
fn index_list_bits_are_those_of_its_indices() {
    // 0 from -1 is one flag; 2 from 0 is two flags and two bits with the
    // value 0; the sentinel from 2 is six cleared flags and ten bits with
    // the value 1022 - 126.
    let (bits, buffer) = written_indices(&vec![0, 2]);
    assert_eq!(bits, 1 + 4 + 16);
    let word = u32::from_le_bytes([buffer[0], buffer[1], buffer[2], buffer[3]]);
    assert_eq!(word, 1 | (0b10 << 1) | (896 << 11));
}

#[test]
fn index_list_cut_short_gives_nothing() {
    let (_, buffer) = written_indices(&vec![5, 9, 130, 131, 700, 1023]);
    // The first four bytes hold the start of the list and no sentinel.
    let mut short: Vec<u8> = buffer[..4].to_vec();
    let mut stream = ReadStream::new(&mut short, 4);
    assert_eq!(read_object_indices(&mut stream), None);
    assert_eq!(stream.get_error(), ProtocolError::StreamOverflow);
}
