use protocol::bitpacker::bit_reader::BitReader;
use protocol::bitpacker::bit_writer::BitWriter;
use protocol::constants::Buffer;

fn run_bitpacker_pass() {
    let buffer_size: usize = 256;
    let buffer: Buffer = vec![0; buffer_size];
    let bits_written: u32;
    let bytes_written: u32;
    let mut buffer = {
        let mut writer = BitWriter::new(buffer, buffer_size);
        assert!(writer.get_bits_written() == 0);
        assert!(writer.get_bytes_written() == 0);
        assert!(writer.get_total_bytes() == buffer_size as u32);
        assert!(writer.get_bits_available() == (buffer_size as u32) * 8);

        writer.write_bits(0, 1);
        writer.write_bits(1, 1);
        writer.write_bits(10, 8);
        writer.write_bits(255, 8);
        writer.write_bits(1000, 10);
        writer.write_bits(50000, 16);
        writer.write_bits(9999999, 32);
        writer.write_align();

        let mut bytes: Vec<u8> = vec![5, 20, 255];
        writer.write_bytes(&mut bytes, 3);
        writer.flush();

        bits_written = 1 + 1 + 8 + 8 + 10 + 16 + 32 + 4 + (bytes.len() as u32 * 8);
        bytes_written = writer.get_bytes_written();

        assert_eq!(bits_written / 8, bytes_written);
        assert_eq!(bits_written, writer.get_bits_written());
        assert!(writer.get_total_bytes() == buffer_size as u32);
        assert!(writer.get_bits_available() == (buffer_size as u32) * 8 - bits_written);
        writer.into_buffer()
    };

    {
        let mut reader = BitReader::new(&mut buffer, bytes_written as usize);

        assert_eq!(reader.get_bits_read(), 0);
        assert_eq!(reader.get_bits_remaining(), bytes_written * 8);

        let a = reader.read_bits(1);
        let b = reader.read_bits(1);
        let c = reader.read_bits(8);
        let d = reader.read_bits(8);
        let e = reader.read_bits(10);
        let f = reader.read_bits(16);
        let g = reader.read_bits(32);
        reader.read_align();

        let mut bytes: Vec<u8> = vec![0; 3];
        reader.read_bytes(&mut bytes, 3);

        assert_eq!(a, 0);
        assert_eq!(b, 1);
        assert_eq!(c, 10);
        assert_eq!(d, 255);
        assert_eq!(e, 1000);
        assert_eq!(f, 50000);
        assert_eq!(g, 9999999);
        assert_eq!(bytes[0], 5);
        assert_eq!(bytes[1], 20);
        assert_eq!(bytes[2], 255);

        assert_eq!(reader.get_bits_read(), bits_written);
        assert_eq!(reader.get_bits_remaining(), bytes_written * 8 - bits_written);
    }
}

#[test]
fn bitpacker_test_bitpacker() {
    run_bitpacker_pass();
}

#[test]
fn mod_test_bitpacker() {
    run_bitpacker_pass();
}

#[test]
fn bits_round_trip_for_every_width() {
    for n in 1..=32u32 {
        let mask: u32 = if n == 32 { u32::MAX } else { (1u32 << n) - 1 };
        for v in [0u32, 1, 0x5555_5555, 0xAAAA_AAAA, 0xDEAD_BEEF, u32::MAX] {
            let value = v & mask;
            let mut writer = BitWriter::new(vec![0; 8], 8);
            writer.write_bits(1, 3);
            writer.write_bits(value, n);
            writer.flush();
            let mut buffer = writer.into_buffer();
            let mut reader = BitReader::new(&mut buffer, 8);
            assert_eq!(reader.read_bits(3), 1);
            assert_eq!(reader.read_bits(n), value);
        }
    }
}

#[test]
fn write_bits_masks_the_value() {
    let mut writer = BitWriter::new(vec![0xff; 4], 4);
    writer.write_bits(0xffff_fff5, 4);
    writer.flush();
    let buffer = writer.into_buffer();
    assert_eq!(buffer, vec![0x05, 0, 0, 0]);
}

#[test]
fn words_are_stored_least_significant_byte_first() {
    let mut writer = BitWriter::new(vec![0; 8], 8);
    writer.write_bits(0x0403_0201, 32);
    writer.write_bits(0x1, 1);
    assert_eq!(writer.get_bits_written(), 33);
    assert_eq!(writer.get_bytes_written(), 5);
    assert_eq!(writer.get_align_bits(), 7);
    writer.flush();
    let buffer = writer.into_buffer();
    assert_eq!(buffer, vec![1, 2, 3, 4, 1, 0, 0, 0]);
}

#[test]
fn flush_may_be_followed_by_more_writes() {
    let mut writer = BitWriter::new(vec![0; 4], 4);
    writer.write_bits(0b101, 3);
    writer.flush();
    writer.write_bits(0b11, 2);
    writer.flush();
    assert_eq!(writer.get_bits_written(), 5);
    let buffer = writer.into_buffer();
    assert_eq!(buffer, vec![0b11101, 0, 0, 0]);
}

#[test]
fn flush_leaves_the_rest_of_the_buffer_alone() {
    let mut writer = BitWriter::new(vec![0xee; 12], 12);
    writer.write_bits(0x7, 3);
    writer.flush();
    let buffer = writer.into_buffer();
    assert_eq!(buffer[..4], [0x07, 0, 0, 0]);
    assert_eq!(buffer[4..], [0xee; 8]);
}

#[test]
fn write_align_pads_with_zero_bits() {
    let mut writer = BitWriter::new(vec![0xff; 4], 4);
    writer.write_bits(1, 1);
    assert!(writer.write_align());
    assert_eq!(writer.get_bits_written(), 8);
    assert!(writer.write_align());
    assert_eq!(writer.get_bits_written(), 8);
    writer.flush();
    assert_eq!(writer.into_buffer()[0], 1);
}

#[test]
fn read_align_reports_dirty_padding() {
    let mut clean: Buffer = vec![0b0000_0001, 0x7f, 0, 0];
    let mut reader = BitReader::new(&mut clean, 4);
    assert_eq!(reader.read_bits(1), 1);
    assert_eq!(reader.get_align_bits(), 7);
    assert!(reader.read_align());
    assert_eq!(reader.get_bits_read(), 8);
    assert_eq!(reader.read_bits(8), 0x7f);

    let mut dirty: Buffer = vec![0b0100_0001, 0, 0, 0];
    let mut reader = BitReader::new(&mut dirty, 4);
    assert_eq!(reader.read_bits(1), 1);
    assert!(!reader.read_align());
    assert_eq!(reader.get_bits_read(), 8);
}

#[test]
fn would_read_past_end_is_exact() {
    let mut buffer: Buffer = vec![0; 8];
    let mut reader = BitReader::new(&mut buffer, 5);
    assert!(!reader.would_read_past_end(40));
    assert!(reader.would_read_past_end(41));
    reader.read_bits(32);
    assert_eq!(reader.get_word_index(), 1);
    assert!(!reader.would_read_past_end(8));
    assert!(reader.would_read_past_end(9));
    assert!(reader.would_read_past_end(u32::MAX));
    assert_eq!(reader.get_bits_remaining(), 8);
}

fn written_in_bulk(offset: usize, bytes: &Vec<u8>) -> Vec<u8> {
    let mut writer = BitWriter::new(vec![0; 64], 64);
    for k in 0..offset {
        writer.write_bits(0xa0 + k as u32, 8);
    }
    let mut block = bytes.clone();
    assert!(writer.write_bytes(&mut block, bytes.len() as u32));
    assert_eq!(&block, bytes);
    writer.flush();
    assert_eq!(writer.get_bits_written() as usize, 8 * (offset + bytes.len()));
    writer.into_buffer()
}

fn written_bytewise(offset: usize, bytes: &Vec<u8>) -> Vec<u8> {
    let mut writer = BitWriter::new(vec![0; 64], 64);
    for k in 0..offset {
        writer.write_bits(0xa0 + k as u32, 8);
    }
    for b in bytes.iter() {
        writer.write_bits(*b as u32, 8);
    }
    writer.flush();
    writer.into_buffer()
}

#[test]
fn byte_block_equals_bytewise_writes() {
    for offset in 0..8usize {
        for length in 0..24usize {
            let bytes: Vec<u8> = (0..length).map(|i| (i * 37 + 11) as u8).collect();
            let bulk = written_in_bulk(offset, &bytes);
            let plain = written_bytewise(offset, &bytes);
            assert_eq!(bulk, plain);
            assert_eq!(&bulk[offset..offset + length], &bytes[..]);
        }
    }
}

#[test]
fn read_bytes_mirrors_write_bytes() {
    for offset in 0..5usize {
        for length in 1..20usize {
            let bytes: Vec<u8> = (0..length).map(|i| (200 - i * 3) as u8).collect();
            let mut buffer = written_in_bulk(offset, &bytes);
            let mut reader = BitReader::new(&mut buffer, 64);
            for k in 0..offset {
                assert_eq!(reader.read_bits(8), 0xa0 + k as u32);
            }
            let mut out: Vec<u8> = vec![0xcc; length + 2];
            reader.read_bytes(&mut out, length as u32);
            assert_eq!(&out[..length], &bytes[..]);
            assert_eq!(&out[length..], &[0xcc, 0xcc]);
            assert_eq!(reader.get_bits_read() as usize, 8 * (offset + length));
        }
    }
}

struct Lcg(u64);

impl Lcg {
    fn next(&mut self) -> u32 {
        self.0 = self.0.wrapping_mul(6364136223846793005).wrapping_add(1442695040888963407);
        (self.0 >> 32) as u32
    }
}

enum Step {
    Bits(u32, u32),
    Align,
    Bytes(Vec<u8>),
}

#[test]
fn mixed_passes_read_back_what_was_written() {
    let mut rng = Lcg(0x1234_5678_9abc_def0);
    for _ in 0..200 {
        let mut steps: Vec<Step> = Vec::new();
        let mut bits: usize = 0;
        while bits < 3000 {
            match rng.next() % 4 {
                0 => {
                    steps.push(Step::Align);
                    bits = (bits + 7) / 8 * 8;
                }
                1 => {
                    let length = (rng.next() % 40) as usize;
                    let block: Vec<u8> = (0..length).map(|_| rng.next() as u8).collect();
                    steps.push(Step::Align);
                    steps.push(Step::Bytes(block));
                    bits = (bits + 7) / 8 * 8 + 8 * length;
                }
                _ => {
                    let width = 1 + rng.next() % 32;
                    let mask = if width == 32 { u32::MAX } else { (1 << width) - 1 };
                    steps.push(Step::Bits(rng.next() & mask, width));
                    bits += width as usize;
                }
            }
        }
        let size = (bits + 31) / 32 * 4;
        let mut writer = BitWriter::new(vec![0; size], size);
        for step in steps.iter() {
            match step {
                Step::Bits(value, width) => writer.write_bits(*value, *width),
                Step::Align => assert!(writer.write_align()),
                Step::Bytes(block) => {
                    let mut copy = block.clone();
                    assert!(writer.write_bytes(&mut copy, block.len() as u32));
                }
            }
        }
        assert_eq!(writer.get_bits_written() as usize, bits);
        writer.flush();
        let mut buffer = writer.into_buffer();
        let mut reader = BitReader::new(&mut buffer, size);
        for step in steps.iter() {
            match step {
                Step::Bits(value, width) => assert_eq!(reader.read_bits(*width), *value),
                Step::Align => assert!(reader.read_align()),
                Step::Bytes(block) => {
                    let mut out = vec![0u8; block.len()];
                    reader.read_bytes(&mut out, block.len() as u32);
                    assert_eq!(&out, block);
                }
            }
        }
        assert_eq!(reader.get_bits_read() as usize, bits);
    }
}
