//! The reading stream.
use vstd::prelude::*;

use crate::bitpacker::bit_reader::BitReader;
use crate::bitpacker::{byte_bits, lemma_field_is_byte};
use crate::constants::{Buffer, ProtocolError};
use crate::helpers::hash_string;
use crate::streams::{bits_required_for, bytes_at, Stream, StreamView};

verus! {

/// A stream that reads from a borrowed buffer through a `BitReader`.
pub struct ReadStream<'a> {
    reader: BitReader<'a>,
    error: ProtocolError,
}

impl<'a> ReadStream<'a> {
    /// The bytes of the underlying buffer.
    pub closed spec fn data(&self) -> Seq<u8> {
        self.reader.data()
    }

    /// A stream at the start of `buffer` that may read its first
    /// `buffer_size` bytes.
    pub fn new(buffer: &'a mut Buffer, buffer_size: usize) -> (stream: ReadStream<'a>)
        requires
            old(buffer)@.len() % 4 == 0,
            buffer_size <= old(buffer)@.len(),
            8 * buffer_size <= u32::MAX,
        ensures
            final(buffer)@ == old(buffer)@,
            stream.wf(),
            stream.data() == old(buffer)@,
            stream@ == (StreamView {
                writing: false,
                bits: byte_bits(old(buffer)@).take(8 * buffer_size),
                position: 0,
                limit: (8 * buffer_size) as nat,
                storage: old(buffer)@.len(),
                error: ProtocolError::NoError,
            }),
    {
        ReadStream { reader: BitReader::new(buffer, buffer_size), error: ProtocolError::NoError }
    }

    /// A reading stream reads.
    pub proof fn lemma_reading(&self)
        ensures
            !self@.writing,
    {
    }

    /// The bits of a stream are those of its bytes, up to its limit.
    pub proof fn lemma_bits(&self)
        requires
            self.wf(),
        ensures
            self@.bits == byte_bits(self.data()).take(self@.limit as int),
            self@.limit <= 8 * self.data().len(),
    {
        self.reader.lemma_wf();
    }
}

impl<'a> Stream for ReadStream<'a> {
    closed spec fn wf(&self) -> bool {
        &&& self.reader.wf()
        &&& self.error == ProtocolError::NoError || self.error == ProtocolError::StreamOverflow
    }

    closed spec fn view(&self) -> StreamView {
        StreamView {
            writing: false,
            bits: self.reader.bits(),
            position: self.reader.position(),
            limit: self.reader.limit(),
            storage: self.reader.data().len(),
            error: self.error,
        }
    }

    proof fn lemma_stream(&self) {
        self.reader.lemma_wf();
    }

    fn is_reading(&self) -> (reading: bool) {
        true
    }

    fn is_writing(&self) -> (writing: bool) {
        false
    }

    fn serialise_int(&mut self, value: &mut i32, min: i32, max: i32) -> (ok: bool)
        ensures
            final(self).data() == old(self).data(),
    {
        let bits: u32 = bits_required_for(min, max);
        if self.reader.would_read_past_end(bits) {
            self.error = ProtocolError::StreamOverflow;
            return false;
        }
        let unsigned_val: u32 = self.reader.read_bits(bits);
        let read: i64 = unsigned_val as i64 + min as i64;
        if read > max as i64 {
            return false;
        }
        *value = read as i32;
        true
    }

    fn serialize_bits(&mut self, value: &mut u32, bits: u32) -> (ok: bool)
        ensures
            final(self).data() == old(self).data(),
    {
        if self.reader.would_read_past_end(bits) {
            self.error = ProtocolError::StreamOverflow;
            return false;
        }
        *value = self.reader.read_bits(bits);
        true
    }

    fn serialize_align(&mut self) -> (ok: bool)
        ensures
            final(self).data() == old(self).data(),
    {
        let align_bits: u32 = self.reader.get_align_bits();
        proof {
            self.reader.lemma_wf();
        }
        if self.reader.would_read_past_end(align_bits) {
            self.error = ProtocolError::StreamOverflow;
            return false;
        }
        self.reader.read_align()
    }

    #[verifier::rlimit(50)]
    fn serialize_bytes(&mut self, bytes: &mut Vec<u8>, num_bytes: u32) -> (ok: bool)
        ensures
            final(self).data() == old(self).data(),
    {
        if !self.serialize_align() {
            return false;
        }
        if num_bytes > self.reader.get_bits_remaining() / 8 {
            self.error = ProtocolError::StreamOverflow;
            return false;
        }
        let ghost start = self.reader.position();
        let ghost dst = bytes@;
        self.reader.read_bytes(bytes, num_bytes);
        proof {
            self.reader.lemma_wf();
            let data = self.reader.data();
            let got = data.subrange(start as int / 8, start as int / 8 + num_bytes);
            let want = bytes_at(self.reader.bits(), start, num_bytes as nat);
            assert forall|i: int| 0 <= i < num_bytes implies got[i] == want[i] by {
                let p = start as int / 8 + i;
                lemma_field_is_byte(data, p);
                assert(self.reader.bits().subrange(8 * p, 8 * p + 8) =~= byte_bits(data).subrange(
                    8 * p,
                    8 * p + 8,
                ));
            }
            assert(got =~= want);
        }
        true
    }

    fn serialize_check(&mut self, marker: &mut String) -> (ok: bool)
        ensures
            final(self).data() == old(self).data(),
    {
        self.serialize_align();
        let mut val: u32 = 0;
        if !self.serialize_bits(&mut val, 32) {
            return false;
        }
        let hash: u32 = hash_string(marker);
        hash == val
    }

    fn get_bytes_processed(&self) -> (n: u32) {
        proof {
            self.reader.lemma_wf();
        }
        ((self.reader.get_bits_read() as u64 + 7) / 8) as u32
    }

    fn get_bits_processed(&self) -> (n: u32) {
        self.reader.get_bits_read()
    }

    fn get_bits_remaining(&self) -> (n: u32) {
        self.reader.get_bits_remaining()
    }

    fn get_error(&self) -> (error: ProtocolError) {
        self.error
    }
}

} // verus!
