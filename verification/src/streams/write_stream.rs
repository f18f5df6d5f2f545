//! The writing stream.
use vstd::prelude::*;

use crate::bitpacker::bit_writer::BitWriter;
use crate::bitpacker::{
    byte_bits, holds_flushed, same_from, value_bits, words_spanned, zero_bits,
};
use crate::constants::{Buffer, ProtocolError};
use crate::helpers::hash_string;
use crate::streams::{bits_required_for, Stream, StreamView};

verus! {

/// A stream that writes into a buffer of its own through a `BitWriter`.
pub struct WriteStream {
    writer: BitWriter,
    error: ProtocolError,
}

impl WriteStream {
    /// The bytes of the underlying buffer as they stand now.
    pub closed spec fn buffer(&self) -> Seq<u8> {
        self.writer.buffer()
    }

    /// A stream at the start of `buffer`, with room for `buffer_size` bytes.
    pub fn new(buffer: Buffer, buffer_size: usize) -> (stream: WriteStream)
        requires
            buffer_size % 4 == 0,
            buffer_size <= buffer@.len(),
            8 * buffer_size <= u32::MAX,
        ensures
            stream.wf(),
            stream@ == (StreamView {
                writing: true,
                bits: Seq::<bool>::empty(),
                position: 0,
                limit: (8 * buffer_size) as nat,
                storage: buffer@.len(),
                error: ProtocolError::NoError,
            }),
            stream.buffer() == buffer@,
    {
        WriteStream { writer: BitWriter::new(buffer, buffer_size), error: ProtocolError::NoError }
    }

    /// A writing stream writes, and its storage is its buffer.
    pub proof fn lemma_writing(&self)
        ensures
            self@.writing,
            self@.storage == self.buffer().len(),
    {
    }

    /// Puts the bits that wait in the scratch into the buffer, padded with
    /// zero bits to a whole word. A write pass ends with this.
    pub fn flush(&mut self)
        requires
            old(self).wf(),
        ensures
            final(self).wf(),
            final(self)@ == old(self)@,
            byte_bits(final(self).buffer().take(4 * words_spanned(old(self)@.position)))
                == old(self)@.bits + zero_bits(
                (32 * words_spanned(old(self)@.position) - old(self)@.position) as nat,
            ),
            holds_flushed(final(self).buffer(), old(self)@.bits),
            same_from(
                final(self).buffer(),
                old(self).buffer(),
                4 * words_spanned(old(self)@.position),
            ),
    {
        self.writer.flush();
    }

    /// Ends the write pass and hands the buffer back.
    pub fn into_buffer(self) -> (buffer: Buffer)
        ensures
            buffer@ == self.buffer(),
    {
        self.writer.into_buffer()
    }
}

impl Stream for WriteStream {
    closed spec fn wf(&self) -> bool {
        &&& self.writer.wf()
        &&& self.error == ProtocolError::NoError || self.error == ProtocolError::StreamOverflow
    }

    closed spec fn view(&self) -> StreamView {
        StreamView {
            writing: true,
            bits: self.writer.bits(),
            position: self.writer.bits().len(),
            limit: self.writer.capacity(),
            storage: self.writer.buffer().len(),
            error: self.error,
        }
    }

    proof fn lemma_stream(&self) {
        self.writer.lemma_wf();
    }

    fn is_reading(&self) -> (reading: bool) {
        false
    }

    fn is_writing(&self) -> (writing: bool) {
        true
    }

    fn serialise_int(&mut self, value: &mut i32, min: i32, max: i32) -> (ok: bool)
        ensures
            same_from(
                final(self).buffer(),
                old(self).buffer(),
                4 * words_spanned(final(self)@.position),
            ),
    {
        let bits: u32 = bits_required_for(min, max);
        let unsigned_val: u32 = ((*value as i64) - (min as i64)) as u32;
        self.writer.write_bits(unsigned_val, bits);
        true
    }

    fn serialize_bits(&mut self, value: &mut u32, bits: u32) -> (ok: bool)
        ensures
            same_from(
                final(self).buffer(),
                old(self).buffer(),
                4 * words_spanned(final(self)@.position),
            ),
    {
        self.writer.write_bits(*value, bits);
        true
    }

    fn serialize_align(&mut self) -> (ok: bool)
        ensures
            same_from(
                final(self).buffer(),
                old(self).buffer(),
                4 * words_spanned(final(self)@.position),
            ),
    {
        self.writer.write_align()
    }

    fn serialize_bytes(&mut self, bytes: &mut Vec<u8>, num_bytes: u32) -> (ok: bool)
        ensures
            same_from(
                final(self).buffer(),
                old(self).buffer(),
                4 * words_spanned(final(self)@.position),
            ),
    {
        let ghost start = self.writer.bits();
        if !self.serialize_align() {
            return false;
        }
        let ghost padded = self.writer.bits();
        let done = self.writer.write_bytes(bytes, num_bytes);
        proof {
            assert(words_spanned(padded.len()) <= words_spanned(self.writer.bits().len()));
            let block = byte_bits(bytes@.take(num_bytes as int));
            assert(self.writer.bits() =~= start + (padded.skip(start.len() as int) + block));
            assert(padded.skip(start.len() as int) =~= zero_bits(
                (padded.len() - start.len()) as nat,
            ));
        }
        done
    }

    fn serialize_check(&mut self, marker: &mut String) -> (ok: bool)
        ensures
            same_from(
                final(self).buffer(),
                old(self).buffer(),
                4 * words_spanned(final(self)@.position),
            ),
    {
        let ghost start = self.writer.bits();
        self.serialize_align();
        let ghost padded = self.writer.bits();
        let hash: u32 = hash_string(marker);
        self.writer.write_bits(hash, 32);
        proof {
            assert(words_spanned(padded.len()) <= words_spanned(self.writer.bits().len()));
            assert(self.writer.bits() =~= start + (padded.skip(start.len() as int)
                + value_bits(hash as u64, 32)));
            assert(padded.skip(start.len() as int) =~= zero_bits(
                (padded.len() - start.len()) as nat,
            ));
        }
        true
    }

    fn get_bytes_processed(&self) -> (n: u32) {
        self.writer.get_bytes_written()
    }

    fn get_bits_processed(&self) -> (n: u32) {
        self.writer.get_bits_written()
    }

    fn get_bits_remaining(&self) -> (n: u32) {
        self.writer.get_bits_available()
    }

    fn get_error(&self) -> (error: ProtocolError) {
        self.error
    }
}

} // verus!
