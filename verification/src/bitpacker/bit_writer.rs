//! The writing cursor of the bit engine.
use vstd::prelude::*;

use crate::bitpacker::{
    align_gap, byte_bits, holds_flushed, lemma_byte_bits_concat, lemma_byte_bits_step,
    lemma_head_reaches_word, lemma_scratch_append, lemma_scratch_commit, lemma_scratch_flush,
    lemma_zero_value_bits, same_from, value_bits, word_bytes, words_spanned, zero_bits,
};
use crate::constants::Buffer;

verus! {

/// Packs spans of 1 to 32 bits into a word-aligned byte buffer.
///
/// Bits gather in a 64-bit scratch value. Whenever 32 or more of them are
/// there, the low word leaves for the buffer, least significant byte first.
/// The writer owns the buffer while it writes; `into_buffer` hands it back.
pub struct BitWriter {
    buffer: Vec<u8>,
    scratch: u64,
    num_bits: u32,
    num_words: u32,
    bits_written: u32,
    word_index: u32,
    scratch_bits: u32,
}

impl BitWriter {
    /// The invariant of a writer: the scratch holds fewer than 32 bits, all
    /// of them below its fill mark, and the counters agree with one another
    /// and with the buffer's size.
    pub closed spec fn wf(&self) -> bool {
        &&& self.num_bits == 32 * self.num_words
        &&& 4 * self.num_words <= self.buffer@.len()
        &&& self.scratch_bits < 32
        &&& self.bits_written == 32 * self.word_index + self.scratch_bits
        &&& self.bits_written <= self.num_bits
        &&& self.scratch >> (self.scratch_bits as u64) == 0
    }

    /// The bits written so far, in stream order.
    #[verifier::opaque]
    pub closed spec fn bits(&self) -> Seq<bool> {
        byte_bits(self.buffer@.take(4 * self.word_index)) + value_bits(
            self.scratch,
            self.scratch_bits as nat,
        )
    }

    /// The number of bits that the writer has room for in all.
    pub closed spec fn capacity(&self) -> nat {
        self.num_bits as nat
    }

    /// The bytes of the underlying buffer as they stand now. Bits still in
    /// the scratch are not in them before `flush`.
    pub closed spec fn buffer(&self) -> Seq<u8> {
        self.buffer@
    }

    /// What the invariant says of the public view.
    pub proof fn lemma_wf(&self)
        requires
            self.wf(),
        ensures
            self.bits().len() <= self.capacity(),
            self.capacity() % 32 == 0,
            self.capacity() <= 8 * self.buffer().len(),
            self.capacity() <= u32::MAX,
    {
        reveal(BitWriter::bits);
    }

    proof fn lemma_len(&self)
        requires
            self.wf(),
        ensures
            self.bits().len() == self.bits_written,
            words_spanned(self.bits().len()) == if self.scratch_bits == 0 {
                self.word_index as int
            } else {
                self.word_index + 1
            },
            self.scratch_bits > 0 ==> self.word_index < self.num_words,
            self.bits() == byte_bits(self.buffer@.take(4 * self.word_index)) + value_bits(
                self.scratch,
                self.scratch_bits as nat,
            ),
    {
        reveal(BitWriter::bits);
    }

    /// A writer at the start of `buffer`, with room for `buffer_size` bytes.
    pub fn new(buffer: Buffer, buffer_size: usize) -> (writer: BitWriter)
        requires
            buffer_size % 4 == 0,
            buffer_size <= buffer@.len(),
            8 * buffer_size <= u32::MAX,
        ensures
            writer.wf(),
            writer.bits() == Seq::<bool>::empty(),
            writer.capacity() == 8 * buffer_size,
            writer.buffer() == buffer@,
    {
        let num_words: u32 = (buffer_size / 4) as u32;
        let writer = BitWriter {
            buffer,
            scratch: 0,
            scratch_bits: 0,
            word_index: 0,
            bits_written: 0,
            num_words,
            num_bits: num_words * 32,
        };
        proof {
            reveal(BitWriter::bits);
            assert(0u64 >> 0u64 == 0) by (bit_vector);
            assert(writer.bits() =~= Seq::<bool>::empty());
        }
        writer
    }

    /// Appends zero bits up to the next byte boundary.
    #[verifier::rlimit(50)]
    pub fn write_align(&mut self) -> (aligned: bool)
        requires
            old(self).wf(),
        ensures
            aligned,
            final(self).wf(),
            final(self).bits() == old(self).bits() + zero_bits(align_gap(old(self).bits().len())),
            final(self).capacity() == old(self).capacity(),
            same_from(
                final(self).buffer(),
                old(self).buffer(),
                4 * words_spanned(final(self).bits().len()),
            ),
    {
        let remainder_bits: u32 = self.bits_written % 8;
        proof {
            self.lemma_len();
        }
        if remainder_bits != 0 {
            self.write_bits(0, 8 - remainder_bits);
            proof {
                lemma_zero_value_bits((8 - remainder_bits) as nat);
                self.lemma_len();
            }
            return (self.bits_written % 8) == 0;
        }
        proof {
            assert(self.bits() + zero_bits(0) =~= self.bits());
        }
        true
    }

    /// Puts the bits that wait in the scratch into the buffer, padded with
    /// zero bits to a whole word. The writer's position does not move, so a
    /// write pass may go on after a flush; it must end with one.
    pub fn flush(&mut self)
        requires
            old(self).wf(),
        ensures
            final(self).wf(),
            final(self).bits() == old(self).bits(),
            final(self).capacity() == old(self).capacity(),
            byte_bits(final(self).buffer().take(4 * words_spanned(old(self).bits().len())))
                == old(self).bits() + zero_bits(
                (32 * words_spanned(old(self).bits().len()) - old(self).bits().len()) as nat,
            ),
            holds_flushed(final(self).buffer(), old(self).bits()),
            same_from(
                final(self).buffer(),
                old(self).buffer(),
                4 * words_spanned(old(self).bits().len()),
            ),
    {
        let ghost before = self.buffer@;
        proof {
            reveal(BitWriter::bits);
            self.lemma_len();
        }
        if self.scratch_bits != 0 {
            self.store_word();
            proof {
                let w = self.word_index as int;
                let s = self.scratch;
                let k = self.scratch_bits as u64;
                assert(self.buffer@.take(4 * w + 4) =~= before.take(4 * w) + word_bytes(s));
                assert(self.buffer@.take(4 * w) =~= before.take(4 * w));
                lemma_byte_bits_concat(before.take(4 * w), word_bytes(s));
                lemma_scratch_flush(s, k);
                assert(byte_bits(self.buffer@.take(4 * w + 4)) =~= self.bits() + zero_bits(
                    (32 - k) as nat,
                ));
            }
        } else {
            proof {
                assert(self.bits() =~= byte_bits(self.buffer@.take(4 * self.word_index)));
                assert(self.bits() + zero_bits(0) =~= self.bits());
            }
        }
    }

    /// Writes the low word of the scratch at the writer's word position.
    fn store_word(&mut self)
        requires
            4 * old(self).word_index + 4 <= old(self).buffer@.len(),
        ensures
            final(self).buffer@ == old(self).buffer@.update(
                4 * old(self).word_index,
                word_bytes(old(self).scratch)[0],
            ).update(4 * old(self).word_index + 1, word_bytes(old(self).scratch)[1]).update(
                4 * old(self).word_index + 2,
                word_bytes(old(self).scratch)[2],
            ).update(4 * old(self).word_index + 3, word_bytes(old(self).scratch)[3]),
            final(self).scratch == old(self).scratch,
            final(self).num_bits == old(self).num_bits,
            final(self).num_words == old(self).num_words,
            final(self).bits_written == old(self).bits_written,
            final(self).word_index == old(self).word_index,
            final(self).scratch_bits == old(self).scratch_bits,
    {
        let len: usize = self.buffer.len();
        let base: usize = (self.word_index as usize) * 4;
        let s: u64 = self.scratch;
        let b0: u8 = #[verifier::truncate] ((s & 0xff) as u8);
        let b1: u8 = #[verifier::truncate] (((s >> 8) & 0xff) as u8);
        let b2: u8 = #[verifier::truncate] (((s >> 16) & 0xff) as u8);
        let b3: u8 = #[verifier::truncate] (((s >> 24) & 0xff) as u8);
        self.buffer.set(base, b0);
        self.buffer.set(base + 1, b1);
        self.buffer.set(base + 2, b2);
        self.buffer.set(base + 3, b3);
    }

    /// Appends the `num_bits` low bits of `val_to_write`, least significant
    /// first.
    #[verifier::rlimit(50)]
    pub fn write_bits(&mut self, val_to_write: u32, num_bits: u32)
        requires
            old(self).wf(),
            1 <= num_bits <= 32,
            old(self).bits().len() + num_bits <= old(self).capacity(),
        ensures
            final(self).wf(),
            final(self).bits() == old(self).bits() + value_bits(
                val_to_write as u64,
                num_bits as nat,
            ),
            final(self).capacity() == old(self).capacity(),
            same_from(
                final(self).buffer(),
                old(self).buffer(),
                4 * words_spanned(final(self).bits().len()),
            ),
    {
        let ghost before = self.buffer@;
        let ghost old_bits = self.bits();
        let ghost s0 = self.scratch;
        let ghost k = self.scratch_bits as u64;
        let ghost w = self.word_index as int;
        let ghost appended = value_bits(val_to_write as u64, num_bits as nat);
        let n: u64 = num_bits as u64;
        proof {
            reveal(BitWriter::bits);
            self.lemma_len();
        }
        assert(1u64 << n >= 1) by (bit_vector)
            requires
                n <= 32,
        ;
        let mask: u64 = (1u64 << n) - 1;
        let value: u64 = (val_to_write as u64) & mask;
        self.scratch = self.scratch | (value << (self.scratch_bits as u64));
        self.scratch_bits = self.scratch_bits + num_bits;
        let ghost s2 = self.scratch;
        proof {
            lemma_scratch_append(s0, k, val_to_write as u64, n);
            assert(value_bits(s2, (k + n) as nat) == value_bits(s0, k as nat) + appended);
        }
        if self.scratch_bits >= 32 {
            self.store_word();
            self.scratch = self.scratch >> 32;
            self.scratch_bits = self.scratch_bits - 32;
            self.word_index = self.word_index + 1;
            proof {
                lemma_scratch_commit(s2, (k + n) as u64);
                assert(self.buffer@.take(4 * w + 4) =~= before.take(4 * w) + word_bytes(s2));
                lemma_byte_bits_concat(before.take(4 * w), word_bytes(s2));
                assert(self.bits() == byte_bits(before.take(4 * w)) + byte_bits(word_bytes(s2))
                    + value_bits(s2 >> 32, (k + n - 32) as nat));
                assert(self.bits() =~= byte_bits(before.take(4 * w)) + (byte_bits(word_bytes(s2))
                    + value_bits(s2 >> 32, (k + n - 32) as nat)));
                assert(self.bits() =~= old_bits + appended);
            }
        } else {
            proof {
                assert(self.bits() =~= old_bits + appended);
            }
        }
        self.bits_written = self.bits_written + num_bits;
    }

    /// Appends `count` bytes of `bytes` from index `start`, eight bits at a
    /// time.
    fn write_bytes_through_scratch(&mut self, bytes: &Vec<u8>, start: u32, count: u32)
        requires
            old(self).wf(),
            old(self).bits().len() + 8 * count <= old(self).capacity(),
            start + count <= bytes@.len(),
        ensures
            final(self).wf(),
            final(self).bits() == old(self).bits() + byte_bits(
                bytes@.subrange(start as int, start + count),
            ),
            final(self).capacity() == old(self).capacity(),
            same_from(
                final(self).buffer(),
                old(self).buffer(),
                4 * words_spanned(final(self).bits().len()),
            ),
    {
        let ghost old_bits = self.bits();
        let ghost block = bytes@.subrange(start as int, start + count);
        proof {
            assert(block.take(0) =~= Seq::<u8>::empty());
            assert(old_bits + byte_bits(block.take(0)) =~= old_bits);
        }
        let len: usize = bytes.len();
        let mut i: u32 = 0;
        while i < count
            invariant
                i <= count,
                len == bytes@.len(),
                start + count <= bytes@.len(),
                block == bytes@.subrange(start as int, start + count),
                self.wf(),
                self.bits() == old_bits + byte_bits(block.take(i as int)),
                old_bits.len() + 8 * count <= self.capacity(),
                self.capacity() == old(self).capacity(),
                same_from(self.buffer(), old(self).buffer(), 4 * words_spanned(self.bits().len())),
            decreases count - i,
        {
            self.write_bits(bytes[start as usize + i as usize] as u32, 8);
            proof {
                lemma_byte_bits_step(block, i as int);
                assert(self.bits() =~= old_bits + byte_bits(block.take(i + 1)));
            }
            i = i + 1;
        }
        proof {
            assert(block.take(count as int) =~= block);
        }
    }

    /// Copies `num_words` whole words of `bytes` from index `start` straight
    /// into the buffer. The writer stands at a word boundary.
    fn write_words(&mut self, bytes: &Vec<u8>, start: u32, num_words: u32)
        requires
            old(self).wf(),
            old(self).bits().len() % 32 == 0,
            old(self).bits().len() + 32 * num_words <= old(self).capacity(),
            start + 4 * num_words <= bytes@.len(),
        ensures
            final(self).wf(),
            final(self).bits() == old(self).bits() + byte_bits(
                bytes@.subrange(start as int, start + 4 * num_words),
            ),
            final(self).capacity() == old(self).capacity(),
            same_from(
                final(self).buffer(),
                old(self).buffer(),
                4 * words_spanned(final(self).bits().len()),
            ),
    {
        let ghost before = self.buffer@;
        let ghost old_bits = self.bits();
        let ghost w = self.word_index as int;
        let ghost block = bytes@.subrange(start as int, start + 4 * num_words);
        proof {
            reveal(BitWriter::bits);
            self.lemma_len();
        }
        let len: usize = self.buffer.len();
        let src_len: usize = bytes.len();
        let base: usize = (self.word_index as usize) * 4;
        let count: usize = (num_words as usize) * 4;
        let first: usize = start as usize;
        let mut j: usize = 0;
        while j < count
            invariant
                j <= count,
                len == before.len(),
                src_len == bytes@.len(),
                base + count <= before.len(),
                first + count <= bytes@.len(),
                self.buffer@.len() == before.len(),
                forall|x: int| 0 <= x < before.len() && !(base <= x < base + j)
                    ==> self.buffer@[x] == before[x],
                forall|x: int|
                    base <= x < base + j ==> #[trigger] self.buffer@[x] == bytes@[first + x - base],
                self.scratch == old(self).scratch,
                self.num_bits == old(self).num_bits,
                self.num_words == old(self).num_words,
                self.bits_written == old(self).bits_written,
                self.word_index == old(self).word_index,
                self.scratch_bits == old(self).scratch_bits,
            decreases count - j,
        {
            let b = bytes[first + j];
            self.buffer.set(base + j, b);
            j = j + 1;
        }
        self.bits_written = self.bits_written + num_words * 32;
        self.word_index = self.word_index + num_words;
        proof {
            assert(self.buffer@.take(base + count) =~= before.take(base as int) + block);
            lemma_byte_bits_concat(before.take(base as int), block);
            assert(value_bits(self.scratch, 0) =~= Seq::<bool>::empty());
            assert(old_bits =~= byte_bits(before.take(base as int)));
            assert(self.bits() =~= old_bits + byte_bits(block));
            self.lemma_len();
        }
    }

    /// Appends the first `num_bytes` bytes of `bytes`. Whole words in the
    /// middle of the block go to the buffer directly; the bytes before the
    /// first word boundary and after the last go through the scratch.
    #[verifier::rlimit(50)]
    pub fn write_bytes(&mut self, bytes: &mut Vec<u8>, num_bytes: u32) -> (done: bool)
        requires
            old(self).wf(),
            old(self).bits().len() % 8 == 0,
            old(self).bits().len() + 8 * num_bytes <= old(self).capacity(),
            num_bytes <= old(bytes)@.len(),
        ensures
            done,
            *final(bytes) == *old(bytes),
            final(self).wf(),
            final(self).bits() == old(self).bits() + byte_bits(
                old(bytes)@.take(num_bytes as int),
            ),
            final(self).capacity() == old(self).capacity(),
            same_from(
                final(self).buffer(),
                old(self).buffer(),
                4 * words_spanned(final(self).bits().len()),
            ),
    {
        let ghost old_bits = self.bits();
        let ghost src = bytes@;
        proof {
            self.lemma_len();
            lemma_head_reaches_word(old_bits.len());
        }
        let mut head_bytes: u32 = (4 - (self.bits_written % 32) / 8) % 4;
        if head_bytes > num_bytes {
            head_bytes = num_bytes;
        }
        self.write_bytes_through_scratch(bytes, 0, head_bytes);
        assert(self.bits() == old_bits + byte_bits(src.take(head_bytes as int))) by {
            assert(src.subrange(0, head_bytes as int) =~= src.take(head_bytes as int));
        }
        if head_bytes == num_bytes {
            return true;
        }
        let num_words: u32 = (num_bytes - head_bytes) / 4;
        let tail_bytes_start: u32 = head_bytes + num_words * 4;
        let tail_bytes: u32 = num_bytes - tail_bytes_start;
        assert(self.bits().len() == old_bits.len() + 8 * head_bytes);
        assert(self.bits().len() % 32 == 0);
        let ghost after_head = self.buffer();
        let ghost head_len = self.bits().len();
        if num_words > 0 {
            self.write_words(bytes, head_bytes, num_words);
        }
        let ghost after_words = self.buffer();
        let ghost words_len = self.bits().len();
        assert(same_from(after_words, old(self).buffer(), 4 * words_spanned(words_len))) by {
            assert(words_spanned(head_len) <= words_spanned(words_len));
            assert(same_from(after_head, old(self).buffer(), 4 * words_spanned(head_len)));
            assert(same_from(after_words, after_head, 4 * words_spanned(words_len)));
        }
        assert(self.bits() == old_bits + byte_bits(src.take(tail_bytes_start as int))) by {
            if num_words > 0 {
                let block = src.subrange(head_bytes as int, tail_bytes_start as int);
                assert(src.take(tail_bytes_start as int) =~= src.take(head_bytes as int) + block);
                lemma_byte_bits_concat(src.take(head_bytes as int), block);
                assert(old_bits + byte_bits(src.take(head_bytes as int)) + byte_bits(block)
                    =~= old_bits + (byte_bits(src.take(head_bytes as int)) + byte_bits(block)));
            }
        }
        assert(self.bits().len() == old_bits.len() + 8 * tail_bytes_start);
        self.write_bytes_through_scratch(bytes, tail_bytes_start, tail_bytes);
        assert(same_from(
            self.buffer(),
            old(self).buffer(),
            4 * words_spanned(self.bits().len()),
        )) by {
            assert(words_spanned(words_len) <= words_spanned(self.bits().len()));
            assert(same_from(self.buffer(), after_words, 4 * words_spanned(self.bits().len())));
        }
        assert(self.bits() == old_bits + byte_bits(src.take(num_bytes as int))) by {
            let block = src.subrange(tail_bytes_start as int, num_bytes as int);
            assert(src.take(num_bytes as int) =~= src.take(tail_bytes_start as int) + block);
            lemma_byte_bits_concat(src.take(tail_bytes_start as int), block);
            assert(old_bits + byte_bits(src.take(tail_bytes_start as int)) + byte_bits(block)
                =~= old_bits + (byte_bits(src.take(tail_bytes_start as int)) + byte_bits(block)));
        }
        true
    }

    /// Number of bits written so far.
    pub fn get_bits_written(&self) -> (n: u32)
        requires
            self.wf(),
        ensures
            n == self.bits().len(),
    {
        proof {
            self.lemma_len();
        }
        self.bits_written
    }

    /// Number of bytes that hold the bits written so far.
    pub fn get_bytes_written(&self) -> (n: u32)
        requires
            self.wf(),
        ensures
            n == (self.bits().len() + 7) / 8,
    {
        proof {
            self.lemma_len();
        }
        (self.bits_written + 7) / 8
    }

    /// Number of bytes that the writer has room for in all.
    pub fn get_total_bytes(&self) -> (n: u32)
        requires
            self.wf(),
        ensures
            8 * n == self.capacity(),
    {
        self.num_words * 4
    }

    /// Number of bits that can still be written.
    pub fn get_bits_available(&self) -> (n: u32)
        requires
            self.wf(),
        ensures
            n == self.capacity() - self.bits().len(),
    {
        proof {
            self.lemma_len();
        }
        self.num_bits - self.bits_written
    }

    /// Number of bits between the writer's position and the next byte
    /// boundary.
    pub fn get_align_bits(&self) -> (n: u32)
        requires
            self.wf(),
        ensures
            n == align_gap(self.bits().len()),
    {
        proof {
            self.lemma_len();
        }
        (8 - (self.bits_written % 8)) % 8
    }

    /// Ends the write pass and hands the buffer back.
    pub fn into_buffer(self) -> (buffer: Buffer)
        ensures
            buffer@ == self.buffer(),
    {
        self.buffer
    }
}

} // verus!
