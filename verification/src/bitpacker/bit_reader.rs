//! The reading cursor of the bit engine.
use vstd::prelude::*;

use crate::bitpacker::{
    align_gap, byte_bits, field_value, lemma_field_is_byte, lemma_scratch_load,
    lemma_scratch_take, value_bits, words_spanned,
};
use crate::constants::Buffer;

verus! {

/// Reads spans of 1 to 32 bits out of a word-aligned byte buffer, in the
/// order in which a `BitWriter` put them there.
pub struct BitReader<'a> {
    buffer: &'a Vec<u8>,
    scratch: u64,
    scratch_bits: u32,
    num_bits: u32,
    num_bits_read: u32,
    word_index: u32,
}

impl<'a> BitReader<'a> {
    /// The invariant of a reader: the buffer is word-aligned, the scratch
    /// holds fewer than 32 bits, and those are the bits of the buffer that
    /// come next.
    pub closed spec fn wf(&self) -> bool {
        &&& self.buffer@.len() % 4 == 0
        &&& self.num_bits % 8 == 0
        &&& self.num_bits <= 8 * self.buffer@.len()
        &&& self.num_bits_read <= self.num_bits
        &&& self.scratch_bits < 32
        &&& self.num_bits_read + self.scratch_bits == 32 * self.word_index
        &&& 4 * self.word_index <= self.buffer@.len()
        &&& self.scratch >> (self.scratch_bits as u64) == 0
        &&& value_bits(self.scratch, self.scratch_bits as nat) == byte_bits(self.buffer@).subrange(
            self.num_bits_read as int,
            self.num_bits_read + self.scratch_bits,
        )
    }

    /// The bytes of the underlying buffer.
    pub closed spec fn data(&self) -> Seq<u8> {
        self.buffer@
    }

    /// The number of bits that may be read in all.
    pub closed spec fn limit(&self) -> nat {
        self.num_bits as nat
    }

    /// The number of bits read so far.
    pub closed spec fn position(&self) -> nat {
        self.num_bits_read as nat
    }

    /// The bits that the reader works through: those of the underlying
    /// bytes, up to the limit.
    pub open spec fn bits(&self) -> Seq<bool> {
        byte_bits(self.data()).take(self.limit() as int)
    }

    /// What the invariant says of the public view.
    pub proof fn lemma_wf(&self)
        requires
            self.wf(),
        ensures
            self.position() <= self.limit(),
            self.limit() % 8 == 0,
            self.limit() <= 8 * self.data().len(),
            self.limit() <= u32::MAX,
            self.bits().len() == self.limit(),
            self.data().len() % 4 == 0,
    {
    }

    /// A reader at the start of `buffer` that may read its first `bytes`
    /// bytes.
    pub fn new(buffer: &'a mut Buffer, bytes: usize) -> (reader: BitReader<'a>)
        requires
            old(buffer)@.len() % 4 == 0,
            bytes <= old(buffer)@.len(),
            8 * bytes <= u32::MAX,
        ensures
            final(buffer)@ == old(buffer)@,
            reader.wf(),
            reader.data() == old(buffer)@,
            reader.limit() == 8 * bytes,
            reader.position() == 0,
    {
        let reader = BitReader {
            scratch: 0,
            scratch_bits: 0,
            num_bits: (bytes as u32) * 8,
            num_bits_read: 0,
            word_index: 0,
            buffer,
        };
        proof {
            assert(0u64 >> 0u64 == 0) by (bit_vector);
            assert(value_bits(0, 0) =~= byte_bits(reader.buffer@).subrange(0, 0));
        }
        reader
    }

    /// Index of the next word that the reader will load.
    pub fn get_word_index(&self) -> (index: usize)
        requires
            self.wf(),
        ensures
            index == words_spanned(self.position()),
    {
        self.word_index as usize
    }

    /// Whether reading `bits` more bits would go past the limit.
    pub fn would_read_past_end(&self, bits: u32) -> (past: bool)
        ensures
            past == (self.position() + bits > self.limit()),
    {
        self.num_bits_read as u64 + bits as u64 > self.num_bits as u64
    }

    /// Reads the padding up to the next byte boundary. The result tells
    /// whether every padding bit was zero.
    #[verifier::rlimit(50)]
    pub fn read_align(&mut self) -> (clean: bool)
        requires
            old(self).wf(),
        ensures
            final(self).wf(),
            final(self).data() == old(self).data(),
            final(self).limit() == old(self).limit(),
            final(self).position() == old(self).position() + align_gap(old(self).position()),
            clean == (field_value(
                old(self).bits(),
                old(self).position(),
                align_gap(old(self).position()),
            ) == 0),
    {
        let remainder_bits: u32 = self.num_bits_read % 8;
        if remainder_bits != 0 {
            let val: u32 = self.read_bits(8 - remainder_bits);
            if (self.num_bits_read % 8) != 0 {
                return false;
            }
            if val != 0 {
                return false;
            }
        } else {
            proof {
                let p = self.position() as int;
                assert(self.bits().subrange(p, p) =~= Seq::<bool>::empty());
            }
        }
        true
    }

    /// Reads the next `bits` bits as a number, the first bit read being the
    /// least significant.
    #[verifier::rlimit(50)]
    pub fn read_bits(&mut self, bits: u32) -> (value: u32)
        requires
            old(self).wf(),
            1 <= bits <= 32,
            old(self).position() + bits <= old(self).limit(),
        ensures
            final(self).wf(),
            final(self).data() == old(self).data(),
            final(self).limit() == old(self).limit(),
            final(self).position() == old(self).position() + bits,
            value == field_value(old(self).bits(), old(self).position(), bits as nat),
    {
        let ghost all = byte_bits(self.buffer@);
        let ghost p = self.num_bits_read as int;
        let ghost k = self.scratch_bits as u64;
        let ghost s0 = self.scratch;
        let n: u64 = bits as u64;
        if self.scratch_bits < bits {
            let base: usize = (self.word_index as usize) * 4;
            let b0: u8 = self.buffer[base];
            let b1: u8 = self.buffer[base + 1];
            let b2: u8 = self.buffer[base + 2];
            let b3: u8 = self.buffer[base + 3];
            let word: u64 = (b0 as u64) | ((b1 as u64) << 8) | ((b2 as u64) << 16) | ((b3 as u64)
                << 24);
            self.scratch = self.scratch | (word << (self.scratch_bits as u64));
            self.scratch_bits = self.scratch_bits + 32;
            self.word_index = self.word_index + 1;
            proof {
                lemma_scratch_load(s0, k, b0, b1, b2, b3);
                assert(byte_bits(seq![b0, b1, b2, b3]) =~= all.subrange(p + k, p + k + 32));
                assert(value_bits(self.scratch, (k + 32) as nat) =~= all.subrange(p, p + k + 32));
            }
        }
        let ghost total = self.scratch_bits as u64;
        let ghost s1 = self.scratch;
        assert(1u64 << n >= 1) by (bit_vector)
            requires
                n <= 32,
        ;
        let mask: u64 = (1u64 << n) - 1;
        proof {
            lemma_scratch_take(s1, total, n);
        }
        let output: u32 = (self.scratch & mask) as u32;
        self.scratch = self.scratch >> n;
        self.scratch_bits = self.scratch_bits - bits;
        self.num_bits_read = self.num_bits_read + bits;
        proof {
            assert(all.subrange(p, p + total).take(n as int) =~= all.subrange(p, p + n));
            assert(all.subrange(p, p + total).skip(n as int) =~= all.subrange(p + n, p + total));
            assert(old(self).bits().subrange(p, p + n) =~= all.subrange(p, p + n));
        }
        output
    }

    /// Reads `num_bytes` bytes into the front of `bytes`. Whole words in the
    /// middle of the block come from the buffer directly; the bytes before
    /// the first word boundary and after the last come through the scratch.
    #[verifier::rlimit(50)]
    pub fn read_bytes(&mut self, bytes: &mut Vec<u8>, num_bytes: u32)
        requires
            old(self).wf(),
            old(self).position() % 8 == 0,
            old(self).position() + 8 * num_bytes <= old(self).limit(),
            num_bytes <= old(bytes)@.len(),
        ensures
            final(self).wf(),
            final(self).data() == old(self).data(),
            final(self).limit() == old(self).limit(),
            final(self).position() == old(self).position() + 8 * num_bytes,
            final(bytes)@ == old(self).data().subrange(
                old(self).position() as int / 8,
                old(self).position() as int / 8 + num_bytes,
            ) + old(bytes)@.skip(num_bytes as int),
    {
        let ghost first = self.num_bits_read as int / 8;
        let ghost dst = bytes@;
        let mut head_bytes: u32 = (4 - (self.num_bits_read % 32) / 8) % 4;
        if head_bytes > num_bytes {
            head_bytes = num_bytes;
        }
        self.read_bytes_through_scratch(bytes, 0, head_bytes);
        if head_bytes == num_bytes {
            assert(bytes@ =~= self.data().subrange(first, first + num_bytes) + dst.skip(
                num_bytes as int,
            ));
            return ;
        }
        let num_words: u32 = (num_bytes - head_bytes) / 4;
        if num_words > 0 {
            self.read_words(bytes, head_bytes, num_words);
        }
        let tail_start: u32 = head_bytes + num_words * 4;
        let tail_bytes: u32 = num_bytes - tail_start;
        self.read_bytes_through_scratch(bytes, tail_start, tail_bytes);
        assert(bytes@ =~= self.data().subrange(first, first + num_bytes) + dst.skip(
            num_bytes as int,
        ));
    }

    /// Reads `count` bytes, eight bits at a time, into `bytes` from index
    /// `start`.
    fn read_bytes_through_scratch(&mut self, bytes: &mut Vec<u8>, start: u32, count: u32)
        requires
            old(self).wf(),
            old(self).position() % 8 == 0,
            old(self).position() + 8 * count <= old(self).limit(),
            start + count <= old(bytes)@.len(),
        ensures
            final(self).wf(),
            final(self).data() == old(self).data(),
            final(self).limit() == old(self).limit(),
            final(self).position() == old(self).position() + 8 * count,
            final(bytes)@.len() == old(bytes)@.len(),
            forall|x: int|
                0 <= x < old(bytes)@.len() ==> #[trigger] final(bytes)@[x] == (if start <= x < start
                    + count {
                    old(self).data()[old(self).position() as int / 8 + x - start]
                } else {
                    old(bytes)@[x]
                }),
    {
        let ghost first = self.num_bits_read as int / 8;
        let len: usize = bytes.len();
        let mut i: u32 = 0;
        while i < count
            invariant
                i <= count,
                len == bytes@.len(),
                bytes@.len() == old(bytes)@.len(),
                start + count <= bytes@.len(),
                self.wf(),
                self.data() == old(self).data(),
                self.limit() == old(self).limit(),
                self.position() == old(self).position() + 8 * i,
                old(self).position() == 8 * first,
                old(self).position() + 8 * count <= self.limit(),
                forall|x: int|
                    0 <= x < bytes@.len() ==> #[trigger] bytes@[x] == (if start <= x < start + i {
                        self.data()[first + x - start]
                    } else {
                        old(bytes)@[x]
                    }),
            decreases count - i,
        {
            proof {
                self.lemma_wf();
                lemma_field_is_byte(self.data(), first + i);
                assert(self.bits().subrange(8 * (first + i), 8 * (first + i) + 8) =~= byte_bits(
                    self.data(),
                ).subrange(8 * (first + i), 8 * (first + i) + 8));
            }
            let value: u32 = self.read_bits(8);
            bytes.set(start as usize + i as usize, value as u8);
            i = i + 1;
        }
    }

    /// Copies `num_words` whole words from the buffer into `bytes` from index
    /// `start`. The reader stands at a word boundary.
    fn read_words(&mut self, bytes: &mut Vec<u8>, start: u32, num_words: u32)
        requires
            old(self).wf(),
            old(self).position() % 32 == 0,
            old(self).position() + 32 * num_words <= old(self).limit(),
            start + 4 * num_words <= old(bytes)@.len(),
        ensures
            final(self).wf(),
            final(self).data() == old(self).data(),
            final(self).limit() == old(self).limit(),
            final(self).position() == old(self).position() + 32 * num_words,
            final(bytes)@.len() == old(bytes)@.len(),
            forall|x: int|
                0 <= x < old(bytes)@.len() ==> #[trigger] final(bytes)@[x] == (if start <= x < start
                    + 4 * num_words {
                    old(self).data()[old(self).position() as int / 8 + x - start]
                } else {
                    old(bytes)@[x]
                }),
    {
        let len: usize = bytes.len();
        let src_len: usize = self.buffer.len();
        let base: usize = (self.word_index as usize) * 4;
        let count: usize = (num_words as usize) * 4;
        let first: usize = start as usize;
        let mut j: usize = 0;
        while j < count
            invariant
                j <= count,
                len == bytes@.len(),
                bytes@.len() == old(bytes)@.len(),
                src_len == self.buffer@.len(),
                base + count <= src_len,
                first + count <= len,
                forall|x: int|
                    0 <= x < bytes@.len() ==> #[trigger] bytes@[x] == (if first <= x < first + j {
                        self.buffer@[base + x - first]
                    } else {
                        old(bytes)@[x]
                    }),
                *self == *old(self),
            decreases count - j,
        {
            let b: u8 = self.buffer[base + j];
            bytes.set(first + j, b);
            j = j + 1;
        }
        self.num_bits_read = self.num_bits_read + num_words * 32;
        self.word_index = self.word_index + num_words;
        proof {
            assert(value_bits(self.scratch, 0) =~= byte_bits(self.buffer@).subrange(
                self.num_bits_read as int,
                self.num_bits_read as int,
            ));
        }
    }

    /// Number of bits read so far.
    pub fn get_bits_read(&self) -> (n: u32)
        ensures
            n == self.position(),
    {
        self.num_bits_read
    }

    /// Number of bits between the reader's position and the limit.
    pub fn get_bits_remaining(&self) -> (n: u32)
        requires
            self.wf(),
        ensures
            n == self.limit() - self.position(),
    {
        self.num_bits - self.num_bits_read
    }

    /// Number of bits between the reader's position and the next byte
    /// boundary.
    pub fn get_align_bits(&self) -> (n: u32)
        ensures
            n == align_gap(self.position()),
    {
        (8 - (self.num_bits_read % 8)) % 8
    }
}

} // verus!
