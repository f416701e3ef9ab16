//! A bit stream writer that collects its output in memory.

use vstd::prelude::*;
use crate::block::{name_ok, record_body, FileBlock};
use crate::bitwise::{
    bit_of, bits_of, byte_bits, get_bit, le_bytes, lemma_bits_of_push, set_bit, word_bit, zero_bits,
    SymbolCode,
};

verus! {

/// Collects bytes and bits, least significant bit of each byte first. Bits not
/// yet written are zero, so aligning to a byte boundary pads with zeros.
pub struct FileWriter {
    buffer: Vec<u8>,
    bit_position: usize,
}

impl FileWriter {
    /// The bits written so far.
    pub closed spec fn bits(&self) -> Seq<bool> {
        bits_of(self.buffer@).take(self.bit_position as int)
    }

    /// The bytes the bits written so far occupy, padding included.
    pub closed spec fn bytes(&self) -> Seq<u8> {
        self.buffer@
    }

    pub closed spec fn wf(&self) -> bool {
        &&& self.buffer@.len() == (self.bit_position + 7) / 8
        &&& forall|j: int|
            self.bit_position <= j < 8 * self.buffer@.len() ==> !#[trigger] bits_of(self.buffer@)[j]
    }

    /// Whether the bits written so far fill whole bytes.
    pub open spec fn aligned(&self) -> bool {
        self.bits().len() % 8 == 0
    }

    pub proof fn lemma_view(&self)
        requires
            self.wf(),
        ensures
            self.bits().len() <= usize::MAX,
            self.bytes().len() == (self.bits().len() + 7) / 8,
            bits_of(self.bytes()) == self.bits() + zero_bits(
                (8 * self.bytes().len() - self.bits().len()) as nat,
            ),
    {
        let l = bits_of(self.bytes());
        let r = self.bits() + zero_bits((8 * self.bytes().len() - self.bits().len()) as nat);
        assert forall|j: int| 0 <= j < l.len() implies #[trigger] l[j] == r[j] by {
            if j >= self.bit_position {
                assert(!bits_of(self.buffer@)[j]);
            }
        }
        assert(l =~= r);
    }

    /// A writer with nothing written.
    pub fn new() -> (r: FileWriter)
        ensures
            r.wf(),
            r.bits() == Seq::<bool>::empty(),
            r.bytes() == Seq::<u8>::empty(),
    {
        let r = FileWriter { buffer: Vec::new(), bit_position: 0 };
        assert(r.bits() =~= Seq::<bool>::empty());
        r
    }

    /// The number of bits written so far.
    pub fn bit_len(&self) -> (r: usize)
        requires
            self.wf(),
        ensures
            r == self.bits().len(),
    {
        self.bit_position
    }

    /// The number of bytes the bits written so far occupy.
    pub fn bytes_len(&self) -> (r: usize)
        requires
            self.wf(),
        ensures
            r == self.bytes().len(),
    {
        self.buffer.len()
    }

    /// Pads with zero bits up to the next byte boundary.
    pub fn align_to_byte(&mut self)
        requires
            old(self).wf(),
            old(self).bits().len() + 7 <= usize::MAX,
        ensures
            final(self).wf(),
            final(self).aligned(),
            final(self).bits() == old(self).bits() + zero_bits(
                (8 * old(self).bytes().len() - old(self).bits().len()) as nat,
            ),
            final(self).bytes() == old(self).bytes(),
            bits_of(final(self).bytes()) == final(self).bits(),
    {
        proof {
            self.lemma_view();
        }
        let len = self.buffer.len();
        self.bit_position = len * 8;
        assert(self.bits() =~= bits_of(self.buffer@));
    }

    /// Writes one byte; the writer must be at a byte boundary.
    pub fn write_byte(&mut self, byte: u8)
        requires
            old(self).wf(),
            old(self).aligned(),
            old(self).bits().len() + 8 <= usize::MAX,
        ensures
            final(self).wf(),
            final(self).aligned(),
            final(self).bits() == old(self).bits() + byte_bits(byte),
            final(self).bytes() == old(self).bytes().push(byte),
    {
        proof {
            self.lemma_view();
            lemma_bits_of_push(self.buffer@, byte);
            assert(self.bits() =~= bits_of(self.buffer@));
        }
        self.buffer.push(byte);
        self.bit_position = self.bit_position + 8;
        assert(self.bits() =~= bits_of(self.buffer@));
    }

    /// Writes one bit: 1 when `bit` is not zero.
    pub fn write_bit(&mut self, bit: u8)
        requires
            old(self).wf(),
            old(self).bits().len() < usize::MAX,
        ensures
            final(self).wf(),
            final(self).bits() == old(self).bits().push(bit > 0),
    {
        let ghost old_buf = self.buffer@;
        let pos = self.bit_position;
        if pos % 8 == 0 {
            let b: u8 = if bit > 0 { 1 } else { 0 };
            self.buffer.push(b);
            proof {
                assert forall|i: int| 0 <= i < 8 implies #[trigger] bit_of(b, i) == (i == 0 && bit
                    > 0) by {
                    crate::bitwise::lemma_byte_bit_shapes(0, 0, i as u8);
                }
            }
        } else {
            if bit > 0 {
                let i = pos / 8;
                let v = set_bit(self.buffer[i] as u32, (pos % 8) as u32);
                self.buffer.set(i, v);
            }
        }
        self.bit_position = pos + 1;
        proof {
            let nb = self.buffer@;
            assert forall|j: int| 0 <= j < 8 * nb.len() implies #[trigger] bits_of(nb)[j] == (if j
                < pos {
                bits_of(old_buf)[j]
            } else if j == pos {
                bit > 0
            } else {
                false
            }) by {
                if j / 8 < old_buf.len() && j / 8 != pos / 8 {
                    assert(nb[j / 8] == old_buf[j / 8]);
                }
                if j / 8 < old_buf.len() && pos % 8 != 0 && j / 8 == pos / 8 && j >= pos {
                    assert(!bits_of(old_buf)[j]);
                }
            }
            assert(self.bits() =~= bits_of(old_buf).take(pos as int).push(bit > 0));
        }
    }

    /// Writes the first `count` bits of `byte`, least significant first.
    pub fn write_bits(&mut self, byte: u8, count: u8)
        requires
            old(self).wf(),
            count <= 8,
            old(self).bits().len() + count <= usize::MAX,
        ensures
            final(self).wf(),
            final(self).bits() == old(self).bits() + byte_bits(byte).take(count as int),
    {
        let ghost start = self.bits();
        let mut i: u8 = 0;
        while i < count
            invariant
                self.wf(),
                i <= count <= 8,
                start.len() + count <= usize::MAX,
                self.bits() == start + byte_bits(byte).take(i as int),
            decreases count - i,
        {
            let b = get_bit(byte as u32, i as u32);
            proof {
                let k = i as u32;
                let j = i as u8;
                assert(((byte as u32 >> k) & 1 == 1) == ((byte >> j) & 1 == 1)) by (bit_vector)
                    requires
                        k < 8,
                        j == k as u8,
                ;
            }
            self.write_bit(b);
            assert(byte_bits(byte).take(i + 1) =~= byte_bits(byte).take(i as int).push(
                bit_of(byte, i as int),
            ));
            i = i + 1;
        }
    }

    /// Writes the bits of a symbol's code.
    pub fn write_symbol(&mut self, symbol: &SymbolCode)
        requires
            old(self).wf(),
            symbol.wf(),
            old(self).bits().len() + symbol.bit_len <= usize::MAX,
        ensures
            final(self).wf(),
            final(self).bits() == old(self).bits() + symbol.bits(),
    {
        let ghost start = self.bits();
        let mut i: u8 = 0;
        while i < symbol.bit_len
            invariant
                self.wf(),
                i <= symbol.bit_len <= 32,
                start.len() + symbol.bit_len <= usize::MAX,
                self.bits() == start + symbol.bits().take(i as int),
            decreases symbol.bit_len - i,
        {
            let b = get_bit(symbol.encoded_symbol, i as u32);
            self.write_bit(b);
            assert(symbol.bits().take(i + 1) =~= symbol.bits().take(i as int).push(
                word_bit(symbol.encoded_symbol, i as int),
            ));
            i = i + 1;
        }
        assert(symbol.bits().take(i as int) =~= symbol.bits());
    }

    /// Writes `num` as eight little-endian bytes.
    pub fn write_u64(&mut self, num: u64)
        requires
            old(self).wf(),
            old(self).aligned(),
            old(self).bits().len() + 64 <= usize::MAX,
        ensures
            final(self).wf(),
            final(self).aligned(),
            final(self).bytes() == old(self).bytes() + le_bytes(num),
            final(self).bits().len() == old(self).bits().len() + 64,
    {
        let ghost start = self.bytes();
        let ghost n = self.bits().len();
        self.write_byte((num % 256) as u8);
        self.write_byte((num / 0x100 % 256) as u8);
        self.write_byte((num / 0x10000 % 256) as u8);
        self.write_byte((num / 0x1000000 % 256) as u8);
        self.write_byte((num / 0x100000000 % 256) as u8);
        self.write_byte((num / 0x10000000000 % 256) as u8);
        self.write_byte((num / 0x1000000000000 % 256) as u8);
        self.write_byte((num / 0x100000000000000 % 256) as u8);
        assert(self.bytes() =~= start + le_bytes(num)) by {
            reveal(le_bytes);
        }
    }

    /// Writes a header record after its separator: the relative name, a zero
    /// byte, and the four sizes as little-endian integers.
    pub fn write_block(&mut self, block: &FileBlock)
        requires
            old(self).wf(),
            old(self).aligned(),
            name_ok(block.filename_rel@),
            old(self).bits().len() + 8 * (block.filename_rel@.len() + 33) <= usize::MAX,
        ensures
            final(self).wf(),
            final(self).aligned(),
            final(self).bytes() == old(self).bytes() + record_body(block.header()),
            final(self).bits().len() == old(self).bits().len() + 8 * record_body(
                block.header(),
            ).len(),
    {
        let ghost start = self.bytes();
        let ghost n0 = self.bits().len();
        let name = &block.filename_rel;
        let mut i: usize = 0;
        while i < name.len()
            invariant
                self.wf(),
                self.aligned(),
                i <= name@.len(),
                n0 + 8 * (name@.len() + 33) <= usize::MAX,
                self.bits().len() == n0 + 8 * i,
                self.bytes() == start + name@.take(i as int),
            decreases name@.len() - i,
        {
            self.write_byte(name[i]);
            assert(name@.take(i + 1) =~= name@.take(i as int).push(name@[i as int]));
            i = i + 1;
        }
        assert(name@.take(i as int) =~= name@);
        self.write_byte(0);
        self.write_u64(block.tree_bit_size);
        self.write_u64(block.data_bit_size);
        self.write_u64(block.file_byte_offset);
        self.write_u64(block.original_byte_size);
        assert(self.bytes() =~= start + record_body(block.header()));
    }

    /// The bytes written, the last one padded with zero bits.
    pub fn into_bytes(self) -> (r: Vec<u8>)
        requires
            self.wf(),
        ensures
            r@ == self.bytes(),
    {
        self.buffer
    }
}

} // verus!
