//! A bit stream reader over bytes held in memory.

use vstd::prelude::*;
use crate::bitwise::{bit_of, bits_of, byte_bits, get_bit, set_bit, u64_le};
use crate::block::{first_nul, lemma_first_nul, parse_record_body, FileBlock};
use crate::error::ArchiveError;

verus! {

/// Reads bytes and bits, least significant bit of each byte first, from a
/// position that can be moved with `seek_from_start`.
pub struct FileReader {
    data: Vec<u8>,
    bit_position: usize,
    start: usize,
}

impl FileReader {
    /// The bytes read from.
    pub closed spec fn data(&self) -> Seq<u8> {
        self.data@
    }

    /// Every bit of the data.
    pub open spec fn bits(&self) -> Seq<bool> {
        bits_of(self.data())
    }

    /// The position of the next bit to read.
    pub closed spec fn pos(&self) -> int {
        self.bit_position as int
    }

    /// The position of the last seek.
    pub closed spec fn start(&self) -> int {
        self.start as int
    }

    pub closed spec fn wf(&self) -> bool {
        &&& 8 * self.data@.len() <= usize::MAX
        &&& self.start <= self.bit_position <= 8 * self.data@.len()
    }

    pub proof fn lemma_wf(&self)
        requires
            self.wf(),
        ensures
            self.bits().len() == 8 * self.data().len() <= usize::MAX,
            0 <= self.start() <= self.pos() <= self.bits().len(),
    {
    }

    /// A reader at the start of `data`.
    pub fn new(data: Vec<u8>) -> (r: FileReader)
        requires
            8 * data@.len() <= usize::MAX,
        ensures
            r.wf(),
            r.data() == data@,
            r.pos() == 0,
            r.start() == 0,
    {
        FileReader { data, bit_position: 0, start: 0 }
    }

    /// Moves to byte `seek_pos` (the end, if that lies beyond it) and counts
    /// bits read from there.
    pub fn seek_from_start(&mut self, seek_pos: u64)
        requires
            old(self).wf(),
        ensures
            final(self).wf(),
            final(self).data() == old(self).data(),
            final(self).pos() == (if seek_pos <= old(self).data().len() {
                8 * seek_pos as int
            } else {
                8 * old(self).data().len() as int
            }),
            final(self).start() == final(self).pos(),
    {
        let len = self.data.len();
        if seek_pos <= len as u64 {
            self.bit_position = 8 * (seek_pos as usize);
        } else {
            self.bit_position = 8 * len;
        }
        self.start = self.bit_position;
    }

    /// The number of bits read since the last seek.
    pub fn read_len(&self) -> (r: u64)
        requires
            self.wf(),
        ensures
            r == self.pos() - self.start(),
    {
        (self.bit_position - self.start) as u64
    }

    /// The position of the next bit to read.
    pub fn position(&self) -> (r: usize)
        requires
            self.wf(),
        ensures
            r == self.pos(),
    {
        self.bit_position
    }

    /// The number of bits in the data.
    pub fn bit_count(&self) -> (r: usize)
        requires
            self.wf(),
        ensures
            r == self.bits().len(),
    {
        8 * self.data.len()
    }

    /// Whether every bit has been read.
    pub fn eof(&self) -> (r: bool)
        requires
            self.wf(),
        ensures
            r == (self.pos() >= self.bits().len()),
    {
        self.bit_position >= 8 * self.data.len()
    }

    /// The byte that holds the next bit, without moving.
    pub fn view_byte(&self) -> (r: u8)
        requires
            self.wf(),
            self.pos() < self.bits().len(),
        ensures
            r == self.data()[self.pos() / 8],
    {
        self.data[self.bit_position / 8]
    }

    /// Reads a whole byte; the reader must be at a byte boundary.
    pub fn read_byte(&mut self) -> (r: u8)
        requires
            old(self).wf(),
            old(self).pos() % 8 == 0,
            old(self).pos() + 8 <= old(self).bits().len(),
        ensures
            final(self).wf(),
            final(self).data() == old(self).data(),
            final(self).start() == old(self).start(),
            final(self).pos() == old(self).pos() + 8,
            r == old(self).data()[old(self).pos() / 8],
            byte_bits(r) == old(self).bits().subrange(old(self).pos(), old(self).pos() + 8),
    {
        let r = self.view_byte();
        proof {
            let p = self.pos();
            assert forall|i: int| 0 <= i < 8 implies #[trigger] byte_bits(r)[i] == self.bits().subrange(
                p,
                p + 8,
            )[i] by {
                assert((p + i) / 8 == p / 8);
                assert((p + i) % 8 == i);
            }
            assert(byte_bits(r) =~= self.bits().subrange(p, p + 8));
        }
        self.bit_position = self.bit_position + 8;
        r
    }

    /// Reads one bit, as 0 or 1.
    pub fn read_bit(&mut self) -> (r: u8)
        requires
            old(self).wf(),
            old(self).pos() < old(self).bits().len(),
        ensures
            final(self).wf(),
            final(self).data() == old(self).data(),
            final(self).start() == old(self).start(),
            final(self).pos() == old(self).pos() + 1,
            r <= 1,
            (r == 1) == old(self).bits()[old(self).pos()],
    {
        let byte = self.view_byte();
        let k = (self.bit_position % 8) as u32;
        let bit = get_bit(byte as u32, k);
        proof {
            let j = k as u8;
            assert(((byte as u32 >> k) & 1 == 1) == ((byte >> j) & 1 == 1)) by (bit_vector)
                requires
                    k < 8,
                    j == k as u8,
            ;
        }
        self.bit_position = self.bit_position + 1;
        bit
    }

    /// Reads `count` bits into the low bits of a byte, the first read lowest.
    pub fn read_bits(&mut self, count: u8) -> (r: u8)
        requires
            old(self).wf(),
            count <= 8,
            old(self).pos() + count <= old(self).bits().len(),
        ensures
            final(self).wf(),
            final(self).data() == old(self).data(),
            final(self).start() == old(self).start(),
            final(self).pos() == old(self).pos() + count,
            forall|i: int|
                0 <= i < 8 ==> #[trigger] bit_of(r, i) == (i < count && old(self).bits()[old(
                    self,
                ).pos() + i]),
    {
        let ghost p = self.pos();
        let mut byte: u8 = 0;
        let mut i: u8 = 0;
        proof {
            assert forall|j: int| 0 <= j < 8 implies !#[trigger] bit_of(0u8, j) by {
                crate::bitwise::lemma_byte_bit_shapes(0, 0, j as u8);
            }
        }
        while i < count
            invariant
                self.wf(),
                i <= count <= 8,
                self.data() == old(self).data(),
                self.start() == old(self).start(),
                p == old(self).pos(),
                p + count <= self.bits().len(),
                self.pos() == p + i,
                forall|j: int|
                    0 <= j < 8 ==> #[trigger] bit_of(byte, j) == (j < i && self.bits()[p + j]),
            decreases count - i,
        {
            let bit = self.read_bit();
            if bit > 0 {
                byte = set_bit(byte as u32, i as u32);
            }
            i = i + 1;
        }
        byte
    }

    /// Reads eight bytes as a little-endian integer; the reader must be at a
    /// byte boundary.
    pub fn read_u64(&mut self) -> (r: u64)
        requires
            old(self).wf(),
            old(self).pos() % 8 == 0,
            old(self).pos() + 64 <= old(self).bits().len(),
        ensures
            final(self).wf(),
            final(self).data() == old(self).data(),
            final(self).start() == old(self).start(),
            final(self).pos() == old(self).pos() + 64,
            r == u64_le(old(self).data().subrange(old(self).pos() / 8, old(self).pos() / 8 + 8)),
    {
        let ghost b = self.data().subrange(self.pos() / 8, self.pos() / 8 + 8);
        let b0 = self.read_byte() as u64;
        let b1 = self.read_byte() as u64;
        let b2 = self.read_byte() as u64;
        let b3 = self.read_byte() as u64;
        let b4 = self.read_byte() as u64;
        let b5 = self.read_byte() as u64;
        let b6 = self.read_byte() as u64;
        let b7 = self.read_byte() as u64;
        proof {
            crate::bitwise::lemma_u64_le(b);
        }
        b0 + 256 * (b1 + 256 * (b2 + 256 * (b3 + 256 * (b4 + 256 * (b5 + 256 * (b6 + 256 * b7))))))
    }

    /// Reads a header record after its separator: a name ended by a zero
    /// byte, then four little-endian integers. The reader must be at a byte
    /// boundary.
    pub fn read_block(&mut self) -> (r: Result<FileBlock, ArchiveError>)
        requires
            old(self).wf(),
            old(self).pos() % 8 == 0,
        ensures
            final(self).wf(),
            final(self).data() == old(self).data(),
            final(self).start() == old(self).start(),
            match parse_record_body(old(self).data(), old(self).pos() / 8) {
                None => r is Err && r->Err_0 == ArchiveError::MalformedHeader,
                Some((h, next)) => r matches Ok(b) && b.header() == h && b.code_book is None
                    && final(self).pos() == 8 * next,
            },
    {
        proof {
            self.lemma_wf();
        }
        let ghost p = self.pos() / 8;
        let ghost d = self.data();
        let mut name: Vec<u8> = Vec::new();
        let mut byte: u8 = 1;
        while byte != 0
            invariant
                self.wf(),
                self.data() == d,
                self.start() == old(self).start(),
                self.pos() % 8 == 0,
                p == old(self).pos() / 8,
                d == old(self).data(),
                0 <= p <= self.pos() / 8 <= d.len(),
                byte != 0 ==> name@ == d.subrange(p, self.pos() / 8),
                byte != 0 ==> forall|i: int| p <= i < self.pos() / 8 ==> #[trigger] d[i] != 0,
                byte == 0 ==> self.pos() / 8 >= p + 1 && d[self.pos() / 8 - 1] == 0 && name@
                    == d.subrange(p, self.pos() / 8 - 1) && forall|i: int|
                    p <= i < self.pos() / 8 - 1 ==> #[trigger] d[i] != 0,
            decreases d.len() - self.pos() / 8, byte,
        {
            if self.eof() {
                proof {
                    self.lemma_wf();
                    lemma_first_nul_none(d, p);
                }
                return Err(ArchiveError::MalformedHeader);
            }
            let ghost q = self.pos();
            proof {
                self.lemma_wf();
            }
            byte = self.read_byte();
            assert(self.pos() / 8 == q / 8 + 1);
            if byte != 0 {
                let ghost prev = name@;
                assert(prev == d.subrange(p, q / 8));
                name.push(byte);
                assert(byte == d[q / 8]);
                assert(name@ =~= d.subrange(p, self.pos() / 8));
            }
        }
        let ghost z = self.pos() / 8 - 1;
        proof {
            lemma_first_nul(d, p, z);
        }
        if self.bit_count() - self.position() < 256 {
            return Err(ArchiveError::MalformedHeader);
        }
        let tree_bit_size = self.read_u64();
        let data_bit_size = self.read_u64();
        let file_byte_offset = self.read_u64();
        let original_byte_size = self.read_u64();
        Ok(FileBlock {
            filename_abs: String::new(),
            filename_rel: name,
            tree_bit_size,
            data_bit_size,
            file_byte_offset,
            original_byte_size,
            code_book: None,
        })
    }
}

proof fn lemma_first_nul_none(b: Seq<u8>, from: int)
    requires
        0 <= from <= b.len(),
        forall|i: int| from <= i < b.len() ==> #[trigger] b[i] != 0,
    ensures
        first_nul(b, from) is None,
    decreases b.len() - from,
{
    if from < b.len() {
        lemma_first_nul_none(b, from + 1);
    }
}

} // verus!
