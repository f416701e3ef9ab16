//! Header records: what the archive says of each member.

use vstd::prelude::*;
use vstd::string::StringSliceAdditionalSpecFns;
use crate::bitwise::{le_bytes, u64_le, SymbolCode};
use crate::charset::{GRP_SEP, REC_SEP};
use crate::error::ArchiveError;
use crate::tree::Tree;
use crate::utils::get_size_of;

verus! {

/// What a header record holds: the member's relative name, the bit lengths of
/// its tree and of its data, the byte offset of its tree in the archive, and
/// its original size.
pub type HeaderView = (Seq<u8>, u64, u64, u64, u64);

/// The symbol table and tree a member is compressed with.
pub struct CodeBook {
    pub symbol_table: Vec<SymbolCode>,
    pub tree: Tree,
}

/// One member of an archive.
pub struct FileBlock {
    /// Where the member's contents are read from.
    pub filename_abs: String,
    /// The UTF-8 bytes of the member's path relative to the archive root.
    pub filename_rel: Vec<u8>,
    /// The length in bits of the serialised code tree.
    pub tree_bit_size: u64,
    /// The length in bits of the encoded data, padding excluded.
    pub data_bit_size: u64,
    /// The byte offset in the archive where the member's tree begins.
    pub file_byte_offset: u64,
    /// The member's size before compression.
    pub original_byte_size: u64,
    /// Present while the member is being compressed.
    pub code_book: Option<CodeBook>,
}

impl FileBlock {
    pub open spec fn header(&self) -> HeaderView {
        (
            self.filename_rel@,
            self.tree_bit_size,
            self.data_bit_size,
            self.file_byte_offset,
            self.original_byte_size,
        )
    }

    /// A member with the given names and every size zero.
    pub fn new(filename_rel: &str, filename_abs: &str) -> (r: FileBlock)
        ensures
            r.filename_rel@ == filename_rel.spec_bytes(),
            r.filename_abs@ == filename_abs@,
            r.tree_bit_size == 0,
            r.data_bit_size == 0,
            r.file_byte_offset == 0,
            r.original_byte_size == 0,
            r.code_book is None,
    {
        FileBlock {
            filename_abs: filename_abs.to_owned(),
            filename_rel: vstd::slice::slice_to_vec(filename_rel.as_bytes()),
            tree_bit_size: 0,
            data_bit_size: 0,
            file_byte_offset: 0,
            original_byte_size: 0,
            code_book: None,
        }
    }

    /// The size of the member's record after its separator: the name, its
    /// terminating zero, and four 8-byte integers.
    pub fn get_header_size(&self) -> (r: u64)
        requires
            self.filename_rel@.len() + 33 <= u64::MAX,
        ensures
            r == self.filename_rel@.len() + 33,
    {
        proof {
            broadcast use vstd::layout::layout_of_primitives;

        }
        self.filename_rel.len() as u64 + 1 + get_size_of(self.tree_bit_size) as u64 + get_size_of(
            self.data_bit_size,
        ) as u64 + get_size_of(self.file_byte_offset) as u64 + get_size_of(
            self.original_byte_size,
        ) as u64
    }
}

/// A record after its separator: the name, a zero byte, and the four sizes
/// as little-endian integers.
pub open spec fn record_body(h: HeaderView) -> Seq<u8> {
    h.0 + seq![0u8] + le_bytes(h.1) + le_bytes(h.2) + le_bytes(h.3) + le_bytes(h.4)
}

/// The records of a header region, each after its separator.
pub open spec fn records(hs: Seq<HeaderView>) -> Seq<u8>
    decreases hs.len(),
{
    if hs.len() == 0 {
        Seq::empty()
    } else {
        records(hs.drop_last()) + seq![REC_SEP] + record_body(hs.last())
    }
}

/// A whole header region: the records, then the group separator.
pub open spec fn header_region(hs: Seq<HeaderView>) -> Seq<u8> {
    records(hs) + seq![GRP_SEP]
}

/// A name that can stand in a record: no zero byte in it.
pub open spec fn name_ok(name: Seq<u8>) -> bool {
    forall|i: int| 0 <= i < name.len() ==> #[trigger] name[i] != 0
}

/// The position of the first zero byte of `b` at or after `from`.
pub open spec fn first_nul(b: Seq<u8>, from: int) -> Option<int>
    decreases b.len() - from,
{
    if from < 0 || from >= b.len() {
        None
    } else if b[from] == 0 {
        Some(from)
    } else {
        first_nul(b, from + 1)
    }
}

/// The record body at `pos` and the position after it, if it is whole.
pub open spec fn parse_record_body(b: Seq<u8>, pos: int) -> Option<(HeaderView, int)> {
    match first_nul(b, pos) {
        None => None,
        Some(z) => if z + 33 <= b.len() {
            Some(
                (
                    (
                        b.subrange(pos, z),
                        u64_le(b.subrange(z + 1, z + 9)) as u64,
                        u64_le(b.subrange(z + 9, z + 17)) as u64,
                        u64_le(b.subrange(z + 17, z + 25)) as u64,
                        u64_le(b.subrange(z + 25, z + 33)) as u64,
                    ),
                    z + 33,
                ),
            )
        } else {
            None
        },
    }
}

/// The records of the header region that starts at `pos`: each one a record
/// separator and a whole record, then the group separator.
pub open spec fn parse_headers(b: Seq<u8>, pos: int) -> Result<Seq<HeaderView>, ArchiveError>
    decreases b.len() - pos,
{
    if pos < 0 || pos >= b.len() {
        Err(ArchiveError::MalformedHeader)
    } else if b[pos] == GRP_SEP {
        Ok(Seq::empty())
    } else if b[pos] != REC_SEP {
        Err(ArchiveError::MalformedHeader)
    } else {
        match parse_record_body(b, pos + 1) {
            None => Err(ArchiveError::MalformedHeader),
            Some((h, next)) => if next > pos {
                match parse_headers(b, next) {
                    Ok(rest) => Ok(seq![h] + rest),
                    Err(e) => Err(e),
                }
            } else {
                Err(ArchiveError::MalformedHeader)
            },
        }
    }
}

pub proof fn lemma_first_nul(b: Seq<u8>, from: int, z: int)
    requires
        0 <= from <= z < b.len(),
        b[z] == 0,
        forall|i: int| from <= i < z ==> #[trigger] b[i] != 0,
    ensures
        first_nul(b, from) == Some(z),
    decreases z - from,
{
    if from < z {
        lemma_first_nul(b, from + 1, z);
    }
}

pub proof fn lemma_first_nul_after(b: Seq<u8>, from: int)
    ensures
        first_nul(b, from) matches Some(z) ==> from <= z < b.len(),
    decreases b.len() - from,
{
    if 0 <= from < b.len() && b[from] != 0 {
        lemma_first_nul_after(b, from + 1);
    }
}

pub proof fn lemma_records_front(hs: Seq<HeaderView>)
    requires
        hs.len() > 0,
    ensures
        records(hs) == seq![REC_SEP] + record_body(hs[0]) + records(hs.drop_first()),
    decreases hs.len(),
{
    if hs.len() == 1 {
        assert(hs.drop_last() =~= Seq::<HeaderView>::empty());
        assert(hs.drop_first() =~= Seq::<HeaderView>::empty());
        assert(records(hs.drop_last()) == Seq::<u8>::empty());
        assert(records(hs.drop_first()) == Seq::<u8>::empty());
        assert(records(hs) =~= seq![REC_SEP] + record_body(hs[0]) + records(hs.drop_first()));
    } else {
        lemma_records_front(hs.drop_last());
        assert(hs.drop_last().drop_first() =~= hs.drop_first().drop_last());
        assert(records(hs) =~= seq![REC_SEP] + record_body(hs[0]) + records(hs.drop_first()));
    }
}

/// A record body parses back to its fields.
#[verifier::rlimit(100)]
pub proof fn lemma_parse_record_body(pre: Seq<u8>, h: HeaderView, rest: Seq<u8>)
    requires
        name_ok(h.0),
    ensures
        parse_record_body(pre + record_body(h) + rest, pre.len() as int) == Some(
            (h, pre.len() + record_body(h).len() as int),
        ),
{
    crate::bitwise::lemma_le_bytes(h.1);
    crate::bitwise::lemma_le_bytes(h.2);
    crate::bitwise::lemma_le_bytes(h.3);
    crate::bitwise::lemma_le_bytes(h.4);
    let b = pre + record_body(h) + rest;
    let p = pre.len() as int;
    let z = p + h.0.len();
    assert(b[z] == 0);
    assert forall|i: int| p <= i < z implies #[trigger] b[i] != 0 by {
        assert(b[i] == h.0[i - p]);
    }
    lemma_first_nul(b, p, z);
    assert(b.subrange(p, z) =~= h.0);
    assert(b.subrange(z + 1, z + 9) =~= le_bytes(h.1));
    assert(b.subrange(z + 9, z + 17) =~= le_bytes(h.2));
    assert(b.subrange(z + 17, z + 25) =~= le_bytes(h.3));
    assert(b.subrange(z + 25, z + 33) =~= le_bytes(h.4));
    crate::bitwise::lemma_le_bytes(h.1);
    crate::bitwise::lemma_le_bytes(h.2);
    crate::bitwise::lemma_le_bytes(h.3);
    crate::bitwise::lemma_le_bytes(h.4);
}

/// A header region parses back to its records.
#[verifier::rlimit(100)]
pub proof fn lemma_parse_headers(pre: Seq<u8>, hs: Seq<HeaderView>, rest: Seq<u8>)
    requires
        forall|i: int| 0 <= i < hs.len() ==> name_ok(#[trigger] hs[i].0),
    ensures
        parse_headers(pre + header_region(hs) + rest, pre.len() as int) == Ok::<
            Seq<HeaderView>,
            ArchiveError,
        >(hs),
    decreases hs.len(),
{
    let b = pre + header_region(hs) + rest;
    let p = pre.len() as int;
    if hs.len() == 0 {
        assert(records(hs) == Seq::<u8>::empty());
        assert(b[p] == GRP_SEP);
        assert(hs =~= Seq::<HeaderView>::empty());
    } else {
        lemma_records_front(hs);
        let tail = hs.drop_first();
        let pre2 = pre + seq![REC_SEP] + record_body(hs[0]);
        assert(b =~= pre + seq![REC_SEP] + record_body(hs[0]) + (records(tail) + seq![GRP_SEP]
            + rest));
        assert(b[p] == REC_SEP);
        assert(name_ok(hs[0].0));
        lemma_parse_record_body(pre + seq![REC_SEP], hs[0], records(tail) + seq![GRP_SEP] + rest);
        assert(b =~= pre2 + header_region(tail) + rest);
        assert forall|i: int| 0 <= i < tail.len() implies name_ok(#[trigger] tail[i].0) by {
            assert(tail[i] == hs[i + 1]);
        }
        lemma_parse_headers(pre2, tail, rest);
        assert(seq![hs[0]] + tail =~= hs);
    }
}

} // verus!
