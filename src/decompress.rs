//! The archive reader: the signature, the header region, and each member's
//! tree and data.

use vstd::prelude::*;
use crate::bitwise::{bits_of, le_bytes};
use crate::block::{header_region, parse_headers, FileBlock, HeaderView};
use crate::charset::{GRP_SEP, REC_SEP, SIG};
use crate::coding::{decode_member, decompress_symbols, lemma_round_trip, read_node};
use crate::compress::{archive_layout, headers_of, member_content, members_written};
use crate::error::ArchiveError;
use crate::read::FileReader;

verus! {

/// Whether `d` starts with the signature.
pub open spec fn has_signature(d: Seq<u8>) -> bool {
    d.len() >= 8 && d.take(8) == le_bytes(SIG)
}

/// What reading the header region of `d` gives.
pub open spec fn read_headers(d: Seq<u8>) -> Result<Seq<HeaderView>, ArchiveError> {
    if !has_signature(d) {
        Err(ArchiveError::BadSignature)
    } else {
        parse_headers(d, 8)
    }
}

/// Reads the signature and the header records of an archive. The blocks
/// come back without code books.
pub fn get_file_blocks(reader: &mut FileReader) -> (r: Result<Vec<FileBlock>, ArchiveError>)
    requires
        old(reader).wf(),
    ensures
        final(reader).wf(),
        final(reader).data() == old(reader).data(),
        match read_headers(old(reader).data()) {
            Err(e) => r == Err::<Vec<FileBlock>, ArchiveError>(e),
            Ok(hs) => r matches Ok(v) && headers_of(v@) == hs && forall|i: int|
                0 <= i < v@.len() ==> (#[trigger] v@[i]).code_book is None,
        },
{
    let ghost d = reader.data();
    reader.seek_from_start(0);
    proof {
        reader.lemma_wf();
    }
    if reader.bit_count() < 64 {
        return Err(ArchiveError::BadSignature);
    }
    let sig = reader.read_u64();
    proof {
        crate::bitwise::lemma_u64_le(d.subrange(0, 8));
        crate::bitwise::lemma_le_bytes(SIG);
        assert(d.subrange(0, 8) =~= d.take(8));
    }
    if sig != SIG {
        return Err(ArchiveError::BadSignature);
    }
    let mut blocks: Vec<FileBlock> = Vec::new();
    loop
        invariant
            reader.wf(),
            reader.data() == d,
            d == old(reader).data(),
            has_signature(d),
            reader.pos() % 8 == 0,
            8 <= reader.pos() / 8 <= d.len(),
            forall|i: int| 0 <= i < blocks@.len() ==> (#[trigger] blocks@[i]).code_book is None,
            parse_headers(d, 8) == match parse_headers(d, reader.pos() / 8) {
                Ok(rest) => Ok::<Seq<HeaderView>, ArchiveError>(headers_of(blocks@) + rest),
                Err(e) => Err::<Seq<HeaderView>, ArchiveError>(e),
            },
        decreases d.len() - reader.pos() / 8,
    {
        proof {
            reader.lemma_wf();
        }
        let ghost p = reader.pos() / 8;
        if reader.eof() {
            return Err(ArchiveError::MalformedHeader);
        }
        let sep = reader.read_byte();
        assert(sep == d[p]);
        assert(reader.pos() / 8 == p + 1);
        if sep == GRP_SEP {
            assert(headers_of(blocks@) + Seq::<HeaderView>::empty() =~= headers_of(blocks@));
            return Ok(blocks);
        }
        if sep != REC_SEP {
            return Err(ArchiveError::MalformedHeader);
        }
        let block = match reader.read_block() {
            Ok(block) => block,
            Err(e) => {
                return Err(e);
            },
        };
        let ghost prev = blocks@;
        blocks.push(block);
        proof {
            reader.lemma_wf();
            crate::block::lemma_first_nul_after(d, p + 1);
            assert(crate::block::parse_record_body(d, p + 1) matches Some((h, next)) && next
                == reader.pos() / 8 && h == block.header());
            assert(reader.pos() / 8 > p);
            assert(headers_of(blocks@) =~= headers_of(prev).push(block.header()));
            match parse_headers(d, reader.pos() / 8) {
                Ok(rest) => {
                    assert(headers_of(prev) + (seq![block.header()] + rest) =~= headers_of(blocks@)
                        + rest);
                },
                Err(e) => {},
            }
        }
    }
}

/// The bit position `seek_from_start(offset)` reaches in `d`.
pub open spec fn seek_bits(d: Seq<u8>, offset: u64) -> int {
    if offset <= d.len() {
        8 * offset as int
    } else {
        8 * d.len() as int
    }
}

/// What decompressing the member a block describes gives, in the archive `d`.
pub open spec fn member_result(d: Seq<u8>, b: FileBlock) -> Result<Seq<u8>, ArchiveError> {
    decode_member(bits_of(d), seek_bits(d, b.file_byte_offset), b.data_bit_size as int)
}

pub open spec fn result_view(r: Result<Vec<u8>, ArchiveError>) -> Result<Seq<u8>, ArchiveError> {
    match r {
        Ok(v) => Ok(v@),
        Err(e) => Err(e),
    }
}

/// Decompresses one member: reads its tree at its offset, then decodes
/// exactly its data bits.
pub fn decompress_file(reader: &mut FileReader, block: &FileBlock) -> (r: Result<
    Vec<u8>,
    ArchiveError,
>)
    requires
        old(reader).wf(),
    ensures
        final(reader).wf(),
        final(reader).data() == old(reader).data(),
        result_view(r) == member_result(old(reader).data(), *block),
{
    reader.seek_from_start(block.file_byte_offset);
    let root = match read_node(reader) {
        Ok(root) => root,
        Err(e) => {
            return Err(e);
        },
    };
    proof {
        crate::coding::lemma_parse_tree(reader.bits().skip(reader.start()));
    }
    let r = decompress_symbols(reader, &root, block.data_bit_size);
    r
}

/// Decompresses every member, each one on its own: a member that fails does
/// not stop the others.
pub fn decompress_files(reader: &mut FileReader, blocks: &Vec<FileBlock>) -> (r: Vec<
    Result<Vec<u8>, ArchiveError>,
>)
    requires
        old(reader).wf(),
    ensures
        final(reader).wf(),
        final(reader).data() == old(reader).data(),
        r@.len() == blocks@.len(),
        forall|i: int|
            0 <= i < blocks@.len() ==> result_view(#[trigger] r@[i]) == member_result(
                old(reader).data(),
                blocks@[i],
            ),
{
    let mut out: Vec<Result<Vec<u8>, ArchiveError>> = Vec::new();
    let mut i: usize = 0;
    while i < blocks.len()
        invariant
            reader.wf(),
            reader.data() == old(reader).data(),
            i <= blocks@.len(),
            out@.len() == i,
            forall|j: int|
                0 <= j < i ==> result_view(#[trigger] out@[j]) == member_result(
                    old(reader).data(),
                    blocks@[j],
                ),
        decreases blocks@.len() - i,
    {
        let res = decompress_file(reader, &blocks[i]);
        out.push(res);
        i = i + 1;
    }
    out
}

/// Unarchiving an archive gives back the members: the header region reads
/// back as the blocks' records, and each member decompresses to its contents.
pub proof fn lemma_archive_round_trip(bs: Seq<FileBlock>, cs: Seq<Vec<u8>>, bytes: Seq<u8>)
    requires
        archive_layout(bs, cs, bytes),
    ensures
        read_headers(bytes) == Ok::<Seq<HeaderView>, ArchiveError>(headers_of(bs)),
        forall|i: int| 0 <= i < bs.len() ==> #[trigger] member_result(bytes, bs[i]) == Ok::<
            Seq<u8>,
            ArchiveError,
        >(cs[i]@),
{
    let hs = headers_of(bs);
    let hr = header_region(hs);
    let n = bs.len() as int;
    assert(bytes =~= bytes.take(8) + hr + bytes.skip(8 + hr.len() as int));
    assert forall|i: int| 0 <= i < hs.len() implies crate::block::name_ok(#[trigger] hs[i].0) by {
        assert(crate::block::name_ok(bs[i].filename_rel@));
    }
    crate::block::lemma_parse_headers(bytes.take(8), hs, bytes.skip(8 + hr.len() as int));
    assert forall|i: int| 0 <= i < n implies #[trigger] member_result(bytes, bs[i]) == Ok::<
        Seq<u8>,
        ArchiveError,
    >(cs[i]@) by {
        lemma_member_round_trip(bs, cs, bytes, i);
    }
}

#[verifier::rlimit(100)]
proof fn lemma_member_round_trip(bs: Seq<FileBlock>, cs: Seq<Vec<u8>>, bytes: Seq<u8>, i: int)
    requires
        archive_layout(bs, cs, bytes),
        0 <= i < bs.len(),
    ensures
        member_result(bytes, bs[i]) == Ok::<Seq<u8>, ArchiveError>(cs[i]@),
{
    let n = bs.len() as int;
    crate::compress::lemma_members_written_at(
        bytes,
        8 + header_region(headers_of(bs)).len() as int,
        bs,
        cs,
        n,
        i,
    );
    let hr = header_region(headers_of(bs));
    let bits = bits_of(bytes);
    crate::bitwise::lemma_bits_of_len(bytes);
    let b = bs[i];
    let cb = b.code_book->Some_0;
    let s = 8 * (8 + hr.len() + crate::compress::members_len(bs, i)) as int;
    let e = s + b.tree_bit_size as int + b.data_bit_size as int;
    assert(bits.subrange(s, e) == member_content(b, cs[i]@));
    crate::compress::lemma_members_len_mono(bs, i + 1, n);
    assert(s == 8 * b.file_byte_offset);
    assert(seek_bits(bytes, b.file_byte_offset) == s);
    let pre = bits.take(s);
    let rest = bits.skip(e);
    let root = *cb.tree.root;
    let table = cb.symbol_table@;
    let t = root.tree_bits();
    let p = crate::coding::payload_bits(table, cs[i]@);
    assert(bits =~= pre + bits.subrange(s, e) + rest);
    assert(pre + (t + p) + rest =~= pre + t + p + rest);
    lemma_round_trip(root, table, cs[i]@, pre, rest);
}

} // verus!
