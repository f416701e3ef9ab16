//! The archive writer: code books for each member, the layout of the
//! archive, and the bytes that make it up.

use vstd::prelude::*;
use crate::bitwise::{bits_of, le_bytes, zero_bits};
use crate::block::{header_region, name_ok, record_body, records, CodeBook, FileBlock, HeaderView};
use crate::charset::{GRP_SEP, REC_SEP, SIG};
use crate::coding::{
    book_for, coded_bits, huffman_tree, count_of, create_code_table, create_code_tree, create_freq_table,
    compress_file, lemma_coded_bits_mono, lemma_count_pos, lemma_freq_table_sum,
    lemma_nonzero_count_pos, lemma_payload_len, nonzero_count, payload_bits, write_node,
    TABLE_SIZE,
};
use crate::error::ArchiveError;
use crate::tree::lemma_tree_bits_len;
use crate::write::FileWriter;

verus! {

/// Two blocks for the same member.
pub open spec fn same_names(a: FileBlock, b: FileBlock) -> bool {
    a.filename_rel == b.filename_rel && a.filename_abs == b.filename_abs
}

/// What the code book of a member made from `data` holds, and the sizes
/// recorded for it.
pub open spec fn block_ready(b: FileBlock, data: Seq<u8>) -> bool {
    &&& (b.code_book matches Some(cb) && {
        &&& book_for(*cb.tree.root, cb.symbol_table@, data)
        &&& b.tree_bit_size == cb.tree.root.tree_bits().len()
        &&& b.data_bit_size == payload_bits(cb.symbol_table@, data).len()
        &&& cb.tree.root.leaf_count() <= 256
    })
    &&& b.original_byte_size == data.len()
}

/// Whether a member with contents `data` can be compressed: it has bytes,
/// and no code of its Huffman tree is longer than 32 bits.
pub open spec fn codable(data: Seq<u8>) -> bool {
    data.len() > 0 && huffman_tree(freq_of(data)).depth() <= 32
}

/// Builds the code book of a member from its contents and records the sizes
/// of its tree and of its encoded data. An empty member is refused.
pub fn create_code_book(block: &mut FileBlock, data: &Vec<u8>) -> (r: Result<(), ArchiveError>)
    requires
        data@.len() <= u64::MAX / 32,
    ensures
        final(block).filename_rel == old(block).filename_rel,
        final(block).filename_abs == old(block).filename_abs,
        final(block).file_byte_offset == old(block).file_byte_offset,
        (r == Err::<(), ArchiveError>(ArchiveError::EmptyInput)) <==> data@.len() == 0,
        r is Ok <==> codable(data@),
        r is Err ==> r == Err::<(), ArchiveError>(ArchiveError::EmptyInput) || r == Err::<
            (),
            ArchiveError,
        >(ArchiveError::CodeTooLong),
        r is Ok ==> block_ready(*final(block), data@),
        r is Ok ==> (final(block).code_book matches Some(cb) && {
            let f = freq_of(data@);
            &&& *cb.tree.root == huffman_tree(f)
            &&& final(block).data_bit_size == coded_bits(f, cb.symbol_table@, 256)
            &&& final(block).tree_bit_size == 10 * cb.tree.symbol_count - 1
            &&& cb.tree.symbol_count == if nonzero_count(f, 256) == 1 {
                2
            } else {
                nonzero_count(f, 256)
            }
        }),
{
    if data.len() == 0 {
        return Err(ArchiveError::EmptyInput);
    }
    let freq_table = create_freq_table(data);
    proof {
        lemma_freq_table_sum(freq_table@, data@);
        lemma_count_pos(data@, 0);
        assert(freq_table@[data@[0] as int] > 0);
        lemma_nonzero_count_pos(freq_table@, data@[0] as int, 256);
        crate::coding::lemma_nonzero_count_bound(freq_table@, 256);
        assert(freq_table@ =~= freq_of(data@));
    }
    let tree = match create_code_tree(&freq_table) {
        Some(tree) => tree,
        None => {
            return Err(ArchiveError::EmptyInput);
        },
    };
    let symbol_table = match create_code_table(&tree) {
        Ok(table) => table,
        Err(e) => {
            return Err(e);
        },
    };
    proof {
        lemma_payload_len(freq_table@, symbol_table@, data@);
        lemma_tree_bits_len(*tree.root);
    }
    // the encoded size: each symbol's count times its code length
    let mut data_bit_size: u64 = 0;
    let mut i: usize = 0;
    while i < TABLE_SIZE
        invariant
            i <= TABLE_SIZE,
            freq_table@.len() == TABLE_SIZE,
            symbol_table@.len() == TABLE_SIZE,
            data_bit_size == coded_bits(freq_table@, symbol_table@, i as int),
            coded_bits(freq_table@, symbol_table@, 256) <= 32 * data@.len() <= u64::MAX,
        decreases TABLE_SIZE - i,
    {
        proof {
            lemma_coded_bits_mono(freq_table@, symbol_table@, i + 1, 256);
        }
        data_bit_size = data_bit_size + freq_table[i] * (symbol_table[i].bit_len as u64);
        i = i + 1;
    }
    block.tree_bit_size = 10 * (tree.symbol_count as u64) - 1;
    block.data_bit_size = data_bit_size;
    block.original_byte_size = data.len() as u64;
    proof {
        assert forall|b: u8| #[trigger] tree.root.has_symbol(b) <==> count_of(data@, b) > 0 by {
            assert(freq_table@[b as int] == count_of(data@, b));
        }
    }
    block.code_book = Some(CodeBook { symbol_table, tree });
    Ok(())
}

/// The frequency table of `data`.
pub open spec fn freq_of(data: Seq<u8>) -> Seq<u64> {
    Seq::new(256, |i: int| count_of(data, i as u8) as u64)
}

/// The header views of some blocks.
pub open spec fn headers_of(bs: Seq<FileBlock>) -> Seq<HeaderView> {
    bs.map_values(|b: FileBlock| b.header())
}

/// The number of bytes a member takes in the payload region: its tree and
/// data bits, padded to a whole byte.
pub open spec fn member_bytes(b: FileBlock) -> nat {
    ((b.tree_bit_size + b.data_bit_size + 7) / 8) as nat
}

/// The bytes the first `n` members take in the payload region.
pub open spec fn members_len(bs: Seq<FileBlock>, n: int) -> nat
    decreases n,
{
    if n <= 0 {
        0
    } else {
        members_len(bs, n - 1) + member_bytes(bs[n - 1])
    }
}

/// The size of the header region of some blocks, which depends on their
/// names alone.
pub open spec fn region_len(bs: Seq<FileBlock>, n: int) -> nat
    decreases n,
{
    if n <= 0 {
        1
    } else {
        region_len(bs, n - 1) + bs[n - 1].filename_rel@.len() + 34
    }
}

pub proof fn lemma_region_len_names(a: Seq<FileBlock>, b: Seq<FileBlock>, n: int)
    requires
        0 <= n <= a.len(),
        n <= b.len(),
        forall|j: int| 0 <= j < n ==> #[trigger] a[j].filename_rel@ == b[j].filename_rel@,
    ensures
        region_len(a, n) == region_len(b, n),
    decreases n,
{
    if n > 0 {
        lemma_region_len_names(a, b, n - 1);
    }
}

/// The header offsets: the first member right after the signature and the
/// header region, each next one right after the bytes of the one before.
pub open spec fn offsets_coherent(bs: Seq<FileBlock>) -> bool {
    &&& bs.len() > 0 ==> bs[0].file_byte_offset == 8 + header_region(headers_of(bs)).len()
    &&& forall|i: int|
        0 <= i < bs.len() - 1 ==> #[trigger] bs[i + 1].file_byte_offset == bs[i].file_byte_offset
            + member_bytes(bs[i])
}

/// The block with another offset.
pub open spec fn with_offset(b: FileBlock, offset: int) -> FileBlock {
    FileBlock { file_byte_offset: offset as u64, ..b }
}

/// The blocks with the first `i` of them placed one after the other from
/// byte `base`.
#[verifier::opaque]
pub open spec fn laid_out(bs: Seq<FileBlock>, base: int, i: int) -> Seq<FileBlock> {
    Seq::new(
        bs.len(),
        |j: int|
            if j < i {
                with_offset(bs[j], base + members_len(bs, j))
            } else {
                bs[j]
            },
    )
}

pub proof fn lemma_laid_out(bs: Seq<FileBlock>, base: int, i: int)
    ensures
        laid_out(bs, base, i).len() == bs.len(),
        forall|j: int|
            0 <= j < bs.len() ==> #[trigger] laid_out(bs, base, i)[j] == if j < i {
                with_offset(bs[j], base + members_len(bs, j))
            } else {
                bs[j]
            },
{
    reveal(laid_out);
}

proof fn lemma_laid_out_sizes(bs: Seq<FileBlock>, base: int, i: int, n: int)
    requires
        0 <= n <= bs.len(),
    ensures
        members_len(laid_out(bs, base, i), n) == members_len(bs, n),
        region_len(laid_out(bs, base, i), n) == region_len(bs, n),
{
    lemma_laid_out(bs, base, i);
    lemma_members_len_same(laid_out(bs, base, i), bs, n);
    lemma_region_len_names(laid_out(bs, base, i), bs, n);
}

/// Writes a record for each block, setting its offset first, then the group
/// separator. Members are laid out one after the other from the end of the
/// header region.
pub fn write_block_headers(writer: &mut FileWriter, blocks: &mut Vec<FileBlock>)
    requires
        old(writer).wf(),
        old(writer).aligned(),
        forall|i: int| 0 <= i < old(blocks)@.len() ==> name_ok(#[trigger] old(blocks)@[i].filename_rel@),
        forall|i: int|
            0 <= i < old(blocks)@.len() ==> #[trigger] old(blocks)@[i].tree_bit_size + old(
                blocks,
            )@[i].data_bit_size + 7 <= u64::MAX,
        8 * (old(writer).bytes().len() + region_len(old(blocks)@, old(blocks)@.len() as int)
            + members_len(old(blocks)@, old(blocks)@.len() as int)) <= usize::MAX,
    ensures
        final(writer).wf(),
        final(writer).aligned(),
        final(blocks)@ == laid_out(
            old(blocks)@,
            old(writer).bytes().len() + header_region(headers_of(final(blocks)@)).len() as int,
            old(blocks)@.len() as int,
        ),
        final(writer).bytes() == old(writer).bytes() + header_region(headers_of(final(blocks)@)),
        header_region(headers_of(final(blocks)@)).len() == region_len(
            old(blocks)@,
            old(blocks)@.len() as int,
        ),
{
    let ghost start = writer.bytes();
    let ghost b0 = blocks@;
    let ghost n = blocks@.len() as int;
    proof {
        writer.lemma_view();
    }
    // the header region: each record with its separator, and the final
    // group separator
    let mut header_size: u64 = 1;
    let mut i: usize = 0;
    while i < blocks.len()
        invariant
            blocks@ == b0,
            i <= n == b0.len(),
            header_size == region_len(b0, i as int),
            8 * (start.len() + region_len(b0, n) + members_len(b0, n)) <= usize::MAX,
        decreases n - i,
    {
        proof {
            lemma_region_len_mono(b0, i + 1, n);
        }
        header_size = header_size + blocks[i].get_header_size() + 1;
        i = i + 1;
    }
    let base: u64 = writer.bytes_len() as u64 + header_size;
    let ghost gb = base as int;
    let mut total_offset: u64 = 0;
    i = 0;
    assert(laid_out(b0, gb, 0) =~= b0) by {
        reveal(laid_out);
    }
    while i < blocks.len()
        invariant
            writer.wf(),
            writer.aligned(),
            i <= n == blocks@.len() == b0.len(),
            base == start.len() + region_len(b0, n),
            gb == base,
            total_offset == members_len(b0, i as int),
            8 * (start.len() + region_len(b0, n) + members_len(b0, n)) <= usize::MAX,
            forall|j: int| 0 <= j < n ==> name_ok(#[trigger] b0[j].filename_rel@),
            forall|j: int|
                0 <= j < n ==> #[trigger] b0[j].tree_bit_size + b0[j].data_bit_size + 7 <= u64::MAX,
            blocks@ == laid_out(b0, gb, i as int),
            writer.bytes() == start + records(headers_of(blocks@).take(i as int)),
            writer.bytes().len() + 1 == start.len() + region_len(b0, i as int),
            writer.bits().len() == 8 * writer.bytes().len(),
        decreases n - i,
    {
        proof {
            lemma_members_len_mono(b0, i + 1, n);
            lemma_region_len_mono(b0, i + 1, n);
            lemma_laid_out(b0, gb, i as int);
            assert(blocks@[i as int] == b0[i as int]);
            assert(name_ok(b0[i as int].filename_rel@));
        }
        let ghost w0 = writer.bytes();
        let ghost l0 = blocks@;
        let offset = base + total_offset;
        write_record(writer, blocks, i, offset);
        proof {
            lemma_records_step(b0, gb, i as int);
            let nb = with_offset(b0[i as int], gb + members_len(b0, i as int));
            assert(offset as int == gb + members_len(b0, i as int));
            assert(blocks@ == l0.update(i as int, nb));
            assert(blocks@ == laid_out(b0, gb, i + 1));
            assert(writer.bytes() =~= start + (records(headers_of(l0).take(i as int)) + seq![REC_SEP]
                + record_body(nb.header())));
        }
        total_offset = total_offset + (blocks[i].tree_bit_size + blocks[i].data_bit_size + 7) / 8;
        i = i + 1;
    }
    proof {
        lemma_laid_out_sizes(b0, gb, n, n);
        assert(headers_of(blocks@).take(n) =~= headers_of(blocks@));
    }
    writer.write_byte(GRP_SEP);
}

/// Sets a block's offset and writes its record with its separator.
fn write_record(writer: &mut FileWriter, blocks: &mut Vec<FileBlock>, i: usize, offset: u64)
    requires
        old(writer).wf(),
        old(writer).aligned(),
        i < old(blocks)@.len(),
        name_ok(old(blocks)@[i as int].filename_rel@),
        old(writer).bits().len() + 8 * (old(blocks)@[i as int].filename_rel@.len() + 34)
            <= usize::MAX,
    ensures
        final(writer).wf(),
        final(writer).aligned(),
        final(blocks)@ == old(blocks)@.update(i as int, with_offset(old(blocks)@[i as int], offset as int)),
        final(writer).bytes() == old(writer).bytes() + seq![REC_SEP] + record_body(
            with_offset(old(blocks)@[i as int], offset as int).header(),
        ),
        final(writer).bits().len() == 8 * final(writer).bytes().len(),
        final(writer).bytes().len() == old(writer).bytes().len() + old(blocks)@[i as int].filename_rel@.len() + 34,
{
    proof {
        old(writer).lemma_view();
        let b = with_offset(old(blocks)@[i as int], offset as int);
        crate::bitwise::lemma_le_bytes(b.tree_bit_size);
        crate::bitwise::lemma_le_bytes(b.data_bit_size);
        crate::bitwise::lemma_le_bytes(b.file_byte_offset);
        crate::bitwise::lemma_le_bytes(b.original_byte_size);
    }
    writer.write_byte(REC_SEP);
    blocks[i].file_byte_offset = offset;
    assert(blocks@ =~= old(blocks)@.update(i as int, with_offset(old(blocks)@[i as int], offset as int)));
    writer.write_block(&blocks[i]);
    proof {
        writer.lemma_view();
    }
}

proof fn lemma_records_step(b0: Seq<FileBlock>, base: int, i: int)
    requires
        0 <= i < b0.len(),
    ensures
        laid_out(b0, base, i).update(i, with_offset(b0[i], base + members_len(b0, i))) == laid_out(
            b0,
            base,
            i + 1,
        ),
        records(headers_of(laid_out(b0, base, i + 1)).take(i + 1)) == records(
            headers_of(laid_out(b0, base, i)).take(i),
        ) + seq![REC_SEP] + record_body(with_offset(b0[i], base + members_len(b0, i)).header()),
{
    reveal(laid_out);
    let l0 = laid_out(b0, base, i);
    let l1 = laid_out(b0, base, i + 1);
    assert(l0.update(i, with_offset(b0[i], base + members_len(b0, i))) =~= l1);
    assert(headers_of(l1).take(i + 1).drop_last() =~= headers_of(l0).take(i));
}

pub proof fn lemma_region_len_mono(bs: Seq<FileBlock>, i: int, n: int)
    requires
        0 <= i <= n,
    ensures
        region_len(bs, i) <= region_len(bs, n),
    decreases n - i,
{
    if i < n {
        lemma_region_len_mono(bs, i, n - 1);
    }
}

pub proof fn lemma_members_len_mono(bs: Seq<FileBlock>, i: int, n: int)
    requires
        0 <= i <= n,
    ensures
        members_len(bs, i) <= members_len(bs, n),
    decreases n - i,
{
    if i < n {
        lemma_members_len_mono(bs, i, n - 1);
    }
}

/// Members with the same sizes take the same room.
pub proof fn lemma_members_len_same(a: Seq<FileBlock>, b: Seq<FileBlock>, n: int)
    requires
        0 <= n <= a.len(),
        n <= b.len(),
        forall|j: int|
            0 <= j < n ==> #[trigger] a[j].tree_bit_size == b[j].tree_bit_size && a[j].data_bit_size
                == b[j].data_bit_size,
    ensures
        members_len(a, n) == members_len(b, n),
    decreases n,
{
    if n > 0 {
        lemma_members_len_same(a, b, n - 1);
    }
}

/// Builds the code book of every member. Stops at the first member that
/// cannot be compressed.
pub fn create_code_books(blocks: &mut Vec<FileBlock>, contents: &Vec<Vec<u8>>) -> (r: Result<
    (),
    ArchiveError,
>)
    requires
        old(blocks)@.len() == contents@.len(),
        forall|i: int| 0 <= i < contents@.len() ==> #[trigger] contents@[i]@.len() <= u64::MAX / 32,
    ensures
        final(blocks)@.len() == old(blocks)@.len(),
        forall|i: int|
            0 <= i < final(blocks)@.len() ==> same_names(#[trigger] final(blocks)@[i], old(blocks)@[i]),
        (exists|i: int| 0 <= i < contents@.len() && #[trigger] contents@[i]@.len() == 0) ==> r is Err,
        r == Err::<(), ArchiveError>(ArchiveError::EmptyInput) ==> exists|i: int|
            0 <= i < contents@.len() && #[trigger] contents@[i]@.len() == 0,
        r is Err ==> r == Err::<(), ArchiveError>(ArchiveError::EmptyInput) || r == Err::<
            (),
            ArchiveError,
        >(ArchiveError::CodeTooLong),
        r is Ok <==> forall|i: int| 0 <= i < contents@.len() ==> codable(#[trigger] contents@[i]@),
        r is Ok ==> forall|i: int|
            0 <= i < final(blocks)@.len() ==> block_ready(#[trigger] final(blocks)@[i], contents@[i]@),
{
    let mut i: usize = 0;
    while i < blocks.len()
        invariant
            i <= blocks@.len() == old(blocks)@.len() == contents@.len(),
            forall|j: int| 0 <= j < contents@.len() ==> #[trigger] contents@[j]@.len() <= u64::MAX / 32,
            forall|j: int| 0 <= j < blocks@.len() ==> same_names(#[trigger] blocks@[j], old(blocks)@[j]),
            forall|j: int| 0 <= j < i ==> block_ready(#[trigger] blocks@[j], contents@[j]@),
            forall|j: int| 0 <= j < i ==> #[trigger] contents@[j]@.len() > 0,
            forall|j: int| 0 <= j < i ==> codable(#[trigger] contents@[j]@),
        decreases blocks@.len() - i,
    {
        let ghost before = blocks@;
        let res = create_code_book(&mut blocks[i], &contents[i]);
        proof {
            assert forall|j: int| 0 <= j < blocks@.len() && j != i implies #[trigger] blocks@[j]
                == before[j] by {}
        }
        match res {
            Ok(()) => {},
            Err(e) => {
                return Err(e);
            },
        }
        i = i + 1;
    }
    Ok(())
}

/// What a member's region holds before its padding: its serialised tree,
/// then the codes of its bytes.
pub open spec fn member_content(b: FileBlock, data: Seq<u8>) -> Seq<bool> {
    b.code_book->Some_0.tree.root.tree_bits() + payload_bits(b.code_book->Some_0.symbol_table@, data)
}

/// Writes a member's tree and data, padded to a whole byte.
fn write_member(writer: &mut FileWriter, block: &FileBlock, data: &Vec<u8>)
    requires
        old(writer).wf(),
        old(writer).aligned(),
        block_ready(*block, data@),
        old(writer).bits().len() + 8 * member_bytes(*block) + 8 <= usize::MAX,
    ensures
        final(writer).wf(),
        final(writer).aligned(),
        final(writer).bytes().len() == old(writer).bytes().len() + member_bytes(*block),
        final(writer).bytes().take(old(writer).bytes().len() as int) == old(writer).bytes(),
        bits_of(final(writer).bytes()) == bits_of(old(writer).bytes()) + member_content(*block, data@)
            + zero_bits((8 * member_bytes(*block) - member_content(*block, data@).len()) as nat),
        member_content(*block, data@).len() == block.tree_bit_size + block.data_bit_size,
{
    proof {
        old(writer).lemma_view();
        assert(bits_of(old(writer).bytes()) =~= old(writer).bits());
        crate::bitwise::lemma_bits_of_len(old(writer).bytes());
    }
    let code_book = match &block.code_book {
        Some(cb) => cb,
        None => {
            proof {
                assert(false);
            }
            return ;
        },
    };
    write_node(writer, &code_book.tree.root);
    compress_file(data, writer, &code_book.symbol_table);
    let ghost w1 = writer.bytes();
    proof {
        writer.lemma_view();
        crate::bitwise::lemma_bits_of_len(w1);
        let c = member_content(*block, data@);
        assert(bits_of(w1).take(8 * old(writer).bytes().len() as int) =~= bits_of(old(writer).bytes()));
        assert forall|k: int| 0 <= k < old(writer).bytes().len() implies #[trigger] w1[k] == old(
            writer,
        ).bytes()[k] by {
            assert(bits_of(w1).subrange(8 * k, 8 * k + 8) =~= bits_of(old(writer).bytes()).subrange(
                8 * k,
                8 * k + 8,
            ));
            crate::bitwise::lemma_byte_at(w1, old(writer).bytes(), k);
        }
    }
    writer.align_to_byte();
    assert(writer.bytes().take(old(writer).bytes().len() as int) =~= old(writer).bytes());
}

/// The first `i` members stand in `bytes`, each at its place after the
/// first `l` bytes.
#[verifier::opaque]
pub open spec fn members_written(
    bytes: Seq<u8>,
    l: int,
    bs: Seq<FileBlock>,
    cs: Seq<Vec<u8>>,
    i: int,
) -> bool {
    forall|j: int|
        0 <= j < i ==> {
            let s = 8 * (l + members_len(bs, j));
            bits_of(bytes).subrange(
                s,
                s + (#[trigger] bs[j]).tree_bit_size as int + bs[j].data_bit_size as int,
            ) == member_content(bs[j], cs[j]@)
        }
}

pub proof fn lemma_members_written_at(
    bytes: Seq<u8>,
    l: int,
    bs: Seq<FileBlock>,
    cs: Seq<Vec<u8>>,
    n: int,
    i: int,
)
    requires
        members_written(bytes, l, bs, cs, n),
        0 <= i < n,
    ensures
        ({
            let s = 8 * (l + members_len(bs, i));
            bits_of(bytes).subrange(s, s + bs[i].tree_bit_size as int + bs[i].data_bit_size as int)
                == member_content(bs[i], cs[i]@)
        }),
{
    reveal(members_written);
    assert(bs[i] == bs[i]);
}

proof fn lemma_members_written_step(
    w0: Seq<u8>,
    w1: Seq<u8>,
    l: int,
    bs: Seq<FileBlock>,
    cs: Seq<Vec<u8>>,
    i: int,
)
    requires
        0 <= i < bs.len(),
        0 <= l,
        members_written(w0, l, bs, cs, i),
        w0.len() == l + members_len(bs, i),
        w1.take(w0.len() as int) == w0,
        w1.len() >= w0.len(),
        bits_of(w1).subrange(
            8 * w0.len() as int,
            8 * w0.len() + bs[i].tree_bit_size + bs[i].data_bit_size,
        ) == member_content(bs[i], cs[i]@),
    ensures
        members_written(w1, l, bs, cs, i + 1),
{
    reveal(members_written);
    assert(w1 =~= w0 + w1.skip(w0.len() as int));
    crate::bitwise::lemma_bits_of_add(w0, w1.skip(w0.len() as int));
    crate::bitwise::lemma_bits_of_len(w0);
    assert forall|j: int| 0 <= j < i + 1 implies {
        let s = 8 * (l + members_len(bs, j));
        bits_of(w1).subrange(
            s,
            s + (#[trigger] bs[j]).tree_bit_size as int + bs[j].data_bit_size as int,
        ) == member_content(bs[j], cs[j]@)
    } by {
        if j < i {
            let sj = 8 * (l + members_len(bs, j));
            lemma_members_len_mono(bs, j + 1, i);
            let ej = sj + bs[j].tree_bit_size as int + bs[j].data_bit_size as int;
            assert(bits_of(w1).subrange(sj, ej) =~= bits_of(w0).subrange(sj, ej));
        }
    }
}

/// Writes each member's tree and data, each padded to a whole byte.
pub fn compress_files(writer: &mut FileWriter, blocks: &Vec<FileBlock>, contents: &Vec<Vec<u8>>)
    requires
        old(writer).wf(),
        old(writer).aligned(),
        blocks@.len() == contents@.len(),
        forall|i: int| 0 <= i < blocks@.len() ==> block_ready(#[trigger] blocks@[i], contents@[i]@),
        8 * (old(writer).bytes().len() + members_len(blocks@, blocks@.len() as int)) + 8 <= usize::MAX,
    ensures
        final(writer).wf(),
        final(writer).aligned(),
        final(writer).bytes().len() == old(writer).bytes().len() + members_len(
            blocks@,
            blocks@.len() as int,
        ),
        final(writer).bytes().take(old(writer).bytes().len() as int) == old(writer).bytes(),
        members_written(
            final(writer).bytes(),
            old(writer).bytes().len() as int,
            blocks@,
            contents@,
            blocks@.len() as int,
        ),
{
    let ghost start = writer.bytes();
    let ghost l = start.len() as int;
    let ghost n = blocks@.len() as int;
    proof {
        lemma_members_len_mono(blocks@, 0, n);
        reveal(members_written);
        assert(start.take(l) =~= start);
    }
    let mut i: usize = 0;
    while i < blocks.len()
        invariant
            writer.wf(),
            writer.aligned(),
            i <= n == blocks@.len() == contents@.len(),
            l == start.len(),
            forall|j: int| 0 <= j < n ==> block_ready(#[trigger] blocks@[j], contents@[j]@),
            8 * (l + members_len(blocks@, n)) + 8 <= usize::MAX,
            writer.bytes().len() == l + members_len(blocks@, i as int),
            writer.bytes().take(l) == start,
            members_written(writer.bytes(), l, blocks@, contents@, i as int),
        decreases n - i,
    {
        let ghost w0 = writer.bytes();
        proof {
            lemma_members_len_mono(blocks@, i + 1, n);
            writer.lemma_view();
        }
        write_member(writer, &blocks[i], &contents[i]);
        proof {
            let w1 = writer.bytes();
            let c = member_content(blocks@[i as int], contents@[i as int]@);
            crate::bitwise::lemma_bits_of_len(w0);
            assert(bits_of(w1).subrange(8 * w0.len() as int, 8 * w0.len() + c.len() as int) =~= c);
            lemma_members_written_step(w0, w1, l, blocks@, contents@, i as int);
            assert(w1.take(l) =~= start) by {
                assert(w1.take(w0.len() as int) == w0);
            }
        }
        i = i + 1;
    }
}

/// A bound on the size of an archive of these members: their names, four
/// bytes for each byte of contents, and room for a record and a tree each.
pub open spec fn input_size(bs: Seq<FileBlock>, cs: Seq<Vec<u8>>, n: int) -> nat
    decreases n,
{
    if n <= 0 {
        0
    } else {
        input_size(bs, cs, n - 1) + bs[n - 1].filename_rel@.len() + 4 * cs[n - 1]@.len() + 360
    }
}

proof fn lemma_input_size_names(a: Seq<FileBlock>, b: Seq<FileBlock>, cs: Seq<Vec<u8>>, n: int)
    requires
        0 <= n <= a.len(),
        n <= b.len(),
        forall|j: int| 0 <= j < n ==> #[trigger] a[j].filename_rel@ == b[j].filename_rel@,
    ensures
        input_size(a, cs, n) == input_size(b, cs, n),
    decreases n,
{
    if n > 0 {
        lemma_input_size_names(a, b, cs, n - 1);
    }
}

/// The tree and data of a member made ready take little room.
pub proof fn lemma_member_bound(b: FileBlock, data: Seq<u8>)
    requires
        block_ready(b, data),
    ensures
        b.tree_bit_size <= 2559,
        b.data_bit_size <= 32 * data.len(),
        member_bytes(b) <= 321 + 4 * data.len(),
{
    let cb = b.code_book->Some_0;
    lemma_tree_bits_len(*cb.tree.root);
    crate::coding::lemma_payload_bound(cb.symbol_table@, data);
}

proof fn lemma_input_bound(bs: Seq<FileBlock>, cs: Seq<Vec<u8>>, n: int)
    requires
        0 <= n <= bs.len(),
        n <= cs.len(),
        forall|j: int| 0 <= j < n ==> block_ready(#[trigger] bs[j], cs[j]@),
    ensures
        region_len(bs, n) + members_len(bs, n) <= 1 + input_size(bs, cs, n),
    decreases n,
{
    if n > 0 {
        lemma_input_bound(bs, cs, n - 1);
        assert(block_ready(bs[n - 1], cs[n - 1]@));
        lemma_member_bound(bs[n - 1], cs[n - 1]@);
    }
}

/// How an archive of `bs` with contents `cs` is made: the signature, the
/// header region, then each member's tree and data from its offset.
pub open spec fn archive_layout(bs: Seq<FileBlock>, cs: Seq<Vec<u8>>, bytes: Seq<u8>) -> bool {
    let hr = header_region(headers_of(bs));
    let n = bs.len() as int;
    &&& bs.len() == cs.len()
    &&& bytes.len() == 8 + hr.len() + members_len(bs, n)
    &&& bytes.take(8) == le_bytes(SIG)
    &&& bytes.subrange(8, 8 + hr.len() as int) == hr
    &&& forall|i: int| 0 <= i < n ==> block_ready(#[trigger] bs[i], cs[i]@)
    &&& forall|i: int| 0 <= i < n ==> name_ok(#[trigger] bs[i].filename_rel@)
    &&& forall|i: int|
        0 <= i < n ==> #[trigger] bs[i].file_byte_offset == 8 + hr.len() + members_len(bs, i)
    &&& members_written(bytes, 8 + hr.len() as int, bs, cs, n)
}

/// Compresses the members whose contents are `contents` into an archive.
/// Every member must have contents; a member whose code would exceed 32 bits
/// is refused too.
pub fn archive(blocks: &mut Vec<FileBlock>, contents: &Vec<Vec<u8>>) -> (r: Result<
    Vec<u8>,
    ArchiveError,
>)
    requires
        old(blocks)@.len() == contents@.len(),
        forall|i: int| 0 <= i < old(blocks)@.len() ==> name_ok(#[trigger] old(blocks)@[i].filename_rel@),
        8 * (10 + input_size(old(blocks)@, contents@, contents@.len() as int)) <= usize::MAX,
    ensures
        final(blocks)@.len() == old(blocks)@.len(),
        forall|i: int|
            0 <= i < final(blocks)@.len() ==> same_names(#[trigger] final(blocks)@[i], old(blocks)@[i]),
        (r == Err::<Vec<u8>, ArchiveError>(ArchiveError::EmptyInput)) <==> exists|i: int|
            0 <= i < contents@.len() && #[trigger] contents@[i]@.len() == 0,
        r is Err ==> r == Err::<Vec<u8>, ArchiveError>(ArchiveError::EmptyInput) || r == Err::<
            Vec<u8>,
            ArchiveError,
        >(ArchiveError::CodeTooLong),
        r is Ok <==> forall|i: int| 0 <= i < contents@.len() ==> codable(#[trigger] contents@[i]@),
        r matches Ok(bytes) ==> archive_layout(final(blocks)@, contents@, bytes@),
{
    let ghost n = contents@.len() as int;
    let mut i: usize = 0;
    while i < contents.len()
        invariant
            i <= n == contents@.len(),
            forall|j: int| 0 <= j < i ==> #[trigger] contents@[j]@.len() > 0,
        decreases n - i,
    {
        if contents[i].len() == 0 {
            return Err(ArchiveError::EmptyInput);
        }
        i = i + 1;
    }
    proof {
        assert forall|j: int| 0 <= j < n implies #[trigger] contents@[j]@.len() <= u64::MAX / 32 by {
            lemma_input_size_member(old(blocks)@, contents@, j, n);
        }
    }
    let ghost b_start = blocks@;
    let res = create_code_books(blocks, contents);
    match res {
        Ok(()) => {},
        Err(e) => {
            return Err(e);
        },
    }
    let ghost b1 = blocks@;
    proof {
        lemma_input_size_names(b1, b_start, contents@, n);
        lemma_input_bound(b1, contents@, n);
        assert forall|j: int| 0 <= j < n implies #[trigger] b1[j].tree_bit_size
            + b1[j].data_bit_size + 7 <= u64::MAX && name_ok(b1[j].filename_rel@) by {
            assert(block_ready(b1[j], contents@[j]@));
            lemma_member_bound(b1[j], contents@[j]@);
            lemma_input_size_member(b1, contents@, j, n);
            assert(name_ok(b_start[j].filename_rel@));
        }
    }
    write_archive(blocks, contents)
}

/// Writes the archive of members whose code books are built: the signature,
/// the header region with each member's offset, then the members.
fn write_archive(blocks: &mut Vec<FileBlock>, contents: &Vec<Vec<u8>>) -> (r: Result<
    Vec<u8>,
    ArchiveError,
>)
    requires
        old(blocks)@.len() == contents@.len(),
        forall|j: int| 0 <= j < old(blocks)@.len() ==> block_ready(#[trigger] old(blocks)@[j], contents@[j]@),
        forall|j: int|
            0 <= j < old(blocks)@.len() ==> #[trigger] old(blocks)@[j].tree_bit_size + old(
                blocks,
            )@[j].data_bit_size + 7 <= u64::MAX && name_ok(old(blocks)@[j].filename_rel@),
        8 * (9 + region_len(old(blocks)@, old(blocks)@.len() as int) + members_len(
            old(blocks)@,
            old(blocks)@.len() as int,
        )) <= usize::MAX,
    ensures
        final(blocks)@.len() == old(blocks)@.len(),
        forall|i: int|
            0 <= i < final(blocks)@.len() ==> same_names(#[trigger] final(blocks)@[i], old(blocks)@[i]),
        r matches Ok(bytes) && archive_layout(final(blocks)@, contents@, bytes@),
{
    let ghost n = contents@.len() as int;
    let ghost b1 = blocks@;
    let mut writer = FileWriter::new();
    writer.write_u64(SIG);
    proof {
        crate::bitwise::lemma_le_bytes(SIG);
        assert(writer.bytes() =~= le_bytes(SIG));
    }
    write_block_headers(&mut writer, blocks);
    let ghost b2 = blocks@;
    let ghost hr = header_region(headers_of(b2));
    proof {
        let base = 8 + hr.len() as int;
        lemma_laid_out(b1, base, n);
        lemma_laid_out_sizes(b1, base, n, n);
        lemma_placed(b1, b2, contents@, base, n);
    }
    let ghost w_head = writer.bytes();
    compress_files(&mut writer, blocks, contents);
    let bytes = writer.into_bytes();
    proof {
        assert(bytes@.take(w_head.len() as int) == w_head);
        assert(w_head == le_bytes(SIG) + hr);
        assert(bytes@.take(8) =~= le_bytes(SIG));
        assert(bytes@.subrange(8, 8 + hr.len() as int) =~= w_head.subrange(8, 8 + hr.len() as int));
        assert(w_head.subrange(8, 8 + hr.len() as int) =~= hr);
    }
    Ok(bytes)
}

proof fn lemma_placed(b1: Seq<FileBlock>, b2: Seq<FileBlock>, cs: Seq<Vec<u8>>, base: int, n: int)
    requires
        n == b1.len() == cs.len(),
        b2 == laid_out(b1, base, n),
        members_len(b2, n) == members_len(b1, n),
        0 <= base,
        base + members_len(b1, n) <= u64::MAX,
        forall|j: int| 0 <= j < n ==> block_ready(#[trigger] b1[j], cs[j]@),
        forall|j: int| 0 <= j < n ==> name_ok(#[trigger] b1[j].filename_rel@),
    ensures
        b2.len() == n,
        forall|j: int| 0 <= j < n ==> block_ready(#[trigger] b2[j], cs[j]@),
        forall|j: int| 0 <= j < n ==> #[trigger] b2[j].file_byte_offset == base + members_len(b2, j),
        forall|j: int| 0 <= j < n ==> name_ok(#[trigger] b2[j].filename_rel@),
        forall|j: int| 0 <= j < n ==> same_names(#[trigger] b2[j], b1[j]),
        forall|j: int|
            0 <= j < n ==> #[trigger] b2[j].tree_bit_size == b1[j].tree_bit_size
                && b2[j].data_bit_size == b1[j].data_bit_size,
{
    lemma_laid_out(b1, base, n);
    assert forall|j: int| 0 <= j < n implies #[trigger] b2[j].file_byte_offset == base
        + members_len(b2, j) by {
        lemma_members_len_same(b2, b1, j);
        lemma_members_len_mono(b1, j, n);
    }
}

proof fn lemma_input_size_member(bs: Seq<FileBlock>, cs: Seq<Vec<u8>>, j: int, n: int)
    requires
        0 <= j < n <= bs.len(),
        n <= cs.len(),
    ensures
        bs[j].filename_rel@.len() + 4 * cs[j]@.len() + 360 <= input_size(bs, cs, n),
    decreases n,
{
    if j < n - 1 {
        lemma_input_size_member(bs, cs, j, n - 1);
    }
}

/// The offsets of an archive are coherent: the first member starts right
/// after the signature and the header region, and each next one right after
/// the padded bytes of the one before.
pub proof fn lemma_offsets_coherent(bs: Seq<FileBlock>, cs: Seq<Vec<u8>>, bytes: Seq<u8>)
    requires
        archive_layout(bs, cs, bytes),
    ensures
        offsets_coherent(bs),
{
    let hr = header_region(headers_of(bs));
    if bs.len() > 0 {
        assert(bs[0].file_byte_offset == 8 + hr.len() + members_len(bs, 0));
    }
    assert forall|i: int| 0 <= i < bs.len() - 1 implies #[trigger] bs[i + 1].file_byte_offset
        == bs[i].file_byte_offset + member_bytes(bs[i]) by {
        assert(bs[i].file_byte_offset == 8 + hr.len() + members_len(bs, i));
        assert(bs[i + 1].file_byte_offset == 8 + hr.len() + members_len(bs, i + 1));
    }
}

/// Every archive starts with the signature.
pub proof fn lemma_signature(bs: Seq<FileBlock>, cs: Seq<Vec<u8>>, bytes: Seq<u8>)
    requires
        archive_layout(bs, cs, bytes),
    ensures
        bytes.len() >= 8,
        bytes.take(8) == le_bytes(SIG),
{
}

} // verus!
