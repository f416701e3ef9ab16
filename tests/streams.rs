use zipper::block::FileBlock;
use zipper::read::FileReader;
use zipper::utils::{get_size_of, str_to_u64};
use zipper::write::FileWriter;
use zipper::charset::SIG;

#[test]
fn bits_are_written_least_significant_first() {
    let mut w = FileWriter::new();
    w.write_bit(1);
    w.write_bit(0);
    w.write_bit(1);
    w.align_to_byte();
    w.write_byte(0xAB);
    w.write_bits(0b110, 3);
    assert_eq!(w.bit_len(), 19);
    assert_eq!(w.into_bytes(), vec![0b101, 0xAB, 0b110]);
}

#[test]
fn u64_is_little_endian() {
    let mut w = FileWriter::new();
    w.write_u64(0x0102_0304_0506_0708);
    let bytes = w.into_bytes();
    assert_eq!(bytes, vec![8, 7, 6, 5, 4, 3, 2, 1]);
    let mut r = FileReader::new(bytes);
    assert_eq!(r.read_u64(), 0x0102_0304_0506_0708);
    assert!(r.eof());
}

#[test]
fn reader_reads_bits_and_bytes() {
    let mut r = FileReader::new(vec![0b1010_0101, 0x7F]);
    assert_eq!(r.read_bits(4), 0b0101);
    assert_eq!(r.read_len(), 4);
    assert_eq!(r.read_bits(4), 0b1010);
    assert_eq!(r.view_byte(), 0x7F);
    assert_eq!(r.read_byte(), 0x7F);
    assert!(r.eof());
    r.seek_from_start(1);
    assert_eq!(r.read_len(), 0);
    assert_eq!(r.read_bit(), 1);
    r.seek_from_start(10);
    assert!(r.eof());
}

#[test]
fn header_record_round_trip() {
    let mut b = FileBlock::new("dir/name.txt", "/abs/dir/name.txt");
    b.tree_bit_size = 29;
    b.data_bit_size = 13;
    b.file_byte_offset = 77;
    b.original_byte_size = 9;
    assert_eq!(b.get_header_size(), 12 + 1 + 32);
    let mut w = FileWriter::new();
    w.write_block(&b);
    let bytes = w.into_bytes();
    assert_eq!(bytes.len(), 45);
    assert_eq!(&bytes[..12], b"dir/name.txt");
    assert_eq!(bytes[12], 0);
    let mut r = FileReader::new(bytes);
    let back = r.read_block().unwrap();
    assert_eq!(back.filename_rel, b"dir/name.txt".to_vec());
    assert_eq!(back.tree_bit_size, 29);
    assert_eq!(back.data_bit_size, 13);
    assert_eq!(back.file_byte_offset, 77);
    assert_eq!(back.original_byte_size, 9);
    assert!(back.code_book.is_none());
}

#[test]
fn signature_is_zipper_padded() {
    assert_eq!(str_to_u64("zipper"), SIG);
    assert_eq!(SIG.to_le_bytes(), *b"zipper\0\0");
    assert_eq!(str_to_u64("ab"), 0x6261);
    assert_eq!(str_to_u64("abcdefghij"), u64::from_le_bytes(*b"abcdefgh"));
}

#[test]
fn sizes_of_fields() {
    assert_eq!(get_size_of(0u64), 8);
    assert_eq!(get_size_of(0u8), 1);
}

#[test]
fn new_block_has_names_and_zero_sizes() {
    let b = FileBlock::new("a/b", "/x/a/b");
    assert_eq!(b.filename_rel, b"a/b".to_vec());
    assert_eq!(b.filename_abs, "/x/a/b");
    assert_eq!(b.tree_bit_size, 0);
    assert_eq!(b.data_bit_size, 0);
    assert_eq!(b.file_byte_offset, 0);
    assert_eq!(b.original_byte_size, 0);
}
