use zipper::bitwise::{get_bit, set_bit, SymbolCode};
use zipper::block::FileBlock;
use zipper::coding::{
    compress_file, create_code_table, create_code_tree, create_freq_table, decompress_symbols,
    read_node, walk_code_tree, write_node, TABLE_SIZE,
};
use zipper::error::ArchiveError;
use zipper::read::FileReader;
use zipper::tree::Node;
use zipper::write::FileWriter;

fn book(data: &[u8]) -> FileBlock {
    let mut block = FileBlock::new("member", "/tmp/member");
    create_code_book_ok(&mut block, data);
    block
}

fn create_code_book_ok(block: &mut FileBlock, data: &[u8]) {
    let r = zipper::compress::create_code_book(block, &data.to_vec());
    assert_eq!(r, Ok(()));
}

fn bit_len_of(block: &FileBlock, b: u8) -> u8 {
    block.code_book.as_ref().unwrap().symbol_table[b as usize].bit_len
}

fn code_bits(sc: &SymbolCode) -> Vec<bool> {
    (0..sc.bit_len as u32).map(|i| (sc.encoded_symbol >> i) & 1 == 1).collect()
}

/// Encodes `data` as its tree followed by its codes, then decodes it back.
fn round_trip(data: &[u8]) -> Vec<u8> {
    let block = book(data);
    let cb = block.code_book.as_ref().unwrap();
    let mut writer = FileWriter::new();
    write_node(&mut writer, &cb.tree.root);
    assert_eq!(writer.bit_len() as u64, block.tree_bit_size);
    compress_file(&data.to_vec(), &mut writer, &cb.symbol_table);
    assert_eq!(writer.bit_len() as u64, block.tree_bit_size + block.data_bit_size);
    writer.align_to_byte();
    let mut reader = FileReader::new(writer.into_bytes());
    let root = read_node(&mut reader).unwrap();
    decompress_symbols(&mut reader, &root, block.data_bit_size).unwrap()
}

#[test]
fn append_bit_places_the_bit_at_the_end() {
    let c = SymbolCode::new();
    assert_eq!(c.bit_len, 0);
    let c = c.append_bit(1).append_bit(0).append_bit(1);
    assert_eq!(c.bit_len, 3);
    assert_eq!(c.encoded_symbol, 0b101);
    let c = c.append_bit(1);
    assert_eq!(c.encoded_symbol, 0b1101);
}

#[test]
fn get_and_set_bits() {
    assert_eq!(get_bit(0b1010, 1), 1);
    assert_eq!(get_bit(0b1010, 2), 0);
    assert_eq!(get_bit(0x8000_0000, 31), 1);
    assert_eq!(set_bit(0b0001, 3), 0b1001);
    assert_eq!(set_bit(0b1000, 3), 0b1000);
}

#[test]
fn freq_table_counts_each_byte() {
    let f = create_freq_table(&b"AAAAABBBC".to_vec());
    assert_eq!(f.len(), TABLE_SIZE);
    assert_eq!(f[b'A' as usize], 5);
    assert_eq!(f[b'B' as usize], 3);
    assert_eq!(f[b'C' as usize], 1);
    assert_eq!(f.iter().sum::<u64>(), 9);
}

#[test]
fn code_tree_of_an_empty_table_is_none() {
    let f = vec![0u64; TABLE_SIZE];
    assert!(create_code_tree(&f).is_none());
}

#[test]
fn code_tree_weights_and_leaves() {
    let f = create_freq_table(&b"AAAAABBBC".to_vec());
    let t = create_code_tree(&f).unwrap();
    assert_eq!(t.symbol_count, 3);
    assert_eq!(t.root.weight, 9);
    assert!(!t.root.is_leaf());
}

#[test]
fn skewed_example_sizes() {
    let data = b"AAAAABBBC";
    let block = book(data);
    assert_eq!(block.tree_bit_size, 29);
    assert_eq!(bit_len_of(&block, b'A'), 1);
    assert_eq!(bit_len_of(&block, b'B'), 2);
    assert_eq!(bit_len_of(&block, b'C'), 2);
    assert_eq!(block.data_bit_size, 5 * 1 + 3 * 2 + 1 * 2);
    assert_eq!(block.data_bit_size, 13);
    assert_eq!(block.original_byte_size, 9);
    assert_eq!(round_trip(data), data.to_vec());
}

#[test]
fn all_byte_values_once() {
    let data: Vec<u8> = (0..=255u8).collect();
    let block = book(&data);
    assert_eq!(block.tree_bit_size, 2559);
    for b in 0..=255u8 {
        assert_eq!(bit_len_of(&block, b), 8);
    }
    assert_eq!(block.data_bit_size, 2048);
    assert_eq!(round_trip(&data), data);
}

#[test]
fn two_symbols() {
    let data = b"ab";
    let block = book(data);
    assert_eq!(block.tree_bit_size, 19);
    assert_eq!(bit_len_of(&block, b'a'), 1);
    assert_eq!(bit_len_of(&block, b'b'), 1);
    assert_eq!(block.data_bit_size, 2);
    assert_eq!(round_trip(data), data.to_vec());
}

#[test]
fn single_symbol_gets_one_bit_codes() {
    let data = b"zzzz";
    let block = book(data);
    assert_eq!(block.code_book.as_ref().unwrap().tree.symbol_count, 2);
    assert_eq!(block.tree_bit_size, 19);
    assert_eq!(bit_len_of(&block, b'z'), 1);
    assert_eq!(block.data_bit_size, 4);
    assert_eq!(round_trip(data), data.to_vec());
}

#[test]
fn single_byte_input() {
    let data = b"q";
    let block = book(data);
    assert_eq!(block.data_bit_size, 1);
    assert_eq!(round_trip(data), data.to_vec());
}

#[test]
fn fibonacci_weights_stay_within_32_bits() {
    // symbol i occurs fib(i) times, which makes the deepest tree Huffman builds
    let mut data = Vec::new();
    let (mut a, mut b) = (1usize, 1usize);
    for sym in 0..21u8 {
        for _ in 0..a {
            data.push(sym);
        }
        let next = a + b;
        a = b;
        b = next;
    }
    let block = book(&data);
    let table = &block.code_book.as_ref().unwrap().symbol_table;
    let max = (0..21u8).map(|s| table[s as usize].bit_len).max().unwrap();
    assert!(max <= 32);
    assert_eq!(max, 20);
    assert_eq!(round_trip(&data), data);
}

#[test]
fn round_trip_of_text() {
    let data = b"the quick brown fox jumps over the lazy dog, again and again and again".to_vec();
    assert_eq!(round_trip(&data), data);
}

#[test]
fn empty_member_is_refused() {
    let mut block = FileBlock::new("empty", "/tmp/empty");
    let r = zipper::compress::create_code_book(&mut block, &Vec::new());
    assert_eq!(r, Err(ArchiveError::EmptyInput));
}

#[test]
fn codes_are_prefix_free() {
    let data = b"abracadabra, a prefix free code".to_vec();
    let block = book(&data);
    let table = &block.code_book.as_ref().unwrap().symbol_table;
    let mut syms: Vec<u8> = data.clone();
    syms.sort();
    syms.dedup();
    for &a in &syms {
        for &b in &syms {
            if a != b {
                let ca = code_bits(&table[a as usize]);
                let cb = code_bits(&table[b as usize]);
                assert!(!(ca.len() <= cb.len() && cb[..ca.len()] == ca[..]));
            }
        }
    }
}

#[test]
fn payload_length_is_weighted_sum() {
    let data = b"mississippi river".to_vec();
    let block = book(&data);
    let table = &block.code_book.as_ref().unwrap().symbol_table;
    let freq = create_freq_table(&data);
    let sum: u64 = (0..256).map(|i| freq[i] * table[i].bit_len as u64).sum();
    assert_eq!(block.data_bit_size, sum);
}

#[test]
fn tree_bits_are_ten_per_leaf_less_one() {
    let data = b"hello world".to_vec();
    let block = book(&data);
    let cb = block.code_book.as_ref().unwrap();
    let mut writer = FileWriter::new();
    write_node(&mut writer, &cb.tree.root);
    let k = 8; // h e l o space w r d
    assert_eq!(cb.tree.symbol_count, k);
    assert_eq!(writer.bit_len(), 10 * k as usize - 1);
}

#[test]
fn code_table_of_a_small_tree() {
    let left = Box::new(Node::leaf(b'x', 2));
    let right = Box::new(Node::internal(
        Box::new(Node::leaf(b'y', 1)),
        Box::new(Node::leaf(b'w', 1)),
        0,
        2,
    ));
    let tree = zipper::tree::Tree { root: Box::new(Node::internal(left, right, 0, 4)), symbol_count: 3 };
    let table = create_code_table(&tree).unwrap();
    assert_eq!(table[b'x' as usize].bit_len, 1);
    assert_eq!(table[b'x' as usize].encoded_symbol, 0);
    assert_eq!(table[b'y' as usize].bit_len, 2);
    assert_eq!(table[b'y' as usize].encoded_symbol, 0b01);
    assert_eq!(table[b'w' as usize].encoded_symbol, 0b11);
    assert_eq!(table[b'w' as usize].plain_symbol, b'w');
    let mut again = vec![SymbolCode::new(); TABLE_SIZE];
    walk_code_tree(&tree.root, SymbolCode::new(), &mut again);
    assert_eq!(again[b'w' as usize].encoded_symbol, 0b11);
}

#[test]
fn deep_tree_is_refused() {
    let mut node = Node::leaf(0, 1);
    for i in 1..=33u8 {
        node = Node::internal(Box::new(node), Box::new(Node::leaf(i, 1)), 0, 0);
    }
    let tree = zipper::tree::Tree { root: Box::new(node), symbol_count: 34 };
    assert!(matches!(create_code_table(&tree), Err(ArchiveError::CodeTooLong)));
}

#[test]
fn truncated_tree_is_malformed() {
    let mut reader = FileReader::new(vec![0b0000_0000]);
    assert!(matches!(read_node(&mut reader), Err(ArchiveError::MalformedTree)));
}

#[test]
fn budget_ending_inside_a_code_is_an_overrun() {
    let data = b"AAAAABBBC";
    let block = book(data);
    let cb = block.code_book.as_ref().unwrap();
    let mut writer = FileWriter::new();
    write_node(&mut writer, &cb.tree.root);
    compress_file(&data.to_vec(), &mut writer, &cb.symbol_table);
    writer.align_to_byte();
    let mut reader = FileReader::new(writer.into_bytes());
    let root = read_node(&mut reader).unwrap();
    // the last code, C's, is two bits long: stop one bit into it
    let r = decompress_symbols(&mut reader, &root, block.data_bit_size - 1);
    assert!(matches!(r, Err(ArchiveError::DecodeOverrun)));
}

#[test]
fn budget_past_the_data_is_an_io_error() {
    // a tree of two leaves is 19 bits, padded to 3 bytes: 5 bits remain
    let mut writer = FileWriter::new();
    write_node(
        &mut writer,
        &Node::internal(Box::new(Node::leaf(1, 0)), Box::new(Node::leaf(2, 0)), 0, 0),
    );
    writer.align_to_byte();
    let mut reader = FileReader::new(writer.into_bytes());
    let root = read_node(&mut reader).unwrap();
    assert_eq!(reader.read_len(), 19);
    assert!(matches!(decompress_symbols(&mut reader, &root, 6), Err(ArchiveError::IoError)));
}

#[test]
fn padding_decodes_as_codes_only_within_the_budget() {
    let mut writer = FileWriter::new();
    write_node(
        &mut writer,
        &Node::internal(Box::new(Node::leaf(1, 0)), Box::new(Node::leaf(2, 0)), 0, 0),
    );
    writer.align_to_byte();
    let mut reader = FileReader::new(writer.into_bytes());
    let root = read_node(&mut reader).unwrap();
    assert_eq!(decompress_symbols(&mut reader, &root, 5), Ok(vec![1, 1, 1, 1, 1]));
}
