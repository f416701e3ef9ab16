use zipper::block::FileBlock;
use zipper::charset::{GRP_SEP, REC_SEP, SIG};
use zipper::compress::archive;
use zipper::decompress::{decompress_file, decompress_files, get_file_blocks};
use zipper::error::ArchiveError;
use zipper::read::FileReader;

fn make(members: &[(&str, &[u8])]) -> (Vec<FileBlock>, Vec<u8>) {
    let mut blocks: Vec<FileBlock> =
        members.iter().map(|(name, _)| FileBlock::new(name, name)).collect();
    let contents: Vec<Vec<u8>> = members.iter().map(|(_, c)| c.to_vec()).collect();
    let bytes = archive(&mut blocks, &contents).unwrap();
    (blocks, bytes)
}

fn unarchive(bytes: Vec<u8>) -> Result<Vec<(Vec<u8>, Result<Vec<u8>, ArchiveError>)>, ArchiveError> {
    let mut reader = FileReader::new(bytes);
    let blocks = get_file_blocks(&mut reader)?;
    let outs = decompress_files(&mut reader, &blocks);
    Ok(blocks.into_iter().map(|b| b.filename_rel).zip(outs).collect())
}

#[test]
fn empty_directory_archive() {
    let (_, bytes) = make(&[]);
    let mut expected = SIG.to_le_bytes().to_vec();
    expected.push(GRP_SEP);
    assert_eq!(bytes, expected);
    assert_eq!(unarchive(bytes).unwrap().len(), 0);
}

#[test]
fn two_members_round_trip() {
    let (blocks, bytes) = make(&[("x/a.txt", b"hello"), ("x/b.txt", b"world")]);
    assert_eq!(blocks.len(), 2);
    let back = unarchive(bytes).unwrap();
    assert_eq!(back.len(), 2);
    assert_eq!(back[0].0, b"x/a.txt".to_vec());
    assert_eq!(back[1].0, b"x/b.txt".to_vec());
    assert_eq!(back[0].1, Ok(b"hello".to_vec()));
    assert_eq!(back[1].1, Ok(b"world".to_vec()));
}

#[test]
fn archive_starts_with_signature_and_records() {
    let (_, bytes) = make(&[("x/a.txt", b"hello")]);
    assert_eq!(&bytes[..8], b"zipper\0\0");
    assert_eq!(bytes[8], REC_SEP);
    assert_eq!(&bytes[9..16], b"x/a.txt");
    assert_eq!(bytes[16], 0);
    assert_eq!(bytes[9 + 7 + 1 + 32], GRP_SEP);
}

#[test]
fn offsets_are_coherent() {
    let (blocks, bytes) =
        make(&[("one", b"first member"), ("two", b"second"), ("three", b"3333333333")]);
    let header_region: u64 = 1 + blocks.iter().map(|b| 1 + b.filename_rel.len() as u64 + 1 + 32).sum::<u64>();
    assert_eq!(blocks[0].file_byte_offset, 8 + header_region);
    for i in 0..blocks.len() - 1 {
        let size = (blocks[i].tree_bit_size + blocks[i].data_bit_size + 7) / 8;
        assert_eq!(blocks[i + 1].file_byte_offset, blocks[i].file_byte_offset + size);
    }
    let last = &blocks[2];
    assert_eq!(
        bytes.len() as u64,
        last.file_byte_offset + (last.tree_bit_size + last.data_bit_size + 7) / 8
    );
}

#[test]
fn records_hold_sizes() {
    let (blocks, bytes) = make(&[("m", b"AAAAABBBC")]);
    let mut reader = FileReader::new(bytes);
    let read = get_file_blocks(&mut reader).unwrap();
    assert_eq!(read.len(), 1);
    assert_eq!(read[0].tree_bit_size, 29);
    assert_eq!(read[0].data_bit_size, 13);
    assert_eq!(read[0].original_byte_size, 9);
    assert_eq!(read[0].file_byte_offset, blocks[0].file_byte_offset);
    assert_eq!(decompress_file(&mut reader, &read[0]), Ok(b"AAAAABBBC".to_vec()));
}

#[test]
fn flipped_signature_is_refused() {
    let (_, mut bytes) = make(&[("x/a.txt", b"hello")]);
    bytes[0] ^= 0xFF;
    assert_eq!(unarchive(bytes).unwrap_err(), ArchiveError::BadSignature);
}

#[test]
fn short_archive_is_refused() {
    assert_eq!(unarchive(b"zipp".to_vec()).unwrap_err(), ArchiveError::BadSignature);
}

#[test]
fn truncated_archive_loses_only_the_last_member() {
    let (_, mut bytes) = make(&[("x/a.txt", b"hello"), ("x/b.txt", b"the last member, long enough")]);
    bytes.truncate(bytes.len() - 3);
    let back = unarchive(bytes).unwrap();
    assert_eq!(back[0].1, Ok(b"hello".to_vec()));
    assert!(matches!(back[1].1, Err(ArchiveError::DecodeOverrun) | Err(ArchiveError::IoError)));
}

#[test]
fn missing_group_separator_is_malformed() {
    let mut bytes = SIG.to_le_bytes().to_vec();
    bytes.push(0x00);
    assert_eq!(unarchive(bytes).unwrap_err(), ArchiveError::MalformedHeader);
    let only_sig = SIG.to_le_bytes().to_vec();
    assert_eq!(unarchive(only_sig).unwrap_err(), ArchiveError::MalformedHeader);
}

#[test]
fn cut_record_is_malformed() {
    let mut bytes = SIG.to_le_bytes().to_vec();
    bytes.push(REC_SEP);
    bytes.extend_from_slice(b"name\0");
    bytes.extend_from_slice(&[1, 2, 3]);
    assert_eq!(unarchive(bytes).unwrap_err(), ArchiveError::MalformedHeader);
}

#[test]
fn empty_member_fails_the_archive() {
    let mut blocks = vec![FileBlock::new("a", "a"), FileBlock::new("b", "b")];
    let contents = vec![b"data".to_vec(), Vec::new()];
    assert_eq!(archive(&mut blocks, &contents), Err(ArchiveError::EmptyInput));
}

#[test]
fn many_members_round_trip() {
    let names: Vec<String> = (0..20).map(|i| format!("d{}/f{}.bin", i % 3, i)).collect();
    let contents: Vec<Vec<u8>> =
        (0..20u32).map(|i| (0..(i * 37 + 1)).map(|j| ((j * j + i) % 251) as u8).collect()).collect();
    let members: Vec<(&str, &[u8])> =
        names.iter().zip(contents.iter()).map(|(n, c)| (n.as_str(), c.as_slice())).collect();
    let (_, bytes) = make(&members);
    let back = unarchive(bytes).unwrap();
    for i in 0..20 {
        assert_eq!(back[i].0, names[i].as_bytes().to_vec());
        assert_eq!(back[i].1, Ok(contents[i].clone()));
    }
}
