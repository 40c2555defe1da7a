use neofs::fs::block::BLOCK_SIZE;
use neofs::fs::dir::{DirEntry, DirectoryBlock, EntryType, ENTRY_COUNT};
use neofs::fs::error::FsError;

fn names_of(entries: &[DirEntry]) -> Vec<String> {
    entries.iter().map(|e| e.name_as_str()).collect()
}

#[test]
fn three_entries_list_in_order_and_find_sub() {
    let mut block = DirectoryBlock::new();
    block
        .add_entry(DirEntry::new(b"a.txt", EntryType::File, 10, 100).unwrap())
        .unwrap();
    block
        .add_entry(DirEntry::new(b"sub", EntryType::Directory, 20, 0).unwrap())
        .unwrap();
    block
        .add_entry(DirEntry::new(b"b.bin", EntryType::File, 30, 4096).unwrap())
        .unwrap();

    let listed = block.list_entries();
    assert_eq!(names_of(&listed), vec!["a.txt", "sub", "b.bin"]);
    assert_eq!(listed[0].first_block, 10);
    assert_eq!(listed[0].size, 100);
    assert_eq!(listed[2].size, 4096);

    let found = block.find_entry(b"sub").unwrap();
    assert_eq!(found.name_as_str(), "sub");
    assert_eq!(found.entry_type, EntryType::Directory);
    assert_eq!(found.first_block, 20);
    assert_eq!(found.size, 0);
}

#[test]
fn add_entry_beyond_capacity_is_directory_full() {
    let mut block = DirectoryBlock::new();
    for i in 0..ENTRY_COUNT {
        let name = format!("f{}", i);
        let entry = DirEntry::new(name.as_bytes(), EntryType::File, i as u32, 1).unwrap();
        block.add_entry(entry).unwrap();
    }
    let before = names_of(&block.list_entries());
    let extra = DirEntry::new(b"late", EntryType::File, 99, 1).unwrap();
    assert_eq!(block.add_entry(extra), Err(FsError::DirectoryFull));
    let after = names_of(&block.list_entries());
    assert_eq!(before, after);
    assert_eq!(after.len(), ENTRY_COUNT);
    for (i, name) in after.iter().enumerate() {
        assert_eq!(name, &format!("f{}", i));
    }
}

#[test]
fn find_entry_absent_is_entry_not_found() {
    let empty = DirectoryBlock::new();
    assert_eq!(empty.find_entry(b"anything"), Err(FsError::EntryNotFound));

    let mut block = DirectoryBlock::new();
    block
        .add_entry(DirEntry::new(b"File", EntryType::File, 1, 1).unwrap())
        .unwrap();
    assert_eq!(block.find_entry(b"file"), Err(FsError::EntryNotFound));
    assert_eq!(block.find_entry(b"Fil"), Err(FsError::EntryNotFound));
    assert_eq!(block.find_entry(b"Files"), Err(FsError::EntryNotFound));
    assert!(block.find_entry(b"File").is_ok());
}

#[test]
fn find_entry_returns_first_match() {
    let mut block = DirectoryBlock::new();
    block
        .add_entry(DirEntry::new(b"dup", EntryType::File, 1, 11).unwrap())
        .unwrap();
    block
        .add_entry(DirEntry::new(b"dup", EntryType::File, 2, 22).unwrap())
        .unwrap();
    let found = block.find_entry(b"dup").unwrap();
    assert_eq!(found.first_block, 1);
    assert_eq!(found.size, 11);
}

#[test]
fn empty_entry_is_blank() {
    let entry = DirEntry::empty();
    assert_eq!(entry.name, vec![0u8; 32]);
    assert_eq!(entry.entry_type, EntryType::File);
    assert_eq!(entry.first_block, 0);
    assert_eq!(entry.size, 0);
    assert_eq!(entry.name_len(), 0);
    assert_eq!(entry.name_as_str(), "");
}

#[test]
fn entry_new_rejects_long_name() {
    let name = [b'n'; 33];
    assert_eq!(
        DirEntry::new(&name, EntryType::File, 0, 0).unwrap_err(),
        FsError::NameTooLong
    );
    let longest = DirEntry::new(&name[..32], EntryType::File, 0, 0).unwrap();
    assert_eq!(longest.name_len(), 32);
}

#[test]
fn name_stops_at_first_zero_byte() {
    let mut block = DirectoryBlock::new();
    block
        .add_entry(DirEntry::new(b"ab\0cd", EntryType::File, 5, 6).unwrap())
        .unwrap();
    let entry = block.find_entry(b"ab").unwrap();
    assert_eq!(entry.name_len(), 2);
    assert_eq!(entry.name_as_str(), "ab");
    assert_eq!(block.find_entry(b"ab\0cd"), Err(FsError::EntryNotFound));
}

#[test]
fn full_length_name_has_no_terminator() {
    let name = [b'n'; 32];
    let entry = DirEntry::new(&name, EntryType::File, 0, 0).unwrap();
    assert_eq!(entry.name_len(), 32);
    assert_eq!(entry.name_as_str(), "n".repeat(32));
    let mut block = DirectoryBlock::new();
    block.add_entry(entry).unwrap();
    assert!(block.find_entry(&name).is_ok());
}

#[test]
fn name_as_str_decodes_utf8() {
    // 0xC3 0xA9 is the two-byte UTF-8 encoding of U+00E9
    let entry = DirEntry::new(&[0xC3, 0xA9], EntryType::File, 0, 0).unwrap();
    assert_eq!(entry.name_as_str(), "\u{e9}");
    // 0xE2 0x82 0xAC is the three-byte encoding of U+20AC
    let wide = DirEntry::new(&[0xE2, 0x82, 0xAC, b'!'], EntryType::File, 0, 0).unwrap();
    assert_eq!(wide.name_as_str(), "\u{20ac}!");
}

#[test]
fn name_as_str_invalid_utf8_is_empty() {
    let entry = DirEntry::new(&[0xFF, b'a'], EntryType::File, 0, 0).unwrap();
    assert_eq!(entry.name_as_str(), "");
    // a leading byte without its continuation byte
    let cut = DirEntry::new(&[0xC3], EntryType::File, 0, 0).unwrap();
    assert_eq!(cut.name_as_str(), "");
}

#[test]
fn dir_block_bytes_round_trip() {
    let mut block = DirectoryBlock::new();
    block
        .add_entry(DirEntry::new(b"kick.rom", EntryType::File, 7, 524288).unwrap())
        .unwrap();
    block
        .add_entry(DirEntry::new(b"docs", EntryType::Directory, 9, 0).unwrap())
        .unwrap();
    let bytes = block.to_bytes();
    assert_eq!(bytes.len(), BLOCK_SIZE);
    let decoded = DirectoryBlock::from_bytes(&bytes).unwrap();
    let listed = decoded.list_entries();
    assert_eq!(names_of(&listed), vec!["kick.rom", "docs"]);
    assert_eq!(listed[0].entry_type, EntryType::File);
    assert_eq!(listed[0].first_block, 7);
    assert_eq!(listed[0].size, 524288);
    assert_eq!(listed[1].entry_type, EntryType::Directory);
    assert_eq!(decoded.to_bytes(), bytes);
}

#[test]
fn empty_dir_block_encodes_to_zeros() {
    let bytes = DirectoryBlock::new().to_bytes();
    assert_eq!(bytes, vec![0u8; BLOCK_SIZE]);
}

#[test]
fn dir_block_from_bytes_wrong_size_is_size_mismatch() {
    let buf = vec![0u8; 511];
    assert!(matches!(
        DirectoryBlock::from_bytes(&buf),
        Err(FsError::SizeMismatch)
    ));
}

#[test]
fn entry_layout_offsets() {
    let mut block = DirectoryBlock::new();
    block
        .add_entry(DirEntry::new(b"z", EntryType::Directory, 0x01020304, 0x0A0B0C0D).unwrap())
        .unwrap();
    let bytes = block.to_bytes();
    assert_eq!(bytes[0], b'z');
    assert!(bytes[1..32].iter().all(|&b| b == 0));
    assert_eq!(bytes[32], 1); // entry type: directory
    assert_eq!(&bytes[33..37], &0x01020304u32.to_le_bytes());
    assert_eq!(&bytes[37..41], &0x0A0B0C0Du32.to_le_bytes());
    assert!(bytes[41..].iter().all(|&b| b == 0));
}
