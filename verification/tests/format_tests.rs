use neofs::fs::block::BLOCK_SIZE;
use neofs::fs::error::FsError;
use neofs::fs::format::format_volume;

#[test]
fn format_1024_blocks_layout_and_bitmap() {
    let vol = format_volume(b"TESTVOL", 1024).unwrap();
    assert_eq!(vol.header.total_blocks, 1024);
    assert_eq!(vol.header.bitmap_start_block, 1);
    assert_eq!(vol.header.bitmap_block_count, 1);
    assert_eq!(vol.header.root_dir_block, 2);
    assert_eq!(vol.bitmap.len(), 512);
    // header, bitmap block and root directory: bits 0, 1 and 2
    assert_eq!(vol.bitmap[0], 0b0000_0111);
    assert!(vol.bitmap[1..].iter().all(|&b| b == 0));
}

#[test]
fn format_root_dir_is_empty() {
    let vol = format_volume(b"TESTVOL", 1024).unwrap();
    assert!(vol.root_dir.list_entries().is_empty());
    assert_eq!(vol.root_dir.to_bytes(), vec![0u8; BLOCK_SIZE]);
}

#[test]
fn format_rejects_long_name() {
    let name = [b'v'; 33];
    assert_eq!(format_volume(&name, 1024), Err(FsError::NameTooLong));
    let longest = [b'v'; 32];
    assert!(format_volume(&longest, 1024).is_ok());
}

#[test]
fn format_rejects_tiny_volume() {
    assert_eq!(format_volume(b"V", 0), Err(FsError::VolumeTooSmall));
    assert_eq!(format_volume(b"V", 2), Err(FsError::VolumeTooSmall));
    let smallest = format_volume(b"V", 3).unwrap();
    assert_eq!(smallest.header.root_dir_block, 2);
    // only the three metadata blocks exist, and all are marked used
    assert_eq!(smallest.bitmap[0], 0b0000_0111);
}

#[test]
fn format_name_checked_before_capacity() {
    let name = [b'v'; 33];
    assert_eq!(format_volume(&name, 0), Err(FsError::NameTooLong));
}

#[test]
fn format_bitmap_spans_several_blocks() {
    // 4096 blocks fit one bitmap block exactly; 4097 need two
    let one = format_volume(b"A", 4096).unwrap();
    assert_eq!(one.header.bitmap_block_count, 1);
    assert_eq!(one.header.root_dir_block, 2);
    assert_eq!(one.bitmap.len(), 512);

    let two = format_volume(b"B", 4097).unwrap();
    assert_eq!(two.header.bitmap_block_count, 2);
    assert_eq!(two.header.root_dir_block, 3);
    assert_eq!(two.bitmap.len(), 1024);
    assert_eq!(two.bitmap[0], 0b0000_1111);
    assert!(two.bitmap[1..].iter().all(|&b| b == 0));
}

#[test]
fn format_header_decodes_back() {
    let vol = format_volume(b"ARCHIVE", 4097).unwrap();
    let decoded =
        neofs::fs::header::NeoFsHeader::from_bytes(&vol.header.to_bytes()).unwrap();
    assert_eq!(decoded.volume_name, vol.header.volume_name);
    assert_eq!(decoded.total_blocks, 4097);
    assert_eq!(decoded.bitmap_block_count, 2);
    assert_eq!(decoded.root_dir_block, 3);
}
