use neofs::fs::block::{Block, BLOCK_SIZE};
use neofs::fs::error::FsError;

#[test]
fn new_block_is_zeroed() {
    let block = Block::new();
    assert_eq!(block.as_bytes().len(), BLOCK_SIZE);
    assert!(block.as_bytes().iter().all(|&b| b == 0));
}

#[test]
fn from_slice_pads_with_zeros() {
    let block = Block::from_slice(b"abc").unwrap();
    let bytes = block.as_bytes();
    assert_eq!(bytes.len(), BLOCK_SIZE);
    assert_eq!(&bytes[..3], b"abc");
    assert!(bytes[3..].iter().all(|&b| b == 0));
}

#[test]
fn from_slice_exact_size_keeps_bytes() {
    let data = vec![0xABu8; BLOCK_SIZE];
    let block = Block::from_slice(&data).unwrap();
    assert_eq!(block.as_bytes(), &data[..]);
}

#[test]
fn from_slice_too_long_is_size_mismatch() {
    let data = vec![1u8; BLOCK_SIZE + 1];
    assert!(matches!(
        Block::from_slice(&data),
        Err(FsError::SizeMismatch)
    ));
}

#[test]
fn as_mut_bytes_writes_through() {
    let mut block = Block::new();
    block.as_mut_bytes()[0] = 0x42;
    block.as_mut_bytes()[BLOCK_SIZE - 1] = 0x24;
    assert_eq!(block.as_bytes()[0], 0x42);
    assert_eq!(block.as_bytes()[BLOCK_SIZE - 1], 0x24);
}
