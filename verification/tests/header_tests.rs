use neofs::fs::error::FsError;
use neofs::fs::format::format_volume;
use neofs::fs::header::{magic_bytes, NeoFsHeader, HEADER_SIZE};

#[test]
fn round_trip_testvol_1024() {
    let vol = format_volume(b"TESTVOL", 1024).unwrap();
    let bytes = vol.header.to_bytes();
    assert_eq!(bytes.len(), HEADER_SIZE);
    let decoded = NeoFsHeader::from_bytes(&bytes).unwrap();
    assert_eq!(decoded.magic, b"NEOFS1.0".to_vec());
    assert_eq!(&decoded.volume_name[..7], b"TESTVOL");
    assert!(decoded.volume_name[7..].iter().all(|&b| b == 0));
    assert_eq!(decoded.total_blocks, 1024);
    assert_eq!(decoded.bitmap_start_block, 1);
    assert_eq!(decoded.bitmap_block_count, 1);
    assert_eq!(
        decoded.root_dir_block,
        decoded.bitmap_start_block + decoded.bitmap_block_count
    );
    assert_eq!(decoded.to_bytes(), bytes);
}

#[test]
fn decode_511_bytes_is_size_mismatch() {
    let buf = vec![0u8; 511];
    assert_eq!(NeoFsHeader::from_bytes(&buf), Err(FsError::SizeMismatch));
}

#[test]
fn decode_wrong_sizes_are_size_mismatch() {
    for n in [0usize, 1, 55, 57, 512] {
        let buf = vec![0u8; n];
        assert_eq!(NeoFsHeader::from_bytes(&buf), Err(FsError::SizeMismatch));
    }
}

#[test]
fn decode_tampered_magic_is_invalid_magic() {
    let header = NeoFsHeader::new(b"VOL", 1024).unwrap();
    let good = header.to_bytes();
    assert!(NeoFsHeader::from_bytes(&good).is_ok());
    for i in 0..8 {
        let mut bad = good.clone();
        bad[i] ^= 0x55;
        assert_eq!(NeoFsHeader::from_bytes(&bad), Err(FsError::InvalidMagic));
    }
}

#[test]
fn encode_exact_bytes() {
    let header = NeoFsHeader::new(b"VOL", 8192).unwrap();
    let bytes = header.to_bytes();
    let mut expected = magic_bytes();
    expected.extend_from_slice(b"VOL");
    expected.extend_from_slice(&[0u8; 29]);
    expected.extend_from_slice(&8192u32.to_le_bytes()); // total_blocks
    expected.extend_from_slice(&1u32.to_le_bytes()); // bitmap_start_block
    expected.extend_from_slice(&2u32.to_le_bytes()); // bitmap_block_count
    expected.extend_from_slice(&3u32.to_le_bytes()); // root_dir_block
    assert_eq!(bytes, expected);
}

#[test]
fn header_new_rejects_long_name() {
    let name = [b'x'; 33];
    assert_eq!(
        NeoFsHeader::new(&name, 1024).unwrap_err(),
        FsError::NameTooLong
    );
}

#[test]
fn header_new_rejects_tiny_volume() {
    for tb in [0u32, 1, 2] {
        assert_eq!(
            NeoFsHeader::new(b"V", tb).unwrap_err(),
            FsError::VolumeTooSmall
        );
    }
    let smallest = NeoFsHeader::new(b"V", 3).unwrap();
    assert_eq!(smallest.bitmap_block_count, 1);
    assert_eq!(smallest.root_dir_block, 2);
}

#[test]
fn magic_bytes_is_neofs_tag() {
    assert_eq!(magic_bytes(), b"NEOFS1.0".to_vec());
}
