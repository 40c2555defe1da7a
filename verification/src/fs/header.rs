//! The volume header (superblock): the fixed record at block 0 that
//! identifies a volume and describes its layout.
//!
//! On disk the header is a packed run of [`HEADER_SIZE`] bytes, in order:
//! `magic[8]`, `volume_name[32]`, then four little-endian `u32` fields
//! `total_blocks`, `bitmap_start_block`, `bitmap_block_count`,
//! `root_dir_block`.  The layout is a closed binary contract: it is read
//! back by field-by-field copies at fixed offsets, never by
//! reinterpreting memory.

use vstd::prelude::*;

use crate::fs::bytes::{
    le_u32, lemma_le_u32_round_trip, lemma_u32_le_round_trip, push_u32_le, push_zero_padded,
    read_u32_le, u32_le, zero_pad,
};
use crate::fs::error::FsError;

verus! {

/// Bytes of the packed header layout.
pub const HEADER_SIZE: usize = 56;

/// Bytes of the magic tag.
pub const MAGIC_LEN: usize = 8;

/// Bytes of the fixed volume-name field.
pub const VOLUME_NAME_LEN: usize = 32;

/// The magic tag `"NEOFS1.0"` that identifies the format.
pub open spec fn magic_seq() -> Seq<u8> {
    seq![0x4eu8, 0x45u8, 0x4fu8, 0x46u8, 0x53u8, 0x31u8, 0x2eu8, 0x30u8]
}

/// The magic tag `"NEOFS1.0"` as a fresh buffer.
pub fn magic_bytes() -> (r: Vec<u8>)
    ensures
        r@ == magic_seq(),
{
    let mut r: Vec<u8> = Vec::new();
    r.push(0x4e);
    r.push(0x45);
    r.push(0x4f);
    r.push(0x46);
    r.push(0x53);
    r.push(0x31);
    r.push(0x2e);
    r.push(0x30);
    assert(r@ =~= magic_seq());
    r
}

/// The mathematical value of a header: what its fields hold, free of any
/// byte layout.
pub ghost struct HeaderView {
    pub magic: Seq<u8>,
    pub volume_name: Seq<u8>,
    pub total_blocks: u32,
    pub bitmap_start_block: u32,
    pub bitmap_block_count: u32,
    pub root_dir_block: u32,
}

impl HeaderView {
    /// The two byte fields have their fixed widths.
    pub open spec fn wf(self) -> bool {
        &&& self.magic.len() == MAGIC_LEN
        &&& self.volume_name.len() == VOLUME_NAME_LEN
    }

    /// A header that describes a volume this format recognizes: the
    /// magic tag matches and the bitmap and root directory fit inside
    /// the volume.
    pub open spec fn valid(self) -> bool {
        &&& self.wf()
        &&& self.magic == magic_seq()
        &&& self.bitmap_start_block + self.bitmap_block_count <= self.total_blocks
        &&& self.root_dir_block < self.total_blocks
    }
}

/// The packed byte layout of a header.
pub open spec fn header_bytes(h: HeaderView) -> Seq<u8> {
    h.magic + h.volume_name + u32_le(h.total_blocks) + u32_le(h.bitmap_start_block) + u32_le(
        h.bitmap_block_count,
    ) + u32_le(h.root_dir_block)
}

/// The header whose packed byte layout is `s`.
pub open spec fn header_of_bytes(s: Seq<u8>) -> HeaderView
    recommends
        s.len() == HEADER_SIZE,
{
    HeaderView {
        magic: s.subrange(0, 8),
        volume_name: s.subrange(8, 40),
        total_blocks: le_u32(s.subrange(40, 44)),
        bitmap_start_block: le_u32(s.subrange(44, 48)),
        bitmap_block_count: le_u32(s.subrange(48, 52)),
        root_dir_block: le_u32(s.subrange(52, 56)),
    }
}

/// The superblock of a volume, stored at block 0.
#[derive(Debug, PartialEq, Eq)]
pub struct NeoFsHeader {
    /// Fixed 8-byte tag identifying the format.
    pub magic: Vec<u8>,
    /// Fixed 32-byte, zero-terminated human-readable label.
    pub volume_name: Vec<u8>,
    /// Blocks in the volume, the header block included.
    pub total_blocks: u32,
    /// Index of the first block of the allocation bitmap.
    pub bitmap_start_block: u32,
    /// Blocks the allocation bitmap occupies.
    pub bitmap_block_count: u32,
    /// Index of the block holding the root directory.
    pub root_dir_block: u32,
}

impl View for NeoFsHeader {
    type V = HeaderView;

    open spec fn view(&self) -> HeaderView {
        HeaderView {
            magic: self.magic@,
            volume_name: self.volume_name@,
            total_blocks: self.total_blocks,
            bitmap_start_block: self.bitmap_start_block,
            bitmap_block_count: self.bitmap_block_count,
            root_dir_block: self.root_dir_block,
        }
    }
}

/// Blocks the allocation bitmap of a volume of `total_blocks` blocks
/// occupies: one bit per block, 4096 bits per 512-byte bitmap block,
/// rounded up.
pub open spec fn spec_bitmap_blocks(total_blocks: u32) -> int {
    total_blocks as int / 4096 + if total_blocks as int % 4096 != 0 {
        1int
    } else {
        0int
    }
}

/// A volume of `total_blocks` blocks has room for the header block, the
/// whole allocation bitmap, and one root directory block.
pub open spec fn volume_min_ok(total_blocks: u32) -> bool {
    total_blocks as int >= 2 + spec_bitmap_blocks(total_blocks)
}

/// The header the formatter builds for a volume named `name` (already
/// zero-padded here) of `total_blocks` blocks: the bitmap starts right
/// after the header and the root directory right after the bitmap.
pub open spec fn spec_format_header(name: Seq<u8>, total_blocks: u32) -> HeaderView {
    HeaderView {
        magic: magic_seq(),
        volume_name: zero_pad(name, VOLUME_NAME_LEN as int),
        total_blocks: total_blocks,
        bitmap_start_block: 1,
        bitmap_block_count: spec_bitmap_blocks(total_blocks) as u32,
        root_dir_block: (1 + spec_bitmap_blocks(total_blocks)) as u32,
    }
}

impl NeoFsHeader {
    /// Field widths match the fixed layout.
    pub open spec fn wf(&self) -> bool {
        self@.wf()
    }

    /// Builds the header for a fresh volume; fails when the name does
    /// not fit its field or the volume cannot hold its own metadata.
    pub fn new(volume_name: &[u8], total_blocks: u32) -> (r: Result<NeoFsHeader, FsError>)
        ensures
            volume_name@.len() > VOLUME_NAME_LEN ==> r == Err::<NeoFsHeader, FsError>(
                FsError::NameTooLong,
            ),
            volume_name@.len() <= VOLUME_NAME_LEN && !volume_min_ok(total_blocks) ==> r == Err::<
                NeoFsHeader,
                FsError,
            >(FsError::VolumeTooSmall),
            r is Ok <==> (volume_name@.len() <= VOLUME_NAME_LEN && volume_min_ok(total_blocks)),
            r matches Ok(h) ==> h@ == spec_format_header(volume_name@, total_blocks) && h@.valid(),
    {
        if volume_name.len() > VOLUME_NAME_LEN {
            return Err(FsError::NameTooLong);
        }
        let bitmap_block_count = total_blocks / 4096 + if total_blocks % 4096 != 0 {
            1
        } else {
            0
        };
        if total_blocks < 2 + bitmap_block_count {
            return Err(FsError::VolumeTooSmall);
        }
        let mut name: Vec<u8> = Vec::new();
        push_zero_padded(&mut name, volume_name, VOLUME_NAME_LEN);
        let h = NeoFsHeader {
            magic: magic_bytes(),
            volume_name: name,
            total_blocks,
            bitmap_start_block: 1,
            bitmap_block_count,
            root_dir_block: 1 + bitmap_block_count,
        };
        assert(h@ == spec_format_header(volume_name@, total_blocks));
        Ok(h)
    }

    /// Encodes the header into its packed [`HEADER_SIZE`]-byte layout,
    /// the exact inverse of [`NeoFsHeader::from_bytes`] on recognized
    /// headers.
    pub fn to_bytes(&self) -> (r: Vec<u8>)
        requires
            self.wf(),
        ensures
            r@ == header_bytes(self@),
            r@.len() == HEADER_SIZE,
    {
        let mut out: Vec<u8> = Vec::new();
        push_zero_padded(&mut out, self.magic.as_slice(), MAGIC_LEN);
        push_zero_padded(&mut out, self.volume_name.as_slice(), VOLUME_NAME_LEN);
        push_u32_le(&mut out, self.total_blocks);
        push_u32_le(&mut out, self.bitmap_start_block);
        push_u32_le(&mut out, self.bitmap_block_count);
        push_u32_le(&mut out, self.root_dir_block);
        proof {
            assert(zero_pad(self.magic@, MAGIC_LEN as int) =~= self.magic@);
            assert(zero_pad(self.volume_name@, VOLUME_NAME_LEN as int) =~= self.volume_name@);
            assert(out@ =~= header_bytes(self@));
        }
        out
    }

    /// Decodes a header from its packed byte layout.  A buffer of the
    /// wrong length fails with `SizeMismatch`; an exact-size buffer
    /// whose magic tag differs is structurally sound but not this
    /// format, and fails with `InvalidMagic`.
    pub fn from_bytes(buf: &[u8]) -> (r: Result<NeoFsHeader, FsError>)
        ensures
            r is Ok <==> (buf@.len() == HEADER_SIZE && buf@.subrange(0, 8) == magic_seq()),
            buf@.len() != HEADER_SIZE ==> r == Err::<NeoFsHeader, FsError>(FsError::SizeMismatch),
            buf@.len() == HEADER_SIZE && buf@.subrange(0, 8) != magic_seq() ==> r == Err::<
                NeoFsHeader,
                FsError,
            >(FsError::InvalidMagic),
            r matches Ok(h) ==> h@ == header_of_bytes(buf@) && h.wf(),
    {
        if buf.len() != HEADER_SIZE {
            return Err(FsError::SizeMismatch);
        }
        let expected = magic_bytes();
        let mut i: usize = 0;
        while i < MAGIC_LEN
            invariant
                i <= MAGIC_LEN,
                buf@.len() == HEADER_SIZE,
                expected@ == magic_seq(),
                forall|j: int| 0 <= j < i ==> buf@[j] == magic_seq()[j],
            decreases MAGIC_LEN - i,
        {
            if buf[i] != expected[i] {
                proof {
                    assert(buf@.subrange(0, 8)[i as int] == buf@[i as int]);
                }
                return Err(FsError::InvalidMagic);
            }
            i = i + 1;
        }
        assert(buf@.subrange(0, 8) =~= magic_seq());
        let mut magic: Vec<u8> = Vec::new();
        let mut j: usize = 0;
        while j < MAGIC_LEN
            invariant
                j <= MAGIC_LEN,
                buf@.len() == HEADER_SIZE,
                magic@ == buf@.take(j as int),
            decreases MAGIC_LEN - j,
        {
            magic.push(buf[j]);
            j = j + 1;
            assert(magic@ =~= buf@.take(j as int));
        }
        let mut volume_name: Vec<u8> = Vec::new();
        let mut k: usize = MAGIC_LEN;
        while k < MAGIC_LEN + VOLUME_NAME_LEN
            invariant
                MAGIC_LEN <= k <= MAGIC_LEN + VOLUME_NAME_LEN,
                buf@.len() == HEADER_SIZE,
                volume_name@ == buf@.subrange(MAGIC_LEN as int, k as int),
            decreases MAGIC_LEN + VOLUME_NAME_LEN - k,
        {
            volume_name.push(buf[k]);
            k = k + 1;
            assert(volume_name@ =~= buf@.subrange(MAGIC_LEN as int, k as int));
        }
        let h = NeoFsHeader {
            magic,
            volume_name,
            total_blocks: read_u32_le(buf, 40),
            bitmap_start_block: read_u32_le(buf, 44),
            bitmap_block_count: read_u32_le(buf, 48),
            root_dir_block: read_u32_le(buf, 52),
        };
        proof {
            assert(buf@.take(8) =~= buf@.subrange(0, 8));
            assert(h@ == header_of_bytes(buf@));
        }
        Ok(h)
    }
}

/// Law: encoding a well-formed header and decoding the bytes gives the
/// header back unchanged, so `from_bytes` is the exact inverse of
/// `to_bytes` on every header whose fields have their fixed widths.
pub proof fn lemma_header_round_trip(h: HeaderView)
    requires
        h.wf(),
    ensures
        header_bytes(h).len() == HEADER_SIZE,
        header_of_bytes(header_bytes(h)) == h,
{
    let s = header_bytes(h);
    assert(s.subrange(0, 8) =~= h.magic);
    assert(s.subrange(8, 40) =~= h.volume_name);
    assert(s.subrange(40, 44) =~= u32_le(h.total_blocks));
    assert(s.subrange(44, 48) =~= u32_le(h.bitmap_start_block));
    assert(s.subrange(48, 52) =~= u32_le(h.bitmap_block_count));
    assert(s.subrange(52, 56) =~= u32_le(h.root_dir_block));
    lemma_u32_le_round_trip(h.total_blocks);
    lemma_u32_le_round_trip(h.bitmap_start_block);
    lemma_u32_le_round_trip(h.bitmap_block_count);
    lemma_u32_le_round_trip(h.root_dir_block);
}

/// Law: decoding any exact-size buffer and encoding the result gives the
/// buffer back byte for byte, so no information of a recognized header
/// block lives outside its decoded fields.
pub proof fn lemma_header_bytes_round_trip(s: Seq<u8>)
    requires
        s.len() == HEADER_SIZE,
    ensures
        header_bytes(header_of_bytes(s)) == s,
{
    lemma_le_u32_round_trip(s.subrange(40, 44));
    lemma_le_u32_round_trip(s.subrange(44, 48));
    lemma_le_u32_round_trip(s.subrange(48, 52));
    lemma_le_u32_round_trip(s.subrange(52, 56));
    assert(header_bytes(header_of_bytes(s)) =~= s);
}

} // verus!
