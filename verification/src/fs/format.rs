//! The volume formatter: the one mutating entry point into an
//! otherwise-empty volume.
//!
//! Formatting computes the volume layout first (bitmap right after the
//! header, root directory right after the bitmap), then marks in the
//! fresh bitmap exactly the blocks that this metadata itself occupies,
//! and hands the caller the header, the bitmap bytes and the empty root
//! directory block together with the block indices they must be written
//! to.  The formatter performs no device I/O.

use vstd::prelude::*;

use crate::fs::dir::{empty_entry_view, DirectoryBlock, ENTRY_COUNT};
use crate::fs::error::FsError;
use crate::fs::header::{
    header_bytes, header_of_bytes, lemma_header_round_trip, spec_bitmap_blocks, spec_format_header,
    volume_min_ok, NeoFsHeader, HEADER_SIZE, VOLUME_NAME_LEN,
};

verus! {

/// Whether bit `k` of byte `b` is set.
pub open spec fn byte_bit(b: u8, k: u8) -> bool
    recommends
        k < 8,
{
    b & (1u8 << k) != 0
}

/// Whether bit `i` of the bitmap bytes `bm` is set; bit `i` records
/// whether block `i` is in use.
pub open spec fn bit_set(bm: Seq<u8>, i: int) -> bool
    recommends
        0 <= i < bm.len() * 8,
{
    byte_bit(bm[i / 8], (i % 8) as u8)
}

/// Everything the formatter produces, ready to persist: the header
/// belongs in block 0, the bitmap bytes in the blocks starting at
/// `header.bitmap_start_block`, and the root directory block at
/// `header.root_dir_block`.
#[derive(Debug, PartialEq, Eq)]
pub struct FormattedVolume {
    /// The volume header, destined for block 0.
    pub header: NeoFsHeader,
    /// The allocation bitmap bytes, destined for the blocks starting at
    /// `header.bitmap_start_block`.
    pub bitmap: Vec<u8>,
    /// The empty root directory, destined for `header.root_dir_block`.
    pub root_dir: DirectoryBlock,
}

/// Builds the allocation bitmap of a fresh volume: one bit per block,
/// bits `0 ..= root_dir_block` set (header, bitmap blocks and root
/// directory), every other bit clear.
fn build_bitmap(bitmap_block_count: u32, root_dir_block: u32) -> (r: Vec<u8>)
    requires
        bitmap_block_count <= 0x10_0000,
        root_dir_block < 4096 * (bitmap_block_count as int),
        512 * (bitmap_block_count as int) <= usize::MAX,
    ensures
        r@.len() == 512 * (bitmap_block_count as int),
        forall|i: int| 0 <= i < r@.len() * 8 ==> (bit_set(r@, i) <==> i <= root_dir_block),
{
    let len: usize = 512 * (bitmap_block_count as usize);
    let root64: u64 = root_dir_block as u64;
    let mut bm: Vec<u8> = Vec::new();
    let mut bi: usize = 0;
    proof {
        assert(forall|k: u8| k < 8 ==> #[trigger] byte_bit(0xffu8, k)) by (bit_vector);
        assert(forall|k: u8| k < 8 ==> !(#[trigger] byte_bit(0x00u8, k))) by (bit_vector);
        assert(forall|k: u8, m: u8|
            k < 8 && 0 < m < 8 ==> (#[trigger] byte_bit(((1u8 << m) - 1) as u8, k) <==> k < m))
            by (bit_vector);
    }
    while bi < len
        invariant
            bi <= len,
            len == 512 * (bitmap_block_count as int),
            bitmap_block_count <= 0x10_0000,
            root64 == root_dir_block,
            root_dir_block < 4096 * (bitmap_block_count as int),
            bm@.len() == bi,
            forall|j: int| 0 <= j < 8 * bi ==> (bit_set(bm@, j) <==> j <= root_dir_block),
            forall|k: u8| k < 8 ==> #[trigger] byte_bit(0xffu8, k),
            forall|k: u8| k < 8 ==> !(#[trigger] byte_bit(0x00u8, k)),
            forall|k: u8, m: u8|
                k < 8 && 0 < m < 8 ==> (#[trigger] byte_bit(((1u8 << m) - 1) as u8, k) <==> k < m),
        decreases len - bi,
    {
        let base: u64 = 8 * (bi as u64);
        let v: u8 = if base + 7 <= root64 {
            0xff
        } else if base > root64 {
            0x00
        } else {
            let m = (root64 - base + 1) as u8;
            assert(0 < m < 8);
            proof {
                assert(0 < m < 8 ==> 1u8 << m >= 1) by (bit_vector);
            }
            (1u8 << m) - 1
        };
        let ghost prev = bm@;
        bm.push(v);
        bi = bi + 1;
        proof {
            let b0 = bi - 1;
            assert forall|j: int| 0 <= j < 8 * bi implies (bit_set(bm@, j) <==> j
                <= root_dir_block) by {
                if j < 8 * b0 {
                    assert(j / 8 < b0) by (nonlinear_arith)
                        requires
                            0 <= j,
                            j < 8 * b0,
                    ;
                    assert(0 <= j / 8) by (nonlinear_arith)
                        requires
                            0 <= j,
                    ;
                    assert(bm@[j / 8] == prev[j / 8]);
                    assert(bit_set(prev, j) <==> j <= root_dir_block);
                } else {
                    assert(j / 8 == b0 && j % 8 == j - 8 * b0 && 0 <= j % 8 < 8)
                        by (nonlinear_arith)
                        requires
                            8 * b0 <= j,
                            j < 8 * b0 + 8,
                    ;
                    assert(bm@[j / 8] == v);
                    let k = (j % 8) as u8;
                    if 8 * b0 + 7 <= root_dir_block {
                        assert(byte_bit(0xffu8, k));
                        assert(j <= root_dir_block);
                    } else if 8 * b0 > root_dir_block {
                        assert(!byte_bit(0x00u8, k));
                        assert(j > root_dir_block);
                    } else {
                        let m = (root_dir_block - 8 * b0 + 1) as u8;
                        assert(v == ((1u8 << m) - 1) as u8);
                        assert(byte_bit(v, k) <==> k < m);
                        assert((k < m) <==> j <= root_dir_block);
                    }
                }
            }
        }
    }
    bm
}

/// Formats a fresh volume: validates the name and the capacity, lays
/// out the bitmap and the root directory, builds the header, marks the
/// blocks the metadata itself occupies as used, and returns the three
/// structures for the caller to persist.
pub fn format_volume(volume_name: &[u8], total_blocks: u32) -> (r: Result<
    FormattedVolume,
    FsError,
>)
    ensures
        volume_name@.len() > VOLUME_NAME_LEN ==> r == Err::<FormattedVolume, FsError>(
            FsError::NameTooLong,
        ),
        volume_name@.len() <= VOLUME_NAME_LEN && !volume_min_ok(total_blocks) ==> r == Err::<
            FormattedVolume,
            FsError,
        >(FsError::VolumeTooSmall),
        r is Ok <==> (volume_name@.len() <= VOLUME_NAME_LEN && volume_min_ok(total_blocks)),
        r matches Ok(v) ==> ({
            &&& v.header@ == spec_format_header(volume_name@, total_blocks)
            &&& v.header@.valid()
            &&& v.header.wf()
            &&& v.bitmap@.len() == 512 * spec_bitmap_blocks(total_blocks)
            &&& total_blocks <= v.bitmap@.len() * 8
            &&& forall|i: int|
                0 <= i < v.bitmap@.len() * 8 ==> (bit_set(v.bitmap@, i) <==> i
                    <= v.header@.root_dir_block)
            &&& v.root_dir.wf()
            &&& v.root_dir@.len() == ENTRY_COUNT
            &&& forall|i: int| 0 <= i < ENTRY_COUNT ==> v.root_dir@[i] == empty_entry_view()
        }),
{
    let header = match NeoFsHeader::new(volume_name, total_blocks) {
        Ok(h) => h,
        Err(e) => {
            return Err(e);
        },
    };
    proof {
        assert(1 <= spec_bitmap_blocks(total_blocks) <= 0x10_0000);
        assert(header@.root_dir_block < 4096 * (header@.bitmap_block_count as int));
        assert(512 * (header@.bitmap_block_count as int) <= usize::MAX);
    }
    let bitmap = build_bitmap(header.bitmap_block_count, header.root_dir_block);
    let root_dir = DirectoryBlock::new();
    Ok(FormattedVolume { header, bitmap, root_dir })
}

/// Law: for every volume name that fits its field, the header the
/// formatter builds is well-formed, and encoding it and decoding the
/// bytes gives it back unchanged.
pub proof fn lemma_format_header_round_trip(name: Seq<u8>, total_blocks: u32)
    requires
        name.len() <= VOLUME_NAME_LEN,
    ensures
        spec_format_header(name, total_blocks).wf(),
        header_bytes(spec_format_header(name, total_blocks)).len() == HEADER_SIZE,
        header_of_bytes(header_bytes(spec_format_header(name, total_blocks)))
            == spec_format_header(name, total_blocks),
{
    lemma_header_round_trip(spec_format_header(name, total_blocks));
}

} // verus!
