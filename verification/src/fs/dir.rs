//! Directory blocks: fixed-size arrays of file and subdirectory entries.
//!
//! A directory block is one 512-byte block holding [`ENTRY_COUNT`]
//! fixed-size entry slots.  A slot is empty exactly when the first byte
//! of its name field is zero; emptiness is the sole occupancy marker.
//! Adding an entry always takes the lowest-indexed empty slot, so slot
//! order preserves insertion order while no entry is ever removed.

use vstd::prelude::*;

use crate::fs::block::BLOCK_SIZE;
use crate::fs::bytes::{copy_bytes, first_zero, le_u32, lemma_first_zero, lemma_first_zero_is,
    lemma_u32_le_round_trip, push_u32_le, push_zero_padded, read_u32_le, u32_le, zero_pad,
    zeroed_vec};
use crate::fs::error::FsError;
use vstd::pervasive::VecAdditionalExecFns;
use vstd::string::StringSliceAdditionalSpecFns;
use vstd::utf8::{decode_utf8, encode_utf8_decode_utf8, valid_utf8};

verus! {

/// Maximum name bytes of a directory entry.
pub const MAX_NAME_LEN: usize = 32;

/// Bytes of one packed entry on disk: `name[32]`, `entry_type:u8`,
/// `first_block:u32`, `size:u32`.
pub const ENTRY_SIZE: usize = 41;

/// Entry slots per directory block, derived from the fixed block and
/// entry sizes.
pub const ENTRY_COUNT: usize = BLOCK_SIZE / ENTRY_SIZE;

/// Whether an entry names a file or a subdirectory.
#[derive(Clone, Copy, Debug, PartialEq, Eq, Structural)]
pub enum EntryType {
    File,
    Directory,
}

/// The mathematical value of a directory entry.
pub ghost struct DirEntryView {
    pub name: Seq<u8>,
    pub entry_type: EntryType,
    pub first_block: u32,
    pub size: u32,
}

impl DirEntryView {
    /// The name field has its fixed width.
    pub open spec fn wf(self) -> bool {
        self.name.len() == MAX_NAME_LEN
    }
}

/// A slot holds an entry exactly when the first byte of its name field
/// is nonzero.
pub open spec fn occupied(e: DirEntryView) -> bool {
    e.name.len() > 0 && e.name[0] != 0
}

/// The decoded name of an entry: its name bytes up to the first zero.
pub open spec fn entry_name(e: DirEntryView) -> Seq<u8> {
    e.name.take(first_zero(e.name))
}

/// An occupied entry whose decoded name is exactly `n`.
pub open spec fn name_matches(e: DirEntryView, n: Seq<u8>) -> bool {
    occupied(e) && entry_name(e) == n
}

/// The all-zero entry value an empty slot holds.
pub open spec fn empty_entry_view() -> DirEntryView {
    DirEntryView {
        name: Seq::new(MAX_NAME_LEN as nat, |i: int| 0u8),
        entry_type: EntryType::File,
        first_block: 0,
        size: 0,
    }
}

/// The entry built from a name (zero-padded to its fixed width), a type,
/// a first block and a size.
pub open spec fn made_entry(name: Seq<u8>, entry_type: EntryType, first_block: u32, size: u32)
    -> DirEntryView {
    DirEntryView { name: zero_pad(name, MAX_NAME_LEN as int), entry_type, first_block, size }
}

/// Index of the first empty slot of `s`, or `s.len()` if every slot is
/// occupied.
pub open spec fn first_free(s: Seq<DirEntryView>) -> int
    decreases s.len(),
{
    if s.len() == 0 {
        0
    } else if !occupied(s[0]) {
        0
    } else {
        1 + first_free(s.drop_first())
    }
}

/// Index of the first slot of `s` whose entry matches `n`, or `s.len()`
/// if none does.
pub open spec fn first_match(s: Seq<DirEntryView>, n: Seq<u8>) -> int
    decreases s.len(),
{
    if s.len() == 0 {
        0
    } else if name_matches(s[0], n) {
        0
    } else {
        1 + first_match(s.drop_first(), n)
    }
}

/// Every slot from the first empty one on is empty: the occupied slots
/// form a prefix.  Directories reached from an empty block by adding
/// entries alone always have this shape.
pub open spec fn packed(s: Seq<DirEntryView>) -> bool {
    forall|i: int| first_free(s) <= i < s.len() ==> !occupied(s[i])
}

/// The occupied entries of `s`, in slot order.
pub open spec fn live_entries(s: Seq<DirEntryView>) -> Seq<DirEntryView>
    decreases s.len(),
{
    if s.len() == 0 {
        Seq::empty()
    } else {
        let rest = live_entries(s.drop_last());
        if occupied(s.last()) {
            rest.push(s.last())
        } else {
            rest
        }
    }
}

/// The views of a run of entries.
pub open spec fn views_of(s: Seq<DirEntry>) -> Seq<DirEntryView> {
    s.map_values(|e: DirEntry| e@)
}

pub proof fn lemma_first_free(s: Seq<DirEntryView>)
    ensures
        0 <= first_free(s) <= s.len(),
        forall|i: int| 0 <= i < first_free(s) ==> occupied(s[i]),
        first_free(s) < s.len() ==> !occupied(s[first_free(s)]),
    decreases s.len(),
{
    if s.len() > 0 && occupied(s[0]) {
        lemma_first_free(s.drop_first());
        assert forall|i: int| 0 <= i < first_free(s) implies occupied(s[i]) by {
            if i > 0 {
                assert(s.drop_first()[i - 1] == s[i]);
            }
        }
        if first_free(s) < s.len() {
            assert(s.drop_first()[first_free(s) - 1] == s[first_free(s)]);
        }
    }
}

/// The first empty slot is at `k` exactly when every slot before `k` is
/// occupied and `k` is empty or the end.
pub proof fn lemma_first_free_is(s: Seq<DirEntryView>, k: int)
    requires
        0 <= k <= s.len(),
        forall|i: int| 0 <= i < k ==> occupied(s[i]),
        k < s.len() ==> !occupied(s[k]),
    ensures
        first_free(s) == k,
{
    lemma_first_free(s);
}

pub proof fn lemma_first_match(s: Seq<DirEntryView>, n: Seq<u8>)
    ensures
        0 <= first_match(s, n) <= s.len(),
        forall|i: int| 0 <= i < first_match(s, n) ==> !name_matches(s[i], n),
        first_match(s, n) < s.len() ==> name_matches(s[first_match(s, n)], n),
    decreases s.len(),
{
    if s.len() > 0 && !name_matches(s[0], n) {
        lemma_first_match(s.drop_first(), n);
        assert forall|i: int| 0 <= i < first_match(s, n) implies !name_matches(s[i], n) by {
            if i > 0 {
                assert(s.drop_first()[i - 1] == s[i]);
            }
        }
        if first_match(s, n) < s.len() {
            assert(s.drop_first()[first_match(s, n) - 1] == s[first_match(s, n)]);
        }
    }
}

/// The first matching slot is at `k` exactly when no slot before `k`
/// matches and `k` matches or is the end.
pub proof fn lemma_first_match_is(s: Seq<DirEntryView>, n: Seq<u8>, k: int)
    requires
        0 <= k <= s.len(),
        forall|i: int| 0 <= i < k ==> !name_matches(s[i], n),
        k < s.len() ==> name_matches(s[k], n),
    ensures
        first_match(s, n) == k,
{
    lemma_first_match(s, n);
}

/// Appending a slot extends the listing exactly when the slot is
/// occupied.
pub proof fn lemma_live_entries_push(s: Seq<DirEntryView>, e: DirEntryView)
    ensures
        occupied(e) ==> live_entries(s.push(e)) == live_entries(s).push(e),
        !occupied(e) ==> live_entries(s.push(e)) == live_entries(s),
{
    assert(s.push(e).drop_last() =~= s);
    assert(s.push(e).last() == e);
}

/// In a run whose first `k` slots are occupied and whose remaining slots
/// are empty, the listing is exactly that prefix of `k` entries.
pub proof fn lemma_live_entries_prefix(s: Seq<DirEntryView>, k: int)
    requires
        0 <= k <= s.len(),
        forall|i: int| 0 <= i < k ==> occupied(s[i]),
        forall|i: int| k <= i < s.len() ==> !occupied(s[i]),
    ensures
        live_entries(s) == s.take(k),
    decreases s.len(),
{
    if s.len() == 0 {
        assert(s.take(k) =~= Seq::<DirEntryView>::empty());
    } else if occupied(s.last()) {
        assert(k == s.len());
        lemma_live_entries_prefix(s.drop_last(), k - 1);
        assert(s.drop_last().take(k - 1) =~= s.drop_last());
        assert(s.drop_last().push(s.last()) =~= s.take(k));
    } else {
        assert(k <= s.len() - 1);
        lemma_live_entries_prefix(s.drop_last(), k);
        assert(s.drop_last().take(k) =~= s.take(k));
    }
}

/// Law: in a directory block with every slot empty, the first free slot
/// is the first slot and the listing is empty.
pub proof fn lemma_empty_dir(s: Seq<DirEntryView>)
    requires
        forall|i: int| 0 <= i < s.len() ==> !occupied(s[i]),
    ensures
        packed(s),
        first_free(s) == 0,
        live_entries(s) == Seq::<DirEntryView>::empty(),
{
    lemma_first_free_is(s, 0);
    lemma_live_entries_prefix(s, 0);
    assert(s.take(0) =~= Seq::<DirEntryView>::empty());
}

/// Law: adding an occupied entry to a packed directory with a free slot
/// fills the lowest free slot, keeps the directory packed, and appends
/// the entry at the end of the listing — so entries added one by one
/// appear in the listing in exactly the order they were added.
pub proof fn lemma_add_entry_order(s: Seq<DirEntryView>, e: DirEntryView)
    requires
        packed(s),
        first_free(s) < s.len(),
        occupied(e),
    ensures
        packed(s.update(first_free(s), e)),
        first_free(s.update(first_free(s), e)) == first_free(s) + 1,
        live_entries(s.update(first_free(s), e)) == live_entries(s).push(e),
{
    let ff = first_free(s);
    lemma_first_free(s);
    let s2 = s.update(ff, e);
    lemma_first_free_is(s2, ff + 1);
    lemma_live_entries_prefix(s, ff);
    lemma_live_entries_prefix(s2, ff + 1);
    assert(s2.take(ff + 1) =~= s.take(ff).push(e));
}

/// Law: after an occupied entry whose decoded name is `n` is written
/// into the first free slot, and no earlier slot matches `n`, that very
/// slot is the first match a lookup of `n` finds — a stored name is
/// never reported absent.
pub proof fn lemma_added_entry_found(s: Seq<DirEntryView>, e: DirEntryView, n: Seq<u8>)
    requires
        first_free(s) < s.len(),
        name_matches(e, n),
        forall|i: int| 0 <= i < first_free(s) ==> !name_matches(s[i], n),
    ensures
        first_match(s.update(first_free(s), e), n) == first_free(s),
        s.update(first_free(s), e)[first_free(s)] == e,
{
    lemma_first_free(s);
    lemma_first_match_is(s.update(first_free(s), e), n, first_free(s));
}

/// One record describing a file or subdirectory.
#[derive(Debug, PartialEq, Eq)]
pub struct DirEntry {
    /// Fixed 32-byte, zero-terminated name; a zero first byte marks the
    /// whole slot empty.
    pub name: Vec<u8>,
    /// Whether the entry is a file or a subdirectory.
    pub entry_type: EntryType,
    /// Index of the entry's first data block; 0 means no block is
    /// allocated.
    pub first_block: u32,
    /// Byte length, meaningful for files only.
    pub size: u32,
}

impl View for DirEntry {
    type V = DirEntryView;

    open spec fn view(&self) -> DirEntryView {
        DirEntryView {
            name: self.name@,
            entry_type: self.entry_type,
            first_block: self.first_block,
            size: self.size,
        }
    }
}

/// Relies on std's `core::str::from_utf8`: it succeeds exactly when the
/// bytes are valid UTF-8, and the returned string slice views those very
/// bytes.
#[verifier::external_body]
fn bytes_as_str(v: &[u8]) -> (r: Option<&str>)
    ensures
        r is Some <==> valid_utf8(v@),
        r matches Some(s) ==> s.spec_bytes() == v@,
{
    core::str::from_utf8(v).ok()
}

impl DirEntry {
    /// The name field has its fixed width.
    pub open spec fn wf(&self) -> bool {
        self@.wf()
    }

    /// The all-zero entry an empty slot holds.
    pub fn empty() -> (r: DirEntry)
        ensures
            r@ == empty_entry_view(),
            r.wf(),
    {
        let r = DirEntry {
            name: zeroed_vec(MAX_NAME_LEN),
            entry_type: EntryType::File,
            first_block: 0,
            size: 0,
        };
        assert(r@ == empty_entry_view());
        r
    }

    /// Builds an entry from a name of at most [`MAX_NAME_LEN`] bytes,
    /// zero-padding the name field; fails with `NameTooLong` otherwise.
    pub fn new(name: &[u8], entry_type: EntryType, first_block: u32, size: u32) -> (r: Result<
        DirEntry,
        FsError,
    >)
        ensures
            name@.len() > MAX_NAME_LEN ==> r == Err::<DirEntry, FsError>(FsError::NameTooLong),
            name@.len() <= MAX_NAME_LEN ==> (r matches Ok(e) && e@ == made_entry(
                name@,
                entry_type,
                first_block,
                size,
            ) && e.wf()),
    {
        if name.len() > MAX_NAME_LEN {
            return Err(FsError::NameTooLong);
        }
        let mut field = copy_bytes(name);
        let mut i: usize = name.len();
        while i < MAX_NAME_LEN
            invariant
                name@.len() <= i <= MAX_NAME_LEN,
                field@ == name@ + Seq::new((i - name@.len()) as nat, |j: int| 0u8),
            decreases MAX_NAME_LEN - i,
        {
            field.push(0);
            i = i + 1;
            assert(field@ =~= name@ + Seq::new((i - name@.len()) as nat, |j: int| 0u8));
        }
        assert(field@ =~= zero_pad(name@, MAX_NAME_LEN as int));
        Ok(DirEntry { name: field, entry_type, first_block, size })
    }

    /// A fresh entry equal to this one.
    pub fn duplicate(&self) -> (r: DirEntry)
        ensures
            r@ == self@,
    {
        DirEntry {
            name: copy_bytes(self.name.as_slice()),
            entry_type: self.entry_type,
            first_block: self.first_block,
            size: self.size,
        }
    }

    /// Length of the decoded name: bytes before the first zero.
    pub fn name_len(&self) -> (r: usize)
        requires
            self.wf(),
        ensures
            r == first_zero(self@.name),
    {
        let mut i: usize = 0;
        while i < MAX_NAME_LEN
            invariant
                self.wf(),
                i <= MAX_NAME_LEN,
                forall|j: int| 0 <= j < i ==> self@.name[j] != 0,
            decreases MAX_NAME_LEN - i,
        {
            if self.name[i] == 0 {
                proof {
                    lemma_first_zero_is(self@.name, i as int);
                }
                return i;
            }
            i = i + 1;
        }
        proof {
            lemma_first_zero_is(self@.name, MAX_NAME_LEN as int);
        }
        MAX_NAME_LEN
    }

    /// The decoded name as text: the UTF-8 decoding of the name bytes
    /// up to the first zero, or the empty string when those bytes are
    /// not valid UTF-8.
    pub fn name_as_str(&self) -> (r: String)
        requires
            self.wf(),
        ensures
            valid_utf8(entry_name(self@)) ==> r@ == decode_utf8(entry_name(self@)),
            !valid_utf8(entry_name(self@)) ==> r@ == Seq::<char>::empty(),
    {
        let n = self.name_len();
        proof {
            lemma_first_zero(self@.name);
            assert(self@.name.subrange(0, n as int) =~= entry_name(self@));
        }
        let t = &self.name.as_slice()[0..n];
        match bytes_as_str(t) {
            Option::Some(s) => {
                proof {
                    encode_utf8_decode_utf8(s@);
                }
                s.to_owned()
            },
            Option::None => String::new(),
        }
    }

    /// Whether this entry is occupied and its decoded name is exactly
    /// `name` (case-sensitive).
    pub fn names_equal(&self, name: &[u8]) -> (r: bool)
        requires
            self.wf(),
        ensures
            r == name_matches(self@, name@),
    {
        let n = self.name_len();
        proof {
            lemma_first_zero(self@.name);
        }
        if n == 0 {
            return false;
        }
        if n != name.len() {
            assert(entry_name(self@).len() == n);
            return false;
        }
        let mut i: usize = 0;
        while i < n
            invariant
                self.wf(),
                n == first_zero(self@.name),
                0 < n <= MAX_NAME_LEN,
                n == name@.len(),
                i <= n,
                forall|j: int| 0 <= j < i ==> self@.name[j] == name@[j],
            decreases n - i,
        {
            if self.name[i] != name[i] {
                proof {
                    assert(entry_name(self@)[i as int] == self@.name[i as int]);
                }
                return false;
            }
            i = i + 1;
        }
        assert(entry_name(self@) =~= name@);
        true
    }
}

/// A block interpreted as a fixed array of [`ENTRY_COUNT`] directory
/// entry slots.
#[derive(Debug, PartialEq, Eq)]
pub struct DirectoryBlock {
    /// The slots, in stored (on-disk) order.
    pub entries: Vec<DirEntry>,
}

impl View for DirectoryBlock {
    type V = Seq<DirEntryView>;

    open spec fn view(&self) -> Seq<DirEntryView> {
        views_of(self.entries@)
    }
}

impl DirectoryBlock {
    /// The block has exactly [`ENTRY_COUNT`] slots, each well-formed.
    pub open spec fn wf(&self) -> bool {
        &&& self@.len() == ENTRY_COUNT
        &&& forall|i: int| 0 <= i < ENTRY_COUNT ==> self@[i].wf()
    }

    /// A directory block with every slot empty.
    pub fn new() -> (r: DirectoryBlock)
        ensures
            r.wf(),
            r@.len() == ENTRY_COUNT,
            forall|i: int| 0 <= i < ENTRY_COUNT ==> r@[i] == empty_entry_view(),
    {
        let mut entries: Vec<DirEntry> = Vec::new();
        let mut i: usize = 0;
        while i < ENTRY_COUNT
            invariant
                i <= ENTRY_COUNT,
                i == entries@.len(),
                forall|j: int| 0 <= j < i ==> entries@[j]@ == empty_entry_view(),
            decreases ENTRY_COUNT - i,
        {
            entries.push(DirEntry::empty());
            i = i + 1;
        }
        DirectoryBlock { entries }
    }

    /// Writes `entry` into the lowest-indexed empty slot; fails with
    /// `DirectoryFull`, mutating nothing, when no slot is empty.
    pub fn add_entry(&mut self, entry: DirEntry) -> (r: Result<(), FsError>)
        requires
            old(self).wf(),
            entry.wf(),
        ensures
            final(self).wf(),
            first_free(old(self)@) < ENTRY_COUNT ==> (r == Ok::<(), FsError>(()) && final(self)@
                == old(self)@.update(first_free(old(self)@), entry@)),
            first_free(old(self)@) >= ENTRY_COUNT ==> (r == Err::<(), FsError>(
                FsError::DirectoryFull,
            ) && final(self)@ == old(self)@),
    {
        let mut i: usize = 0;
        while i < ENTRY_COUNT
            invariant
                old(self).wf(),
                entry.wf(),
                i <= ENTRY_COUNT,
                *self == *old(self),
                forall|j: int| 0 <= j < i ==> occupied(old(self)@[j]),
            decreases ENTRY_COUNT - i,
        {
            proof {
                assert(self@.len() == ENTRY_COUNT);
                assert(self@[i as int].wf());
                assert(self@[i as int] == self.entries@[i as int]@);
            }
            let free_here = {
                let e = &self.entries[i];
                e.name[0] == 0
            };
            if free_here {
                proof {
                    assert(!occupied(self@[i as int]));
                    lemma_first_free_is(self@, i as int);
                }
                self.entries.set(i, entry);
                proof {
                    assert(self@ =~= old(self)@.update(i as int, entry@));
                }
                return Ok(());
            }
            i = i + 1;
        }
        proof {
            lemma_first_free_is(self@, ENTRY_COUNT as int);
        }
        Err(FsError::DirectoryFull)
    }

    /// Linear scan for the first occupied slot whose decoded name is
    /// exactly `name`; fails with `EntryNotFound` when no slot matches.
    pub fn find_entry(&self, name: &[u8]) -> (r: Result<DirEntry, FsError>)
        requires
            self.wf(),
        ensures
            r is Ok <==> (exists|i: int| 0 <= i < self@.len() && name_matches(self@[i], name@)),
            r matches Ok(e) ==> first_match(self@, name@) < self@.len() && e@ == self@[first_match(
                self@,
                name@,
            )] && name_matches(e@, name@),
            r is Err ==> r == Err::<DirEntry, FsError>(FsError::EntryNotFound),
    {
        let mut i: usize = 0;
        while i < ENTRY_COUNT
            invariant
                self.wf(),
                i <= ENTRY_COUNT,
                forall|j: int| 0 <= j < i ==> !name_matches(self@[j], name@),
            decreases ENTRY_COUNT - i,
        {
            proof {
                assert(self@.len() == ENTRY_COUNT);
                assert(self@[i as int].wf());
                assert(self@[i as int] == self.entries@[i as int]@);
            }
            let e = &self.entries[i];
            if e.names_equal(name) {
                proof {
                    assert(name_matches(self@[i as int], name@));
                    lemma_first_match_is(self@, name@, i as int);
                }
                return Ok(e.duplicate());
            }
            i = i + 1;
        }
        Err(FsError::EntryNotFound)
    }

    /// The occupied entries, in stored slot order, as fresh copies.
    pub fn list_entries(&self) -> (r: Vec<DirEntry>)
        requires
            self.wf(),
        ensures
            views_of(r@) == live_entries(self@),
    {
        let mut out: Vec<DirEntry> = Vec::new();
        let mut i: usize = 0;
        while i < ENTRY_COUNT
            invariant
                self.wf(),
                i <= ENTRY_COUNT,
                views_of(out@) == live_entries(self@.take(i as int)),
            decreases ENTRY_COUNT - i,
        {
            proof {
                assert(self@.len() == ENTRY_COUNT);
                assert(self@[i as int].wf());
                assert(self@[i as int] == self.entries@[i as int]@);
                assert(self@.take(i + 1) =~= self@.take(i as int).push(self@[i as int]));
                lemma_live_entries_push(self@.take(i as int), self@[i as int]);
            }
            let e = &self.entries[i];
            if e.name[0] != 0 {
                let ghost prev = views_of(out@);
                out.push(e.duplicate());
                proof {
                    assert(views_of(out@) =~= prev.push(self@[i as int]));
                }
            } else {
                assert(!occupied(self@[i as int]));
            }
            i = i + 1;
        }
        proof {
            assert(self@.take(ENTRY_COUNT as int) =~= self@);
        }
        out
    }

    /// Encodes the block into its packed [`BLOCK_SIZE`]-byte layout:
    /// [`ENTRY_COUNT`] packed entries followed by zero padding.
    pub fn to_bytes(&self) -> (r: Vec<u8>)
        requires
            self.wf(),
        ensures
            r@ == dir_block_bytes(self@),
            r@.len() == BLOCK_SIZE,
    {
        let mut out: Vec<u8> = Vec::new();
        let mut i: usize = 0;
        while i < ENTRY_COUNT
            invariant
                self.wf(),
                i <= ENTRY_COUNT,
                out@ == entries_bytes(self@.take(i as int)),
                out@.len() == ENTRY_SIZE * i,
            decreases ENTRY_COUNT - i,
        {
            proof {
                assert(self@.len() == ENTRY_COUNT);
                assert(self@[i as int].wf());
                assert(self@[i as int] == self.entries@[i as int]@);
                lemma_entries_bytes_wf_len(self@.take(i as int));
            }
            let ghost prev = out@;
            let e = &self.entries[i];
            push_zero_padded(&mut out, e.name.as_slice(), MAX_NAME_LEN);
            let t: u8 = match e.entry_type {
                EntryType::File => 0,
                EntryType::Directory => 1,
            };
            out.push(t);
            push_u32_le(&mut out, e.first_block);
            push_u32_le(&mut out, e.size);
            proof {
                assert(zero_pad(self@[i as int].name, MAX_NAME_LEN as int) =~= self@[
                    i as int
                ].name);
                assert(out@ =~= prev + entry_bytes(self@[i as int]));
                assert(self@.take(i + 1).drop_last() =~= self@.take(i as int));
                assert(self@.take(i + 1).last() == self@[i as int]);
                assert(out@ == entries_bytes(self@.take(i + 1)));
            }
            i = i + 1;
        }
        proof {
            assert(self@.take(ENTRY_COUNT as int) =~= self@);
        }
        let mut k: usize = ENTRY_SIZE * ENTRY_COUNT;
        while k < BLOCK_SIZE
            invariant
                ENTRY_SIZE * ENTRY_COUNT <= k <= BLOCK_SIZE,
                out@ == entries_bytes(self@) + Seq::new(
                    (k - ENTRY_SIZE * ENTRY_COUNT) as nat,
                    |j: int| 0u8,
                ),
                out@.len() == k,
            decreases BLOCK_SIZE - k,
        {
            out.push(0);
            k = k + 1;
            assert(out@ =~= entries_bytes(self@) + Seq::new(
                (k - ENTRY_SIZE * ENTRY_COUNT) as nat,
                |j: int| 0u8,
            ));
        }
        proof {
            assert(out@ =~= dir_block_bytes(self@));
        }
        out
    }

    /// Decodes a directory block from its packed byte layout; a buffer
    /// of the wrong length fails with `SizeMismatch`.
    pub fn from_bytes(buf: &[u8]) -> (r: Result<DirectoryBlock, FsError>)
        ensures
            r is Ok <==> buf@.len() == BLOCK_SIZE,
            buf@.len() != BLOCK_SIZE ==> r == Err::<DirectoryBlock, FsError>(FsError::SizeMismatch),
            r matches Ok(d) ==> d.wf() && d@ == decoded_entries(buf@),
    {
        if buf.len() != BLOCK_SIZE {
            return Err(FsError::SizeMismatch);
        }
        let mut entries: Vec<DirEntry> = Vec::new();
        let mut i: usize = 0;
        while i < ENTRY_COUNT
            invariant
                buf@.len() == BLOCK_SIZE,
                i <= ENTRY_COUNT,
                i == entries@.len(),
                forall|j: int|
                    0 <= j < i ==> entries@[j]@ == entry_of_bytes(
                        buf@.subrange(ENTRY_SIZE * j, ENTRY_SIZE * j + ENTRY_SIZE as int),
                    ),
                forall|j: int| 0 <= j < i ==> entries@[j]@.wf(),
            decreases ENTRY_COUNT - i,
        {
            let off = ENTRY_SIZE * i;
            let mut name: Vec<u8> = Vec::new();
            let mut k: usize = 0;
            while k < MAX_NAME_LEN
                invariant
                    buf@.len() == BLOCK_SIZE,
                    off == ENTRY_SIZE * i,
                    i < ENTRY_COUNT,
                    k <= MAX_NAME_LEN,
                    name@ == buf@.subrange(off as int, off + k),
                decreases MAX_NAME_LEN - k,
            {
                name.push(buf[off + k]);
                k = k + 1;
                assert(name@ =~= buf@.subrange(off as int, off + k));
            }
            let entry_type = if buf[off + 32] == 0 {
                EntryType::File
            } else {
                EntryType::Directory
            };
            let first_block = read_u32_le(buf, off + 33);
            let size = read_u32_le(buf, off + 37);
            let e = DirEntry { name, entry_type, first_block, size };
            proof {
                let eb = buf@.subrange(ENTRY_SIZE * i, ENTRY_SIZE * i + ENTRY_SIZE as int);
                assert(eb.subrange(0, MAX_NAME_LEN as int) =~= buf@.subrange(
                    off as int,
                    off + MAX_NAME_LEN,
                ));
                assert(eb[32] == buf@[off + 32]);
                assert(eb.subrange(33, 37) =~= buf@.subrange(off + 33, off + 37));
                assert(eb.subrange(37, 41) =~= buf@.subrange(off + 37, off + 41));
                assert(e@ == entry_of_bytes(eb));
            }
            entries.push(e);
            i = i + 1;
        }
        let d = DirectoryBlock { entries };
        proof {
            assert(d@ =~= decoded_entries(buf@));
        }
        Ok(d)
    }
}

/// The byte a directory entry's type field stores.
pub open spec fn type_byte(t: EntryType) -> u8 {
    match t {
        EntryType::File => 0,
        EntryType::Directory => 1,
    }
}

/// The packed [`ENTRY_SIZE`]-byte layout of one entry: `name[32]`,
/// `entry_type:u8`, `first_block:u32` and `size:u32`, little-endian.
pub open spec fn entry_bytes(e: DirEntryView) -> Seq<u8> {
    e.name + seq![type_byte(e.entry_type)] + u32_le(e.first_block) + u32_le(e.size)
}

/// The entry whose packed byte layout is `b`: a zero type byte reads as
/// a file, any other as a subdirectory.
pub open spec fn entry_of_bytes(b: Seq<u8>) -> DirEntryView
    recommends
        b.len() == ENTRY_SIZE,
{
    DirEntryView {
        name: b.subrange(0, MAX_NAME_LEN as int),
        entry_type: if b[32] == 0 {
            EntryType::File
        } else {
            EntryType::Directory
        },
        first_block: le_u32(b.subrange(33, 37)),
        size: le_u32(b.subrange(37, 41)),
    }
}

/// The packed entries of a run of slots, one after the other.
pub open spec fn entries_bytes(s: Seq<DirEntryView>) -> Seq<u8>
    decreases s.len(),
{
    if s.len() == 0 {
        Seq::empty()
    } else {
        entries_bytes(s.drop_last()) + entry_bytes(s.last())
    }
}

/// The packed [`BLOCK_SIZE`]-byte layout of a whole directory block:
/// its entries one after the other, zero-padded to the block size.
pub open spec fn dir_block_bytes(s: Seq<DirEntryView>) -> Seq<u8> {
    zero_pad(entries_bytes(s), BLOCK_SIZE as int)
}

/// The slots of a directory block read off its packed byte layout.
pub open spec fn decoded_entries(b: Seq<u8>) -> Seq<DirEntryView>
    recommends
        b.len() == BLOCK_SIZE,
{
    Seq::new(
        ENTRY_COUNT as nat,
        |i: int| entry_of_bytes(b.subrange(ENTRY_SIZE * i, ENTRY_SIZE * i + ENTRY_SIZE as int)),
    )
}

pub proof fn lemma_entries_bytes_wf_len(s: Seq<DirEntryView>)
    requires
        forall|i: int| 0 <= i < s.len() ==> s[i].wf(),
    ensures
        entries_bytes(s).len() == ENTRY_SIZE * s.len(),
    decreases s.len(),
{
    if s.len() > 0 {
        assert forall|i: int| 0 <= i < s.drop_last().len() implies s.drop_last()[i].wf() by {
            assert(s.drop_last()[i] == s[i]);
        }
        lemma_entries_bytes_wf_len(s.drop_last());
        assert(s.last().wf());
    }
}

/// Within a run of packed entries, entry `i` stands at offset
/// `ENTRY_SIZE * i`.
pub proof fn lemma_entries_bytes_index(s: Seq<DirEntryView>, i: int)
    requires
        forall|j: int| 0 <= j < s.len() ==> s[j].wf(),
        0 <= i < s.len(),
    ensures
        entries_bytes(s).subrange(ENTRY_SIZE * i, ENTRY_SIZE * i + ENTRY_SIZE as int)
            == entry_bytes(s[i]),
    decreases s.len(),
{
    lemma_entries_bytes_wf_len(s);
    assert forall|j: int| 0 <= j < s.drop_last().len() implies s.drop_last()[j].wf() by {
        assert(s.drop_last()[j] == s[j]);
    }
    lemma_entries_bytes_wf_len(s.drop_last());
    if i == s.len() - 1 {
        assert(entries_bytes(s).subrange(ENTRY_SIZE * i, ENTRY_SIZE * i + ENTRY_SIZE as int)
            =~= entry_bytes(s[i]));
    } else {
        lemma_entries_bytes_index(s.drop_last(), i);
        assert(entries_bytes(s).subrange(ENTRY_SIZE * i, ENTRY_SIZE * i + ENTRY_SIZE as int)
            =~= entries_bytes(s.drop_last()).subrange(
            ENTRY_SIZE * i,
            ENTRY_SIZE * i + ENTRY_SIZE as int,
        ));
    }
}

/// One well-formed entry decodes from its own packed bytes unchanged.
pub proof fn lemma_entry_round_trip(e: DirEntryView)
    requires
        e.wf(),
    ensures
        entry_bytes(e).len() == ENTRY_SIZE,
        entry_of_bytes(entry_bytes(e)) == e,
{
    let b = entry_bytes(e);
    assert(b.subrange(0, MAX_NAME_LEN as int) =~= e.name);
    assert(b[32] == type_byte(e.entry_type));
    assert(b.subrange(33, 37) =~= u32_le(e.first_block));
    assert(b.subrange(37, 41) =~= u32_le(e.size));
    lemma_u32_le_round_trip(e.first_block);
    lemma_u32_le_round_trip(e.size);
}

/// Law: encoding a well-formed directory block and decoding the bytes
/// gives every slot back unchanged.
pub proof fn lemma_dir_block_round_trip(s: Seq<DirEntryView>)
    requires
        s.len() == ENTRY_COUNT,
        forall|i: int| 0 <= i < s.len() ==> s[i].wf(),
    ensures
        dir_block_bytes(s).len() == BLOCK_SIZE,
        decoded_entries(dir_block_bytes(s)) == s,
{
    lemma_entries_bytes_wf_len(s);
    let b = dir_block_bytes(s);
    assert forall|i: int| 0 <= i < ENTRY_COUNT implies decoded_entries(b)[i] == s[i] by {
        lemma_entries_bytes_index(s, i);
        assert(b.subrange(ENTRY_SIZE * i, ENTRY_SIZE * i + ENTRY_SIZE as int)
            =~= entries_bytes(s).subrange(ENTRY_SIZE * i, ENTRY_SIZE * i + ENTRY_SIZE as int));
        lemma_entry_round_trip(s[i]);
    }
    assert(decoded_entries(b) =~= s);
}

} // verus!
