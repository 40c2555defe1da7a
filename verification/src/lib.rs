//! NeoFS: a minimal flat filesystem for fixed-size block devices.
//!
//! A volume is a run of 512-byte blocks: block 0 holds the superblock
//! (header), the blocks after it hold an allocation bitmap (one bit per
//! block), and a root directory block holds fixed-size file and
//! subdirectory entries.  This crate provides the on-disk data model and
//! the logic that creates, validates, and navigates that structure; all
//! device I/O is left to the caller, which hands raw bytes in and out.

pub mod fs;
