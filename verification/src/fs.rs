//! The filesystem core: blocks, the volume header, directory blocks, and
//! the volume formatter.

pub mod block;
pub mod bytes;
pub mod dir;
pub mod error;
pub mod format;
pub mod header;
