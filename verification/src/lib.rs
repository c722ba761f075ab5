//! # cowfile
//!
//! A copy-on-write abstraction for working with binary data from files or memory.
//!
//! [`CowFile`] wraps binary data with a pending write log. The committed buffer is backed by
//! either a `Vec<u8>` or a copy-on-write memory map. Modifications accumulate in the log and are
//! applied to the buffer on [`commit`](CowFile::commit). [`data`](CowFile::data) shows the
//! committed state; [`read`](CowFile::read) composites pending writes over it.
//!
//! [`Overlay`] keeps modifications apart from an immutable base such as a [`Backend`], in two
//! sparse layers.
//!
//! [`laws`] states what holds across operations, and [`operations`] what each operation does.
//!
//! ```
//! use cowfile::CowFile;
//!
//! let mut file = CowFile::from_vec(vec![0u8; 1024]);
//! file.write(0x10, &[0xFF, 0xFE]).unwrap();
//! assert_eq!(file.data()[0x10], 0x00);
//! assert_eq!(file.read_byte(0x10).unwrap(), 0xFF);
//! file.commit().unwrap();
//! assert_eq!(file.data()[0x10], 0xFF);
//! ```

pub mod bytes;
pub mod endian;
pub mod laws;
pub mod layer;
pub mod merge;
pub mod operations;
pub mod overlay;
pub mod pending;
pub mod runs;
pub mod trim;

mod backend;
mod buffer;
mod cowfile;
mod cursor;
mod error;
mod mapping;
mod primitives;
mod private;
mod traits;

pub use crate::backend::Backend;
pub use crate::cowfile::{CowFile, CowFileView, Fork, MMAP_WRITE_THRESHOLD};
pub use crate::cursor::{CowFileCursor, SeekError, SeekFrom};
pub use crate::error::Error;
pub use crate::overlay::Overlay;
pub use crate::pending::PendingWrite;
pub use crate::primitives::Primitive;
pub use crate::traits::{ReadFrom, WriteTo};
