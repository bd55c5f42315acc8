//! A simplified block-based file system stored as hex-encoded text: one
//! line per block, each block self-describing its type and contents.  The
//! crate covers the block codec, disk creation and parsing, the directory
//! walk, the file reader and the hex-dump renderer, each specified against
//! a mathematical model of the block sequence.

pub mod block;
pub mod hexcode;
pub mod vfs;
