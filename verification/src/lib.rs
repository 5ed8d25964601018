//! Block-compressed, randomly seekable container for large raw images.
//!
//! A container is a fixed preamble, an index of packed 32-bit entries and the
//! stored blocks. Every block holds `block_size` bytes of the wrapped stream,
//! either deflated on its own or kept as they are.

pub mod error;
pub mod index;
pub mod header;
pub mod codec;
pub mod block;
pub mod decode;
pub mod encode;
pub mod reader;

pub use crate::error::CisoError;
pub use crate::index::CisoIndex;
pub use crate::header::{CisoHeader, HeaderView};
pub use crate::decode::decomp_ciso;
pub use crate::encode::comp_ciso;
pub use crate::reader::{Ciso, SeekFrom};
