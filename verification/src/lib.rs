//! A small codec for the LZF byte-stream compression format.
//!
//! The format is the one defined by Marc Lehmann's LibLZF. A compressed
//! payload is a plain sequence of tokens, without header, length prefix or
//! checksum: literal runs of up to 32 bytes and back-references that copy
//! between 3 and 264 bytes from at most 8192 bytes back in the output.
//!
//! [`compress`](compress::compress) encodes a byte slice into at most as
//! many bytes as it holds, and [`decompress`](decompress::decompress)
//! decodes a token stream into a buffer of the caller. Both are verified
//! against a mathematical model: [`format`] says what a payload decodes to,
//! [`encoder`] what the encoder emits, and [`roundtrip`] proves that every
//! payload that the encoder emits decodes to the data it was made from.
//!
//! ```rust
//! let data = "aaaaaaaaa";
//!
//! let compressed = lzf::compress(data.as_bytes()).unwrap();
//!
//! let mut buffer = [0u8; 9];
//! let len = lzf::decompress(&compressed, &mut buffer).unwrap();
//! assert_eq!(data.as_bytes(), &buffer[..len]);
//! ```

pub mod compress;
pub mod decompress;
pub mod encoder;
pub mod error;
pub mod format;
pub mod native;
pub mod roundtrip;

pub use compress::compress;
pub use decompress::decompress;
pub use error::{LzfError, LzfResult};
