//! Decoding into a buffer that the decoder allocates.
//!
//! The module is named for what tells this decoder from a binding to the C
//! library: it is Rust throughout.

use crate::error::{LzfError, LzfResult};
use crate::format::decode;
use vstd::prelude::*;

verus! {

/// Decompresses `data` into a new buffer of at most `out_len_should` bytes.
///
/// The buffer that is returned holds the decoded bytes and nothing else.
/// The payload has no record of the length it decodes to: the caller has to
/// know it, or a bound on it. The errors are those of
/// [`decompress`](crate::decompress::decompress), with `out_len_should` as
/// the capacity.
pub fn decompress(data: &[u8], out_len_should: usize) -> (r: LzfResult<Vec<u8>>)
    ensures
        data@.len() == 0 ==> r == Err::<Vec<u8>, LzfError>(LzfError::DataCorrupted),
        match decode(data@, out_len_should as int) {
            Ok(plain) => r is Ok && r->Ok_0@ == plain,
            Err(e) => r == Err::<Vec<u8>, LzfError>(e),
        },
{
    let mut output: Vec<u8> = vec![0u8; out_len_should];
    match crate::decompress::decompress(data, output.as_mut_slice()) {
        Ok(out_len) => {
            output.truncate(out_len);
            Ok(output)
        },
        Err(e) => Err(e),
    }
}

} // verus!
