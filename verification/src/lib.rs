//! Splits text into a lazily-produced sequence of overlapping chunks, under
//! two interchangeable sizing strategies: windows measured in raw bytes or
//! in Unicode scalar values (characters).  Either way a chunk is always a
//! whole number of characters: a window boundary never falls inside a
//! multi-byte UTF-8 encoding.
//!
//! Text can be supplied whole (`chunk_string_by_bytes`,
//! `chunk_string_by_characters`) or streamed in blocks of bounded size
//! through the stream chunkers, which hold only a bounded window of the
//! input in memory and produce byte-for-byte the same chunks as the
//! whole-string path.

use vstd::prelude::*;

pub mod boundaries;
pub mod bytes_chunker;
pub mod characters_chunker;
pub mod stream;

verus! {

use vstd::utf8::{valid_utf8, decode_utf8, encode_utf8};

/// The UTF-8 bytes of a string, as an owned buffer.
pub(crate) fn string_to_bytes(text: &str) -> (r: Vec<u8>)
    ensures
        r@ == encode_utf8(text@),
        valid_utf8(r@),
{
    proof {
        vstd::utf8::encode_utf8_valid_utf8(text@);
    }
    vstd::slice::slice_to_vec(text.as_bytes())
}

/// Relies on `String::from_utf8`: on bytes that are valid UTF-8 it succeeds
/// and returns the string those bytes encode.
#[verifier::external_body]
pub(crate) fn bytes_to_string(bytes: Vec<u8>) -> (r: String)
    requires
        valid_utf8(bytes@),
    ensures
        r@ == decode_utf8(bytes@),
{
    match String::from_utf8(bytes) {
        Ok(s) => s,
        Err(_) => String::new(),
    }
}

/// Where the text to be chunked comes from: an in-memory string or a file on
/// disk.  File sources are opened and read by the embedding program, which
/// feeds the bytes to the streaming chunkers of this crate.
#[derive(Debug, Clone)]
pub enum Source {
    Text(String),
    File(String),
}

/// Errors surfaced by the chunkers.
///
/// `Io` stands for a file that could not be opened or read; `InvalidArguments`
/// reports an overlap that is not smaller than the chunk size, carrying both
/// values; `Unknown` covers internal conditions that valid parameters were
/// expected to rule out, such as a window step that cannot make progress.
#[derive(Debug, Clone, Copy, PartialEq, Eq, Structural)]
pub enum ChunkingError {
    Io,
    InvalidArguments { chunk_size: usize, overlap: usize },
    Unknown,
}

} // verus!
