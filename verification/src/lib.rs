//! A chunked file-transfer protocol over a visual channel.
//!
//! The sender base64-encodes a file and splits the text into bounded-size
//! chunks, each rendered as one QR code; the receiver watches a noisy,
//! repeating stream of decoded chunk strings, deduplicates them, declares the
//! transfer complete after a period of silence, and reassembles the original
//! bytes by concatenating the chunks in first-seen order and base64-decoding.

use vstd::prelude::*;

pub mod b64;
pub mod codec;
pub mod frame;
pub mod render;
pub mod text;
pub mod tracker;

verus! {

/// Number of base64 characters carried by one chunk (one QR code).
pub const CHUNK_SIZE: usize = 2000;

/// Period of the sender's display cycle, in milliseconds.
pub const SLIDE_INTERVAL_MS: u64 = 1000;

/// Period of the receiver's capture polling loop, in milliseconds.
pub const CAPTURE_INTERVAL_MS: u64 = 50;

/// Silence (no newly seen chunk) after which the receiver declares the
/// transfer complete, in milliseconds.
pub const IDLE_TIMEOUT_MS: u64 = 3000;

/// Port of the sender's slideshow HTTP service.
pub const HTTP_PORT: u16 = 9090;

/// Number of chunks needed to carry `text_len` characters: the ceiling of
/// `text_len / chunk_size`.
pub open spec fn spec_chunk_count(text_len: nat, chunk_size: nat) -> nat
    recommends
        chunk_size > 0,
{
    ((text_len + chunk_size - 1) / chunk_size as int) as nat
}

} // verus!
