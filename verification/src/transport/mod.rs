//! The two ends of an upload, each as a state machine over frames.

pub mod client;
pub mod server;

pub use client::ClientFileProcessor;
pub use server::ServerFileProcessor;

use crate::digest::{blake3_digest, digest_of, FileHash};
use vstd::prelude::*;

verus! {

/// The hash of a file with these contents.
pub fn file_hash(contents: &[u8]) -> (hash: FileHash)
    ensures
        hash@ == blake3_digest(contents@),
{
    digest_of(contents)
}

} // verus!
