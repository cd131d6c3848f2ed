//! Tunables of the client and the server.

use vstd::prelude::*;

verus! {

/// How many bytes of a file the client sends in one chunk. The last chunk of a
/// file holds what is left.
pub const CHUNK_SIZE: usize = 65536;

/// A small chunk size, for splitting short files.
pub const CHUNK_SIZE_T: usize = 10;

/// How many chunks may be on their way to the writer at the same time.
pub const MAX_SEND_TASK: usize = 8;

/// Where the server keeps the files that it receives.
pub const SERVER_FOLDER: &'static str = "/tmp/uploads";

/// The client sends 64 KiB in one chunk, through at most eight tasks, short files
/// are split by ten bytes, and the server keeps its files in `/tmp/uploads`.
pub proof fn lemma_tunables()
    ensures
        CHUNK_SIZE == 64 * 1024,
        CHUNK_SIZE_T == 10,
        MAX_SEND_TASK == 8,
        SERVER_FOLDER@ == "/tmp/uploads"@,
{
}

} // verus!
