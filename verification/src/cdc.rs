//! Content-defined chunking: where a stream of bytes is cut depends on the
//! bytes alone.
//!
//! The cutting is the work of the `chunkrs` crate. The items marked as trusted
//! below are believed, not proved; each names the function of `chunkrs` that it
//! calls.

use crate::chunking::{block_start, concat};
use crate::digest::{blake3_digest, FileHash};
use crate::protocol::hash_view;
use crate::wire::bytes_of;
use bytes::Bytes;
use vstd::arithmetic::power2::is_pow2;
use vstd::prelude::*;

verus! {

/// The `ChunkConfig` of the `chunkrs` crate: how large chunks may be.
#[verifier::external_type_specification]
#[verifier::external_body]
pub struct ExChunkConfig(chunkrs::ChunkConfig);

/// The `Chunker` of the `chunkrs` crate: it takes a stream piece by piece.
#[verifier::external_type_specification]
#[verifier::external_body]
pub struct ExChunker(chunkrs::Chunker);

/// The `ChunkError` of the `chunkrs` crate: sizes that cannot be used.
#[verifier::external_type_specification]
#[verifier::external_body]
pub struct ExChunkError(chunkrs::ChunkError);

/// A piece of a file, cut by content.
#[derive(Debug)]
pub struct FileChunk {
    pub data: Bytes,
    pub offset: Option<u64>,
    pub hash: Option<FileHash>,
}

/// What a [`FileChunk`] says.
pub struct FileChunkView {
    pub data: Seq<u8>,
    pub offset: Option<u64>,
    pub hash: Option<Seq<u8>>,
}

impl View for FileChunk {
    type V = FileChunkView;

    open spec fn view(&self) -> FileChunkView {
        FileChunkView {
            data: bytes_of(self.data),
            offset: self.offset,
            hash: hash_view(self.hash),
        }
    }
}

/// What chunks say.
pub open spec fn file_chunk_views(chunks: Seq<FileChunk>) -> Seq<FileChunkView> {
    chunks.map_values(|chunk: FileChunk| chunk@)
}

/// The bytes of each chunk.
pub open spec fn chunk_data(chunks: Seq<FileChunkView>) -> Seq<Seq<u8>> {
    chunks.map_values(|chunk: FileChunkView| chunk.data)
}

/// The chunk of a stream that starts at `offset` and holds `data`.
pub open spec fn stream_chunk(offset: nat, data: Seq<u8>) -> FileChunkView {
    FileChunkView { data, offset: Some(offset as u64), hash: Some(blake3_digest(data)) }
}

/// The chunks of a stream that was cut into `pieces`.
pub open spec fn stream_chunks(pieces: Seq<Seq<u8>>) -> Seq<FileChunkView> {
    Seq::new(pieces.len(), |i: int| stream_chunk(block_start(pieces, i), pieces[i]))
}

/// The least, the average and the greatest size of a chunk.
pub struct ChunkSizes {
    pub min: usize,
    pub avg: usize,
    pub max: usize,
}

/// Whether chunks can be of these sizes: powers of two, in order.
pub open spec fn sizes_in_order(sizes: ChunkSizes) -> bool {
    &&& 0 < sizes.min <= sizes.avg <= sizes.max
    &&& is_pow2(sizes.min as int)
    &&& is_pow2(sizes.avg as int)
    &&& is_pow2(sizes.max as int)
}

/// The sizes that a configuration asks for, if it comes from
/// `ChunkConfig::new` and nothing else in it was set.
pub uninterp spec fn config_sizes(config: chunkrs::ChunkConfig) -> Option<ChunkSizes>;

/// The sizes that a chunker cuts by, if it was made with such a configuration
/// and has neither ended a stream nor begun a second one.
pub uninterp spec fn chunker_sizes(chunker: chunkrs::Chunker) -> Option<ChunkSizes>;

/// The bytes that a chunker has taken in.
pub uninterp spec fn chunker_stream(chunker: chunkrs::Chunker) -> Seq<u8>;

/// The pieces that have been cut off a stream once these bytes of it have been
/// taken in. What is left behind the last of them is not cut off yet.
pub uninterp spec fn cut_pieces(sizes: ChunkSizes, stream: Seq<u8>) -> Seq<Seq<u8>>;

/// Trusted: `ChunkConfig::new` takes sizes that are powers of two and in order,
/// and refuses all others.
pub assume_specification[ chunkrs::ChunkConfig::new ](
    min_size: usize,
    avg_size: usize,
    max_size: usize,
) -> (r: Result<chunkrs::ChunkConfig, chunkrs::ChunkError>)
    ensures
        r is Ok == sizes_in_order(ChunkSizes { min: min_size, avg: avg_size, max: max_size }),
        r matches Ok(config) ==> config_sizes(config) == Some(
            ChunkSizes { min: min_size, avg: avg_size, max: max_size },
        ),
;

/// Trusted: `Chunker::new` starts a stream, of which nothing has been cut off.
/// It looks a mask up by the average size, and has none beyond 512 MiB.
pub assume_specification[ chunkrs::Chunker::new ](config: chunkrs::ChunkConfig) -> (chunker:
    chunkrs::Chunker)
    requires
        config_sizes(config) matches Some(sizes) && sizes.avg <= 0x2000_0000,
    ensures
        chunker_sizes(chunker) == config_sizes(config),
        chunker_stream(chunker) == Seq::<u8>::empty(),
        cut_pieces(config_sizes(config)->0, chunker_stream(chunker)) == Seq::<Seq<u8>>::empty(),
;

/// Trusted: `Chunker::push` takes in `data` behind what came before, and gives
/// the pieces that this cuts off, with their offsets and BLAKE3 digests, and
/// the bytes that are left behind them. The chunker keeps those bytes itself.
/// It counts the stream in a `u64`, and makes room for the cuts in advance:
/// with pieces of at least sixteen bytes, that room can be had.
#[verifier::external_body]
pub(crate) fn chunker_push(chunker: &mut chunkrs::Chunker, data: Bytes) -> (r: (
    Vec<FileChunk>,
    Bytes,
))
    requires
        chunker_sizes(*old(chunker)) matches Some(sizes) && sizes.min >= 16 && sizes.max
            <= isize::MAX,
        chunker_stream(*old(chunker)).len() + bytes_of(data).len() <= u64::MAX,
    ensures
        chunker_sizes(*final(chunker)) == chunker_sizes(*old(chunker)),
        chunker_stream(*final(chunker)) == chunker_stream(*old(chunker)) + bytes_of(data),
        cut_pieces(chunker_sizes(*old(chunker))->0, chunker_stream(*final(chunker))) == cut_pieces(
            chunker_sizes(*old(chunker))->0,
            chunker_stream(*old(chunker)),
        ) + chunk_data(file_chunk_views(r.0@)),
        file_chunk_views(r.0@) == stream_chunks(
            cut_pieces(chunker_sizes(*old(chunker))->0, chunker_stream(*final(chunker))),
        ).skip(
            cut_pieces(
                chunker_sizes(*old(chunker))->0,
                chunker_stream(*old(chunker)),
            ).len() as int,
        ),
        forall|i: int|
            0 <= i < r.0@.len() ==> (chunker_sizes(*old(chunker))->0).min <= bytes_of(
                (#[trigger] r.0@[i]).data,
            ).len() <= (chunker_sizes(*old(chunker))->0).max,
        concat(cut_pieces(chunker_sizes(*old(chunker))->0, chunker_stream(*final(chunker))))
            + bytes_of(r.1) == chunker_stream(*final(chunker)),
        bytes_of(r.1).len() < (chunker_sizes(*old(chunker))->0).max,
{
    let (chunks, leftover) = chunker.push(data);
    let chunks = chunks.into_iter().map(
        |c| FileChunk { data: c.data, offset: c.offset, hash: c.hash.map(|h| *h.as_bytes()) },
    ).collect();
    (chunks, leftover)
}

/// Trusted: `Chunker::finish` gives the bytes that have not been cut off, with
/// their offset and BLAKE3 digest, as the last piece of the stream, and nothing
/// if there are none.
#[verifier::external_body]
pub(crate) fn chunker_finish(chunker: chunkrs::Chunker) -> (r: Option<FileChunk>)
    requires
        chunker_sizes(chunker) is Some,
    ensures
        ({
            let sizes = chunker_sizes(chunker)->0;
            let cut = cut_pieces(sizes, chunker_stream(chunker));
            match r {
                Some(chunk) => {
                    &&& 0 < bytes_of(chunk.data).len() < sizes.max
                    &&& chunk@ == stream_chunk(concat(cut).len(), bytes_of(chunk.data))
                    &&& concat(cut) + bytes_of(chunk.data) == chunker_stream(chunker)
                },
                None => concat(cut) == chunker_stream(chunker),
            }
        }),
{
    let mut chunker = chunker;
    chunker.finish().map(
        |c| FileChunk { data: c.data, offset: c.offset, hash: c.hash.map(|h| *h.as_bytes()) },
    )
}

/// A chunk says what stands in its fields.
pub proof fn lemma_file_chunk_says_what_it_holds(chunk: FileChunk)
    ensures
        chunk@.data == bytes_of(chunk.data),
        chunk@.offset == chunk.offset,
        chunk.hash is None <==> chunk@.hash is None,
        chunk.hash matches Some(hash) ==> chunk@.hash == Some(hash@),
{
}

/// Chunks say what they hold, each in its place.
pub proof fn lemma_file_chunks_keep_places(chunks: Seq<FileChunk>)
    ensures
        file_chunk_views(chunks).len() == chunks.len(),
        chunk_data(file_chunk_views(chunks)).len() == chunks.len(),
        forall|i: int|
            0 <= i < chunks.len() ==> {
                &&& #[trigger] file_chunk_views(chunks)[i] == chunks[i]@
                &&& chunk_data(file_chunk_views(chunks))[i] == bytes_of(chunks[i].data)
            },
{
}

/// A stream that was cut into pieces gives one chunk for each of them: with its
/// bytes, the place where it starts in the stream, and its BLAKE3 digest.
pub proof fn lemma_one_chunk_per_piece(pieces: Seq<Seq<u8>>)
    ensures
        stream_chunks(pieces).len() == pieces.len(),
        forall|i: int|
            0 <= i < pieces.len() ==> {
                let chunk = #[trigger] stream_chunks(pieces)[i];
                &&& chunk.data == pieces[i]
                &&& chunk.offset == Some(concat(pieces.take(i)).len() as u64)
                &&& chunk.hash == Some(blake3_digest(pieces[i]))
            },
{
}

} // verus!
