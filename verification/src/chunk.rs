//! Splitting a file, by content or into blocks of one size.

use crate::cdc::{
    chunk_data, chunker_finish, chunker_push, chunker_sizes, chunker_stream, cut_pieces,
    file_chunk_views, stream_chunks, ChunkSizes, FileChunk, FileChunkView,
};
use crate::chunking::{
    block_views, concat, fixed_blocks, lemma_fixed_blocks_push, lemma_fixed_blocks_whole,
    lemma_fixed_count, lemma_next_start, lemma_read_step, lemma_until_empty, nth_start,
    until_empty,
};
use crate::ids::{is_version_4, new_file_id, FileId};
use crate::wire::bytes_of;
use bytes::Bytes;
use vstd::arithmetic::power2::is_pow2;
use vstd::prelude::*;
use vstd::slice::*;

verus! {

/// A block of a file.
#[derive(Debug)]
pub struct SyncChunk {
    pub file_id: FileId,
    pub bytes: Bytes,
    pub offset: usize,
}

/// The sizes by which files are split: 16 KiB at least, 64 KiB on average and
/// 128 KiB at most.
pub open spec fn split_sizes() -> ChunkSizes {
    ChunkSizes { min: 16384, avg: 65536, max: 131072 }
}

/// The pieces of a stream once it has ended: those that were cut off, and what
/// was left behind them.
pub open spec fn all_pieces(stream: Seq<u8>) -> Seq<Seq<u8>> {
    let cut = cut_pieces(split_sizes(), stream);
    let rest = stream.skip(concat(cut).len() as int);
    if rest.len() > 0 {
        cut.push(rest)
    } else {
        cut
    }
}

/// Whether no chunk is larger than allowed, and none but the last is smaller.
pub open spec fn sizes_kept(chunks: Seq<FileChunkView>) -> bool {
    forall|i: int|
        0 <= i < chunks.len() ==> {
            let len = (#[trigger] chunks[i]).data.len();
            &&& 0 < len <= split_sizes().max
            &&& i < chunks.len() - 1 ==> split_sizes().min <= len
        }
}

/// A file that is being split by content.
pub struct FileSplitter {
    chunker: chunkrs::Chunker,
    chunks: Vec<FileChunk>,
}

impl FileSplitter {
    /// The bytes of the file that were read so far.
    pub closed spec fn stream(&self) -> Seq<u8> {
        chunker_stream(self.chunker)
    }

    /// Whether the chunks are those that have been cut off so far.
    pub closed spec fn wf(&self) -> bool {
        let cut = cut_pieces(split_sizes(), self.stream());
        &&& chunker_sizes(self.chunker) == Some(split_sizes())
        &&& file_chunk_views(self.chunks@) == stream_chunks(cut)
        &&& forall|i: int|
            0 <= i < cut.len() ==> split_sizes().min <= (#[trigger] cut[i]).len()
                <= split_sizes().max
    }

    /// The start of a file.
    pub fn new() -> (splitter: FileSplitter)
        ensures
            splitter.wf(),
            splitter.stream() == Seq::<u8>::empty(),
    {
        proof {
            reveal_with_fuel(is_pow2, 18);
        }
        let config = chunkrs::ChunkConfig::new(16 * 1024, 64 * 1024, 128 * 1024).unwrap();
        let splitter = FileSplitter { chunker: chunkrs::Chunker::new(config), chunks: Vec::new() };
        assert(file_chunk_views(splitter.chunks@) =~= stream_chunks(Seq::<Seq<u8>>::empty()));
        splitter
    }

    /// Takes the next block, and says whether there may be more: an empty block
    /// is the end of the file.
    pub fn take_block(&mut self, block: &[u8]) -> (more: bool)
        requires
            old(self).wf(),
            old(self).stream().len() + block@.len() <= u64::MAX,
        ensures
            final(self).wf(),
            final(self).stream() == old(self).stream() + block@,
            more == (block@.len() > 0),
    {
        if block.len() == 0 {
            assert(self.stream() =~= old(self).stream() + block@);
            return false;
        }
        let ghost before = cut_pieces(split_sizes(), self.stream());
        let ghost had = file_chunk_views(self.chunks@);
        // The chunker keeps what is left over, so nothing is handed in twice.
        let (chunks, _leftover) = chunker_push(&mut self.chunker, Bytes::copy_from_slice(block));
        let mut chunks = chunks;
        let ghost new = file_chunk_views(chunks@);
        self.chunks.append(&mut chunks);
        proof {
            let after = cut_pieces(split_sizes(), self.stream());
            let start = before.len() as int;
            assert(file_chunk_views(self.chunks@) =~= had + new);
            assert(after.take(start) =~= before);
            assert forall|i: int| 0 <= i < start implies stream_chunks(before)[i]
                == #[trigger] stream_chunks(after)[i] by {
                assert(before[i] == after.take(start)[i]);
                assert(before.take(i) =~= after.take(i));
            }
            assert(file_chunk_views(self.chunks@) =~= stream_chunks(after));
            assert forall|i: int| 0 <= i < after.len() implies split_sizes().min <= (
            #[trigger] after[i]).len() <= split_sizes().max by {
                if i < start {
                    assert(after[i] == before[i]);
                } else {
                    assert(after[i] == new[i - start].data);
                }
            }
        }
        true
    }

    /// The chunks of the file.
    pub fn finish(self) -> (chunks: Vec<FileChunk>)
        requires
            self.wf(),
        ensures
            file_chunk_views(chunks@) == stream_chunks(all_pieces(self.stream())),
            concat(chunk_data(file_chunk_views(chunks@))) == self.stream(),
            sizes_kept(file_chunk_views(chunks@)),
    {
        let ghost stream = self.stream();
        let ghost cut = cut_pieces(split_sizes(), stream);
        let last = chunker_finish(self.chunker);
        let ghost end = last;
        let chunks = with_final_chunk(self.chunks, last);
        proof {
            let pieces = all_pieces(stream);
            let rest = stream.skip(concat(cut).len() as int);
            match end {
                Some(chunk) => {
                    assert(rest =~= bytes_of(chunk.data));
                    assert(pieces.drop_last() =~= cut);
                    assert forall|i: int| 0 <= i < cut.len() implies #[trigger] stream_chunks(
                        pieces,
                    )[i] == stream_chunks(cut)[i] by {
                        assert(pieces.take(i) =~= cut.take(i));
                    }
                    assert(pieces.take(cut.len() as int) =~= cut);
                    assert(file_chunk_views(chunks@) =~= stream_chunks(pieces));
                },
                None => {
                    assert(rest =~= Seq::<u8>::empty());
                },
            }
            assert(chunk_data(stream_chunks(pieces)) =~= pieces);
            assert(concat(pieces) =~= stream);
            assert forall|i: int| 0 <= i < pieces.len() implies {
                let len = (#[trigger] stream_chunks(pieces)[i]).data.len();
                &&& 0 < len <= split_sizes().max
                &&& i < pieces.len() - 1 ==> split_sizes().min <= len
            } by {
                if i < cut.len() {
                    assert(pieces[i] == cut[i]);
                }
            }
        }
        chunks
    }
}

/// The chunks of a file, with the last one behind the others if there is one.
pub fn with_final_chunk(chunks: Vec<FileChunk>, last: Option<FileChunk>) -> (all: Vec<FileChunk>)
    ensures
        file_chunk_views(all@) == (match last {
            Some(chunk) => file_chunk_views(chunks@).push(chunk@),
            None => file_chunk_views(chunks@),
        }),
{
    let mut all_chunks = chunks;
    if let Some(final_chunk) = last {
        all_chunks.push(final_chunk);
    }
    assert(file_chunk_views(all_chunks@) =~= match last {
        Some(chunk) => file_chunk_views(chunks@).push(chunk@),
        None => file_chunk_views(chunks@),
    });
    all_chunks
}

/// Splits a file by content, given what reading it gave, block by block.
pub fn split_file(blocks: &Vec<Vec<u8>>) -> (chunks: Vec<FileChunk>)
    requires
        concat(until_empty(block_views(blocks@))).len() <= u64::MAX,
    ensures
        ({
            let stream = concat(until_empty(block_views(blocks@)));
            &&& file_chunk_views(chunks@) == stream_chunks(all_pieces(stream))
            &&& concat(chunk_data(file_chunk_views(chunks@))) == stream
            &&& sizes_kept(file_chunk_views(chunks@))
        }),
{
    let ghost views = block_views(blocks@);
    let mut splitter = FileSplitter::new();
    let mut i: usize = 0;
    let mut more = true;
    assert(views.take(0) =~= Seq::<Seq<u8>>::empty());
    while more && i < blocks.len()
        invariant
            i <= blocks@.len(),
            views == block_views(blocks@),
            splitter.wf(),
            splitter.stream() == concat(views.take(i as int)),
            forall|k: int| 0 <= k < i ==> #[trigger] views[k].len() > 0,
            !more ==> i < blocks@.len() && views[i as int].len() == 0,
            concat(until_empty(views)).len() <= u64::MAX,
        decreases blocks@.len() - i, (if more { 1int } else { 0int }),
    {
        let block = blocks[i].as_slice();
        proof {
            assert(views[i as int] == block@);
            lemma_read_step(views, i as int);
        }
        more = splitter.take_block(block);
        if more {
            i = i + 1;
        } else {
            assert(splitter.stream() =~= concat(views.take(i as int)));
        }
    }
    proof {
        lemma_until_empty(views, i as int);
    }
    splitter.finish()
}

/// The bytes of each block.
pub open spec fn block_data(chunks: Seq<SyncChunk>) -> Seq<Seq<u8>> {
    chunks.map_values(|chunk: SyncChunk| bytes_of(chunk.bytes))
}

/// Splits a file into blocks of `ck_size` bytes. Each block gets an identifier
/// of its own.
pub fn split_file1(contents: &[u8], ck_size: usize) -> (chunks: Vec<SyncChunk>)
    ensures
        block_data(chunks@) == fixed_blocks(contents@, ck_size as nat),
        forall|i: int|
            0 <= i < chunks@.len() ==> {
                let chunk = #[trigger] chunks@[i];
                &&& is_version_4(chunk.file_id@)
                &&& chunk.offset == i * ck_size
            },
        ck_size > 0 ==> concat(block_data(chunks@)) == contents@,
{
    let mut chunks: Vec<SyncChunk> = Vec::new();
    if ck_size == 0 {
        assert(block_data(chunks@) =~= fixed_blocks(contents@, 0));
        return chunks;
    }
    let ghost size = ck_size as nat;
    let len: usize = contents.len();
    let mut offset: usize = 0;
    proof {
        lemma_fixed_count(size, 0, 0);
        assert(contents@.take(0) =~= Seq::<u8>::empty());
        assert(block_data(chunks@) =~= fixed_blocks(contents@.take(0), size));
    }
    while offset < len
        invariant
            size == ck_size > 0,
            len == contents@.len(),
            offset <= len,
            offset < len ==> offset == nth_start(size, chunks@.len() as int),
            block_data(chunks@) == fixed_blocks(contents@.take(offset as int), size),
            forall|i: int|
                0 <= i < chunks@.len() ==> {
                    let chunk = #[trigger] chunks@[i];
                    &&& is_version_4(chunk.file_id@)
                    &&& chunk.offset == i * ck_size
                },
        decreases len - offset,
    {
        let n: usize = if ck_size <= len - offset {
            ck_size
        } else {
            len - offset
        };
        let block = slice_subrange(contents, offset, offset + n);
        let ghost before = chunks@;
        chunks.push(
            SyncChunk { file_id: new_file_id(), bytes: Bytes::copy_from_slice(block), offset },
        );
        proof {
            let done = contents@.take(offset as int);
            lemma_next_start(size, before.len() as int);
            lemma_fixed_blocks_push(done, block@, size, before.len());
            assert(done + block@ =~= contents@.take(offset + n));
            assert(block_data(chunks@) =~= block_data(before).push(block@));
        }
        offset = offset + n;
    }
    proof {
        assert(contents@.take(len as int) =~= contents@);
        lemma_fixed_blocks_whole(contents@, size);
    }
    chunks
}

/// A file is split exactly where the chunker cuts it, at sizes of 16, 64 and
/// 128 KiB, and what is left behind the last cut is one more piece.
pub proof fn lemma_split_where_cut(stream: Seq<u8>)
    ensures
        ({
            let cut = cut_pieces(ChunkSizes { min: 16384, avg: 65536, max: 131072 }, stream);
            let len = concat(cut).len();
            &&& len < stream.len() ==> all_pieces(stream) == cut + seq![stream.skip(len as int)]
            &&& len == stream.len() ==> all_pieces(stream) == cut
        }),
{
    let cut = cut_pieces(split_sizes(), stream);
    let rest = stream.skip(concat(cut).len() as int);
    if concat(cut).len() < stream.len() {
        assert(rest.len() > 0);
        assert(cut.push(rest) =~= cut + seq![rest]);
    } else if concat(cut).len() == stream.len() {
        assert(rest.len() == 0);
    }
}

/// No chunk is empty or larger than 128 KiB, and none but the last is smaller
/// than 16 KiB.
pub proof fn lemma_sizes(chunks: Seq<FileChunkView>, i: int)
    requires
        sizes_kept(chunks),
        0 <= i < chunks.len(),
    ensures
        0 < chunks[i].data.len() <= 131072,
        i < chunks.len() - 1 ==> chunks[i].data.len() >= 16384,
{
}

/// Blocks hold their bytes, each in its place.
pub proof fn lemma_blocks_keep_places(chunks: Seq<SyncChunk>)
    ensures
        block_data(chunks).len() == chunks.len(),
        forall|i: int|
            0 <= i < chunks.len() ==> #[trigger] block_data(chunks)[i] == bytes_of(chunks[i].bytes),
{
}

} // verus!
