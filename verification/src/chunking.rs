//! How a file is cut into the chunks that the client sends, and hashed on the
//! way.

use crate::digest::{
    blake3_digest, hasher_finalize, hasher_input, hasher_is_plain, hasher_update, FileHash,
};
use crate::ids::FileId;
use crate::protocol::{ChunkEvent, ChunkEventView};
use crate::wire::bytes_of;
use bytes::Bytes;
use vstd::prelude::*;
use vstd::slice::*;

verus! {

/// The blocks, one behind the other.
pub open spec fn concat(blocks: Seq<Seq<u8>>) -> Seq<u8>
    decreases blocks.len(),
{
    if blocks.len() == 0 {
        Seq::empty()
    } else {
        concat(blocks.drop_last()) + blocks.last()
    }
}

/// Where block `i` starts.
pub open spec fn block_start(blocks: Seq<Seq<u8>>, i: int) -> nat {
    concat(blocks.take(i)).len()
}

/// The chunks of a file that was cut into these blocks.
pub open spec fn chunk_events(file_id: Seq<u8>, blocks: Seq<Seq<u8>>) -> Seq<ChunkEventView> {
    Seq::new(
        blocks.len(),
        |i: int|
            ChunkEventView { file_id, offset: block_start(blocks, i) as u64, data: blocks[i] },
    )
}

/// What chunks say.
pub open spec fn event_views(events: Seq<ChunkEvent>) -> Seq<ChunkEventView> {
    events.map_values(|ev: ChunkEvent| ev@)
}

/// The contents of blocks.
pub open spec fn block_views(blocks: Seq<Vec<u8>>) -> Seq<Seq<u8>> {
    blocks.map_values(|block: Vec<u8>| block@)
}

/// The blocks before the first empty one: reading an empty block is how the
/// end of a file shows.
pub open spec fn until_empty(blocks: Seq<Seq<u8>>) -> Seq<Seq<u8>>
    decreases blocks.len(),
{
    if blocks.len() == 0 || blocks[0].len() == 0 {
        Seq::empty()
    } else {
        seq![blocks[0]] + until_empty(blocks.skip(1))
    }
}

/// What is read of a file through a buffer of `size` bytes: all of it, up to
/// where a read gives nothing. A buffer of no bytes takes nothing in.
pub open spec fn read_contents(reads: Seq<Seq<u8>>, size: nat) -> Seq<u8> {
    if size == 0 {
        Seq::empty()
    } else {
        concat(until_empty(reads))
    }
}

/// Where block `i` of `size` bytes starts.
pub open spec fn nth_start(size: nat, i: int) -> int {
    i * size
}

/// Where block `i` of `size` bytes ends in a file of `len` bytes: the last block
/// may be shorter than the others.
pub open spec fn nth_end(size: nat, len: nat, i: int) -> int {
    if (i + 1) * size <= len {
        (i + 1) * size
    } else {
        len as int
    }
}

/// How many blocks of `size` bytes it takes to hold `len` bytes. Blocks of no
/// bytes hold nothing.
pub open spec fn fixed_count(len: nat, size: nat) -> nat {
    if size == 0 {
        0
    } else {
        ((len + size - 1) / size as int) as nat
    }
}

/// The blocks of `size` bytes that a file is cut into.
pub open spec fn fixed_blocks(contents: Seq<u8>, size: nat) -> Seq<Seq<u8>> {
    Seq::new(
        fixed_count(contents.len(), size),
        |i: int| contents.subrange(nth_start(size, i), nth_end(size, contents.len(), i)),
    )
}

/// A file that is being read and cut into chunks of one size.
pub struct ChunkRun {
    file_id: FileId,
    chunk_size: usize,
    offset: usize,
    pending: Vec<u8>,
    events: Vec<ChunkEvent>,
    hasher: blake3::Hasher,
}

impl ChunkRun {
    /// The identifier of the file.
    pub closed spec fn file_id(&self) -> Seq<u8> {
        self.file_id@
    }

    /// How many bytes a chunk holds.
    pub closed spec fn chunk_size(&self) -> nat {
        self.chunk_size as nat
    }

    /// The bytes of the file that were read so far.
    pub closed spec fn contents(&self) -> Seq<u8> {
        concat(self.blocks()) + self.pending@
    }

    /// How many whole chunks were read so far.
    pub open spec fn cut(&self) -> nat {
        self.contents().len() / self.chunk_size()
    }

    /// The chunks that were cut so far.
    closed spec fn blocks(&self) -> Seq<Seq<u8>> {
        self.events@.map_values(|ev: ChunkEvent| bytes_of(ev.data))
    }

    /// Whether the chunks are laid out one behind the other.
    closed spec fn laid_out(&self) -> bool {
        &&& self.chunk_size > 0
        &&& self.offset == concat(self.blocks()).len()
        &&& event_views(self.events@) == chunk_events(self.file_id@, self.blocks())
        &&& self.blocks() == fixed_blocks(concat(self.blocks()), self.chunk_size as nat)
    }

    /// Whether every chunk that was cut so far is whole.
    closed spec fn aligned(&self) -> bool {
        self.offset == nth_start(self.chunk_size as nat, self.events@.len() as int)
    }

    /// Whether chunks and hash are those of the bytes read so far.
    pub closed spec fn wf(&self) -> bool {
        &&& self.laid_out()
        &&& self.aligned()
        &&& self.pending@.len() < self.chunk_size
        &&& self.contents().len() <= usize::MAX
        &&& hasher_is_plain(self.hasher)
        &&& hasher_input(self.hasher) == self.contents()
    }

    /// The start of a file.
    pub fn new(file_id: FileId, chunk_size: usize) -> (run: ChunkRun)
        requires
            chunk_size > 0,
        ensures
            run.wf(),
            run.file_id() == file_id@,
            run.chunk_size() == chunk_size,
            run.contents() == Seq::<u8>::empty(),
    {
        let run = ChunkRun {
            file_id,
            chunk_size,
            offset: 0,
            pending: Vec::new(),
            events: Vec::new(),
            hasher: blake3::Hasher::new(),
        };
        proof {
            lemma_fixed_count(chunk_size as nat, 0, 0);
            assert(run.blocks() =~= fixed_blocks(Seq::<u8>::empty(), chunk_size as nat));
            assert(event_views(run.events@) =~= chunk_events(file_id@, run.blocks()));
            assert(run.contents() =~= Seq::<u8>::empty());
        }
        run
    }

    /// How many bytes were read so far.
    pub fn bytes_read(&self) -> (n: usize)
        requires
            self.wf(),
        ensures
            n == self.contents().len(),
    {
        self.offset + self.pending.len()
    }

    /// How many bytes a chunk holds.
    pub fn size(&self) -> (size: usize)
        requires
            self.wf(),
        ensures
            size == self.chunk_size(),
            size > 0,
    {
        self.chunk_size
    }

    /// How many whole chunks were read so far.
    pub fn chunks_cut(&self) -> (n: usize)
        requires
            self.wf(),
        ensures
            n == self.cut(),
            nth_start(self.chunk_size(), n as int) <= self.contents().len() <= usize::MAX,
    {
        proof {
            let size = self.chunk_size as int;
            let n = self.events@.len() as int;
            let rest = self.pending@.len() as int;
            assert((n * size + rest) / size == n) by (nonlinear_arith)
                requires
                    size > 0,
                    0 <= rest < size,
                    n >= 0,
            ;
        }
        self.events.len()
    }

    /// Makes a chunk of what is pending.
    fn cut_pending(&mut self)
        requires
            old(self).laid_out(),
            old(self).aligned(),
            0 < old(self).pending@.len() <= old(self).chunk_size,
            old(self).contents().len() <= usize::MAX,
        ensures
            final(self).laid_out(),
            old(self).pending@.len() == old(self).chunk_size ==> final(self).aligned(),
            final(self).file_id == old(self).file_id,
            final(self).chunk_size == old(self).chunk_size,
            final(self).hasher == old(self).hasher,
            final(self).pending@.len() == 0,
            final(self).contents() == old(self).contents(),
    {
        let ghost before = self.blocks();
        let ghost block = self.pending@;
        let n: usize = self.pending.len();
        let event = ChunkEvent {
            file_id: self.file_id,
            data: Bytes::copy_from_slice(self.pending.as_slice()),
            offset: self.offset as u64,
        };
        let ghost ev = event@;
        self.events.push(event);
        self.offset = self.offset + n;
        self.pending.clear();
        proof {
            let after = before.push(block);
            let size = self.chunk_size as nat;
            assert(self.blocks() =~= after);
            assert(after.drop_last() =~= before);
            lemma_chunk_events_push(self.file_id@, before, block);
            assert(event_views(self.events@) =~= event_views(old(self).events@).push(ev));
            lemma_fixed_blocks_push(concat(before), block, size, before.len());
            lemma_next_start(size, before.len() as int);
            assert(self.contents() =~= old(self).contents());
        }
    }

    /// Takes what was read next, and says whether there may be more: reading
    /// nothing is how the end of a file shows.
    pub fn take_block(&mut self, read: &[u8]) -> (more: bool)
        requires
            old(self).wf(),
            old(self).contents().len() + read@.len() <= usize::MAX,
        ensures
            final(self).wf(),
            final(self).file_id() == old(self).file_id(),
            final(self).chunk_size() == old(self).chunk_size(),
            final(self).contents() == old(self).contents() + read@,
            more == (read@.len() > 0),
    {
        let len: usize = read.len();
        if len == 0 {
            assert(old(self).contents() + read@ =~= old(self).contents());
            return false;
        }
        hasher_update(&mut self.hasher, read);
        let mut taken: usize = 0;
        assert(read@.take(0) =~= Seq::<u8>::empty());
        assert(self.contents() =~= old(self).contents() + read@.take(0));
        while taken < len
            invariant
                taken <= len,
                len == read@.len(),
                self.laid_out(),
                self.aligned(),
                self.pending@.len() < self.chunk_size,
                self.file_id == old(self).file_id,
                self.chunk_size == old(self).chunk_size,
                hasher_is_plain(self.hasher),
                hasher_input(self.hasher) == old(self).contents() + read@,
                self.contents() == old(self).contents() + read@.take(taken as int),
                old(self).contents().len() + len <= usize::MAX,
            decreases len - taken,
        {
            let ghost before = *self;
            let room: usize = self.chunk_size - self.pending.len();
            let n: usize = if room <= len - taken {
                room
            } else {
                len - taken
            };
            let part = slice_subrange(read, taken, taken + n);
            self.pending.extend_from_slice(part);
            proof {
                assert(self.pending@ =~= before.pending@ + part@);
                assert(read@.take(taken as int) + part@ =~= read@.take(taken + n));
                assert(self.contents() =~= before.contents() + part@);
            }
            taken = taken + n;
            if self.pending.len() == self.chunk_size {
                self.cut_pending();
            }
        }
        assert(read@.take(len as int) =~= read@);
        true
    }

    /// Takes what was read, up to where nothing was.
    pub fn take_blocks(&mut self, reads: &Vec<Vec<u8>>)
        requires
            old(self).wf(),
            old(self).contents().len() + concat(until_empty(block_views(reads@))).len()
                <= usize::MAX,
        ensures
            final(self).wf(),
            final(self).file_id() == old(self).file_id(),
            final(self).chunk_size() == old(self).chunk_size(),
            final(self).contents() == old(self).contents() + concat(
                until_empty(block_views(reads@)),
            ),
    {
        let ghost views = block_views(reads@);
        let mut i: usize = 0;
        let mut more = true;
        proof {
            assert(views.take(0) =~= Seq::<Seq<u8>>::empty());
            assert(self.contents() =~= old(self).contents() + concat(views.take(0)));
        }
        while more && i < reads.len()
            invariant
                i <= reads@.len(),
                views == block_views(reads@),
                self.wf(),
                self.file_id() == old(self).file_id(),
                self.chunk_size() == old(self).chunk_size(),
                self.contents() == old(self).contents() + concat(views.take(i as int)),
                forall|k: int| 0 <= k < i ==> #[trigger] views[k].len() > 0,
                !more ==> i < reads@.len() && views[i as int].len() == 0,
                old(self).contents().len() + concat(until_empty(views)).len() <= usize::MAX,
            decreases reads@.len() - i, (if more { 1int } else { 0int }),
        {
            let ghost before = self.contents();
            let read = reads[i].as_slice();
            proof {
                assert(views[i as int] == read@);
                lemma_read_step(views, i as int);
            }
            more = self.take_block(read);
            if more {
                assert(self.contents() =~= old(self).contents() + concat(views.take(i + 1)));
                i = i + 1;
            } else {
                assert(self.contents() =~= before);
            }
        }
        proof {
            lemma_until_empty(views, i as int);
        }
    }

    /// The chunks of the file, and the hash of all of it.
    pub fn finish(self) -> (r: (Vec<ChunkEvent>, FileHash))
        requires
            self.wf(),
        ensures
            event_views(r.0@) == chunk_events(
                self.file_id(),
                fixed_blocks(self.contents(), self.chunk_size()),
            ),
            r.1@ == blake3_digest(self.contents()),
    {
        let hash = hasher_finalize(&self.hasher);
        let mut run = self;
        if run.pending.len() > 0 {
            run.cut_pending();
        }
        assert(run.contents() =~= concat(run.blocks()));
        (run.events, hash)
    }
}

/// Cuts a file into chunks and hashes it, given what reading it gave.
pub fn chunk_reads(file_id: FileId, chunk_size: usize, reads: &Vec<Vec<u8>>) -> (r: (
    Vec<ChunkEvent>,
    FileHash,
))
    requires
        read_contents(block_views(reads@), chunk_size as nat).len() <= usize::MAX,
    ensures
        ({
            let contents = read_contents(block_views(reads@), chunk_size as nat);
            &&& event_views(r.0@) == chunk_events(
                file_id@,
                fixed_blocks(contents, chunk_size as nat),
            )
            &&& r.1@ == blake3_digest(contents)
        }),
        chunk_size > 0 ==> {
            let contents = concat(until_empty(block_views(reads@)));
            &&& concat(r.0@.map_values(|ev: ChunkEvent| bytes_of(ev.data))) == contents
            &&& r.1@ == blake3_digest(contents)
        },
{
    if chunk_size == 0 {
        let chunks: Vec<ChunkEvent> = Vec::new();
        assert(event_views(chunks@) =~= chunk_events(
            file_id@,
            fixed_blocks(Seq::<u8>::empty(), 0),
        ));
        return (chunks, hasher_finalize(&blake3::Hasher::new()));
    }
    let mut run = ChunkRun::new(file_id, chunk_size);
    run.take_blocks(reads);
    let ghost contents = concat(until_empty(block_views(reads@)));
    assert(run.contents() =~= contents);
    let (chunks, hash) = run.finish();
    proof {
        let blocks = fixed_blocks(contents, chunk_size as nat);
        lemma_fixed_blocks_whole(contents, chunk_size as nat);
        assert(chunks@.len() == event_views(chunks@).len());
        assert forall|i: int| 0 <= i < chunks@.len() implies bytes_of((#[trigger] chunks@[i]).data)
            == blocks[i] by {
            assert(event_views(chunks@)[i].data == blocks[i]);
        }
        assert(chunks@.map_values(|ev: ChunkEvent| bytes_of(ev.data)) =~= blocks);
    }
    (chunks, hash)
}

/// How many blocks there are, where the last of them is known.
pub proof fn lemma_fixed_count(size: nat, len: nat, n: nat)
    requires
        size > 0,
    ensures
        len == n * size ==> fixed_count(len, size) == n,
        n * size < len <= (n + 1) * size ==> fixed_count(len, size) == n + 1,
{
    assert((n + 1) * size == n * size + size) by (nonlinear_arith);
    if len == n * size {
        assert((n * size + size - 1) / size as int == n) by (nonlinear_arith)
            requires
                size > 0,
        ;
    } else if n * size < len <= (n + 1) * size {
        let rest = len - n * size;
        assert((n * size + rest + size - 1) / size as int == n + 1) by (nonlinear_arith)
            requires
                0 < rest <= size,
                size > 0,
        ;
    }
}

/// A block starts where the one before it ends.
pub proof fn lemma_next_start(size: nat, i: int)
    ensures
        nth_start(size, i + 1) == nth_start(size, i) + size,
{
    assert((i + 1) * size == i * size + size) by (nonlinear_arith);
}

/// A block behind whole blocks is the next block of the file.
pub proof fn lemma_fixed_blocks_push(done: Seq<u8>, block: Seq<u8>, size: nat, n: nat)
    requires
        done.len() == nth_start(size, n as int),
        0 < block.len() <= size,
    ensures
        fixed_blocks(done, size).len() == n,
        fixed_blocks(done + block, size) == fixed_blocks(done, size).push(block),
{
    let all = done + block;
    lemma_next_start(size, n as int);
    lemma_fixed_count(size, done.len(), n);
    lemma_fixed_count(size, all.len(), n);
    assert forall|i: int| 0 <= i < n implies #[trigger] fixed_blocks(all, size)[i]
        == fixed_blocks(done, size)[i] by {
        lemma_next_start(size, i);
        assert((i + 1) * size <= n * size) by (nonlinear_arith)
            requires
                0 <= i < n,
        ;
        assert(0 <= i * size) by (nonlinear_arith)
            requires
                0 <= i,
        ;
        let start = nth_start(size, i);
        assert(all.subrange(start, start + size) =~= done.subrange(start, start + size));
    }
    assert(all.subrange(done.len() as int, all.len() as int) =~= block);
    assert(fixed_blocks(all, size) =~= fixed_blocks(done, size).push(block));
}

proof fn lemma_fixed_prefix(contents: Seq<u8>, size: nat, i: int)
    requires
        size > 0,
        0 <= i <= fixed_blocks(contents, size).len(),
    ensures
        concat(fixed_blocks(contents, size).take(i)) == contents.take(
            if i == fixed_blocks(contents, size).len() {
                contents.len() as int
            } else {
                nth_start(size, i)
            },
        ),
        i < fixed_blocks(contents, size).len() ==> nth_start(size, i) < contents.len(),
        i == fixed_blocks(contents, size).len() ==> contents.len() <= nth_start(size, i),
    decreases i,
{
    let blocks = fixed_blocks(contents, size);
    let len = contents.len() as int;
    let n = blocks.len() as int;
    let z = size as int;
    assert(n * z >= len && (n > 0 ==> (n - 1) * z < len)) by (nonlinear_arith)
        requires
            n == (len + z - 1) / z,
            z > 0,
            len >= 0,
    ;
    if i == 0 {
        assert(blocks.take(0) =~= Seq::<Seq<u8>>::empty());
        assert(nth_start(size, 0) == 0) by (nonlinear_arith);
        assert(contents.take(0) =~= Seq::<u8>::empty());
    } else {
        lemma_fixed_prefix(contents, size, i - 1);
        lemma_next_start(size, i - 1);
        lemma_block_start_step(blocks, i - 1);
        let start = nth_start(size, i - 1);
        assert(0 <= start) by (nonlinear_arith)
            requires
                start == (i - 1) * size,
                i >= 1,
        ;
        if i < n {
            assert(i * z <= (n - 1) * z) by (nonlinear_arith)
                requires
                    i <= n - 1,
                    z > 0,
            ;
            assert(contents.take(start) + contents.subrange(start, start + size)
                =~= contents.take(start + size));
        } else {
            let end = nth_end(size, contents.len(), i - 1);
            assert(end == len);
            assert(contents.take(start) + contents.subrange(start, len) =~= contents.take(len));
        }
    }
}

/// Cutting a file loses nothing.
pub proof fn lemma_fixed_blocks_whole(contents: Seq<u8>, size: nat)
    requires
        size > 0,
    ensures
        concat(fixed_blocks(contents, size)) == contents,
{
    let blocks = fixed_blocks(contents, size);
    lemma_fixed_prefix(contents, size, blocks.len() as int);
    assert(blocks.take(blocks.len() as int) =~= blocks);
    assert(contents.take(contents.len() as int) =~= contents);
}

/// The chunks of a file are of one size: chunk `i` starts at `i` times that
/// size, and all of them but the last hold exactly that many bytes. The last
/// one holds what is left.
pub proof fn lemma_chunks_have_one_size(file_id: Seq<u8>, contents: Seq<u8>, size: nat)
    requires
        size > 0,
        contents.len() <= u64::MAX,
    ensures
        ({
            let events = chunk_events(file_id, fixed_blocks(contents, size));
            &&& events.len() == (contents.len() + size - 1) / size as int
            &&& forall|i: int|
                0 <= i < events.len() ==> {
                    let ev = #[trigger] events[i];
                    &&& ev.offset == i * size
                    &&& 0 < ev.data.len() <= size
                    &&& i < events.len() - 1 ==> ev.data.len() == size
                }
            &&& concat(fixed_blocks(contents, size)) == contents
        }),
{
    let blocks = fixed_blocks(contents, size);
    let events = chunk_events(file_id, blocks);
    lemma_fixed_blocks_whole(contents, size);
    assert((contents.len() + size - 1) / size as int >= 0) by (nonlinear_arith)
        requires
            size > 0,
    ;
    assert forall|i: int| 0 <= i < events.len() implies {
        let ev = #[trigger] events[i];
        &&& ev.offset == i * size
        &&& 0 < ev.data.len() <= size
        &&& i < events.len() - 1 ==> ev.data.len() == size
    } by {
        lemma_fixed_prefix(contents, size, i);
        lemma_fixed_prefix(contents, size, i + 1);
        lemma_next_start(size, i);
        assert(0 <= nth_start(size, i)) by (nonlinear_arith)
            requires
                i >= 0,
        ;
    }
}

proof fn lemma_chunk_events_push(file_id: Seq<u8>, blocks: Seq<Seq<u8>>, block: Seq<u8>)
    ensures
        chunk_events(file_id, blocks.push(block)) == chunk_events(file_id, blocks).push(
            ChunkEventView { file_id, offset: concat(blocks).len() as u64, data: block },
        ),
{
    let after = blocks.push(block);
    assert forall|i: int| 0 <= i < after.len() implies #[trigger] chunk_events(file_id, after)[i]
        == chunk_events(file_id, blocks).push(
        ChunkEventView { file_id, offset: concat(blocks).len() as u64, data: block },
    )[i] by {
        assert(after.take(i) =~= blocks.take(i));
        if i == blocks.len() {
            assert(blocks.take(i) =~= blocks);
        }
    }
    assert(chunk_events(file_id, after) =~= chunk_events(file_id, blocks).push(
        ChunkEventView { file_id, offset: concat(blocks).len() as u64, data: block },
    ));
}

/// What comes before the first empty block, where that is block `i`.
pub proof fn lemma_until_empty(blocks: Seq<Seq<u8>>, i: int)
    requires
        0 <= i <= blocks.len(),
        forall|k: int| 0 <= k < i ==> #[trigger] blocks[k].len() > 0,
    ensures
        until_empty(blocks) == blocks.take(i) + until_empty(blocks.skip(i)),
        i == blocks.len() || blocks[i].len() == 0 ==> until_empty(blocks) == blocks.take(i),
    decreases i,
{
    if i == 0 {
        assert(blocks.skip(0) =~= blocks);
        assert(until_empty(blocks) =~= blocks.take(0) + until_empty(blocks.skip(0)));
    } else {
        let rest = blocks.skip(1);
        assert forall|k: int| 0 <= k < i - 1 implies #[trigger] rest[k].len() > 0 by {
            assert(rest[k] == blocks[k + 1]);
        }
        lemma_until_empty(rest, i - 1);
        assert(rest.skip(i - 1) =~= blocks.skip(i));
        assert(seq![blocks[0]] + rest.take(i - 1) =~= blocks.take(i));
        assert(until_empty(blocks) =~= blocks.take(i) + until_empty(blocks.skip(i)));
    }
    if i == blocks.len() || blocks[i].len() == 0 {
        assert(until_empty(blocks.skip(i)) =~= Seq::<Seq<u8>>::empty());
        assert(until_empty(blocks) =~= blocks.take(i));
    }
}

/// One step of taking what was read, up to where nothing was.
pub proof fn lemma_read_step(reads: Seq<Seq<u8>>, i: int)
    requires
        0 <= i < reads.len(),
        forall|k: int| 0 <= k < i ==> #[trigger] reads[k].len() > 0,
    ensures
        concat(reads.take(i)).len() + reads[i].len() <= concat(until_empty(reads)).len(),
        reads[i].len() > 0 ==> concat(reads.take(i + 1)) == concat(reads.take(i)) + reads[i],
{
    let kept = until_empty(reads);
    lemma_until_empty(reads, i);
    lemma_block_start_step(reads, i);
    if reads[i].len() > 0 {
        lemma_until_empty(reads, i + 1);
        assert(kept.take(i + 1) =~= reads.take(i + 1));
        lemma_prefix_of_concat(kept, i + 1);
    }
}

/// The greater of two lengths.
pub open spec fn longer(a: nat, b: nat) -> nat {
    if a < b {
        b
    } else {
        a
    }
}

/// A file with `data` written into it, from `offset` on. A file that ends before
/// the data does grows; what lies between its old end and the data is zero.
/// Writing nothing changes nothing.
pub open spec fn write_at(file: Seq<u8>, offset: nat, data: Seq<u8>) -> Seq<u8> {
    if data.len() == 0 {
        file
    } else {
        Seq::new(
            longer(file.len(), offset + data.len()),
            |p: int|
                if offset <= p < offset + data.len() {
                    data[p - offset]
                } else if p < file.len() {
                    file[p]
                } else {
                    0u8
                },
        )
    }
}

/// Whether two ranges of bytes have none in common.
pub open spec fn disjoint(offset1: nat, len1: nat, offset2: nat, len2: nat) -> bool {
    offset1 + len1 <= offset2 || offset2 + len2 <= offset1
}

/// Writes to disjoint ranges may be made in either order.
pub proof fn lemma_disjoint_writes_commute(
    file: Seq<u8>,
    offset1: nat,
    data1: Seq<u8>,
    offset2: nat,
    data2: Seq<u8>,
)
    requires
        disjoint(offset1, data1.len(), offset2, data2.len()),
    ensures
        write_at(write_at(file, offset1, data1), offset2, data2) == write_at(
            write_at(file, offset2, data2),
            offset1,
            data1,
        ),
{
    assert(write_at(write_at(file, offset1, data1), offset2, data2) =~= write_at(
        write_at(file, offset2, data2),
        offset1,
        data1,
    ));
}

/// A write that is made again changes nothing.
pub proof fn lemma_repeated_write_changes_nothing(file: Seq<u8>, offset: nat, data: Seq<u8>)
    ensures
        write_at(write_at(file, offset, data), offset, data) == write_at(file, offset, data),
{
    assert(write_at(write_at(file, offset, data), offset, data) =~= write_at(file, offset, data));
}

/// A file with chunks written into it, one after the other.
pub open spec fn write_all(file: Seq<u8>, chunks: Seq<ChunkEventView>) -> Seq<u8>
    decreases chunks.len(),
{
    if chunks.len() == 0 {
        file
    } else {
        let ev = chunks.last();
        write_at(write_all(file, chunks.drop_last()), ev.offset as nat, ev.data)
    }
}

/// Whether a chunk holds the byte at `p`.
pub open spec fn covers(ev: ChunkEventView, p: int) -> bool {
    ev.offset <= p < ev.offset + ev.data.len()
}

/// Whether each chunk holds the bytes of the file at its offset.
pub open spec fn are_pieces(contents: Seq<u8>, chunks: Seq<ChunkEventView>) -> bool {
    forall|k: int|
        0 <= k < chunks.len() ==> {
            let ev = #[trigger] chunks[k];
            &&& ev.offset + ev.data.len() <= contents.len()
            &&& ev.data == contents.subrange(ev.offset as int, ev.offset + ev.data.len())
        }
}

/// Whether some chunk holds the byte at `p`.
pub open spec fn covered(chunks: Seq<ChunkEventView>, p: int) -> bool {
    exists|k: int| 0 <= k < chunks.len() && #[trigger] covers(chunks[k], p)
}

/// Whether every byte of a file of `len` bytes is in some chunk.
pub open spec fn cover(len: nat, chunks: Seq<ChunkEventView>) -> bool {
    forall|p: int| 0 <= p < len ==> #[trigger] covered(chunks, p)
}

/// A block starts where the one before it ends.
pub proof fn lemma_block_start_step(blocks: Seq<Seq<u8>>, i: int)
    requires
        0 <= i < blocks.len(),
    ensures
        concat(blocks.take(i + 1)) == concat(blocks.take(i)) + blocks[i],
        block_start(blocks, i + 1) == block_start(blocks, i) + blocks[i].len(),
{
    assert(blocks.take(i + 1).drop_last() =~= blocks.take(i));
}

/// The first blocks of a file are the first bytes of it.
pub proof fn lemma_prefix_of_concat(blocks: Seq<Seq<u8>>, i: int)
    requires
        0 <= i <= blocks.len(),
    ensures
        block_start(blocks, i) <= concat(blocks).len(),
        concat(blocks).take(block_start(blocks, i) as int) == concat(blocks.take(i)),
    decreases blocks.len() - i,
{
    if i == blocks.len() {
        assert(blocks.take(i) =~= blocks);
        assert(concat(blocks).take(concat(blocks).len() as int) =~= concat(blocks));
    } else {
        lemma_prefix_of_concat(blocks, i + 1);
        lemma_block_start_step(blocks, i);
        let n = block_start(blocks, i) as int;
        let longer = concat(blocks.take(i + 1));
        assert(concat(blocks).take(n) =~= longer.take(n));
        assert(longer.take(n) =~= concat(blocks.take(i)));
    }
}

/// The chunks of a file follow one another without a gap, from its first byte
/// to its last, and each holds the bytes of the file at its offset.
pub proof fn lemma_chunks_partition_file(file_id: Seq<u8>, blocks: Seq<Seq<u8>>)
    requires
        concat(blocks).len() <= u64::MAX,
    ensures
        ({
            let events = chunk_events(file_id, blocks);
            let contents = concat(blocks);
            &&& events.len() == blocks.len()
            &&& forall|i: int|
                0 <= i < events.len() ==> {
                    let ev = #[trigger] events[i];
                    &&& ev.file_id == file_id
                    &&& ev.offset as nat == block_start(blocks, i)
                    &&& ev.offset + ev.data.len() == block_start(blocks, i + 1)
                    &&& ev.offset + ev.data.len() <= contents.len()
                    &&& ev.data == contents.subrange(ev.offset as int, ev.offset + ev.data.len())
                }
            &&& block_start(blocks, 0) == 0
            &&& block_start(blocks, blocks.len() as int) == contents.len()
        }),
{
    let events = chunk_events(file_id, blocks);
    let contents = concat(blocks);
    assert forall|i: int| 0 <= i < events.len() implies {
        let ev = #[trigger] events[i];
        &&& ev.file_id == file_id
        &&& ev.offset as nat == block_start(blocks, i)
        &&& ev.offset + ev.data.len() == block_start(blocks, i + 1)
        &&& ev.offset + ev.data.len() <= contents.len()
        &&& ev.data == contents.subrange(ev.offset as int, ev.offset + ev.data.len())
    } by {
        lemma_prefix_of_concat(blocks, i);
        lemma_prefix_of_concat(blocks, i + 1);
        lemma_block_start_step(blocks, i);
        let start = block_start(blocks, i) as int;
        let end = block_start(blocks, i + 1) as int;
        assert(contents.subrange(start, end) =~= contents.take(end).skip(start));
        assert((concat(blocks.take(i)) + blocks[i]).skip(start) =~= blocks[i]);
    }
    assert(blocks.take(0) =~= Seq::<Seq<u8>>::empty());
    assert(blocks.take(blocks.len() as int) =~= blocks);
}

proof fn lemma_every_byte_is_covered(file_id: Seq<u8>, blocks: Seq<Seq<u8>>, p: int) -> (i: int)
    requires
        concat(blocks).len() <= u64::MAX,
        0 <= p < concat(blocks).len(),
    ensures
        0 <= i < blocks.len(),
        covers(chunk_events(file_id, blocks)[i], p),
    decreases blocks.len(),
{
    lemma_chunks_partition_file(file_id, blocks);
    let front = blocks.drop_last();
    let last = blocks.len() - 1;
    assert(blocks.take(last) =~= front);
    if p < concat(front).len() {
        let i = lemma_every_byte_is_covered(file_id, front, p);
        lemma_chunks_partition_file(file_id, front);
        assert(front.take(i) =~= blocks.take(i));
        assert(chunk_events(file_id, front)[i] == chunk_events(file_id, blocks)[i]);
        i
    } else {
        assert(covers(chunk_events(file_id, blocks)[last], p));
        last
    }
}

proof fn lemma_writes_fill_covered_bytes(
    file: Seq<u8>,
    contents: Seq<u8>,
    chunks: Seq<ChunkEventView>,
)
    requires
        file.len() == contents.len(),
        are_pieces(contents, chunks),
    ensures
        ({
            let written = write_all(file, chunks);
            &&& written.len() == file.len()
            &&& forall|p: int, k: int|
                0 <= p < file.len() && 0 <= k < chunks.len() && #[trigger] covers(chunks[k], p)
                    ==> written[p] == contents[p]
        }),
    decreases chunks.len(),
{
    if chunks.len() > 0 {
        let front = chunks.drop_last();
        let ev = chunks[chunks.len() - 1];
        assert forall|k: int| 0 <= k < front.len() implies {
            let ev = #[trigger] front[k];
            &&& ev.offset + ev.data.len() <= contents.len()
            &&& ev.data == contents.subrange(ev.offset as int, ev.offset + ev.data.len())
        } by {
            assert(front[k] == chunks[k]);
        }
        lemma_writes_fill_covered_bytes(file, contents, front);
        let before = write_all(file, front);
        let written = write_all(file, chunks);
        assert(written == write_at(before, ev.offset as nat, ev.data));
        assert forall|p: int, k: int|
            0 <= p < file.len() && 0 <= k < chunks.len() && #[trigger] covers(
                chunks[k],
                p,
            ) implies written[p] == contents[p] by {
            if covers(ev, p) {
                assert(written[p] == ev.data[p - ev.offset]);
                assert(contents.subrange(ev.offset as int, ev.offset + ev.data.len())[p - ev.offset]
                    == contents[p]);
            } else {
                assert(written[p] == before[p]);
                assert(k < front.len());
                assert(covers(front[k], p));
            }
        }
    }
}

/// Pieces of a file may be written in any order, and more than once: at their
/// offsets in a file of the right size, they leave the contents that they were
/// cut from, as long as every byte is in one of them.
pub proof fn lemma_pieces_make_the_whole(
    file: Seq<u8>,
    contents: Seq<u8>,
    chunks: Seq<ChunkEventView>,
)
    requires
        file.len() == contents.len(),
        are_pieces(contents, chunks),
        cover(contents.len(), chunks),
    ensures
        write_all(file, chunks) == contents,
{
    let written = write_all(file, chunks);
    lemma_writes_fill_covered_bytes(file, contents, chunks);
    assert forall|p: int| 0 <= p < file.len() implies written[p] == contents[p] by {
        assert(covered(chunks, p));
        let k = choose|k: int| 0 <= k < chunks.len() && #[trigger] covers(chunks[k], p);
        assert(covers(chunks[k], p));
    }
    assert(written =~= contents);
}

/// The chunks of a file are pieces of it that leave no byte out, in whatever
/// order and however often they come, as long as each of them comes.
pub proof fn lemma_chunks_in_any_order(
    file_id: Seq<u8>,
    blocks: Seq<Seq<u8>>,
    chunks: Seq<ChunkEventView>,
)
    requires
        concat(blocks).len() <= u64::MAX,
        forall|k: int|
            0 <= k < chunks.len() ==> chunk_events(file_id, blocks).contains(#[trigger] chunks[k]),
        forall|i: int|
            0 <= i < blocks.len() ==> chunks.contains(#[trigger] chunk_events(file_id, blocks)[i]),
    ensures
        are_pieces(concat(blocks), chunks),
        cover(concat(blocks).len(), chunks),
{
    let events = chunk_events(file_id, blocks);
    let contents = concat(blocks);
    lemma_chunks_partition_file(file_id, blocks);
    assert forall|k: int| 0 <= k < chunks.len() implies {
        let ev = #[trigger] chunks[k];
        &&& ev.offset + ev.data.len() <= contents.len()
        &&& ev.data == contents.subrange(ev.offset as int, ev.offset + ev.data.len())
    } by {
        assert(events.contains(chunks[k]));
        let i = choose|i: int| 0 <= i < events.len() && events[i] == chunks[k];
        assert(events[i] == chunks[k]);
    }
    assert forall|p: int| 0 <= p < contents.len() implies #[trigger] covered(chunks, p) by {
        let i = lemma_every_byte_is_covered(file_id, blocks, p);
        assert(chunks.contains(events[i]));
        let k = choose|k: int| 0 <= k < chunks.len() && chunks[k] == events[i];
        assert(covers(chunks[k], p));
    }
}

/// No two chunks of a file that was cut into non-empty blocks start at the same
/// place.
pub proof fn lemma_chunk_offsets_increase(
    file_id: Seq<u8>,
    blocks: Seq<Seq<u8>>,
    i: int,
    j: int,
)
    requires
        concat(blocks).len() <= u64::MAX,
        forall|k: int| 0 <= k < blocks.len() ==> #[trigger] blocks[k].len() > 0,
        0 <= i < j < blocks.len(),
    ensures
        chunk_events(file_id, blocks)[i].offset < chunk_events(file_id, blocks)[j].offset,
    decreases j - i,
{
    lemma_chunks_partition_file(file_id, blocks);
    let events = chunk_events(file_id, blocks);
    assert(events[i].data == blocks[i]);
    assert(events[i].offset + events[i].data.len() == block_start(blocks, i + 1));
    assert(events[i + 1].offset == block_start(blocks, i + 1));
    if i + 1 < j {
        lemma_chunk_offsets_increase(file_id, blocks, i + 1, j);
    }
}

/// Blocks are put together one behind the other, and nothing comes between them.
pub proof fn lemma_blocks_are_put_together(a: Seq<Seq<u8>>, b: Seq<Seq<u8>>, block: Seq<u8>)
    ensures
        concat(Seq::<Seq<u8>>::empty()) == Seq::<u8>::empty(),
        concat(seq![block]) == block,
        concat(a + b) == concat(a) + concat(b),
    decreases b.len(),
{
    reveal_with_fuel(concat, 2);
    assert(seq![block].drop_last() =~= Seq::<Seq<u8>>::empty());
    assert(concat(seq![block]) =~= block);
    if b.len() == 0 {
        assert(a + b =~= a);
        assert(concat(a) + concat(b) =~= concat(a));
    } else {
        lemma_blocks_are_put_together(a, b.drop_last(), block);
        assert((a + b).drop_last() =~= a + b.drop_last());
        assert(concat(a + b) =~= concat(a) + concat(b));
    }
}

/// Chunks and blocks say what they hold, each in its place.
pub proof fn lemma_views_keep_places(events: Seq<ChunkEvent>, blocks: Seq<Vec<u8>>)
    ensures
        event_views(events).len() == events.len(),
        forall|i: int| 0 <= i < events.len() ==> #[trigger] event_views(events)[i] == events[i]@,
        block_views(blocks).len() == blocks.len(),
        forall|i: int| 0 <= i < blocks.len() ==> #[trigger] block_views(blocks)[i] == blocks[i]@,
{
}

/// All that was read of a file up to where a read gave nothing, or up to the
/// last read, is taken in, whatever the size of the chunks. A buffer of no bytes
/// takes nothing in.
pub proof fn lemma_every_read_is_taken_in(reads: Seq<Seq<u8>>, n: int, size: nat)
    requires
        0 <= n <= reads.len(),
        forall|k: int| 0 <= k < n ==> #[trigger] reads[k].len() > 0,
        n == reads.len() || reads[n].len() == 0,
    ensures
        size > 0 ==> read_contents(reads, size) == concat(reads.take(n)),
        size == 0 ==> read_contents(reads, size) == Seq::<u8>::empty(),
{
    lemma_until_empty(reads, n);
}

/// The chunks of a file, put together in order, are all that was read of it up
/// to where a read gave nothing.
pub proof fn lemma_chunks_hold_all_that_was_read(
    file_id: Seq<u8>,
    reads: Seq<Seq<u8>>,
    n: int,
    size: nat,
)
    requires
        size > 0,
        0 <= n <= reads.len(),
        forall|k: int| 0 <= k < n ==> #[trigger] reads[k].len() > 0,
        n == reads.len() || reads[n].len() == 0,
    ensures
        ({
            let events = chunk_events(file_id, fixed_blocks(read_contents(reads, size), size));
            concat(Seq::new(events.len(), |i: int| events[i].data)) == concat(reads.take(n))
        }),
{
    let contents = read_contents(reads, size);
    let blocks = fixed_blocks(contents, size);
    let events = chunk_events(file_id, blocks);
    lemma_every_read_is_taken_in(reads, n, size);
    lemma_fixed_blocks_whole(contents, size);
    assert(Seq::new(events.len(), |i: int| events[i].data) =~= blocks);
}

/// A file that is cut into chunks of no bytes has no chunks.
pub proof fn lemma_no_chunks_of_no_bytes(file_id: Seq<u8>, contents: Seq<u8>)
    ensures
        fixed_blocks(contents, 0).len() == 0,
        chunk_events(file_id, fixed_blocks(contents, 0)).len() == 0,
{
}

/// A run counts the chunks that are whole: the bytes read so far fill that many,
/// and not one more.
pub proof fn lemma_whole_chunks_are_counted(run: ChunkRun)
    requires
        run.chunk_size() > 0,
    ensures
        run.cut() * run.chunk_size() <= run.contents().len() < (run.cut() + 1) * run.chunk_size(),
{
    let n = run.cut();
    let len = run.contents().len();
    let size = run.chunk_size();
    assert(n * size <= len < (n + 1) * size) by (nonlinear_arith)
        requires
            n == len / size,
            size > 0,
    ;
}

} // verus!
