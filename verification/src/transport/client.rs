//! The client's end of an upload: announce the file, send its chunks one by
//! one, and end with the verdict of the server.

use crate::chunking::{
    block_views, chunk_events, chunk_reads, event_views, fixed_blocks, fixed_count,
    lemma_chunks_have_one_size, lemma_fixed_count, nth_start, read_contents, ChunkRun,
};
use crate::digest::blake3_digest;
use crate::errors::{SyncError, SyncErrorView};
use crate::ids::is_version_4;
use crate::protocol::{
    announcement, chunk_frame, decode_chunk_ack, decode_upload_done_ack, decode_upload_init_ack,
    encode_chunk_event, encode_upload_done, encode_upload_init, frames_fit, outcome, parse_chunk_ack,
    parse_upload_done_ack, parse_upload_init_ack, upload_done_frame, upload_init_frame, upload_name,
    ChunkACK, ChunkACKView, ChunkEvent, ChunkEventView, FileMeta, FileMetaView, UploadDoneACK,
    UploadDoneACKView, UploadDoneEvent, UploadDoneEventView, UploadInitACK, UploadInitACKView,
    UploadInitEvent, CHUNK_ACK_TAG, UPLOAD_DONE_ACK_TAG, UPLOAD_INIT_ACK_TAG,
};
use crate::wire::{buffer_of, bytes_of, get_u8};
use bytes::{Bytes, BytesMut};
use std::collections::HashSet;
use vstd::prelude::*;
use vstd::string::*;

verus! {

/// The chunks that the server has not confirmed yet, by their offsets.
#[derive(Debug)]
pub struct OngoingState {
    pub upload_offsets: HashSet<u64>,
}

impl View for OngoingState {
    type V = Set<u64>;

    open spec fn view(&self) -> Set<u64> {
        self.upload_offsets@
    }
}

impl OngoingState {
    pub fn new() -> (ongoing: OngoingState)
        ensures
            ongoing@ == Set::<u64>::empty(),
    {
        OngoingState { upload_offsets: HashSet::new() }
    }

    /// Notes a chunk that is to be confirmed.
    pub fn insert_upload_offsets(&mut self, offset: u64)
        ensures
            final(self)@ == old(self)@.insert(offset),
    {
        self.upload_offsets.insert(offset);
    }

    /// Notes that a chunk was confirmed.
    pub fn remove_acked_offset(&mut self, offset: u64)
        ensures
            final(self)@ == old(self)@.remove(offset),
    {
        self.upload_offsets.remove(&offset);
    }
}

/// What came back from the server.
#[derive(Debug)]
pub enum ServerReply {
    /// A frame.
    Frame(BytesMut),
    /// Reading failed, for the reason given.
    Failed(String),
    /// The connection was closed.
    Closed,
}

/// What a [`ServerReply`] says.
pub enum ServerReplyView {
    Frame(Seq<u8>),
    Failed(Seq<char>),
    Closed,
}

impl View for ServerReply {
    type V = ServerReplyView;

    open spec fn view(&self) -> ServerReplyView {
        match self {
            ServerReply::Frame(frame) => ServerReplyView::Frame(buffer_of(*frame)),
            ServerReply::Failed(e) => ServerReplyView::Failed(e@),
            ServerReply::Closed => ServerReplyView::Closed,
        }
    }
}

/// Whether a reply that is a frame holds at least a tag.
pub open spec fn has_tag(reply: ServerReplyView) -> bool {
    reply matches ServerReplyView::Frame(frame) ==> frame.len() > 0
}

/// What the server says to an announced file.
pub open spec fn read_init_reply(reply: ServerReplyView) -> Result<
    UploadInitACKView,
    SyncErrorView,
> {
    match reply {
        ServerReplyView::Frame(frame) => if frame[0] == UPLOAD_INIT_ACK_TAG {
            parse_upload_init_ack(frame.skip(1))
        } else {
            Err(SyncErrorView::BadChunkData("expect upload init ack"@))
        },
        ServerReplyView::Failed(e) => Err(SyncErrorView::StdIOError(e)),
        ServerReplyView::Closed => Err(SyncErrorView::ServerNoResp),
    }
}

/// What the server says to a chunk.
pub open spec fn read_chunk_reply(reply: ServerReplyView) -> Result<ChunkACKView, SyncErrorView> {
    match reply {
        ServerReplyView::Frame(frame) => if frame[0] == CHUNK_ACK_TAG {
            parse_chunk_ack(frame.skip(1))
        } else {
            Err(SyncErrorView::BadChunkData("expect chunk ack"@))
        },
        ServerReplyView::Failed(e) => Err(SyncErrorView::StdIOError(e)),
        ServerReplyView::Closed => Err(SyncErrorView::ServerNoResp),
    }
}

/// What the server says to the end of an upload.
pub open spec fn read_done_reply(reply: ServerReplyView) -> Result<
    UploadDoneACKView,
    SyncErrorView,
> {
    match reply {
        ServerReplyView::Frame(frame) => if frame[0] == UPLOAD_DONE_ACK_TAG {
            parse_upload_done_ack(frame.skip(1))
        } else {
            Err(SyncErrorView::BadChunkData("expect upload done ack"@))
        },
        ServerReplyView::Failed(e) => Err(SyncErrorView::StdIOError(e)),
        ServerReplyView::Closed => Err(SyncErrorView::ServerNoResp),
    }
}

/// The offsets of chunks.
pub open spec fn offsets_of(events: Seq<ChunkEventView>) -> Set<u64>
    decreases events.len(),
{
    if events.len() == 0 {
        Set::empty()
    } else {
        offsets_of(events.drop_last()).insert(events.last().offset)
    }
}

/// The offsets of chunks `from` to `to`, the last of them left out, of a file
/// that is cut into chunks of `size` bytes.
pub open spec fn offsets_between(size: nat, from: int, to: int) -> Set<u64>
    decreases to - from,
{
    if to <= from {
        Set::empty()
    } else {
        offsets_between(size, from, to - 1).insert(nth_start(size, to - 1) as u64)
    }
}

/// The frame that follows the answer to a chunk, if any chunk is left: none is
/// sent before the one before it was confirmed.
pub open spec fn after_chunk_reply(
    remaining: Seq<ChunkEventView>,
    reply: ServerReplyView,
) -> Result<Option<Seq<u8>>, SyncErrorView> {
    match read_chunk_reply(reply) {
        Err(e) => Err(e),
        Ok(_) => Ok(
            if remaining.len() > 0 {
                Some(chunk_frame(remaining[0]))
            } else {
                None
            },
        ),
    }
}

/// The bytes of the frame that a step gives, or why it failed.
pub open spec fn step_view(r: Result<Option<Bytes>, SyncError>) -> Result<
    Option<Seq<u8>>,
    SyncErrorView,
> {
    match r {
        Ok(Some(frame)) => Ok(Some(bytes_of(frame))),
        Ok(None) => Ok(None),
        Err(e) => Err(e@),
    }
}

/// Chunks on their way to the server, one at a time.
#[derive(Debug)]
pub struct ChunkSender {
    chunks: Vec<ChunkEvent>,
    next: usize,
    awaiting: bool,
}

impl ChunkSender {
    /// The chunks that are still to be sent.
    pub closed spec fn remaining(&self) -> Seq<ChunkEventView> {
        event_views(self.chunks@).skip(self.next as int)
    }

    /// Whether the answer to a chunk is due.
    pub closed spec fn awaiting(&self) -> bool {
        self.awaiting
    }

    /// Whether no more chunks were sent than there are, and each of them fits
    /// into a frame.
    pub closed spec fn wf(&self) -> bool {
        &&& self.next <= self.chunks@.len()
        &&& frames_fit(event_views(self.chunks@))
    }
}

/// The client's end: the file, and the chunks of it that are not confirmed.
#[derive(Debug)]
pub struct ClientFileProcessor {
    pub meta: FileMeta,
    pub ongoing: OngoingState,
}

impl ClientFileProcessor {
    /// A client for the file at `path`.
    pub fn new(path: &str) -> (client: ClientFileProcessor)
        ensures
            is_version_4(client.meta.file_id@),
            client.meta@ == (FileMetaView {
                file_id: client.meta.file_id@,
                file_path: path@,
                file_name: upload_name(path@),
                total_size: 0,
                hash: None,
            }),
            client.ongoing@ == Set::<u64>::empty(),
    {
        ClientFileProcessor { meta: FileMeta::new(path), ongoing: OngoingState::new() }
    }

    /// Starts reading the file, which is `file_len` bytes long.
    pub fn begin_chunking(&mut self, file_len: u64, chunk_size: usize) -> (run: ChunkRun)
        requires
            chunk_size > 0,
        ensures
            run.wf(),
            run.file_id() == old(self).meta.file_id@,
            run.chunk_size() == chunk_size,
            run.contents() == Seq::<u8>::empty(),
            final(self).meta@ == (FileMetaView {
                total_size: file_len as usize,
                ..old(self).meta@
            }),
            final(self).ongoing@ == old(self).ongoing@,
    {
        self.meta.total_size = file_len as usize;
        ChunkRun::new(self.meta.file_id, chunk_size)
    }

    /// Takes what was read next, notes the chunks that this completes, and says
    /// whether there may be more.
    pub fn take_block(&mut self, run: &mut ChunkRun, read: &[u8]) -> (more: bool)
        requires
            old(run).wf(),
            old(run).contents().len() + read@.len() <= usize::MAX,
        ensures
            final(run).wf(),
            final(run).file_id() == old(run).file_id(),
            final(run).chunk_size() == old(run).chunk_size(),
            final(run).contents() == old(run).contents() + read@,
            more == (read@.len() > 0),
            final(self).meta@ == old(self).meta@,
            final(self).ongoing@ == old(self).ongoing@.union(
                offsets_between(
                    old(run).chunk_size(),
                    old(run).cut() as int,
                    final(run).cut() as int,
                ),
            ),
    {
        let from = run.chunks_cut();
        let more = run.take_block(read);
        let to = run.chunks_cut();
        let size = run.size();
        self.note_chunks(size, from, to);
        more
    }

    /// Notes chunks `from` to `to`, the last of them left out.
    fn note_chunks(&mut self, size: usize, from: usize, to: usize)
        requires
            nth_start(size as nat, to as int) <= usize::MAX,
        ensures
            final(self).meta@ == old(self).meta@,
            final(self).ongoing@ == old(self).ongoing@.union(
                offsets_between(size as nat, from as int, to as int),
            ),
    {
        let mut i: usize = from;
        assert(self.ongoing@ =~= old(self).ongoing@.union(
            offsets_between(size as nat, from as int, from as int),
        ));
        assert(to < from ==> offsets_between(size as nat, from as int, to as int) =~= Set::<
            u64,
        >::empty());
        while i < to
            invariant
                from <= i,
                from <= to ==> i <= to,
                to < from ==> i == from,
                nth_start(size as nat, to as int) <= usize::MAX,
                self.meta@ == old(self).meta@,
                self.ongoing@ == old(self).ongoing@.union(
                    offsets_between(size as nat, from as int, i as int),
                ),
            decreases to - i,
        {
            assert(i * size <= to * size) by (nonlinear_arith)
                requires
                    i < to,
            ;
            self.ongoing.insert_upload_offsets((i * size) as u64);
            assert(self.ongoing@ =~= old(self).ongoing@.union(
                offsets_between(size as nat, from as int, i + 1),
            ));
            i = i + 1;
        }
    }

    /// Ends the file, notes the last chunk if it is not whole, and keeps the
    /// hash.
    pub fn finish_chunking(&mut self, run: ChunkRun) -> (chunks: Vec<ChunkEvent>)
        requires
            run.wf(),
        ensures
            event_views(chunks@) == chunk_events(
                run.file_id(),
                fixed_blocks(run.contents(), run.chunk_size()),
            ),
            final(self).meta@ == (FileMetaView {
                hash: Some(blake3_digest(run.contents())),
                ..old(self).meta@
            }),
            final(self).ongoing@ == old(self).ongoing@.union(
                offsets_between(run.chunk_size(), run.cut() as int, chunks@.len() as int),
            ),
    {
        let from = run.chunks_cut();
        let size = run.size();
        let (chunks, hash) = run.finish();
        let to = chunks.len();
        self.meta.hash = Some(hash);
        proof {
            assert(chunks@.len() == event_views(chunks@).len());
            lemma_count_after_cut(run.contents().len(), size as nat);
        }
        if from < to {
            self.ongoing.insert_upload_offsets((from * size) as u64);
        }
        assert(self.ongoing@ =~= old(self).ongoing@.union(
            offsets_between(size as nat, from as int, to as int),
        )) by {
            reveal_with_fuel(offsets_between, 2);
        }
        chunks
    }

    /// Cuts a file into chunks of `chunk_size` bytes and hashes it, given its
    /// length and what reading it gave.
    pub fn chunk_and_hash_file(
        &mut self,
        file_len: u64,
        chunk_size: usize,
        reads: &Vec<Vec<u8>>,
    ) -> (chunks: Vec<ChunkEvent>)
        requires
            read_contents(block_views(reads@), chunk_size as nat).len() <= usize::MAX,
        ensures
            ({
                let contents = read_contents(block_views(reads@), chunk_size as nat);
                &&& event_views(chunks@) == chunk_events(
                    old(self).meta.file_id@,
                    fixed_blocks(contents, chunk_size as nat),
                )
                &&& final(self).meta@ == (FileMetaView {
                    total_size: file_len as usize,
                    hash: Some(blake3_digest(contents)),
                    ..old(self).meta@
                })
            }),
            final(self).ongoing@ == old(self).ongoing@.union(offsets_of(event_views(chunks@))),
    {
        self.meta.total_size = file_len as usize;
        let (chunks, hash) = chunk_reads(self.meta.file_id, chunk_size, reads);
        self.meta.hash = Some(hash);
        let ghost views = event_views(chunks@);
        let mut i: usize = 0;
        assert(self.ongoing@ =~= old(self).ongoing@.union(offsets_of(views.take(0))));
        while i < chunks.len()
            invariant
                i <= chunks@.len(),
                views == event_views(chunks@),
                self.meta@ == (FileMetaView {
                    total_size: file_len as usize,
                    hash: Some(hash@),
                    ..old(self).meta@
                }),
                self.ongoing@ == old(self).ongoing@.union(offsets_of(views.take(i as int))),
            decreases chunks@.len() - i,
        {
            self.ongoing.insert_upload_offsets(chunks[i].offset);
            proof {
                assert(views.take(i + 1).drop_last() =~= views.take(i as int));
                assert(views.take(i + 1).last() == chunks@[i as int]@);
                assert(self.ongoing@ =~= old(self).ongoing@.union(offsets_of(views.take(i + 1))));
            }
            i = i + 1;
        }
        assert(views.take(i as int) =~= views);
        chunks
    }

    /// The frame that announces the file.
    pub fn send_upload_init(&self) -> (frame: Bytes)
        requires
            self.meta.hash is Some,
            upload_init_frame(announcement(self.meta@)).len() <= isize::MAX,
        ensures
            bytes_of(frame) == upload_init_frame(announcement(self.meta@)),
    {
        let upload_event = UploadInitEvent {
            file_id: self.meta.file_id,
            size: self.meta.total_size as u64,
            hash: self.meta.hash.unwrap(),
            name: self.meta.file_name.clone(),
        };
        assert(upload_event@ == announcement(self.meta@));
        encode_upload_init(upload_event)
    }

    /// Reads the answer to an announced file.
    pub fn recv_upload_init_ack(&self, reply: ServerReply) -> (r: Result<UploadInitACK, SyncError>)
        requires
            has_tag(reply@),
        ensures
            outcome(r) == read_init_reply(reply@),
    {
        match reply {
            ServerReply::Frame(mut bs) => {
                let tag = get_u8(&mut bs);
                if tag != UPLOAD_INIT_ACK_TAG {
                    return Err(SyncError::BadChunkData("expect upload init ack".to_string()));
                }
                decode_upload_init_ack(&mut bs)
            },
            ServerReply::Failed(e) => Err(SyncError::StdIOError(e)),
            ServerReply::Closed => Err(SyncError::ServerNoResp),
        }
    }

    /// The frame that ends the upload.
    pub fn send_upload_done(&self) -> (frame: Bytes)
        ensures
            bytes_of(frame) == upload_done_frame(
                UploadDoneEventView { file_id: self.meta.file_id@ },
            ),
    {
        encode_upload_done(UploadDoneEvent { file_id: self.meta.file_id }).freeze()
    }

    /// Reads the verdict on the upload.
    pub fn recv_upload_done_ack(&self, reply: ServerReply) -> (r: Result<UploadDoneACK, SyncError>)
        requires
            has_tag(reply@),
        ensures
            outcome(r) == read_done_reply(reply@),
    {
        match reply {
            ServerReply::Frame(mut bs) => {
                let tag = get_u8(&mut bs);
                if tag != UPLOAD_DONE_ACK_TAG {
                    return Err(SyncError::BadChunkData("expect upload done ack".to_string()));
                }
                decode_upload_done_ack(&mut bs)
            },
            ServerReply::Failed(e) => Err(SyncError::StdIOError(e)),
            ServerReply::Closed => Err(SyncError::ServerNoResp),
        }
    }

    /// Starts sending chunks, of which there must be some, with the frame of the
    /// first.
    pub fn send_chunks(&mut self, chunks: Vec<ChunkEvent>) -> (r: Result<
        (ChunkSender, Bytes),
        SyncError,
    >)
        requires
            frames_fit(event_views(chunks@)),
        ensures
            final(self).meta@ == old(self).meta@,
            match r {
                Ok((sender, frame)) => {
                    let views = event_views(chunks@);
                    &&& views.len() > 0
                    &&& sender.wf()
                    &&& sender.awaiting()
                    &&& sender.remaining() == views.skip(1)
                    &&& bytes_of(frame) == chunk_frame(views[0])
                    &&& final(self).ongoing@ == old(self).ongoing@.insert(views[0].offset)
                },
                Err(e) => {
                    &&& chunks@.len() == 0
                    &&& e@ == SyncErrorView::NoChunks
                    &&& final(self).ongoing@ == old(self).ongoing@
                },
            },
    {
        if chunks.len() == 0 {
            return Err(SyncError::NoChunks);
        }
        let mut sender = ChunkSender { chunks, next: 0, awaiting: false };
        assert(sender.remaining() =~= event_views(chunks@));
        let frame = self.send_next(&mut sender);
        Ok((sender, frame))
    }

    /// The frame with the next chunk.
    fn send_next(&mut self, sender: &mut ChunkSender) -> (frame: Bytes)
        requires
            old(sender).wf(),
            old(sender).remaining().len() > 0,
        ensures
            final(sender).wf(),
            final(sender).awaiting(),
            final(sender).remaining() == old(sender).remaining().skip(1),
            bytes_of(frame) == chunk_frame(old(sender).remaining()[0]),
            final(self).meta@ == old(self).meta@,
            final(self).ongoing@ == old(self).ongoing@.insert(old(sender).remaining()[0].offset),
    {
        let chunk = sender.chunks[sender.next].clone();
        assert(sender.remaining()[0] == chunk@);
        assert(event_views(sender.chunks@)[sender.next as int] == chunk@);
        assert(sender.next < sender.chunks.len());
        self.ongoing.insert_upload_offsets(chunk.offset);
        sender.next = sender.next + 1;
        sender.awaiting = true;
        assert(sender.remaining() =~= old(sender).remaining().skip(1));
        encode_chunk_event(chunk).freeze()
    }

    /// Takes the answer to the chunk that was sent last, and gives the frame of
    /// the next one, if any is left. An answer that does not confirm a chunk
    /// ends the run.
    pub fn on_chunk_reply(&mut self, sender: &mut ChunkSender, reply: ServerReply) -> (r: Result<
        Option<Bytes>,
        SyncError,
    >)
        requires
            old(sender).wf(),
            old(sender).awaiting(),
            has_tag(reply@),
        ensures
            final(sender).wf(),
            step_view(r) == after_chunk_reply(old(sender).remaining(), reply@),
            final(sender).awaiting() == (r matches Ok(Some(_))),
            final(sender).remaining() == (if r matches Ok(Some(_)) {
                old(sender).remaining().skip(1)
            } else {
                old(sender).remaining()
            }),
            final(self).meta@ == old(self).meta@,
            final(self).ongoing@ == (match read_chunk_reply(reply@) {
                Err(_) => old(self).ongoing@,
                Ok(ack) => if old(sender).remaining().len() > 0 {
                    old(self).ongoing@.remove(ack.offset).insert(
                        old(sender).remaining()[0].offset,
                    )
                } else {
                    old(self).ongoing@.remove(ack.offset)
                },
            }),
    {
        sender.awaiting = false;
        match Self::recv_chunk_ack(reply) {
            Ok(ack) => {
                self.ongoing.remove_acked_offset(ack.offset);
            },
            Err(e) => {
                return Err(e);
            },
        }
        if sender.next < sender.chunks.len() {
            Ok(Some(self.send_next(sender)))
        } else {
            Ok(None)
        }
    }

    /// Reads the answer to a chunk.
    fn recv_chunk_ack(reply: ServerReply) -> (r: Result<ChunkACK, SyncError>)
        requires
            has_tag(reply@),
        ensures
            outcome(r) == read_chunk_reply(reply@),
    {
        match reply {
            ServerReply::Frame(mut bs) => {
                let tag = get_u8(&mut bs);
                if tag != CHUNK_ACK_TAG {
                    return Err(SyncError::BadChunkData("expect chunk ack".to_string()));
                }
                decode_chunk_ack(&mut bs)
            },
            ServerReply::Failed(e) => Err(SyncError::StdIOError(e)),
            ServerReply::Closed => Err(SyncError::ServerNoResp),
        }
    }
}

proof fn lemma_count_after_cut(len: nat, size: nat)
    requires
        size > 0,
    ensures
        len / size <= fixed_count(len, size) <= len / size + 1,
        nth_start(size, (len / size) as int) <= len,
{
    let n = len / size;
    assert(n * size <= len < (n + 1) * size) by (nonlinear_arith)
        requires
            n == len / size,
            size > 0,
    ;
    lemma_fixed_count(size, len, n);
}

/// Noting chunks in two steps notes them all.
pub proof fn lemma_noted_step_by_step(size: nat, from: int, middle: int, to: int)
    requires
        from <= middle <= to,
    ensures
        offsets_between(size, from, middle).union(offsets_between(size, middle, to))
            == offsets_between(size, from, to),
    decreases to - middle,
{
    if middle < to {
        lemma_noted_step_by_step(size, from, middle, to - 1);
    }
    assert(offsets_between(size, from, middle).union(offsets_between(size, middle, to))
        =~= offsets_between(size, from, to));
}

/// The chunks that are noted while a file is read are the chunks of the file.
pub proof fn lemma_noted_chunks_are_all(file_id: Seq<u8>, contents: Seq<u8>, size: nat)
    requires
        size > 0,
        contents.len() <= u64::MAX,
    ensures
        offsets_between(size, 0, fixed_blocks(contents, size).len() as int) == offsets_of(
            chunk_events(file_id, fixed_blocks(contents, size)),
        ),
{
    let events = chunk_events(file_id, fixed_blocks(contents, size));
    lemma_chunks_have_one_size(file_id, contents, size);
    lemma_noted_prefix(events, size, events.len() as int);
    assert(events.take(events.len() as int) =~= events);
}

proof fn lemma_noted_prefix(events: Seq<ChunkEventView>, size: nat, n: int)
    requires
        0 <= n <= events.len(),
        forall|i: int| 0 <= i < events.len() ==> (#[trigger] events[i]).offset == i * size,
    ensures
        offsets_between(size, 0, n) == offsets_of(events.take(n)),
    decreases n,
{
    if n > 0 {
        lemma_noted_prefix(events, size, n - 1);
        assert(events.take(n).drop_last() =~= events.take(n - 1));
        assert(events.take(n).last() == events[n - 1]);
    }
}

/// How many chunks a client has sent once it has taken these answers, and
/// whether it waits for another.
pub open spec fn chunks_sent(
    chunks: Seq<ChunkEventView>,
    replies: Seq<ServerReplyView>,
) -> (nat, bool)
    decreases replies.len(),
{
    if replies.len() == 0 {
        (1, true)
    } else {
        let (sent, awaiting) = chunks_sent(chunks, replies.drop_last());
        if awaiting && after_chunk_reply(chunks.skip(sent as int), replies.last()) matches Ok(
            Some(_),
        ) {
            (sent + 1, true)
        } else {
            (sent, false)
        }
    }
}

/// Whether the first `n` answers each confirm a chunk.
pub open spec fn confirmed(replies: Seq<ServerReplyView>, n: int) -> bool {
    forall|k: int| 0 <= k < n ==> read_chunk_reply(#[trigger] replies[k]) is Ok
}

/// Chunk after chunk is sent, each as soon as the one before it was confirmed
/// and not earlier, and all of them as long as every one is confirmed.
pub proof fn lemma_one_chunk_per_answer(
    chunks: Seq<ChunkEventView>,
    replies: Seq<ServerReplyView>,
)
    requires
        chunks.len() > 0,
        confirmed(replies, replies.len() as int),
    ensures
        replies.len() < chunks.len() ==> chunks_sent(chunks, replies) == (replies.len() + 1, true),
        replies.len() == chunks.len() ==> chunks_sent(chunks, replies) == (chunks.len(), false),
    decreases replies.len(),
{
    if replies.len() > 0 {
        let front = replies.drop_last();
        assert forall|k: int| 0 <= k < front.len() implies read_chunk_reply(
            #[trigger] front[k],
        ) is Ok by {
            assert(front[k] == replies[k]);
        }
        lemma_one_chunk_per_answer(chunks, front);
        assert(read_chunk_reply(replies[replies.len() - 1]) is Ok);
    }
}

/// An answer that does not confirm a chunk is the end: no chunk is sent behind
/// it, whatever comes.
pub proof fn lemma_bad_answer_ends_the_run(
    chunks: Seq<ChunkEventView>,
    replies: Seq<ServerReplyView>,
    bad: int,
)
    requires
        chunks.len() > 0,
        0 <= bad < replies.len(),
        bad < chunks.len(),
        confirmed(replies, bad),
        read_chunk_reply(replies[bad]) is Err,
    ensures
        chunks_sent(chunks, replies) == ((bad + 1) as nat, false),
    decreases replies.len(),
{
    let front = replies.drop_last();
    assert forall|k: int| 0 <= k < bad implies read_chunk_reply(#[trigger] front[k]) is Ok by {
        assert(front[k] == replies[k]);
    }
    if bad == replies.len() - 1 {
        lemma_one_chunk_per_answer(chunks, front);
    } else {
        assert(front[bad] == replies[bad]);
        lemma_bad_answer_ends_the_run(chunks, front, bad);
    }
}

/// What is not confirmed once these chunks were sent one by one, and each was
/// confirmed before the next was sent.
pub open spec fn ongoing_after(ongoing: Set<u64>, sent: Seq<ChunkEventView>) -> Set<u64>
    decreases sent.len(),
{
    if sent.len() == 0 {
        ongoing
    } else {
        let offset = sent.last().offset;
        ongoing_after(ongoing, sent.drop_last()).insert(offset).remove(offset)
    }
}

/// Once every chunk of a file was sent and confirmed, exactly those offsets are
/// left unconfirmed that belong to none of its chunks.
pub proof fn lemma_confirmed_chunks_are_settled(ongoing: Set<u64>, sent: Seq<ChunkEventView>)
    ensures
        ongoing_after(ongoing, sent) == ongoing.difference(offsets_of(sent)),
    decreases sent.len(),
{
    if sent.len() > 0 {
        lemma_confirmed_chunks_are_settled(ongoing, sent.drop_last());
    }
    assert(ongoing_after(ongoing, sent) =~= ongoing.difference(offsets_of(sent)));
}

/// A new client that has cut up its file, sent every chunk and had each one
/// confirmed has nothing left to be confirmed.
pub proof fn lemma_nothing_left_to_confirm(chunks: Seq<ChunkEventView>)
    ensures
        ongoing_after(Set::<u64>::empty().union(offsets_of(chunks)), chunks) == Set::<u64>::empty(),
{
    let ongoing = Set::<u64>::empty().union(offsets_of(chunks));
    lemma_confirmed_chunks_are_settled(ongoing, chunks);
    assert(ongoing_after(ongoing, chunks) =~= Set::<u64>::empty());
}

/// A reply, and the unconfirmed chunks, say what stands in them.
pub proof fn lemma_replies_say_what_they_hold(
    frame: BytesMut,
    reason: String,
    ongoing: OngoingState,
)
    ensures
        ServerReply::Frame(frame)@ == ServerReplyView::Frame(buffer_of(frame)),
        ServerReply::Failed(reason)@ == ServerReplyView::Failed(reason@),
        ServerReply::Closed@ == ServerReplyView::Closed,
        ongoing@ == ongoing.upload_offsets@,
{
}

/// A step says the bytes of its frame, or its error.
pub proof fn lemma_steps_say_what_they_hold(frame: Bytes, e: SyncError)
    ensures
        step_view(Ok(Some(frame))) == Ok::<Option<Seq<u8>>, SyncErrorView>(Some(bytes_of(frame))),
        step_view(Ok(None)) == Ok::<Option<Seq<u8>>, SyncErrorView>(None),
        step_view(Err(e)) == Err::<Option<Seq<u8>>, SyncErrorView>(e@),
{
}

/// A reply is taken for the answer that is waited for exactly if it starts with
/// the tag of that answer, and what stands behind the tag is read as that.
pub proof fn lemma_replies_go_by_their_tag(tag: u8, body: Seq<u8>)
    ensures
        ({
            let reply = ServerReplyView::Frame(seq![tag] + body);
            &&& has_tag(reply)
            &&& tag == 0x02 ==> read_init_reply(reply) == parse_upload_init_ack(body)
            &&& tag != 0x02 ==> read_init_reply(reply) == Err::<UploadInitACKView, _>(
                SyncErrorView::BadChunkData("expect upload init ack"@),
            )
            &&& tag == 0x04 ==> read_chunk_reply(reply) == parse_chunk_ack(body)
            &&& tag != 0x04 ==> read_chunk_reply(reply) == Err::<ChunkACKView, _>(
                SyncErrorView::BadChunkData("expect chunk ack"@),
            )
            &&& tag == 0x06 ==> read_done_reply(reply) == parse_upload_done_ack(body)
            &&& tag != 0x06 ==> read_done_reply(reply) == Err::<UploadDoneACKView, _>(
                SyncErrorView::BadChunkData("expect upload done ack"@),
            )
        }),
{
    assert((seq![tag] + body).skip(1) =~= body);
}

/// Where no frame comes back, the client says why: reading failed, or the server
/// did not respond.
pub proof fn lemma_missing_replies(reason: Seq<char>)
    ensures
        has_tag(ServerReplyView::Failed(reason)),
        has_tag(ServerReplyView::Closed),
        read_init_reply(ServerReplyView::Failed(reason)) == Err::<UploadInitACKView, _>(
            SyncErrorView::StdIOError(reason),
        ),
        read_chunk_reply(ServerReplyView::Failed(reason)) == Err::<ChunkACKView, _>(
            SyncErrorView::StdIOError(reason),
        ),
        read_done_reply(ServerReplyView::Failed(reason)) == Err::<UploadDoneACKView, _>(
            SyncErrorView::StdIOError(reason),
        ),
        read_init_reply(ServerReplyView::Closed) == Err::<UploadInitACKView, _>(
            SyncErrorView::ServerNoResp,
        ),
        read_chunk_reply(ServerReplyView::Closed) == Err::<ChunkACKView, _>(
            SyncErrorView::ServerNoResp,
        ),
        read_done_reply(ServerReplyView::Closed) == Err::<UploadDoneACKView, _>(
            SyncErrorView::ServerNoResp,
        ),
{
}

/// The offsets of chunks are those of each of them, and no others.
pub proof fn lemma_offsets_are_those_of_the_chunks(events: Seq<ChunkEventView>, offset: u64)
    ensures
        offsets_of(events).contains(offset) <==> exists|i: int|
            0 <= i < events.len() && (#[trigger] events[i]).offset == offset,
    decreases events.len(),
{
    if events.len() > 0 {
        let front = events.drop_last();
        lemma_offsets_are_those_of_the_chunks(front, offset);
        if offsets_of(front).contains(offset) {
            let i = choose|i: int| 0 <= i < front.len() && (#[trigger] front[i]).offset == offset;
            assert(events[i].offset == offset);
        }
        if events.last().offset == offset {
            assert(events[events.len() - 1].offset == offset);
        }
        if exists|i: int| 0 <= i < events.len() && (#[trigger] events[i]).offset == offset {
            let i = choose|i: int| 0 <= i < events.len() && (#[trigger] events[i]).offset == offset;
            if i < front.len() {
                assert(front[i].offset == offset);
            }
        }
    }
}

/// The chunks that are noted are those from `from` to before `to`, at multiples
/// of their size, and no others.
pub proof fn lemma_noted_offsets(size: nat, from: int, to: int, offset: u64)
    ensures
        offsets_between(size, from, to).contains(offset) <==> exists|i: int|
            from <= i < to && #[trigger] (i * size) as u64 == offset,
    decreases to - from,
{
    if from < to {
        lemma_noted_offsets(size, from, to - 1, offset);
        assert(offsets_between(size, from, to).contains(offset) <==> offsets_between(
            size,
            from,
            to - 1,
        ).contains(offset) || ((to - 1) * size) as u64 == offset);
        if offsets_between(size, from, to - 1).contains(offset) {
            let i = choose|i: int| from <= i < to - 1 && #[trigger] (i * size) as u64 == offset;
            assert((i * size) as u64 == offset);
        }
        if exists|i: int| from <= i < to && #[trigger] (i * size) as u64 == offset {
            let i = choose|i: int| from <= i < to && #[trigger] (i * size) as u64 == offset;
            if i < to - 1 {
                assert((i * size) as u64 == offset);
            }
        }
    }
}

/// The frames that a client has sent once it has taken these answers, the one
/// with its first chunk in front.
pub open spec fn frames_sent(
    chunks: Seq<ChunkEventView>,
    replies: Seq<ServerReplyView>,
) -> Seq<Seq<u8>>
    decreases replies.len(),
{
    if replies.len() == 0 {
        seq![chunk_frame(chunks[0])]
    } else {
        let (sent, awaiting) = chunks_sent(chunks, replies.drop_last());
        let before = frames_sent(chunks, replies.drop_last());
        match after_chunk_reply(chunks.skip(sent as int), replies.last()) {
            Ok(Some(frame)) => if awaiting {
                before.push(frame)
            } else {
                before
            },
            _ => before,
        }
    }
}

proof fn lemma_frames_sent_so_far(chunks: Seq<ChunkEventView>, replies: Seq<ServerReplyView>)
    requires
        chunks.len() > 0,
    ensures
        1 <= chunks_sent(chunks, replies).0 <= chunks.len(),
        frames_sent(chunks, replies).len() == chunks_sent(chunks, replies).0,
        forall|k: int|
            0 <= k < chunks_sent(chunks, replies).0 ==> #[trigger] frames_sent(chunks, replies)[k]
                == chunk_frame(chunks[k]),
    decreases replies.len(),
{
    if replies.len() > 0 {
        let front = replies.drop_last();
        lemma_frames_sent_so_far(chunks, front);
        let (sent, awaiting) = chunks_sent(chunks, front);
        let before = frames_sent(chunks, front);
        let after = frames_sent(chunks, replies);
        assert forall|k: int| 0 <= k < chunks_sent(chunks, replies).0 implies #[trigger] after[k]
            == chunk_frame(chunks[k]) by {
            if k < sent {
                assert(after[k] == before[k]);
            } else {
                assert(chunks.skip(sent as int)[0] == chunks[k]);
            }
        }
    }
}

/// The chunks are sent in order, each once: after `n` answers that each confirm a
/// chunk, the frames that were sent are those of the first `n + 1` chunks, and
/// once every chunk is confirmed they are those of all of them, and no more.
pub proof fn lemma_chunks_are_sent_in_order(
    chunks: Seq<ChunkEventView>,
    replies: Seq<ServerReplyView>,
)
    requires
        chunks.len() > 0,
        replies.len() <= chunks.len(),
        confirmed(replies, replies.len() as int),
    ensures
        frames_sent(chunks, replies).len() == if replies.len() < chunks.len() {
            replies.len() + 1
        } else {
            chunks.len()
        },
        forall|k: int|
            0 <= k < frames_sent(chunks, replies).len() ==> #[trigger] frames_sent(
                chunks,
                replies,
            )[k] == chunk_frame(chunks[k]),
{
    lemma_one_chunk_per_answer(chunks, replies);
    lemma_frames_sent_so_far(chunks, replies);
}

/// Whatever answers come, the frames that were sent are those of the first
/// chunks, in order and each once.
pub proof fn lemma_only_first_chunks_are_sent(
    chunks: Seq<ChunkEventView>,
    replies: Seq<ServerReplyView>,
)
    requires
        chunks.len() > 0,
    ensures
        frames_sent(chunks, replies).len() <= chunks.len(),
        forall|k: int|
            0 <= k < frames_sent(chunks, replies).len() ==> #[trigger] frames_sent(
                chunks,
                replies,
            )[k] == chunk_frame(chunks[k]),
{
    lemma_frames_sent_so_far(chunks, replies);
}

/// The answer to a chunk decides what follows: behind a good one the chunk that
/// is next in line, or nothing where none is left, and behind any other the
/// error.
pub proof fn lemma_next_in_line_follows(
    chunk: ChunkEventView,
    others: Seq<ChunkEventView>,
    reply: ServerReplyView,
)
    ensures
        read_chunk_reply(reply) is Ok ==> after_chunk_reply(seq![chunk] + others, reply) == Ok::<
            _,
            SyncErrorView,
        >(Some(chunk_frame(chunk))),
        read_chunk_reply(reply) is Ok ==> after_chunk_reply(Seq::empty(), reply) == Ok::<
            Option<Seq<u8>>,
            SyncErrorView,
        >(None),
        read_chunk_reply(reply) matches Err(e) ==> after_chunk_reply(others, reply) == Err::<
            Option<Seq<u8>>,
            _,
        >(e),
{
    assert((seq![chunk] + others)[0] == chunk);
}

} // verus!
