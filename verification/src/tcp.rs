//! The transfer without answers: the client announces the file, sends its
//! chunks through a bounded pool of tasks, and says that it is done; the server
//! never replies.

use crate::chunking::{
    block_views, chunk_events, chunk_reads, event_views, fixed_blocks, read_contents, ChunkRun,
};
use crate::config::MAX_SEND_TASK;
use crate::digest::blake3_digest;
use crate::errors::{SyncError, SyncErrorView};
use crate::ids::{id_key, is_version_4, FileId};
use crate::protocol::{
    announcement, chunk_frame, decode_upload_done, encode_chunk_event, encode_upload_done,
    encode_upload_init, frames_fit, outcome, parse_chunk_event, parse_upload_done, parse_upload_init,
    upload_done_frame, upload_init_frame, upload_name, ChunkEvent, ChunkEventView, FileMeta,
    FileMetaView, FileUploadState, UploadDoneEvent, UploadDoneEventView, UploadInitEvent, CHUNK_TAG,
    UPLOAD_DONE_TAG, UPLOAD_INIT_TAG,
};
use crate::registry::{
    files_after_init, folder_ready, on_chunk, on_upload_init, unread_body, CreateFile,
    CreateFileView, FileRegistry, Files, FolderOutcome, RegisteredFile, RegisteredFileView,
    WriteChunk, WriteChunkView,
};
use crate::transport::server::{done_view, states_after_create, states_after_write, States};
use crate::wire::{buffer_of, bytes_of, get_u8};
use bytes::{Bytes, BytesMut};
use vstd::prelude::*;

verus! {

/// What a client sends.
#[derive(Debug)]
pub enum StreamEvent {
    UploadInit(UploadInitEvent),
    Chunk(ChunkEvent),
    Unknown,
}

/// What the client is to do next with its chunks.
#[derive(Debug)]
pub enum SendStep {
    /// Start a task that hands this frame to the writer.
    Start(Bytes),
    /// Wait until one of the tasks has ended.
    Wait,
    /// All chunks were handed over.
    Finished,
}

/// What a [`SendStep`] says.
pub enum SendStepView {
    Start(Seq<u8>),
    Wait,
    Finished,
}

impl View for SendStep {
    type V = SendStepView;

    open spec fn view(&self) -> SendStepView {
        match self {
            SendStep::Start(frame) => SendStepView::Start(bytes_of(*frame)),
            SendStep::Wait => SendStepView::Wait,
            SendStep::Finished => SendStepView::Finished,
        }
    }
}

/// The next step of a client that has these chunks left and this many tasks
/// running: no more than `MAX_SEND_TASK` tasks run at the same time.
pub open spec fn next_send_step(remaining: Seq<ChunkEventView>, running: nat) -> SendStepView {
    if remaining.len() > 0 && running < MAX_SEND_TASK {
        SendStepView::Start(chunk_frame(remaining[0]))
    } else if running > 0 {
        SendStepView::Wait
    } else {
        SendStepView::Finished
    }
}

/// The chunks that are to be handed to the writer, and the tasks that do so.
#[derive(Debug)]
pub struct SendPool {
    chunks: Vec<ChunkEvent>,
    next: usize,
    running: usize,
}

impl SendPool {
    /// The chunks for which no task was started yet.
    pub closed spec fn remaining(&self) -> Seq<ChunkEventView> {
        event_views(self.chunks@).skip(self.next as int)
    }

    /// How many tasks are running.
    pub closed spec fn running(&self) -> nat {
        self.running as nat
    }

    /// Whether no more tasks are running than may, and every chunk fits into a
    /// frame.
    pub closed spec fn wf(&self) -> bool {
        &&& self.next <= self.chunks@.len()
        &&& self.running <= MAX_SEND_TASK
        &&& frames_fit(event_views(self.chunks@))
    }

    /// The next step.
    pub fn next_step(&mut self) -> (step: SendStep)
        requires
            old(self).wf(),
        ensures
            final(self).wf(),
            step@ == next_send_step(old(self).remaining(), old(self).running()),
            final(self).remaining() == (if step is Start {
                old(self).remaining().skip(1)
            } else {
                old(self).remaining()
            }),
            final(self).running() == (if step is Start {
                old(self).running() + 1
            } else {
                old(self).running()
            }),
    {
        if self.next < self.chunks.len() && self.running < MAX_SEND_TASK {
            let chunk = self.chunks[self.next].clone();
            assert(self.remaining()[0] == chunk@);
            assert(event_views(self.chunks@)[self.next as int] == chunk@);
            self.next = self.next + 1;
            self.running = self.running + 1;
            assert(self.remaining() =~= old(self).remaining().skip(1));
            SendStep::Start(encode_chunk_event(chunk).freeze())
        } else if self.running > 0 {
            SendStep::Wait
        } else {
            SendStep::Finished
        }
    }

    /// Notes that a task has ended.
    pub fn task_ended(&mut self)
        requires
            old(self).wf(),
            old(self).running() > 0,
        ensures
            final(self).wf(),
            final(self).remaining() == old(self).remaining(),
            final(self).running() == old(self).running() - 1,
    {
        self.running = self.running - 1;
    }
}

/// How far the writer has come.
#[derive(Debug)]
pub enum WriterStage {
    /// Nothing was written.
    Opening,
    /// The file was announced.
    Streaming,
    /// The end of the upload was written.
    Closed,
    /// Writing failed, for the reason given.
    Failed(String),
}

/// What a [`WriterStage`] says.
pub enum WriterStageView {
    Opening,
    Streaming,
    Closed,
    Failed(Seq<char>),
}

impl View for WriterStage {
    type V = WriterStageView;

    open spec fn view(&self) -> WriterStageView {
        match self {
            WriterStage::Opening => WriterStageView::Opening,
            WriterStage::Streaming => WriterStageView::Streaming,
            WriterStage::Closed => WriterStageView::Closed,
            WriterStage::Failed(e) => WriterStageView::Failed(e@),
        }
    }
}

/// What the writer is told.
#[derive(Debug)]
pub enum WriterEvent {
    /// The connection is there.
    Opened,
    /// A task has handed over this frame.
    Received(Bytes),
    /// Every task has ended.
    Drained,
    /// The last frame could not be written, for the reason given.
    WriteFailed(String),
}

/// What a [`WriterEvent`] says.
pub enum WriterEventView {
    Opened,
    Received(Seq<u8>),
    Drained,
    WriteFailed(Seq<char>),
}

impl View for WriterEvent {
    type V = WriterEventView;

    open spec fn view(&self) -> WriterEventView {
        match self {
            WriterEvent::Opened => WriterEventView::Opened,
            WriterEvent::Received(frame) => WriterEventView::Received(bytes_of(*frame)),
            WriterEvent::Drained => WriterEventView::Drained,
            WriterEvent::WriteFailed(e) => WriterEventView::WriteFailed(e@),
        }
    }
}

/// Where an event takes the writer. The first failure stays.
pub open spec fn stage_after(stage: WriterStageView, event: WriterEventView) -> WriterStageView {
    match (stage, event) {
        (WriterStageView::Failed(_), _) => stage,
        (_, WriterEventView::WriteFailed(e)) => WriterStageView::Failed(e),
        (WriterStageView::Opening, WriterEventView::Opened) => WriterStageView::Streaming,
        (WriterStageView::Streaming, WriterEventView::Drained) => WriterStageView::Closed,
        _ => stage,
    }
}

/// The frame that an event has the writer send, if any: `first` once the
/// connection is there, then what the tasks hand over, and `last` behind all
/// of that.
pub open spec fn frame_to_write(
    stage: WriterStageView,
    event: WriterEventView,
    first: Seq<u8>,
    last: Seq<u8>,
) -> Option<Seq<u8>> {
    match (stage, event) {
        (WriterStageView::Opening, WriterEventView::Opened) => Some(first),
        (WriterStageView::Streaming, WriterEventView::Received(frame)) => Some(frame),
        (WriterStageView::Streaming, WriterEventView::Drained) => Some(last),
        _ => None,
    }
}

/// The bytes of a frame, where there is one.
pub open spec fn frame_view(frame: Option<Bytes>) -> Option<Seq<u8>> {
    match frame {
        Some(frame) => Some(bytes_of(frame)),
        None => None,
    }
}

/// The task that owns the connection: it announces the file, writes what the
/// other tasks hand over, and ends the upload.
#[derive(Debug)]
pub struct UploadWriter {
    stage: WriterStage,
    first: Bytes,
    last: Bytes,
}

impl UploadWriter {
    /// How far the writer has come.
    pub closed spec fn stage(&self) -> WriterStageView {
        self.stage@
    }

    /// The frame that announces the file.
    pub closed spec fn first(&self) -> Seq<u8> {
        bytes_of(self.first)
    }

    /// The frame that ends the upload.
    pub closed spec fn last(&self) -> Seq<u8> {
        bytes_of(self.last)
    }

    /// Takes an event, and gives the frame that is to be sent.
    pub fn on_event(&mut self, event: WriterEvent) -> (frame: Option<Bytes>)
        ensures
            final(self).stage() == stage_after(old(self).stage(), event@),
            final(self).first() == old(self).first(),
            final(self).last() == old(self).last(),
            frame_view(frame) == frame_to_write(
                old(self).stage(),
                event@,
                old(self).first(),
                old(self).last(),
            ),
    {
        match event {
            WriterEvent::Opened => match self.stage {
                WriterStage::Opening => {
                    self.stage = WriterStage::Streaming;
                    Some(self.first.clone())
                },
                _ => None,
            },
            WriterEvent::Received(frame) => match self.stage {
                WriterStage::Streaming => Some(frame),
                _ => None,
            },
            WriterEvent::Drained => match self.stage {
                WriterStage::Streaming => {
                    self.stage = WriterStage::Closed;
                    Some(self.last.clone())
                },
                _ => None,
            },
            WriterEvent::WriteFailed(e) => {
                match self.stage {
                    WriterStage::Failed(_) => {},
                    _ => {
                        self.stage = WriterStage::Failed(e);
                    },
                }
                None
            },
        }
    }

    /// What came of the upload, once the writer has ended.
    pub fn finish(self) -> (r: Result<(), SyncError>)
        requires
            self.stage() is Closed || self.stage() is Failed,
        ensures
            r is Ok == self.stage() is Closed,
            r matches Err(e) ==> e@ == SyncErrorView::IOError(self.stage()->Failed_0),
    {
        match self.stage {
            WriterStage::Failed(e) => Err(SyncError::IOError(e)),
            _ => Ok(()),
        }
    }
}

/// The client's end: the file that is sent.
#[derive(Debug)]
pub struct ClientFileProcessor {
    pub meta: FileMeta,
}

impl ClientFileProcessor {
    /// A client for the file at `path`.
    pub fn new(path: &str) -> (client: ClientFileProcessor)
        ensures
            is_version_4(client.meta.file_id@),
            client.meta@ == (FileMetaView {
                file_id: client.meta.file_id@,
                file_path: path@,
                file_name: upload_name(path@),
                total_size: 0,
                hash: None,
            }),
    {
        ClientFileProcessor { meta: FileMeta::new(path) }
    }

    /// Starts reading the file, which is `file_len` bytes long.
    pub fn begin_chunking(&mut self, file_len: u64, chunk_size: usize) -> (run: ChunkRun)
        requires
            chunk_size > 0,
        ensures
            run.wf(),
            run.file_id() == old(self).meta.file_id@,
            run.chunk_size() == chunk_size,
            run.contents() == Seq::<u8>::empty(),
            final(self).meta@ == (FileMetaView {
                total_size: file_len as usize,
                ..old(self).meta@
            }),
    {
        self.meta.total_size = file_len as usize;
        ChunkRun::new(self.meta.file_id, chunk_size)
    }

    /// Ends the file, and keeps its hash.
    pub fn finish_chunking(&mut self, run: ChunkRun) -> (chunks: Vec<ChunkEvent>)
        requires
            run.wf(),
        ensures
            event_views(chunks@) == chunk_events(
                run.file_id(),
                fixed_blocks(run.contents(), run.chunk_size()),
            ),
            final(self).meta@ == (FileMetaView {
                hash: Some(blake3_digest(run.contents())),
                ..old(self).meta@
            }),
    {
        let (chunks, hash) = run.finish();
        self.meta.hash = Some(hash);
        chunks
    }

    /// Cuts a file into chunks of `chunk_size` bytes and hashes it, given its
    /// length and what reading it gave.
    pub fn chunk_and_hash_file(
        &mut self,
        file_len: u64,
        chunk_size: usize,
        reads: &Vec<Vec<u8>>,
    ) -> (chunks: Vec<ChunkEvent>)
        requires
            read_contents(block_views(reads@), chunk_size as nat).len() <= usize::MAX,
        ensures
            ({
                let contents = read_contents(block_views(reads@), chunk_size as nat);
                &&& event_views(chunks@) == chunk_events(
                    old(self).meta.file_id@,
                    fixed_blocks(contents, chunk_size as nat),
                )
                &&& final(self).meta@ == (FileMetaView {
                    total_size: file_len as usize,
                    hash: Some(blake3_digest(contents)),
                    ..old(self).meta@
                })
            }),
    {
        self.meta.total_size = file_len as usize;
        let (chunks, hash) = chunk_reads(self.meta.file_id, chunk_size, reads);
        self.meta.hash = Some(hash);
        chunks
    }

    /// Starts sending chunks, of which there must be some: a pool that hands
    /// them over, and the writer that takes them.
    pub fn send_chunks(&self, chunks: Vec<ChunkEvent>) -> (r: Result<
        (SendPool, UploadWriter),
        SyncError,
    >)
        requires
            chunks@.len() > 0 ==> self.meta.hash is Some && upload_init_frame(
                announcement(self.meta@),
            ).len() <= isize::MAX,
            frames_fit(event_views(chunks@)),
        ensures
            match r {
                Ok((pool, writer)) => {
                    &&& chunks@.len() > 0
                    &&& pool.wf()
                    &&& pool.remaining() == event_views(chunks@)
                    &&& pool.running() == 0
                    &&& writer.stage() == WriterStageView::Opening
                    &&& writer.first() == upload_init_frame(announcement(self.meta@))
                    &&& writer.last() == upload_done_frame(
                        UploadDoneEventView { file_id: self.meta.file_id@ },
                    )
                },
                Err(e) => chunks@.len() == 0 && e@ == SyncErrorView::NoChunks,
            },
    {
        if chunks.len() == 0 {
            return Err(SyncError::NoChunks);
        }
        let upload_event = UploadInitEvent {
            file_id: self.meta.file_id,
            size: self.meta.total_size as u64,
            hash: self.meta.hash.unwrap(),
            name: self.meta.file_name.clone(),
        };
        assert(upload_event@ == announcement(self.meta@));
        let done_event = UploadDoneEvent { file_id: self.meta.file_id };
        let writer = UploadWriter {
            stage: WriterStage::Opening,
            first: encode_upload_init(upload_event),
            last: encode_upload_done(done_event).freeze(),
        };
        let pool = SendPool { chunks, next: 0, running: 0 };
        assert(pool.remaining() =~= event_views(chunks@));
        Ok((pool, writer))
    }
}

/// What a frame asks of the file system.
#[derive(Debug)]
pub enum StreamAction {
    Create(CreateFile),
    Write(WriteChunk),
    Nothing,
}

/// What a [`StreamAction`] says.
pub enum StreamActionView {
    Create(CreateFileView),
    Write(WriteChunkView),
    Nothing,
}

impl View for StreamAction {
    type V = StreamActionView;

    open spec fn view(&self) -> StreamActionView {
        match self {
            StreamAction::Create(job) => StreamActionView::Create(job@),
            StreamAction::Write(job) => StreamActionView::Write(job@),
            StreamAction::Nothing => StreamActionView::Nothing,
        }
    }
}

/// What `frame` asks of the file system, or why it is refused. Frames that are
/// none of a client's are passed over.
pub open spec fn on_frame(files: Files, frame: Seq<u8>) -> Result<StreamActionView, SyncErrorView> {
    let body = frame.skip(1);
    if frame[0] == UPLOAD_INIT_TAG {
        match on_upload_init(files, body) {
            Ok(job) => Ok(StreamActionView::Create(job)),
            Err(e) => Err(e),
        }
    } else if frame[0] == CHUNK_TAG {
        match on_chunk(files, body) {
            Ok(job) => Ok(StreamActionView::Write(job)),
            Err(e) => Err(e),
        }
    } else if frame[0] == UPLOAD_DONE_TAG {
        match parse_upload_done(body) {
            Ok(_) => Ok(StreamActionView::Nothing),
            Err(e) => Err(e),
        }
    } else {
        Ok(StreamActionView::Nothing)
    }
}

/// The registered files once `frame` has been taken.
pub open spec fn files_after_frame(files: Files, frame: Seq<u8>) -> Files {
    if frame[0] == UPLOAD_INIT_TAG {
        files_after_init(files, frame.skip(1))
    } else {
        files
    }
}

/// How far the uploads have come once `frame` has been taken: a client that
/// says it is done is believed.
pub open spec fn states_after_frame(states: States, frame: Seq<u8>) -> States {
    if frame[0] == UPLOAD_DONE_TAG {
        match parse_upload_done(frame.skip(1)) {
            Ok(ev) => states.insert(id_key(ev.file_id), FileUploadState::Done),
            Err(_) => states,
        }
    } else {
        states
    }
}

/// What is left unread of `frame`.
pub open spec fn unread_frame(frame: Seq<u8>) -> Seq<u8> {
    let body = frame.skip(1);
    if frame[0] == UPLOAD_INIT_TAG {
        unread_body(body, parse_upload_init(body))
    } else if frame[0] == CHUNK_TAG {
        unread_body(body, parse_chunk_event(body))
    } else {
        body
    }
}

/// The server's end: the files that it knows of.
///
/// A frame is handled in two steps. `handle_stream` decides what it asks of the
/// file system, and `file_created` or `chunk_written` takes what came of that.
#[derive(Debug)]
pub struct ServerFileProcessor {
    registry: FileRegistry,
}

impl ServerFileProcessor {
    /// The registered files.
    pub closed spec fn files(&self) -> Files {
        self.registry.files()
    }

    /// How far the upload of each file has come.
    pub closed spec fn states(&self) -> States {
        self.registry.states()
    }

    /// Whether the registered files are in order.
    pub closed spec fn wf(&self) -> bool {
        self.registry.wf()
    }

    /// A server that knows of no files.
    pub fn new() -> (server: ServerFileProcessor)
        ensures
            server.wf(),
            server.files() == Map::<u128, RegisteredFileView>::empty(),
            server.states() == Map::<u128, FileUploadState>::empty(),
    {
        ServerFileProcessor { registry: FileRegistry::new() }
    }

    /// Whether the server has its folder, given what came of creating it: one
    /// that was there already will do.
    pub fn create_folder(&self, outcome: FolderOutcome) -> (r: Result<(), SyncError>)
        ensures
            r is Ok == (outcome !is Failed),
            r matches Err(err) ==> err@ == SyncErrorView::IOError(outcome->0@),
    {
        folder_ready(outcome)
    }

    /// How far the upload of a file has come, if it has begun.
    pub fn state(&self, file_id: &FileId) -> (state: Option<FileUploadState>)
        ensures
            state == (if self.states().contains_key(id_key(file_id@)) {
                Some(self.states()[id_key(file_id@)])
            } else {
                None
            }),
    {
        self.registry.state(file_id)
    }

    /// The registered file with this identifier, if there is one.
    pub fn file(&self, file_id: &FileId) -> (file: Option<&RegisteredFile>)
        ensures
            match file {
                Some(file) => {
                    &&& self.files().contains_key(id_key(file_id@))
                    &&& file@ == self.files()[id_key(file_id@)]
                },
                None => !self.files().contains_key(id_key(file_id@)),
            },
    {
        self.registry.file(file_id)
    }

    /// Takes a frame, and decides what it asks of the file system.
    pub fn handle_stream(&mut self, data: &mut BytesMut) -> (r: Result<StreamAction, SyncError>)
        requires
            old(self).wf(),
            buffer_of(*old(data)).len() > 0,
        ensures
            final(self).wf(),
            outcome(r) == on_frame(old(self).files(), buffer_of(*old(data))),
            final(self).files() == files_after_frame(old(self).files(), buffer_of(*old(data))),
            final(self).states() == states_after_frame(old(self).states(), buffer_of(*old(data))),
            buffer_of(*final(data)) == unread_frame(buffer_of(*old(data))),
    {
        let tag = get_u8(data);
        match tag {
            UPLOAD_INIT_TAG => {
                match self.registry.handle_upload_init(data) {
                    Ok(job) => Ok(StreamAction::Create(job)),
                    Err(e) => Err(e),
                }
            },
            CHUNK_TAG => {
                match self.registry.handle_chunk(data) {
                    Ok(job) => Ok(StreamAction::Write(job)),
                    Err(e) => Err(e),
                }
            },
            UPLOAD_DONE_TAG => {
                let ev = match decode_upload_done(data) {
                    Ok(ev) => ev,
                    Err(e) => {
                        return Err(e);
                    },
                };
                self.registry.set_state(&ev.file_id, FileUploadState::Done);
                Ok(StreamAction::Nothing)
            },
            _ => Ok(StreamAction::Nothing),
        }
    }

    /// Takes what came of creating a file.
    pub fn file_created(&mut self, job: &CreateFile, result: Result<(), String>) -> (r: Result<
        (),
        SyncError,
    >)
        ensures
            final(self).files() == old(self).files(),
            final(self).wf() == old(self).wf(),
            r is Ok == result is Ok,
            r matches Err(err) ==> err@ == SyncErrorView::IOError(done_view(result)->Err_0),
            final(self).states() == states_after_create(
                old(self).states(),
                job@,
                done_view(result),
            ),
    {
        match result {
            Ok(_) => {
                self.registry.set_state(&job.file_id, FileUploadState::Init);
                Ok(())
            },
            Err(e) => Err(SyncError::IOError(e)),
        }
    }

    /// Takes what came of writing a chunk.
    pub fn chunk_written(&mut self, job: &WriteChunk, result: Result<(), String>) -> (r: Result<
        (),
        SyncError,
    >)
        ensures
            final(self).files() == old(self).files(),
            final(self).wf() == old(self).wf(),
            r is Ok == result is Ok,
            r matches Err(err) ==> err@ == SyncErrorView::IOError(done_view(result)->Err_0),
            final(self).states() == states_after_write(
                old(self).states(),
                job@,
                done_view(result),
            ),
    {
        match result {
            Ok(_) => {
                self.registry.set_state(&job.file_id, FileUploadState::Uploading);
                Ok(())
            },
            Err(e) => Err(SyncError::IOError(e)),
        }
    }
}

/// At no time do more than `MAX_SEND_TASK` tasks run.
pub proof fn lemma_tasks_are_bounded(pool: SendPool)
    requires
        pool.wf(),
    ensures
        pool.running() <= MAX_SEND_TASK,
        next_send_step(pool.remaining(), pool.running()) is Start ==> pool.running() + 1
            <= MAX_SEND_TASK,
{
}

/// The client is finished once a task was started for every chunk and all of
/// them have ended, and not before.
pub proof fn lemma_finished_when_all_sent(remaining: Seq<ChunkEventView>, running: nat)
    ensures
        next_send_step(remaining, running) is Finished <==> remaining.len() == 0 && running == 0,
{
}

/// What moves a pool on: asking for the next step, or the end of a task.
pub enum PoolMove {
    Next,
    Ended,
}

/// The chunks that a pool has left, and how many tasks it has running, once it
/// has made these moves.
pub open spec fn pool_after(
    remaining: Seq<ChunkEventView>,
    running: nat,
    moves: Seq<PoolMove>,
) -> (Seq<ChunkEventView>, nat)
    decreases moves.len(),
{
    if moves.len() == 0 {
        (remaining, running)
    } else {
        let (left, tasks) = pool_after(remaining, running, moves.drop_last());
        match moves.last() {
            PoolMove::Next => if next_send_step(left, tasks) is Start {
                (left.skip(1), tasks + 1)
            } else {
                (left, tasks)
            },
            PoolMove::Ended => (
                left,
                if tasks > 0 {
                    (tasks - 1) as nat
                } else {
                    0
                },
            ),
        }
    }
}

/// The frames for which a pool has started tasks as it made these moves.
pub open spec fn frames_started(
    remaining: Seq<ChunkEventView>,
    running: nat,
    moves: Seq<PoolMove>,
) -> Seq<Seq<u8>>
    decreases moves.len(),
{
    if moves.len() == 0 {
        Seq::empty()
    } else {
        let (left, tasks) = pool_after(remaining, running, moves.drop_last());
        let before = frames_started(remaining, running, moves.drop_last());
        match (moves.last(), next_send_step(left, tasks)) {
            (PoolMove::Next, SendStepView::Start(frame)) => before.push(frame),
            _ => before,
        }
    }
}

/// The frames of chunks.
pub open spec fn chunk_frames(chunks: Seq<ChunkEventView>) -> Seq<Seq<u8>> {
    chunks.map_values(|chunk: ChunkEventView| chunk_frame(chunk))
}

/// Whatever moves a pool makes, it has started a task for each of its first
/// chunks once and in order, those it has left are the others, and never do more
/// than `MAX_SEND_TASK` tasks run.
pub proof fn lemma_chunks_start_in_order(
    remaining: Seq<ChunkEventView>,
    running: nat,
    moves: Seq<PoolMove>,
)
    requires
        running <= MAX_SEND_TASK,
    ensures
        frames_started(remaining, running, moves) + chunk_frames(
            pool_after(remaining, running, moves).0,
        ) == chunk_frames(remaining),
        pool_after(remaining, running, moves).1 <= MAX_SEND_TASK,
    decreases moves.len(),
{
    let started = frames_started(remaining, running, moves);
    let (after, _) = pool_after(remaining, running, moves);
    if moves.len() > 0 {
        let front = moves.drop_last();
        lemma_chunks_start_in_order(remaining, running, front);
        let (left, tasks) = pool_after(remaining, running, front);
        if moves.last() is Next && next_send_step(left, tasks) is Start {
            assert(seq![chunk_frame(left[0])] + chunk_frames(left.skip(1)) =~= chunk_frames(left));
            assert(started + chunk_frames(after) =~= frames_started(remaining, running, front)
                + chunk_frames(left));
        }
    } else {
        assert(started + chunk_frames(after) =~= chunk_frames(remaining));
    }
}

/// A pool that is finished has started a task for each of the chunks that it had
/// at its start, once and in order, and none for anything else.
pub proof fn lemma_finished_pool_started_all(
    remaining: Seq<ChunkEventView>,
    running: nat,
    moves: Seq<PoolMove>,
)
    requires
        running <= MAX_SEND_TASK,
        ({
            let (left, tasks) = pool_after(remaining, running, moves);
            next_send_step(left, tasks) is Finished
        }),
    ensures
        frames_started(remaining, running, moves) == chunk_frames(remaining),
        pool_after(remaining, running, moves).1 == 0,
{
    lemma_chunks_start_in_order(remaining, running, moves);
    let (left, _) = pool_after(remaining, running, moves);
    assert(chunk_frames(left) =~= Seq::<Seq<u8>>::empty());
    assert(frames_started(remaining, running, moves) + chunk_frames(left) =~= frames_started(
        remaining,
        running,
        moves,
    ));
}

/// The stage of a new writer once it has taken these events.
pub open spec fn stage_after_all(events: Seq<WriterEventView>) -> WriterStageView
    decreases events.len(),
{
    if events.len() == 0 {
        WriterStageView::Opening
    } else {
        stage_after(stage_after_all(events.drop_last()), events.last())
    }
}

/// The frames that a new writer sends as it takes these events.
pub open spec fn frames_written(
    events: Seq<WriterEventView>,
    first: Seq<u8>,
    last: Seq<u8>,
) -> Seq<Seq<u8>>
    decreases events.len(),
{
    if events.len() == 0 {
        Seq::empty()
    } else {
        let before = frames_written(events.drop_last(), first, last);
        match frame_to_write(stage_after_all(events.drop_last()), events.last(), first, last) {
            Some(frame) => before.push(frame),
            None => before,
        }
    }
}

/// The events of an upload in which the tasks hand over these frames, up to
/// where they have all ended.
pub open spec fn upload_events(frames: Seq<Seq<u8>>) -> Seq<WriterEventView> {
    seq![WriterEventView::Opened] + frames.map_values(
        |frame: Seq<u8>| WriterEventView::Received(frame),
    )
}

proof fn lemma_frames_before_the_end(frames: Seq<Seq<u8>>, first: Seq<u8>, last: Seq<u8>)
    ensures
        stage_after_all(upload_events(frames)) == WriterStageView::Streaming,
        frames_written(upload_events(frames), first, last) == seq![first] + frames,
    decreases frames.len(),
{
    let events = upload_events(frames);
    if frames.len() == 0 {
        reveal_with_fuel(frames_written, 2);
        reveal_with_fuel(stage_after_all, 2);
        assert(events.drop_last() =~= Seq::<WriterEventView>::empty());
        assert(events.last() == WriterEventView::Opened);
    } else {
        lemma_frames_before_the_end(frames.drop_last(), first, last);
        assert(events.drop_last() =~= upload_events(frames.drop_last()));
        assert(events.last() == WriterEventView::Received(frames.last()));
    }
    assert(frames_written(events, first, last) =~= seq![first] + frames);
}

/// The server sees the file announced first, then every chunk that was handed
/// over, in that order, and the end of the upload behind the last of them.
pub proof fn lemma_done_comes_last(frames: Seq<Seq<u8>>, first: Seq<u8>, last: Seq<u8>)
    ensures
        ({
            let events = upload_events(frames).push(WriterEventView::Drained);
            &&& frames_written(events, first, last) == seq![first] + frames + seq![last]
            &&& stage_after_all(events) == WriterStageView::Closed
        }),
{
    let events = upload_events(frames).push(WriterEventView::Drained);
    lemma_frames_before_the_end(frames, first, last);
    assert(events.drop_last() =~= upload_events(frames));
    assert(frames_written(events, first, last) =~= seq![first] + frames + seq![last]);
}

/// The frames that tasks hand over in these events, in order.
pub open spec fn received(events: Seq<WriterEventView>) -> Seq<Seq<u8>>
    decreases events.len(),
{
    if events.len() == 0 {
        Seq::empty()
    } else {
        match events.last() {
            WriterEventView::Received(frame) => received(events.drop_last()).push(frame),
            _ => received(events.drop_last()),
        }
    }
}

/// How many events come before the tasks have all ended.
pub open spec fn until_drained(events: Seq<WriterEventView>) -> nat
    decreases events.len(),
{
    if events.len() == 0 {
        0
    } else if events.last() is Drained || until_drained(events.drop_last()) < events.len() - 1 {
        until_drained(events.drop_last())
    } else {
        events.len()
    }
}

/// A writer that was opened first and ends well has written the announcement,
/// then every frame that was handed over before the tasks had all ended, each
/// once and in order, then the end of the upload, and nothing else. No write has
/// failed.
pub proof fn lemma_success_means_all_written(
    events: Seq<WriterEventView>,
    first: Seq<u8>,
    last: Seq<u8>,
)
    requires
        events.len() > 0,
        events[0] is Opened,
        stage_after_all(events) is Closed,
    ensures
        until_drained(events) < events.len(),
        events[until_drained(events) as int] is Drained,
        frames_written(events, first, last) == seq![first] + received(
            events.take(until_drained(events) as int),
        ) + seq![last],
        forall|i: int| 0 <= i < events.len() ==> !(#[trigger] events[i] is WriteFailed),
{
    lemma_run_so_far(events, first, last);
    lemma_written_so_far(events, first, last);
}

proof fn lemma_run_so_far(events: Seq<WriterEventView>, first: Seq<u8>, last: Seq<u8>)
    requires
        events.len() > 0,
        events[0] is Opened,
        !(stage_after_all(events) is Failed),
    ensures
        ({
            let d = until_drained(events) as int;
            let written = frames_written(events, first, last);
            &&& d <= events.len()
            &&& d == events.len() ==> {
                &&& stage_after_all(events) is Streaming
                &&& written == seq![first] + received(events)
            }
            &&& d < events.len() ==> {
                &&& stage_after_all(events) is Closed
                &&& events[d] is Drained
                &&& written == seq![first] + received(events.take(d)) + seq![last]
            }
        }),
    decreases events.len(),
{
    let front = events.drop_last();
    let d = until_drained(events) as int;
    let written = frames_written(events, first, last);
    if front.len() == 0 {
        reveal_with_fuel(stage_after_all, 2);
        reveal_with_fuel(frames_written, 2);
        reveal_with_fuel(received, 2);
        reveal_with_fuel(until_drained, 2);
        assert(events.last() == events[0]);
        assert(written =~= seq![first] + received(events));
    } else {
        assert(front[0] == events[0]);
        lemma_run_so_far(front, first, last);
        if d < events.len() {
            assert(events.take(d) =~= front.take(d));
            if d < front.len() {
                assert(events[d] == front[d]);
            } else {
                assert(front.take(d) =~= front);
                assert(events[d] == events.last());
            }
            assert(written =~= seq![first] + received(events.take(d)) + seq![last]);
        } else {
            assert(written =~= seq![first] + received(events));
        }
    }
}

/// A writer that ends well has announced the file before all else and has ended
/// the upload behind all else, whatever it was told on the way.
pub proof fn lemma_success_begins_and_ends(
    events: Seq<WriterEventView>,
    first: Seq<u8>,
    last: Seq<u8>,
)
    requires
        stage_after_all(events) is Closed,
    ensures
        frames_written(events, first, last).len() >= 2,
        frames_written(events, first, last)[0] == first,
        frames_written(events, first, last).last() == last,
{
    lemma_written_so_far(events, first, last);
}

proof fn lemma_written_so_far(events: Seq<WriterEventView>, first: Seq<u8>, last: Seq<u8>)
    ensures
        ({
            let stage = stage_after_all(events);
            let written = frames_written(events, first, last);
            &&& !(stage is Failed) ==> forall|i: int|
                0 <= i < events.len() ==> !(#[trigger] events[i] is WriteFailed)
            &&& stage is Opening ==> written.len() == 0
            &&& stage is Streaming || stage is Closed ==> written.len() >= 1 && written[0] == first
            &&& stage is Closed ==> written.len() >= 2 && written.last() == last
        }),
    decreases events.len(),
{
    if events.len() > 0 {
        let front = events.drop_last();
        lemma_written_so_far(front, first, last);
        if !(stage_after_all(events) is Failed) {
            assert forall|i: int| 0 <= i < events.len() implies !(#[trigger] events[i]
                is WriteFailed) by {
                if i < front.len() {
                    assert(events[i] == front[i]);
                }
            }
        }
    }
}

/// Nothing is written behind the end of an upload, nor behind a failure.
pub proof fn lemma_nothing_after_the_end(
    events: Seq<WriterEventView>,
    event: WriterEventView,
    first: Seq<u8>,
    last: Seq<u8>,
)
    requires
        stage_after_all(events) is Closed || stage_after_all(events) is Failed,
    ensures
        frames_written(events.push(event), first, last) == frames_written(events, first, last),
        stage_after_all(events.push(event)) is Closed || stage_after_all(events.push(event))
            is Failed,
{
    assert(events.push(event).drop_last() =~= events);
}

/// A step, an event, a stage, an action and a frame say what stands in them.
pub proof fn lemma_steps_say_what_they_hold(
    frame: Bytes,
    reason: String,
    create: CreateFile,
    write: WriteChunk,
)
    ensures
        SendStep::Start(frame)@ == SendStepView::Start(bytes_of(frame)),
        SendStep::Wait@ == SendStepView::Wait,
        SendStep::Finished@ == SendStepView::Finished,
        WriterEvent::Opened@ == WriterEventView::Opened,
        WriterEvent::Received(frame)@ == WriterEventView::Received(bytes_of(frame)),
        WriterEvent::Drained@ == WriterEventView::Drained,
        WriterEvent::WriteFailed(reason)@ == WriterEventView::WriteFailed(reason@),
        WriterStage::Opening@ == WriterStageView::Opening,
        WriterStage::Streaming@ == WriterStageView::Streaming,
        WriterStage::Closed@ == WriterStageView::Closed,
        WriterStage::Failed(reason)@ == WriterStageView::Failed(reason@),
        StreamAction::Create(create)@ == StreamActionView::Create(create@),
        StreamAction::Write(write)@ == StreamActionView::Write(write@),
        StreamAction::Nothing@ == StreamActionView::Nothing,
        frame_view(Some(frame)) == Some(bytes_of(frame)),
        frame_view(None) == None::<Seq<u8>>,
{
}

/// A task is started for the chunk that is next in line whenever chunks are left
/// and fewer than eight tasks run. Only where that is not so, and a task is
/// running that can end, is there anything to wait for.
pub proof fn lemma_tasks_start_whenever_they_may(
    chunk: ChunkEventView,
    others: Seq<ChunkEventView>,
    running: nat,
)
    ensures
        running < 8 ==> next_send_step(seq![chunk] + others, running) == SendStepView::Start(
            chunk_frame(chunk),
        ),
        running >= 8 ==> next_send_step(seq![chunk] + others, running) == SendStepView::Wait,
        running > 0 ==> next_send_step(Seq::empty(), running) == SendStepView::Wait,
        next_send_step(Seq::empty(), 0) == SendStepView::Finished,
        next_send_step(others, running) is Wait ==> running > 0,
{
    assert((seq![chunk] + others)[0] == chunk);
}

/// A pool once it was driven for `rounds` rounds: in each it takes its next step,
/// and where that is to wait, one of its tasks ends.
pub open spec fn pool_driven(
    remaining: Seq<ChunkEventView>,
    running: nat,
    rounds: nat,
) -> (Seq<ChunkEventView>, nat)
    decreases rounds,
{
    if rounds == 0 {
        (remaining, running)
    } else {
        match next_send_step(remaining, running) {
            SendStepView::Start(_) => pool_driven(
                remaining.skip(1),
                running + 1,
                (rounds - 1) as nat,
            ),
            SendStepView::Wait => pool_driven(
                remaining,
                if running > 0 {
                    (running - 1) as nat
                } else {
                    0
                },
                (rounds - 1) as nat,
            ),
            SendStepView::Finished => (remaining, running),
        }
    }
}

/// A pool that is driven gets done: two rounds for each chunk that is left and
/// one for each task that is running are enough, whatever the chunks, and then
/// nothing is left and nothing is running.
pub proof fn lemma_pool_gets_done(remaining: Seq<ChunkEventView>, running: nat)
    ensures
        ({
            let (left, tasks) = pool_driven(remaining, running, 2 * remaining.len() + running);
            &&& left.len() == 0
            &&& tasks == 0
            &&& next_send_step(left, tasks) is Finished
        }),
    decreases 2 * remaining.len() + running,
{
    let rounds = 2 * remaining.len() + running;
    if remaining.len() > 0 && running < MAX_SEND_TASK {
        lemma_pool_gets_done(remaining.skip(1), running + 1);
        assert(2 * remaining.skip(1).len() + (running + 1) == rounds - 1);
    } else if running > 0 {
        lemma_pool_gets_done(remaining, (running - 1) as nat);
        assert(2 * remaining.len() + (running - 1) == rounds - 1);
    }
}

/// The first failure is the one that counts: it ends the run at any time, and
/// nothing that comes behind it changes it.
pub proof fn lemma_first_failure_stays(
    events: Seq<WriterEventView>,
    reason: Seq<char>,
    event: WriterEventView,
)
    requires
        !(stage_after_all(events) is Failed),
    ensures
        ({
            let failed = events.push(WriterEventView::WriteFailed(reason));
            &&& stage_after_all(failed) == WriterStageView::Failed(reason)
            &&& stage_after_all(failed.push(event)) == WriterStageView::Failed(reason)
        }),
{
    let failed = events.push(WriterEventView::WriteFailed(reason));
    assert(failed.drop_last() =~= events);
    assert(failed.push(event).drop_last() =~= failed);
}

/// Before the connection is there, nothing is written and nothing has begun.
pub proof fn lemma_nothing_before_opening(
    events: Seq<WriterEventView>,
    first: Seq<u8>,
    last: Seq<u8>,
)
    requires
        forall|i: int|
            0 <= i < events.len() ==> #[trigger] events[i] is Received || events[i] is Drained,
    ensures
        stage_after_all(events) is Opening,
        frames_written(events, first, last).len() == 0,
    decreases events.len(),
{
    if events.len() > 0 {
        let front = events.drop_last();
        assert forall|i: int| 0 <= i < front.len() implies #[trigger] front[i] is Received
            || front[i] is Drained by {
            assert(front[i] == events[i]);
        }
        lemma_nothing_before_opening(front, first, last);
        assert(events[events.len() - 1] == events.last());
    }
}

/// A connection that is there already is not opened again.
pub proof fn lemma_opened_once(events: Seq<WriterEventView>, first: Seq<u8>, last: Seq<u8>)
    requires
        !(stage_after_all(events) is Opening),
    ensures
        stage_after_all(events.push(WriterEventView::Opened)) == stage_after_all(events),
        frames_written(events.push(WriterEventView::Opened), first, last) == frames_written(
            events,
            first,
            last,
        ),
{
    assert(events.push(WriterEventView::Opened).drop_last() =~= events);
}

/// Only a failed write undoes the end of an upload: whatever else a closed writer
/// is told, it stays closed.
pub proof fn lemma_closed_stays_closed(events: Seq<WriterEventView>, event: WriterEventView)
    requires
        stage_after_all(events) is Closed,
    ensures
        stage_after_all(events.push(event)) is Closed <==> !(event is WriteFailed),
{
    assert(events.push(event).drop_last() =~= events);
}

/// The first byte of a frame says what it is, and what stands behind it is read
/// as that. Frames that are none of a client's are passed over, and a client that
/// says it is done is believed.
pub proof fn lemma_frames_go_by_their_tag(files: Files, states: States, tag: u8, body: Seq<u8>)
    ensures
        ({
            let frame = seq![tag] + body;
            let action = on_frame(files, frame);
            &&& tag == 0x01 ==> match on_upload_init(files, body) {
                Ok(job) => action == Ok::<_, SyncErrorView>(StreamActionView::Create(job)),
                Err(e) => action == Err::<StreamActionView, _>(e),
            }
            &&& tag == 0x03 ==> match on_chunk(files, body) {
                Ok(job) => action == Ok::<_, SyncErrorView>(StreamActionView::Write(job)),
                Err(e) => action == Err::<StreamActionView, _>(e),
            }
            &&& tag == 0x05 ==> match parse_upload_done(body) {
                Ok(ev) => {
                    &&& action == Ok::<_, SyncErrorView>(StreamActionView::Nothing)
                    &&& states_after_frame(states, frame) == states.insert(
                        id_key(ev.file_id),
                        FileUploadState::Done,
                    )
                },
                Err(e) => {
                    &&& action == Err::<StreamActionView, _>(e)
                    &&& states_after_frame(states, frame) == states
                },
            }
            &&& tag != 0x01 && tag != 0x03 && tag != 0x05 ==> action == Ok::<_, SyncErrorView>(
                StreamActionView::Nothing,
            )
            &&& tag != 0x05 ==> states_after_frame(states, frame) == states
            &&& tag == 0x01 ==> files_after_frame(files, frame) == files_after_init(files, body)
            &&& tag != 0x01 ==> files_after_frame(files, frame) == files
            &&& tag == 0x01 ==> unread_frame(frame) == unread_body(body, parse_upload_init(body))
            &&& tag == 0x03 ==> unread_frame(frame) == unread_body(body, parse_chunk_event(body))
            &&& tag != 0x01 && tag != 0x03 ==> unread_frame(frame) == body
        }),
{
    assert((seq![tag] + body).skip(1) =~= body);
}

} // verus!
