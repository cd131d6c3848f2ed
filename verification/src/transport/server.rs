//! The server's end of an upload.
//!
//! A request is handled in two steps. [`ServerFileProcessor::handle_stream`]
//! decides what it asks of the file system. Once that is done, one of
//! `file_created`, `chunk_written`, `file_checked` and `contents_checked` takes
//! what came of it and gives the answer, and [`response_frame`] puts the answer
//! into a frame.

use crate::digest::{blake3_digest, same_digest, FileHash};
use crate::errors::{error_report, SyncError, SyncErrorView};
use crate::ids::{id_key, FileId};
use crate::protocol::{
    chunk_ack_frame, decode_upload_done, encode_chunk_ack, encode_error, encode_upload_done_ack,
    encode_upload_init_ack, error_frame, outcome, parse_chunk_event, parse_upload_done,
    parse_upload_init, upload_done_ack_frame, upload_init_ack_frame, ChunkACK, ChunkACKView, ErrMsg,
    FileUploadState, UploadDoneACK, UploadDoneACKView, UploadInitACK, UploadInitACKView, CHUNK_TAG,
    UPLOAD_DONE_TAG, UPLOAD_INIT_TAG,
};
use crate::registry::{
    files_after_init, folder_ready, on_chunk, on_upload_done, on_upload_init, unread_body,
    CheckFile, CheckFileView, CreateFile, CreateFileView, FileRegistry, Files, FolderOutcome,
    RegisteredFile, RegisteredFileView, WriteChunk, WriteChunkView,
};
use crate::text::joined;
use crate::transport::file_hash;
use crate::wire::{buffer_of, bytes_of, get_u8};
use bytes::{Bytes, BytesMut};
use vstd::prelude::*;
use vstd::string::*;

verus! {

/// What the server answers where a request went well.
#[derive(Debug)]
pub enum ServerRespEvent {
    UploadInitACK(UploadInitACK),
    ChunkACK(ChunkACK),
    UploadDoneACK(UploadDoneACK),
}

/// What a [`ServerRespEvent`] says.
pub enum ServerRespEventView {
    UploadInitACK(UploadInitACKView),
    ChunkACK(ChunkACKView),
    UploadDoneACK(UploadDoneACKView),
}

impl View for ServerRespEvent {
    type V = ServerRespEventView;

    open spec fn view(&self) -> ServerRespEventView {
        match self {
            ServerRespEvent::UploadInitACK(ack) => ServerRespEventView::UploadInitACK(ack@),
            ServerRespEvent::ChunkACK(ack) => ServerRespEventView::ChunkACK(ack@),
            ServerRespEvent::UploadDoneACK(ack) => ServerRespEventView::UploadDoneACK(ack@),
        }
    }
}

/// What a request asks of the file system.
#[derive(Debug)]
pub enum ServerAction {
    Create(CreateFile),
    Write(WriteChunk),
    Check(CheckFile),
}

/// What a [`ServerAction`] says.
pub enum ServerActionView {
    Create(CreateFileView),
    Write(WriteChunkView),
    Check(CheckFileView),
}

impl View for ServerAction {
    type V = ServerActionView;

    open spec fn view(&self) -> ServerActionView {
        match self {
            ServerAction::Create(job) => ServerActionView::Create(job@),
            ServerAction::Write(job) => ServerActionView::Write(job@),
            ServerAction::Check(job) => ServerActionView::Check(job@),
        }
    }
}

/// What the request in `frame` asks of the file system, or why it is refused.
pub open spec fn on_request(files: Files, frame: Seq<u8>) -> Result<
    ServerActionView,
    SyncErrorView,
> {
    let body = frame.skip(1);
    if frame[0] == UPLOAD_INIT_TAG {
        match on_upload_init(files, body) {
            Ok(job) => Ok(ServerActionView::Create(job)),
            Err(e) => Err(e),
        }
    } else if frame[0] == CHUNK_TAG {
        match on_chunk(files, body) {
            Ok(job) => Ok(ServerActionView::Write(job)),
            Err(e) => Err(e),
        }
    } else if frame[0] == UPLOAD_DONE_TAG {
        match parse_upload_done(body) {
            Err(e) => Err(e),
            Ok(ev) => match on_upload_done(files, ev.file_id) {
                Ok(job) => Ok(ServerActionView::Check(job)),
                Err(e) => Err(e),
            },
        }
    } else {
        Err(SyncErrorView::UnknownEvent(frame[0]))
    }
}

/// The registered files once the request in `frame` has been taken.
pub open spec fn files_after_request(files: Files, frame: Seq<u8>) -> Files {
    if frame[0] == UPLOAD_INIT_TAG {
        files_after_init(files, frame.skip(1))
    } else {
        files
    }
}

/// What is left unread of the request in `frame`.
pub open spec fn unread_request(frame: Seq<u8>) -> Seq<u8> {
    let body = frame.skip(1);
    if frame[0] == UPLOAD_INIT_TAG {
        unread_body(body, parse_upload_init(body))
    } else if frame[0] == CHUNK_TAG {
        unread_body(body, parse_chunk_event(body))
    } else {
        body
    }
}

/// The verdict on a file whose contents hash to `actual`.
pub open spec fn verdict(job: CheckFileView, actual: Seq<u8>) -> UploadDoneACKView {
    if actual == job.expected {
        UploadDoneACKView {
            file_id: job.file_id,
            ok: true,
            msg: "upload success for: "@ + job.name,
        }
    } else {
        UploadDoneACKView { file_id: job.file_id, ok: false, msg: "file is broken, pls retry"@ }
    }
}

/// What came of work on a file, with the reason as characters.
pub open spec fn done_view(result: Result<(), String>) -> Result<(), Seq<char>> {
    match result {
        Ok(_) => Ok(()),
        Err(e) => Err(e@),
    }
}

/// What came of hashing a file.
pub open spec fn hashed_view(result: Result<FileHash, String>) -> Result<Seq<u8>, Seq<char>> {
    match result {
        Ok(hash) => Ok(hash@),
        Err(e) => Err(e@),
    }
}

/// How far the uploads have come, by the number of each file's identifier.
pub type States = Map<u128, FileUploadState>;

/// The answer to an announced file, given what came of creating it.
pub open spec fn create_answer(job: CreateFileView, result: Result<(), Seq<char>>) -> Result<
    ServerRespEventView,
    SyncErrorView,
> {
    match result {
        Ok(_) => Ok(
            ServerRespEventView::UploadInitACK(
                UploadInitACKView { file_id: job.file_id, offset: 0 },
            ),
        ),
        Err(e) => Err(SyncErrorView::IOError(e)),
    }
}

/// How far the uploads have come once creating a file came to `result`.
pub open spec fn states_after_create(
    states: States,
    job: CreateFileView,
    result: Result<(), Seq<char>>,
) -> States {
    if result is Ok {
        states.insert(id_key(job.file_id), FileUploadState::Init)
    } else {
        states
    }
}

/// The answer to a chunk, given what came of writing it.
pub open spec fn write_answer(job: WriteChunkView, result: Result<(), Seq<char>>) -> Result<
    ServerRespEventView,
    SyncErrorView,
> {
    match result {
        Ok(_) => Ok(
            ServerRespEventView::ChunkACK(
                ChunkACKView { file_id: job.file_id, offset: job.offset },
            ),
        ),
        Err(e) => Err(SyncErrorView::IOError(e)),
    }
}

/// How far the uploads have come once writing a chunk came to `result`.
pub open spec fn states_after_write(
    states: States,
    job: WriteChunkView,
    result: Result<(), Seq<char>>,
) -> States {
    if result is Ok {
        states.insert(id_key(job.file_id), FileUploadState::Uploading)
    } else {
        states
    }
}

/// The answer to the end of an upload, given what came of hashing the file.
pub open spec fn check_answer(job: CheckFileView, result: Result<Seq<u8>, Seq<char>>) -> Result<
    ServerRespEventView,
    SyncErrorView,
> {
    match result {
        Ok(actual) => Ok(ServerRespEventView::UploadDoneACK(verdict(job, actual))),
        Err(e) => Err(SyncErrorView::IOError(e)),
    }
}

/// How far the uploads have come once hashing a file came to `result`.
pub open spec fn states_after_check(
    states: States,
    job: CheckFileView,
    result: Result<Seq<u8>, Seq<char>>,
) -> States {
    if result == Ok::<_, Seq<char>>(job.expected) {
        states.insert(id_key(job.file_id), FileUploadState::Done)
    } else {
        states
    }
}

/// The frame that answers a request.
pub open spec fn answer_frame(resp: ServerRespEventView) -> Seq<u8> {
    match resp {
        ServerRespEventView::UploadInitACK(ack) => upload_init_ack_frame(ack),
        ServerRespEventView::ChunkACK(ack) => chunk_ack_frame(ack),
        ServerRespEventView::UploadDoneACK(ack) => upload_done_ack_frame(ack),
    }
}

/// The frame that is sent back for a request: the answer to it, or a report of
/// why it failed.
pub open spec fn reply_frame(r: Result<ServerRespEventView, SyncErrorView>) -> Seq<u8> {
    match r {
        Ok(resp) => answer_frame(resp),
        Err(e) => error_frame(error_report(e)),
    }
}

/// The server's end: the files that it knows of.
#[derive(Debug)]
pub struct ServerFileProcessor {
    registry: FileRegistry,
}

impl ServerFileProcessor {
    /// The registered files.
    pub closed spec fn files(&self) -> Files {
        self.registry.files()
    }

    /// How far the upload of each file has come.
    pub closed spec fn states(&self) -> States {
        self.registry.states()
    }

    /// Whether the registered files are in order.
    pub closed spec fn wf(&self) -> bool {
        self.registry.wf()
    }

    /// A server that knows of no files.
    pub fn new() -> (server: ServerFileProcessor)
        ensures
            server.wf(),
            server.files() == Map::<u128, RegisteredFileView>::empty(),
            server.states() == Map::<u128, FileUploadState>::empty(),
    {
        ServerFileProcessor { registry: FileRegistry::new() }
    }

    /// Whether the server has its folder, given what came of creating it: one
    /// that was there already will do.
    pub fn create_folder(&self, outcome: FolderOutcome) -> (r: Result<(), SyncError>)
        ensures
            r is Ok == (outcome !is Failed),
            r matches Err(err) ==> err@ == SyncErrorView::IOError(outcome->0@),
    {
        folder_ready(outcome)
    }

    /// How far the upload of a file has come, if it has begun.
    pub fn state(&self, file_id: &FileId) -> (state: Option<FileUploadState>)
        ensures
            state == (if self.states().contains_key(id_key(file_id@)) {
                Some(self.states()[id_key(file_id@)])
            } else {
                None
            }),
    {
        self.registry.state(file_id)
    }

    /// The registered file with this identifier, if there is one.
    pub fn file(&self, file_id: &FileId) -> (file: Option<&RegisteredFile>)
        ensures
            match file {
                Some(file) => {
                    &&& self.files().contains_key(id_key(file_id@))
                    &&& file@ == self.files()[id_key(file_id@)]
                },
                None => !self.files().contains_key(id_key(file_id@)),
            },
    {
        self.registry.file(file_id)
    }

    /// Takes a request, and decides what it asks of the file system.
    pub fn handle_stream(&mut self, data: &mut BytesMut) -> (r: Result<ServerAction, SyncError>)
        requires
            old(self).wf(),
            buffer_of(*old(data)).len() > 0,
        ensures
            final(self).wf(),
            outcome(r) == on_request(old(self).files(), buffer_of(*old(data))),
            final(self).files() == files_after_request(old(self).files(), buffer_of(*old(data))),
            final(self).states() == old(self).states(),
            buffer_of(*final(data)) == unread_request(buffer_of(*old(data))),
    {
        let tag = get_u8(data);
        match tag {
            UPLOAD_INIT_TAG => {
                match self.registry.handle_upload_init(data) {
                    Ok(job) => Ok(ServerAction::Create(job)),
                    Err(e) => Err(e),
                }
            },
            CHUNK_TAG => {
                match self.registry.handle_chunk(data) {
                    Ok(job) => Ok(ServerAction::Write(job)),
                    Err(e) => Err(e),
                }
            },
            UPLOAD_DONE_TAG => {
                let ev = match decode_upload_done(data) {
                    Ok(ev) => ev,
                    Err(e) => {
                        return Err(e);
                    },
                };
                match self.registry.file_to_check(&ev.file_id) {
                    Ok(job) => Ok(ServerAction::Check(job)),
                    Err(e) => Err(e),
                }
            },
            _ => Err(SyncError::UnknownEvent(tag)),
        }
    }

    /// Answers an announced file, given what came of creating it.
    pub fn file_created(&mut self, job: &CreateFile, result: Result<(), String>) -> (r: Result<
        ServerRespEvent,
        SyncError,
    >)
        ensures
            final(self).files() == old(self).files(),
            final(self).wf() == old(self).wf(),
            outcome(r) == create_answer(job@, done_view(result)),
            final(self).states() == states_after_create(
                old(self).states(),
                job@,
                done_view(result),
            ),
    {
        match result {
            Ok(_) => {
                self.registry.set_state(&job.file_id, FileUploadState::Init);
                Ok(
                    ServerRespEvent::UploadInitACK(
                        UploadInitACK { file_id: job.file_id, offset: 0 },
                    ),
                )
            },
            Err(e) => Err(SyncError::IOError(e)),
        }
    }

    /// Answers a chunk, given what came of writing it.
    pub fn chunk_written(&mut self, job: &WriteChunk, result: Result<(), String>) -> (r: Result<
        ServerRespEvent,
        SyncError,
    >)
        ensures
            final(self).files() == old(self).files(),
            final(self).wf() == old(self).wf(),
            outcome(r) == write_answer(job@, done_view(result)),
            final(self).states() == states_after_write(
                old(self).states(),
                job@,
                done_view(result),
            ),
    {
        match result {
            Ok(_) => {
                self.registry.set_state(&job.file_id, FileUploadState::Uploading);
                Ok(
                    ServerRespEvent::ChunkACK(
                        ChunkACK { file_id: job.file_id, offset: job.offset },
                    ),
                )
            },
            Err(e) => Err(SyncError::IOError(e)),
        }
    }

    /// Answers the end of an upload, given the hash of the file, or why it
    /// could not be had.
    pub fn file_checked(&mut self, job: &CheckFile, result: Result<FileHash, String>) -> (r: Result<
        ServerRespEvent,
        SyncError,
    >)
        ensures
            final(self).files() == old(self).files(),
            final(self).wf() == old(self).wf(),
            outcome(r) == check_answer(job@, hashed_view(result)),
            final(self).states() == states_after_check(
                old(self).states(),
                job@,
                hashed_view(result),
            ),
    {
        let actual = match result {
            Ok(actual) => actual,
            Err(e) => {
                return Err(SyncError::IOError(e));
            },
        };
        if !same_digest(&actual, &job.expected) {
            return Ok(
                ServerRespEvent::UploadDoneACK(
                    UploadDoneACK {
                        file_id: job.file_id,
                        ok: false,
                        msg: "file is broken, pls retry".to_string(),
                    },
                ),
            );
        }
        self.registry.set_state(&job.file_id, FileUploadState::Done);
        Ok(
            ServerRespEvent::UploadDoneACK(
                UploadDoneACK {
                    file_id: job.file_id,
                    ok: true,
                    msg: joined("upload success for: ", job.name.as_str()),
                },
            ),
        )
    }

    /// Answers the end of an upload, given the contents of the file.
    pub fn contents_checked(&mut self, job: &CheckFile, contents: &[u8]) -> (r: Result<
        ServerRespEvent,
        SyncError,
    >)
        ensures
            final(self).files() == old(self).files(),
            final(self).wf() == old(self).wf(),
            outcome(r) == check_answer(job@, Ok(blake3_digest(contents@))),
            final(self).states() == states_after_check(
                old(self).states(),
                job@,
                Ok(blake3_digest(contents@)),
            ),
    {
        let actual = file_hash(contents);
        self.file_checked(job, Ok(actual))
    }
}

/// The frame that answers a request.
pub fn encode_server_resp_event(resp: ServerRespEvent) -> (frame: Bytes)
    requires
        answer_frame(resp@).len() <= isize::MAX,
    ensures
        bytes_of(frame) == answer_frame(resp@),
{
    match resp {
        ServerRespEvent::UploadInitACK(ack) => encode_upload_init_ack(ack),
        ServerRespEvent::ChunkACK(ack) => encode_chunk_ack(ack),
        ServerRespEvent::UploadDoneACK(ack) => encode_upload_done_ack(ack),
    }
}

/// The frame that is sent back for a request.
pub fn response_frame(r: Result<ServerRespEvent, SyncError>) -> (frame: Bytes)
    requires
        reply_frame(outcome(r)).len() <= isize::MAX,
    ensures
        bytes_of(frame) == reply_frame(outcome(r)),
{
    match r {
        Ok(resp) => encode_server_resp_event(resp),
        Err(e) => encode_error(ErrMsg::from(e)),
    }
}

/// An action, and an answer, say what stands in them.
pub proof fn lemma_actions_say_what_they_hold(
    create: CreateFile,
    write: WriteChunk,
    check: CheckFile,
    init_ack: UploadInitACK,
    chunk_ack: ChunkACK,
    done_ack: UploadDoneACK,
)
    ensures
        ServerAction::Create(create)@ == ServerActionView::Create(create@),
        ServerAction::Write(write)@ == ServerActionView::Write(write@),
        ServerAction::Check(check)@ == ServerActionView::Check(check@),
        ServerRespEvent::UploadInitACK(init_ack)@ == ServerRespEventView::UploadInitACK(init_ack@),
        ServerRespEvent::ChunkACK(chunk_ack)@ == ServerRespEventView::ChunkACK(chunk_ack@),
        ServerRespEvent::UploadDoneACK(done_ack)@ == ServerRespEventView::UploadDoneACK(done_ack@),
{
}

/// What came of work on a file is taken as it came.
pub proof fn lemma_results_are_taken_as_they_came(e: String, hash: FileHash)
    ensures
        done_view(Ok(())) == Ok::<(), Seq<char>>(()),
        done_view(Err(e)) == Err::<(), Seq<char>>(e@),
        hashed_view(Ok(hash)) == Ok::<Seq<u8>, Seq<char>>(hash@),
        hashed_view(Err(e)) == Err::<Seq<u8>, Seq<char>>(e@),
{
}

/// The first byte of a request says what it asks for, and what stands behind it
/// is read as that. A first byte that is none of a client's is refused.
pub proof fn lemma_requests_go_by_their_tag(files: Files, tag: u8, body: Seq<u8>)
    ensures
        ({
            let frame = seq![tag] + body;
            let action = on_request(files, frame);
            &&& tag == 0x01 ==> match on_upload_init(files, body) {
                Ok(job) => action == Ok::<_, SyncErrorView>(ServerActionView::Create(job)),
                Err(e) => action == Err::<ServerActionView, _>(e),
            }
            &&& tag == 0x03 ==> match on_chunk(files, body) {
                Ok(job) => action == Ok::<_, SyncErrorView>(ServerActionView::Write(job)),
                Err(e) => action == Err::<ServerActionView, _>(e),
            }
            &&& tag == 0x05 ==> match parse_upload_done(body) {
                Ok(ev) => match on_upload_done(files, ev.file_id) {
                    Ok(job) => action == Ok::<_, SyncErrorView>(ServerActionView::Check(job)),
                    Err(e) => action == Err::<ServerActionView, _>(e),
                },
                Err(e) => action == Err::<ServerActionView, _>(e),
            }
            &&& tag != 0x01 && tag != 0x03 && tag != 0x05 ==> action == Err::<ServerActionView, _>(
                SyncErrorView::UnknownEvent(tag),
            )
            &&& tag == 0x01 ==> files_after_request(files, frame) == files_after_init(files, body)
            &&& tag != 0x01 ==> files_after_request(files, frame) == files
            &&& tag == 0x01 ==> unread_request(frame) == unread_body(body, parse_upload_init(body))
            &&& tag == 0x03 ==> unread_request(frame) == unread_body(body, parse_chunk_event(body))
            &&& tag != 0x01 && tag != 0x03 ==> unread_request(frame) == body
        }),
{
    assert((seq![tag] + body).skip(1) =~= body);
}

/// A file that was created is taken from its start, and its upload has begun. One
/// that could not be created is answered with the reason, and nothing has begun.
pub proof fn lemma_answer_to_creating(states: States, job: CreateFileView, reason: Seq<char>)
    ensures
        create_answer(job, Ok(())) matches Ok(ServerRespEventView::UploadInitACK(ack))
            && ack.offset == 0 && ack.file_id == job.file_id,
        states_after_create(states, job, Ok(())) == states.insert(
            id_key(job.file_id),
            FileUploadState::Init,
        ),
        create_answer(job, Err(reason)) == Err::<ServerRespEventView, _>(
            SyncErrorView::IOError(reason),
        ),
        states_after_create(states, job, Err(reason)) == states,
{
}

/// A chunk that was written is confirmed by its offset, and its upload is under
/// way. One that could not be written is answered with the reason, and its upload
/// stands where it stood.
pub proof fn lemma_answer_to_writing(states: States, job: WriteChunkView, reason: Seq<char>)
    ensures
        write_answer(job, Ok(())) matches Ok(ServerRespEventView::ChunkACK(ack)) && ack.offset
            == job.offset && ack.file_id == job.file_id,
        states_after_write(states, job, Ok(())) == states.insert(
            id_key(job.file_id),
            FileUploadState::Uploading,
        ),
        write_answer(job, Err(reason)) == Err::<ServerRespEventView, _>(
            SyncErrorView::IOError(reason),
        ),
        states_after_write(states, job, Err(reason)) == states,
{
}

/// The end of an upload is answered with a verdict that is good if and only if
/// the file hashes to what was announced, and the upload is done if and only if
/// the verdict is good. A file that could not be hashed is answered with the
/// reason.
pub proof fn lemma_answer_to_checking(
    states: States,
    job: CheckFileView,
    actual: Seq<u8>,
    reason: Seq<char>,
)
    ensures
        check_answer(job, Ok(actual)) matches Ok(ServerRespEventView::UploadDoneACK(ack)) && {
            &&& ack.ok <==> actual == job.expected
            &&& ack.file_id == job.file_id
            &&& actual == job.expected ==> ack.msg == "upload success for: "@ + job.name
            &&& actual != job.expected ==> ack.msg == "file is broken, pls retry"@
        },
        actual == job.expected ==> states_after_check(states, job, Ok(actual)) == states.insert(
            id_key(job.file_id),
            FileUploadState::Done,
        ),
        actual != job.expected ==> states_after_check(states, job, Ok(actual)) == states,
        check_answer(job, Err(reason)) == Err::<ServerRespEventView, _>(
            SyncErrorView::IOError(reason),
        ),
        states_after_check(states, job, Err(reason)) == states,
{
}

/// What is sent back is the frame of the answer, or that of a report of the
/// error.
pub proof fn lemma_replies_are_frames(
    init_ack: UploadInitACKView,
    chunk_ack: ChunkACKView,
    done_ack: UploadDoneACKView,
    e: SyncErrorView,
)
    ensures
        reply_frame(Ok(ServerRespEventView::UploadInitACK(init_ack))) == upload_init_ack_frame(
            init_ack,
        ),
        reply_frame(Ok(ServerRespEventView::ChunkACK(chunk_ack))) == chunk_ack_frame(chunk_ack),
        reply_frame(Ok(ServerRespEventView::UploadDoneACK(done_ack))) == upload_done_ack_frame(
            done_ack,
        ),
        reply_frame(Err(e)) == error_frame(error_report(e)),
        answer_frame(ServerRespEventView::UploadInitACK(init_ack)) == upload_init_ack_frame(
            init_ack,
        ),
        answer_frame(ServerRespEventView::ChunkACK(chunk_ack)) == chunk_ack_frame(chunk_ack),
        answer_frame(ServerRespEventView::UploadDoneACK(done_ack)) == upload_done_ack_frame(
            done_ack,
        ),
{
}

} // verus!
