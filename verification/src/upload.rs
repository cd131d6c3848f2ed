//! What holds of an upload as a whole, from the client's file to the server's
//! verdict on it.

use crate::chunking::{
    are_pieces, chunk_events, cover, disjoint, fixed_blocks, lemma_chunks_in_any_order,
    lemma_disjoint_writes_commute, lemma_fixed_blocks_whole, lemma_pieces_make_the_whole,
    lemma_repeated_write_changes_nothing, write_all, write_at,
};
use crate::digest::blake3_digest;
use crate::errors::{
    error_report, SyncErrorView, BADCHUNK_ERRCODE, DUPLICATE_FILE_ERRCODE, FILESIZE_EXCEED_ERRCODE,
    IO_ERRCODE, NO_CHUNKS_CODE, SERVER_NO_RESP_CODE, UNKNOWN_EVENT_CODE, UPLOAD_NOT_INIT_CODE,
};
use crate::ids::id_key;
use crate::paths::{lemma_file_name_is_one_part, separator};
use crate::protocol::{
    announcement, chunk_frame, lemma_chunk_ack_round_trip, lemma_chunk_event_round_trip,
    lemma_error_round_trip, lemma_upload_done_ack_round_trip, lemma_upload_done_round_trip,
    lemma_upload_init_ack_round_trip, lemma_upload_init_round_trip, parse_error, upload_done_frame,
    upload_init_frame, upload_name, ChunkACKView, ChunkEventView, FileMetaView, FileUploadState,
    UploadDoneACKView, UploadDoneEventView, UploadInitACKView, UploadInitEventView,
};
use crate::registry::{
    announced, lemma_announcements_keep_order, lemma_files_stay_registered,
    lemma_registered_places_differ, upload_path, well_registered, CheckFileView, CreateFileView,
    Files, WriteChunkView,
};
use crate::tcp::{
    chunk_frames, files_after_frame, frames_written, lemma_done_comes_last, on_frame,
    states_after_frame, upload_events, StreamActionView, WriterEventView,
};
use crate::transport::client::{read_chunk_reply, read_done_reply, read_init_reply, ServerReplyView};
use crate::transport::server::{
    answer_frame, check_answer, create_answer, files_after_request, on_request, reply_frame,
    states_after_check, states_after_create, states_after_write, verdict, write_answer,
    ServerActionView, ServerRespEventView, States,
};
use vstd::prelude::*;

verus! {

/// The files on a server's disk, by their paths.
pub type Disk = Map<Seq<char>, Seq<u8>>;

/// A server with its disk.
#[verifier::ext_equal]
pub struct ServerView {
    pub files: Files,
    pub states: States,
    pub disk: Disk,
}

/// The contents of the file at `path`. One that is not there has none.
pub open spec fn file_at(disk: Disk, path: Seq<char>) -> Seq<u8> {
    if disk.contains_key(path) {
        disk[path]
    } else {
        Seq::empty()
    }
}

/// A file that is made `size` bytes long. What it lacks is filled with zeros.
pub open spec fn resized(file: Seq<u8>, size: nat) -> Seq<u8> {
    Seq::new(
        size,
        |p: int|
            if p < file.len() {
                file[p]
            } else {
                0u8
            },
    )
}

/// The disk once a file was created.
pub open spec fn disk_with_file(disk: Disk, job: CreateFileView) -> Disk {
    disk.insert(job.path, resized(file_at(disk, job.path), job.size as nat))
}

/// The disk once a chunk was written.
pub open spec fn disk_with_chunk(disk: Disk, job: WriteChunkView) -> Disk {
    disk.insert(job.path, write_at(file_at(disk, job.path), job.offset as nat, job.data))
}

/// The disk once what a request asks for was done.
pub open spec fn disk_after(disk: Disk, action: ServerActionView) -> Disk {
    match action {
        ServerActionView::Create(job) => disk_with_file(disk, job),
        ServerActionView::Write(job) => disk_with_chunk(disk, job),
        ServerActionView::Check(_) => disk,
    }
}

/// The answer to the request in `frame`, where all work on files succeeds.
pub open spec fn answer_to(server: ServerView, frame: Seq<u8>) -> Result<
    ServerRespEventView,
    SyncErrorView,
> {
    match on_request(server.files, frame) {
        Err(e) => Err(e),
        Ok(ServerActionView::Create(job)) => create_answer(job, Ok(())),
        Ok(ServerActionView::Write(job)) => write_answer(job, Ok(())),
        Ok(ServerActionView::Check(job)) => check_answer(
            job,
            Ok(blake3_digest(file_at(server.disk, job.path))),
        ),
    }
}

/// The server once it has handled the request in `frame`, where all work on
/// files succeeds.
pub open spec fn handled(server: ServerView, frame: Seq<u8>) -> ServerView {
    ServerView {
        files: files_after_request(server.files, frame),
        states: match on_request(server.files, frame) {
            Err(_) => server.states,
            Ok(ServerActionView::Create(job)) => states_after_create(server.states, job, Ok(())),
            Ok(ServerActionView::Write(job)) => states_after_write(server.states, job, Ok(())),
            Ok(ServerActionView::Check(job)) => states_after_check(
                server.states,
                job,
                Ok(blake3_digest(file_at(server.disk, job.path))),
            ),
        },
        disk: match on_request(server.files, frame) {
            Err(_) => server.disk,
            Ok(action) => disk_after(server.disk, action),
        },
    }
}

/// The server once it has handled these requests, one after the other.
pub open spec fn handled_all(server: ServerView, frames: Seq<Seq<u8>>) -> ServerView
    decreases frames.len(),
{
    if frames.len() == 0 {
        server
    } else {
        handled(handled_all(server, frames.drop_last()), frames.last())
    }
}

/// The answers to these requests, in the order of the requests.
pub open spec fn answers_to(server: ServerView, frames: Seq<Seq<u8>>) -> Seq<
    Result<ServerRespEventView, SyncErrorView>,
>
    decreases frames.len(),
{
    if frames.len() == 0 {
        Seq::empty()
    } else {
        let front = frames.drop_last();
        answers_to(server, front).push(answer_to(handled_all(server, front), frames.last()))
    }
}

/// The frames of an upload: the file is announced, its chunks follow, and then
/// its end.
pub open spec fn upload_frames(ev: UploadInitEventView, chunks: Seq<ChunkEventView>) -> Seq<
    Seq<u8>,
> {
    seq![upload_init_frame(ev)] + chunk_frames(chunks) + seq![
        upload_done_frame(UploadDoneEventView { file_id: ev.file_id }),
    ]
}

/// The answers to an upload that goes well: the file is taken from its start,
/// each chunk is confirmed, and the verdict is good.
pub open spec fn good_answers(ev: UploadInitEventView, chunks: Seq<ChunkEventView>) -> Seq<
    Result<ServerRespEventView, SyncErrorView>,
> {
    seq![init_answer(ev)] + chunks.map_values(|chunk: ChunkEventView| chunk_answer(chunk)) + seq![
        Ok(
            ServerRespEventView::UploadDoneACK(
                UploadDoneACKView {
                    file_id: ev.file_id,
                    ok: true,
                    msg: "upload success for: "@ + ev.name,
                },
            ),
        ),
    ]
}

/// The answer to an announced file that is taken.
pub open spec fn init_answer(ev: UploadInitEventView) -> Result<
    ServerRespEventView,
    SyncErrorView,
> {
    Ok(ServerRespEventView::UploadInitACK(UploadInitACKView { file_id: ev.file_id, offset: 0 }))
}

/// The answer to a chunk that is taken.
pub open spec fn chunk_answer(chunk: ChunkEventView) -> Result<ServerRespEventView, SyncErrorView> {
    Ok(
        ServerRespEventView::ChunkACK(
            ChunkACKView { file_id: chunk.file_id, offset: chunk.offset },
        ),
    )
}

/// Whether a file can be announced: the identifier and the hash are as long as
/// they have to be, and there is a name.
pub open spec fn can_be_announced(ev: UploadInitEventView) -> bool {
    ev.file_id.len() == 16 && ev.hash.len() == 32 && ev.name.len() > 0
}

proof fn lemma_upload_so_far(
    server: ServerView,
    ev: UploadInitEventView,
    chunks: Seq<ChunkEventView>,
)
    requires
        can_be_announced(ev),
        !server.files.contains_key(id_key(ev.file_id)),
        forall|k: int| 0 <= k < chunks.len() ==> (#[trigger] chunks[k]).file_id == ev.file_id,
    ensures
        ({
            let frames = upload_frames(ev, chunks).drop_last();
            let place = upload_path(ev.file_id, ev.name);
            let created = resized(file_at(server.disk, place), ev.size as nat);
            let after = handled_all(server, frames);
            &&& after.files == server.files.insert(id_key(ev.file_id), announced(ev))
            &&& after.disk == server.disk.insert(place, write_all(created, chunks))
            &&& after.states.remove(id_key(ev.file_id)) == server.states.remove(id_key(ev.file_id))
            &&& answers_to(server, frames) == good_answers(ev, chunks).drop_last()
        }),
    decreases chunks.len(),
{
    let frames = upload_frames(ev, chunks).drop_last();
    let key = id_key(ev.file_id);
    let place = upload_path(ev.file_id, ev.name);
    let created = resized(file_at(server.disk, place), ev.size as nat);
    let after = handled_all(server, frames);
    if chunks.len() == 0 {
        reveal_with_fuel(handled_all, 2);
        reveal_with_fuel(answers_to, 2);
        lemma_upload_init_round_trip(ev);
        assert(frames =~= seq![upload_init_frame(ev)]);
        assert(frames.drop_last() =~= Seq::<Seq<u8>>::empty());
        assert(after == handled(server, upload_init_frame(ev)));
    } else {
        let front = chunks.drop_last();
        let chunk = chunks.last();
        assert forall|k: int| 0 <= k < front.len() implies (#[trigger] front[k]).file_id
            == ev.file_id by {
            assert(front[k] == chunks[k]);
        }
        lemma_upload_so_far(server, ev, front);
        assert(chunks[chunks.len() - 1].file_id == ev.file_id);
        lemma_chunk_event_round_trip(chunk);
        assert(frames.drop_last() =~= upload_frames(ev, front).drop_last());
        assert(frames.last() == chunk_frame(chunk));
        let before = handled_all(server, upload_frames(ev, front).drop_last());
        assert(after == handled(before, chunk_frame(chunk)));
    }
    assert(after.states.remove(key) =~= server.states.remove(key));
    assert(after.disk =~= server.disk.insert(place, write_all(created, chunks)));
    assert(answers_to(server, frames) =~= good_answers(ev, chunks).drop_last());
}

/// An upload goes well, whatever the order in which the chunks come.
///
/// A file that the server does not know yet is announced under any name but the
/// empty one, its chunks follow, with every byte of it in at least one of them,
/// and then its end; all work on files succeeds. Then the file is taken from its
/// start, each chunk is confirmed in the order in which they came, and the
/// verdict is good. The file is at its place with the contents that were sent,
/// its upload is done, and nothing else on the server has changed.
pub proof fn lemma_upload_goes_well(
    server: ServerView,
    ev: UploadInitEventView,
    contents: Seq<u8>,
    chunks: Seq<ChunkEventView>,
)
    requires
        can_be_announced(ev),
        ev.size == contents.len(),
        ev.hash == blake3_digest(contents),
        !server.files.contains_key(id_key(ev.file_id)),
        forall|k: int| 0 <= k < chunks.len() ==> (#[trigger] chunks[k]).file_id == ev.file_id,
        are_pieces(contents, chunks),
        cover(contents.len(), chunks),
    ensures
        ({
            let key = id_key(ev.file_id);
            let place = upload_path(ev.file_id, ev.name);
            let after = handled_all(server, upload_frames(ev, chunks));
            &&& answers_to(server, upload_frames(ev, chunks)) == good_answers(ev, chunks)
            &&& after.states.contains_key(key)
            &&& after.states[key] == FileUploadState::Done
            &&& after.states.remove(key) == server.states.remove(key)
            &&& after.files == server.files.insert(key, announced(ev))
            &&& after.disk == server.disk.insert(place, contents)
        }),
{
    let frames = upload_frames(ev, chunks);
    let done = UploadDoneEventView { file_id: ev.file_id };
    let key = id_key(ev.file_id);
    let place = upload_path(ev.file_id, ev.name);
    let created = resized(file_at(server.disk, place), ev.size as nat);
    lemma_upload_so_far(server, ev, chunks);
    lemma_pieces_make_the_whole(created, contents, chunks);
    lemma_upload_done_round_trip(done);
    let before = handled_all(server, frames.drop_last());
    assert(frames.last() == upload_done_frame(done));
    assert(file_at(before.disk, place) == contents);
    let after = handled_all(server, frames);
    assert(after == handled(before, upload_done_frame(done)));
    assert(after.states.remove(key) =~= server.states.remove(key));
    assert(answers_to(server, frames) =~= good_answers(ev, chunks));
}

/// The name of a path is not empty and holds no separator, so every file can be
/// announced under it.
pub proof fn lemma_path_names_are_plain(path: Seq<char>)
    ensures
        upload_name(path).len() > 0,
        !upload_name(path).contains(separator()),
{
    lemma_file_name_is_one_part(path);
    reveal_strlit("unknown");
    let name = upload_name(path);
    if name.contains(separator()) {
        let i = choose|i: int| 0 <= i < name.len() && name[i] == separator();
        assert(name[i] == separator());
    }
}

/// What a client reads of a file at some path, cuts into chunks of one size and
/// announces arrives at a server that does not know the file yet, in whatever
/// order and however often the chunks come.
pub proof fn lemma_client_upload_goes_well(
    server: ServerView,
    path: Seq<char>,
    meta: FileMetaView,
    contents: Seq<u8>,
    size: nat,
    chunks: Seq<ChunkEventView>,
)
    requires
        size > 0,
        meta.file_id.len() == 16,
        meta.file_name == upload_name(path),
        meta.total_size == contents.len(),
        meta.hash == Some(blake3_digest(contents)),
        blake3_digest(contents).len() == 32,
        !server.files.contains_key(id_key(meta.file_id)),
        forall|k: int|
            0 <= k < chunks.len() ==> chunk_events(
                meta.file_id,
                fixed_blocks(contents, size),
            ).contains(#[trigger] chunks[k]),
        forall|i: int|
            0 <= i < fixed_blocks(contents, size).len() ==> chunks.contains(
                #[trigger] chunk_events(meta.file_id, fixed_blocks(contents, size))[i],
            ),
    ensures
        ({
            let ev = announcement(meta);
            let after = handled_all(server, upload_frames(ev, chunks));
            &&& answers_to(server, upload_frames(ev, chunks)) == good_answers(ev, chunks)
            &&& after.states[id_key(meta.file_id)] == FileUploadState::Done
            &&& after.disk == server.disk.insert(
                upload_path(meta.file_id, meta.file_name),
                contents,
            )
        }),
{
    lemma_client_chunks_are_pieces(path, meta, contents, size, chunks);
    lemma_upload_goes_well(server, announcement(meta), contents, chunks);
}

proof fn lemma_client_chunks_are_pieces(
    path: Seq<char>,
    meta: FileMetaView,
    contents: Seq<u8>,
    size: nat,
    chunks: Seq<ChunkEventView>,
)
    requires
        size > 0,
        meta.file_name == upload_name(path),
        contents.len() <= u64::MAX,
        forall|k: int|
            0 <= k < chunks.len() ==> chunk_events(
                meta.file_id,
                fixed_blocks(contents, size),
            ).contains(#[trigger] chunks[k]),
        forall|i: int|
            0 <= i < fixed_blocks(contents, size).len() ==> chunks.contains(
                #[trigger] chunk_events(meta.file_id, fixed_blocks(contents, size))[i],
            ),
    ensures
        meta.file_name.len() > 0,
        are_pieces(contents, chunks),
        cover(contents.len(), chunks),
        forall|k: int| 0 <= k < chunks.len() ==> (#[trigger] chunks[k]).file_id == meta.file_id,
{
    let blocks = fixed_blocks(contents, size);
    let events = chunk_events(meta.file_id, blocks);
    lemma_path_names_are_plain(path);
    lemma_fixed_blocks_whole(contents, size);
    lemma_chunks_in_any_order(meta.file_id, blocks, chunks);
    assert forall|k: int| 0 <= k < chunks.len() implies (#[trigger] chunks[k]).file_id
        == meta.file_id by {
        assert(events.contains(chunks[k]));
    }
}

/// The server without answers once it has taken `frame`, where all work on files
/// succeeds.
pub open spec fn taken(server: ServerView, frame: Seq<u8>) -> ServerView {
    let states = states_after_frame(server.states, frame);
    let files = files_after_frame(server.files, frame);
    match on_frame(server.files, frame) {
        Ok(StreamActionView::Create(job)) => ServerView {
            files,
            states: states_after_create(states, job, Ok(())),
            disk: disk_with_file(server.disk, job),
        },
        Ok(StreamActionView::Write(job)) => ServerView {
            files,
            states: states_after_write(states, job, Ok(())),
            disk: disk_with_chunk(server.disk, job),
        },
        _ => ServerView { files, states, disk: server.disk },
    }
}

/// The server without answers once it has taken these frames, one after the
/// other.
pub open spec fn taken_all(server: ServerView, frames: Seq<Seq<u8>>) -> ServerView
    decreases frames.len(),
{
    if frames.len() == 0 {
        server
    } else {
        taken(taken_all(server, frames.drop_last()), frames.last())
    }
}

/// Whether the server without answers refuses none of these frames.
pub open spec fn all_taken(server: ServerView, frames: Seq<Seq<u8>>) -> bool
    decreases frames.len(),
{
    frames.len() > 0 ==> {
        &&& all_taken(server, frames.drop_last())
        &&& on_frame(taken_all(server, frames.drop_last()).files, frames.last()) is Ok
    }
}

proof fn lemma_silent_upload_so_far(
    server: ServerView,
    ev: UploadInitEventView,
    chunks: Seq<ChunkEventView>,
)
    requires
        can_be_announced(ev),
        !server.files.contains_key(id_key(ev.file_id)),
        forall|k: int| 0 <= k < chunks.len() ==> (#[trigger] chunks[k]).file_id == ev.file_id,
    ensures
        ({
            let frames = upload_frames(ev, chunks).drop_last();
            let place = upload_path(ev.file_id, ev.name);
            let created = resized(file_at(server.disk, place), ev.size as nat);
            let after = taken_all(server, frames);
            &&& all_taken(server, frames)
            &&& after.files == server.files.insert(id_key(ev.file_id), announced(ev))
            &&& after.disk == server.disk.insert(place, write_all(created, chunks))
            &&& after.states.remove(id_key(ev.file_id)) == server.states.remove(id_key(ev.file_id))
        }),
    decreases chunks.len(),
{
    let frames = upload_frames(ev, chunks).drop_last();
    let key = id_key(ev.file_id);
    let place = upload_path(ev.file_id, ev.name);
    let created = resized(file_at(server.disk, place), ev.size as nat);
    let after = taken_all(server, frames);
    if chunks.len() == 0 {
        reveal_with_fuel(taken_all, 2);
        reveal_with_fuel(all_taken, 2);
        lemma_upload_init_round_trip(ev);
        assert(frames =~= seq![upload_init_frame(ev)]);
        assert(frames.drop_last() =~= Seq::<Seq<u8>>::empty());
        assert(after == taken(server, upload_init_frame(ev)));
    } else {
        let front = chunks.drop_last();
        let chunk = chunks.last();
        assert forall|k: int| 0 <= k < front.len() implies (#[trigger] front[k]).file_id
            == ev.file_id by {
            assert(front[k] == chunks[k]);
        }
        lemma_silent_upload_so_far(server, ev, front);
        assert(chunks[chunks.len() - 1].file_id == ev.file_id);
        lemma_chunk_event_round_trip(chunk);
        assert(frames.drop_last() =~= upload_frames(ev, front).drop_last());
        assert(frames.last() == chunk_frame(chunk));
        let before = taken_all(server, upload_frames(ev, front).drop_last());
        assert(after == taken(before, chunk_frame(chunk)));
    }
    assert(after.states.remove(key) =~= server.states.remove(key));
    assert(after.disk =~= server.disk.insert(place, write_all(created, chunks)));
}

/// An upload without answers goes well too, whatever the order in which the
/// chunks come.
///
/// A file that the server does not know yet is announced under any name but the
/// empty one, its chunks follow, with every byte of it in at least one of them,
/// and then its end; all work on files succeeds. Then no frame is refused, the
/// file is at its place with the contents that were sent, its upload is done, and
/// nothing else on the server has changed.
pub proof fn lemma_silent_upload_goes_well(
    server: ServerView,
    ev: UploadInitEventView,
    contents: Seq<u8>,
    chunks: Seq<ChunkEventView>,
)
    requires
        can_be_announced(ev),
        ev.size == contents.len(),
        !server.files.contains_key(id_key(ev.file_id)),
        forall|k: int| 0 <= k < chunks.len() ==> (#[trigger] chunks[k]).file_id == ev.file_id,
        are_pieces(contents, chunks),
        cover(contents.len(), chunks),
    ensures
        ({
            let key = id_key(ev.file_id);
            let place = upload_path(ev.file_id, ev.name);
            let after = taken_all(server, upload_frames(ev, chunks));
            &&& all_taken(server, upload_frames(ev, chunks))
            &&& after.states.contains_key(key)
            &&& after.states[key] == FileUploadState::Done
            &&& after.states.remove(key) == server.states.remove(key)
            &&& after.files == server.files.insert(key, announced(ev))
            &&& after.disk == server.disk.insert(place, contents)
        }),
{
    let frames = upload_frames(ev, chunks);
    let done = UploadDoneEventView { file_id: ev.file_id };
    let key = id_key(ev.file_id);
    let place = upload_path(ev.file_id, ev.name);
    let created = resized(file_at(server.disk, place), ev.size as nat);
    lemma_silent_upload_so_far(server, ev, chunks);
    lemma_pieces_make_the_whole(created, contents, chunks);
    lemma_upload_done_round_trip(done);
    let before = taken_all(server, frames.drop_last());
    assert(frames.last() == upload_done_frame(done));
    let after = taken_all(server, frames);
    assert(after == taken(before, upload_done_frame(done)));
    assert(after.states.remove(key) =~= server.states.remove(key));
}

/// What a client reads of a file at some path, cuts into chunks of one size and
/// hands to its writer, in whatever order the tasks do so, arrives at a server
/// without answers that does not know the file yet.
pub proof fn lemma_silent_client_upload_goes_well(
    server: ServerView,
    path: Seq<char>,
    meta: FileMetaView,
    contents: Seq<u8>,
    size: nat,
    chunks: Seq<ChunkEventView>,
)
    requires
        size > 0,
        meta.file_id.len() == 16,
        meta.file_name == upload_name(path),
        meta.total_size == contents.len(),
        meta.hash == Some(blake3_digest(contents)),
        blake3_digest(contents).len() == 32,
        !server.files.contains_key(id_key(meta.file_id)),
        forall|k: int|
            0 <= k < chunks.len() ==> chunk_events(
                meta.file_id,
                fixed_blocks(contents, size),
            ).contains(#[trigger] chunks[k]),
        forall|i: int|
            0 <= i < fixed_blocks(contents, size).len() ==> chunks.contains(
                #[trigger] chunk_events(meta.file_id, fixed_blocks(contents, size))[i],
            ),
    ensures
        ({
            let events = upload_events(chunk_frames(chunks)).push(WriterEventView::Drained);
            let written = frames_written(
                events,
                upload_init_frame(announcement(meta)),
                upload_done_frame(UploadDoneEventView { file_id: meta.file_id }),
            );
            let after = taken_all(server, written);
            &&& written == upload_frames(announcement(meta), chunks)
            &&& all_taken(server, written)
            &&& after.states[id_key(meta.file_id)] == FileUploadState::Done
            &&& after.disk == server.disk.insert(
                upload_path(meta.file_id, meta.file_name),
                contents,
            )
        }),
{
    let ev = announcement(meta);
    lemma_done_comes_last(
        chunk_frames(chunks),
        upload_init_frame(ev),
        upload_done_frame(UploadDoneEventView { file_id: meta.file_id }),
    );
    lemma_client_chunks_are_pieces(path, meta, contents, size, chunks);
    lemma_silent_upload_goes_well(server, ev, contents, chunks);
}

/// Two chunks of a file that have no byte in common may be handled in either
/// order: the server ends up the same, its disk included.
pub proof fn lemma_disjoint_chunks_commute(
    server: ServerView,
    a: ChunkEventView,
    b: ChunkEventView,
)
    requires
        a.file_id.len() == 16,
        b.file_id == a.file_id,
        server.files.contains_key(id_key(a.file_id)),
        disjoint(a.offset as nat, a.data.len(), b.offset as nat, b.data.len()),
    ensures
        handled(handled(server, chunk_frame(a)), chunk_frame(b)) == handled(
            handled(server, chunk_frame(b)),
            chunk_frame(a),
        ),
{
    lemma_chunk_event_round_trip(a);
    lemma_chunk_event_round_trip(b);
    let path = server.files[id_key(a.file_id)].meta.file_path;
    lemma_disjoint_writes_commute(
        file_at(server.disk, path),
        a.offset as nat,
        a.data,
        b.offset as nat,
        b.data,
    );
    assert(handled(handled(server, chunk_frame(a)), chunk_frame(b)) =~= handled(
        handled(server, chunk_frame(b)),
        chunk_frame(a),
    ));
}

/// A chunk that is handled again changes nothing.
pub proof fn lemma_repeated_chunk_changes_nothing(server: ServerView, chunk: ChunkEventView)
    requires
        chunk.file_id.len() == 16,
        server.files.contains_key(id_key(chunk.file_id)),
    ensures
        handled(handled(server, chunk_frame(chunk)), chunk_frame(chunk)) == handled(
            server,
            chunk_frame(chunk),
        ),
{
    lemma_chunk_event_round_trip(chunk);
    let path = server.files[id_key(chunk.file_id)].meta.file_path;
    lemma_repeated_write_changes_nothing(
        file_at(server.disk, path),
        chunk.offset as nat,
        chunk.data,
    );
    assert(handled(handled(server, chunk_frame(chunk)), chunk_frame(chunk)) =~= handled(
        server,
        chunk_frame(chunk),
    ));
}

/// The same holds of the server without answers: disjoint chunks may be taken in
/// either order, and a chunk that is taken again changes nothing.
pub proof fn lemma_silent_chunks_commute(
    server: ServerView,
    a: ChunkEventView,
    b: ChunkEventView,
)
    requires
        a.file_id.len() == 16,
        b.file_id == a.file_id,
        server.files.contains_key(id_key(a.file_id)),
    ensures
        disjoint(a.offset as nat, a.data.len(), b.offset as nat, b.data.len()) ==> taken(
            taken(server, chunk_frame(a)),
            chunk_frame(b),
        ) == taken(taken(server, chunk_frame(b)), chunk_frame(a)),
        taken(taken(server, chunk_frame(a)), chunk_frame(a)) == taken(server, chunk_frame(a)),
{
    lemma_chunk_event_round_trip(a);
    lemma_chunk_event_round_trip(b);
    let file = file_at(server.disk, server.files[id_key(a.file_id)].meta.file_path);
    if disjoint(a.offset as nat, a.data.len(), b.offset as nat, b.data.len()) {
        lemma_disjoint_writes_commute(file, a.offset as nat, a.data, b.offset as nat, b.data);
        assert(taken(taken(server, chunk_frame(a)), chunk_frame(b)) =~= taken(
            taken(server, chunk_frame(b)),
            chunk_frame(a),
        ));
    }
    lemma_repeated_write_changes_nothing(file, a.offset as nat, a.data);
    assert(taken(taken(server, chunk_frame(a)), chunk_frame(a)) =~= taken(server, chunk_frame(a)));
}

/// A chunk changes no file but its own: not at any other path, and so not that
/// of any other registered file.
pub proof fn lemma_chunk_changes_its_file_alone(server: ServerView, chunk: ChunkEventView)
    requires
        chunk.file_id.len() == 16,
        well_registered(server.files),
        server.files.contains_key(id_key(chunk.file_id)),
    ensures
        ({
            let own = id_key(chunk.file_id);
            let after = handled(server, chunk_frame(chunk));
            &&& forall|path: Seq<char>|
                path != server.files[own].meta.file_path ==> #[trigger] file_at(after.disk, path)
                    == file_at(server.disk, path)
            &&& forall|key: u128|
                key != own && #[trigger] server.files.contains_key(key) ==> file_at(
                    after.disk,
                    server.files[key].meta.file_path,
                ) == file_at(server.disk, server.files[key].meta.file_path)
        }),
{
    lemma_chunk_event_round_trip(chunk);
    let own = id_key(chunk.file_id);
    let after = handled(server, chunk_frame(chunk));
    assert forall|key: u128|
        key != own && #[trigger] server.files.contains_key(key) implies file_at(
        after.disk,
        server.files[key].meta.file_path,
    ) == file_at(server.disk, server.files[key].meta.file_path) by {
        lemma_registered_places_differ(server.files, own, key);
    }
}

/// The server approves of a file exactly if its contents have the hash that was
/// announced, and says so in its verdict.
pub proof fn lemma_mismatch_is_rejected(job: CheckFileView, contents: Seq<u8>)
    ensures
        verdict(job, blake3_digest(contents)).ok <==> blake3_digest(contents) == job.expected,
        verdict(job, blake3_digest(contents)).file_id == job.file_id,
        blake3_digest(contents) != job.expected ==> verdict(job, blake3_digest(contents)).msg
            == "file is broken, pls retry"@,
{
}

/// A broken upload is rejected, whatever was sent before: where the bytes on disk
/// do not hash to what was announced, the answer to the end of the upload is a bad
/// verdict, and the server is left as it was, so that the upload is not done.
/// Where they do, the verdict is good and the upload is done.
pub proof fn lemma_broken_upload_is_rejected(server: ServerView, file_id: Seq<u8>)
    requires
        file_id.len() == 16,
        well_registered(server.files),
        server.files.contains_key(id_key(file_id)),
    ensures
        ({
            let key = id_key(file_id);
            let file = server.files[key];
            let done = upload_done_frame(UploadDoneEventView { file_id });
            let announced_hash = file.meta.hash->0;
            let actual = blake3_digest(file_at(server.disk, file.meta.file_path));
            &&& answer_to(server, done) matches Ok(ServerRespEventView::UploadDoneACK(ack))
            &&& ack.ok <==> actual == announced_hash
            &&& ack.file_id == file_id
            &&& actual != announced_hash ==> ack.msg == "file is broken, pls retry"@
            &&& actual == announced_hash ==> ack.msg == "upload success for: "@ + file.name
            &&& actual != announced_hash ==> handled(server, done) == server
            &&& actual == announced_hash ==> handled(server, done).states == server.states.insert(
                key,
                FileUploadState::Done,
            )
        }),
{
    let done = UploadDoneEventView { file_id };
    lemma_upload_done_round_trip(done);
    assert(upload_done_frame(done)[0] == 0x05);
}

/// What the server answers is what the client reads.
pub proof fn lemma_answers_reach_client(
    init_ack: UploadInitACKView,
    chunk_ack: ChunkACKView,
    done_ack: UploadDoneACKView,
)
    requires
        init_ack.file_id.len() == 16,
        chunk_ack.file_id.len() == 16,
        done_ack.file_id.len() == 16,
    ensures
        read_init_reply(
            ServerReplyView::Frame(answer_frame(ServerRespEventView::UploadInitACK(init_ack))),
        ) == Ok::<_, SyncErrorView>(init_ack),
        read_chunk_reply(
            ServerReplyView::Frame(answer_frame(ServerRespEventView::ChunkACK(chunk_ack))),
        ) == Ok::<_, SyncErrorView>(chunk_ack),
        read_done_reply(
            ServerReplyView::Frame(answer_frame(ServerRespEventView::UploadDoneACK(done_ack))),
        ) == Ok::<_, SyncErrorView>(done_ack),
{
    lemma_upload_init_ack_round_trip(init_ack);
    lemma_chunk_ack_round_trip(chunk_ack);
    lemma_upload_done_ack_round_trip(done_ack);
}

/// The answer to a chunk confirms that chunk: the client reads back the
/// identifier and the offset that it sent.
pub proof fn lemma_chunks_are_confirmed(files: Files, chunk: ChunkEventView)
    requires
        chunk.file_id.len() == 16,
        files.contains_key(id_key(chunk.file_id)),
    ensures
        on_request(files, chunk_frame(chunk)) matches Ok(ServerActionView::Write(job)) && {
            &&& job.offset == chunk.offset
            &&& job.data == chunk.data
            &&& read_chunk_reply(
                ServerReplyView::Frame(
                    answer_frame(
                        ServerRespEventView::ChunkACK(
                            ChunkACKView { file_id: job.file_id, offset: job.offset },
                        ),
                    ),
                ),
            ) == Ok::<_, SyncErrorView>(
                ChunkACKView { file_id: chunk.file_id, offset: chunk.offset },
            )
        },
{
    lemma_chunk_event_round_trip(chunk);
    lemma_chunk_ack_round_trip(ChunkACKView { file_id: chunk.file_id, offset: chunk.offset });
}

/// The registered files once these requests have been taken.
pub open spec fn files_after_requests(files: Files, requests: Seq<Seq<u8>>) -> Files
    decreases requests.len(),
{
    if requests.len() == 0 {
        files
    } else {
        files_after_request(files_after_requests(files, requests.drop_last()), requests.last())
    }
}

/// Whatever a server is sent, the files that it knows of stay as they were
/// announced, and in order.
pub proof fn lemma_registration_is_permanent(files: Files, requests: Seq<Seq<u8>>)
    requires
        well_registered(files),
    ensures
        well_registered(files_after_requests(files, requests)),
        forall|key: u128| #[trigger]
            files.contains_key(key) ==> files_after_requests(files, requests).contains_key(key)
                && files_after_requests(files, requests)[key] == files[key],
    decreases requests.len(),
{
    if requests.len() > 0 {
        let before = files_after_requests(files, requests.drop_last());
        let frame = requests.last();
        lemma_registration_is_permanent(files, requests.drop_last());
        lemma_announcements_keep_order(before, frame.skip(1));
        assert forall|key: u128| #[trigger] files.contains_key(key) implies files_after_request(
            before,
            frame,
        ).contains_key(key) && files_after_request(before, frame)[key] == files[key] by {
            lemma_files_stay_registered(before, frame.skip(1), key);
        }
    }
}

/// A refused request is answered with an error frame that holds the code and
/// the text of the error, and no step of the client takes that frame for the
/// answer it waits for.
pub proof fn lemma_refusals_are_reported(e: SyncErrorView)
    ensures
        ({
            let frame = reply_frame(Err::<ServerRespEventView, _>(e));
            let reply = ServerReplyView::Frame(frame);
            &&& frame.len() > 0
            &&& frame[0] == 0xFF
            &&& parse_error(frame.skip(1)) == Ok::<_, SyncErrorView>(error_report(e))
            &&& read_init_reply(reply) == Err::<UploadInitACKView, _>(
                SyncErrorView::BadChunkData("expect upload init ack"@),
            )
            &&& read_chunk_reply(reply) == Err::<ChunkACKView, _>(
                SyncErrorView::BadChunkData("expect chunk ack"@),
            )
            &&& read_done_reply(reply) == Err::<UploadDoneACKView, _>(
                SyncErrorView::BadChunkData("expect upload done ack"@),
            )
        }),
{
    lemma_error_round_trip(error_report(e));
}

/// The code in a report tells the kind of the error. Only the two kinds of I/O
/// errors share one.
pub proof fn lemma_codes_tell_errors_apart(e: SyncErrorView)
    ensures
        error_report(e).code == IO_ERRCODE <==> e is IOError || e is StdIOError,
        error_report(e).code == FILESIZE_EXCEED_ERRCODE <==> e is FileSizeTooLarge,
        error_report(e).code == BADCHUNK_ERRCODE <==> e is BadChunkData,
        error_report(e).code == DUPLICATE_FILE_ERRCODE <==> e is DuplicateFile,
        error_report(e).code == UPLOAD_NOT_INIT_CODE <==> e is FileUploadNotInit,
        error_report(e).code == NO_CHUNKS_CODE <==> e is NoChunks,
        error_report(e).code == SERVER_NO_RESP_CODE <==> e is ServerNoResp,
        error_report(e).code == UNKNOWN_EVENT_CODE <==> e is UnknownEvent,
{
}

} // verus!
