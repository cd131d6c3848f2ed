//! The files that a server knows of, and how far the upload of each has come.

use crate::config::SERVER_FOLDER;
use crate::digest::FileHash;
use crate::errors::{SyncError, SyncErrorView};
use crate::ids::{
    file_key, half_byte, hex_digit, hyphenated, hyphens_before, id_key, id_to_string, is_hyphen,
    lemma_hyphenated_injective, lemma_id_key_injective, FileId,
};
use crate::paths::{join, path_join, separator};
use crate::protocol::{
    decode_chunk_event, decode_upload_init, lemma_upload_init_is_read_by_layout, outcome,
    parse_chunk_event, parse_upload_init,
    upload_name, FileMeta, FileMetaView, FileUploadState, UploadInitEventView,
};
use crate::text::joined;
use crate::wire::{buffer_of, bytes_of};
use bytes::{Bytes, BytesMut};
use std::collections::HashMap;
use vstd::prelude::*;
use vstd::string::*;

verus! {

/// A file to be created, and made `size` bytes long.
#[derive(Debug)]
pub struct CreateFile {
    pub file_id: FileId,
    pub path: String,
    pub size: u64,
}

/// Bytes to be written into a file, from `offset` on.
#[derive(Debug)]
pub struct WriteChunk {
    pub file_id: FileId,
    pub path: String,
    pub offset: u64,
    pub data: Bytes,
}

/// A file whose contents are to be held against the hash that was announced.
#[derive(Debug)]
pub struct CheckFile {
    pub file_id: FileId,
    pub path: String,
    pub name: String,
    pub expected: FileHash,
}

/// What came of creating the server's folder.
#[derive(Debug)]
pub enum FolderOutcome {
    Created,
    AlreadyExists,
    Failed(String),
}

/// Whether the server has its folder, given what came of creating it: one that
/// was there already will do.
pub fn folder_ready(outcome: FolderOutcome) -> (r: Result<(), SyncError>)
    ensures
        r is Ok == (outcome !is Failed),
        r matches Err(err) ==> err@ == SyncErrorView::IOError(outcome->0@),
{
    match outcome {
        FolderOutcome::Created => Ok(()),
        FolderOutcome::AlreadyExists => Ok(()),
        FolderOutcome::Failed(e) => Err(SyncError::IOError(e)),
    }
}

/// What a [`CreateFile`] asks for.
pub struct CreateFileView {
    pub file_id: Seq<u8>,
    pub path: Seq<char>,
    pub size: u64,
}

/// What a [`WriteChunk`] asks for.
pub struct WriteChunkView {
    pub file_id: Seq<u8>,
    pub path: Seq<char>,
    pub offset: u64,
    pub data: Seq<u8>,
}

/// What a [`CheckFile`] asks for.
pub struct CheckFileView {
    pub file_id: Seq<u8>,
    pub path: Seq<char>,
    pub name: Seq<char>,
    pub expected: Seq<u8>,
}

impl View for CreateFile {
    type V = CreateFileView;

    open spec fn view(&self) -> CreateFileView {
        CreateFileView { file_id: self.file_id@, path: self.path@, size: self.size }
    }
}

impl View for WriteChunk {
    type V = WriteChunkView;

    open spec fn view(&self) -> WriteChunkView {
        WriteChunkView {
            file_id: self.file_id@,
            path: self.path@,
            offset: self.offset,
            data: bytes_of(self.data),
        }
    }
}

impl View for CheckFile {
    type V = CheckFileView;

    open spec fn view(&self) -> CheckFileView {
        CheckFileView {
            file_id: self.file_id@,
            path: self.path@,
            name: self.name@,
            expected: self.expected@,
        }
    }
}

/// Where the server keeps the file that was announced as `name`.
pub open spec fn upload_path(id: Seq<u8>, name: Seq<char>) -> Seq<char> {
    join(SERVER_FOLDER@, hyphenated(id) + "_"@ + name)
}

/// A file that a server knows of, and the name under which it was announced.
#[derive(Debug)]
pub struct RegisteredFile {
    pub meta: FileMeta,
    pub name: String,
}

/// What a [`RegisteredFile`] says.
pub struct RegisteredFileView {
    pub meta: FileMetaView,
    pub name: Seq<char>,
}

impl View for RegisteredFile {
    type V = RegisteredFileView;

    open spec fn view(&self) -> RegisteredFileView {
        RegisteredFileView { meta: self.meta@, name: self.name@ }
    }
}

/// What the server registers when a file is announced.
pub open spec fn announced(ev: UploadInitEventView) -> RegisteredFileView {
    RegisteredFileView {
        meta: FileMetaView {
            file_id: ev.file_id,
            file_path: upload_path(ev.file_id, ev.name),
            file_name: upload_name(upload_path(ev.file_id, ev.name)),
            total_size: ev.size as usize,
            hash: Some(ev.hash),
        },
        name: ev.name,
    }
}

/// The registered files, by the number of their identifier.
pub type Files = Map<u128, RegisteredFileView>;

/// Whether every file is registered as it was announced: under the number of
/// its identifier, at its place in the server's folder, and with a hash.
pub open spec fn well_registered(files: Files) -> bool {
    forall|key: u128| #[trigger]
        files.contains_key(key) ==> {
            let meta = files[key].meta;
            &&& meta.file_id.len() == 16
            &&& id_key(meta.file_id) == key
            &&& meta.hash matches Some(hash)
            &&& hash.len() == 32
            &&& meta.file_path == upload_path(meta.file_id, files[key].name)
            &&& meta.file_name == upload_name(meta.file_path)
        }
}

/// What announcing a file asks of the file system: to create it, unless it is
/// registered already.
pub open spec fn on_upload_init(files: Files, body: Seq<u8>) -> Result<
    CreateFileView,
    SyncErrorView,
> {
    match parse_upload_init(body) {
        Err(e) => Err(e),
        Ok(ev) => if files.contains_key(id_key(ev.file_id)) {
            Err(SyncErrorView::DuplicateFile(hyphenated(ev.file_id)))
        } else {
            Ok(
                CreateFileView {
                    file_id: ev.file_id,
                    path: upload_path(ev.file_id, ev.name),
                    size: ev.size,
                },
            )
        },
    }
}

/// The registered files once a file has been announced.
pub open spec fn files_after_init(files: Files, body: Seq<u8>) -> Files {
    match parse_upload_init(body) {
        Err(_) => files,
        Ok(ev) => if files.contains_key(id_key(ev.file_id)) {
            files
        } else {
            files.insert(id_key(ev.file_id), announced(ev))
        },
    }
}

/// What a chunk asks of the file system: to write it into its file, if that is
/// registered.
pub open spec fn on_chunk(files: Files, body: Seq<u8>) -> Result<WriteChunkView, SyncErrorView> {
    match parse_chunk_event(body) {
        Err(e) => Err(e),
        Ok(chunk) => if files.contains_key(id_key(chunk.file_id)) {
            Ok(
                WriteChunkView {
                    file_id: chunk.file_id,
                    path: files[id_key(chunk.file_id)].meta.file_path,
                    offset: chunk.offset,
                    data: chunk.data,
                },
            )
        } else {
            Err(SyncErrorView::FileUploadNotInit(hyphenated(chunk.file_id)))
        },
    }
}

/// What the end of an upload asks of the file system: the contents of the
/// file, if that is registered.
pub open spec fn on_upload_done(files: Files, file_id: Seq<u8>) -> Result<
    CheckFileView,
    SyncErrorView,
> {
    if files.contains_key(id_key(file_id)) {
        let file = files[id_key(file_id)];
        Ok(
            CheckFileView {
                file_id,
                path: file.meta.file_path,
                name: file.name,
                expected: file.meta.hash->0,
            },
        )
    } else {
        Err(SyncErrorView::FileUploadNotInit(hyphenated(file_id)))
    }
}

/// What is left unread of a request's body, of which `parsed` came.
pub open spec fn unread_body<T>(body: Seq<u8>, parsed: Result<T, SyncErrorView>) -> Seq<u8> {
    if parsed is Ok {
        body.skip(8)
    } else {
        body
    }
}

/// The files that a server knows of.
#[derive(Debug)]
pub struct FileRegistry {
    file_dict: HashMap<u128, RegisteredFile>,
    file_state: HashMap<u128, FileUploadState>,
}

impl FileRegistry {
    /// The registered files, by the number of their identifier.
    pub closed spec fn files(&self) -> Files {
        self.file_dict@.map_values(|file: RegisteredFile| file@)
    }

    /// How far the upload of each file has come, by the number of its identifier.
    pub closed spec fn states(&self) -> Map<u128, FileUploadState> {
        self.file_state@
    }

    /// Whether the registered files are in order.
    pub open spec fn wf(&self) -> bool {
        well_registered(self.files())
    }

    /// No files.
    pub fn new() -> (registry: FileRegistry)
        ensures
            registry.wf(),
            registry.files() == Map::<u128, RegisteredFileView>::empty(),
            registry.states() == Map::<u128, FileUploadState>::empty(),
    {
        let registry = FileRegistry {
            file_dict: HashMap::with_capacity(100),
            file_state: HashMap::with_capacity(100),
        };
        assert(registry.files() =~= Map::<u128, RegisteredFileView>::empty());
        registry
    }

    /// Notes how far the upload of a file has come.
    pub fn set_state(&mut self, file_id: &FileId, state: FileUploadState)
        ensures
            final(self).files() == old(self).files(),
            final(self).states() == old(self).states().insert(id_key(file_id@), state),
    {
        self.file_state.insert(file_key(file_id), state);
    }

    /// How far the upload of a file has come, if it has begun.
    pub fn state(&self, file_id: &FileId) -> (state: Option<FileUploadState>)
        ensures
            state == (if self.states().contains_key(id_key(file_id@)) {
                Some(self.states()[id_key(file_id@)])
            } else {
                None
            }),
    {
        match self.file_state.get(&file_key(file_id)) {
            Some(state) => Some(*state),
            None => None,
        }
    }

    /// The registered file with this identifier, if there is one.
    pub fn file(&self, file_id: &FileId) -> (file: Option<&RegisteredFile>)
        ensures
            match file {
                Some(file) => {
                    &&& self.files().contains_key(id_key(file_id@))
                    &&& file@ == self.files()[id_key(file_id@)]
                },
                None => !self.files().contains_key(id_key(file_id@)),
            },
    {
        self.file_dict.get(&file_key(file_id))
    }

    /// Takes an announced file.
    pub fn handle_upload_init(&mut self, data: &mut BytesMut) -> (r: Result<CreateFile, SyncError>)
        requires
            old(self).wf(),
        ensures
            final(self).wf(),
            outcome(r) == on_upload_init(old(self).files(), buffer_of(*old(data))),
            final(self).files() == files_after_init(old(self).files(), buffer_of(*old(data))),
            final(self).states() == old(self).states(),
            buffer_of(*final(data)) == unread_body(
                buffer_of(*old(data)),
                parse_upload_init(buffer_of(*old(data))),
            ),
    {
        let upload_init = match decode_upload_init(data) {
            Ok(ev) => ev,
            Err(e) => {
                return Err(e);
            },
        };
        let ghost ev = upload_init@;
        let file_id = upload_init.file_id;
        let key = file_key(&file_id);
        match self.file_dict.get(&key) {
            Some(file) => {
                proof {
                    assert(self.files().contains_key(key));
                    assert(self.files()[key] == file@);
                    lemma_id_key_injective(file.meta.file_id@, file_id@);
                }
                return Err(SyncError::DuplicateFile(id_to_string(&file.meta.file_id)));
            },
            None => {},
        }
        let id_text = id_to_string(&file_id);
        let entry = joined(joined(id_text.as_str(), "_").as_str(), upload_init.name.as_str());
        let path = path_join(SERVER_FOLDER, entry.as_str());
        let meta = FileMeta::new1(
            file_id,
            path.clone(),
            upload_init.size as usize,
            upload_init.hash,
        );
        let file = RegisteredFile { meta, name: upload_init.name };
        assert(file@ == announced(ev));
        self.file_dict.insert(key, file);
        proof {
            assert(self.files() =~= old(self).files().insert(key, announced(ev)));
            assert(upload_path(ev.file_id, ev.name) == path@);
            assert(self.wf());
        }
        Ok(CreateFile { file_id, path, size: upload_init.size })
    }

    /// Takes a chunk of a file.
    pub fn handle_chunk(&self, data: &mut BytesMut) -> (r: Result<WriteChunk, SyncError>)
        ensures
            outcome(r) == on_chunk(self.files(), buffer_of(*old(data))),
            buffer_of(*final(data)) == unread_body(
                buffer_of(*old(data)),
                parse_chunk_event(buffer_of(*old(data))),
            ),
    {
        let chunk = match decode_chunk_event(data) {
            Ok(chunk) => chunk,
            Err(e) => {
                return Err(e);
            },
        };
        match self.file_dict.get(&file_key(&chunk.file_id)) {
            Some(file) => {
                Ok(
                    WriteChunk {
                        file_id: chunk.file_id,
                        path: file.meta.file_path.clone(),
                        offset: chunk.offset,
                        data: chunk.data,
                    },
                )
            },
            None => Err(SyncError::FileUploadNotInit(id_to_string(&chunk.file_id))),
        }
    }

    /// The registered file with this identifier, as a check of it needs it.
    pub fn file_to_check(&self, file_id: &FileId) -> (r: Result<CheckFile, SyncError>)
        requires
            self.wf(),
        ensures
            outcome(r) == on_upload_done(self.files(), file_id@),
    {
        let key = file_key(file_id);
        match self.file_dict.get(&key) {
            Some(file) => {
                proof {
                    assert(self.files().contains_key(key));
                    assert(self.files()[key] == file@);
                }
                Ok(
                    CheckFile {
                        file_id: *file_id,
                        path: file.meta.file_path.clone(),
                        name: file.name.clone(),
                        expected: file.meta.hash.unwrap(),
                    },
                )
            },
            None => Err(SyncError::FileUploadNotInit(id_to_string(file_id))),
        }
    }
}

proof fn lemma_id_text_has_no_separator(id: Seq<u8>)
    requires
        id.len() == 16,
    ensures
        hyphenated(id).len() == 36,
        forall|i: int| 0 <= i < 36 ==> #[trigger] hyphenated(id)[i] != separator(),
{
    assert forall|i: int| 0 <= i < 36 implies #[trigger] hyphenated(id)[i] != separator() by {
        if !is_hyphen(i) {
            let d = half_byte(id, i - hyphens_before(i));
            assert(hyphenated(id)[i] == hex_digit(d));
            assert(hex_digit(d) as nat == if d < 10 { 48 + d } else { 87 + d });
        }
    }
}

/// An uploaded file is created in the server's folder, under its identifier
/// and its name with an underscore between them.
pub proof fn lemma_upload_path(id: Seq<u8>, name: Seq<char>)
    requires
        id.len() == 16,
    ensures
        upload_path(id, name) == "/tmp/uploads/"@ + hyphenated(id) + "_"@ + name,
{
    reveal_strlit("/tmp/uploads");
    reveal_strlit("/tmp/uploads/");
    lemma_id_text_has_no_separator(id);
    let entry = hyphenated(id) + "_"@ + name;
    assert(entry[0] == hyphenated(id)[0]);
    assert(SERVER_FOLDER@.push(separator()) =~= "/tmp/uploads/"@);
    assert(upload_path(id, name) =~= "/tmp/uploads/"@ + hyphenated(id) + "_"@ + name);
}

/// The chunks of a file are written where the file was created, and its
/// contents are checked there, whatever name was announced for it.
pub proof fn lemma_chunks_reach_created_file(files: Files, body: Seq<u8>, chunk: Seq<u8>)
    requires
        on_upload_init(files, body) is Ok,
        parse_chunk_event(chunk) is Ok,
        parse_chunk_event(chunk)->Ok_0.file_id == parse_upload_init(body)->Ok_0.file_id,
    ensures
        ({
            let id = parse_upload_init(body)->Ok_0.file_id;
            let after = files_after_init(files, body);
            let created = on_upload_init(files, body)->Ok_0.path;
            &&& on_chunk(after, chunk) is Ok
            &&& on_chunk(after, chunk)->Ok_0.path == created
            &&& on_upload_done(after, id) is Ok
            &&& on_upload_done(after, id)->Ok_0.path == created
        }),
{
}

/// Files with different identifiers are kept at different places, whatever
/// their names.
pub proof fn lemma_files_do_not_collide(
    id1: Seq<u8>,
    name1: Seq<char>,
    id2: Seq<u8>,
    name2: Seq<char>,
)
    requires
        id1.len() == 16,
        id2.len() == 16,
        upload_path(id1, name1) == upload_path(id2, name2),
    ensures
        id1 == id2,
        name1 == name2,
{
    lemma_upload_path(id1, name1);
    lemma_upload_path(id2, name2);
    lemma_id_text_has_no_separator(id1);
    lemma_id_text_has_no_separator(id2);
    reveal_strlit("/tmp/uploads/");
    reveal_strlit("_");
    let path = upload_path(id1, name1);
    let n = "/tmp/uploads/"@.len() as int;
    assert(path.subrange(n, n + 36) =~= hyphenated(id1));
    assert(path.subrange(n, n + 36) =~= hyphenated(id2));
    lemma_hyphenated_injective(id1, id2);
    assert(path.skip(n + 37) =~= name1);
    assert(path.skip(n + 37) =~= name2);
}

/// No two registered files are kept at the same place.
pub proof fn lemma_registered_places_differ(files: Files, key1: u128, key2: u128)
    requires
        well_registered(files),
        files.contains_key(key1),
        files.contains_key(key2),
        key1 != key2,
    ensures
        files[key1].meta.file_path != files[key2].meta.file_path,
{
    let file1 = files[key1];
    let file2 = files[key2];
    if file1.meta.file_path == file2.meta.file_path {
        lemma_files_do_not_collide(file1.meta.file_id, file1.name, file2.meta.file_id, file2.name);
    }
}

/// A file that was announced once stays registered as it was, whatever is
/// announced later.
pub proof fn lemma_files_stay_registered(files: Files, body: Seq<u8>, key: u128)
    requires
        files.contains_key(key),
    ensures
        files_after_init(files, body).contains_key(key),
        files_after_init(files, body)[key] == files[key],
{
}

/// Announcing a file leaves the registered files in order.
pub proof fn lemma_announcements_keep_order(files: Files, body: Seq<u8>)
    requires
        well_registered(files),
    ensures
        well_registered(files_after_init(files, body)),
{
}

/// Announcing a file again is refused, and changes nothing.
pub proof fn lemma_second_announcement_refused(files: Files, body: Seq<u8>, again: Seq<u8>)
    requires
        on_upload_init(files, body) is Ok,
        parse_upload_init(again) is Ok,
        parse_upload_init(again)->Ok_0.file_id == parse_upload_init(body)->Ok_0.file_id,
    ensures
        ({
            let after = files_after_init(files, body);
            &&& on_upload_init(after, again) == Err::<CreateFileView, _>(
                SyncErrorView::DuplicateFile(hyphenated(parse_upload_init(body)->Ok_0.file_id)),
            )
            &&& files_after_init(after, again) == after
        }),
{
}

/// Once a file is announced, its chunks are taken, and so is the end of its
/// upload; before that, both are refused.
pub proof fn lemma_upload_needs_announcement(files: Files, body: Seq<u8>, chunk: Seq<u8>)
    requires
        on_upload_init(files, body) is Ok,
        parse_chunk_event(chunk) is Ok,
        parse_chunk_event(chunk)->Ok_0.file_id == parse_upload_init(body)->Ok_0.file_id,
    ensures
        ({
            let id = parse_upload_init(body)->Ok_0.file_id;
            let after = files_after_init(files, body);
            &&& on_chunk(files, chunk) == Err::<WriteChunkView, _>(
                SyncErrorView::FileUploadNotInit(hyphenated(id)),
            )
            &&& on_upload_done(files, id) == Err::<CheckFileView, _>(
                SyncErrorView::FileUploadNotInit(hyphenated(id)),
            )
            &&& on_chunk(after, chunk) is Ok
            &&& on_upload_done(after, id) is Ok
        }),
{
}

/// A job says what stands in its fields, and so does a registered file.
pub proof fn lemma_jobs_say_what_they_hold(
    create: CreateFile,
    write: WriteChunk,
    check: CheckFile,
    file: RegisteredFile,
)
    ensures
        create@.file_id == create.file_id@,
        create@.path == create.path@,
        create@.size == create.size,
        write@.file_id == write.file_id@,
        write@.path == write.path@,
        write@.offset == write.offset,
        write@.data == bytes_of(write.data),
        check@.file_id == check.file_id@,
        check@.path == check.path@,
        check@.name == check.name@,
        check@.expected == check.expected@,
        file@.meta == file.meta@,
        file@.name == file.name@,
{
}

/// An announced file that is not registered yet is to be created in the server's
/// folder with the announced size, and is registered there with all that was
/// announced of it.
pub proof fn lemma_new_file_is_created(files: Files, body: Seq<u8>)
    requires
        parse_upload_init(body) is Ok,
        !files.contains_key(id_key(parse_upload_init(body)->Ok_0.file_id)),
    ensures
        ({
            let ev = parse_upload_init(body)->Ok_0;
            let key = id_key(ev.file_id);
            let place = "/tmp/uploads/"@ + hyphenated(ev.file_id) + "_"@ + ev.name;
            let after = files_after_init(files, body);
            &&& on_upload_init(files, body) matches Ok(job)
            &&& job.file_id == ev.file_id
            &&& job.path == place
            &&& job.size == ev.size
            &&& after.contains_key(key)
            &&& after.remove(key) == files.remove(key)
            &&& after[key].name == ev.name
            &&& after[key].meta.file_id == ev.file_id
            &&& after[key].meta.file_path == place
            &&& after[key].meta.file_name == upload_name(place)
            &&& after[key].meta.total_size == ev.size as usize
            &&& after[key].meta.hash == Some(ev.hash)
        }),
{
    let ev = parse_upload_init(body)->Ok_0;
    let key = id_key(ev.file_id);
    lemma_upload_init_is_read_by_layout(body);
    lemma_upload_path(ev.file_id, ev.name);
    assert(files_after_init(files, body).remove(key) =~= files.remove(key));
}

/// An announcement that cannot be read, or of a file that is registered already,
/// is refused, says so, and changes nothing.
pub proof fn lemma_announcement_refused(files: Files, body: Seq<u8>)
    ensures
        parse_upload_init(body) matches Err(e) ==> on_upload_init(files, body) == Err::<
            CreateFileView,
            _,
        >(e) && files_after_init(files, body) == files,
        parse_upload_init(body) matches Ok(ev) ==> files.contains_key(id_key(ev.file_id)) ==> {
            &&& on_upload_init(files, body) == Err::<CreateFileView, _>(
                SyncErrorView::DuplicateFile(hyphenated(ev.file_id)),
            )
            &&& files_after_init(files, body) == files
        },
{
}

/// A chunk of a registered file is to be written into that file, as it was sent.
/// A chunk that cannot be read, or of a file that is not registered, is refused.
pub proof fn lemma_chunk_is_written_as_sent(files: Files, body: Seq<u8>)
    ensures
        match parse_chunk_event(body) {
            Err(e) => on_chunk(files, body) == Err::<WriteChunkView, _>(e),
            Ok(chunk) => {
                let key = id_key(chunk.file_id);
                &&& files.contains_key(key) ==> {
                    &&& on_chunk(files, body) matches Ok(job)
                    &&& job.file_id == chunk.file_id
                    &&& job.path == files[key].meta.file_path
                    &&& job.offset == chunk.offset
                    &&& job.data == chunk.data
                }
                &&& !files.contains_key(key) ==> on_chunk(files, body) == Err::<WriteChunkView, _>(
                    SyncErrorView::FileUploadNotInit(hyphenated(chunk.file_id)),
                )
            },
        },
{
}

/// At the end of its upload, a registered file is to be held against the hash
/// that it was registered with. One that is not registered is refused.
pub proof fn lemma_file_is_checked_as_announced(files: Files, file_id: Seq<u8>)
    ensures
        files.contains_key(id_key(file_id)) ==> {
            let file = files[id_key(file_id)];
            &&& on_upload_done(files, file_id) matches Ok(job)
            &&& job.file_id == file_id
            &&& job.path == file.meta.file_path
            &&& job.name == file.name
            &&& file.meta.hash matches Some(hash) ==> job.expected == hash
        },
        !files.contains_key(id_key(file_id)) ==> on_upload_done(files, file_id) == Err::<
            CheckFileView,
            _,
        >(SyncErrorView::FileUploadNotInit(hyphenated(file_id))),
{
}

/// Of a body that was read, the number in front is consumed, and of one that was
/// not, nothing.
pub proof fn lemma_what_is_consumed<T>(body: Seq<u8>, parsed: Result<T, SyncErrorView>)
    requires
        body.len() >= 8,
    ensures
        parsed is Ok ==> body.take(8) + unread_body(body, parsed) == body,
        parsed is Err ==> unread_body(body, parsed) == body,
{
    assert(body.take(8) + body.skip(8) =~= body);
}

} // verus!
