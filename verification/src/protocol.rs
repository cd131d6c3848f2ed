//! The messages of the protocol, and how each is laid out in a frame.
//!
//! A frame starts with one byte, the tag, that says what it holds:
//!
//! | tag    | message         | behind the tag                                |
//! |--------|-----------------|-----------------------------------------------|
//! | `0x01` | [`UploadInitEvent`] | size (8), file id (16), hash (32), name   |
//! | `0x02` | [`UploadInitACK`]   | offset (8), file id (16)                  |
//! | `0x03` | [`ChunkEvent`]      | offset (8), file id (16), data            |
//! | `0x04` | [`ChunkACK`]        | offset (8), file id (16)                  |
//! | `0x05` | [`UploadDoneEvent`] | file id (16)                              |
//! | `0x06` | [`UploadDoneACK`]   | ok (1), file id (16), message             |
//! | `0xFF` | [`ErrMsg`]          | code (2), message                         |
//!
//! Numbers are big-endian and text is UTF-8. The decoders take a frame whose
//! tag has been read.

use crate::digest::FileHash;
use crate::errors::{SyncError, SyncErrorView};
use crate::ids::{is_version_4, new_file_id, FileId};
use crate::paths::{
    file_name, lemma_idle_parts_are_passed_over, lemma_path_ends_in_name,
    lemma_some_paths_have_no_name, path_file_name,
};
use crate::text::{from_utf8_lossy, lemma_text_round_trip, lossy_text};
use crate::wire::{
    be_bytes, be_range, be_value, buffer_of, buffer_slice, bytes_of, bytes_slice, get_u16, get_u64,
    get_u8, lemma_be_bytes_len, lemma_be_round_trip, lemma_be_value_bound, put_slice, put_u16,
    put_u64, put_u8,
};
use bytes::{Bytes, BytesMut};
use vstd::prelude::*;
use vstd::slice::*;
use vstd::string::*;
use vstd::utf8::*;

verus! {

/// How far the upload of a file has come.
#[derive(Debug, Clone, Copy, PartialEq, Eq, Structural)]
pub enum FileUploadState {
    Init,
    Uploading,
    Done,
}

/// What is known of a file that is uploaded.
#[derive(Debug, Clone)]
pub struct FileMeta {
    pub file_id: FileId,
    pub file_path: String,
    pub file_name: String,
    pub total_size: usize,
    pub hash: Option<FileHash>,
}

/// What a [`FileMeta`] says.
pub struct FileMetaView {
    pub file_id: Seq<u8>,
    pub file_path: Seq<char>,
    pub file_name: Seq<char>,
    pub total_size: usize,
    pub hash: Option<Seq<u8>>,
}

/// The bytes of a hash, where there is one.
pub open spec fn hash_view(hash: Option<FileHash>) -> Option<Seq<u8>> {
    match hash {
        Some(hash) => Some(hash@),
        None => None,
    }
}

impl View for FileMeta {
    type V = FileMetaView;

    open spec fn view(&self) -> FileMetaView {
        FileMetaView {
            file_id: self.file_id@,
            file_path: self.file_path@,
            file_name: self.file_name@,
            total_size: self.total_size,
            hash: hash_view(self.hash),
        }
    }
}

/// The name under which the file at `path` is uploaded.
pub open spec fn upload_name(path: Seq<char>) -> Seq<char> {
    match file_name(path) {
        Some(name) => name,
        None => "unknown"@,
    }
}

impl FileMeta {
    /// The file at `path`, under a new identifier, before its contents are known.
    pub fn new(path: &str) -> (meta: FileMeta)
        ensures
            is_version_4(meta.file_id@),
            meta@ == (FileMetaView {
                file_id: meta.file_id@,
                file_path: path@,
                file_name: upload_name(path@),
                total_size: 0,
                hash: None,
            }),
    {
        FileMeta {
            file_id: new_file_id(),
            file_path: path.to_string(),
            file_name: Self::path_2_name(path),
            total_size: 0,
            hash: None,
        }
    }

    /// The file at `path`, with what its uploader announced of it.
    pub fn new1(file_id: FileId, path: String, size: usize, hash: FileHash) -> (meta: FileMeta)
        ensures
            meta@ == (FileMetaView {
                file_id: file_id@,
                file_path: path@,
                file_name: upload_name(path@),
                total_size: size,
                hash: Some(hash@),
            }),
    {
        let name = Self::path_2_name(path.as_str());
        FileMeta { file_id, file_path: path, file_name: name, total_size: size, hash: Some(hash) }
    }

    fn path_2_name(path: &str) -> (name: String)
        ensures
            name@ == upload_name(path@),
    {
        match path_file_name(path) {
            Some(name) => name,
            None => "unknown".to_string(),
        }
    }
}

pub const UPLOAD_INIT_TAG: u8 = 0x01;

pub const UPLOAD_INIT_ACK_TAG: u8 = 0x02;

pub const CHUNK_TAG: u8 = 0x03;

pub const CHUNK_ACK_TAG: u8 = 0x04;

pub const UPLOAD_DONE_TAG: u8 = 0x05;

pub const UPLOAD_DONE_ACK_TAG: u8 = 0x06;

pub const ERR_TAG: u8 = 0xFF;

/// The client announces a file.
#[derive(Debug, Clone, PartialEq)]
pub struct UploadInitEvent {
    pub file_id: FileId,
    pub size: u64,
    pub hash: FileHash,
    pub name: String,
}

/// The server takes the file, from `offset` on.
#[derive(Debug, Clone, PartialEq)]
pub struct UploadInitACK {
    pub file_id: FileId,
    pub offset: u64,
}

/// The client sends the bytes of the file that start at `offset`.
#[derive(Debug, PartialEq)]
pub struct ChunkEvent {
    pub file_id: FileId,
    pub offset: u64,
    pub data: Bytes,
}

/// The server has the bytes that start at `offset`.
#[derive(Debug, Clone, PartialEq)]
pub struct ChunkACK {
    pub file_id: FileId,
    pub offset: u64,
}

/// A request failed.
#[derive(Debug, Clone, PartialEq)]
pub struct ErrMsg {
    pub code: u16,
    pub msg: String,
}

/// The client has sent the whole file.
#[derive(Debug, Clone, PartialEq)]
pub struct UploadDoneEvent {
    pub file_id: FileId,
}

/// The server has checked the file.
#[derive(Debug, Clone, PartialEq)]
pub struct UploadDoneACK {
    pub file_id: FileId,
    pub ok: bool,
    pub msg: String,
}

/// What an [`UploadInitEvent`] says.
pub struct UploadInitEventView {
    pub file_id: Seq<u8>,
    pub size: u64,
    pub hash: Seq<u8>,
    pub name: Seq<char>,
}

/// What an [`UploadInitACK`] says.
pub struct UploadInitACKView {
    pub file_id: Seq<u8>,
    pub offset: u64,
}

/// What a [`ChunkEvent`] says.
pub struct ChunkEventView {
    pub file_id: Seq<u8>,
    pub offset: u64,
    pub data: Seq<u8>,
}

/// What a [`ChunkACK`] says.
pub struct ChunkACKView {
    pub file_id: Seq<u8>,
    pub offset: u64,
}

/// What an [`ErrMsg`] says.
pub struct ErrMsgView {
    pub code: u16,
    pub msg: Seq<char>,
}

/// What an [`UploadDoneEvent`] says.
pub struct UploadDoneEventView {
    pub file_id: Seq<u8>,
}

/// What an [`UploadDoneACK`] says.
pub struct UploadDoneACKView {
    pub file_id: Seq<u8>,
    pub ok: bool,
    pub msg: Seq<char>,
}

impl View for UploadInitEvent {
    type V = UploadInitEventView;

    open spec fn view(&self) -> UploadInitEventView {
        UploadInitEventView {
            file_id: self.file_id@,
            size: self.size,
            hash: self.hash@,
            name: self.name@,
        }
    }
}

impl View for UploadInitACK {
    type V = UploadInitACKView;

    open spec fn view(&self) -> UploadInitACKView {
        UploadInitACKView { file_id: self.file_id@, offset: self.offset }
    }
}

impl View for ChunkEvent {
    type V = ChunkEventView;

    open spec fn view(&self) -> ChunkEventView {
        ChunkEventView { file_id: self.file_id@, offset: self.offset, data: bytes_of(self.data) }
    }
}

impl Clone for ChunkEvent {
    fn clone(&self) -> (copy: ChunkEvent)
        ensures
            copy@ == self@,
    {
        ChunkEvent { file_id: self.file_id, offset: self.offset, data: self.data.clone() }
    }
}

impl View for ChunkACK {
    type V = ChunkACKView;

    open spec fn view(&self) -> ChunkACKView {
        ChunkACKView { file_id: self.file_id@, offset: self.offset }
    }
}

impl View for ErrMsg {
    type V = ErrMsgView;

    open spec fn view(&self) -> ErrMsgView {
        ErrMsgView { code: self.code, msg: self.msg@ }
    }
}

impl View for UploadDoneEvent {
    type V = UploadDoneEventView;

    open spec fn view(&self) -> UploadDoneEventView {
        UploadDoneEventView { file_id: self.file_id@ }
    }
}

impl View for UploadDoneACK {
    type V = UploadDoneACKView;

    open spec fn view(&self) -> UploadDoneACKView {
        UploadDoneACKView { file_id: self.file_id@, ok: self.ok, msg: self.msg@ }
    }
}

impl ErrMsg {
    pub fn new(code: u16, msg: &str) -> (err_msg: ErrMsg)
        ensures
            err_msg@ == (ErrMsgView { code, msg: msg@ }),
    {
        ErrMsg { code, msg: msg.to_string() }
    }
}

/// How a file is announced.
pub open spec fn announcement(meta: FileMetaView) -> UploadInitEventView {
    UploadInitEventView {
        file_id: meta.file_id,
        size: meta.total_size as u64,
        hash: meta.hash->0,
        name: meta.file_name,
    }
}

/// A result, by what its value or its error says.
pub open spec fn outcome<T: View>(r: Result<T, SyncError>) -> Result<T::V, SyncErrorView> {
    match r {
        Ok(value) => Ok(value@),
        Err(e) => Err(e@),
    }
}

// The frames, tag and all.

pub open spec fn upload_init_frame(ev: UploadInitEventView) -> Seq<u8> {
    seq![UPLOAD_INIT_TAG] + be_bytes(ev.size as nat, 8) + ev.file_id + ev.hash + encode_utf8(
        ev.name,
    )
}

pub open spec fn upload_init_ack_frame(ack: UploadInitACKView) -> Seq<u8> {
    seq![UPLOAD_INIT_ACK_TAG] + be_bytes(ack.offset as nat, 8) + ack.file_id
}

pub open spec fn chunk_frame(chunk: ChunkEventView) -> Seq<u8> {
    seq![CHUNK_TAG] + be_bytes(chunk.offset as nat, 8) + chunk.file_id + chunk.data
}

pub open spec fn chunk_ack_frame(ack: ChunkACKView) -> Seq<u8> {
    seq![CHUNK_ACK_TAG] + be_bytes(ack.offset as nat, 8) + ack.file_id
}

pub open spec fn upload_done_frame(ev: UploadDoneEventView) -> Seq<u8> {
    seq![UPLOAD_DONE_TAG] + ev.file_id
}

pub open spec fn upload_done_ack_frame(ack: UploadDoneACKView) -> Seq<u8> {
    seq![
        UPLOAD_DONE_ACK_TAG,
        if ack.ok {
            1u8
        } else {
            0u8
        },
    ] + ack.file_id + encode_utf8(ack.msg)
}

pub open spec fn error_frame(err_msg: ErrMsgView) -> Seq<u8> {
    seq![ERR_TAG] + be_bytes(err_msg.code as nat, 2) + encode_utf8(err_msg.msg)
}

/// Whether each chunk fits into a frame: Rust limits an allocation to
/// `isize::MAX` bytes.
pub open spec fn frames_fit(chunks: Seq<ChunkEventView>) -> bool {
    forall|i: int|
        0 <= i < chunks.len() ==> chunk_frame(#[trigger] chunks[i]).len() <= isize::MAX
}

// What the bytes behind a tag say.

pub open spec fn parse_upload_init(body: Seq<u8>) -> Result<UploadInitEventView, SyncErrorView> {
    if body.len() <= 56 {
        Err(SyncErrorView::BadChunkData("chunk length must > 56"@))
    } else {
        Ok(
            UploadInitEventView {
                size: be_value(body.take(8)) as u64,
                file_id: body.subrange(8, 24),
                hash: body.subrange(24, 56),
                name: lossy_text(body.skip(56)),
            },
        )
    }
}

pub open spec fn parse_upload_init_ack(body: Seq<u8>) -> Result<UploadInitACKView, SyncErrorView> {
    if body.len() < 24 {
        Err(SyncErrorView::BadChunkData("upload init ack chunk length must >= 24"@))
    } else {
        Ok(
            UploadInitACKView {
                offset: be_value(body.take(8)) as u64,
                file_id: body.subrange(8, 24),
            },
        )
    }
}

pub open spec fn parse_chunk_event(body: Seq<u8>) -> Result<ChunkEventView, SyncErrorView> {
    if body.len() < 24 {
        Err(SyncErrorView::BadChunkData("chunk length must >= 24"@))
    } else {
        Ok(
            ChunkEventView {
                offset: be_value(body.take(8)) as u64,
                file_id: body.subrange(8, 24),
                data: body.skip(24),
            },
        )
    }
}

pub open spec fn parse_chunk_ack(body: Seq<u8>) -> Result<ChunkACKView, SyncErrorView> {
    if body.len() < 24 {
        Err(SyncErrorView::BadChunkData("chunk ack length must >= 24"@))
    } else {
        Ok(
            ChunkACKView {
                offset: be_value(body.take(8)) as u64,
                file_id: body.subrange(8, 24),
            },
        )
    }
}

pub open spec fn parse_upload_done(body: Seq<u8>) -> Result<UploadDoneEventView, SyncErrorView> {
    if body.len() < 16 {
        Err(SyncErrorView::BadChunkData("chunk length must >= 16"@))
    } else {
        Ok(UploadDoneEventView { file_id: body.take(16) })
    }
}

pub open spec fn parse_upload_done_ack(body: Seq<u8>) -> Result<UploadDoneACKView, SyncErrorView> {
    if body.len() < 17 {
        Err(SyncErrorView::BadChunkData("upload done ack length must >= 17"@))
    } else {
        Ok(
            UploadDoneACKView {
                ok: body[0] != 0,
                file_id: body.subrange(1, 17),
                msg: lossy_text(body.skip(17)),
            },
        )
    }
}

pub open spec fn parse_error(body: Seq<u8>) -> Result<ErrMsgView, SyncErrorView> {
    if body.len() <= 1 {
        Err(SyncErrorView::BadChunkData("chunk length must > 1"@))
    } else {
        Ok(ErrMsgView { code: be_value(body.take(2)) as u16, msg: lossy_text(body.skip(2)) })
    }
}

/// The `N` bytes of `s` that start at `from`.
fn array_at<const N: usize>(s: &[u8], from: usize) -> (a: [u8; N])
    requires
        from + N <= s@.len(),
    ensures
        a@ == s@.subrange(from as int, from + N),
{
    let len: usize = s.len();
    let mut a: [u8; N] = [0u8;N];
    let mut i: usize = 0;
    while i < N
        invariant
            i <= N,
            from + N <= s@.len() == len,
            a@.len() == N,
            forall|j: int| 0 <= j < i ==> a@[j] == s@[from + j],
        decreases N - i,
    {
        a[i] = s[from + i];
        i = i + 1;
    }
    assert(a@ =~= s@.subrange(from as int, from + N));
    a
}

/// tag | file_id
pub fn encode_upload_done(d: UploadDoneEvent) -> (frame: BytesMut)
    ensures
        buffer_of(frame) == upload_done_frame(d@),
{
    let mut encode_bs = BytesMut::with_capacity(17);
    put_u8(&mut encode_bs, UPLOAD_DONE_TAG);
    put_slice(&mut encode_bs, d.file_id.as_slice());
    assert(buffer_of(encode_bs) =~= upload_done_frame(d@));
    encode_bs
}

/// file_id
pub fn decode_upload_done(bs: &mut BytesMut) -> (r: Result<UploadDoneEvent, SyncError>)
    ensures
        outcome(r) == parse_upload_done(buffer_of(*old(bs))),
        buffer_of(*final(bs)) == buffer_of(*old(bs)),
{
    if bs.len() < 16 {
        return Err(SyncError::BadChunkData("chunk length must >= 16".to_string()));
    }
    let file_id = bytes_to_uid(bs);
    Ok(UploadDoneEvent { file_id })
}

/// tag | code | msg
pub fn encode_error(err_msg: ErrMsg) -> (frame: Bytes)
    requires
        error_frame(err_msg@).len() <= isize::MAX,
    ensures
        bytes_of(frame) == error_frame(err_msg@),
{
    proof {
        lemma_be_bytes_len(err_msg.code as nat, 2);
    }
    let mut encode_bs = BytesMut::with_capacity(100);
    put_u8(&mut encode_bs, ERR_TAG);
    put_u16(&mut encode_bs, err_msg.code);
    put_slice(&mut encode_bs, err_msg.msg.as_str().as_bytes());
    assert(buffer_of(encode_bs) =~= error_frame(err_msg@));
    encode_bs.freeze()
}

/// code | msg
pub fn decode_error(bs: &mut BytesMut) -> (r: Result<ErrMsg, SyncError>)
    ensures
        outcome(r) == parse_error(buffer_of(*old(bs))),
        buffer_of(*final(bs)) == (if r is Ok {
            buffer_of(*old(bs)).skip(2)
        } else {
            buffer_of(*old(bs))
        }),
{
    if bs.len() <= 1 {
        return Err(SyncError::BadChunkData("chunk length must > 1".to_string()));
    }
    let code = get_u16(bs);
    let msg = from_utf8_lossy(buffer_slice(bs));
    Ok(ErrMsg { code, msg })
}

/// tag | offset | file_id | data
pub fn encode_chunk_event(chunk: ChunkEvent) -> (frame: BytesMut)
    requires
        chunk_frame(chunk@).len() <= isize::MAX,
    ensures
        buffer_of(frame) == chunk_frame(chunk@),
{
    proof {
        lemma_be_bytes_len(chunk.offset as nat, 8);
    }
    let mut encode_bs = BytesMut::with_capacity(100);
    put_u8(&mut encode_bs, CHUNK_TAG);
    put_u64(&mut encode_bs, chunk.offset);
    put_slice(&mut encode_bs, chunk.file_id.as_slice());
    put_slice(&mut encode_bs, bytes_slice(&chunk.data));
    assert(buffer_of(encode_bs) =~= chunk_frame(chunk@));
    encode_bs
}

/// offset | file_id | data
pub fn decode_chunk_event(bs: &mut BytesMut) -> (r: Result<ChunkEvent, SyncError>)
    ensures
        outcome(r) == parse_chunk_event(buffer_of(*old(bs))),
        buffer_of(*final(bs)) == (if r is Ok {
            buffer_of(*old(bs)).skip(8)
        } else {
            buffer_of(*old(bs))
        }),
{
    if bs.len() < 24 {
        return Err(SyncError::BadChunkData("chunk length must >= 24".to_string()));
    }
    let ghost body = buffer_of(*bs);
    let offset = get_u64(bs);
    let file_id = bytes_to_uid(bs);
    let rest = buffer_slice(bs);
    let data = Bytes::copy_from_slice(slice_subrange(rest, 16, rest.len()));
    proof {
        assert(body.skip(8).take(16) =~= body.subrange(8, 24));
        assert(bytes_of(data) =~= body.skip(24));
    }
    Ok(ChunkEvent { data, offset, file_id })
}

/// tag | size | file_id | hash | name
pub fn encode_upload_init(upload_init: UploadInitEvent) -> (frame: Bytes)
    requires
        upload_init_frame(upload_init@).len() <= isize::MAX,
    ensures
        bytes_of(frame) == upload_init_frame(upload_init@),
{
    proof {
        lemma_be_bytes_len(upload_init.size as nat, 8);
    }
    let mut encode_bs = BytesMut::with_capacity(100);
    put_u8(&mut encode_bs, UPLOAD_INIT_TAG);
    put_u64(&mut encode_bs, upload_init.size);
    put_slice(&mut encode_bs, upload_init.file_id.as_slice());
    put_slice(&mut encode_bs, upload_init.hash.as_slice());
    put_slice(&mut encode_bs, upload_init.name.as_str().as_bytes());
    assert(buffer_of(encode_bs) =~= upload_init_frame(upload_init@));
    encode_bs.freeze()
}

/// size | file_id | hash | name
pub fn decode_upload_init(bs: &mut BytesMut) -> (r: Result<UploadInitEvent, SyncError>)
    ensures
        outcome(r) == parse_upload_init(buffer_of(*old(bs))),
        buffer_of(*final(bs)) == (if r is Ok {
            buffer_of(*old(bs)).skip(8)
        } else {
            buffer_of(*old(bs))
        }),
{
    if bs.len() <= 56 {
        return Err(SyncError::BadChunkData("chunk length must > 56".to_string()));
    }
    let ghost body = buffer_of(*bs);
    let file_size = get_u64(bs);
    let file_id = bytes_to_uid(bs);
    let rest = buffer_slice(bs);
    let hash: FileHash = array_at(rest, 16);
    let name = from_utf8_lossy(slice_subrange(rest, 48, rest.len()));
    proof {
        assert(body.skip(8).take(16) =~= body.subrange(8, 24));
        assert(body.skip(8).subrange(16, 48) =~= body.subrange(24, 56));
        assert(body.skip(8).subrange(48, body.len() - 8) =~= body.skip(56));
    }
    Ok(UploadInitEvent { size: file_size, hash, file_id, name })
}

/// tag | offset | file_id
pub fn encode_upload_init_ack(ack: UploadInitACK) -> (frame: Bytes)
    ensures
        bytes_of(frame) == upload_init_ack_frame(ack@),
{
    proof {
        lemma_be_bytes_len(ack.offset as nat, 8);
    }
    let mut encode_bs = BytesMut::with_capacity(25);
    put_u8(&mut encode_bs, UPLOAD_INIT_ACK_TAG);
    put_u64(&mut encode_bs, ack.offset);
    put_slice(&mut encode_bs, ack.file_id.as_slice());
    assert(buffer_of(encode_bs) =~= upload_init_ack_frame(ack@));
    encode_bs.freeze()
}

/// offset | file_id
pub fn decode_upload_init_ack(bs: &mut BytesMut) -> (r: Result<UploadInitACK, SyncError>)
    ensures
        outcome(r) == parse_upload_init_ack(buffer_of(*old(bs))),
        buffer_of(*final(bs)) == (if r is Ok {
            buffer_of(*old(bs)).skip(8)
        } else {
            buffer_of(*old(bs))
        }),
{
    if bs.len() < 24 {
        return Err(
            SyncError::BadChunkData("upload init ack chunk length must >= 24".to_string()),
        );
    }
    let ghost body = buffer_of(*bs);
    let offset = get_u64(bs);
    let file_id = bytes_to_uid(bs);
    assert(body.skip(8).take(16) =~= body.subrange(8, 24));
    Ok(UploadInitACK { offset, file_id })
}

/// tag | offset | file_id
pub fn encode_chunk_ack(ack: ChunkACK) -> (frame: Bytes)
    ensures
        bytes_of(frame) == chunk_ack_frame(ack@),
{
    proof {
        lemma_be_bytes_len(ack.offset as nat, 8);
    }
    let mut encode_bs = BytesMut::with_capacity(25);
    put_u8(&mut encode_bs, CHUNK_ACK_TAG);
    put_u64(&mut encode_bs, ack.offset);
    put_slice(&mut encode_bs, ack.file_id.as_slice());
    assert(buffer_of(encode_bs) =~= chunk_ack_frame(ack@));
    encode_bs.freeze()
}

/// offset | file_id
pub fn decode_chunk_ack(bs: &mut BytesMut) -> (r: Result<ChunkACK, SyncError>)
    ensures
        outcome(r) == parse_chunk_ack(buffer_of(*old(bs))),
        buffer_of(*final(bs)) == (if r is Ok {
            buffer_of(*old(bs)).skip(8)
        } else {
            buffer_of(*old(bs))
        }),
{
    if bs.len() < 24 {
        return Err(SyncError::BadChunkData("chunk ack length must >= 24".to_string()));
    }
    let ghost body = buffer_of(*bs);
    let offset = get_u64(bs);
    let file_id = bytes_to_uid(bs);
    assert(body.skip(8).take(16) =~= body.subrange(8, 24));
    Ok(ChunkACK { file_id, offset })
}

/// tag | ok | file_id | msg
pub fn encode_upload_done_ack(ack: UploadDoneACK) -> (frame: Bytes)
    requires
        upload_done_ack_frame(ack@).len() <= isize::MAX,
    ensures
        bytes_of(frame) == upload_done_ack_frame(ack@),
{
    let mut encode_bs = BytesMut::with_capacity(100);
    put_u8(&mut encode_bs, UPLOAD_DONE_ACK_TAG);
    put_u8(
        &mut encode_bs,
        if ack.ok {
            1
        } else {
            0
        },
    );
    put_slice(&mut encode_bs, ack.file_id.as_slice());
    put_slice(&mut encode_bs, ack.msg.as_str().as_bytes());
    assert(buffer_of(encode_bs) =~= upload_done_ack_frame(ack@));
    encode_bs.freeze()
}

/// ok | file_id | msg
pub fn decode_upload_done_ack(bs: &mut BytesMut) -> (r: Result<UploadDoneACK, SyncError>)
    ensures
        outcome(r) == parse_upload_done_ack(buffer_of(*old(bs))),
        buffer_of(*final(bs)) == (if r is Ok {
            buffer_of(*old(bs)).skip(1)
        } else {
            buffer_of(*old(bs))
        }),
{
    if bs.len() < 17 {
        return Err(SyncError::BadChunkData("upload done ack length must >= 17".to_string()));
    }
    let ghost body = buffer_of(*bs);
    let ok = get_u8(bs) != 0;
    let file_id = bytes_to_uid(bs);
    let rest = buffer_slice(bs);
    let msg = from_utf8_lossy(slice_subrange(rest, 16, rest.len()));
    proof {
        assert(body.skip(1).take(16) =~= body.subrange(1, 17));
        assert(body.skip(1).subrange(16, body.len() - 1) =~= body.skip(17));
    }
    Ok(UploadDoneACK { file_id, ok, msg })
}

fn bytes_to_uid(bs: &BytesMut) -> (id: FileId)
    requires
        buffer_of(*bs).len() >= 16,
    ensures
        id@ == buffer_of(*bs).take(16),
{
    array_at(buffer_slice(bs), 0)
}

/// The first byte of a frame says what the frame holds.
pub proof fn lemma_tags_tell_frames_apart(
    init: UploadInitEventView,
    init_ack: UploadInitACKView,
    chunk: ChunkEventView,
    chunk_ack: ChunkACKView,
    done: UploadDoneEventView,
    done_ack: UploadDoneACKView,
    err_msg: ErrMsgView,
)
    ensures
        upload_init_frame(init)[0] == 0x01,
        upload_init_ack_frame(init_ack)[0] == 0x02,
        chunk_frame(chunk)[0] == 0x03,
        chunk_ack_frame(chunk_ack)[0] == 0x04,
        upload_done_frame(done)[0] == 0x05,
        upload_done_ack_frame(done_ack)[0] == 0x06,
        error_frame(err_msg)[0] == 0xFF,
{
}

proof fn lemma_u64_round_trip(n: u64)
    ensures
        be_bytes(n as nat, 8).len() == 8,
        be_value(be_bytes(n as nat, 8)) == n,
{
    lemma_be_bytes_len(n as nat, 8);
    reveal_with_fuel(be_range, 9);
    lemma_be_round_trip(n as nat, 8);
}

/// An announced file reads back as it was announced, unless its name is empty.
pub proof fn lemma_upload_init_round_trip(ev: UploadInitEventView)
    requires
        ev.file_id.len() == 16,
        ev.hash.len() == 32,
        ev.name.len() > 0,
    ensures
        parse_upload_init(upload_init_frame(ev).skip(1)) == Ok::<_, SyncErrorView>(ev),
{
    let body = upload_init_frame(ev).skip(1);
    lemma_u64_round_trip(ev.size);
    lemma_text_round_trip(ev.name);
    assert(encode_utf8(ev.name).len() > 0);
    assert(body.take(8) =~= be_bytes(ev.size as nat, 8));
    assert(body.subrange(8, 24) =~= ev.file_id);
    assert(body.subrange(24, 56) =~= ev.hash);
    assert(body.skip(56) =~= encode_utf8(ev.name));
}

/// A file without a name cannot be announced: the frame is refused as too short.
pub proof fn lemma_upload_init_needs_name(ev: UploadInitEventView)
    requires
        ev.file_id.len() == 16,
        ev.hash.len() == 32,
        ev.name.len() == 0,
    ensures
        parse_upload_init(upload_init_frame(ev).skip(1)) == Err::<UploadInitEventView, _>(
            SyncErrorView::BadChunkData("chunk length must > 56"@),
        ),
{
    lemma_u64_round_trip(ev.size);
    assert(encode_utf8(ev.name).len() == 0);
}

/// The answer to an announced file reads back as it was given.
pub proof fn lemma_upload_init_ack_round_trip(ack: UploadInitACKView)
    requires
        ack.file_id.len() == 16,
    ensures
        parse_upload_init_ack(upload_init_ack_frame(ack).skip(1)) == Ok::<_, SyncErrorView>(ack),
{
    let body = upload_init_ack_frame(ack).skip(1);
    lemma_u64_round_trip(ack.offset);
    assert(body.take(8) =~= be_bytes(ack.offset as nat, 8));
    assert(body.subrange(8, 24) =~= ack.file_id);
}

/// A chunk reads back as it was sent.
pub proof fn lemma_chunk_event_round_trip(chunk: ChunkEventView)
    requires
        chunk.file_id.len() == 16,
    ensures
        parse_chunk_event(chunk_frame(chunk).skip(1)) == Ok::<_, SyncErrorView>(chunk),
{
    let body = chunk_frame(chunk).skip(1);
    lemma_u64_round_trip(chunk.offset);
    assert(body.take(8) =~= be_bytes(chunk.offset as nat, 8));
    assert(body.subrange(8, 24) =~= chunk.file_id);
    assert(body.skip(24) =~= chunk.data);
}

/// The answer to a chunk reads back as it was given.
pub proof fn lemma_chunk_ack_round_trip(ack: ChunkACKView)
    requires
        ack.file_id.len() == 16,
    ensures
        parse_chunk_ack(chunk_ack_frame(ack).skip(1)) == Ok::<_, SyncErrorView>(ack),
{
    let body = chunk_ack_frame(ack).skip(1);
    lemma_u64_round_trip(ack.offset);
    assert(body.take(8) =~= be_bytes(ack.offset as nat, 8));
    assert(body.subrange(8, 24) =~= ack.file_id);
}

/// The end of an upload reads back as it was sent.
pub proof fn lemma_upload_done_round_trip(ev: UploadDoneEventView)
    requires
        ev.file_id.len() == 16,
    ensures
        parse_upload_done(upload_done_frame(ev).skip(1)) == Ok::<_, SyncErrorView>(ev),
{
    assert(upload_done_frame(ev).skip(1).take(16) =~= ev.file_id);
}

/// The verdict on an upload reads back as it was given.
pub proof fn lemma_upload_done_ack_round_trip(ack: UploadDoneACKView)
    requires
        ack.file_id.len() == 16,
    ensures
        parse_upload_done_ack(upload_done_ack_frame(ack).skip(1)) == Ok::<_, SyncErrorView>(ack),
{
    let body = upload_done_ack_frame(ack).skip(1);
    lemma_text_round_trip(ack.msg);
    assert(body.subrange(1, 17) =~= ack.file_id);
    assert(body.skip(17) =~= encode_utf8(ack.msg));
}

/// A reported error reads back as it was reported.
pub proof fn lemma_error_round_trip(err_msg: ErrMsgView)
    ensures
        parse_error(error_frame(err_msg).skip(1)) == Ok::<_, SyncErrorView>(err_msg),
{
    let body = error_frame(err_msg).skip(1);
    lemma_be_bytes_len(err_msg.code as nat, 2);
    reveal_with_fuel(be_range, 3);
    lemma_be_round_trip(err_msg.code as nat, 2);
    lemma_text_round_trip(err_msg.msg);
    assert(body.take(2) =~= be_bytes(err_msg.code as nat, 2));
    assert(body.skip(2) =~= encode_utf8(err_msg.msg));
}

/// A message says what stands in its fields.
pub proof fn lemma_messages_say_what_they_hold(
    init: UploadInitEvent,
    init_ack: UploadInitACK,
    chunk: ChunkEvent,
    chunk_ack: ChunkACK,
    done: UploadDoneEvent,
    done_ack: UploadDoneACK,
    err_msg: ErrMsg,
)
    ensures
        init@.file_id == init.file_id@,
        init@.size == init.size,
        init@.hash == init.hash@,
        init@.name == init.name@,
        init_ack@.file_id == init_ack.file_id@,
        init_ack@.offset == init_ack.offset,
        chunk@.file_id == chunk.file_id@,
        chunk@.offset == chunk.offset,
        chunk@.data == bytes_of(chunk.data),
        chunk_ack@.file_id == chunk_ack.file_id@,
        chunk_ack@.offset == chunk_ack.offset,
        done@.file_id == done.file_id@,
        done_ack@.file_id == done_ack.file_id@,
        done_ack@.ok == done_ack.ok,
        done_ack@.msg == done_ack.msg@,
        err_msg@.code == err_msg.code,
        err_msg@.msg == err_msg.msg@,
{
}

/// What is known of a file stands in its fields, and is announced as it stands.
pub proof fn lemma_files_are_announced_as_known(meta: FileMeta)
    ensures
        meta@.file_id == meta.file_id@,
        meta@.file_path == meta.file_path@,
        meta@.file_name == meta.file_name@,
        meta@.total_size == meta.total_size,
        meta.hash is None <==> meta@.hash is None,
        meta.hash matches Some(hash) ==> meta@.hash == Some(hash@),
        announcement(meta@).file_id == meta.file_id@,
        announcement(meta@).size == meta.total_size,
        announcement(meta@).name == meta.file_name@,
        meta.hash matches Some(hash) ==> announcement(meta@).hash == hash@,
{
}

/// A file is uploaded under the name that its path ends in, whatever folder it
/// is in.
pub proof fn lemma_uploaded_under_its_name(folder: Seq<char>, name: Seq<char>)
    requires
        name.len() > 0,
        name != seq!['.'],
        name != seq!['.', '.'],
        forall|i: int| 0 <= i < name.len() ==> #[trigger] name[i] != '/',
    ensures
        upload_name(folder + seq!['/'] + name) == name,
        upload_name(name) == name,
{
    lemma_path_ends_in_name(folder, name);
}

/// What stands behind a name and says nothing leaves the name as it is, and where
/// a path has no name, the file is `unknown`.
pub proof fn lemma_uploaded_without_a_name(folder: Seq<char>)
    ensures
        upload_name(folder + seq!['/']) == upload_name(folder),
        upload_name(folder + seq!['/', '.']) == upload_name(folder),
        upload_name(folder + seq!['/', '.', '.']) == "unknown"@,
        upload_name(seq!['.', '.']) == "unknown"@,
        upload_name(seq!['.']) == "unknown"@,
        upload_name(Seq::<char>::empty()) == "unknown"@,
{
    lemma_idle_parts_are_passed_over(folder);
    lemma_some_paths_have_no_name(folder);
}

/// A result is known by its value, or by its error.
pub proof fn lemma_outcome<T: View>(value: T, e: SyncError)
    ensures
        outcome(Ok::<T, SyncError>(value)) == Ok::<T::V, SyncErrorView>(value@),
        outcome(Err::<T, SyncError>(e)) == Err::<T::V, SyncErrorView>(e@),
{
}

/// The layout of an announcement: tag, size, file id, hash, name.
pub proof fn lemma_upload_init_layout(ev: UploadInitEventView)
    requires
        ev.file_id.len() == 16,
        ev.hash.len() == 32,
    ensures
        ({
            let frame = upload_init_frame(ev);
            &&& frame.len() == 57 + encode_utf8(ev.name).len()
            &&& frame[0] == 0x01
            &&& be_value(frame.subrange(1, 9)) == ev.size
            &&& frame.subrange(9, 25) == ev.file_id
            &&& frame.subrange(25, 57) == ev.hash
            &&& frame.skip(57) == encode_utf8(ev.name)
        }),
{
    let frame = upload_init_frame(ev);
    lemma_u64_round_trip(ev.size);
    assert(frame.subrange(1, 9) =~= be_bytes(ev.size as nat, 8));
    assert(frame.subrange(9, 25) =~= ev.file_id);
    assert(frame.subrange(25, 57) =~= ev.hash);
    assert(frame.skip(57) =~= encode_utf8(ev.name));
}

/// The layout of a chunk: tag, offset, file id, data.
pub proof fn lemma_chunk_layout(chunk: ChunkEventView)
    requires
        chunk.file_id.len() == 16,
    ensures
        ({
            let frame = chunk_frame(chunk);
            &&& frame.len() == 25 + chunk.data.len()
            &&& frame[0] == 0x03
            &&& be_value(frame.subrange(1, 9)) == chunk.offset
            &&& frame.subrange(9, 25) == chunk.file_id
            &&& frame.skip(25) == chunk.data
        }),
{
    let frame = chunk_frame(chunk);
    lemma_u64_round_trip(chunk.offset);
    assert(frame.subrange(1, 9) =~= be_bytes(chunk.offset as nat, 8));
    assert(frame.subrange(9, 25) =~= chunk.file_id);
    assert(frame.skip(25) =~= chunk.data);
}

/// The layout of the end of an upload: tag, file id.
pub proof fn lemma_upload_done_layout(ev: UploadDoneEventView)
    requires
        ev.file_id.len() == 16,
    ensures
        upload_done_frame(ev).len() == 17,
        upload_done_frame(ev)[0] == 0x05,
        upload_done_frame(ev).skip(1) == ev.file_id,
{
    assert(upload_done_frame(ev).skip(1) =~= ev.file_id);
}

/// The layout of the answers to an announcement and to a chunk: tag, offset, file
/// id.
pub proof fn lemma_ack_layouts(init_ack: UploadInitACKView, chunk_ack: ChunkACKView)
    requires
        init_ack.file_id.len() == 16,
        chunk_ack.file_id.len() == 16,
    ensures
        ({
            let frame = upload_init_ack_frame(init_ack);
            &&& frame.len() == 25
            &&& frame[0] == 0x02
            &&& be_value(frame.subrange(1, 9)) == init_ack.offset
            &&& frame.skip(9) == init_ack.file_id
        }),
        ({
            let frame = chunk_ack_frame(chunk_ack);
            &&& frame.len() == 25
            &&& frame[0] == 0x04
            &&& be_value(frame.subrange(1, 9)) == chunk_ack.offset
            &&& frame.skip(9) == chunk_ack.file_id
        }),
{
    let frame = upload_init_ack_frame(init_ack);
    lemma_u64_round_trip(init_ack.offset);
    assert(frame.subrange(1, 9) =~= be_bytes(init_ack.offset as nat, 8));
    assert(frame.skip(9) =~= init_ack.file_id);
    let frame = chunk_ack_frame(chunk_ack);
    lemma_u64_round_trip(chunk_ack.offset);
    assert(frame.subrange(1, 9) =~= be_bytes(chunk_ack.offset as nat, 8));
    assert(frame.skip(9) =~= chunk_ack.file_id);
}

/// The layout of the answer to the end of an upload: tag, one for good and zero for
/// bad, file id, message.
pub proof fn lemma_upload_done_ack_layout(ack: UploadDoneACKView)
    requires
        ack.file_id.len() == 16,
    ensures
        ({
            let frame = upload_done_ack_frame(ack);
            &&& frame.len() == 18 + encode_utf8(ack.msg).len()
            &&& frame[0] == 0x06
            &&& ack.ok ==> frame[1] == 1
            &&& !ack.ok ==> frame[1] == 0
            &&& frame.subrange(2, 18) == ack.file_id
            &&& frame.skip(18) == encode_utf8(ack.msg)
        }),
{
    let frame = upload_done_ack_frame(ack);
    assert(frame.subrange(2, 18) =~= ack.file_id);
    assert(frame.skip(18) =~= encode_utf8(ack.msg));
}

/// The layout of a reported error: tag, code, message.
pub proof fn lemma_error_layout(err_msg: ErrMsgView)
    ensures
        ({
            let frame = error_frame(err_msg);
            &&& frame.len() == 3 + encode_utf8(err_msg.msg).len()
            &&& frame[0] == 0xFF
            &&& be_value(frame.subrange(1, 3)) == err_msg.code
            &&& frame.skip(3) == encode_utf8(err_msg.msg)
        }),
{
    let frame = error_frame(err_msg);
    lemma_be_bytes_len(err_msg.code as nat, 2);
    reveal_with_fuel(be_range, 3);
    lemma_be_round_trip(err_msg.code as nat, 2);
    assert(frame.subrange(1, 3) =~= be_bytes(err_msg.code as nat, 2));
    assert(frame.skip(3) =~= encode_utf8(err_msg.msg));
}

proof fn lemma_u64_of_bytes(s: Seq<u8>)
    requires
        s.len() == 8,
    ensures
        be_value(s) <= u64::MAX,
{
    lemma_be_value_bound(s);
    reveal_with_fuel(be_range, 9);
}

/// Any bytes behind the tag of an announcement are read in its layout, if there
/// are more than 56 of them.
pub proof fn lemma_upload_init_is_read_by_layout(body: Seq<u8>)
    ensures
        body.len() <= 56 ==> parse_upload_init(body) == Err::<UploadInitEventView, _>(
            SyncErrorView::BadChunkData("chunk length must > 56"@),
        ),
        body.len() > 56 ==> {
            &&& parse_upload_init(body) matches Ok(ev)
            &&& ev.size == be_value(body.subrange(0, 8))
            &&& ev.file_id == body.subrange(8, 24)
            &&& ev.hash == body.subrange(24, 56)
            &&& ev.name == lossy_text(body.skip(56))
        },
{
    if body.len() > 56 {
        assert(body.subrange(0, 8) =~= body.take(8));
        lemma_u64_of_bytes(body.take(8));
    }
}

/// Any bytes behind the tag of a chunk are read in its layout, if there are at
/// least 24 of them.
pub proof fn lemma_chunk_is_read_by_layout(body: Seq<u8>)
    ensures
        body.len() < 24 ==> parse_chunk_event(body) == Err::<ChunkEventView, _>(
            SyncErrorView::BadChunkData("chunk length must >= 24"@),
        ),
        body.len() >= 24 ==> {
            &&& parse_chunk_event(body) matches Ok(chunk)
            &&& chunk.offset == be_value(body.subrange(0, 8))
            &&& chunk.file_id == body.subrange(8, 24)
            &&& chunk.data == body.skip(24)
        },
{
    if body.len() >= 24 {
        assert(body.subrange(0, 8) =~= body.take(8));
        lemma_u64_of_bytes(body.take(8));
    }
}

/// Any bytes behind the tag of the end of an upload are read in its layout, if
/// there are at least 16 of them.
pub proof fn lemma_upload_done_is_read_by_layout(body: Seq<u8>)
    ensures
        body.len() < 16 ==> parse_upload_done(body) == Err::<UploadDoneEventView, _>(
            SyncErrorView::BadChunkData("chunk length must >= 16"@),
        ),
        body.len() >= 16 ==> {
            &&& parse_upload_done(body) matches Ok(ev)
            &&& ev.file_id == body.subrange(0, 16)
        },
{
    if body.len() >= 16 {
        assert(body.subrange(0, 16) =~= body.take(16));
    }
}

/// Any bytes behind the tag of the answer to an announcement or to a chunk are
/// read in its layout, if there are at least 24 of them.
pub proof fn lemma_acks_are_read_by_layout(body: Seq<u8>)
    ensures
        body.len() < 24 ==> parse_upload_init_ack(body) == Err::<UploadInitACKView, _>(
            SyncErrorView::BadChunkData("upload init ack chunk length must >= 24"@),
        ),
        body.len() >= 24 ==> {
            &&& parse_upload_init_ack(body) matches Ok(ack)
            &&& ack.offset == be_value(body.subrange(0, 8))
            &&& ack.file_id == body.subrange(8, 24)
        },
        body.len() < 24 ==> parse_chunk_ack(body) == Err::<ChunkACKView, _>(
            SyncErrorView::BadChunkData("chunk ack length must >= 24"@),
        ),
        body.len() >= 24 ==> {
            &&& parse_chunk_ack(body) matches Ok(ack)
            &&& ack.offset == be_value(body.subrange(0, 8))
            &&& ack.file_id == body.subrange(8, 24)
        },
{
    if body.len() >= 24 {
        assert(body.subrange(0, 8) =~= body.take(8));
        lemma_u64_of_bytes(body.take(8));
    }
}

/// Any bytes behind the tag of a verdict are read in its layout, if there are at
/// least 17 of them. Every first byte but zero is good.
pub proof fn lemma_upload_done_ack_is_read_by_layout(body: Seq<u8>)
    ensures
        body.len() < 17 ==> parse_upload_done_ack(body) == Err::<UploadDoneACKView, _>(
            SyncErrorView::BadChunkData("upload done ack length must >= 17"@),
        ),
        body.len() >= 17 ==> {
            &&& parse_upload_done_ack(body) matches Ok(ack)
            &&& ack.ok <==> body[0] != 0
            &&& ack.file_id == body.subrange(1, 17)
            &&& ack.msg == lossy_text(body.skip(17))
        },
{
}

/// What stands behind the tag of a reported error is read in its layout, if it is
/// more than one byte.
pub proof fn lemma_error_is_read_by_layout(body: Seq<u8>)
    ensures
        body.len() <= 1 ==> parse_error(body) == Err::<ErrMsgView, _>(
            SyncErrorView::BadChunkData("chunk length must > 1"@),
        ),
        body.len() > 1 ==> {
            &&& parse_error(body) matches Ok(err_msg)
            &&& err_msg.code == be_value(body.subrange(0, 2))
            &&& err_msg.msg == lossy_text(body.skip(2))
        },
{
    if body.len() > 1 {
        assert(body.subrange(0, 2) =~= body.take(2));
        lemma_be_value_bound(body.take(2));
        reveal_with_fuel(be_range, 3);
    }
}

/// Chunks fit into frames as long as there is room for 25 bytes in front of the
/// data.
pub proof fn lemma_chunks_fit(chunks: Seq<ChunkEventView>)
    requires
        forall|i: int|
            0 <= i < chunks.len() ==> (#[trigger] chunks[i]).file_id.len() == 16
                && chunks[i].data.len() + 25 <= isize::MAX,
    ensures
        frames_fit(chunks),
{
    assert forall|i: int| 0 <= i < chunks.len() implies chunk_frame(#[trigger] chunks[i]).len()
        <= isize::MAX by {
        lemma_chunk_layout(chunks[i]);
    }
}

} // verus!
