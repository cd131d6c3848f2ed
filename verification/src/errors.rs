//! Errors, and the codes under which they are reported to the other side.

use crate::protocol::{ErrMsg, ErrMsgView};
use crate::text::{decimal, joined, to_decimal};
use vstd::prelude::*;
use vstd::string::*;

verus! {

/// What can go wrong before the client talks to the server.
#[derive(Debug)]
pub enum SyncClientError {
    /// No connection to the server could be made.
    ConnectServerFailed,
}

impl SyncClientError {
    /// The error, in words.
    pub fn message(&self) -> (text: String)
        ensures
            text@ == "connect server fail"@,
    {
        "connect server fail".to_string()
    }
}

/// What can go wrong during an upload.
#[derive(Debug)]
pub enum SyncError {
    /// The file is larger than allowed.
    FileSizeTooLarge(usize),
    /// Reading from the connection failed, for the reason given.
    StdIOError(String),
    /// A file or the connection could not be worked with, for the reason given.
    IOError(String),
    /// A frame is not what the protocol asks for.
    BadChunkData(String),
    /// There is nothing to send.
    NoChunks,
    /// The file with this identifier is registered already.
    DuplicateFile(String),
    /// No file with this identifier is registered.
    FileUploadNotInit(String),
    /// The connection was closed before the server answered.
    ServerNoResp,
    /// No request starts with this tag.
    UnknownEvent(u8),
}

/// What a [`SyncError`] says, with its text as characters.
pub enum SyncErrorView {
    FileSizeTooLarge(usize),
    StdIOError(Seq<char>),
    IOError(Seq<char>),
    BadChunkData(Seq<char>),
    NoChunks,
    DuplicateFile(Seq<char>),
    FileUploadNotInit(Seq<char>),
    ServerNoResp,
    UnknownEvent(u8),
}

impl View for SyncError {
    type V = SyncErrorView;

    open spec fn view(&self) -> SyncErrorView {
        match self {
            SyncError::FileSizeTooLarge(n) => SyncErrorView::FileSizeTooLarge(*n),
            SyncError::StdIOError(e) => SyncErrorView::StdIOError(e@),
            SyncError::IOError(e) => SyncErrorView::IOError(e@),
            SyncError::BadChunkData(e) => SyncErrorView::BadChunkData(e@),
            SyncError::NoChunks => SyncErrorView::NoChunks,
            SyncError::DuplicateFile(e) => SyncErrorView::DuplicateFile(e@),
            SyncError::FileUploadNotInit(e) => SyncErrorView::FileUploadNotInit(e@),
            SyncError::ServerNoResp => SyncErrorView::ServerNoResp,
            SyncError::UnknownEvent(tag) => SyncErrorView::UnknownEvent(*tag),
        }
    }
}

pub const IO_ERRCODE: u16 = 1001;

pub const FILESIZE_EXCEED_ERRCODE: u16 = 1002;

pub const BADCHUNK_ERRCODE: u16 = 1003;

pub const DUPLICATE_FILE_ERRCODE: u16 = 1004;

pub const UPLOAD_NOT_INIT_CODE: u16 = 1005;

pub const NO_CHUNKS_CODE: u16 = 1006;

pub const SERVER_NO_RESP_CODE: u16 = 1007;

pub const UNKNOWN_EVENT_CODE: u16 = 1008;

/// The words for an error.
pub open spec fn error_message(err: SyncErrorView) -> Seq<char> {
    match err {
        SyncErrorView::FileSizeTooLarge(n) => "file size exceed limit: "@ + decimal(n as nat),
        SyncErrorView::StdIOError(e) => "io error: "@ + e,
        SyncErrorView::IOError(e) => "failed to send data: "@ + e,
        SyncErrorView::BadChunkData(e) => "chunk data is broken: "@ + e,
        SyncErrorView::NoChunks => "no chunks"@,
        SyncErrorView::DuplicateFile(e) => "duplicate file: "@ + e,
        SyncErrorView::FileUploadNotInit(e) => "file upload not init: "@ + e,
        SyncErrorView::ServerNoResp => "server no response"@,
        SyncErrorView::UnknownEvent(tag) => "unknown event: "@ + decimal(tag as nat),
    }
}

/// What the other side is told about an error: a code for its kind, and what
/// it is about.
pub open spec fn error_report(err: SyncErrorView) -> ErrMsgView {
    match err {
        SyncErrorView::IOError(e) => ErrMsgView { code: IO_ERRCODE, msg: e },
        SyncErrorView::StdIOError(e) => ErrMsgView { code: IO_ERRCODE, msg: e },
        SyncErrorView::FileSizeTooLarge(n) => ErrMsgView {
            code: FILESIZE_EXCEED_ERRCODE,
            msg: decimal(n as nat),
        },
        SyncErrorView::BadChunkData(e) => ErrMsgView { code: BADCHUNK_ERRCODE, msg: e },
        SyncErrorView::DuplicateFile(e) => ErrMsgView { code: DUPLICATE_FILE_ERRCODE, msg: e },
        SyncErrorView::FileUploadNotInit(e) => ErrMsgView { code: UPLOAD_NOT_INIT_CODE, msg: e },
        SyncErrorView::NoChunks => ErrMsgView {
            code: NO_CHUNKS_CODE,
            msg: "no file content chunks"@,
        },
        SyncErrorView::ServerNoResp => ErrMsgView {
            code: SERVER_NO_RESP_CODE,
            msg: "server no response"@,
        },
        SyncErrorView::UnknownEvent(tag) => ErrMsgView {
            code: UNKNOWN_EVENT_CODE,
            msg: decimal(tag as nat),
        },
    }
}

impl SyncError {
    /// The error, in words.
    pub fn message(&self) -> (text: String)
        ensures
            text@ == error_message(self@),
    {
        match self {
            SyncError::FileSizeTooLarge(n) => {
                joined("file size exceed limit: ", to_decimal(*n as u64).as_str())
            },
            SyncError::StdIOError(e) => joined("io error: ", e.as_str()),
            SyncError::IOError(e) => joined("failed to send data: ", e.as_str()),
            SyncError::BadChunkData(e) => joined("chunk data is broken: ", e.as_str()),
            SyncError::NoChunks => "no chunks".to_string(),
            SyncError::DuplicateFile(e) => joined("duplicate file: ", e.as_str()),
            SyncError::FileUploadNotInit(e) => joined("file upload not init: ", e.as_str()),
            SyncError::ServerNoResp => "server no response".to_string(),
            SyncError::UnknownEvent(tag) => {
                joined("unknown event: ", to_decimal(*tag as u64).as_str())
            },
        }
    }
}

impl From<SyncError> for ErrMsg {
    fn from(err: SyncError) -> (report: ErrMsg)
        ensures
            report@ == error_report(err@),
    {
        match err {
            SyncError::IOError(e) => ErrMsg::new(IO_ERRCODE, e.as_str()),
            SyncError::StdIOError(e) => ErrMsg::new(IO_ERRCODE, e.as_str()),
            SyncError::FileSizeTooLarge(n) => {
                ErrMsg::new(FILESIZE_EXCEED_ERRCODE, to_decimal(n as u64).as_str())
            },
            SyncError::BadChunkData(e) => ErrMsg::new(BADCHUNK_ERRCODE, e.as_str()),
            SyncError::DuplicateFile(e) => ErrMsg::new(DUPLICATE_FILE_ERRCODE, e.as_str()),
            SyncError::FileUploadNotInit(e) => ErrMsg::new(UPLOAD_NOT_INIT_CODE, e.as_str()),
            SyncError::NoChunks => ErrMsg::new(NO_CHUNKS_CODE, "no file content chunks"),
            SyncError::ServerNoResp => ErrMsg::new(SERVER_NO_RESP_CODE, "server no response"),
            SyncError::UnknownEvent(tag) => {
                ErrMsg::new(UNKNOWN_EVENT_CODE, to_decimal(tag as u64).as_str())
            },
        }
    }
}

impl vstd::std_specs::convert::FromSpecImpl<SyncError> for ErrMsg {
    open spec fn obeys_from_spec() -> bool {
        false
    }

    open spec fn from_spec(err: SyncError) -> ErrMsg {
        arbitrary()
    }
}

/// An error says what it was made with.
pub proof fn lemma_errors_say_what_they_hold(n: usize, tag: u8, e: String)
    ensures
        SyncError::FileSizeTooLarge(n)@ == SyncErrorView::FileSizeTooLarge(n),
        SyncError::StdIOError(e)@ == SyncErrorView::StdIOError(e@),
        SyncError::IOError(e)@ == SyncErrorView::IOError(e@),
        SyncError::BadChunkData(e)@ == SyncErrorView::BadChunkData(e@),
        SyncError::NoChunks@ == SyncErrorView::NoChunks,
        SyncError::DuplicateFile(e)@ == SyncErrorView::DuplicateFile(e@),
        SyncError::FileUploadNotInit(e)@ == SyncErrorView::FileUploadNotInit(e@),
        SyncError::ServerNoResp@ == SyncErrorView::ServerNoResp,
        SyncError::UnknownEvent(tag)@ == SyncErrorView::UnknownEvent(tag),
{
}

/// What an error is about comes last in its words.
pub proof fn lemma_error_words(n: usize, tag: u8, e: Seq<char>)
    ensures
        error_message(SyncErrorView::FileSizeTooLarge(n)) == "file size exceed limit: "@ + decimal(
            n as nat,
        ),
        error_message(SyncErrorView::StdIOError(e)) == "io error: "@ + e,
        error_message(SyncErrorView::IOError(e)) == "failed to send data: "@ + e,
        error_message(SyncErrorView::BadChunkData(e)) == "chunk data is broken: "@ + e,
        error_message(SyncErrorView::NoChunks) == "no chunks"@,
        error_message(SyncErrorView::DuplicateFile(e)) == "duplicate file: "@ + e,
        error_message(SyncErrorView::FileUploadNotInit(e)) == "file upload not init: "@ + e,
        error_message(SyncErrorView::ServerNoResp) == "server no response"@,
        error_message(SyncErrorView::UnknownEvent(tag)) == "unknown event: "@ + decimal(tag as nat),
{
}

/// The other side is told a fixed code, and what the error is about.
pub proof fn lemma_error_reports(n: usize, tag: u8, e: Seq<char>)
    ensures
        error_report(SyncErrorView::IOError(e)) == (ErrMsgView { code: 1001, msg: e }),
        error_report(SyncErrorView::StdIOError(e)) == (ErrMsgView { code: 1001, msg: e }),
        error_report(SyncErrorView::FileSizeTooLarge(n)) == (ErrMsgView {
            code: 1002,
            msg: decimal(n as nat),
        }),
        error_report(SyncErrorView::BadChunkData(e)) == (ErrMsgView { code: 1003, msg: e }),
        error_report(SyncErrorView::DuplicateFile(e)) == (ErrMsgView { code: 1004, msg: e }),
        error_report(SyncErrorView::FileUploadNotInit(e)) == (ErrMsgView { code: 1005, msg: e }),
        error_report(SyncErrorView::NoChunks) == (ErrMsgView {
            code: 1006,
            msg: "no file content chunks"@,
        }),
        error_report(SyncErrorView::ServerNoResp) == (ErrMsgView {
            code: 1007,
            msg: "server no response"@,
        }),
        error_report(SyncErrorView::UnknownEvent(tag)) == (ErrMsgView {
            code: 1008,
            msg: decimal(tag as nat),
        }),
{
}

} // verus!
