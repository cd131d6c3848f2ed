use bytes::{Buf, Bytes, BytesMut};
use sync_rs::config::{MAX_SEND_TASK, SERVER_FOLDER};
use sync_rs::errors::{
    SyncClientError, SyncError, BADCHUNK_ERRCODE, DUPLICATE_FILE_ERRCODE, FILESIZE_EXCEED_ERRCODE,
    IO_ERRCODE, NO_CHUNKS_CODE, SERVER_NO_RESP_CODE, UNKNOWN_EVENT_CODE, UPLOAD_NOT_INIT_CODE,
};
use sync_rs::ids::id_to_string;
use sync_rs::protocol::{
    decode_error, decode_upload_init, encode_chunk_ack, encode_chunk_event, encode_upload_done,
    encode_upload_init, ChunkACK, ChunkEvent, ErrMsg, FileUploadState, UploadDoneEvent, UploadInitEvent,
};
use sync_rs::registry::{CheckFile, CreateFile, FileRegistry, FolderOutcome, WriteChunk};
use sync_rs::tcp;
use sync_rs::tcp::{SendStep, StreamAction, StreamEvent, WriterEvent};
use sync_rs::transport::client::{OngoingState, ServerReply};
use sync_rs::transport::server::{
    encode_server_resp_event, response_frame, ServerAction, ServerRespEvent,
};
use sync_rs::transport::{ClientFileProcessor, ServerFileProcessor};

const ID: [u8; 16] = [7; 16];

fn id_text() -> String {
    "07070707-0707-0707-0707-070707070707".to_string()
}

fn init_frame(name: &str, contents: &[u8]) -> BytesMut {
    BytesMut::from(encode_upload_init(UploadInitEvent {
        file_id: ID,
        size: contents.len() as u64,
        hash: *blake3::hash(contents).as_bytes(),
        name: name.to_string(),
    }))
}

fn chunk_frame(offset: u64, data: &'static [u8]) -> BytesMut {
    encode_chunk_event(ChunkEvent { file_id: ID, offset, data: Bytes::from_static(data) })
}

fn done_frame() -> BytesMut {
    encode_upload_done(UploadDoneEvent { file_id: ID })
}

fn create(action: ServerAction) -> CreateFile {
    match action {
        ServerAction::Create(job) => job,
        other => panic!("{:?}", other),
    }
}

fn write(action: ServerAction) -> WriteChunk {
    match action {
        ServerAction::Write(job) => job,
        other => panic!("{:?}", other),
    }
}

fn check(action: ServerAction) -> CheckFile {
    match action {
        ServerAction::Check(job) => job,
        other => panic!("{:?}", other),
    }
}

fn announce(server: &mut ServerFileProcessor, name: &str, contents: &[u8]) -> CreateFile {
    let job = create(server.handle_stream(&mut init_frame(name, contents)).unwrap());
    server.file_created(&job, Ok(())).unwrap();
    job
}

fn report(frame: Bytes) -> ErrMsg {
    let mut bs = BytesMut::from(frame);
    assert_eq!(bs.get_u8(), 0xff);
    decode_error(&mut bs).unwrap()
}

#[test]
fn a_whole_upload() {
    let contents = b"hello, upload".to_vec();
    let reads: Vec<Vec<u8>> = contents.chunks(5).map(|b| b.to_vec()).collect();
    let mut client = ClientFileProcessor::new("/path/to/local/file.txt");
    let chunks = client.chunk_and_hash_file(contents.len() as u64, 4, &reads);
    assert_eq!(client.meta.total_size, 13);
    assert_eq!(client.meta.hash, Some(*blake3::hash(&contents).as_bytes()));
    assert_eq!(client.ongoing.upload_offsets.len(), 4);

    let mut server = ServerFileProcessor::new();
    let mut request = BytesMut::from(client.send_upload_init());
    let job = create(server.handle_stream(&mut request).unwrap());
    let place = format!("/tmp/uploads/{}_file.txt", id_to_string(&client.meta.file_id));
    assert_eq!(job.path, place);
    assert_eq!(job.size, 13);
    let mut file = vec![0u8; job.size as usize];
    let frame = response_frame(server.file_created(&job, Ok(())));
    let ack = client.recv_upload_init_ack(ServerReply::Frame(BytesMut::from(frame))).unwrap();
    assert_eq!(ack.file_id, client.meta.file_id);
    assert_eq!(ack.offset, 0);
    assert_eq!(server.state(&client.meta.file_id), Some(FileUploadState::Init));

    let (mut sender, frame) = client.send_chunks(chunks).unwrap();
    let mut next = Some(frame);
    let mut sent: usize = 0;
    while let Some(frame) = next {
        let job = write(server.handle_stream(&mut BytesMut::from(frame)).unwrap());
        assert_eq!(job.path, place);
        assert_eq!(job.offset, 4 * sent as u64);
        assert!(client.ongoing.upload_offsets.contains(&job.offset));
        let start = job.offset as usize;
        file[start..start + job.data.len()].copy_from_slice(&job.data);
        let answer = response_frame(server.chunk_written(&job, Ok(())));
        let reply = ServerReply::Frame(BytesMut::from(answer));
        next = client.on_chunk_reply(&mut sender, reply).unwrap();
        assert!(!client.ongoing.upload_offsets.contains(&job.offset));
        sent += 1;
    }
    assert_eq!(sent, 4);
    assert_eq!(file, contents);
    assert!(client.ongoing.upload_offsets.is_empty());
    assert_eq!(server.state(&client.meta.file_id), Some(FileUploadState::Uploading));

    let mut request = BytesMut::from(client.send_upload_done());
    let job = check(server.handle_stream(&mut request).unwrap());
    assert_eq!(job.path, place);
    let frame = response_frame(server.contents_checked(&job, &file));
    let ack = client.recv_upload_done_ack(ServerReply::Frame(BytesMut::from(frame))).unwrap();
    assert!(ack.ok);
    assert_eq!(ack.msg, "upload success for: file.txt");
    assert_eq!(server.state(&client.meta.file_id), Some(FileUploadState::Done));
}

#[test]
fn a_broken_file_is_rejected() {
    let mut server = ServerFileProcessor::new();
    announce(&mut server, "a.txt", b"right");
    let job = check(server.handle_stream(&mut done_frame()).unwrap());
    let frame = response_frame(server.contents_checked(&job, b"wrong"));
    let mut client = ClientFileProcessor::new("a.txt");
    client.meta.file_id = ID;
    let ack = client.recv_upload_done_ack(ServerReply::Frame(BytesMut::from(frame))).unwrap();
    assert!(!ack.ok);
    assert_eq!(ack.msg, "file is broken, pls retry");
    assert_eq!(server.state(&ID), Some(FileUploadState::Init));

    let job = check(server.handle_stream(&mut done_frame()).unwrap());
    let r = server.file_checked(&job, Ok(*blake3::hash(b"right").as_bytes()));
    match r.unwrap() {
        ServerRespEvent::UploadDoneACK(ack) => assert!(ack.ok),
        other => panic!("{:?}", other),
    }
    assert_eq!(server.state(&ID), Some(FileUploadState::Done));
}

#[test]
fn a_second_announcement_is_refused() {
    let mut server = ServerFileProcessor::new();
    let first = announce(&mut server, "a.txt", b"right");
    let e = server.handle_stream(&mut init_frame("b.txt", b"other")).unwrap_err();
    assert_eq!(e.message(), format!("duplicate file: {}", id_text()));
    let told = report(response_frame(Err(e)));
    assert_eq!(told, ErrMsg { code: DUPLICATE_FILE_ERRCODE, msg: id_text() });
    let job = write(server.handle_stream(&mut chunk_frame(0, b"r")).unwrap());
    assert_eq!(job.path, first.path);
}

#[test]
fn a_file_that_could_not_be_created_stays_announced() {
    let mut server = ServerFileProcessor::new();
    let job = create(server.handle_stream(&mut init_frame("a", b"x")).unwrap());
    let r = server.file_created(&job, Err("disk full".to_string()));
    let told = report(response_frame(r));
    assert_eq!(told, ErrMsg { code: IO_ERRCODE, msg: "disk full".to_string() });
    assert_eq!(server.state(&ID), None);
    assert!(matches!(
        server.handle_stream(&mut init_frame("a", b"x")),
        Err(SyncError::DuplicateFile(_))
    ));
}

#[test]
fn nothing_goes_before_the_announcement() {
    let mut server = ServerFileProcessor::new();
    for mut frame in [chunk_frame(3, b"x"), done_frame()] {
        let e = server.handle_stream(&mut frame).unwrap_err();
        assert_eq!(e.message(), format!("file upload not init: {}", id_text()));
        let told = report(response_frame(Err(e)));
        assert_eq!(told, ErrMsg { code: UPLOAD_NOT_INIT_CODE, msg: id_text() });
    }
    assert_eq!(server.state(&ID), None);
}

#[test]
fn unknown_and_short_requests_are_refused() {
    let mut server = ServerFileProcessor::new();
    let e = server.handle_stream(&mut BytesMut::from(&[9u8, 1][..])).unwrap_err();
    assert_eq!(e.message(), "unknown event: 9");
    assert_eq!(report(response_frame(Err(e))).code, UNKNOWN_EVENT_CODE);
    for tag in [1u8, 3, 5] {
        let e = server.handle_stream(&mut BytesMut::from(&[tag, 0][..])).unwrap_err();
        assert!(matches!(e, SyncError::BadChunkData(_)));
        assert_eq!(report(response_frame(Err(e))).code, BADCHUNK_ERRCODE);
    }
}

#[test]
fn failed_writes_and_checks_are_reported() {
    let mut server = ServerFileProcessor::new();
    announce(&mut server, "a", b"x");
    let job = write(server.handle_stream(&mut chunk_frame(5, b"x")).unwrap());
    let told = report(response_frame(server.chunk_written(&job, Err("no".to_string()))));
    assert_eq!(told, ErrMsg { code: IO_ERRCODE, msg: "no".to_string() });
    assert_eq!(server.state(&ID), Some(FileUploadState::Init));
    let job = check(server.handle_stream(&mut done_frame()).unwrap());
    let told = report(response_frame(server.file_checked(&job, Err("gone".to_string()))));
    assert_eq!(told, ErrMsg { code: IO_ERRCODE, msg: "gone".to_string() });
}

#[test]
fn chunks_reach_the_file_whatever_its_name() {
    for name in ["a.txt", "a/b", "/", "..", "x/08080808-0808-0808-0808-080808080808_other"] {
        let mut server = ServerFileProcessor::new();
        let created = announce(&mut server, name, b"x");
        assert_eq!(created.path, format!("/tmp/uploads/{}_{}", id_text(), name));
        let job = write(server.handle_stream(&mut chunk_frame(0, b"x")).unwrap());
        assert_eq!(job.path, created.path);
        let job = check(server.handle_stream(&mut done_frame()).unwrap());
        assert_eq!(job.path, created.path);
        let mut plain = tcp::ServerFileProcessor::new();
        assert!(plain.handle_stream(&mut init_frame(name, b"x")).is_ok());
        match plain.handle_stream(&mut chunk_frame(0, b"x")).unwrap() {
            StreamAction::Write(job) => assert_eq!(job.path, created.path),
            other => panic!("{:?}", other),
        }
    }
}

fn three_chunks(client: &mut ClientFileProcessor) -> Vec<ChunkEvent> {
    client.chunk_and_hash_file(6, 2, &vec![b"abcdef".to_vec()])
}

fn confirm(offset: u64) -> ServerReply {
    ServerReply::Frame(BytesMut::from(encode_chunk_ack(ChunkACK { file_id: ID, offset })))
}

#[test]
fn a_bad_answer_ends_the_run() {
    let mut client = ClientFileProcessor::new("a");
    let chunks = three_chunks(&mut client);
    let (mut sender, first) = client.send_chunks(chunks).unwrap();
    assert_eq!(first.last(), Some(&b'b'));
    let second = client.on_chunk_reply(&mut sender, confirm(0)).unwrap().unwrap();
    assert_eq!(second.last(), Some(&b'd'));
    let e = client.on_chunk_reply(&mut sender, ServerReply::Closed).unwrap_err();
    assert!(matches!(e, SyncError::ServerNoResp));
    assert!(!client.ongoing.upload_offsets.contains(&0));
    assert!(client.ongoing.upload_offsets.contains(&2));
    assert!(client.ongoing.upload_offsets.contains(&4));
}

#[test]
fn every_confirmed_chunk_brings_the_next() {
    let mut client = ClientFileProcessor::new("a");
    let chunks = three_chunks(&mut client);
    let (mut sender, _first) = client.send_chunks(chunks).unwrap();
    assert!(client.on_chunk_reply(&mut sender, confirm(0)).unwrap().is_some());
    assert!(client.on_chunk_reply(&mut sender, confirm(2)).unwrap().is_some());
    assert!(client.on_chunk_reply(&mut sender, confirm(4)).unwrap().is_none());
    assert!(client.ongoing.upload_offsets.is_empty());
}

#[test]
fn chunks_are_noted_as_they_are_read() {
    let mut client = ClientFileProcessor::new("a");
    let mut run = client.begin_chunking(5, 2);
    assert_eq!(client.meta.total_size, 5);
    assert!(client.take_block(&mut run, b"a"));
    assert_eq!(client.ongoing.upload_offsets.len(), 0);
    assert!(client.take_block(&mut run, b"bcd"));
    assert_eq!(client.ongoing.upload_offsets.len(), 2);
    assert!(client.take_block(&mut run, b"e"));
    assert!(!client.take_block(&mut run, b""));
    assert_eq!(client.ongoing.upload_offsets.len(), 2);
    let chunks = client.finish_chunking(run);
    assert_eq!(chunks.len(), 3);
    assert!(client.ongoing.upload_offsets.contains(&4));
    assert_eq!(client.meta.hash, Some(*blake3::hash(b"abcde").as_bytes()));
}

#[test]
fn an_upload_in_any_order() {
    let contents = b"0123456789".to_vec();
    let mut server = ServerFileProcessor::new();
    let job = announce(&mut server, "n", &contents);
    let mut file = vec![0u8; job.size as usize];
    for (offset, data) in [(7u64, &b"789"[..]), (0, b"012"), (3, b"3456"), (0, b"012")] {
        let frame = encode_chunk_event(ChunkEvent {
            file_id: ID,
            offset,
            data: Bytes::from_static(data),
        });
        let job = write(server.handle_stream(&mut BytesMut::from(&frame[..])).unwrap());
        let start = job.offset as usize;
        file[start..start + job.data.len()].copy_from_slice(&job.data);
        match server.chunk_written(&job, Ok(())).unwrap() {
            ServerRespEvent::ChunkACK(ack) => {
                assert_eq!(ack.offset, offset);
                assert_eq!(ack.file_id, ID);
            }
            other => panic!("{:?}", other),
        }
    }
    let job = check(server.handle_stream(&mut done_frame()).unwrap());
    match server.contents_checked(&job, &file).unwrap() {
        ServerRespEvent::UploadDoneACK(ack) => {
            assert!(ack.ok);
            assert_eq!(ack.msg, "upload success for: n");
        }
        other => panic!("{:?}", other),
    }
    assert_eq!(server.state(&ID), Some(FileUploadState::Done));
}

#[test]
fn files_do_not_collide() {
    let mut registry = FileRegistry::new();
    let mut paths: Vec<String> = Vec::new();
    for i in 0u8..20 {
        let mut frame = BytesMut::from(encode_upload_init(UploadInitEvent {
            file_id: [i; 16],
            size: 1,
            hash: [0; 32],
            name: "same".to_string(),
        }));
        assert_eq!(frame.get_u8(), 1);
        let job = registry.handle_upload_init(&mut frame).unwrap();
        assert!(!paths.contains(&job.path));
        paths.push(job.path);
    }
    for i in 0u8..20 {
        let job = registry.file_to_check(&[i; 16]).unwrap();
        assert_eq!(job.path, paths[i as usize]);
        assert_eq!(registry.state(&[i; 16]), None);
    }
}

fn chunk_refusal(reply: ServerReply) -> String {
    let mut client = ClientFileProcessor::new("a");
    let chunks = three_chunks(&mut client);
    let (mut sender, _first) = client.send_chunks(chunks).unwrap();
    client.on_chunk_reply(&mut sender, reply).unwrap_err().message()
}

#[test]
fn the_client_refuses_what_it_does_not_expect() {
    let client = ClientFileProcessor::new("a");
    let wrong = || ServerReply::Frame(BytesMut::from(&[0xffu8, 0, 1][..]));
    let e = client.recv_upload_init_ack(wrong()).unwrap_err();
    assert_eq!(e.message(), "chunk data is broken: expect upload init ack");
    assert_eq!(chunk_refusal(wrong()), "chunk data is broken: expect chunk ack");
    let e = client.recv_upload_done_ack(wrong()).unwrap_err();
    assert_eq!(e.message(), "chunk data is broken: expect upload done ack");

    let e = client.recv_upload_init_ack(ServerReply::Closed).unwrap_err();
    assert!(matches!(e, SyncError::ServerNoResp));
    assert_eq!(ErrMsg::from(e).code, SERVER_NO_RESP_CODE);
    assert_eq!(chunk_refusal(ServerReply::Failed("reset".to_string())), "io error: reset");
    let e = client.recv_upload_done_ack(ServerReply::Closed).unwrap_err();
    assert_eq!(e.message(), "server no response");
    let short = ServerReply::Frame(BytesMut::from(&[4u8, 0, 1][..]));
    assert_eq!(chunk_refusal(short), "chunk data is broken: chunk ack length must >= 24");
}

#[test]
fn there_must_be_something_to_send() {
    let mut client = ClientFileProcessor::new("a");
    let e = client.send_chunks(Vec::new()).unwrap_err();
    assert_eq!(e.message(), "no chunks");
    let told = ErrMsg::from(e);
    assert_eq!(told, ErrMsg { code: NO_CHUNKS_CODE, msg: "no file content chunks".to_string() });
    let client = tcp::ClientFileProcessor::new("a");
    assert!(matches!(client.send_chunks(Vec::new()), Err(SyncError::NoChunks)));
}

#[test]
fn errors_have_words_and_codes() {
    let cases = [
        (SyncError::FileSizeTooLarge(12), "file size exceed limit: 12", FILESIZE_EXCEED_ERRCODE, "12"),
        (SyncError::StdIOError("x".to_string()), "io error: x", IO_ERRCODE, "x"),
        (SyncError::IOError("y".to_string()), "failed to send data: y", IO_ERRCODE, "y"),
        (SyncError::BadChunkData("z".to_string()), "chunk data is broken: z", BADCHUNK_ERRCODE, "z"),
        (SyncError::NoChunks, "no chunks", NO_CHUNKS_CODE, "no file content chunks"),
        (SyncError::DuplicateFile("f".to_string()), "duplicate file: f", DUPLICATE_FILE_ERRCODE, "f"),
        (
            SyncError::FileUploadNotInit("g".to_string()),
            "file upload not init: g",
            UPLOAD_NOT_INIT_CODE,
            "g",
        ),
    ];
    let codes = [1002, 1001, 1001, 1003, 1006, 1004, 1005];
    for (i, (e, words, code, msg)) in cases.into_iter().enumerate() {
        assert_eq!(e.message(), words);
        let told = ErrMsg::from(e);
        assert_eq!(code, codes[i]);
        assert_eq!(told, ErrMsg { code, msg: msg.to_string() });
    }
    assert_eq!(SyncClientError::ConnectServerFailed.message(), "connect server fail");
}

#[test]
fn the_folder_may_be_there_already() {
    assert_eq!(SERVER_FOLDER, "/tmp/uploads");
    let server = ServerFileProcessor::new();
    assert!(server.create_folder(FolderOutcome::Created).is_ok());
    assert!(server.create_folder(FolderOutcome::AlreadyExists).is_ok());
    let e = server.create_folder(FolderOutcome::Failed("denied".to_string())).unwrap_err();
    assert_eq!(e.message(), "failed to send data: denied");
    let server = tcp::ServerFileProcessor::new();
    assert!(server.create_folder(FolderOutcome::AlreadyExists).is_ok());
    assert!(server.create_folder(FolderOutcome::Failed("denied".to_string())).is_err());
}

#[test]
fn offsets_come_and_go() {
    let mut ongoing = OngoingState::new();
    ongoing.insert_upload_offsets(5);
    ongoing.insert_upload_offsets(9);
    ongoing.insert_upload_offsets(5);
    assert_eq!(ongoing.upload_offsets.len(), 2);
    ongoing.remove_acked_offset(5);
    ongoing.remove_acked_offset(6);
    assert!(!ongoing.upload_offsets.contains(&5));
    assert!(ongoing.upload_offsets.contains(&9));
}

#[test]
fn answers_are_encoded_by_kind() {
    let mut server = ServerFileProcessor::new();
    let job = create(server.handle_stream(&mut init_frame("a", b"x")).unwrap());
    let resp = server.file_created(&job, Ok(())).unwrap();
    let frame = encode_server_resp_event(resp);
    assert_eq!(frame[0], 2);
    assert_eq!(&frame[1..9], &[0; 8]);
    assert_eq!(&frame[9..], &ID);
    let job = write(server.handle_stream(&mut chunk_frame(258, b"x")).unwrap());
    let frame = encode_server_resp_event(server.chunk_written(&job, Ok(())).unwrap());
    assert_eq!(frame[0], 4);
    assert_eq!(&frame[1..9], &[0, 0, 0, 0, 0, 0, 1, 2]);
}

fn tcp_client(n: usize) -> (tcp::ClientFileProcessor, Vec<ChunkEvent>) {
    let mut client = tcp::ClientFileProcessor::new("dir/f.bin");
    let blocks: Vec<Vec<u8>> = (0..n).map(|i| vec![i as u8; 3]).collect();
    let chunks = client.chunk_and_hash_file(3 * n as u64, 3, &blocks);
    (client, chunks)
}

#[test]
fn the_end_comes_behind_every_chunk() {
    let (client, chunks) = tcp_client(20);
    assert_eq!(client.meta.total_size, 60);
    let (mut pool, mut writer) = client.send_chunks(chunks).unwrap();
    let mut written: Vec<Bytes> = Vec::new();
    written.push(writer.on_event(WriterEvent::Opened).unwrap());
    let mut running: usize = 0;
    let mut most: usize = 0;
    loop {
        match pool.next_step() {
            SendStep::Start(frame) => {
                running += 1;
                most = most.max(running);
                written.push(writer.on_event(WriterEvent::Received(frame)).unwrap());
            }
            SendStep::Wait => {
                running -= 1;
                pool.task_ended();
            }
            SendStep::Finished => break,
        }
    }
    assert_eq!(running, 0);
    assert_eq!(most, MAX_SEND_TASK);
    written.push(writer.on_event(WriterEvent::Drained).unwrap());
    assert!(writer.on_event(WriterEvent::Drained).is_none());
    assert!(writer.finish().is_ok());
    assert_eq!(written.len(), 22);
    let mut init = BytesMut::from(written[0].as_ref());
    assert_eq!(init.get_u8(), 1);
    let ev = decode_upload_init(&mut init).unwrap();
    assert_eq!(ev.name, "f.bin");
    assert_eq!(ev.size, 60);
    assert_eq!(Some(ev.hash), client.meta.hash);
    for i in 0..20 {
        assert_eq!(written[i + 1][0], 3);
        assert_eq!(written[i + 1].last(), Some(&(i as u8)));
    }
    assert_eq!(written[21][0], 5);
    assert_eq!(&written[21][1..], &client.meta.file_id);
}

#[test]
fn a_finished_pool_has_started_every_chunk() {
    for n in [1usize, 8, 9, 30] {
        let (client, chunks) = tcp_client(n);
        let expected: Vec<Bytes> =
            chunks.iter().map(|c| encode_chunk_event(c.clone()).freeze()).collect();
        let (mut pool, _writer) = client.send_chunks(chunks).unwrap();
        let mut started: Vec<Bytes> = Vec::new();
        loop {
            match pool.next_step() {
                SendStep::Start(frame) => started.push(frame),
                SendStep::Wait => pool.task_ended(),
                SendStep::Finished => break,
            }
        }
        assert_eq!(started, expected);
    }
}

#[test]
fn an_upload_without_answers_in_any_order() {
    let (client, chunks) = tcp_client(12);
    let (_pool, mut writer) = client.send_chunks(chunks.clone()).unwrap();
    let mut written: Vec<Bytes> = vec![writer.on_event(WriterEvent::Opened).unwrap()];
    for i in [5usize, 0, 11, 3, 3, 1, 10, 2, 9, 4, 8, 6, 7] {
        let frame = encode_chunk_event(chunks[i].clone()).freeze();
        written.push(writer.on_event(WriterEvent::Received(frame)).unwrap());
    }
    written.push(writer.on_event(WriterEvent::Drained).unwrap());
    assert!(writer.finish().is_ok());

    let mut server = tcp::ServerFileProcessor::new();
    let mut file: Vec<u8> = Vec::new();
    let mut place = String::new();
    for frame in written {
        match server.handle_stream(&mut BytesMut::from(frame)).unwrap() {
            StreamAction::Create(job) => {
                file = vec![0; job.size as usize];
                server.file_created(&job, Ok(())).unwrap();
                place = job.path;
            }
            StreamAction::Write(job) => {
                assert_eq!(job.path, place);
                let start = job.offset as usize;
                file[start..start + job.data.len()].copy_from_slice(&job.data);
                server.chunk_written(&job, Ok(())).unwrap();
            }
            StreamAction::Nothing => {}
        }
    }
    assert_eq!(Some(*blake3::hash(&file).as_bytes()), client.meta.hash);
    assert_eq!(server.state(&client.meta.file_id), Some(FileUploadState::Done));
    let registered = server.file(&client.meta.file_id).unwrap();
    assert_eq!(registered.meta.file_path, place);
    assert_eq!(registered.name, "f.bin");
}

#[test]
fn registered_files_can_be_read() {
    let mut server = ServerFileProcessor::new();
    assert!(server.file(&ID).is_none());
    let job = announce(&mut server, "a.txt", b"right");
    let file = server.file(&ID).unwrap();
    assert_eq!(file.name, "a.txt");
    assert_eq!(file.meta.file_id, ID);
    assert_eq!(file.meta.file_path, job.path);
    assert_eq!(file.meta.file_name, format!("{}_a.txt", id_text()));
    assert_eq!(file.meta.total_size, 5);
    assert_eq!(file.meta.hash, Some(*blake3::hash(b"right").as_bytes()));
    assert!(server.file(&[8; 16]).is_none());
    assert!(FileRegistry::new().file(&ID).is_none());
}

#[test]
fn a_failed_write_ends_the_upload() {
    let (client, chunks) = tcp_client(2);
    let (_pool, mut writer) = client.send_chunks(chunks).unwrap();
    assert!(writer.on_event(WriterEvent::Opened).is_some());
    assert!(writer.on_event(WriterEvent::WriteFailed("pipe".to_string())).is_none());
    assert!(writer.on_event(WriterEvent::Received(Bytes::from_static(b"x"))).is_none());
    assert!(writer.on_event(WriterEvent::Drained).is_none());
    assert!(writer.on_event(WriterEvent::WriteFailed("again".to_string())).is_none());
    assert_eq!(writer.finish().unwrap_err().message(), "failed to send data: pipe");
}

#[test]
fn the_server_without_answers() {
    let mut server = tcp::ServerFileProcessor::new();
    let job = match server.handle_stream(&mut init_frame("a.txt", b"abc")).unwrap() {
        StreamAction::Create(job) => job,
        other => panic!("{:?}", other),
    };
    assert_eq!(job.path, format!("/tmp/uploads/{}_a.txt", id_text()));
    assert!(server.file_created(&job, Ok(())).is_ok());
    assert_eq!(server.state(&ID), Some(FileUploadState::Init));
    let job = match server.handle_stream(&mut chunk_frame(1, b"bc")).unwrap() {
        StreamAction::Write(job) => job,
        other => panic!("{:?}", other),
    };
    assert_eq!(job.offset, 1);
    assert_eq!(job.data.as_ref(), b"bc");
    let e = server.chunk_written(&job, Err("no".to_string())).unwrap_err();
    assert_eq!(e.message(), "failed to send data: no");
    assert_eq!(server.state(&ID), Some(FileUploadState::Init));
    assert!(server.chunk_written(&job, Ok(())).is_ok());
    assert_eq!(server.state(&ID), Some(FileUploadState::Uploading));
    assert!(matches!(server.handle_stream(&mut done_frame()), Ok(StreamAction::Nothing)));
    assert_eq!(server.state(&ID), Some(FileUploadState::Done));

    let mut odd = BytesMut::from(&[0x42u8, 1, 2][..]);
    assert!(matches!(server.handle_stream(&mut odd), Ok(StreamAction::Nothing)));
    let mut other = encode_upload_done(UploadDoneEvent { file_id: [1; 16] });
    assert!(matches!(server.handle_stream(&mut other), Ok(StreamAction::Nothing)));
    assert_eq!(server.state(&[1; 16]), Some(FileUploadState::Done));
    assert!(matches!(
        server.handle_stream(&mut init_frame("b", b"x")),
        Err(SyncError::DuplicateFile(_))
    ));
    let ev = StreamEvent::Unknown;
    assert_eq!(format!("{:?}", ev), "Unknown");
}
