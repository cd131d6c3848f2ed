use bytes::{Buf, BufMut, Bytes, BytesMut};
use sync_rs::errors::SyncError;
use sync_rs::ids::{file_key, id_to_string, new_file_id};
use sync_rs::protocol::{
    decode_chunk_ack, decode_chunk_event, decode_error, decode_upload_done,
    decode_upload_done_ack, decode_upload_init, decode_upload_init_ack, encode_chunk_ack,
    encode_chunk_event, encode_error, encode_upload_done, encode_upload_done_ack,
    encode_upload_init, encode_upload_init_ack, ChunkACK, ChunkEvent, ErrMsg, FileMeta,
    UploadDoneACK, UploadDoneEvent, UploadInitACK, UploadInitEvent, CHUNK_ACK_TAG, CHUNK_TAG,
    ERR_TAG, UPLOAD_DONE_ACK_TAG, UPLOAD_DONE_TAG, UPLOAD_INIT_ACK_TAG, UPLOAD_INIT_TAG,
};

const ID: [u8; 16] = [
    0x00, 0x11, 0x22, 0x33, 0x44, 0x55, 0x66, 0x77, 0x88, 0x99, 0xaa, 0xbb, 0xcc, 0xdd, 0xee, 0xff,
];

fn bad(e: SyncError) -> String {
    match e {
        SyncError::BadChunkData(text) => text,
        other => panic!("{:?}", other),
    }
}

#[test]
fn test_encode_decode_upload_init() {
    let arr = [0u8; 32];
    let init_ev = UploadInitEvent {
        file_id: uuid::Uuid::new_v4().into_bytes(),
        size: 100,
        hash: *blake3::Hash::from_bytes(arr).as_bytes(),
        name: "test.txt".to_string(),
    };

    println!("encode {:?}", init_ev);
    let mut bs = encode_upload_init(init_ev.clone());

    let tag = bs.get_u8();
    println!("tag: {}", tag);

    let mut bs_mut = BytesMut::from(bs);
    let decode_ev = decode_upload_init(&mut bs_mut);
    println!("decode_ev: {:?}", decode_ev);
    assert!(decode_ev.is_ok());

    assert_eq!(init_ev, decode_ev.unwrap());
}

#[test]
fn test_encode_decode_chunk_event() {
    let ev = ChunkEvent {
        file_id: uuid::Uuid::new_v4().into_bytes(),
        offset: 1024,
        data: Bytes::from_static(b"hello world chunk payload"),
    };

    let mut bs = encode_chunk_event(ev.clone());
    let tag = bs.get_u8();
    assert_eq!(tag, CHUNK_TAG);

    let decode_ev = decode_chunk_event(&mut bs).unwrap();
    assert_eq!(decode_ev, ev);
}

#[test]
fn test_encode_decode_err_msg() {
    let ev = ErrMsg {
        code: 42,
        msg: "something went wrong".to_string(),
    };

    let mut bs = BytesMut::from(encode_error(ev.clone()));
    let tag = bs.get_u8();
    assert_eq!(tag, ERR_TAG);

    let decode_ev = decode_error(&mut bs).unwrap();
    assert_eq!(decode_ev, ev);
}

#[test]
fn test_encode_decode_upload_done() {
    let ev = UploadDoneEvent {
        file_id: uuid::Uuid::new_v4().into_bytes(),
    };

    let mut bs = encode_upload_done(ev.clone());
    let tag = bs.get_u8();
    assert_eq!(tag, UPLOAD_DONE_TAG);

    let decode_ev = decode_upload_done(&mut bs).unwrap();
    assert_eq!(decode_ev, ev);
}

#[test]
fn test_encode_decode_upload_init_ack() {
    let ev = UploadInitACK {
        file_id: uuid::Uuid::new_v4().into_bytes(),
        offset: 4096,
    };

    let mut bs = BytesMut::from(encode_upload_init_ack(ev.clone()));
    let tag = bs.get_u8();
    assert_eq!(tag, UPLOAD_INIT_ACK_TAG);

    let decode_ev = decode_upload_init_ack(&mut bs).unwrap();
    assert_eq!(decode_ev, ev);
}

#[test]
fn test_encode_decode_chunk_ack() {
    let ev = ChunkACK {
        file_id: uuid::Uuid::new_v4().into_bytes(),
        offset: 8192,
    };

    let mut bs = BytesMut::from(encode_chunk_ack(ev.clone()));
    let tag = bs.get_u8();
    assert_eq!(tag, CHUNK_ACK_TAG);

    let decode_ev = decode_chunk_ack(&mut bs).unwrap();
    assert_eq!(decode_ev, ev);
}

#[test]
fn test_encode_decode_upload_done_ack() {
    let ev = UploadDoneACK {
        file_id: uuid::Uuid::new_v4().into_bytes(),
        ok: true,
        msg: "finalized ok".to_string(),
    };

    let mut bs = BytesMut::from(encode_upload_done_ack(ev.clone()));
    let tag = bs.get_u8();
    assert_eq!(tag, UPLOAD_DONE_ACK_TAG);

    let decode_ev = decode_upload_done_ack(&mut bs).unwrap();
    assert_eq!(decode_ev, ev);
}

#[test]
fn test_encode_decode_upload_done_ack_failure() {
    let ev = UploadDoneACK {
        file_id: uuid::Uuid::new_v4().into_bytes(),
        ok: false,
        msg: "hash mismatch".to_string(),
    };

    let mut bs = BytesMut::from(encode_upload_done_ack(ev.clone()));
    let tag = bs.get_u8();
    assert_eq!(tag, UPLOAD_DONE_ACK_TAG);

    let decode_ev = decode_upload_done_ack(&mut bs).unwrap();
    assert_eq!(decode_ev, ev);
}

#[test]
fn tcp_test_uuid_v4() {
    let uid = new_file_id();
    println!("{}: {}", id_to_string(&uid), uid.len());
    assert_eq!(id_to_string(&uid), uuid::Uuid::from_bytes(uid).to_string());
}

#[test]
fn server_test_uuid_v4() {
    let uid = new_file_id();
    println!("{}: {}", id_to_string(&uid), uid.len());
    assert_eq!(uid[6] / 16, 4);
    assert_eq!(uid[8] / 64, 2);
    assert_ne!(uid, new_file_id());
}

#[test]
fn frames_are_laid_out_byte_by_byte() {
    let init = encode_upload_init(UploadInitEvent {
        file_id: ID,
        size: 0x0102_0304_0506_0708,
        hash: [0xab; 32],
        name: "né".to_string(),
    });
    let mut expected: Vec<u8> = vec![0x01, 1, 2, 3, 4, 5, 6, 7, 8];
    expected.extend_from_slice(&ID);
    expected.extend_from_slice(&[0xab; 32]);
    expected.extend_from_slice(&[0x6e, 0xc3, 0xa9]);
    assert_eq!(init.as_ref(), expected.as_slice());

    let mut expected: Vec<u8> = vec![0x02, 0, 0, 0, 0, 0, 0, 0x10, 0];
    expected.extend_from_slice(&ID);
    let ack = encode_upload_init_ack(UploadInitACK { file_id: ID, offset: 4096 });
    assert_eq!(ack.as_ref(), expected.as_slice());
    expected[0] = 0x04;
    let ack = encode_chunk_ack(ChunkACK { file_id: ID, offset: 4096 });
    assert_eq!(ack.as_ref(), expected.as_slice());
    expected[0] = 0x03;
    expected.extend_from_slice(b"xyz");
    let chunk = encode_chunk_event(ChunkEvent {
        file_id: ID,
        offset: 4096,
        data: Bytes::from_static(b"xyz"),
    });
    assert_eq!(chunk.as_ref(), expected.as_slice());

    let done = encode_upload_done(UploadDoneEvent { file_id: ID });
    assert_eq!(done[0], 0x05);
    assert_eq!(&done[1..], &ID);

    let ack = encode_upload_done_ack(UploadDoneACK {
        file_id: ID,
        ok: true,
        msg: "hi".to_string(),
    });
    let mut expected: Vec<u8> = vec![0x06, 1];
    expected.extend_from_slice(&ID);
    expected.extend_from_slice(b"hi");
    assert_eq!(ack.as_ref(), expected.as_slice());

    let err = encode_error(ErrMsg::new(0x03ea, "no"));
    assert_eq!(err.as_ref(), &[0xff, 0x03, 0xea, b'n', b'o']);
    assert_eq!(UPLOAD_INIT_TAG, 0x01);
}

#[test]
fn short_frames_are_refused() {
    let mut bs = BytesMut::from(&[0u8; 56][..]);
    assert_eq!(bad(decode_upload_init(&mut bs).unwrap_err()), "chunk length must > 56");
    assert_eq!(bs.len(), 56);
    let mut bs = BytesMut::from(&[b'a'; 57][..]);
    assert_eq!(decode_upload_init(&mut bs).unwrap().name, "a");

    let mut bs = BytesMut::from(&[0u8; 23][..]);
    assert_eq!(
        bad(decode_upload_init_ack(&mut bs).unwrap_err()),
        "upload init ack chunk length must >= 24"
    );
    assert_eq!(bad(decode_chunk_event(&mut bs).unwrap_err()), "chunk length must >= 24");
    assert_eq!(bad(decode_chunk_ack(&mut bs).unwrap_err()), "chunk ack length must >= 24");
    let mut bs = BytesMut::from(&[0u8; 24][..]);
    assert_eq!(decode_chunk_event(&mut bs).unwrap().data.len(), 0);

    let mut bs = BytesMut::from(&[0u8; 15][..]);
    assert_eq!(bad(decode_upload_done(&mut bs).unwrap_err()), "chunk length must >= 16");

    let mut bs = BytesMut::from(&[0u8; 16][..]);
    assert_eq!(
        bad(decode_upload_done_ack(&mut bs).unwrap_err()),
        "upload done ack length must >= 17"
    );

    let mut bs = BytesMut::from(&[0u8; 1][..]);
    assert_eq!(bad(decode_error(&mut bs).unwrap_err()), "chunk length must > 1");
    let mut bs = BytesMut::from(&[1u8, 2][..]);
    assert_eq!(decode_error(&mut bs).unwrap(), ErrMsg { code: 258, msg: String::new() });
}

#[test]
fn a_file_without_a_name_cannot_be_announced() {
    let mut bs = BytesMut::from(encode_upload_init(UploadInitEvent {
        file_id: ID,
        size: 1,
        hash: [0; 32],
        name: String::new(),
    }));
    assert_eq!(bs.get_u8(), UPLOAD_INIT_TAG);
    assert_eq!(bad(decode_upload_init(&mut bs).unwrap_err()), "chunk length must > 56");
}

#[test]
fn malformed_text_is_repaired() {
    let mut bs = BytesMut::new();
    bs.put_u16(7);
    bs.put_slice(&[b'a', 0xff, b'b']);
    let err = decode_error(&mut bs).unwrap();
    assert_eq!(err.code, 7);
    assert_eq!(err.msg, "a\u{fffd}b");
}

#[test]
fn any_byte_but_zero_means_ok() {
    for ok in 0u8..=255 {
        let mut bs = BytesMut::new();
        bs.put_u8(ok);
        bs.put_slice(&ID);
        bs.put_slice(b"msg");
        let ack = decode_upload_done_ack(&mut bs).unwrap();
        assert_eq!(ack.ok, ok != 0);
        assert_eq!(ack.file_id, ID);
        assert_eq!(ack.msg, "msg");
    }
}

#[test]
fn identifiers_have_a_text_and_a_number() {
    assert_eq!(id_to_string(&ID), "00112233-4455-6677-8899-aabbccddeeff");
    assert_eq!(file_key(&ID), 0x0011_2233_4455_6677_8899_aabb_ccdd_eeff);
    assert_eq!(file_key(&ID), uuid::Uuid::from_bytes(ID).as_u128());
    assert_eq!(file_key(&[0xff; 16]), u128::MAX);
}

#[test]
fn files_are_named_by_their_path() {
    let meta = FileMeta::new("/path/to/local/file.txt");
    assert_eq!(meta.file_name, "file.txt");
    assert_eq!(meta.file_path, "/path/to/local/file.txt");
    assert_eq!(meta.total_size, 0);
    assert!(meta.hash.is_none());
    assert_ne!(meta.file_id, FileMeta::new("/path/to/local/file.txt").file_id);

    let meta = FileMeta::new1(ID, "a/..".to_string(), 9, [3; 32]);
    assert_eq!(meta.file_name, "unknown");
    assert_eq!(meta.total_size, 9);
    assert_eq!(meta.hash, Some([3; 32]));
}
