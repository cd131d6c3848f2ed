use sync_rs::cdc::FileChunk;
use sync_rs::chunk::{split_file, split_file1, with_final_chunk, FileSplitter, SyncChunk};
use sync_rs::chunking::{chunk_reads, ChunkRun};
use sync_rs::config::{CHUNK_SIZE, CHUNK_SIZE_T};

const README: &str = "# sync-rs\n\nA small, async, tokio-based file sync tool written in Rust. It \
ships two\nbinaries — `client` and `server` — that transfer a file from the client to the\nserver \
over a length-delimited TCP stream, hashing the file with BLAKE3 along\nthe way and verifying the \
result on completion.\n";

const LICENSE: &str = "MIT License\n\nPermission is hereby granted, free of charge, to any person \
obtaining a copy\nof this software and associated documentation files.\n";

fn noise(len: usize) -> Vec<u8> {
    let mut x: u64 = 0x9e37_79b9_7f4a_7c15;
    let mut data: Vec<u8> = Vec::new();
    while data.len() < len {
        x ^= x << 13;
        x ^= x >> 7;
        x ^= x << 17;
        data.push((x >> 24) as u8);
    }
    data
}

fn split_whole(chunks: &Vec<FileChunk>, contents: &[u8]) {
    let mut offset: usize = 0;
    for (i, chunk) in chunks.iter().enumerate() {
        let end = offset + chunk.data.len();
        assert_eq!(chunk.offset, Some(offset as u64));
        assert_eq!(chunk.data.as_ref(), &contents[offset..end]);
        assert_eq!(chunk.hash, Some(*blake3::hash(&contents[offset..end]).as_bytes()));
        assert!(chunk.data.len() <= 128 * 1024);
        assert!(chunk.data.len() >= 16 * 1024 || i == chunks.len() - 1);
        offset = end;
    }
    assert_eq!(offset, contents.len());
}

#[test]
fn test_chunks() {
    let chunks = split_file(&vec![README.as_bytes().to_vec(), vec![]]);
    println!("length of chunk: {}", chunks.len());
    println!("length of chunk: {:?}, {:?}", chunks[0].hash, chunks[0].offset);
    assert!(chunks.len() > 0);
    split_whole(&chunks, README.as_bytes());
}

#[test]
fn test_split_file1() {
    let received: Vec<SyncChunk> = split_file1(README.as_bytes(), CHUNK_SIZE_T);
    let mut chunks = Vec::new();
    match received.into_iter().next() {
        Some(chunk) => {
            println!("received chunk: {:?}", chunk);

            chunks.push(chunk);
        }
        None => {}
    }

    assert_eq!(chunks.len(), 1);
    assert_eq!(chunks[0].bytes.as_ref(), b"# sync-rs\n");
    assert_eq!(chunks[0].offset, 0);
}

#[test]
fn test_split_file11() {
    let mut chunks = Vec::new();
    for ck in split_file1(LICENSE.as_bytes(), CHUNK_SIZE_T) {
        println!("received chunk: {:?}", ck);
        chunks.push(ck);
    }

    assert!(chunks.len() > 1);
}

#[test]
fn blocks_of_one_size() {
    let contents = noise(25);
    let chunks = split_file1(&contents, 10);
    assert_eq!(chunks.len(), 3);
    for (i, chunk) in chunks.iter().enumerate() {
        assert_eq!(chunk.offset, i * 10);
        let end = if i == 2 { 25 } else { i * 10 + 10 };
        assert_eq!(chunk.bytes.as_ref(), &contents[i * 10..end]);
        assert_eq!(chunk.file_id[6] / 16, 4);
    }
    assert_ne!(chunks[0].file_id, chunks[1].file_id);
    assert_eq!(split_file1(&contents[..20], 10).len(), 2);
    assert_eq!(split_file1(&contents, 25).len(), 1);
    assert_eq!(split_file1(&contents, usize::MAX).len(), 1);
    assert_eq!(split_file1(&contents, 0).len(), 0);
    assert_eq!(split_file1(&[], 10).len(), 0);
}

#[test]
fn splitting_by_content_loses_nothing() {
    for len in [0, 1, 16383, 16384, 131072, 700000] {
        let contents = noise(len);
        split_whole(&split_file(&vec![contents.clone()]), &contents);
        let zeros = vec![0u8; len];
        split_whole(&split_file(&vec![zeros.clone()]), &zeros);
    }
    assert!(split_file(&vec![noise(700000)]).len() > 5);
    assert_eq!(split_file(&vec![]).len(), 0);
}

#[test]
fn cuts_depend_on_the_bytes_alone() {
    let contents = noise(500000);
    let whole = split_file(&vec![contents.clone()]);
    let mut splitter = FileSplitter::new();
    for block in contents.chunks(777) {
        assert!(splitter.take_block(block));
    }
    assert!(!splitter.take_block(&[]));
    let pieces = splitter.finish();
    assert_eq!(whole.len(), pieces.len());
    for (a, b) in whole.iter().zip(pieces.iter()) {
        assert_eq!(a.data, b.data);
        assert_eq!(a.offset, b.offset);
    }
}

#[test]
fn an_empty_block_ends_the_file() {
    let chunks = split_file(&vec![b"abc".to_vec(), vec![], b"def".to_vec()]);
    assert_eq!(chunks.len(), 1);
    assert_eq!(chunks[0].data.as_ref(), b"abc");
}

#[test]
fn the_final_chunk_comes_last() {
    let all = with_final_chunk(Vec::new(), None);
    assert_eq!(all.len(), 0);
    let last = FileChunk { data: bytes::Bytes::from_static(b"x"), offset: Some(3), hash: None };
    let all = with_final_chunk(all, Some(last));
    assert_eq!(all.len(), 1);
    assert_eq!(all[0].offset, Some(3));
}

#[test]
fn a_run_cuts_and_hashes() {
    let contents = noise(3 * CHUNK_SIZE + 17);
    for step in [1000, CHUNK_SIZE - 1, CHUNK_SIZE, CHUNK_SIZE + 1, contents.len()] {
        let mut run = ChunkRun::new([9; 16], CHUNK_SIZE);
        let mut read: usize = 0;
        for block in contents.chunks(step) {
            assert!(run.take_block(block));
            read += block.len();
            assert_eq!(run.bytes_read(), read);
            assert_eq!(run.chunks_cut(), read / CHUNK_SIZE);
        }
        assert!(!run.take_block(&[]));
        assert_eq!(run.bytes_read(), contents.len());
        let (events, hash) = run.finish();
        assert_eq!(events.len(), 4);
        assert_eq!(hash, *blake3::hash(&contents).as_bytes());
        for (i, ev) in events.iter().enumerate() {
            assert_eq!(ev.file_id, [9; 16]);
            assert_eq!(ev.offset as usize, i * CHUNK_SIZE);
            let end = contents.len().min((i + 1) * CHUNK_SIZE);
            assert_eq!(ev.data.as_ref(), &contents[i * CHUNK_SIZE..end]);
        }
    }
}

#[test]
fn short_reads_make_no_short_chunks() {
    let (events, hash) = chunk_reads([1; 16], 3, &vec![b"ab".to_vec(), b"cde".to_vec()]);
    assert_eq!(events.len(), 2);
    assert_eq!(events[0].data.as_ref(), b"abc");
    assert_eq!(events[0].offset, 0);
    assert_eq!(events[1].data.as_ref(), b"de");
    assert_eq!(events[1].offset, 3);
    assert_eq!(hash, *blake3::hash(b"abcde").as_bytes());
    let (events, _hash) = chunk_reads([1; 16], 3, &vec![b"abcdef".to_vec()]);
    assert_eq!(events.len(), 2);
    assert_eq!(events[1].data.as_ref(), b"def");
}

#[test]
fn reading_ends_where_nothing_is_read() {
    let reads = vec![b"ab".to_vec(), vec![], b"cd".to_vec()];
    let (events, hash) = chunk_reads([1; 16], 10, &reads);
    assert_eq!(events.len(), 1);
    assert_eq!(events[0].data.as_ref(), b"ab");
    assert_eq!(hash, *blake3::hash(b"ab").as_bytes());
    let (events, hash) = chunk_reads([1; 16], 0, &reads);
    assert_eq!(events.len(), 0);
    assert_eq!(hash, *blake3::hash(b"").as_bytes());
}

#[test]
fn chunks_may_be_written_in_any_order() {
    let contents = noise(95);
    let mut run = ChunkRun::new([1; 16], 10);
    run.take_blocks(&vec![contents.clone()]);
    let (events, _hash) = run.finish();
    let mut file = vec![0u8; contents.len()];
    for i in [7, 2, 9, 0, 4, 4, 1, 8, 3, 6, 5, 2] {
        let ev = &events[i];
        let start = ev.offset as usize;
        file[start..start + ev.data.len()].copy_from_slice(&ev.data);
    }
    assert_eq!(file, contents);
}
