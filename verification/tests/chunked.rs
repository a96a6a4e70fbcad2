use std::collections::HashMap;

use beamup::agent_cli::{Parting, Reassembly};
use beamup::chunked::{PullAction, PullJob, PushAction, PushJob};
use beamup::compress::{compress, DecompressFailed};
use beamup::transfer::file_id;

#[test]
fn small_file_is_pushed_in_one_piece() {
    let mut job = PushJob::new("/s/a".to_string(), 10);
    assert!(matches!(job.begin(10), PushAction::CopyWhole));
    assert!(matches!(job.proceed(), PushAction::Done { moved: Some(10) }));
}

#[test]
fn large_file_is_pushed_in_chunks() {
    let id = file_id("/s/a");
    let mut job = PushJob::new("/s/a".to_string(), 4);
    assert_eq!(*job.id(), id);
    assert!(matches!(
        job.begin(6),
        PushAction::MakeDir { command } if command == format!("mkdir -p '/tmp/beamup-xfer/{id}'")
    ));
    assert!(matches!(job.proceed(), PushAction::Read));
    let mut blocks = Vec::new();
    for (i, piece) in [&b"abcd"[..], &b"ef"[..]].into_iter().enumerate() {
        match job.piece_read(piece) {
            PushAction::Store { name, block } => {
                assert_eq!(name, format!("chunk-000{i}"));
                blocks.push(block);
            }
            _ => panic!("not stored"),
        }
        assert!(matches!(job.proceed(), PushAction::Read));
    }
    match job.piece_read(b"") {
        PushAction::CopyChunks { chunks } => {
            assert_eq!(chunks.len(), 2);
            assert_eq!(chunks[1].name, "chunk-0001");
            assert_eq!(chunks[1].remote, format!("/tmp/beamup-xfer/{id}/chunk-0001"));
            assert_eq!((chunks[0].bytes, chunks[1].bytes), (4, 2));
        }
        _ => panic!("not copied"),
    }
    assert!(matches!(
        job.proceed(),
        PushAction::Reassemble { command } if command[2..] == ["/s/a", "2", id.as_str()]
    ));
    assert!(matches!(job.proceed(), PushAction::Done { moved: None }));

    let mut reassembly = Reassembly::new(id, 2);
    let mut file = Vec::new();
    for block in &blocks {
        file.extend(reassembly.chunk_read(block).unwrap());
    }
    assert_eq!(file, b"abcdef");
}

#[test]
fn small_file_is_pulled_in_one_piece() {
    let mut job = PullJob::new("/s/a".to_string(), 10);
    assert!(matches!(
        job.begin(),
        PullAction::Part { command } if command[1..] == ["--compress", "/s/a", &file_id("/s/a"),
            "--chunk-size", "10"]
    ));
    assert!(matches!(job.parted("0\n"), PullAction::CopyWhole));
    assert!(matches!(job.whole_copied(7), PullAction::Replace { moved: Some(7) }));
    assert!(matches!(job.proceed(), PullAction::Done));
}

#[test]
fn large_file_is_pulled_in_chunks() {
    let id = file_id("/s/a");
    let mut parting = Parting::new(id.clone());
    let blocks: Vec<Vec<u8>> =
        [&b"abcd"[..], &b"ef"[..]].iter().map(|p| parting.piece_read(p).unwrap().1).collect();

    let mut job = PullJob::new("/s/a".to_string(), 4);
    job.begin();
    match job.parted(&format!("{}\n", parting.announcement())) {
        PullAction::CopyChunks { chunks } => {
            assert_eq!(chunks.len(), 2);
            assert_eq!(chunks[0].remote, format!("/tmp/beamup-xfer/{id}/chunk-0000"));
            assert_eq!((chunks[0].bytes, chunks[1].bytes), (4, 4));
        }
        _ => panic!("not copied"),
    }
    let mut file = Vec::new();
    let mut action = job.proceed();
    for (i, block) in blocks.iter().enumerate() {
        assert!(matches!(&action, PullAction::Read { name } if *name == format!("chunk-000{i}")));
        match job.chunk_found(block) {
            PullAction::Append { data } => file.extend(data),
            _ => panic!("not appended"),
        }
        action = job.proceed();
    }
    assert_eq!(file, b"abcdef");
    assert!(matches!(action, PullAction::Replace { moved: None }));
    assert!(matches!(
        job.proceed(),
        PullAction::CleanUp { command } if command == format!("rm -rf '/tmp/beamup-xfer/{id}'")
    ));
    assert!(matches!(job.proceed(), PullAction::Done));
}

#[test]
fn broken_chunk_ends_the_pull() {
    let mut job = PullJob::new("/s/a".to_string(), 4);
    job.begin();
    job.parted("1\n");
    job.proceed();
    assert!(matches!(
        job.chunk_read(&compress(b"abc")[..5]),
        PullAction::Fail { error: DecompressFailed::Refused(_) }
    ));
    let mut job = PullJob::new("/s/a".to_string(), 4);
    job.begin();
    job.parted("1\n");
    job.proceed();
    assert!(matches!(
        job.chunk_found(&vec![0xff; 16_843_014]),
        PullAction::Fail { error: DecompressFailed::BeyondLimits }
    ));
}

fn pieces(file: &[u8]) -> Vec<&[u8]> {
    file.chunks(4).collect()
}

#[test]
fn pushed_file_arrives() {
    let sent: Vec<u8> = (0..50u8).map(|i| i / 3).collect();
    let mut job = PushJob::new("/s/a".to_string(), 4);
    job.begin(50);
    job.proceed();
    let mut local = HashMap::new();
    for piece in pieces(&sent) {
        match job.piece_read(piece) {
            PushAction::Store { name, block } => local.insert(name, block),
            _ => panic!("not stored"),
        };
        job.proceed();
    }
    let mut beam = HashMap::new();
    match job.piece_read(b"") {
        PushAction::CopyChunks { chunks } => {
            for chunk in chunks {
                beam.insert(chunk.remote, local.remove(&chunk.name).unwrap());
            }
        }
        _ => panic!("not copied"),
    }
    let mut agent = Reassembly::new(file_id("/s/a"), beam.len());
    let mut file = Vec::new();
    while let Some(path) = agent.next_chunk() {
        file.extend(agent.chunk_found(&beam.remove(&path).unwrap()).unwrap());
    }
    assert_eq!(file, sent);
    assert!(beam.is_empty() && local.is_empty());
}

#[test]
fn pulled_file_arrives() {
    let sent: Vec<u8> = (0..50u8).map(|i| i / 3).collect();
    let mut agent = Parting::new(file_id("/s/a"));
    let mut beam = HashMap::new();
    for piece in pieces(&sent) {
        let (path, block) = agent.piece_read(piece).unwrap();
        beam.insert(path, block);
    }
    let mut job = PullJob::new("/s/a".to_string(), 4);
    job.begin();
    let mut local = HashMap::new();
    match job.parted(&format!("{}\n", agent.announcement())) {
        PullAction::CopyChunks { chunks } => {
            for chunk in chunks {
                local.insert(chunk.name, beam.remove(&chunk.remote).unwrap());
            }
        }
        _ => panic!("not copied"),
    }
    let mut file = Vec::new();
    while let PullAction::Read { name } = job.proceed() {
        match job.chunk_found(&local.remove(&name).unwrap()) {
            PullAction::Append { data } => file.extend(data),
            _ => panic!("not appended"),
        }
    }
    assert_eq!(file, sent);
    assert!(beam.is_empty() && local.is_empty());
}
