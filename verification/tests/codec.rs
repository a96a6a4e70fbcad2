use std::collections::BTreeMap;

use beamup::codec::{FrameError, MessageCodec, MAX_FRAME_SIZE};
use bytes::{BufMut, BytesMut};

fn round_trip(payload: Vec<u8>) -> Vec<u8> {
    let mut codec = MessageCodec;
    let mut buf = BytesMut::new();
    codec.encode(&payload, &mut buf).unwrap();
    let back = codec.decode(&mut buf).unwrap().unwrap();
    assert!(buf.is_empty());
    back
}

fn unit(name: &str) -> Vec<u8> {
    rmp_serde::to_vec(name).unwrap()
}

fn unit_name(payload: &[u8]) -> String {
    rmp_serde::from_slice(payload).unwrap()
}

#[test]
fn round_trip_ping_pong() {
    assert_eq!(unit_name(&round_trip(unit("Ping"))), "Ping");
    assert_eq!(unit_name(&round_trip(unit("Pong"))), "Pong");
}

#[test]
fn round_trip_hello() {
    let msg = BTreeMap::from([("Hello", (2u32, "abc123"))]);
    let back = round_trip(rmp_serde::to_vec(&msg).unwrap());
    let read: BTreeMap<String, (u32, String)> = rmp_serde::from_slice(&back).unwrap();
    let (version, session_id) = &read["Hello"];
    assert_eq!(*version, 2);
    assert_eq!(session_id, "abc123");
}

#[test]
fn round_trip_file_content() {
    let data: Vec<u8> = vec![1, 2, 3, 4, 5];
    let msg = BTreeMap::from([("FileContent", ("src/main.rs", 12345u64, data.clone()))]);
    let back = round_trip(rmp_serde::to_vec(&msg).unwrap());
    let read: BTreeMap<String, (String, u64, Vec<u8>)> = rmp_serde::from_slice(&back).unwrap();
    let (path, hash, d) = &read["FileContent"];
    assert_eq!(path, "src/main.rs");
    assert_eq!(*hash, 12345);
    assert_eq!(*d, data);
}

#[test]
fn round_trip_sync_plan() {
    let to_push = vec![("a.txt", 1u64, 100u64)];
    let to_pull = vec![("b.txt", 2u64, 200u64)];
    let msg = BTreeMap::from([("SyncPlan", (to_push, to_pull))]);
    let back = round_trip(rmp_serde::to_vec(&msg).unwrap());
    let read: BTreeMap<String, (Vec<(String, u64, u64)>, Vec<(String, u64, u64)>)> =
        rmp_serde::from_slice(&back).unwrap();
    let (to_push, to_pull) = &read["SyncPlan"];
    assert_eq!(to_push.len(), 1);
    assert_eq!(to_pull.len(), 1);
    assert_eq!(to_push[0].0, "a.txt");
    assert_eq!(to_pull[0].2, 200);
}

#[test]
fn round_trip_manifest() {
    let entries = vec![
        ("src", 0u64, 0u64, 0u64, true),
        ("src/lib.rs", 999u64, 1000u64, 500u64, false),
    ];
    let msg = BTreeMap::from([("FileManifest", (entries,))]);
    let back = round_trip(rmp_serde::to_vec(&msg).unwrap());
    let read: BTreeMap<String, (Vec<(String, u64, u64, u64, bool)>,)> =
        rmp_serde::from_slice(&back).unwrap();
    let entries = &read["FileManifest"].0;
    assert_eq!(entries.len(), 2);
    assert!(entries[0].4);
    assert!(!entries[1].4);
    assert_eq!(entries[1].1, 999);
}

#[test]
fn partial_buffer_returns_none() {
    let mut codec = MessageCodec;
    let mut buf = BytesMut::new();
    codec.encode(&unit("Ping"), &mut buf).unwrap();

    let full_len = buf.len();
    let mut partial = buf.split_to(full_len - 1);
    let before = partial.to_vec();
    assert_eq!(codec.decode(&mut partial).unwrap(), None);
    assert_eq!(partial.to_vec(), before);
}

#[test]
fn empty_buffer_returns_none() {
    let mut codec = MessageCodec;
    let mut buf = BytesMut::new();
    assert_eq!(codec.decode(&mut buf).unwrap(), None);
}

#[test]
fn too_short_for_length_returns_none() {
    let mut codec = MessageCodec;
    let mut buf = BytesMut::from(&[0u8, 0, 0][..]);
    assert_eq!(codec.decode(&mut buf).unwrap(), None);
}

#[test]
fn multiple_messages_in_buffer() {
    let mut codec = MessageCodec;
    let mut buf = BytesMut::new();

    codec.encode(&unit("Ping"), &mut buf).unwrap();
    codec.encode(&unit("Pong"), &mut buf).unwrap();
    codec.encode(&unit("Shutdown"), &mut buf).unwrap();

    assert_eq!(unit_name(&codec.decode(&mut buf).unwrap().unwrap()), "Ping");
    assert_eq!(unit_name(&codec.decode(&mut buf).unwrap().unwrap()), "Pong");
    assert_eq!(unit_name(&codec.decode(&mut buf).unwrap().unwrap()), "Shutdown");
    assert_eq!(codec.decode(&mut buf).unwrap(), None);
}

#[test]
fn oversized_frame_rejected() {
    let mut codec = MessageCodec;
    let mut buf = BytesMut::new();
    buf.put_u32(200 * 1024 * 1024);
    buf.extend_from_slice(&[0u8; 100]);

    let result = codec.decode(&mut buf);
    assert!(result.is_err());
    assert_eq!(result, Err(FrameError::TooLarge(200 * 1024 * 1024)));
    assert_eq!(buf.len(), 104);
}

#[test]
fn frame_bytes_are_exact() {
    let mut codec = MessageCodec;
    let mut buf = BytesMut::new();
    codec.encode(&vec![7u8; 300], &mut buf).unwrap();
    assert_eq!(&buf[..4], &[0, 0, 1, 44]);
    assert_eq!(buf.len(), 304);
    assert_eq!(&buf[4..], &[7u8; 300][..]);
}

#[test]
fn frame_too_large_to_encode() {
    let mut codec = MessageCodec;
    let mut buf = BytesMut::new();
    let payload = vec![0u8; MAX_FRAME_SIZE as usize + 1];
    assert_eq!(
        codec.encode(&payload, &mut buf),
        Err(FrameError::TooLargeToEncode(MAX_FRAME_SIZE as usize + 1))
    );
    assert!(buf.is_empty());
}

#[test]
fn frame_at_the_limit_passes() {
    let payload = vec![1u8; MAX_FRAME_SIZE as usize];
    assert_eq!(round_trip(payload).len(), MAX_FRAME_SIZE as usize);
}

#[test]
fn stream_in_two_parts() {
    let mut codec = MessageCodec;
    let mut whole = BytesMut::new();
    codec.encode(&vec![1, 2, 3], &mut whole).unwrap();
    codec.encode(&vec![4], &mut whole).unwrap();
    let mut buf = BytesMut::from(&whole[..9]);
    assert_eq!(codec.decode(&mut buf).unwrap(), Some(vec![1, 2, 3]));
    assert_eq!(codec.decode(&mut buf).unwrap(), None);
    buf.extend_from_slice(&whole[9..]);
    assert_eq!(codec.decode(&mut buf).unwrap(), Some(vec![4]));
    assert_eq!(codec.decode(&mut buf).unwrap(), None);
}
