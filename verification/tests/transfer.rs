use beamup::hash::hash_content;
use beamup::transfer::{
    batch_results, chunk_count, chunk_file_name, file_id, file_list, make_batches,
    make_chunk_dir_command, pack_command, parting_command, pull_outcome, reassembly_command,
    remote_chunk_path, remote_path, remove_chunk_dir_command, staging_dir_name, transfer_result,
    unpack_command, ArchiveTally, Direction, Fate, TAR_BATCH_SIZE,
};

fn texts(items: &[&str]) -> Vec<String> {
    items.iter().map(|s| s.to_string()).collect()
}

#[test]
fn batches_fill_up() {
    let half = TAR_BATCH_SIZE / 2;
    let batches = make_batches(&texts(&["a", "b", "c", "d"]), &vec![half, half, 1, half]);
    assert_eq!(batches.len(), 2);
    assert_eq!(batches[0].paths, texts(&["a", "b"]));
    assert_eq!(batches[0].total_bytes, TAR_BATCH_SIZE);
    assert_eq!(batches[1].paths, texts(&["c", "d"]));
    assert_eq!(batches[1].total_bytes, half + 1);
}

#[test]
fn oversized_file_is_alone() {
    let batches = make_batches(&texts(&["a", "b", "c"]), &vec![1, u64::MAX, 1]);
    let sizes: Vec<u64> = batches.iter().map(|b| b.total_bytes).collect();
    assert_eq!(sizes, vec![1, u64::MAX, 1]);
}

#[test]
fn batches_lose_nothing() {
    let paths: Vec<String> = (0..100).map(|i| format!("f{i}")).collect();
    let sizes: Vec<u64> = (0..100).map(|i| (i % 7) * 60_000_000).collect();
    let batches = make_batches(&paths, &sizes);
    let all: Vec<String> = batches.iter().flat_map(|b| b.paths.clone()).collect();
    assert_eq!(all, paths);
    assert!(batches.iter().all(|b| b.paths.len() == 1 || b.total_bytes <= TAR_BATCH_SIZE));
    assert!(batches.iter().all(|b| !b.paths.is_empty()));
}

#[test]
fn no_files_no_batches() {
    assert!(make_batches(&Vec::new(), &Vec::new()).is_empty());
    assert_eq!(make_batches(&texts(&["a", "b"]), &vec![1]).len(), 1);
}

#[test]
fn ids_are_hashes_of_paths() {
    let id = file_id("/home/beams/sync/a");
    assert_eq!(id, format!("{:x}", hash_content(b"/home/beams/sync/a")));
    assert_ne!(id, file_id("/home/beams/sync/b"));
    assert_eq!(file_id(""), "2d06800538d394c2");
}

#[test]
fn chunks_have_names() {
    assert_eq!(chunk_file_name(7), "chunk-0007");
    assert_eq!(chunk_file_name(12345), "chunk-12345");
    assert_eq!(remote_chunk_path("ab", 0), "/tmp/beamup-xfer/ab/chunk-0000");
    assert_eq!(remote_path("/home/beams/sync", "a/b"), "/home/beams/sync/a/b");
    assert_eq!(staging_dir_name(Direction::Push, "ab"), "beamup-push-ab");
    assert_eq!(staging_dir_name(Direction::Pull, "ab"), "beamup-pull-ab");
    assert_ne!(chunk_file_name(1), chunk_file_name(10));
}

#[test]
fn commands_for_chunks() {
    assert_eq!(make_chunk_dir_command("ab"), "mkdir -p '/tmp/beamup-xfer/ab'");
    assert_eq!(remove_chunk_dir_command("ab"), "rm -rf '/tmp/beamup-xfer/ab'");
    assert_eq!(
        reassembly_command("/r/f", 12, "ab"),
        texts(&["/tmp/beamup-agent", "--decompress-chunks", "/r/f", "12", "ab"])
    );
    assert_eq!(
        parting_command("/r/f", "ab", 67_108_864),
        texts(&["/tmp/beamup-agent", "--compress", "/r/f", "ab", "--chunk-size", "67108864"])
    );
}

#[test]
fn chunk_count_of_the_agent_is_read() {
    assert_eq!(chunk_count("12\n"), 12);
    assert_eq!(chunk_count("0\n"), 0);
    assert_eq!(chunk_count("what?"), 0);
    assert_eq!(chunk_count(""), 0);
    assert_eq!(chunk_count(&format!("{}\n", 4711)), 4711);
}

#[test]
fn results_of_transfers() {
    let ok = transfer_result("a".to_string(), Direction::Pull, Ok(()), 5, 6);
    assert!(ok.success && ok.error.is_none());
    assert_eq!((ok.bytes, ok.duration_ms, ok.direction), (5, 6, Direction::Pull));
    let bad = transfer_result("a".to_string(), Direction::Push, Err("e".to_string()), 5, 6);
    assert!(!bad.success);
    assert_eq!(bad.error.as_deref(), Some("e"));
    let batch = batch_results(texts(&["x", "y"]), Direction::Push, Some("e".to_string()), 9);
    assert_eq!(batch.len(), 2);
    assert_eq!(batch[1].path, "y");
    assert_eq!(batch[1].error.as_deref(), Some("e"));
    assert_eq!((batch[1].bytes, batch[1].duration_ms, batch[1].success), (0, 9, false));
}

#[test]
fn archive_is_tallied() {
    let mut t = ArchiveTally::new();
    assert!(t.note(Some(10), Fate::Archived));
    assert!(t.note(Some(7), Fate::Missing));
    assert!(t.note(Some(5), Fate::Unreadable));
    assert!(t.note(None, Fate::Refused));
    assert_eq!((t.bytes_written, t.skipped), (15, 3));
    assert!(!t.note(Some(1), Fate::PipeBroke));
    assert_eq!(t.pipe_error("gone"), "tar pipe broke (3 skipped): gone");
    assert_eq!(t.finish(true, ""), Ok(16));
    assert_eq!(t.finish(false, "no"), Err("tar push exec failed: no".to_string()));
}

#[test]
fn pull_fails_only_without_data() {
    assert_eq!(pull_outcome(true, 0, ""), Ok(0));
    assert_eq!(pull_outcome(false, 9, "x"), Ok(9));
    assert_eq!(pull_outcome(false, 0, "x"), Err("tar pull exec failed: x".to_string()));
}

#[test]
fn archive_commands() {
    assert_eq!(file_list(&texts(&["a", "b"])), "a\nb\n");
    assert_eq!(
        unpack_command("b1", "/s"),
        texts(&["beams", "exec", "b1", "--", "tar", "xf", "-", "-C", "/s"])
    );
    assert_eq!(
        pack_command("b1", "/s"),
        texts(&["beams", "exec", "b1", "--", "tar", "cf", "-", "-C", "/s", "-T", "-"])
    );
}
