use beamup::agent_cli::{agent_mode, AgentArgs, AgentMode, Parting, Reassembly, UsageError};
use beamup::compress::{compress, decompress, DecompressFailed};
use beamup::text::NumeralError;
use beamup::transfer::{parting_command, reassembly_command};

fn args() -> AgentArgs {
    AgentArgs {
        serve: false,
        watch_dir: "/home/beams/sync".to_string(),
        decompress: None,
        compress: None,
        decompress_chunks: None,
        chunk_size: None,
        positional: Vec::new(),
    }
}

fn text(s: &str) -> Option<String> {
    Some(s.to_string())
}

#[test]
fn agent_serves() {
    let mode = agent_mode(AgentArgs { serve: true, ..args() });
    assert!(matches!(mode, Ok(AgentMode::Serve { watch_dir }) if watch_dir == "/home/beams/sync"));
    assert!(matches!(agent_mode(args()), Err(UsageError::NoMode)));
}

#[test]
fn agent_decompresses() {
    let mode = agent_mode(AgentArgs {
        decompress: text("in"),
        positional: vec!["out".to_string()],
        ..args()
    });
    assert!(matches!(
        mode,
        Ok(AgentMode::Decompress { input, output }) if input == "in" && output == "out"
    ));
    let missing = agent_mode(AgentArgs { decompress: text("in"), ..args() });
    assert!(matches!(missing, Err(UsageError::DecompressNeedsOutput)));
}

#[test]
fn agent_understands_reassembly() {
    let command = reassembly_command("/r/f", 17, "ab");
    let mode = agent_mode(AgentArgs {
        decompress_chunks: Some(command[2].clone()),
        positional: command[3..].to_vec(),
        ..args()
    });
    assert!(matches!(
        mode,
        Ok(AgentMode::Reassemble { output, chunks: 17, id }) if output == "/r/f" && id == "ab"
    ));
    let short = agent_mode(AgentArgs { decompress_chunks: text("o"), ..args() });
    assert!(matches!(short, Err(UsageError::ReassembleNeedsMore)));
    let bad = agent_mode(AgentArgs {
        decompress_chunks: text("o"),
        positional: vec!["x".to_string(), "ab".to_string()],
        ..args()
    });
    assert!(matches!(bad, Err(UsageError::BadChunkCount(NumeralError::InvalidDigit))));
}

#[test]
fn agent_understands_parting() {
    let command = parting_command("/r/f", "ab", 1024);
    let mode = agent_mode(AgentArgs {
        compress: Some(command[2].clone()),
        positional: vec![command[3].clone()],
        chunk_size: command[5].parse().ok(),
        ..args()
    });
    assert!(matches!(
        mode,
        Ok(AgentMode::Part { input, id, chunk_size: 1024 }) if input == "/r/f" && id == "ab"
    ));
    let default = agent_mode(AgentArgs {
        compress: text("f"),
        positional: vec!["ab".to_string()],
        ..args()
    });
    assert!(matches!(default, Ok(AgentMode::Part { chunk_size: 67_108_864, .. })));
    let missing = agent_mode(AgentArgs { compress: text("f"), ..args() });
    assert!(matches!(missing, Err(UsageError::CompressNeedsId)));
}

#[test]
fn usage_errors_are_explained() {
    assert_eq!(
        UsageError::NoMode.message(),
        "agent must be run with --serve, --decompress, --compress, or --decompress-chunks"
    );
    assert_eq!(
        UsageError::CompressNeedsId.message(),
        "--compress requires: <file> <file_id>"
    );
    assert_eq!(
        UsageError::BadChunkCount(NumeralError::TooLarge).message(),
        "number too large to fit in target type"
    );
}

#[test]
fn agent_parts_files() {
    let mut p = Parting::new("ab".to_string());
    let (path, block) = p.piece_read(b"first").unwrap();
    assert_eq!(path, "/tmp/beamup-xfer/ab/chunk-0000");
    assert_eq!(decompress(&block).unwrap(), b"first");
    let (path, _) = p.piece_read(b"second").unwrap();
    assert_eq!(path, "/tmp/beamup-xfer/ab/chunk-0001");
    assert!(p.piece_read(b"").is_none());
    assert_eq!(p.announcement(), "2");
}

#[test]
fn agent_puts_files_together() {
    let mut r = Reassembly::new("ab".to_string(), 2);
    assert_eq!(r.next_chunk().as_deref(), Some("/tmp/beamup-xfer/ab/chunk-0000"));
    assert_eq!(r.chunk_read(&compress(b"first")).unwrap(), b"first");
    assert_eq!(r.next_chunk().as_deref(), Some("/tmp/beamup-xfer/ab/chunk-0001"));
    assert!(matches!(r.chunk_read(&[1, 2, 3]), Err(DecompressFailed::NoSize)));
    assert!(matches!(r.chunk_found(&[1, 2, 3]), Err(DecompressFailed::NoSize)));
    let endless = vec![0xff; 16_843_014];
    assert!(matches!(r.chunk_found(&endless), Err(DecompressFailed::BeyondLimits)));
    assert_eq!(r.chunk_found(&compress(b"second")).unwrap(), b"second");
    assert_eq!(r.next_chunk(), None);
}
