use beamup::compress::{
    can_decompress, compress, decompress, decompress_any, reassemble_chunks, split_chunks,
    DecompressFailed,
    CHUNKED_THRESHOLD, CHUNK_SIZE,
};

#[test]
fn round_trip_small() {
    let data = b"hello world, this is a test of lz4 compression";
    let compressed = compress(data);
    let decompressed = decompress(&compressed).unwrap();
    assert_eq!(data.as_slice(), decompressed.as_slice());
}

#[test]
fn round_trip_empty() {
    let data = b"";
    let compressed = compress(data);
    let decompressed = decompress(&compressed).unwrap();
    assert_eq!(data.as_slice(), decompressed.as_slice());
}

#[test]
fn round_trip_large_repetitive() {
    let data: Vec<u8> = (0..10 * 1024 * 1024).map(|i| (i % 256) as u8).collect();
    let compressed = compress(&data);
    assert!(compressed.len() < data.len());
    let decompressed = decompress(&compressed).unwrap();
    assert_eq!(data, decompressed);
}

#[test]
fn per_chunk_round_trip() {
    let data: Vec<u8> = (0..20 * 1024 * 1024).map(|i| (i % 251) as u8).collect();
    let chunks = split_chunks(&data);

    let compressed_chunks: Vec<Vec<u8>> = chunks.iter().map(|c| compress(c)).collect();

    let mut reconstructed = Vec::new();
    for cc in &compressed_chunks {
        let decompressed = decompress(cc).unwrap();
        reconstructed.extend_from_slice(&decompressed);
    }

    assert_eq!(data, reconstructed);
}

#[test]
fn split_chunks_correct_count() {
    let data = vec![0u8; CHUNK_SIZE * 2];
    assert_eq!(split_chunks(&data).len(), 2);

    let data = vec![0u8; CHUNK_SIZE * 2 + 1];
    assert_eq!(split_chunks(&data).len(), 3);

    let data = vec![0u8; 100];
    assert_eq!(split_chunks(&data).len(), 1);
}

#[test]
fn split_reassemble_identity() {
    let data: Vec<u8> = (0..CHUNK_SIZE * 3 + 12345).map(|i| (i % 256) as u8).collect();
    let chunks = split_chunks(&data);
    let reassembled = reassemble_chunks(chunks);
    assert_eq!(data, reassembled);
}

#[test]
fn decompress_invalid_data_returns_error() {
    let garbage = vec![0xFF, 0xFE, 0xFD, 0xFC, 0x00, 0x01];
    assert!(can_decompress(&garbage));
    assert!(decompress(&garbage).is_err());
}

#[test]
fn empty_data_has_no_chunks() {
    assert_eq!(split_chunks(&[]).len(), 0);
    assert_eq!(reassemble_chunks(Vec::new()), Vec::<u8>::new());
}

#[test]
fn chunks_are_full_but_the_last() {
    let data = vec![9u8; CHUNK_SIZE + 5];
    let chunks = split_chunks(&data);
    assert_eq!(chunks[0].len(), CHUNK_SIZE);
    assert_eq!(chunks[1].len(), 5);
    assert_eq!(CHUNKED_THRESHOLD, 67_108_864);
}

#[test]
fn reassembly_keeps_order() {
    assert_eq!(reassemble_chunks(vec![vec![1, 2], vec![], vec![3]]), vec![1, 2, 3]);
}

#[test]
fn truncated_block_is_refused() {
    assert!(matches!(decompress(&[1, 2]), Err(DecompressFailed::NoSize)));
    assert!(matches!(decompress_any(&[1, 2]), Err(DecompressFailed::NoSize)));
}

#[test]
fn block_begins_with_the_size() {
    let block = compress(b"abcd");
    assert_eq!(&block[..4], &[4, 0, 0, 0]);
    assert_ne!(block, b"abcd".to_vec());
}

#[test]
fn endless_run_is_not_admitted() {
    assert!(can_decompress(&vec![0xff; 16_843_013]));
    assert!(!can_decompress(&vec![0xff; 16_843_014]));
    assert!(matches!(
        decompress_any(&vec![0xff; 16_843_014]),
        Err(DecompressFailed::BeyondLimits)
    ));
}

#[test]
fn claimed_size_beyond_the_tokens_is_harmless() {
    let mut block = compress(b"abc");
    block[3] = 0xff;
    assert!(can_decompress(&block));
    assert_eq!(decompress(&block).unwrap(), b"abc");
}

#[test]
fn claimed_size_that_is_too_small_is_refused() {
    let mut block = compress(b"abcdefgh");
    block[0] = 3;
    assert!(matches!(decompress(&block), Err(DecompressFailed::Refused(_))));
}

#[test]
fn long_runs_are_given_back() {
    for byte in [0u8, 0xff] {
        let data = vec![byte; 20_000_000];
        let block = compress(&data);
        assert!(block.len() < 100_000);
        assert_eq!(decompress(&block).unwrap(), data);
        assert_eq!(decompress_any(&block).unwrap(), data);
    }
}

#[test]
fn long_literals_are_admitted() {
    let size: usize = 17_000_000;
    let mut block = (size as u32).to_le_bytes().to_vec();
    block.push(0xf0);
    block.extend(vec![0xff; (size - 15) / 255]);
    block.push(((size - 15) % 255) as u8);
    block.extend(vec![0xff; size]);
    assert_eq!(decompress_any(&block).unwrap(), vec![0xff; size]);
}
