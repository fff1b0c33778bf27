use rand::{Rng, SeedableRng};
use zpars::{compress, decompress, CompressionOptions, DecompressionOptions, ZparsError};

fn roundtrip(data: &[u8], options: CompressionOptions) {
    let input = data.to_vec();
    let compressed = compress(&input, &options).expect("compress");
    let restored = decompress(&compressed, &DecompressionOptions).expect("decompress");
    assert_eq!(input, restored);
}

#[test]
fn roundtrip_small_text() {
    let data = b"zpaq zpaq zpaq zpaq rust rust rust";
    roundtrip(data, CompressionOptions::default());
}

#[test]
fn roundtrip_repetitive_large() {
    let mut data = vec![0u8; 200_000];
    for (i, b) in data.iter_mut().enumerate() {
        *b = b"abcd"[i % 4];
    }
    roundtrip(&data, CompressionOptions::default());
}

#[test]
fn roundtrip_random() {
    let mut rng = rand::rngs::StdRng::seed_from_u64(42);
    let mut data = vec![0u8; 128_000];
    rng.fill(&mut data[..]);

    let opts = CompressionOptions {
        block_size: 32 * 1024,
        min_match: 4,
        secondary_match: 6,
        search_log: 4,
        table_log: 16,
    };
    roundtrip(&data, opts);
}

#[test]
fn rejects_invalid_magic() {
    let input = b"bad!".to_vec();
    let err = decompress(&input, &DecompressionOptions).expect_err("must fail");
    assert!(matches!(err, ZparsError::InvalidFormat(_)));
}

#[test]
fn empty_input_is_header_and_terminator() {
    let opts = CompressionOptions::default();
    let compressed = compress(&Vec::new(), &opts).expect("compress");
    // 13-byte stream header plus the 8-byte all-zero terminator.
    assert_eq!(compressed.len(), 21);
    assert_eq!(&compressed[0..4], b"ZPS1");
    assert_eq!(compressed[4], 1);
    let restored = decompress(&compressed, &DecompressionOptions).expect("decompress");
    assert!(restored.is_empty());
}

#[test]
fn compressed_output_begins_with_magic() {
    let data = b"zpaq zpaq zpaq zpaq rust rust rust".to_vec();
    let compressed = compress(&data, &CompressionOptions::default()).expect("compress");
    assert_eq!(&compressed[0..4], b"ZPS1");
}

#[test]
fn repetitive_input_compresses_well() {
    let mut data = vec![0u8; 200_000];
    for (i, b) in data.iter_mut().enumerate() {
        *b = b"abcd"[i % 4];
    }
    let compressed = compress(&data, &CompressionOptions::default()).expect("compress");
    // A single candidate search measures at most 255 + min_match matching
    // bytes, and each match token costs three bytes, so fully repetitive
    // input settles a little under five percent of its raw size.
    assert!(compressed.len() < data.len() / 20);
    let restored = decompress(&compressed, &DecompressionOptions).expect("decompress");
    assert_eq!(data, restored);
}

#[test]
fn block_size_boundaries_roundtrip() {
    let opts = CompressionOptions {
        block_size: 1024,
        min_match: 4,
        secondary_match: 0,
        search_log: 3,
        table_log: 12,
    };
    for n in [1023usize, 1024, 1025, 2048] {
        let mut data = vec![0u8; n];
        for (i, b) in data.iter_mut().enumerate() {
            *b = (i % 251) as u8;
        }
        roundtrip(&data, opts.clone());
    }
}

#[test]
fn literal_run_of_64_is_one_token() {
    // 64 distinct bytes: no match is possible, so the block is one literal
    // token (lead byte 63) followed by the raw bytes.
    let data: Vec<u8> = (0u8..64).collect();
    let compressed = compress(&data, &CompressionOptions::default()).expect("compress");
    // header(13) + block header(8) + token(1 + 64) + terminator(8)
    assert_eq!(compressed.len(), 13 + 8 + 1 + 64 + 8);
    assert_eq!(compressed[21], 63);
}

#[test]
fn literal_run_of_65_is_two_tokens() {
    let data: Vec<u8> = (0u8..65).collect();
    let compressed = compress(&data, &CompressionOptions::default()).expect("compress");
    // header(13) + block header(8) + token(1 + 64) + token(1 + 1) + terminator(8)
    assert_eq!(compressed.len(), 13 + 8 + 1 + 64 + 1 + 1 + 8);
    assert_eq!(compressed[21], 63);
    assert_eq!(compressed[21 + 65], 0);
    assert_eq!(compressed[21 + 66], 64);
}

#[test]
fn match_of_min_match_plus_63_is_one_token() {
    // One literal 'a', then a 67-byte match at offset 1 (min_match 4).
    let data = vec![b'a'; 68];
    let compressed = compress(&data, &CompressionOptions::default()).expect("compress");
    assert_eq!(compressed.len(), 13 + 8 + 5 + 8);
    // literal token of one byte, then a single match token: kind 1 in the
    // high bits, len - min_match = 63 in the low bits, offset-minus-one 0
    // in two big-endian bytes.
    assert_eq!(&compressed[21..26], &[0x00, b'a', 0x7f, 0x00, 0x00]);
    let restored = decompress(&compressed, &DecompressionOptions).expect("decompress");
    assert_eq!(data, restored);
}

#[test]
fn match_of_min_match_plus_64_is_two_tokens() {
    let data = vec![b'a'; 69];
    let compressed = compress(&data, &CompressionOptions::default()).expect("compress");
    assert_eq!(compressed.len(), 13 + 8 + 8 + 8);
    // The 68-byte match splits into a 64-byte and a 4-byte token, both at
    // offset 1.
    assert_eq!(
        &compressed[21..29],
        &[0x00, b'a', 0x7c, 0x00, 0x00, 0x40, 0x00, 0x00]
    );
    let restored = decompress(&compressed, &DecompressionOptions).expect("decompress");
    assert_eq!(data, restored);
}

fn stream_header_default() -> Vec<u8> {
    let mut s = Vec::new();
    s.extend_from_slice(b"ZPS1");
    s.push(1);
    s.extend_from_slice(&(1u32 << 20).to_le_bytes());
    s.push(4); // min_match
    s.push(0); // secondary_match
    s.push(3); // search_log
    s.push(20); // table_log
    s
}

#[test]
fn match_offset_past_output_is_corrupt() {
    // Block: literal 'a' (output length 1), then a match at offset 2.
    let mut s = stream_header_default();
    let block = [0x00u8, b'a', 0x40, 0x00, 0x01];
    s.extend_from_slice(&5u32.to_le_bytes());
    s.extend_from_slice(&(block.len() as u32).to_le_bytes());
    s.extend_from_slice(&block);
    s.extend_from_slice(&[0u8; 8]);
    let err = decompress(&s, &DecompressionOptions).expect_err("must fail");
    assert!(matches!(err, ZparsError::Corrupt("invalid match offset")));
}

#[test]
fn unsupported_version_is_reported() {
    let mut s = stream_header_default();
    s[4] = 2;
    let err = decompress(&s, &DecompressionOptions).expect_err("must fail");
    assert!(matches!(err, ZparsError::UnsupportedVersion(2)));
}

#[test]
fn invalid_options_rejected_on_compress() {
    let opts = CompressionOptions {
        block_size: 0,
        min_match: 4,
        secondary_match: 0,
        search_log: 3,
        table_log: 20,
    };
    let err = compress(&b"abc".to_vec(), &opts).expect_err("must fail");
    assert!(matches!(err, ZparsError::InvalidOption(_)));
}

#[test]
fn invalid_options_rejected_on_decompress() {
    let mut s = stream_header_default();
    s[9] = 0; // min_match 0 is invalid
    let err = decompress(&s, &DecompressionOptions).expect_err("must fail");
    assert!(matches!(err, ZparsError::InvalidOption(_)));
}

#[test]
fn truncated_stream_is_corrupt() {
    let s = b"ZP".to_vec();
    let err = decompress(&s, &DecompressionOptions).expect_err("must fail");
    assert!(matches!(err, ZparsError::Corrupt(_)));

    // A valid header with no block headers at all is also truncated.
    let s2 = stream_header_default();
    let err2 = decompress(&s2, &DecompressionOptions).expect_err("must fail");
    assert!(matches!(err2, ZparsError::Corrupt(_)));
}

#[test]
fn declared_size_mismatch_is_corrupt() {
    // A block whose payload decodes to fewer bytes than its declared
    // uncompressed length.
    let mut s = stream_header_default();
    let block = [0x00u8, b'a']; // one literal byte
    s.extend_from_slice(&9u32.to_le_bytes()); // claims nine bytes
    s.extend_from_slice(&(block.len() as u32).to_le_bytes());
    s.extend_from_slice(&block);
    s.extend_from_slice(&[0u8; 8]);
    let err = decompress(&s, &DecompressionOptions).expect_err("must fail");
    assert!(matches!(err, ZparsError::Corrupt("decoded size mismatch")));
}

#[test]
fn bytes_after_terminator_are_ignored() {
    let data = b"zpaq zpaq zpaq zpaq rust rust rust".to_vec();
    let mut compressed = compress(&data, &CompressionOptions::default()).expect("compress");
    compressed.extend_from_slice(b"trailing noise");
    let restored = decompress(&compressed, &DecompressionOptions).expect("decompress");
    assert_eq!(data, restored);
}

#[test]
fn identical_inputs_compress_identically() {
    let data = b"determinism determinism determinism".to_vec();
    let first = compress(&data, &CompressionOptions::default()).expect("compress");
    let second = compress(&data, &CompressionOptions::default()).expect("compress");
    assert_eq!(first, second);
}

#[test]
fn preset_levels_are_valid_and_roundtrip() {
    let data = b"level preset check: abc abc abc abc abc".to_vec();
    for level in 0u8..=5 {
        let mut opts = zpars::compression_options_for_level(level);
        // Keep the hash tables small so every level runs quickly.
        if opts.table_log > 16 {
            opts.table_log = 16;
        }
        roundtrip(&data, opts);
    }
    assert_eq!(zpars::compression_options_for_level(0).min_match, 64);
    assert_eq!(zpars::compression_options_for_level(5).secondary_match, 12);
}
