use zpars::{extract_unmodeled_bytes, inspect_bytes, ZparsError};

const MAGIC_16: [u8; 16] = [
    0x37, 0x6b, 0x53, 0x74, 0xa0, 0x31, 0x83, 0xd3, 0x8c, 0xb2, 0x28, 0xb0, 0xd3, b'z', b'P', b'Q',
];

#[test]
fn rejects_non_magic_input() {
    let blocks = inspect_bytes(&b"hello world".to_vec()).expect("inspect");
    assert!(blocks.is_empty());
}

#[test]
fn parses_minimal_header() {
    // Build one valid block header with no segments.
    // hsize=7 means COMP bytes=6 (hh..n + end), HCOMP bytes=1 (end only).
    let mut buf = Vec::new();
    buf.extend_from_slice(&MAGIC_16);
    buf.push(2); // level
    buf.push(1); // zpaql type
    buf.extend_from_slice(&7u16.to_le_bytes()); // hsize
    buf.extend_from_slice(&[0, 0, 0, 0, 0]); // hh hm ph pm n
    buf.push(0); // COMP END
    buf.push(0); // HCOMP END

    let blocks = inspect_bytes(&buf).expect("inspect");
    assert_eq!(blocks.len(), 1);
    let b = &blocks[0];
    assert_eq!(b.level, 2);
    assert_eq!(b.zpaql_type, 1);
    assert_eq!(b.hsize, 7);
    assert_eq!(b.n_components, 0);
}

/// One unmodeled block: a level-1 header and one segment whose payload is
/// the pass-through type byte followed by `payload` bytes, carried in a
/// single chunk, without a SHA-1 trailer.
fn one_segment_archive(payload: &[u8]) -> Vec<u8> {
    let mut buf = Vec::new();
    buf.extend_from_slice(&MAGIC_16);
    buf.push(1); // level
    buf.push(1); // zpaql type
    buf.extend_from_slice(&7u16.to_le_bytes()); // hsize
    buf.extend_from_slice(&[0, 0, 0, 0, 0]); // hh hm ph pm n
    buf.push(0); // COMP END
    buf.push(0); // HCOMP END
    buf.push(1); // begin segment
    buf.extend_from_slice(b"f\0"); // filename
    buf.extend_from_slice(b"c\0"); // comment
    buf.push(0); // reserved
    let chunk_len = (payload.len() + 1) as u32;
    buf.extend_from_slice(&chunk_len.to_be_bytes());
    buf.push(0); // postprocessing type: pass-through
    buf.extend_from_slice(payload);
    buf.extend_from_slice(&0u32.to_be_bytes()); // end of stream
    buf.push(254); // end of segment, no hash
    buf.push(255); // end of block
    buf
}

#[test]
fn extracts_single_pass_through_segment() {
    let archive = one_segment_archive(b"hi!");
    let segs = extract_unmodeled_bytes(&archive).expect("extract");
    assert_eq!(segs.len(), 1);
    assert_eq!(segs[0].block_index, 0);
    assert_eq!(segs[0].filename, "f");
    assert_eq!(segs[0].comment, "c");
    assert_eq!(segs[0].data, b"hi!".to_vec());
    assert!(segs[0].sha1.is_none());
}

#[test]
fn extracts_segment_with_sha1_trailer() {
    let mut archive = one_segment_archive(b"xy");
    // Replace the trailing "254, 255" with "253, 20 hash bytes, 255".
    archive.pop();
    archive.pop();
    archive.push(253);
    let digest: Vec<u8> = (10u8..30).collect();
    archive.extend_from_slice(&digest);
    archive.push(255);
    let segs = extract_unmodeled_bytes(&archive).expect("extract");
    assert_eq!(segs.len(), 1);
    assert_eq!(segs[0].data, b"xy".to_vec());
    assert_eq!(segs[0].sha1.as_ref().expect("sha1"), &digest);
}

#[test]
fn scanning_twice_gives_same_headers() {
    let archive = one_segment_archive(b"same");
    let first = inspect_bytes(&archive).expect("inspect");
    let second = inspect_bytes(&archive).expect("inspect");
    assert_eq!(format!("{:?}", first), format!("{:?}", second));
    assert_eq!(first.len(), 1);
}

#[test]
fn noise_around_archive_keeps_segments() {
    let archive = one_segment_archive(b"hi!");
    let plain = extract_unmodeled_bytes(&archive).expect("extract");

    let mut noisy = b"leading junk bytes".to_vec();
    noisy.extend_from_slice(&archive);
    noisy.extend_from_slice(b"trailing junk");
    let from_noisy = extract_unmodeled_bytes(&noisy).expect("extract");

    assert_eq!(plain.len(), from_noisy.len());
    for (a, b) in plain.iter().zip(from_noisy.iter()) {
        assert_eq!(a.block_index, b.block_index);
        assert_eq!(a.filename, b.filename);
        assert_eq!(a.comment, b.comment);
        assert_eq!(a.data, b.data);
        assert_eq!(a.sha1, b.sha1);
    }
}

#[test]
fn modeled_block_is_rejected() {
    let mut buf = Vec::new();
    buf.extend_from_slice(&MAGIC_16);
    buf.push(1); // level
    buf.push(1); // zpaql type
    buf.extend_from_slice(&9u16.to_le_bytes()); // hsize
    buf.extend_from_slice(&[0, 0, 0, 0, 1]); // hh hm ph pm n = 1
    buf.extend_from_slice(&[1, 0]); // one COMP entry of type 1
    buf.push(0); // COMP END
    buf.push(0); // HCOMP END
    buf.extend_from_slice(&[255, 0, 0]); // padding past the scan margin

    let blocks = inspect_bytes(&buf).expect("inspect");
    assert_eq!(blocks.len(), 1);
    assert_eq!(blocks[0].n_components, 1);

    let err = extract_unmodeled_bytes(&buf).expect_err("must fail");
    assert!(matches!(
        err,
        ZparsError::InvalidFormat("modeled blocks are not supported yet; use zpaq -m0 for now")
    ));
}

#[test]
fn broken_comp_section_is_corrupt() {
    let mut buf = Vec::new();
    buf.extend_from_slice(&MAGIC_16);
    buf.push(1); // level
    buf.push(1); // zpaql type
    buf.extend_from_slice(&9u16.to_le_bytes()); // hsize
    buf.extend_from_slice(&[0, 0, 0, 0, 1]); // one component claimed
    buf.extend_from_slice(&[200, 0]); // invalid component type
    buf.push(0);
    buf.push(0);
    buf.extend_from_slice(&[0, 0, 0]);

    let err = inspect_bytes(&buf).expect_err("must fail");
    assert!(matches!(err, ZparsError::Corrupt(_)));
}

#[test]
fn truncated_segment_payload_is_corrupt() {
    let mut archive = one_segment_archive(b"hi!");
    // Cut the archive inside the payload chunk.
    archive.truncate(archive.len() - 8);
    let err = extract_unmodeled_bytes(&archive).expect_err("must fail");
    assert!(matches!(err, ZparsError::Corrupt(_)));
}

#[test]
fn missing_segment_marker_is_corrupt() {
    let mut archive = one_segment_archive(b"hi!");
    // Overwrite the begin-segment marker with garbage.
    let marker_pos = 16 + 2 + 2 + 7;
    assert_eq!(archive[marker_pos], 1);
    archive[marker_pos] = 9;
    let err = extract_unmodeled_bytes(&archive).expect_err("must fail");
    assert!(matches!(err, ZparsError::Corrupt(_)));
}
