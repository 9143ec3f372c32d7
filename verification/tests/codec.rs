use clamav_client::codec::encode_be_u32;
use clamav_client::codec::frame_chunk;
use clamav_client::codec::instream_header;
use clamav_client::codec::instream_request;
use clamav_client::codec::ping_request;
use clamav_client::codec::terminator;
use clamav_client::codec::InvalidChunkSize;
use clamav_client::codec::DEFAULT_CHUNK_SIZE;

/// Splits a transmitted INSTREAM byte stream into its chunk payloads,
/// checking the header, every length prefix, and the terminator on the way.
fn parse_instream(msg: &[u8]) -> Vec<Vec<u8>> {
    assert_eq!(&msg[..10], b"zINSTREAM\0");
    let mut chunks: Vec<Vec<u8>> = Vec::new();
    let mut pos = 10;
    loop {
        let prefix: [u8; 4] = msg[pos..pos + 4].try_into().unwrap();
        let len = u32::from_be_bytes(prefix) as usize;
        pos += 4;
        if len == 0 {
            break;
        }
        chunks.push(msg[pos..pos + len].to_vec());
        pos += len;
    }
    assert_eq!(pos, msg.len(), "bytes after the terminator");
    chunks
}

#[test]
fn ping_request_is_zping_nul() {
    assert_eq!(ping_request(), b"zPING\0".to_vec());
}

#[test]
fn instream_header_is_zinstream_nul() {
    assert_eq!(instream_header(), b"zINSTREAM\0".to_vec());
}

#[test]
fn terminator_is_four_zero_bytes() {
    assert_eq!(terminator(), vec![0u8, 0, 0, 0]);
}

#[test]
fn big_endian_encoding_is_exact() {
    assert_eq!(encode_be_u32(0), vec![0u8, 0, 0, 0]);
    assert_eq!(encode_be_u32(1), vec![0u8, 0, 0, 1]);
    assert_eq!(encode_be_u32(4096), vec![0u8, 0, 0x10, 0]);
    assert_eq!(encode_be_u32(1808), vec![0u8, 0, 0x07, 0x10]);
    assert_eq!(encode_be_u32(0x01020304), vec![1u8, 2, 3, 4]);
    assert_eq!(encode_be_u32(u32::MAX), vec![0xFFu8, 0xFF, 0xFF, 0xFF]);
}

#[test]
fn length_prefix_decodes_to_chunk_length() {
    for n in [0usize, 1, 3, 255, 256, 4096, 65535, 65536] {
        let chunk = vec![0xA5u8; n];
        let frame = frame_chunk(&chunk);
        assert_eq!(frame.len(), 4 + n);
        let prefix: [u8; 4] = frame[..4].try_into().unwrap();
        assert_eq!(u32::from_be_bytes(prefix) as usize, n);
        assert_eq!(&frame[4..], &chunk[..]);
    }
}

#[test]
fn frame_chunk_small_exact() {
    assert_eq!(frame_chunk(&[1, 2, 3]), vec![0u8, 0, 0, 3, 1, 2, 3]);
}

#[test]
fn empty_payload_sends_header_and_terminator_only() {
    let msg = instream_request(&[], None).unwrap();
    assert_eq!(msg, b"zINSTREAM\0\0\0\0\0".to_vec());
    assert!(parse_instream(&msg).is_empty());
}

#[test]
fn zero_chunk_size_is_rejected() {
    assert_eq!(instream_request(&[], Some(0)), Err(InvalidChunkSize));
    assert_eq!(instream_request(&[1, 2, 3], Some(0)), Err(InvalidChunkSize));
}

#[test]
fn default_chunk_size_is_4096() {
    let payload: Vec<u8> = (0..9000u32).map(|i| (i % 251) as u8).collect();
    let with_default = instream_request(&payload, None).unwrap();
    let with_4096 = instream_request(&payload, Some(DEFAULT_CHUNK_SIZE)).unwrap();
    assert_eq!(with_default, with_4096);
    let chunks = parse_instream(&with_default);
    let lens: Vec<usize> = chunks.iter().map(|c| c.len()).collect();
    assert_eq!(lens, vec![4096, 4096, 808]);
}

#[test]
fn ten_thousand_bytes_chunked_at_4096() {
    let payload: Vec<u8> = (0..10000u32).map(|i| (i * 7 % 256) as u8).collect();
    let msg = instream_request(&payload, Some(4096)).unwrap();
    assert_eq!(&msg[..10], b"zINSTREAM\0");
    let chunks = parse_instream(&msg);
    let lens: Vec<usize> = chunks.iter().map(|c| c.len()).collect();
    assert_eq!(lens, vec![4096, 4096, 1808]);
    assert_eq!(&msg[msg.len() - 4..], &[0u8, 0, 0, 0]);
}

#[test]
fn chunk_count_is_ceiling_of_length_over_size() {
    for (n, c) in [(0usize, 1u32), (1, 1), (5, 2), (6, 2), (4096, 4096), (4097, 4096), (10000, 4096)] {
        let payload = vec![0x11u8; n];
        let msg = instream_request(&payload, Some(c)).unwrap();
        let chunks = parse_instream(&msg);
        let expected = n.div_ceil(c as usize);
        assert_eq!(chunks.len(), expected, "payload {} chunk size {}", n, c);
        for chunk in chunks.iter().take(chunks.len().saturating_sub(1)) {
            assert_eq!(chunk.len(), c as usize);
        }
        if n > 0 {
            let last = chunks.last().unwrap().len();
            let rem = if n % c as usize == 0 { c as usize } else { n % c as usize };
            assert_eq!(last, rem);
        }
    }
}

#[test]
fn concatenated_chunks_reproduce_the_payload() {
    let payload: Vec<u8> = (0..10000u32).map(|i| (i * 13 % 256) as u8).collect();
    for c in [1u32, 7, 4096, 9999, 10000, 20000] {
        let msg = instream_request(&payload, Some(c)).unwrap();
        let chunks = parse_instream(&msg);
        let rebuilt: Vec<u8> = chunks.concat();
        assert_eq!(rebuilt, payload, "chunk size {}", c);
    }
}

#[test]
fn payload_shorter_than_chunk_size_is_one_chunk() {
    let msg = instream_request(&[9, 8, 7, 6, 5], Some(4096)).unwrap();
    let chunks = parse_instream(&msg);
    assert_eq!(chunks, vec![vec![9u8, 8, 7, 6, 5]]);
}

#[test]
fn evenly_divided_payload_has_full_last_chunk() {
    let payload = vec![0x42u8; 8192];
    let msg = instream_request(&payload, Some(4096)).unwrap();
    let chunks = parse_instream(&msg);
    let lens: Vec<usize> = chunks.iter().map(|c| c.len()).collect();
    assert_eq!(lens, vec![4096, 4096]);
}
