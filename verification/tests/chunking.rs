use kiru::bytes_chunker::{chunk_stream_by_bytes, chunk_string_by_bytes};
use kiru::characters_chunker::{chunk_stream_by_characters, chunk_string_by_characters};
use kiru::stream::DecodePolicy;
use kiru::ChunkingError;

fn string_chunks_by_characters(text: &str, chunk_size: usize, overlap: usize) -> Vec<String> {
    chunk_string_by_characters(text.to_string(), chunk_size, overlap)
        .unwrap()
        .all()
}

fn string_chunks_by_bytes(text: &str, chunk_size: usize, overlap: usize) -> Vec<String> {
    chunk_string_by_bytes(text.to_string(), chunk_size, overlap)
        .unwrap()
        .all()
        .unwrap()
}

#[test]
fn test_chunk_string_by_characters() {
    let text = "01234567890123456789";
    let chunk_size = 10;
    let overlap = 3;

    let chunks: Vec<String> = string_chunks_by_characters(text, chunk_size, overlap);

    assert_eq!(chunks.len(), 3);
    assert_eq!(chunks[0], "0123456789");
    assert_eq!(chunks[1], "7890123456");
    assert_eq!(chunks[2], "456789");
}

#[test]
fn test_chunk_string_by_bytes_ascii() {
    // on pure ASCII the byte strategy matches the character strategy
    let text = "01234567890123456789";
    let chunks = string_chunks_by_bytes(text, 10, 3);
    assert_eq!(chunks, string_chunks_by_characters(text, 10, 3));
    assert_eq!(chunks, vec!["0123456789", "7890123456", "456789"]);
}

#[test]
fn test_invalid_arguments_string_bytes() {
    let r = chunk_string_by_bytes("abc".to_string(), 3, 3);
    match r {
        Err(ChunkingError::InvalidArguments {
            chunk_size,
            overlap,
        }) => {
            assert_eq!(chunk_size, 3);
            assert_eq!(overlap, 3);
        }
        _ => panic!("expected InvalidArguments"),
    }
}

#[test]
fn test_invalid_arguments_string_characters() {
    let r = chunk_string_by_characters("abc".to_string(), 2, 5);
    match r {
        Err(ChunkingError::InvalidArguments {
            chunk_size,
            overlap,
        }) => {
            assert_eq!(chunk_size, 2);
            assert_eq!(overlap, 5);
        }
        _ => panic!("expected InvalidArguments"),
    }
}

#[test]
fn test_invalid_arguments_stream() {
    let data: Vec<u8> = b"abcdef".to_vec();
    let rb = chunk_stream_by_bytes(&data, 4, 2, 2, DecodePolicy::BestEffortSkip);
    assert_eq!(
        rb.unwrap_err(),
        ChunkingError::InvalidArguments {
            chunk_size: 2,
            overlap: 2
        }
    );
    let rc = chunk_stream_by_characters(&data, 4, 1, 9, DecodePolicy::StrictFail);
    assert_eq!(
        rc.unwrap_err(),
        ChunkingError::InvalidArguments {
            chunk_size: 1,
            overlap: 9
        }
    );
}

#[test]
fn test_empty_input_produces_no_chunks() {
    assert_eq!(string_chunks_by_bytes("", 8, 2).len(), 0);
    assert_eq!(string_chunks_by_characters("", 8, 2).len(), 0);
    let empty: Vec<u8> = Vec::new();
    assert_eq!(
        chunk_stream_by_bytes(&empty, 4, 8, 2, DecodePolicy::StrictFail)
            .unwrap()
            .len(),
        0
    );
    assert_eq!(
        chunk_stream_by_characters(&empty, 4, 8, 2, DecodePolicy::StrictFail)
            .unwrap()
            .len(),
        0
    );
}

#[test]
fn test_bytes_multibyte_boundary() {
    // "héllo" is six bytes; the byte window ending inside "é" is pulled back
    let chunks = string_chunks_by_bytes("héllo", 4, 1);
    assert_eq!(chunks, vec!["hél", "llo"]);
}

#[test]
fn test_characters_multibyte() {
    let chunks = string_chunks_by_characters("héllo", 3, 1);
    assert_eq!(chunks, vec!["hél", "llo"]);
}

#[test]
fn test_bytes_stall_reports_unknown() {
    // three-byte characters with chunk_size 4 and overlap 3: the window is
    // pulled back to 3 bytes, the step cannot clear the overlap, and the
    // engine reports the internal error instead of looping
    let text = "\u{20ac}\u{20ac}\u{20ac}\u{20ac}";
    let r = chunk_string_by_bytes(text.to_string(), 4, 3).unwrap().all();
    assert_eq!(r.unwrap_err(), ChunkingError::Unknown);
}

#[test]
fn test_reconstruction_by_characters() {
    let text = "abcdefghij";
    let overlap = 2;
    let chunks = string_chunks_by_characters(text, 4, overlap);
    assert_eq!(chunks, vec!["abcd", "cdef", "efgh", "ghij"]);
    let mut rebuilt = String::new();
    for (i, c) in chunks.iter().enumerate() {
        if i + 1 < chunks.len() {
            let keep: String = c.chars().take(c.chars().count() - overlap).collect();
            rebuilt.push_str(&keep);
        } else {
            rebuilt.push_str(c);
        }
    }
    assert_eq!(rebuilt, text);
}

#[test]
fn test_coverage_overlap_by_bytes() {
    // consecutive chunks overlap by at least the requested number of bytes
    // and leave no gap
    let text = "0123456789abcdefghijklmnopqrstuvwxyz";
    let overlap = 4;
    let chunks = string_chunks_by_bytes(text, 9, overlap);
    assert!(chunks.len() > 1);
    let mut pos = 0usize;
    for (i, c) in chunks.iter().enumerate() {
        assert_eq!(&text[pos..pos + c.len()], c.as_str());
        if i + 1 < chunks.len() {
            pos += c.len() - overlap;
        }
    }
    assert_eq!(pos + chunks.last().unwrap().len(), text.len());
}

#[test]
fn test_stream_matches_string_by_bytes() {
    let text = "héllo wörld, 𝄞 music and \u{20ac}uro signs — 0123456789 abcdefghijklmnopqrstuvwxyz";
    let data = text.as_bytes().to_vec();
    let expected = string_chunks_by_bytes(text, 11, 4);
    for block_size in [1usize, 2, 3, 5, 7, 16, 64, 8192] {
        let got = chunk_stream_by_bytes(&data, block_size, 11, 4, DecodePolicy::StrictFail)
            .unwrap();
        let got_strings: Vec<String> = got
            .into_iter()
            .map(|v| String::from_utf8(v).unwrap())
            .collect();
        assert_eq!(got_strings, expected, "block size {}", block_size);
    }
}

#[test]
fn test_stream_matches_string_by_characters() {
    let text = "héllo wörld, 𝄞 music and \u{20ac}uro signs — 0123456789 abcdefghijklmnopqrstuvwxyz";
    let data = text.as_bytes().to_vec();
    let expected = string_chunks_by_characters(text, 7, 2);
    for block_size in [1usize, 2, 3, 5, 7, 16, 64, 8192] {
        let got = chunk_stream_by_characters(&data, block_size, 7, 2, DecodePolicy::BestEffortSkip)
            .unwrap();
        let got_strings: Vec<String> = got
            .into_iter()
            .map(|v| String::from_utf8(v).unwrap())
            .collect();
        assert_eq!(got_strings, expected, "block size {}", block_size);
    }
}

#[test]
fn test_stream_by_characters_large() {
    // the streaming path with the block size the file chunkers use
    let text: String = "0123456789".repeat(10_000);
    let data = text.as_bytes().to_vec();
    let chunks = chunk_stream_by_characters(&data, 8192, 8192, 0, DecodePolicy::BestEffortSkip)
        .unwrap();
    let expected = string_chunks_by_characters(&text, 8192, 0);
    assert_eq!(chunks.len(), expected.len());
    for (c, e) in chunks.iter().zip(expected.iter()) {
        assert_eq!(c.as_slice(), e.as_bytes());
    }
}

#[test]
fn test_pull_one_chunk_at_a_time() {
    let mut seq = chunk_string_by_characters("abcdef".to_string(), 4, 1).unwrap();
    assert_eq!(seq.next(), Some("abcd".to_string()));
    assert_eq!(seq.next(), Some("def".to_string()));
    assert_eq!(seq.next(), None);
    assert_eq!(seq.next(), None);
}
