use rust_compressor::error::CodecError;
use rust_compressor::lz::{compress, compress_with, decompress, Config};
use rust_compressor::lz_model::{
    LITERAL_TAG, MATCH_TAG, MAX_LENGTH, MIN_MATCH_LENGTH, WINDOW_SIZE,
};

fn lz_round_trip(input: &[u8]) {
    let compressed = compress(input).unwrap();
    let decompressed = decompress(&compressed).unwrap();
    assert_eq!(input.to_vec(), decompressed);
}

fn literals(bytes: &[u8]) -> Vec<u8> {
    let mut stream = Vec::new();
    for b in bytes {
        stream.push(0x00);
        stream.push(*b);
    }
    stream
}

#[test]
fn test_lz_roundtrip() {
    let input = b"ABABABABABAB";
    let compressed = compress(input).unwrap();
    let decompressed = decompress(&compressed).unwrap();
    assert_eq!(input.to_vec(), decompressed);
}

#[test]
fn lz_constants() {
    assert_eq!(LITERAL_TAG, 0x00);
    assert_eq!(MATCH_TAG, 0x01);
    assert_eq!(WINDOW_SIZE, 20);
    assert_eq!(MIN_MATCH_LENGTH, 3);
    assert_eq!(MAX_LENGTH, 255);
}

#[test]
fn lz_stream_of_alternating_pair() {
    let compressed = compress(b"ABABABABABAB").unwrap();
    assert_eq!(
        compressed,
        vec![0, b'A', 0, b'B', 0, b'A', 0, b'B', 1, 4, 4, 1, 8, 4]
    );
    assert_eq!(decompress(&compressed).unwrap().len(), 12);
}

#[test]
fn lz_repeat_of_two_bytes_stays_literal() {
    assert_eq!(compress(b"ABXAB").unwrap(), literals(b"ABXAB"));
    assert_eq!(compress(b"ABAB").unwrap(), literals(b"ABAB"));
    lz_round_trip(b"ABXAB");
}

#[test]
fn lz_repeat_of_three_bytes_becomes_a_match() {
    let mut expected = literals(b"ABCX");
    expected.extend([1, 4, 3]);
    assert_eq!(compress(b"ABCXABC").unwrap(), expected);
    lz_round_trip(b"ABCXABC");
}

#[test]
fn lz_match_at_the_far_end_of_the_window() {
    let mut expected = literals(b"ABCDEFGHIJKLMNOPQRST");
    expected.extend([1, 20, 3]);
    assert_eq!(compress(b"ABCDEFGHIJKLMNOPQRSTABC").unwrap(), expected);
}

#[test]
fn lz_repeat_beyond_the_window_stays_literal() {
    let input = b"ABCDEFGHIJKLMNOPQRSTUABC";
    assert_eq!(compress(input).unwrap(), literals(input));
    lz_round_trip(input);
}

#[test]
fn lz_wider_window_reaches_the_repeat() {
    let input = b"ABCDEFGHIJKLMNOPQRSTUABC";
    let config = Config::new(21, 3).unwrap();
    let mut expected = literals(b"ABCDEFGHIJKLMNOPQRSTU");
    expected.extend([1, 21, 3]);
    let compressed = compress_with(input, &config).unwrap();
    assert_eq!(compressed, expected);
    assert_eq!(decompress(&compressed).unwrap(), input.to_vec());
}

#[test]
fn lz_tie_goes_to_the_larger_offset() {
    let mut expected = literals(b"ABCx");
    expected.extend([1, 4, 3]);
    expected.extend(literals(b"y"));
    expected.extend([1, 8, 3]);
    assert_eq!(compress(b"ABCxABCyABC").unwrap(), expected);
    assert_eq!(compress(b"ABCxABCyABC").unwrap(), compress(b"ABCxABCyABC").unwrap());
    lz_round_trip(b"ABCxABCyABC");
}

#[test]
fn lz_longer_match_replaces_an_older_shorter_one() {
    // At the last match the candidate at distance 9 matches three bytes,
    // the newer one at distance 5 matches four.
    let input = b"ABCyABCDzABCD";
    let compressed = compress(input).unwrap();
    let mut expected = literals(b"ABCy");
    expected.extend([1, 4, 3]);
    expected.extend(literals(b"Dz"));
    expected.extend([1, 5, 4]);
    assert_eq!(compressed, expected);
    lz_round_trip(input);
}

#[test]
fn lz_source_of_a_match_never_reaches_the_position() {
    let input = vec![b'a'; 40];
    let compressed = compress(&input).unwrap();
    assert_eq!(
        compressed,
        vec![0, 97, 0, 97, 0, 97, 1, 3, 3, 1, 6, 6, 1, 12, 12, 1, 20, 16]
    );
    assert_eq!(decompress(&compressed).unwrap(), input);
}

#[test]
fn lz_phrase_repeated() {
    let compressed = compress(b"hello hello hello hello").unwrap();
    let mut expected = literals(b"hello ");
    expected.extend([1, 6, 6, 1, 12, 11]);
    assert_eq!(compressed, expected);
}

#[test]
fn lz_match_length_is_capped_by_the_length_field() {
    let input = vec![0u8; 1000];
    let config = Config::new(255, 3).unwrap();
    let compressed = compress_with(&input, &config).unwrap();
    assert_eq!(
        compressed,
        vec![
            0, 0, 0, 0, 0, 0, 1, 3, 3, 1, 6, 6, 1, 12, 12, 1, 24, 24, 1, 48, 48, 1, 96, 96, 1,
            192, 192, 1, 255, 255, 1, 255, 255, 1, 255, 106
        ]
    );
    assert_eq!(decompress(&compressed).unwrap(), input);
}

#[test]
fn lz_standard_window_bounds_offset_and_length() {
    let input = vec![0u8; 1000];
    let compressed = compress(&input).unwrap();
    assert_eq!(compressed.len(), 162);
    let mut i = 0;
    while i < compressed.len() {
        if compressed[i] == 0 {
            i += 2;
        } else {
            assert_eq!(compressed[i], 1);
            assert!(1 <= compressed[i + 1] && compressed[i + 1] <= 20);
            assert!(compressed[i + 2] >= 3);
            i += 3;
        }
    }
    assert_eq!(i, compressed.len());
    assert_eq!(decompress(&compressed).unwrap(), input);
}

#[test]
fn lz_higher_minimum_match_length() {
    let config = Config::new(20, 5).unwrap();
    assert_eq!(compress_with(b"ABCXABC", &config).unwrap(), literals(b"ABCXABC"));
    let mut expected = literals(b"ABCDEX");
    expected.extend([1, 6, 5]);
    assert_eq!(compress_with(b"ABCDEXABCDE", &config).unwrap(), expected);
}

#[test]
fn lz_window_of_zero_gives_literals_only() {
    let config = Config::new(0, 3).unwrap();
    let input = vec![b'z'; 50];
    let compressed = compress_with(&input, &config).unwrap();
    assert_eq!(compressed, literals(&input));
    assert_eq!(decompress(&compressed).unwrap(), input);
}

#[test]
fn lz_config_accepts_minimum_of_three_or_more() {
    assert!(Config::new(20, 0).is_none());
    assert!(Config::new(20, 2).is_none());
    let config = Config::new(200, 3).unwrap();
    assert_eq!(config.window_size(), 200);
    assert_eq!(config.min_match_length(), 3);
    let config = Config::new(0, 255).unwrap();
    assert_eq!(config.window_size(), 0);
    assert_eq!(config.min_match_length(), 255);
}

#[test]
fn lz_standard_config_is_what_compress_uses() {
    let config = Config::standard();
    assert_eq!(config.window_size(), 20);
    assert_eq!(config.min_match_length(), 3);
    let input = b"hello hello hello, ABCDEFGHIJKLMNOPQRSTUABC";
    assert_eq!(compress_with(input, &config), compress(input));
}

#[test]
fn lz_round_trips() {
    lz_round_trip(b"a");
    lz_round_trip(b"ab");
    lz_round_trip(b"aaa");
    lz_round_trip(b"aaaa");
    lz_round_trip(b"abcabcabcabcabcabcabcabc");
    lz_round_trip(b"the quick brown fox jumps over the lazy dog, the quick brown fox");
    lz_round_trip(&[0, 1, 0, 1, 0, 1, 1, 1, 1, 0, 0, 0]);
    let all: Vec<u8> = (0..=255u8).collect();
    lz_round_trip(&all);
    let mixed: Vec<u8> = (0..3000u32).map(|k| (k * k % 11) as u8).collect();
    lz_round_trip(&mixed);
}

#[test]
fn lz_round_trips_for_other_configurations() {
    let mixed: Vec<u8> = (0..1500u32).map(|k| (k * k % 7) as u8).collect();
    for (window, min_len) in [(0u8, 3u8), (1, 3), (3, 3), (20, 4), (100, 10), (255, 3), (255, 255)] {
        let config = Config::new(window, min_len).unwrap();
        let compressed = compress_with(&mixed, &config).unwrap();
        assert_eq!(decompress(&compressed).unwrap(), mixed);
    }
}

#[test]
fn lz_compress_of_nothing_is_an_empty_stream() {
    assert_eq!(compress(&[]), Ok(Vec::new()));
    assert_eq!(compress_with(&[], &Config::standard()), Ok(Vec::new()));
    assert_eq!(compress_with(&[], &Config::new(255, 9).unwrap()), Ok(Vec::new()));
    lz_round_trip(&[]);
}

#[test]
fn lz_compress_never_fails() {
    assert!(compress(&[0]).is_ok());
    assert!(compress(&[1, 1, 1, 1, 1, 1, 1]).is_ok());
    let all: Vec<u8> = (0..=255u8).collect();
    assert!(compress(&all).is_ok());
}

#[test]
fn lz_decompress_of_nothing_is_nothing() {
    assert_eq!(decompress(&[]), Ok(Vec::new()));
}

#[test]
fn lz_decompress_literals() {
    assert_eq!(decompress(&[0, b'h', 0, b'i']), Ok(b"hi".to_vec()));
}

#[test]
fn lz_decompress_overlapping_match_repeats_the_pattern() {
    let stream = [0, b'A', 0, b'B', 1, 2, 10];
    assert_eq!(decompress(&stream), Ok(b"ABABABABABAB".to_vec()));
    let stream = [0, b'z', 1, 1, 255];
    assert_eq!(decompress(&stream), Ok(vec![b'z'; 256]));
}

#[test]
fn lz_decompress_match_without_overlap() {
    let stream = [0, b'A', 0, b'B', 0, b'C', 0, b'D', 1, 4, 2, 1, 3, 3];
    assert_eq!(decompress(&stream), Ok(b"ABCDABDAB".to_vec()));
}

#[test]
fn lz_decompress_lone_literal_tag_is_truncated() {
    assert_eq!(decompress(&[0x00]), Err(CodecError::TruncatedInput));
    assert_eq!(decompress(&[0, b'A', 0, b'B', 0x00]), Err(CodecError::TruncatedInput));
}

#[test]
fn lz_decompress_incomplete_match_is_truncated() {
    assert_eq!(decompress(&[0x01]), Err(CodecError::TruncatedInput));
    assert_eq!(decompress(&[0x01, 0xFF]), Err(CodecError::TruncatedInput));
    assert_eq!(decompress(&[0, b'A', 0x01, 1]), Err(CodecError::TruncatedInput));
}

#[test]
fn lz_decompress_offset_beyond_output_is_invalid() {
    assert_eq!(decompress(&[0x01, 0xFF, 0x03]), Err(CodecError::InvalidOffset));
    assert_eq!(decompress(&[0, b'A', 1, 2, 3]), Err(CodecError::InvalidOffset));
    assert_eq!(decompress(&[0x01, 0x01, 0x00]), Err(CodecError::InvalidOffset));
}

#[test]
fn lz_decompress_offset_zero() {
    assert_eq!(decompress(&[0, b'A', 1, 0, 1]), Err(CodecError::InvalidOffset));
    assert_eq!(decompress(&[0, b'A', 1, 0, 0]), Ok(vec![b'A']));
    assert_eq!(decompress(&[1, 0, 0]), Ok(Vec::new()));
}

#[test]
fn lz_decompress_unknown_tag_is_invalid_marker() {
    assert_eq!(decompress(&[0x02]), Err(CodecError::InvalidMarker));
    assert_eq!(decompress(&[0xFF, 0, 0]), Err(CodecError::InvalidMarker));
    assert_eq!(decompress(&[0, b'A', 7, 1, 1]), Err(CodecError::InvalidMarker));
}

#[test]
fn lz_decompress_first_malformed_record_decides() {
    assert_eq!(decompress(&[1, 0xFF, 3, 2]), Err(CodecError::InvalidOffset));
    assert_eq!(decompress(&[2, 1, 0xFF, 3]), Err(CodecError::InvalidMarker));
    assert_eq!(decompress(&[0, b'A', 1, 1, 2, 0]), Err(CodecError::TruncatedInput));
}
