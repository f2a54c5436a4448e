use pi_codec::codec::{compress, decompress, DecompressError, Segment};
use pi_codec::load_pi;

const DICT: &str = "3141592653589793238462643383279502884197169399375105820974944";

#[test]
fn single_byte_found_at_start() {
    // 0x31 renders as hex "31", which the dictionary starts with.
    let segments = compress(&[0x31], DICT);
    assert_eq!(segments, vec![Segment::Match { pos: 0, len: 1 }]);
    let restored = decompress(&segments, DICT).unwrap();
    assert_eq!(restored, vec![0x31]);
}

#[test]
fn unmatchable_byte_stays_raw() {
    // 0xFF renders as hex "ff"; a dictionary of digits holds no letters.
    let segments = compress(&[0xFF], DICT);
    assert_eq!(segments, vec![Segment::Raw(vec![0xFF])]);
    let restored = decompress(&segments, DICT).unwrap();
    assert_eq!(restored, vec![0xFF]);
}

#[test]
fn longest_run_preferred_over_pieces() {
    // "AB" is the bytes 0x41 0x42, hex "4142". The dictionary holds "4142"
    // as one run, so the compressor must emit a single two-byte Match rather
    // than two one-byte segments.
    let dict = "999941420000";
    let segments = compress(b"AB", dict);
    assert_eq!(segments, vec![Segment::Match { pos: 4, len: 2 }]);
    let restored = decompress(&segments, dict).unwrap();
    assert_eq!(restored, b"AB".to_vec());
}

#[test]
fn hand_built_segment_past_end_is_out_of_bounds() {
    // A Match that starts on the last dictionary character but claims four
    // hex characters reaches past the end.
    let segments = vec![Segment::Match { pos: DICT.len() - 1, len: 2 }];
    assert_eq!(decompress(&segments, DICT), Err(DecompressError::OutOfBounds));
}

#[test]
fn leftmost_occurrence_wins() {
    // The key "77" occurs at positions 5 and 12; the Match must report 5.
    let dict = "00000770000077";
    let segments = compress(&[0x77], dict);
    assert_eq!(segments, vec![Segment::Match { pos: 5, len: 1 }]);
}

#[test]
fn compress_is_deterministic() {
    let input = b"determinism check 123";
    let first = compress(input, DICT);
    let second = compress(input, DICT);
    assert_eq!(first, second);
}

#[test]
fn round_trip_over_builtin_dictionary() {
    let pi = load_pi();
    let input: Vec<u8> = b"hello world \x00\xff\x31\x41 mixed bytes".to_vec();
    let segments = compress(&input, pi);
    let restored = decompress(&segments, pi).unwrap();
    assert_eq!(restored, input);
}

#[test]
fn round_trip_of_every_single_byte() {
    let pi = load_pi();
    for b in 0..=255u8 {
        let segments = compress(&[b], pi);
        let restored = decompress(&segments, pi).unwrap();
        assert_eq!(restored, vec![b]);
    }
}

#[test]
fn empty_input_yields_no_segments() {
    let segments = compress(&[], DICT);
    assert!(segments.is_empty());
    assert_eq!(decompress(&segments, DICT), Ok(Vec::new()));
}

#[test]
fn match_bounds_stay_inside_dictionary() {
    let pi = load_pi();
    let input = b"\x09\x99\x31\x41\x59bounds";
    for seg in compress(input, pi) {
        if let Segment::Match { pos, len } = seg {
            assert!(pos + 2 * len <= pi.len());
        }
    }
}

#[test]
fn non_hex_dictionary_reference_is_invalid_hex() {
    // Hand-built segments may point into a dictionary that does not hold
    // hex digits at the referenced spot.
    let segments = vec![Segment::Match { pos: 0, len: 1 }];
    assert_eq!(decompress(&segments, "xy12"), Err(DecompressError::InvalidHex));
}

#[test]
fn segment_byte_counts_cover_the_input() {
    let pi = load_pi();
    let input = b"cover check \x05\x19\x99";
    let mut covered = 0usize;
    for seg in compress(input, pi) {
        match seg {
            Segment::Match { len, .. } => covered += len,
            Segment::Raw(bytes) => covered += bytes.len(),
        }
    }
    assert_eq!(covered, input.len());
}
