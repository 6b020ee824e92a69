//! Direct decoder tests: crafted byte streams, the error taxonomy at the
//! external boundary, and the sliding-window choke point.

use lzma_adaptive::decompress_lzma;
use lzma_adaptive::defs::LzmaError;
use lzma_adaptive::error_code;
use lzma_adaptive::search::search_parameters;
use lzma_adaptive::search_decompress;
use lzma_adaptive::window::Window;

#[test]
fn empty_stream_zero_output_succeeds() {
    // A placeholder header byte and a minimal range-coder payload: with an
    // output ceiling of zero the session finishes immediately with no bytes.
    let source = [0x5D, 0x00, 0x00, 0x01, 0x00];
    let r = decompress_lzma(&source, 3, 0, 2, 0, 0, 0);
    assert_eq!(r, Ok(Vec::new()));
}

#[test]
fn offset_at_end_is_invalid() {
    let source = [0x5D, 0x00, 0x00, 0x01, 0x00];
    assert_eq!(decompress_lzma(&source, 3, 0, 2, 0, 5, 0), Err(-1));
    assert_eq!(decompress_lzma(&source, 3, 0, 2, 0, 9, 16), Err(-1));
}

#[test]
fn source_too_short_for_initialization() {
    let source = [0x00, 0x00, 0x00];
    assert_eq!(decompress_lzma(&source, 0, 0, 0, 0, 0, 0), Err(1));
}

#[test]
fn nonzero_offset_skips_header_bytes() {
    let source = [0xAA, 0xBB, 0x5D, 0x00, 0x00, 0x01, 0x00];
    let r = decompress_lzma(&source, 3, 0, 2, 0, 2, 0);
    assert_eq!(r, Ok(Vec::new()));
}

#[test]
fn first_packet_backward_reference_fails() {
    // All-ones code bytes decode the first two context bits as 1,1: a
    // repeated match before any output, which must be rejected as an
    // invalid back-reference, never read before the buffer start.
    let source = [0x00, 0xFF, 0xFF, 0xFF, 0xFF];
    assert_eq!(decompress_lzma(&source, 3, 0, 2, 0, 0, 1), Err(3));
}

#[test]
fn back_reference_failure_for_every_tuple() {
    // The same crafted stream fails identically under the whole parameter
    // grid, so the search reports all 125 attempts and the last error.
    let source = [0x00, 0xFF, 0xFF, 0xFF, 0xFF];
    let r = search_parameters(&source, 0, 1, 0);
    match r {
        Ok(_) => panic!("no tuple may accept this stream"),
        Err(f) => {
            assert_eq!(f.attempts, 125);
            assert_eq!(f.last_error, LzmaError::InvalidBackReference);
        }
    }
    assert_eq!(search_decompress(&source, 0, 0, 1), Err(5));
}

#[test]
fn search_rejects_invalid_offset() {
    let source = [0x00, 0xFF];
    let r = search_parameters(&source, 7, 4, 0);
    match r {
        Ok(_) => panic!("offset lies outside the source"),
        Err(f) => {
            assert_eq!(f.attempts, 0);
            assert_eq!(f.last_error, LzmaError::InvalidOffset);
        }
    }
    assert_eq!(search_decompress(&source, 0, 7, 4), Err(-1));
}

#[test]
fn repeated_match_and_short_rep_packets() {
    // Two literals, a fresh match at distance 2, a repeated match reusing
    // that distance, a one-byte short rep, then the end marker.
    let source = [
        0x00, 0x30, 0x98, 0x9C, 0x07, 0x43, 0x20, 0xFF, 0xBF, 0xFF, 0xFF, 0xF0, 0x83, 0xE0, 0x00,
    ];
    let r = decompress_lzma(&source, 3, 0, 2, 0, 0, 100);
    assert_eq!(r, Ok(b"abababa".to_vec()));
}

#[test]
fn mid_range_distance_uses_positional_tree() {
    // Six literals then a match at distance 6: a distance slot whose extra
    // bits come from the positional probability array.
    let source = [
        0x00, 0x30, 0x98, 0x88, 0xC9, 0xC6, 0xE0, 0x17, 0x1D, 0x68, 0xE6, 0xF3, 0xFF, 0xFF, 0xF1,
        0x00, 0xC0, 0x00,
    ];
    let r = decompress_lzma(&source, 2, 1, 1, 0, 0, 100);
    assert_eq!(r, Ok(b"abcdefabc".to_vec()));
}

#[test]
fn error_codes_are_distinct() {
    assert_eq!(error_code(LzmaError::InvalidOffset), -1);
    assert_eq!(error_code(LzmaError::StreamExhausted), 1);
    assert_eq!(error_code(LzmaError::OutputOverflow), 2);
    assert_eq!(error_code(LzmaError::InvalidBackReference), 3);
    assert_eq!(error_code(LzmaError::RangeCorrupt), 4);
    assert_eq!(error_code(LzmaError::SearchExhausted), 5);
}

#[test]
fn window_append_respects_ceiling() {
    let mut w = Window::new(2, 8);
    assert_eq!(w.append(10), Ok(()));
    assert_eq!(w.append(20), Ok(()));
    assert_eq!(w.append(30), Err(LzmaError::OutputOverflow));
    assert_eq!(w.len(), 2);
}

#[test]
fn window_overlapping_copy_repeats_fresh_bytes() {
    let mut w = Window::new(16, 64);
    assert_eq!(w.append(1), Ok(()));
    assert_eq!(w.append(2), Ok(()));
    assert_eq!(w.copy_match(1, 3), Ok(()));
    assert_eq!(w.len(), 5);
    assert_eq!(w.byte_at_back(1), 2);
    assert_eq!(w.byte_at_back(2), 2);
    assert_eq!(w.byte_at_back(3), 2);
    assert_eq!(w.byte_at_back(4), 2);
    assert_eq!(w.byte_at_back(5), 1);
}

#[test]
fn window_rejects_distance_past_start() {
    let mut w = Window::new(16, 64);
    assert_eq!(w.append(9), Ok(()));
    assert_eq!(w.copy_match(2, 1), Err(LzmaError::InvalidBackReference));
    assert_eq!(w.len(), 1);
}

#[test]
fn window_rejects_distance_past_dictionary() {
    let mut w = Window::new(16, 2);
    for b in 0..4u8 {
        assert_eq!(w.append(b), Ok(()));
    }
    assert_eq!(w.copy_match(3, 1), Err(LzmaError::InvalidBackReference));
    assert_eq!(w.copy_match(2, 2), Ok(()));
}

#[test]
fn window_copy_rejects_overflow_whole() {
    let mut w = Window::new(3, 64);
    assert_eq!(w.append(5), Ok(()));
    assert_eq!(w.copy_match(1, 3), Err(LzmaError::OutputOverflow));
    assert_eq!(w.len(), 1);
    assert_eq!(w.copy_match(1, 2), Ok(()));
    assert_eq!(w.len(), 3);
}
