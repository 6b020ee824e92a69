//! Round-trip tests: a minimal reference LZMA encoder (range coder with the
//! same adaptive probability model the decoder uses) produces streams that
//! the verified engine must decode back to the original bytes.

use lzma_adaptive::decompress_lzma;
use lzma_adaptive::search::search_parameters;
use lzma_adaptive::search_decompress;

struct Enc {
    low: u64,
    range: u32,
    cache: u8,
    cache_size: u64,
    out: Vec<u8>,
    lc: u32,
    lp: u32,
    pb: u32,
    state: u32,
    rep0: u32,
    is_match: Vec<u16>,
    is_rep: Vec<u16>,
    pos_slot: Vec<u16>,
    spec_pos: Vec<u16>,
    align: Vec<u16>,
    len_choice: u16,
    len_choice2: u16,
    len_low: Vec<u16>,
    len_mid: Vec<u16>,
    len_high: Vec<u16>,
    literal: Vec<u16>,
}

impl Enc {
    fn new(lc: u32, lp: u32, pb: u32) -> Enc {
        Enc {
            low: 0,
            range: 0xFFFF_FFFF,
            cache: 0,
            cache_size: 1,
            out: Vec::new(),
            lc,
            lp,
            pb,
            state: 0,
            rep0: 0,
            is_match: vec![1024; 192],
            is_rep: vec![1024; 12],
            pos_slot: vec![1024; 256],
            spec_pos: vec![1024; 115],
            align: vec![1024; 16],
            len_choice: 1024,
            len_choice2: 1024,
            len_low: vec![1024; 128],
            len_mid: vec![1024; 128],
            len_high: vec![1024; 256],
            literal: vec![1024; 0x300 << (lc + lp)],
        }
    }

    fn shift_low(&mut self) {
        if self.low < 0xFF00_0000u64 || self.low > 0xFFFF_FFFFu64 {
            let carry = (self.low >> 32) as u8;
            let mut temp = self.cache;
            loop {
                self.out.push(temp.wrapping_add(carry));
                temp = 0xFF;
                self.cache_size -= 1;
                if self.cache_size == 0 {
                    break;
                }
            }
            self.cache = ((self.low >> 24) & 0xFF) as u8;
        }
        self.cache_size += 1;
        self.low = (self.low << 8) & 0xFFFF_FFFF;
    }

    fn normalize(&mut self) {
        if self.range < 0x0100_0000 {
            self.range <<= 8;
            self.shift_low();
        }
    }

    fn encode_bit_cell(&mut self, p: u16, bit: u32) -> u16 {
        let pv = p as u32;
        let bound = (self.range >> 11) * pv;
        let np;
        if bit == 0 {
            np = (pv + ((2048 - pv) >> 5)) as u16;
            self.range = bound;
        } else {
            np = (pv - (pv >> 5)) as u16;
            self.low += bound as u64;
            self.range -= bound;
        }
        self.normalize();
        np
    }

    fn encode_direct_bit(&mut self, bit: u32) {
        self.range >>= 1;
        if bit != 0 {
            self.low += self.range as u64;
        }
        self.normalize();
    }

    fn flush(&mut self) {
        for _ in 0..5 {
            self.shift_low();
        }
    }

    fn encode_literal(&mut self, data: &[u8], pos: usize) {
        let byte = data[pos] as u32;
        let pos_state = pos % (1usize << self.pb);
        let ix = (self.state as usize) * 16 + pos_state;
        let p = self.is_match[ix];
        self.is_match[ix] = self.encode_bit_cell(p, 0);
        let prev = if pos > 0 { data[pos - 1] as u32 } else { 0 };
        let lit_state =
            ((pos % (1usize << self.lp)) << self.lc) + (prev >> (8 - self.lc)) as usize;
        let base = 0x300 * lit_state;
        let mut m: usize = 1;
        if self.state >= 7 {
            let mut match_byte = data[pos - self.rep0 as usize - 1] as u32;
            let mut in_matched = true;
            for i in (0..8).rev() {
                let bit = (byte >> i) & 1;
                if in_matched {
                    let mbit = ((match_byte >> 7) & 1) as usize;
                    match_byte <<= 1;
                    let cix = base + 256 + 256 * mbit + m;
                    let p = self.literal[cix];
                    self.literal[cix] = self.encode_bit_cell(p, bit);
                    m = 2 * m + bit as usize;
                    if mbit as u32 != bit {
                        in_matched = false;
                    }
                } else {
                    let p = self.literal[base + m];
                    self.literal[base + m] = self.encode_bit_cell(p, bit);
                    m = 2 * m + bit as usize;
                }
            }
        } else {
            for i in (0..8).rev() {
                let bit = (byte >> i) & 1;
                let p = self.literal[base + m];
                self.literal[base + m] = self.encode_bit_cell(p, bit);
                m = 2 * m + bit as usize;
            }
        }
        self.state = if self.state < 4 {
            0
        } else if self.state < 10 {
            self.state - 3
        } else {
            self.state - 6
        };
    }

    fn encode_tree(&mut self, which: usize, base: usize, nbits: u32, symbol: u32) {
        let mut m: usize = 1;
        for i in (0..nbits).rev() {
            let bit = (symbol >> i) & 1;
            let cix = base + m;
            let p = match which {
                0 => self.pos_slot[cix],
                1 => self.len_low[cix],
                2 => self.len_mid[cix],
                _ => self.len_high[cix],
            };
            let np = self.encode_bit_cell(p, bit);
            match which {
                0 => self.pos_slot[cix] = np,
                1 => self.len_low[cix] = np,
                2 => self.len_mid[cix] = np,
                _ => self.len_high[cix] = np,
            }
            m = 2 * m + bit as usize;
        }
    }

    fn encode_rev_tree(&mut self, aligned: bool, base: usize, nbits: u32, symbol: u32) {
        let mut m: usize = 1;
        for i in 0..nbits {
            let bit = (symbol >> i) & 1;
            let cix = base + m;
            let p = if aligned { self.align[cix] } else { self.spec_pos[cix] };
            let np = self.encode_bit_cell(p, bit);
            if aligned {
                self.align[cix] = np;
            } else {
                self.spec_pos[cix] = np;
            }
            m = 2 * m + bit as usize;
        }
    }

    fn encode_len(&mut self, lfield: u32, pos_state: usize) {
        if lfield < 8 {
            let p = self.len_choice;
            self.len_choice = self.encode_bit_cell(p, 0);
            self.encode_tree(1, pos_state * 8, 3, lfield);
        } else if lfield < 16 {
            let p = self.len_choice;
            self.len_choice = self.encode_bit_cell(p, 1);
            let p2 = self.len_choice2;
            self.len_choice2 = self.encode_bit_cell(p2, 0);
            self.encode_tree(2, pos_state * 8, 3, lfield - 8);
        } else {
            let p = self.len_choice;
            self.len_choice = self.encode_bit_cell(p, 1);
            let p2 = self.len_choice2;
            self.len_choice2 = self.encode_bit_cell(p2, 1);
            self.encode_tree(3, 0, 8, lfield - 16);
        }
    }

    /// Encodes a match packet for distance value `dist` (distance - 1) and
    /// length field `lfield` (length - 2) at output position `pos`.
    fn encode_match(&mut self, dist: u32, lfield: u32, pos: usize) {
        let pos_state = pos % (1usize << self.pb);
        let ix = (self.state as usize) * 16 + pos_state;
        let p = self.is_match[ix];
        self.is_match[ix] = self.encode_bit_cell(p, 1);
        let pr = self.is_rep[self.state as usize];
        self.is_rep[self.state as usize] = self.encode_bit_cell(pr, 0);
        self.encode_len(lfield, pos_state);
        self.state = if self.state < 7 { 7 } else { 10 };
        let slot: u32 = if dist < 4 {
            dist
        } else {
            let nb = 31 - dist.leading_zeros();
            (nb << 1) | ((dist >> (nb - 1)) & 1)
        };
        let slot_ix = if lfield < 4 { lfield as usize } else { 3 };
        self.encode_tree(0, slot_ix * 64, 6, slot);
        if slot >= 4 {
            let nd = (slot >> 1) - 1;
            let db = (2 | (slot & 1)) << nd;
            let rest = dist - db;
            if slot < 14 {
                self.encode_rev_tree(false, (db - slot) as usize, nd, rest);
            } else {
                let direct = rest >> 4;
                for i in (0..nd - 4).rev() {
                    self.encode_direct_bit((direct >> i) & 1);
                }
                self.encode_rev_tree(true, 0, 4, rest & 0xF);
            }
        }
        self.rep0 = dist;
    }

    fn encode_end_marker(&mut self, pos: usize) {
        self.encode_match(0xFFFF_FFFF, 0, pos);
    }
}

/// Encodes `data` as literals only, optionally ending with the
/// end-of-stream marker.
fn encode_literals(data: &[u8], lc: u32, lp: u32, pb: u32, marker: bool) -> Vec<u8> {
    let mut e = Enc::new(lc, lp, pb);
    for pos in 0..data.len() {
        e.encode_literal(data, pos);
    }
    if marker {
        e.encode_end_marker(data.len());
    }
    e.flush();
    e.out
}

#[test]
fn round_trip_literals_exact_size() {
    let data = b"abracadabra";
    let stream = encode_literals(data, 3, 0, 2, false);
    let r = decompress_lzma(&stream, 3, 0, 2, 0, 0, data.len());
    assert_eq!(r, Ok(data.to_vec()));
}

#[test]
fn round_trip_literals_with_marker() {
    let data = b"verification";
    let stream = encode_literals(data, 3, 0, 2, true);
    let r = decompress_lzma(&stream, 3, 0, 2, 0, 0, data.len() + 64);
    assert_eq!(r, Ok(data.to_vec()));
}

#[test]
fn round_trip_other_parameters() {
    let data = b"xyzzy plugh";
    let stream = encode_literals(data, 0, 2, 1, true);
    let r = decompress_lzma(&stream, 0, 2, 1, 0, 0, data.len() + 8);
    assert_eq!(r, Ok(data.to_vec()));
}

/// One literal, a match copying it three more times (overlapping copy), a
/// matched-mode literal, then the end marker: `a` + `aaa` + `b`.
fn encode_match_sample() -> Vec<u8> {
    let data = b"aaaab";
    let mut e = Enc::new(3, 0, 2);
    e.encode_literal(data, 0);
    e.encode_match(0, 1, 1);
    e.encode_literal(data, 4);
    e.encode_end_marker(5);
    e.flush();
    e.out
}

#[test]
fn round_trip_with_match_and_matched_literal() {
    let stream = encode_match_sample();
    let r = decompress_lzma(&stream, 3, 0, 2, 0, 0, 100);
    assert_eq!(r, Ok(b"aaaab".to_vec()));
}

#[test]
fn overflowing_match_reports_output_overflow() {
    // The same stream under a ceiling of 2: the match at position 1 would
    // write through position 3, past the ceiling.
    let stream = encode_match_sample();
    let r = decompress_lzma(&stream, 3, 0, 2, 0, 0, 2);
    assert_eq!(r, Err(2));
}

#[test]
fn output_stops_at_ceiling_on_packet_boundary() {
    let data = b"ab";
    let stream = encode_literals(data, 3, 0, 2, false);
    let r = decompress_lzma(&stream, 3, 0, 2, 0, 0, 1);
    assert_eq!(r, Ok(b"a".to_vec()));
}

#[test]
fn truncated_stream_fails_without_reading_past_end() {
    let data = b"abracadabra";
    let stream = encode_literals(data, 3, 0, 2, false);
    let cut = &stream[..6];
    let r = decompress_lzma(cut, 3, 0, 2, 0, 0, data.len());
    match r {
        Ok(_) => panic!("truncated stream must not decode completely"),
        Err(code) => assert!(code >= 1 && code <= 4),
    }
}

#[test]
fn search_finds_encoding_parameters() {
    let data = b"abracadabra abracadabra";
    let stream = encode_literals(data, 3, 0, 2, true);
    let max = data.len();
    // Every tuple that fully reproduces the data, in enumeration order
    // (pb outer, lp middle, lc inner).
    let mut successes = Vec::new();
    for pb in 0..5u32 {
        for lp in 0..5u32 {
            for lc in 0..5u32 {
                if let Ok(out) = decompress_lzma(&stream, lc, lp, pb, 0, 0, max) {
                    successes.push(((lc, lp, pb), out));
                }
            }
        }
    }
    assert!(successes.iter().any(|((lc, lp, pb), out)| {
        (*lc, *lp, *pb) == (3, 0, 2) && out == &data.to_vec()
    }));
    let r = search_parameters(&stream, 0, max, 0);
    match r {
        Ok((params, out)) => {
            let (first, first_out) = &successes[0];
            assert_eq!((params.lc, params.lp, params.pb), *first);
            assert_eq!(&out, first_out);
            assert_eq!((params.lc, params.lp, params.pb), (3, 0, 2));
            assert_eq!(out, data.to_vec());
        }
        Err(f) => panic!("search failed after {} attempts", f.attempts),
    }
}

#[test]
fn search_is_deterministic() {
    let data = b"determinism";
    let stream = encode_literals(data, 1, 1, 0, true);
    let r1 = search_parameters(&stream, 0, data.len(), 0);
    let r2 = search_parameters(&stream, 0, data.len(), 0);
    match (&r1, &r2) {
        (Ok((p1, o1)), Ok((p2, o2))) => {
            assert_eq!(p1, p2);
            assert_eq!(o1, o2);
        }
        (Err(f1), Err(f2)) => assert_eq!(f1, f2),
        _ => panic!("the two runs disagree"),
    }
}

#[test]
fn search_decompress_reports_winning_tuple() {
    let data = b"squashfs block";
    let stream = encode_literals(data, 3, 0, 2, true);
    let r = search_decompress(&stream, 0, 0, data.len());
    match r {
        Ok((params, out)) => {
            let again =
                decompress_lzma(&stream, params.lc, params.lp, params.pb, 0, 0, data.len());
            assert_eq!(again, Ok(out));
        }
        Err(code) => panic!("search reported error code {}", code),
    }
}
