//! Recovery of LZMA-compressed blocks whose decoder parameters are not
//! reliably recorded: a bounds-checked LZMA decompression engine
//! parameterized over `{lc, lp, pb, dictionary size}`, and a deterministic
//! brute-force driver that discovers a working parameter tuple by trial.

use vstd::prelude::*;

pub mod defs;
pub mod engine;
pub mod probs;
pub mod rangedec;
pub mod search;
pub mod window;

verus! {

/// Maps each failure kind to the integer error code reported at the
/// external boundary. Success is `0`, so every code here is non-zero;
/// an invalid offset keeps the conventional `-1`.
pub open spec fn spec_error_code(e: crate::defs::LzmaError) -> i32 {
    match e {
        crate::defs::LzmaError::InvalidOffset => -1i32,
        crate::defs::LzmaError::StreamExhausted => 1i32,
        crate::defs::LzmaError::OutputOverflow => 2i32,
        crate::defs::LzmaError::InvalidBackReference => 3i32,
        crate::defs::LzmaError::RangeCorrupt => 4i32,
        crate::defs::LzmaError::SearchExhausted => 5i32,
    }
}

/// Integer error code for a failure kind, as the boundary contract reports it.
pub fn error_code(e: crate::defs::LzmaError) -> (r: i32)
    ensures
        r == spec_error_code(e),
        r != 0,
{
    match e {
        crate::defs::LzmaError::InvalidOffset => -1,
        crate::defs::LzmaError::StreamExhausted => 1,
        crate::defs::LzmaError::OutputOverflow => 2,
        crate::defs::LzmaError::InvalidBackReference => 3,
        crate::defs::LzmaError::RangeCorrupt => 4,
        crate::defs::LzmaError::SearchExhausted => 5,
    }
}

/// Decompresses LZMA data under fixed, caller-known parameters: the fast
/// path of the discovery workflow. Returns exactly the bytes `s_decode`
/// gives for these inputs, never more than `max_output_size` of them, or
/// the integer code of the failure (`-1` for an offset outside `source`).
pub fn decompress_lzma(
    source: &[u8],
    lc: u32,
    lp: u32,
    pb: u32,
    dictionary_size: u32,
    offset: usize,
    max_output_size: usize,
) -> (r: Result<Vec<u8>, i32>)
    requires
        lc <= 4,
        lp <= 4,
        pb <= 4,
    ensures
        ({
            let p = crate::defs::DecoderParameters { lc, lp, pb, dictionary_size };
            let s = crate::engine::s_decode(source@, p, offset as int, max_output_size as int);
            match r {
                Ok(v) => s is Ok && v@ == s->Ok_0 && v@.len() <= max_output_size,
                Err(c) => s is Err && c == spec_error_code(s->Err_0) && c != 0,
            }
        }),
{
    let params = crate::defs::DecoderParameters { lc, lp, pb, dictionary_size };
    match crate::engine::decode_block(source, offset, params, max_output_size) {
        Ok(v) => Ok(v),
        Err(e) => Err(error_code(e)),
    }
}

/// Discovers working decoder parameters by brute force and decompresses:
/// the search path of the discovery workflow. On success, the winning
/// tuple and exactly the bytes its session produced; `-1` when the offset
/// lies outside `source`; the search-exhausted code when no tuple of the
/// `5 x 5 x 5` grid yields a complete decompression.
pub fn search_decompress(
    source: &[u8],
    dictionary_size: u32,
    offset: usize,
    max_output_size: usize,
) -> (r: Result<(crate::defs::DecoderParameters, Vec<u8>), i32>)
    ensures
        offset >= source@.len() ==> r == Err::<
            (crate::defs::DecoderParameters, Vec<u8>),
            i32,
        >(-1i32),
        offset < source@.len() ==> match crate::search::s_search(
            source@,
            offset as int,
            max_output_size as int,
            dictionary_size,
        ) {
            Ok((p, out)) => r is Ok && r->Ok_0.0 == p && r->Ok_0.1@ == out,
            Err(e) => r == Err::<(crate::defs::DecoderParameters, Vec<u8>), i32>(
                spec_error_code(crate::defs::LzmaError::SearchExhausted),
            ),
        },
{
    match crate::search::search_parameters(source, offset, max_output_size, dictionary_size) {
        Ok(pv) => Ok(pv),
        Err(f) => {
            if f.attempts == 0 {
                Err(-1)
            } else {
                Err(error_code(crate::defs::LzmaError::SearchExhausted))
            }
        },
    }
}

} // verus!
