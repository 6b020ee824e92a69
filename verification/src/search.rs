//! The parameter-discovery driver: one fresh decode session per candidate
//! `{lc, lp, pb}` tuple, in a fixed deterministic order, accepting the
//! first tuple whose session finishes. Sessions share nothing, so a failed
//! attempt cannot contaminate the next one.

use vstd::prelude::*;

use crate::defs::{DecoderParameters, LzmaError};
use crate::engine::{decode_block, s_decode};

verus! {

/// The candidate tuple at position `i` of the deterministic enumeration:
/// `pb` outermost, then `lp`, then `lc`, each over `0..=4`.
pub open spec fn s_params_at(i: int, dict: u32) -> DecoderParameters {
    DecoderParameters {
        lc: (i % 5) as u32,
        lp: ((i / 5) % 5) as u32,
        pb: (i / 25) as u32,
        dictionary_size: dict,
    }
}

/// The search outcome from candidate `i` on: the first tuple whose decode
/// succeeds, with its output, or the failure of the last attempt.
pub open spec fn s_search_from(src: Seq<u8>, offset: int, max: int, dict: u32, i: int) -> Result<
    (DecoderParameters, Seq<u8>),
    LzmaError,
>
    decreases 125 - i,
    when 0 <= i < 125
{
    match s_decode(src, s_params_at(i, dict), offset, max) {
        Ok(out) => Ok((s_params_at(i, dict), out)),
        Err(e) => if i >= 124 {
            Err(e)
        } else {
            s_search_from(src, offset, max, dict, i + 1)
        },
    }
}

/// What a whole search returns: the first accepted tuple of the 125, or
/// the failure of the last attempt when every tuple fails.
pub open spec fn s_search(src: Seq<u8>, offset: int, max: int, dict: u32) -> Result<
    (DecoderParameters, Seq<u8>),
    LzmaError,
> {
    s_search_from(src, offset, max, dict, 0)
}

/// Aggregate failure of a search: how many decode attempts ran, and what
/// the last one reported.
#[derive(Clone, Copy, PartialEq, Eq, Structural, Debug)]
pub struct SearchFailure {
    pub attempts: usize,
    pub last_error: LzmaError,
}

/// Search determinism: the search outcome is a function of the source,
/// offset, output ceiling and dictionary size alone, so two runs over the
/// same inputs return the same winning tuple and identical output bytes.
pub proof fn lemma_search_deterministic(
    src: Seq<u8>,
    offset: int,
    max: int,
    dict: u32,
    r1: Result<(DecoderParameters, Seq<u8>), LzmaError>,
    r2: Result<(DecoderParameters, Seq<u8>), LzmaError>,
)
    requires
        r1 == s_search(src, offset, max, dict),
        r2 == s_search(src, offset, max, dict),
    ensures
        r1 == r2,
{
}

/// Enumerates the `5 x 5 x 5` grid deterministically (`pb` outer, `lp`
/// middle, `lc` inner) and runs one fresh session per tuple: exactly
/// `s_search` of the inputs. An offset outside the source is rejected
/// before any attempt; when every tuple fails, the failure reports all 125
/// attempts and the last error seen.
pub fn search_parameters(
    source: &[u8],
    offset: usize,
    max_output_size: usize,
    dictionary_size: u32,
) -> (r: Result<(DecoderParameters, Vec<u8>), SearchFailure>)
    ensures
        offset >= source@.len() ==> r == Err::<(DecoderParameters, Vec<u8>), SearchFailure>(
            SearchFailure { attempts: 0, last_error: LzmaError::InvalidOffset },
        ),
        offset < source@.len() ==> match s_search(
            source@,
            offset as int,
            max_output_size as int,
            dictionary_size,
        ) {
            Ok((p, out)) => r is Ok && r->Ok_0.0 == p && r->Ok_0.1@ == out,
            Err(e) => r == Err::<(DecoderParameters, Vec<u8>), SearchFailure>(
                SearchFailure { attempts: 125, last_error: e },
            ),
        },
{
    if offset >= source.len() {
        return Err(SearchFailure { attempts: 0, last_error: LzmaError::InvalidOffset });
    }
    let mut i: usize = 0;
    let mut last: LzmaError = LzmaError::SearchExhausted;
    while i < 125
        invariant
            offset < source@.len(),
            i <= 125,
            i < 125 ==> s_search(source@, offset as int, max_output_size as int, dictionary_size)
                == s_search_from(
                source@,
                offset as int,
                max_output_size as int,
                dictionary_size,
                i as int,
            ),
            i == 125 ==> s_search(source@, offset as int, max_output_size as int, dictionary_size)
                == Err::<(DecoderParameters, Seq<u8>), LzmaError>(last),
        decreases 125 - i,
    {
        let params = DecoderParameters {
            lc: (i % 5) as u32,
            lp: ((i / 5) % 5) as u32,
            pb: (i / 25) as u32,
            dictionary_size,
        };
        proof {
            assert(params == s_params_at(i as int, dictionary_size));
        }
        match decode_block(source, offset, params, max_output_size) {
            Ok(out) => {
                proof {
                    assert(s_search_from(
                        source@,
                        offset as int,
                        max_output_size as int,
                        dictionary_size,
                        i as int,
                    ) == Ok::<(DecoderParameters, Seq<u8>), LzmaError>((params, out@)));
                }
                return Ok((params, out));
            },
            Err(e) => {
                last = e;
                i = i + 1;
            },
        }
    }
    Err(SearchFailure { attempts: 125, last_error: last })
}

} // verus!
