//! Shared data model: failure kinds and the tunable decoder parameters.

use vstd::prelude::*;

verus! {

/// Everything a decode attempt or a parameter search can report instead of
/// success. Every failure is recoverable by the caller; no verified function
/// of this crate panics.
#[derive(Clone, Copy, PartialEq, Eq, Structural, Debug)]
pub enum LzmaError {
    /// The caller-supplied offset does not lie inside the source buffer.
    InvalidOffset,
    /// The range decoder would have to read past the end of the compressed input.
    StreamExhausted,
    /// Decoding would have to write more than the caller-declared output ceiling.
    OutputOverflow,
    /// A back-reference points before the start of the output, or beyond the
    /// configured dictionary window.
    InvalidBackReference,
    /// The range registers reached a state the coding scheme never produces.
    RangeCorrupt,
    /// No candidate parameter tuple yielded a complete decompression.
    SearchExhausted,
}

/// Default dictionary window of 8 MiB, used when the caller passes a
/// dictionary size of zero.
pub const DEFAULT_DICTIONARY_SIZE: u64 = 0x800000;

/// The LZMA decoder parameters discovered or supplied per block.
///
/// `lc`, `lp` and `pb` each range over `0..=4`. The conventional constraint
/// `lc + lp <= 4` is deliberately not imposed: malformed containers may use
/// out-of-convention combinations, and the search must tolerate them.
#[derive(Clone, Copy, PartialEq, Eq, Structural, Debug)]
pub struct DecoderParameters {
    /// Literal context bits.
    pub lc: u32,
    /// Literal position bits.
    pub lp: u32,
    /// Position bits.
    pub pb: u32,
    /// Dictionary size in bytes; `0` selects the 8 MiB default.
    pub dictionary_size: u32,
}

impl DecoderParameters {
    /// The parameter ranges the engine accepts.
    pub open spec fn wf(self) -> bool {
        self.lc <= 4 && self.lp <= 4 && self.pb <= 4
    }

    /// The effective back-reference window: the declared dictionary size,
    /// with `0` standing for the 8 MiB default.
    pub open spec fn spec_dict(self) -> u64 {
        if self.dictionary_size == 0 {
            DEFAULT_DICTIONARY_SIZE
        } else {
            self.dictionary_size as u64
        }
    }

    /// Effective dictionary window in bytes.
    pub fn dict(&self) -> (r: u64)
        ensures
            r == self.spec_dict(),
            r >= 1,
    {
        if self.dictionary_size == 0 {
            DEFAULT_DICTIONARY_SIZE
        } else {
            self.dictionary_size as u64
        }
    }
}

} // verus!
