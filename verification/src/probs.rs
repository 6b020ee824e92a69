//! The adaptive probability model: every bit-tree and single-cell context
//! the decoder conditions on, all initialized to the fixed-point midpoint at
//! session start. Sizing is a pure function of `(lc, lp)`; a table can be
//! built for every in-range tuple.

use vstd::prelude::*;

use vstd::arithmetic::power2::{lemma2_to64, pow2};

use crate::defs::LzmaError;
use crate::rangedec::{prob_seq_wf, s_decode_bit, s_tree, RangeDecoder, PROB_INIT};
use crate::rangedec::pow2_u64;

verus! {

/// Ghost mirror of one length coder.
pub ghost struct LenV {
    pub choice: u16,
    pub choice2: u16,
    pub low: Seq<u16>,
    pub mid: Seq<u16>,
    pub high: Seq<u16>,
}

impl LenV {
    pub open spec fn wf(self) -> bool {
        self.choice < 2048 && self.choice2 < 2048 && self.low.len() == 128 && prob_seq_wf(self.low)
            && self.mid.len() == 128 && prob_seq_wf(self.mid) && self.high.len() == 256
            && prob_seq_wf(self.high)
    }
}

/// The length decoded by one length coder: a choice bit selecting the 3-bit
/// low tree (per position state), the 3-bit mid tree (per position state),
/// or the 8-bit high tree, covering the length field range `0..=271`.
pub open spec fn s_decode_len(src: Seq<u8>, rd: RangeDecoder, lv: LenV, pos_state: int) -> Result<
    (RangeDecoder, LenV, int),
    LzmaError,
> {
    match s_decode_bit(src, rd, lv.choice) {
        Err(e) => Err(e),
        Ok((rd1, c1, b)) => {
            let lv1 = LenV { choice: c1, ..lv };
            if b == 0 {
                match s_tree(src, rd1, lv1.low, pos_state * 8, 1, 3) {
                    Err(e) => Err(e),
                    Ok((rd2, low2, m)) => Ok((rd2, LenV { low: low2, ..lv1 }, m - 8)),
                }
            } else {
                match s_decode_bit(src, rd1, lv1.choice2) {
                    Err(e) => Err(e),
                    Ok((rd2, c2, b2)) => {
                        let lv2 = LenV { choice2: c2, ..lv1 };
                        if b2 == 0 {
                            match s_tree(src, rd2, lv2.mid, pos_state * 8, 1, 3) {
                                Err(e) => Err(e),
                                Ok((rd3, mid2, m)) => Ok(
                                    (rd3, LenV { mid: mid2, ..lv2 }, 8 + (m - 8)),
                                ),
                            }
                        } else {
                            match s_tree(src, rd2, lv2.high, 0, 1, 8) {
                                Err(e) => Err(e),
                                Ok((rd3, high2, m)) => Ok(
                                    (rd3, LenV { high: high2, ..lv2 }, 16 + (m - 256)),
                                ),
                            }
                        }
                    },
                }
            }
        },
    }
}

/// One length coder: choice cells plus low/mid/high bit trees. The decoder
/// owns two, one for fresh matches and one for repeated matches.
pub struct LenCoder {
    pub choice: u16,
    pub choice2: u16,
    pub low: Vec<u16>,
    pub mid: Vec<u16>,
    pub high: Vec<u16>,
}

/// All-midpoint initial state of a length coder.
pub open spec fn init_len() -> LenV {
    LenV {
        choice: 1024u16,
        choice2: 1024u16,
        low: Seq::new(128, |i: int| 1024u16),
        mid: Seq::new(128, |i: int| 1024u16),
        high: Seq::new(256, |i: int| 1024u16),
    }
}

/// A fresh probability vector: `n` cells at the midpoint.
pub fn new_prob_vec(n: usize) -> (r: Vec<u16>)
    ensures
        r@ == Seq::new(n as nat, |i: int| 1024u16),
{
    let mut v: Vec<u16> = Vec::new();
    let mut i: usize = 0;
    while i < n
        invariant
            i <= n,
            v@.len() == i,
            forall|k: int| 0 <= k < i ==> v@[k] == 1024u16,
        decreases n - i,
    {
        v.push(PROB_INIT);
        i = i + 1;
    }
    proof {
        assert(v@ =~= Seq::new(n as nat, |i: int| 1024u16));
    }
    v
}

impl LenCoder {
    pub open spec fn v(self) -> LenV {
        LenV {
            choice: self.choice,
            choice2: self.choice2,
            low: self.low@,
            mid: self.mid@,
            high: self.high@,
        }
    }

    pub fn new() -> (r: LenCoder)
        ensures
            r.v() == init_len(),
            r.v().wf(),
    {
        let r = LenCoder {
            choice: PROB_INIT,
            choice2: PROB_INIT,
            low: new_prob_vec(128),
            mid: new_prob_vec(128),
            high: new_prob_vec(256),
        };
        proof {
            assert(r.v().low =~= init_len().low);
            assert(r.v().mid =~= init_len().mid);
            assert(r.v().high =~= init_len().high);
        }
        r
    }

    /// Decodes one length field (`0..=271`); exact mirror of `s_decode_len`.
    pub fn decode(&mut self, rd: &mut RangeDecoder, src: &[u8], pos_state: usize) -> (r: Result<
        u32,
        LzmaError,
    >)
        requires
            pos_state < 16,
            old(self).v().wf(),
        ensures
            final (self).v().wf(),
            match s_decode_len(src@, *old(rd), old(self).v(), pos_state as int) {
                Ok((rdn, lvn, len)) => r is Ok && *final (rd) == rdn && final (self).v() == lvn
                    && r->Ok_0 == len && 0 <= len < 272,
                Err(e) => r == Err::<u32, LzmaError>(e),
            },
    {
        proof {
            lemma2_to64();
        }
        let c = self.choice;
        match rd.decode_bit(src, c) {
            Err(e) => Err(e),
            Ok((c1, b)) => {
                self.choice = c1;
                if b == 0 {
                    match rd.decode_tree(src, &mut self.low, pos_state * 8, 3) {
                        Err(e) => Err(e),
                        Ok(m) => Ok(m),
                    }
                } else {
                    let c2 = self.choice2;
                    match rd.decode_bit(src, c2) {
                        Err(e) => Err(e),
                        Ok((c2n, b2)) => {
                            self.choice2 = c2n;
                            if b2 == 0 {
                                match rd.decode_tree(src, &mut self.mid, pos_state * 8, 3) {
                                    Err(e) => Err(e),
                                    Ok(m) => Ok(8 + m),
                                }
                            } else {
                                match rd.decode_tree(src, &mut self.high, 0, 8) {
                                    Err(e) => Err(e),
                                    Ok(m) => Ok(16 + m),
                                }
                            }
                        },
                    }
                }
            },
        }
    }
}

/// Ghost mirror of the whole probability model.
pub ghost struct ProbsV {
    pub is_match: Seq<u16>,
    pub is_rep: Seq<u16>,
    pub is_rep_g0: Seq<u16>,
    pub is_rep_g1: Seq<u16>,
    pub is_rep_g2: Seq<u16>,
    pub is_rep0_long: Seq<u16>,
    pub pos_slot: Seq<u16>,
    pub spec_pos: Seq<u16>,
    pub align: Seq<u16>,
    pub len: LenV,
    pub rep_len: LenV,
    pub literal: Seq<u16>,
}

impl ProbsV {
    /// Well-formed for literal tables sized by `lclp = lc + lp`.
    pub open spec fn wf(self, lclp: nat) -> bool {
        self.is_match.len() == 192 && prob_seq_wf(self.is_match) && self.is_rep.len() == 12
            && prob_seq_wf(self.is_rep) && self.is_rep_g0.len() == 12 && prob_seq_wf(self.is_rep_g0)
            && self.is_rep_g1.len() == 12 && prob_seq_wf(self.is_rep_g1) && self.is_rep_g2.len()
            == 12 && prob_seq_wf(self.is_rep_g2) && self.is_rep0_long.len() == 192 && prob_seq_wf(
            self.is_rep0_long,
        ) && self.pos_slot.len() == 256 && prob_seq_wf(self.pos_slot) && self.spec_pos.len() == 115
            && prob_seq_wf(self.spec_pos) && self.align.len() == 16 && prob_seq_wf(self.align)
            && self.len.wf() && self.rep_len.wf() && self.literal.len() == 0x300 * pow2(lclp)
            && prob_seq_wf(self.literal)
    }
}

/// All-midpoint initial probability model for literal tables sized by `lclp`.
pub open spec fn init_probs(lclp: nat) -> ProbsV {
    ProbsV {
        is_match: Seq::new(192, |i: int| 1024u16),
        is_rep: Seq::new(12, |i: int| 1024u16),
        is_rep_g0: Seq::new(12, |i: int| 1024u16),
        is_rep_g1: Seq::new(12, |i: int| 1024u16),
        is_rep_g2: Seq::new(12, |i: int| 1024u16),
        is_rep0_long: Seq::new(192, |i: int| 1024u16),
        pos_slot: Seq::new(256, |i: int| 1024u16),
        spec_pos: Seq::new(115, |i: int| 1024u16),
        align: Seq::new(16, |i: int| 1024u16),
        len: init_len(),
        rep_len: init_len(),
        literal: Seq::new((0x300 * pow2(lclp)) as nat, |i: int| 1024u16),
    }
}

/// The whole adaptive probability state of one decode session.
pub struct Probs {
    pub is_match: Vec<u16>,
    pub is_rep: Vec<u16>,
    pub is_rep_g0: Vec<u16>,
    pub is_rep_g1: Vec<u16>,
    pub is_rep_g2: Vec<u16>,
    pub is_rep0_long: Vec<u16>,
    pub pos_slot: Vec<u16>,
    pub spec_pos: Vec<u16>,
    pub align: Vec<u16>,
    pub len: LenCoder,
    pub rep_len: LenCoder,
    pub literal: Vec<u16>,
}

impl Probs {
    pub open spec fn v(self) -> ProbsV {
        ProbsV {
            is_match: self.is_match@,
            is_rep: self.is_rep@,
            is_rep_g0: self.is_rep_g0@,
            is_rep_g1: self.is_rep_g1@,
            is_rep_g2: self.is_rep_g2@,
            is_rep0_long: self.is_rep0_long@,
            pos_slot: self.pos_slot@,
            spec_pos: self.spec_pos@,
            align: self.align@,
            len: self.len.v(),
            rep_len: self.rep_len.v(),
            literal: self.literal@,
        }
    }

    /// A fresh table for the given literal parameters, every cell at the
    /// adaptive prior (the probability midpoint).
    pub fn new(lc: u32, lp: u32) -> (r: Probs)
        requires
            lc <= 4,
            lp <= 4,
        ensures
            r.v() == init_probs((lc + lp) as nat),
            r.v().wf((lc + lp) as nat),
    {
        proof {
            lemma2_to64();
        }
        let lit_n = 0x300usize * (pow2_u64(lc + lp) as usize);
        let r = Probs {
            is_match: new_prob_vec(192),
            is_rep: new_prob_vec(12),
            is_rep_g0: new_prob_vec(12),
            is_rep_g1: new_prob_vec(12),
            is_rep_g2: new_prob_vec(12),
            is_rep0_long: new_prob_vec(192),
            pos_slot: new_prob_vec(256),
            spec_pos: new_prob_vec(115),
            align: new_prob_vec(16),
            len: LenCoder::new(),
            rep_len: LenCoder::new(),
            literal: new_prob_vec(lit_n),
        };
        proof {
            assert(r.v().is_match =~= init_probs((lc + lp) as nat).is_match);
            assert(r.v().is_rep =~= init_probs((lc + lp) as nat).is_rep);
            assert(r.v().is_rep_g0 =~= init_probs((lc + lp) as nat).is_rep_g0);
            assert(r.v().is_rep_g1 =~= init_probs((lc + lp) as nat).is_rep_g1);
            assert(r.v().is_rep_g2 =~= init_probs((lc + lp) as nat).is_rep_g2);
            assert(r.v().is_rep0_long =~= init_probs((lc + lp) as nat).is_rep0_long);
            assert(r.v().pos_slot =~= init_probs((lc + lp) as nat).pos_slot);
            assert(r.v().spec_pos =~= init_probs((lc + lp) as nat).spec_pos);
            assert(r.v().align =~= init_probs((lc + lp) as nat).align);
            assert(r.v().literal =~= init_probs((lc + lp) as nat).literal);
        }
        r
    }
}

} // verus!
