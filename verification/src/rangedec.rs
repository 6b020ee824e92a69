//! The binary range decoder: normalized probability-weighted bit decisions
//! over a 32-bit `range`/`code` register pair, with adaptive 11-bit
//! fixed-point probabilities. Every operation has an exact functional
//! contract; running out of input is always reported as `StreamExhausted`,
//! never performed as a read past the buffer.

use vstd::prelude::*;

use vstd::arithmetic::power2::{lemma2_to64, lemma_pow2_strictly_increases, lemma_pow2_unfold, pow2};

use crate::defs::LzmaError;

verus! {

/// All probabilities are 11-bit fixed point: a cell always stays below 2048.
pub const BIT_MODEL_TOTAL: u16 = 2048;

/// Renormalization threshold for the range register.
pub const TOP_VALUE: u32 = 0x1000000;

/// Initial (midpoint) value of every adaptive probability cell.
pub const PROB_INIT: u16 = 1024;

/// A whole table of adaptive probability cells is well formed when every
/// cell is a valid 11-bit fixed-point probability.
pub open spec fn prob_seq_wf(s: Seq<u16>) -> bool {
    forall|i: int| 0 <= i < s.len() ==> s[i] < BIT_MODEL_TOTAL
}

/// The range decoder cursor: where the next compressed byte is read, and
/// the two 32-bit coding registers.
pub struct RangeDecoder {
    /// Index of the next input byte to consume.
    pub pos: usize,
    /// The 32-bit range register.
    pub range: u32,
    /// The 32-bit code register.
    pub code: u32,
}

/// One renormalization step: when the range register has dropped below
/// `2^24`, shift in the next input byte, or fail when none is left.
pub open spec fn s_normalize(src: Seq<u8>, rd: RangeDecoder) -> Result<RangeDecoder, LzmaError> {
    if rd.range >= 0x1000000 {
        Ok(rd)
    } else if rd.pos < src.len() {
        Ok(
            RangeDecoder {
                pos: (rd.pos + 1) as usize,
                range: (rd.range * 256) as u32,
                code: ((rd.code * 256 + src[rd.pos as int]) % 0x100000000) as u32,
            },
        )
    } else {
        Err(LzmaError::StreamExhausted)
    }
}

/// One adaptive bit decision against the probability cell `p`: the new
/// cursor, the moved cell, and the decoded bit.
pub open spec fn s_decode_bit(src: Seq<u8>, rd: RangeDecoder, p: u16) -> Result<
    (RangeDecoder, u16, u8),
    LzmaError,
> {
    let bound = (rd.range / 2048) * p;
    if rd.code < bound {
        let rd1 = RangeDecoder { range: bound as u32, ..rd };
        let p1 = (p + (2048 - p) / 32) as u16;
        match s_normalize(src, rd1) {
            Ok(rdn) => Ok((rdn, p1, 0u8)),
            Err(e) => Err(e),
        }
    } else {
        let rd1 = RangeDecoder {
            range: (rd.range - bound) as u32,
            code: (rd.code - bound) as u32,
            ..rd
        };
        let p1 = (p - p / 32) as u16;
        match s_normalize(src, rd1) {
            Ok(rdn) => Ok((rdn, p1, 1u8)),
            Err(e) => Err(e),
        }
    }
}

/// `n` bits at uniform probability, MSB first, accumulated onto `acc`.
/// `RangeCorrupt` reports the register state the coding scheme never
/// produces (code equal to range after a halving step).
pub open spec fn s_direct_bits(src: Seq<u8>, rd: RangeDecoder, n: nat, acc: int) -> Result<
    (RangeDecoder, int),
    LzmaError,
>
    decreases n,
{
    if n == 0 {
        Ok((rd, acc))
    } else {
        let r2 = (rd.range / 2) as u32;
        let bit: int = if rd.code < r2 {
            0
        } else {
            1
        };
        let code1: u32 = if rd.code < r2 {
            rd.code
        } else {
            (rd.code - r2) as u32
        };
        if code1 == r2 {
            Err(LzmaError::RangeCorrupt)
        } else {
            match s_normalize(src, RangeDecoder { range: r2, code: code1, ..rd }) {
                Ok(rdn) => s_direct_bits(src, rdn, (n - 1) as nat, acc * 2 + bit),
                Err(e) => Err(e),
            }
        }
    }
}

/// A bit-tree walk, MSB first: `n` adaptive bits through the cells at
/// `base + m`, where `m` is the accumulated prefix starting at 1.
pub open spec fn s_tree(
    src: Seq<u8>,
    rd: RangeDecoder,
    probs: Seq<u16>,
    base: int,
    m: int,
    n: nat,
) -> Result<(RangeDecoder, Seq<u16>, int), LzmaError>
    decreases n,
{
    if n == 0 {
        Ok((rd, probs, m))
    } else {
        match s_decode_bit(src, rd, probs[base + m]) {
            Ok((rd1, p1, bit)) => s_tree(
                src,
                rd1,
                probs.update(base + m, p1),
                base,
                2 * m + bit,
                (n - 1) as nat,
            ),
            Err(e) => Err(e),
        }
    }
}

/// A reverse bit-tree walk, LSB first: like `s_tree`, but the decoded bits
/// assemble the symbol from the low end (`mult` tracks the place value).
pub open spec fn s_rtree(
    src: Seq<u8>,
    rd: RangeDecoder,
    probs: Seq<u16>,
    base: int,
    m: int,
    sym: int,
    mult: int,
    n: nat,
) -> Result<(RangeDecoder, Seq<u16>, int), LzmaError>
    decreases n,
{
    if n == 0 {
        Ok((rd, probs, sym))
    } else {
        match s_decode_bit(src, rd, probs[base + m]) {
            Ok((rd1, p1, bit)) => s_rtree(
                src,
                rd1,
                probs.update(base + m, p1),
                base,
                2 * m + bit,
                sym + (if bit == 1 {
                    mult
                } else {
                    0
                }),
                mult * 2,
                (n - 1) as nat,
            ),
            Err(e) => Err(e),
        }
    }
}

/// `2^n` as an executable value.
pub fn pow2_u64(n: u32) -> (r: u64)
    requires
        n <= 32,
    ensures
        r == pow2(n as nat),
        r >= 1,
{
    proof {
        lemma2_to64();
    }
    let mut r: u64 = 1;
    let mut i: u32 = 0;
    while i < n
        invariant
            i <= n,
            n <= 32,
            r == pow2(i as nat),
        decreases n - i,
    {
        proof {
            lemma2_to64();
            if (i as nat) < 32 {
                lemma_pow2_strictly_increases(i as nat, 32);
            }
            lemma_pow2_unfold((i + 1) as nat);
        }
        r = r * 2;
        i = i + 1;
    }
    r
}

impl RangeDecoder {
    /// Renormalizes the registers, consuming the next input byte if one is
    /// needed; exact mirror of `s_normalize`.
    pub fn normalize(&mut self, src: &[u8]) -> (r: Result<(), LzmaError>)
        ensures
            match s_normalize(src@, *old(self)) {
                Ok(rdn) => r is Ok && *final (self) == rdn,
                Err(e) => r == Err::<(), LzmaError>(e),
            },
    {
        if self.range < TOP_VALUE {
            if self.pos < src.len() {
                let b = src[self.pos];
                self.code = (((self.code as u64) * 256 + (b as u64)) % 0x100000000) as u32;
                self.range = self.range * 256;
                self.pos = self.pos + 1;
                Ok(())
            } else {
                Err(LzmaError::StreamExhausted)
            }
        } else {
            Ok(())
        }
    }

    /// One adaptive bit decision; exact mirror of `s_decode_bit`. The moved
    /// probability cell is handed back to the caller to store.
    pub fn decode_bit(&mut self, src: &[u8], p: u16) -> (r: Result<(u16, u8), LzmaError>)
        requires
            p < 2048,
        ensures
            match s_decode_bit(src@, *old(self), p) {
                Ok((rdn, p1, bit)) => r is Ok && *final (self) == rdn && r->Ok_0 == (p1, bit) && p1
                    < 2048 && bit <= 1,
                Err(e) => r == Err::<(u16, u8), LzmaError>(e),
            },
    {
        proof {
            let q = (self.range / 2048) as int;
            vstd::arithmetic::mul::lemma_mul_upper_bound(q, 0x1FFFFF, p as int, 2047);
            vstd::arithmetic::mul::lemma_mul_inequality(p as int, 2048, q);
            assert(2048 * q <= self.range);
            vstd::arithmetic::mul::lemma_mul_is_commutative(q, p as int);
            vstd::arithmetic::mul::lemma_mul_is_commutative(q, 2048);
        }
        let bound = (self.range / 2048) * (p as u32);
        if self.code < bound {
            self.range = bound;
            let p1 = p + (2048 - p) / 32;
            match self.normalize(src) {
                Ok(_) => Ok((p1, 0u8)),
                Err(e) => Err(e),
            }
        } else {
            self.code = self.code - bound;
            self.range = self.range - bound;
            let p1 = p - p / 32;
            match self.normalize(src) {
                Ok(_) => Ok((p1, 1u8)),
                Err(e) => Err(e),
            }
        }
    }

    /// `n` uniform-probability bits, MSB first; exact mirror of
    /// `s_direct_bits` started with an empty accumulator.
    pub fn decode_direct_bits(&mut self, src: &[u8], n: u32) -> (r: Result<u64, LzmaError>)
        requires
            n <= 26,
        ensures
            match s_direct_bits(src@, *old(self), n as nat, 0) {
                Ok((rdn, v)) => r is Ok && *final (self) == rdn && r->Ok_0 == v && v < pow2(
                    n as nat,
                ),
                Err(e) => r == Err::<u64, LzmaError>(e),
            },
    {
        let mut acc: u64 = 0;
        let mut i: u32 = 0;
        proof {
            lemma2_to64();
        }
        while i < n
            invariant
                i <= n,
                n <= 26,
                acc < pow2(i as nat),
                s_direct_bits(src@, *old(self), n as nat, 0) == s_direct_bits(
                    src@,
                    *self,
                    (n - i) as nat,
                    acc as int,
                ),
            decreases n - i,
        {
            proof {
                lemma2_to64();
                if (i as nat) < 26 {
                    lemma_pow2_strictly_increases(i as nat, 26);
                }
                lemma_pow2_unfold((i + 1) as nat);
            }
            let r2 = self.range / 2;
            let bit: u64 = if self.code < r2 {
                0
            } else {
                self.code = self.code - r2;
                1
            };
            self.range = r2;
            if self.code == r2 {
                return Err(LzmaError::RangeCorrupt);
            }
            match self.normalize(src) {
                Ok(_) => {},
                Err(e) => {
                    return Err(e);
                },
            }
            acc = acc * 2 + bit;
            i = i + 1;
        }
        Ok(acc)
    }

    /// A bit-tree walk, MSB first, over `probs[base .. base + 2^n]`; exact
    /// mirror of `s_tree`, returning the decoded `n`-bit symbol.
    pub fn decode_tree(&mut self, src: &[u8], probs: &mut Vec<u16>, base: usize, n: u32) -> (r:
        Result<u32, LzmaError>)
        requires
            n <= 8,
            base + pow2(n as nat) <= old(probs)@.len(),
            prob_seq_wf(old(probs)@),
        ensures
            final (probs)@.len() == old(probs)@.len(),
            prob_seq_wf(final (probs)@),
            match s_tree(src@, *old(self), old(probs)@, base as int, 1, n as nat) {
                Ok((rdn, ps, m)) => r is Ok && *final (self) == rdn && final (probs)@ == ps
                    && r->Ok_0 == m - pow2(n as nat) && r->Ok_0 < pow2(n as nat),
                Err(e) => r == Err::<u32, LzmaError>(e),
            },
    {
        proof {
            lemma2_to64();
        }
        let plen = probs.len();
        let mut m: u32 = 1;
        let mut i: u32 = 0;
        while i < n
            invariant
                i <= n,
                n <= 8,
                pow2(i as nat) <= m < pow2((i + 1) as nat),
                base + pow2(n as nat) <= plen,
                probs@.len() == plen,
                plen == old(probs)@.len(),
                prob_seq_wf(probs@),
                s_tree(src@, *old(self), old(probs)@, base as int, 1, n as nat) == s_tree(
                    src@,
                    *self,
                    probs@,
                    base as int,
                    m as int,
                    (n - i) as nat,
                ),
            decreases n - i,
        {
            proof {
                lemma2_to64();
                if ((i + 1) as nat) < (n as nat) {
                    lemma_pow2_strictly_increases((i + 1) as nat, n as nat);
                }
                if ((i + 1) as nat) < 8 {
                    lemma_pow2_strictly_increases((i + 1) as nat, 8);
                }
                lemma_pow2_unfold((i + 1) as nat);
                lemma_pow2_unfold((i + 2) as nat);
                assert(m < pow2(n as nat));
                assert(base + m < plen);
            }
            let ghost rd0 = *self;
            let ghost ps0 = probs@;
            let ghost m0 = m as int;
            let ghost k = (n - i) as nat;
            let idx = base + m as usize;
            let p = probs[idx];
            match self.decode_bit(src, p) {
                Ok((p1, bit)) => {
                    probs.set(idx, p1);
                    m = 2 * m + bit as u32;
                    proof {
                        assert(s_tree(src@, rd0, ps0, base as int, m0, k) == s_tree(
                            src@,
                            *self,
                            probs@,
                            base as int,
                            m as int,
                            (k - 1) as nat,
                        ));
                    }
                },
                Err(e) => {
                    proof {
                        assert(s_tree(src@, rd0, ps0, base as int, m0, k) == Err::<
                            (RangeDecoder, Seq<u16>, int),
                            LzmaError,
                        >(e));
                    }
                    return Err(e);
                },
            }
            i = i + 1;
        }
        let p2 = pow2_u64(n) as u32;
        Ok(m - p2)
    }

    /// A reverse bit-tree walk, LSB first, over `probs[base .. base + 2^n]`;
    /// exact mirror of `s_rtree`.
    pub fn decode_rtree(&mut self, src: &[u8], probs: &mut Vec<u16>, base: usize, n: u32) -> (r:
        Result<u32, LzmaError>)
        requires
            n <= 8,
            base + pow2(n as nat) <= old(probs)@.len(),
            prob_seq_wf(old(probs)@),
        ensures
            final (probs)@.len() == old(probs)@.len(),
            prob_seq_wf(final (probs)@),
            match s_rtree(src@, *old(self), old(probs)@, base as int, 1, 0, 1, n as nat) {
                Ok((rdn, ps, sym)) => r is Ok && *final (self) == rdn && final (probs)@ == ps
                    && r->Ok_0 == sym && sym < pow2(n as nat),
                Err(e) => r == Err::<u32, LzmaError>(e),
            },
    {
        proof {
            lemma2_to64();
        }
        let plen = probs.len();
        let mut m: u32 = 1;
        let mut sym: u32 = 0;
        let mut mult: u32 = 1;
        let mut i: u32 = 0;
        while i < n
            invariant
                i <= n,
                n <= 8,
                pow2(i as nat) <= m < pow2((i + 1) as nat),
                mult == pow2(i as nat),
                sym < mult,
                base + pow2(n as nat) <= plen,
                probs@.len() == plen,
                plen == old(probs)@.len(),
                prob_seq_wf(probs@),
                s_rtree(src@, *old(self), old(probs)@, base as int, 1, 0, 1, n as nat) == s_rtree(
                    src@,
                    *self,
                    probs@,
                    base as int,
                    m as int,
                    sym as int,
                    mult as int,
                    (n - i) as nat,
                ),
            decreases n - i,
        {
            proof {
                lemma2_to64();
                if ((i + 1) as nat) < (n as nat) {
                    lemma_pow2_strictly_increases((i + 1) as nat, n as nat);
                }
                if ((i + 1) as nat) < 8 {
                    lemma_pow2_strictly_increases((i + 1) as nat, 8);
                }
                lemma_pow2_unfold((i + 1) as nat);
                lemma_pow2_unfold((i + 2) as nat);
                assert(m < pow2(n as nat));
                assert(base + m < plen);
            }
            let ghost rd0 = *self;
            let ghost ps0 = probs@;
            let ghost m0 = m as int;
            let ghost sym0 = sym as int;
            let ghost mult0 = mult as int;
            let ghost k = (n - i) as nat;
            let idx = base + m as usize;
            let p = probs[idx];
            match self.decode_bit(src, p) {
                Ok((p1, bit)) => {
                    probs.set(idx, p1);
                    m = 2 * m + bit as u32;
                    if bit == 1 {
                        sym = sym + mult;
                    }
                    mult = mult * 2;
                    proof {
                        assert(s_rtree(src@, rd0, ps0, base as int, m0, sym0, mult0, k) == s_rtree(
                            src@,
                            *self,
                            probs@,
                            base as int,
                            m as int,
                            sym as int,
                            mult as int,
                            (k - 1) as nat,
                        ));
                    }
                },
                Err(e) => {
                    proof {
                        assert(s_rtree(src@, rd0, ps0, base as int, m0, sym0, mult0, k) == Err::<
                            (RangeDecoder, Seq<u16>, int),
                            LzmaError,
                        >(e));
                    }
                    return Err(e);
                },
            }
            i = i + 1;
        }
        proof {
            if (i as nat) < (n as nat) {
                lemma_pow2_strictly_increases(i as nat, n as nat);
            }
        }
        Ok(sym)
    }
}

} // verus!
