//! The LZMA decode engine: the packet-level state machine over the range
//! decoder, the probability model and the sliding window. The whole decode
//! is pinned by a specification-level step interpreter (`s_step` iterated by
//! `s_run`), so the executable decoder returns exactly `s_decode` of its
//! inputs: the same inputs always give the same outcome.

use vstd::prelude::*;

use vstd::arithmetic::div_mod::lemma_multiply_divide_lt;
use vstd::arithmetic::mul::lemma_mul_inequality;
use vstd::arithmetic::power2::{lemma2_to64, lemma_pow2_adds, lemma_pow2_strictly_increases, pow2};

use crate::defs::{DecoderParameters, LzmaError};
use crate::probs::{init_probs, s_decode_len, Probs, ProbsV};
use crate::rangedec::{
    pow2_u64, prob_seq_wf, s_decode_bit, s_direct_bits, s_rtree, s_tree, RangeDecoder,
};
use crate::window::{copy_bytes, Window};

verus! {

/// The immutable context of one decode session: the compressed input and
/// the caller-fixed parameters.
pub ghost struct CtxV {
    pub src: Seq<u8>,
    pub lc: nat,
    pub lp: nat,
    pub pb: nat,
    pub dict: int,
    pub max: int,
}

/// The mutable state of one decode session.
pub ghost struct EngV {
    pub rd: RangeDecoder,
    pub probs: ProbsV,
    pub win: Seq<u8>,
    pub state: u32,
    pub rep0: u64,
    pub rep1: u64,
    pub rep2: u64,
    pub rep3: u64,
}

/// What one packet does to the session: another state to continue from,
/// a finished state whose window is the output, or a failure.
pub ghost enum StepV {
    Next(EngV),
    Done(EngV),
    Fail(LzmaError),
}

/// The position-dependent context bits: the low `pb` bits of the number of
/// bytes produced so far.
pub open spec fn s_pos_state(ctx: CtxV, st: EngV) -> int {
    (st.win.len() % pow2(ctx.pb)) as int
}

/// Appends `length` bytes copied from `distance` back, after the two safety
/// gates: the back-reference must stay inside the produced output and the
/// dictionary window, and the copy must not pass the output ceiling.
pub open spec fn s_copy(ctx: CtxV, st: EngV, distance: int, length: nat) -> StepV {
    if distance > st.win.len() || distance > ctx.dict {
        StepV::Fail(LzmaError::InvalidBackReference)
    } else if st.win.len() + length > ctx.max {
        StepV::Fail(LzmaError::OutputOverflow)
    } else {
        StepV::Next(EngV { win: copy_bytes(st.win, distance, length), ..st })
    }
}

/// The literal-coder walk after a match: bits are decoded against the
/// matching byte `mb` until a decoded bit disagrees, then plainly.
pub open spec fn s_lit_normal(
    src: Seq<u8>,
    rd: RangeDecoder,
    lit: Seq<u16>,
    base: int,
    sym: int,
) -> Result<(RangeDecoder, Seq<u16>, int), LzmaError>
    decreases 512 - sym,
    when 1 <= sym
{
    if sym >= 256 {
        Ok((rd, lit, sym))
    } else {
        match s_decode_bit(src, rd, lit[base + sym]) {
            Err(e) => Err(e),
            Ok((rd1, p1, bit)) => s_lit_normal(
                src,
                rd1,
                lit.update(base + sym, p1),
                base,
                2 * sym + bit,
            ),
        }
    }
}

pub open spec fn s_lit_matched(
    src: Seq<u8>,
    rd: RangeDecoder,
    lit: Seq<u16>,
    base: int,
    sym: int,
    mb: int,
) -> Result<(RangeDecoder, Seq<u16>, int), LzmaError>
    decreases 512 - sym,
    when 1 <= sym
{
    if sym >= 256 {
        Ok((rd, lit, sym))
    } else {
        let mbit = (mb / 128) % 2;
        let ix = base + 256 + 256 * mbit + sym;
        match s_decode_bit(src, rd, lit[ix]) {
            Err(e) => Err(e),
            Ok((rd1, p1, bit)) => {
                let lit1 = lit.update(ix, p1);
                let sym1 = 2 * sym + bit;
                if bit != mbit {
                    s_lit_normal(src, rd1, lit1, base, sym1)
                } else {
                    s_lit_matched(src, rd1, lit1, base, sym1, mb * 2)
                }
            },
        }
    }
}

/// One literal packet: decode a byte through the literal coder context
/// selected by position and previous byte, append it, and relax the state.
pub open spec fn s_literal(ctx: CtxV, st: EngV) -> StepV {
    let pos = st.win.len() as int;
    let prev: int = if pos > 0 {
        st.win[pos - 1] as int
    } else {
        0
    };
    let lit_state = (pos % pow2(ctx.lp) as int) * pow2(ctx.lc) as int + prev / pow2(
        (8 - ctx.lc) as nat,
    ) as int;
    let base = 0x300 * lit_state;
    let res = if st.state >= 7 {
        let mb = st.win[pos - st.rep0 as int - 1] as int;
        s_lit_matched(ctx.src, st.rd, st.probs.literal, base, 1, mb)
    } else {
        s_lit_normal(ctx.src, st.rd, st.probs.literal, base, 1)
    };
    match res {
        Err(e) => StepV::Fail(e),
        Ok((rd1, lit1, sym)) => StepV::Next(
            EngV {
                rd: rd1,
                probs: ProbsV { literal: lit1, ..st.probs },
                win: st.win.push((sym - 256) as u8),
                state: if st.state < 4 {
                    0u32
                } else if st.state < 10 {
                    (st.state - 3) as u32
                } else {
                    (st.state - 6) as u32
                },
                ..st
            },
        ),
    }
}

/// The tail of a fresh match, once its distance value is known: shift the
/// recent-distance queue, recognize the end-of-stream marker, and copy.
pub open spec fn s_match_finish(ctx: CtxV, st: EngV, dist: int, lfield: int) -> StepV {
    let st1 = EngV { rep0: dist as u64, rep1: st.rep0, rep2: st.rep1, rep3: st.rep2, ..st };
    if dist == 0xFFFFFFFF {
        StepV::Done(st1)
    } else {
        s_copy(ctx, st1, dist + 1, (lfield + 2) as nat)
    }
}

/// A fresh-match packet: length, then distance slot, then the slot's extra
/// bits (a reverse tree for near slots, direct plus align bits for far ones).
pub open spec fn s_match(ctx: CtxV, st: EngV) -> StepV {
    let ps = s_pos_state(ctx, st);
    match s_decode_len(ctx.src, st.rd, st.probs.len, ps) {
        Err(e) => StepV::Fail(e),
        Ok((rd1, lv1, lfield)) => {
            let st1 = EngV {
                rd: rd1,
                probs: ProbsV { len: lv1, ..st.probs },
                state: if st.state < 7 {
                    7u32
                } else {
                    10u32
                },
                ..st
            };
            let slot_ix: int = if lfield < 4 {
                lfield
            } else {
                3
            };
            match s_tree(ctx.src, st1.rd, st1.probs.pos_slot, slot_ix * 64, 1, 6) {
                Err(e) => StepV::Fail(e),
                Ok((rd2, ps2, m)) => {
                    let slot = m - 64;
                    let st2 = EngV { rd: rd2, probs: ProbsV { pos_slot: ps2, ..st1.probs }, ..st1 };
                    if slot < 4 {
                        s_match_finish(ctx, st2, slot, lfield)
                    } else {
                        let nd = slot / 2 - 1;
                        let dist_base = (2 + slot % 2) * pow2(nd as nat) as int;
                        if slot < 14 {
                            match s_rtree(
                                ctx.src,
                                st2.rd,
                                st2.probs.spec_pos,
                                dist_base - slot,
                                1,
                                0,
                                1,
                                nd as nat,
                            ) {
                                Err(e) => StepV::Fail(e),
                                Ok((rd3, sp2, sym)) => s_match_finish(
                                    ctx,
                                    EngV {
                                        rd: rd3,
                                        probs: ProbsV { spec_pos: sp2, ..st2.probs },
                                        ..st2
                                    },
                                    dist_base + sym,
                                    lfield,
                                ),
                            }
                        } else {
                            match s_direct_bits(ctx.src, st2.rd, (nd - 4) as nat, 0) {
                                Err(e) => StepV::Fail(e),
                                Ok((rd3, direct)) => match s_rtree(
                                    ctx.src,
                                    rd3,
                                    st2.probs.align,
                                    0,
                                    1,
                                    0,
                                    1,
                                    4,
                                ) {
                                    Err(e) => StepV::Fail(e),
                                    Ok((rd4, al2, asym)) => s_match_finish(
                                        ctx,
                                        EngV {
                                            rd: rd4,
                                            probs: ProbsV { align: al2, ..st2.probs },
                                            ..st2
                                        },
                                        dist_base + direct * 16 + asym,
                                        lfield,
                                    ),
                                },
                            }
                        }
                    }
                },
            }
        },
    }
}

/// The tail of every repeated match: its length, the state relaxation, and
/// the copy at the (possibly re-ordered) most recent distance.
pub open spec fn s_rep_len(ctx: CtxV, st: EngV) -> StepV {
    let ps = s_pos_state(ctx, st);
    match s_decode_len(ctx.src, st.rd, st.probs.rep_len, ps) {
        Err(e) => StepV::Fail(e),
        Ok((rd1, lv1, lf)) => {
            let st1 = EngV {
                rd: rd1,
                probs: ProbsV { rep_len: lv1, ..st.probs },
                state: if st.state < 7 {
                    8u32
                } else {
                    11u32
                },
                ..st
            };
            s_copy(ctx, st1, st1.rep0 as int + 1, (lf + 2) as nat)
        },
    }
}

/// A repeated-match packet: pick one of the four recent distances (or the
/// one-byte short-rep form) and copy. A repeat before any output is a
/// malformed stream and fails as an invalid back-reference.
pub open spec fn s_rep(ctx: CtxV, st: EngV) -> StepV {
    if st.win.len() == 0 {
        StepV::Fail(LzmaError::InvalidBackReference)
    } else {
        match s_decode_bit(ctx.src, st.rd, st.probs.is_rep_g0[st.state as int]) {
            Err(e) => StepV::Fail(e),
            Ok((rd1, p1, b)) => {
                let st1 = EngV {
                    rd: rd1,
                    probs: ProbsV {
                        is_rep_g0: st.probs.is_rep_g0.update(st.state as int, p1),
                        ..st.probs
                    },
                    ..st
                };
                if b == 0 {
                    let ps = s_pos_state(ctx, st1);
                    match s_decode_bit(
                        ctx.src,
                        st1.rd,
                        st1.probs.is_rep0_long[st1.state as int * 16 + ps],
                    ) {
                        Err(e) => StepV::Fail(e),
                        Ok((rd2, p2, b2)) => {
                            let st2 = EngV {
                                rd: rd2,
                                probs: ProbsV {
                                    is_rep0_long: st1.probs.is_rep0_long.update(
                                        st1.state as int * 16 + ps,
                                        p2,
                                    ),
                                    ..st1.probs
                                },
                                ..st1
                            };
                            if b2 == 0 {
                                let st3 = EngV {
                                    state: if st2.state < 7 {
                                        9u32
                                    } else {
                                        11u32
                                    },
                                    ..st2
                                };
                                s_copy(ctx, st3, st3.rep0 as int + 1, 1)
                            } else {
                                s_rep_len(ctx, st2)
                            }
                        },
                    }
                } else {
                    match s_decode_bit(ctx.src, st1.rd, st1.probs.is_rep_g1[st1.state as int]) {
                        Err(e) => StepV::Fail(e),
                        Ok((rd2, p2, b2)) => {
                            let st2 = EngV {
                                rd: rd2,
                                probs: ProbsV {
                                    is_rep_g1: st1.probs.is_rep_g1.update(st1.state as int, p2),
                                    ..st1.probs
                                },
                                ..st1
                            };
                            if b2 == 0 {
                                let st3 = EngV { rep0: st2.rep1, rep1: st2.rep0, ..st2 };
                                s_rep_len(ctx, st3)
                            } else {
                                match s_decode_bit(
                                    ctx.src,
                                    st2.rd,
                                    st2.probs.is_rep_g2[st2.state as int],
                                ) {
                                    Err(e) => StepV::Fail(e),
                                    Ok((rd3, p3, b3)) => {
                                        let st3 = EngV {
                                            rd: rd3,
                                            probs: ProbsV {
                                                is_rep_g2: st2.probs.is_rep_g2.update(
                                                    st2.state as int,
                                                    p3,
                                                ),
                                                ..st2.probs
                                            },
                                            ..st2
                                        };
                                        if b3 == 0 {
                                            let st4 = EngV {
                                                rep0: st3.rep2,
                                                rep2: st3.rep1,
                                                rep1: st3.rep0,
                                                ..st3
                                            };
                                            s_rep_len(ctx, st4)
                                        } else {
                                            let st4 = EngV {
                                                rep0: st3.rep3,
                                                rep3: st3.rep2,
                                                rep2: st3.rep1,
                                                rep1: st3.rep0,
                                                ..st3
                                            };
                                            s_rep_len(ctx, st4)
                                        }
                                    },
                                }
                            }
                        },
                    }
                }
            },
        }
    }
}

/// One packet of the decode state machine. The session is done once the
/// output has reached the ceiling; otherwise the `is-match` and `is-rep`
/// context bits select a literal, fresh-match or repeated-match packet.
pub open spec fn s_step(ctx: CtxV, st: EngV) -> StepV {
    if st.win.len() as int >= ctx.max {
        StepV::Done(st)
    } else {
        let ps = s_pos_state(ctx, st);
        let ix = st.state as int * 16 + ps;
        match s_decode_bit(ctx.src, st.rd, st.probs.is_match[ix]) {
            Err(e) => StepV::Fail(e),
            Ok((rd1, p1, b)) => {
                let st1 = EngV {
                    rd: rd1,
                    probs: ProbsV { is_match: st.probs.is_match.update(ix, p1), ..st.probs },
                    ..st
                };
                if b == 0 {
                    s_literal(ctx, st1)
                } else {
                    match s_decode_bit(ctx.src, st1.rd, st1.probs.is_rep[st1.state as int]) {
                        Err(e) => StepV::Fail(e),
                        Ok((rd2, p2, b2)) => {
                            let st2 = EngV {
                                rd: rd2,
                                probs: ProbsV {
                                    is_rep: st1.probs.is_rep.update(st1.state as int, p2),
                                    ..st1.probs
                                },
                                ..st1
                            };
                            if b2 == 0 {
                                s_match(ctx, st2)
                            } else {
                                s_rep(ctx, st2)
                            }
                        },
                    }
                }
            },
        }
    }
}

/// `s_step` iterated under a fuel bound: `None` when `fuel` packets were
/// not enough to finish.
pub open spec fn s_run(ctx: CtxV, st: EngV, fuel: nat) -> Option<Result<Seq<u8>, LzmaError>>
    decreases fuel,
{
    match s_step(ctx, st) {
        StepV::Done(st2) => Some(Ok(st2.win)),
        StepV::Fail(e) => Some(Err(e)),
        StepV::Next(st2) => if fuel == 0 {
            None
        } else {
            s_run(ctx, st2, (fuel - 1) as nat)
        },
    }
}

/// The decode outcome from a session state: the unique terminal value of
/// the step chain. (Every session the executable decoder starts terminates,
/// because each continuing packet lengthens the bounded output.)
pub open spec fn s_decode_from(ctx: CtxV, st: EngV) -> Result<Seq<u8>, LzmaError> {
    let f = choose|f: nat| s_run(ctx, st, f) is Some;
    match s_run(ctx, st, f) {
        Some(r) => r,
        None => Err(LzmaError::StreamExhausted),
    }
}

pub proof fn lemma_run_mono(ctx: CtxV, st: EngV, f1: nat, f2: nat)
    requires
        f1 <= f2,
        s_run(ctx, st, f1) is Some,
    ensures
        s_run(ctx, st, f2) == s_run(ctx, st, f1),
    decreases f1,
{
    match s_step(ctx, st) {
        StepV::Next(st2) => {
            if f1 == 0 {
                assert(s_run(ctx, st, 0) is None);
            } else {
                lemma_run_mono(ctx, st2, (f1 - 1) as nat, (f2 - 1) as nat);
            }
        },
        _ => {},
    }
}

pub proof fn lemma_decode_from_next(ctx: CtxV, st: EngV, st2: EngV)
    requires
        s_step(ctx, st) == StepV::Next(st2),
    ensures
        s_decode_from(ctx, st) == s_decode_from(ctx, st2),
{
    if exists|f: nat| s_run(ctx, st2, f) is Some {
        let f = choose|f: nat| s_run(ctx, st2, f) is Some;
        assert(s_run(ctx, st, (f + 1) as nat) == s_run(ctx, st2, f));
        assert(s_run(ctx, st, (f + 1) as nat) is Some);
        let a = choose|a: nat| s_run(ctx, st, a) is Some;
        assert(s_run(ctx, st, a) is Some);
        let b = choose|b: nat| s_run(ctx, st2, b) is Some;
        assert(s_run(ctx, st2, b) is Some);
        let m: nat = if a > b + 1 {
            a
        } else {
            (b + 1) as nat
        };
        lemma_run_mono(ctx, st, a, m);
        lemma_run_mono(ctx, st2, b, (m - 1) as nat);
        assert(s_run(ctx, st, m) == s_run(ctx, st2, (m - 1) as nat));
    } else {
        assert forall|g: nat| !(s_run(ctx, st, g) is Some) by {
            if g > 0 {
                assert(s_run(ctx, st, g) == s_run(ctx, st2, (g - 1) as nat));
            }
        }
    }
}

pub proof fn lemma_decode_from_done(ctx: CtxV, st: EngV, st2: EngV)
    requires
        s_step(ctx, st) == StepV::Done(st2),
    ensures
        s_decode_from(ctx, st) == Ok::<Seq<u8>, LzmaError>(st2.win),
{
    assert(s_run(ctx, st, 0) == Some(Ok::<Seq<u8>, LzmaError>(st2.win)));
    assert(exists|f: nat| s_run(ctx, st, f) is Some);
    let a = choose|a: nat| s_run(ctx, st, a) is Some;
    lemma_run_mono(ctx, st, 0, a);
}

pub proof fn lemma_decode_from_fail(ctx: CtxV, st: EngV, e: LzmaError)
    requires
        s_step(ctx, st) == StepV::Fail(e),
    ensures
        s_decode_from(ctx, st) == Err::<Seq<u8>, LzmaError>(e),
{
    assert(s_run(ctx, st, 0) == Some(Err::<Seq<u8>, LzmaError>(e)));
    assert(exists|f: nat| s_run(ctx, st, f) is Some);
    let a = choose|a: nat| s_run(ctx, st, a) is Some;
    lemma_run_mono(ctx, st, 0, a);
}

/// The session context fixed by one call of the decoder.
pub open spec fn s_ctx(src: Seq<u8>, params: DecoderParameters, max: int) -> CtxV {
    CtxV {
        src,
        lc: params.lc as nat,
        lp: params.lp as nat,
        pb: params.pb as nat,
        dict: params.spec_dict() as int,
        max,
    }
}

/// The clean session state: code register filled from the four bytes after
/// the ignored lead byte, range saturated, all probabilities at the
/// midpoint, empty output, ground state, zeroed recent distances.
pub open spec fn s_init(src: Seq<u8>, params: DecoderParameters, offset: int) -> EngV {
    EngV {
        rd: RangeDecoder {
            pos: (offset + 5) as usize,
            range: 0xFFFFFFFFu32,
            code: (src[offset + 1] as int * 0x1000000 + src[offset + 2] as int * 0x10000 + src[
                offset + 3
            ] as int * 0x100 + src[offset + 4] as int) as u32,
        },
        probs: init_probs((params.lc + params.lp) as nat),
        win: Seq::empty(),
        state: 0u32,
        rep0: 0u64,
        rep1: 0u64,
        rep2: 0u64,
        rep3: 0u64,
    }
}

/// The complete decode of one block under fixed parameters: what
/// `decode_block` returns, for every input. An offset outside the source is
/// rejected outright; a source too short for the five range-coder
/// initialization bytes is exhausted before the first packet.
pub open spec fn s_decode(src: Seq<u8>, params: DecoderParameters, offset: int, max: int) -> Result<
    Seq<u8>,
    LzmaError,
> {
    if offset >= src.len() {
        Err(LzmaError::InvalidOffset)
    } else if offset + 5 > src.len() {
        Err(LzmaError::StreamExhausted)
    } else {
        s_decode_from(s_ctx(src, params, max), s_init(src, params, offset))
    }
}


/// The decisions of one executable packet step.
#[derive(Clone, Copy, PartialEq, Eq, Structural, Debug)]
pub enum StepKind {
    Continue,
    Finished,
    Failed(LzmaError),
}

/// The literal-coder walk without a match byte; exact mirror of
/// `s_lit_normal` from `sym0` on.
fn lit_tree_normal(
    rd: &mut RangeDecoder,
    lit: &mut Vec<u16>,
    src: &[u8],
    base: usize,
    sym0: u32,
) -> (r: Result<u32, LzmaError>)
    requires
        1 <= sym0 <= 511,
        base + 0x300 <= old(lit)@.len(),
        prob_seq_wf(old(lit)@),
    ensures
        final (lit)@.len() == old(lit)@.len(),
        prob_seq_wf(final (lit)@),
        match s_lit_normal(src@, *old(rd), old(lit)@, base as int, sym0 as int) {
            Ok((rdn, litn, s)) => r is Ok && *final (rd) == rdn && final (lit)@ == litn && r->Ok_0
                == s && 256 <= s <= 511,
            Err(e) => r == Err::<u32, LzmaError>(e),
        },
{
    let plen = lit.len();
    let mut sym: u32 = sym0;
    while sym < 256
        invariant
            1 <= sym <= 511,
            base + 0x300 <= plen,
            lit@.len() == plen,
            plen == old(lit)@.len(),
            prob_seq_wf(lit@),
            s_lit_normal(src@, *old(rd), old(lit)@, base as int, sym0 as int) == s_lit_normal(
                src@,
                *rd,
                lit@,
                base as int,
                sym as int,
            ),
        decreases 512 - sym,
    {
        let ghost rd_pre = *rd;
        let ghost lit_pre = lit@;
        let ghost sym_pre = sym as int;
        let idx = base + sym as usize;
        let p = lit[idx];
        match rd.decode_bit(src, p) {
            Ok((p1, bit)) => {
                lit.set(idx, p1);
                sym = 2 * sym + bit as u32;
                proof {
                    assert(s_lit_normal(src@, rd_pre, lit_pre, base as int, sym_pre)
                        == s_lit_normal(src@, *rd, lit@, base as int, sym as int));
                }
            },
            Err(e) => {
                proof {
                    assert(s_lit_normal(src@, rd_pre, lit_pre, base as int, sym_pre) == Err::<
                        (RangeDecoder, Seq<u16>, int),
                        LzmaError,
                    >(e));
                }
                return Err(e);
            },
        }
    }
    Ok(sym)
}

/// The literal-coder walk against a match byte; exact mirror of
/// `s_lit_matched` started at the tree root.
fn lit_tree_matched(
    rd: &mut RangeDecoder,
    lit: &mut Vec<u16>,
    src: &[u8],
    base: usize,
    mb0: u32,
) -> (r: Result<u32, LzmaError>)
    requires
        mb0 < 256,
        base + 0x300 <= old(lit)@.len(),
        prob_seq_wf(old(lit)@),
    ensures
        final (lit)@.len() == old(lit)@.len(),
        prob_seq_wf(final (lit)@),
        match s_lit_matched(src@, *old(rd), old(lit)@, base as int, 1, mb0 as int) {
            Ok((rdn, litn, s)) => r is Ok && *final (rd) == rdn && final (lit)@ == litn && r->Ok_0
                == s && 256 <= s <= 511,
            Err(e) => r == Err::<u32, LzmaError>(e),
        },
{
    let plen = lit.len();
    let mut sym: u32 = 1;
    let mut mb: u32 = mb0;
    while sym < 256
        invariant
            1 <= sym <= 511,
            mb < 256 * sym,
            base + 0x300 <= plen,
            lit@.len() == plen,
            plen == old(lit)@.len(),
            prob_seq_wf(lit@),
            s_lit_matched(src@, *old(rd), old(lit)@, base as int, 1, mb0 as int) == s_lit_matched(
                src@,
                *rd,
                lit@,
                base as int,
                sym as int,
                mb as int,
            ),
        decreases 512 - sym,
    {
        let ghost rd_pre = *rd;
        let ghost lit_pre = lit@;
        let ghost sym_pre = sym as int;
        let ghost mb_pre = mb as int;
        let mbit = (mb / 128) % 2;
        let idx = base + 256 + 256 * (mbit as usize) + sym as usize;
        let p = lit[idx];
        match rd.decode_bit(src, p) {
            Ok((p1, bit)) => {
                lit.set(idx, p1);
                sym = 2 * sym + bit as u32;
                if bit as u32 != mbit {
                    proof {
                        assert(s_lit_matched(src@, rd_pre, lit_pre, base as int, sym_pre, mb_pre)
                            == s_lit_normal(src@, *rd, lit@, base as int, sym as int));
                    }
                    return lit_tree_normal(rd, lit, src, base, sym);
                }
                mb = mb * 2;
                proof {
                    assert(s_lit_matched(src@, rd_pre, lit_pre, base as int, sym_pre, mb_pre)
                        == s_lit_matched(src@, *rd, lit@, base as int, sym as int, mb as int));
                }
            },
            Err(e) => {
                proof {
                    assert(s_lit_matched(src@, rd_pre, lit_pre, base as int, sym_pre, mb_pre)
                        == Err::<(RangeDecoder, Seq<u16>, int), LzmaError>(e));
                }
                return Err(e);
            },
        }
    }
    Ok(sym)
}

/// Distance-slot table for the near slots (4..=13): the number of extra
/// bits, the slot's base distance, and where its reverse tree sits in the
/// positional probability array.
fn slot_table(slot: u32) -> (r: (u32, u64, usize))
    requires
        4 <= slot < 14,
    ensures
        r.0 as int == slot as int / 2 - 1,
        r.1 as int == (2 + slot as int % 2) * pow2(r.0 as nat) as int,
        r.2 as int == r.1 as int - slot as int,
        r.2 + pow2(r.0 as nat) <= 115,
        r.0 <= 5,
        r.1 <= 96,
{
    proof {
        lemma2_to64();
    }
    match slot {
        4 => return (1, 4, 0),
        5 => return (1, 6, 1),
        6 => return (2, 8, 2),
        7 => return (2, 12, 5),
        8 => return (3, 16, 8),
        9 => return (3, 24, 15),
        10 => return (4, 32, 22),
        11 => return (4, 48, 37),
        12 => return (5, 64, 52),
        _ => return (5, 96, 83),
    }
}

/// One decode session: range decoder cursor, adaptive probability table,
/// output window, the 12-value packet state, the four most recent
/// distances, and the fixed literal/position parameters.
pub struct Engine {
    pub rd: RangeDecoder,
    pub probs: Probs,
    pub win: Window,
    pub state: u32,
    pub rep0: u64,
    pub rep1: u64,
    pub rep2: u64,
    pub rep3: u64,
    pub lc: u32,
    pub lp: u32,
    pub pb: u32,
}

impl Engine {
    /// The session state this engine is in.
    pub open spec fn v(self) -> EngV {
        EngV {
            rd: self.rd,
            probs: self.probs.v(),
            win: self.win.data@,
            state: self.state,
            rep0: self.rep0,
            rep1: self.rep1,
            rep2: self.rep2,
            rep3: self.rep3,
        }
    }

    /// The session context this engine runs under, for the given input.
    pub open spec fn ctx(self, src: Seq<u8>) -> CtxV {
        CtxV {
            src,
            lc: self.lc as nat,
            lp: self.lp as nat,
            pb: self.pb as nat,
            dict: self.win.dict as int,
            max: self.win.max_output as int,
        }
    }

    /// The caller-fixed parts of two engines agree.
    pub open spec fn same_session(self, other: Engine) -> bool {
        self.lc == other.lc && self.lp == other.lp && self.pb == other.pb
            && self.win.max_output == other.win.max_output && self.win.dict == other.win.dict
    }

    /// Session invariant: parameters in range, a well-formed probability
    /// table of the matching size, the window under its ceiling, the packet
    /// state among the twelve, and recent distances that stay addressable
    /// (after any match the newest distance lies inside the output).
    pub open spec fn wf(self) -> bool {
        self.lc <= 4 && self.lp <= 4 && self.pb <= 4 && self.probs.v().wf(
            (self.lc + self.lp) as nat,
        ) && self.win.wf() && self.state < 12 && (self.state >= 7 ==> self.rep0 + 1
            <= self.win.data@.len()) && self.rep0 <= 0xFFFFFFFE && self.rep1 <= 0xFFFFFFFE
            && self.rep2 <= 0xFFFFFFFE && self.rep3 <= 0xFFFFFFFE
    }

    /// One literal packet; exact mirror of `s_literal`.
    fn decode_literal(&mut self, src: &[u8]) -> (r: Result<(), LzmaError>)
        requires
            old(self).wf(),
            old(self).win.data@.len() < old(self).win.max_output,
        ensures
            final (self).same_session(*old(self)),
            r is Ok ==> final (self).wf() && s_literal(old(self).ctx(src@), old(self).v())
                == StepV::Next(final (self).v()) && final (self).win.data@.len() == old(
                self,
            ).win.data@.len() + 1,
            r is Err ==> s_literal(old(self).ctx(src@), old(self).v()) == StepV::Fail(r->Err_0),
    {
        proof {
            lemma2_to64();
        }
        let ghost ctx0 = old(self).ctx(src@);
        let ghost st0 = old(self).v();
        let pos = self.win.len();
        let prev: u32 = if pos > 0 {
            self.win.byte_at_back(1) as u32
        } else {
            0
        };
        let p_lp = pow2_u64(self.lp) as usize;
        let p_lc = pow2_u64(self.lc) as usize;
        let p_8lc = pow2_u64(8 - self.lc) as u32;
        let a = pos % p_lp;
        let b = (prev / p_8lc) as usize;
        proof {
            lemma_pow2_adds((8 - self.lc) as nat, self.lc as nat);
            lemma_multiply_divide_lt(
                prev as int,
                pow2((8 - self.lc) as nat) as int,
                pow2(self.lc as nat) as int,
            );
            lemma_pow2_adds(self.lp as nat, self.lc as nat);
            assert((a as int) * (p_lc as int) + (b as int) < (p_lp as int) * (p_lc as int))
                by (nonlinear_arith)
                requires
                    0 <= a as int <= p_lp as int - 1,
                    0 <= b as int <= p_lc as int - 1,
                    1 <= p_lc as int,
            ;
            if ((self.lp + self.lc) as nat) < 8 {
                lemma_pow2_strictly_increases((self.lp + self.lc) as nat, 8);
            }
        }
        let lit_state: usize = a * p_lc + b;
        let base: usize = 0x300 * lit_state;
        let res = if self.state >= 7 {
            let mbv = self.win.byte_at_back(self.rep0 + 1) as u32;
            lit_tree_matched(&mut self.rd, &mut self.probs.literal, src, base, mbv)
        } else {
            lit_tree_normal(&mut self.rd, &mut self.probs.literal, src, base, 1)
        };
        match res {
            Err(e) => {
                proof {
                    assert(s_literal(ctx0, st0) == StepV::Fail(e));
                }
                Err(e)
            },
            Ok(sym) => {
                let byte = (sym - 256) as u8;
                match self.win.append(byte) {
                    Ok(_) => {},
                    Err(e) => {
                        proof {
                            assert(false);
                        }
                        return Err(e);
                    },
                }
                self.state = if self.state < 4 {
                    0
                } else if self.state < 10 {
                    self.state - 3
                } else {
                    self.state - 6
                };
                proof {
                    assert(s_literal(ctx0, st0) == StepV::Next(self.v()));
                }
                Ok(())
            },
        }
    }

    /// The tail of a fresh match once its distance is decoded; exact mirror
    /// of `s_match_finish`.
    fn finish_match(&mut self, src: &[u8], dist: u64, lfield: u32) -> (r: StepKind)
        requires
            old(self).lc <= 4,
            old(self).lp <= 4,
            old(self).pb <= 4,
            old(self).probs.v().wf((old(self).lc + old(self).lp) as nat),
            old(self).win.wf(),
            old(self).state < 12,
            old(self).rep0 <= 0xFFFFFFFE,
            old(self).rep1 <= 0xFFFFFFFE,
            old(self).rep2 <= 0xFFFFFFFE,
            dist <= 0xFFFFFFFF,
            lfield < 272,
        ensures
            final (self).same_session(*old(self)),
            r == StepKind::Continue ==> final (self).wf() && s_match_finish(
                old(self).ctx(src@),
                old(self).v(),
                dist as int,
                lfield as int,
            ) == StepV::Next(final (self).v()) && final (self).win.data@.len() > old(
                self,
            ).win.data@.len(),
            r == StepKind::Finished ==> s_match_finish(
                old(self).ctx(src@),
                old(self).v(),
                dist as int,
                lfield as int,
            ) == StepV::Done(final (self).v()),
            r is Failed ==> s_match_finish(
                old(self).ctx(src@),
                old(self).v(),
                dist as int,
                lfield as int,
            ) == StepV::Fail(r->Failed_0),
    {
        self.rep3 = self.rep2;
        self.rep2 = self.rep1;
        self.rep1 = self.rep0;
        self.rep0 = dist;
        if dist == 0xFFFFFFFF {
            return StepKind::Finished;
        }
        let length = lfield + 2;
        let ghost w0 = self.win.data@;
        match self.win.copy_match(dist + 1, length) {
            Ok(_) => {
                proof {
                    crate::window::lemma_copy_bytes_len(w0, dist as int + 1, length as nat);
                }
                StepKind::Continue
            },
            Err(e) => StepKind::Failed(e),
        }
    }

    /// One fresh-match packet; exact mirror of `s_match`.
    #[verifier::rlimit(60)]
    fn decode_match(&mut self, src: &[u8]) -> (r: StepKind)
        requires
            old(self).wf(),
        ensures
            final (self).same_session(*old(self)),
            r == StepKind::Continue ==> final (self).wf() && s_match(
                old(self).ctx(src@),
                old(self).v(),
            ) == StepV::Next(final (self).v()) && final (self).win.data@.len() > old(
                self,
            ).win.data@.len(),
            r == StepKind::Finished ==> s_match(old(self).ctx(src@), old(self).v()) == StepV::Done(
                final (self).v(),
            ),
            r is Failed ==> s_match(old(self).ctx(src@), old(self).v()) == StepV::Fail(
                r->Failed_0,
            ),
    {
        proof {
            lemma2_to64();
        }
        let ghost ctx0 = old(self).ctx(src@);
        let ghost st0 = old(self).v();
        let p_pb = pow2_u64(self.pb) as usize;
        let ps = self.win.len() % p_pb;
        proof {
            assert(ps as int == s_pos_state(ctx0, st0));
        }
        match self.probs.len.decode(&mut self.rd, src, ps) {
            Err(e) => {
                proof {
                    assert(s_match(ctx0, st0) == StepV::Fail(e));
                }
                StepKind::Failed(e)
            },
            Ok(lfield) => {
                self.state = if self.state < 7 {
                    7
                } else {
                    10
                };
                let slot_ix: usize = if lfield < 4 {
                    lfield as usize
                } else {
                    3
                };
                match self.rd.decode_tree(src, &mut self.probs.pos_slot, slot_ix * 64, 6) {
                    Err(e) => {
                        proof {
                            assert(s_match(ctx0, st0) == StepV::Fail(e));
                        }
                        StepKind::Failed(e)
                    },
                    Ok(slot) => {
                        if slot < 4 {
                            proof {
                                assert(s_match(ctx0, st0) == s_match_finish(
                                    ctx0,
                                    self.v(),
                                    slot as int,
                                    lfield as int,
                                ));
                            }
                            self.finish_match(src, slot as u64, lfield)
                        } else if slot < 14 {
                            let t = slot_table(slot);
                            let nd: u32 = t.0;
                            let db: u64 = t.1;
                            let sp_base: usize = t.2;
                            match self.rd.decode_rtree(src, &mut self.probs.spec_pos, sp_base, nd) {
                                Err(e) => {
                                    proof {
                                        assert(s_match(ctx0, st0) == StepV::Fail(e));
                                    }
                                    StepKind::Failed(e)
                                },
                                Ok(sym) => {
                                    proof {
                                        assert(s_match(ctx0, st0) == s_match_finish(
                                            ctx0,
                                            self.v(),
                                            db as int + sym as int,
                                            lfield as int,
                                        ));
                                    }
                                    self.finish_match(src, db + sym as u64, lfield)
                                },
                            }
                        } else {
                            let nd: u32 = slot / 2 - 1;
                            let p2nd = pow2_u64(nd);
                            proof {
                                if (nd as nat) < 30 {
                                    lemma_pow2_strictly_increases(nd as nat, 30);
                                }
                                lemma_mul_inequality(
                                    2 + (slot % 2) as int,
                                    3,
                                    pow2(nd as nat) as int,
                                );
                                if ((nd + 2) as nat) < 32 {
                                    lemma_pow2_strictly_increases((nd + 2) as nat, 32);
                                }
                                lemma_pow2_adds(nd as nat, 2);
                                lemma_pow2_adds((nd - 4) as nat, 4);
                            }
                            let db: u64 = (2u64 + (slot % 2) as u64) * p2nd;
                            match self.rd.decode_direct_bits(src, nd - 4) {
                                Err(e) => {
                                    proof {
                                        assert(s_match(ctx0, st0) == StepV::Fail(e));
                                    }
                                    StepKind::Failed(e)
                                },
                                Ok(direct) => {
                                    match self.rd.decode_rtree(
                                        src,
                                        &mut self.probs.align,
                                        0,
                                        4,
                                    ) {
                                        Err(e) => {
                                            proof {
                                                assert(s_match(ctx0, st0) == StepV::Fail(e));
                                            }
                                            StepKind::Failed(e)
                                        },
                                        Ok(asym) => {
                                            let d = db + direct * 16 + (asym as u64);
                                            proof {
                                                assert(d <= 0xFFFFFFFF);
                                                assert(s_match(ctx0, st0) == s_match_finish(
                                                    ctx0,
                                                    self.v(),
                                                    d as int,
                                                    lfield as int,
                                                ));
                                            }
                                            self.finish_match(src, d, lfield)
                                        },
                                    }
                                },
                            }
                        }
                    },
                }
            },
        }
    }

    /// The shared tail of every repeated match; exact mirror of `s_rep_len`.
    fn rep_tail(&mut self, src: &[u8]) -> (r: StepKind)
        requires
            old(self).lc <= 4,
            old(self).lp <= 4,
            old(self).pb <= 4,
            old(self).probs.v().wf((old(self).lc + old(self).lp) as nat),
            old(self).win.wf(),
            old(self).state < 12,
            old(self).rep0 <= 0xFFFFFFFE,
            old(self).rep1 <= 0xFFFFFFFE,
            old(self).rep2 <= 0xFFFFFFFE,
            old(self).rep3 <= 0xFFFFFFFE,
        ensures
            final (self).same_session(*old(self)),
            r == StepKind::Continue ==> final (self).wf() && s_rep_len(
                old(self).ctx(src@),
                old(self).v(),
            ) == StepV::Next(final (self).v()) && final (self).win.data@.len() > old(
                self,
            ).win.data@.len(),
            r == StepKind::Finished ==> s_rep_len(old(self).ctx(src@), old(self).v())
                == StepV::Done(final (self).v()),
            r is Failed ==> s_rep_len(old(self).ctx(src@), old(self).v()) == StepV::Fail(
                r->Failed_0,
            ),
    {
        proof {
            lemma2_to64();
        }
        let ghost ctx0 = old(self).ctx(src@);
        let ghost st0 = old(self).v();
        let p_pb = pow2_u64(self.pb) as usize;
        let ps = self.win.len() % p_pb;
        match self.probs.rep_len.decode(&mut self.rd, src, ps) {
            Err(e) => {
                proof {
                    assert(s_rep_len(ctx0, st0) == StepV::Fail(e));
                }
                StepKind::Failed(e)
            },
            Ok(lf) => {
                self.state = if self.state < 7 {
                    8
                } else {
                    11
                };
                let ghost w0 = self.win.data@;
                match self.win.copy_match(self.rep0 + 1, lf + 2) {
                    Ok(_) => {
                        proof {
                            crate::window::lemma_copy_bytes_len(
                                w0,
                                self.rep0 as int + 1,
                                (lf + 2) as nat,
                            );
                        }
                        StepKind::Continue
                    },
                    Err(e) => StepKind::Failed(e),
                }
            },
        }
    }

    /// One repeated-match packet; exact mirror of `s_rep`.
    #[verifier::rlimit(90)]
    fn decode_rep(&mut self, src: &[u8]) -> (r: StepKind)
        requires
            old(self).wf(),
        ensures
            final (self).same_session(*old(self)),
            r == StepKind::Continue ==> final (self).wf() && s_rep(
                old(self).ctx(src@),
                old(self).v(),
            ) == StepV::Next(final (self).v()) && final (self).win.data@.len() > old(
                self,
            ).win.data@.len(),
            r == StepKind::Finished ==> s_rep(old(self).ctx(src@), old(self).v()) == StepV::Done(
                final (self).v(),
            ),
            r is Failed ==> s_rep(old(self).ctx(src@), old(self).v()) == StepV::Fail(r->Failed_0),
    {
        proof {
            lemma2_to64();
        }
        let ghost ctx0 = old(self).ctx(src@);
        let ghost st0 = old(self).v();
        if self.win.len() == 0 {
            return StepKind::Failed(LzmaError::InvalidBackReference);
        }
        let stix = self.state as usize;
        let pg0 = self.probs.is_rep_g0[stix];
        match self.rd.decode_bit(src, pg0) {
            Err(e) => {
                proof {
                    assert(s_rep(ctx0, st0) == StepV::Fail(e));
                }
                StepKind::Failed(e)
            },
            Ok((p1, b)) => {
                self.probs.is_rep_g0.set(stix, p1);
                if b == 0 {
                    let p_pb = pow2_u64(self.pb) as usize;
                    let ps = self.win.len() % p_pb;
                    let ix = stix * 16 + ps;
                    let plong = self.probs.is_rep0_long[ix];
                    match self.rd.decode_bit(src, plong) {
                        Err(e) => {
                            proof {
                                assert(s_rep(ctx0, st0) == StepV::Fail(e));
                            }
                            StepKind::Failed(e)
                        },
                        Ok((p2, b2)) => {
                            self.probs.is_rep0_long.set(ix, p2);
                            if b2 == 0 {
                                self.state = if self.state < 7 {
                                    9
                                } else {
                                    11
                                };
                                let ghost w0 = self.win.data@;
                                let cr = self.win.copy_match(self.rep0 + 1, 1);
                                match cr {
                                    Ok(_) => {
                                        proof {
                                            crate::window::lemma_copy_bytes_len(
                                                w0,
                                                self.rep0 as int + 1,
                                                1,
                                            );
                                            assert(s_rep(ctx0, st0) == StepV::Next(self.v()));
                                        }
                                        StepKind::Continue
                                    },
                                    Err(e) => {
                                        proof {
                                            assert(s_rep(ctx0, st0) == StepV::Fail(e));
                                        }
                                        StepKind::Failed(e)
                                    },
                                }
                            } else {
                                proof {
                                    assert(s_rep(ctx0, st0) == s_rep_len(ctx0, self.v()));
                                }
                                self.rep_tail(src)
                            }
                        },
                    }
                } else {
                    let pg1 = self.probs.is_rep_g1[stix];
                    match self.rd.decode_bit(src, pg1) {
                        Err(e) => {
                            proof {
                                assert(s_rep(ctx0, st0) == StepV::Fail(e));
                            }
                            StepKind::Failed(e)
                        },
                        Ok((p2, b2)) => {
                            self.probs.is_rep_g1.set(stix, p2);
                            if b2 == 0 {
                                let d = self.rep1;
                                self.rep1 = self.rep0;
                                self.rep0 = d;
                                proof {
                                    assert(s_rep(ctx0, st0) == s_rep_len(ctx0, self.v()));
                                }
                                self.rep_tail(src)
                            } else {
                                let pg2 = self.probs.is_rep_g2[stix];
                                match self.rd.decode_bit(src, pg2) {
                                    Err(e) => {
                                        proof {
                                            assert(s_rep(ctx0, st0) == StepV::Fail(e));
                                        }
                                        StepKind::Failed(e)
                                    },
                                    Ok((p3, b3)) => {
                                        self.probs.is_rep_g2.set(stix, p3);
                                        if b3 == 0 {
                                            let d = self.rep2;
                                            self.rep2 = self.rep1;
                                            self.rep1 = self.rep0;
                                            self.rep0 = d;
                                        } else {
                                            let d = self.rep3;
                                            self.rep3 = self.rep2;
                                            self.rep2 = self.rep1;
                                            self.rep1 = self.rep0;
                                            self.rep0 = d;
                                        }
                                        proof {
                                            assert(s_rep(ctx0, st0) == s_rep_len(ctx0, self.v()));
                                        }
                                        self.rep_tail(src)
                                    },
                                }
                            }
                        },
                    }
                }
            },
        }
    }

    /// One packet of the decode state machine; exact mirror of `s_step`.
    #[verifier::rlimit(100)]
    pub fn step(&mut self, src: &[u8]) -> (r: StepKind)
        requires
            old(self).wf(),
        ensures
            final (self).same_session(*old(self)),
            r == StepKind::Continue ==> final (self).wf() && s_step(
                old(self).ctx(src@),
                old(self).v(),
            ) == StepV::Next(final (self).v()) && final (self).win.data@.len() > old(
                self,
            ).win.data@.len(),
            r == StepKind::Finished ==> s_step(old(self).ctx(src@), old(self).v()) == StepV::Done(
                final (self).v(),
            ),
            r is Failed ==> s_step(old(self).ctx(src@), old(self).v()) == StepV::Fail(r->Failed_0),
    {
        proof {
            lemma2_to64();
        }
        let ghost ctx0 = old(self).ctx(src@);
        let ghost st0 = old(self).v();
        let len = self.win.len();
        if len >= self.win.max_output {
            proof {
                assert(s_step(ctx0, st0) == StepV::Done(st0));
            }
            return StepKind::Finished;
        }
        let p_pb = pow2_u64(self.pb) as usize;
        let ps = len % p_pb;
        let ix = (self.state as usize) * 16 + ps;
        let p = self.probs.is_match[ix];
        match self.rd.decode_bit(src, p) {
            Err(e) => {
                proof {
                    assert(s_step(ctx0, st0) == StepV::Fail(e));
                }
                StepKind::Failed(e)
            },
            Ok((p1, b)) => {
                self.probs.is_match.set(ix, p1);
                if b == 0 {
                    proof {
                        assert(s_step(ctx0, st0) == s_literal(ctx0, self.v()));
                    }
                    match self.decode_literal(src) {
                        Ok(_) => StepKind::Continue,
                        Err(e) => StepKind::Failed(e),
                    }
                } else {
                    let prp = self.probs.is_rep[self.state as usize];
                    match self.rd.decode_bit(src, prp) {
                        Err(e) => {
                            proof {
                                assert(s_step(ctx0, st0) == StepV::Fail(e));
                            }
                            StepKind::Failed(e)
                        },
                        Ok((p2, b2)) => {
                            self.probs.is_rep.set(self.state as usize, p2);
                            if b2 == 0 {
                                proof {
                                    assert(s_step(ctx0, st0) == s_match(ctx0, self.v()));
                                }
                                self.decode_match(src)
                            } else {
                                proof {
                                    assert(s_step(ctx0, st0) == s_rep(ctx0, self.v()));
                                }
                                self.decode_rep(src)
                            }
                        },
                    }
                }
            },
        }
    }
}

/// Decompresses one block under fixed parameters: exactly `s_decode` of the
/// inputs, and never more than `max_output_size` bytes of output.
pub fn decode_block(
    source: &[u8],
    offset: usize,
    params: DecoderParameters,
    max_output_size: usize,
) -> (r: Result<Vec<u8>, LzmaError>)
    requires
        params.wf(),
    ensures
        r is Ok ==> s_decode(source@, params, offset as int, max_output_size as int) is Ok
            && r->Ok_0@ == s_decode(source@, params, offset as int, max_output_size as int)->Ok_0
            && r->Ok_0@.len() <= max_output_size,
        r is Err ==> s_decode(source@, params, offset as int, max_output_size as int) == Err::<
            Seq<u8>,
            LzmaError,
        >(r->Err_0),
{
    if offset >= source.len() {
        return Err(LzmaError::InvalidOffset);
    }
    if source.len() - offset < 5 {
        return Err(LzmaError::StreamExhausted);
    }
    let code: u32 = (source[offset + 1] as u32) * 0x1000000 + (source[offset + 2] as u32) * 0x10000
        + (source[offset + 3] as u32) * 0x100 + (source[offset + 4] as u32);
    let mut eng = Engine {
        rd: RangeDecoder { pos: offset + 5, range: 0xFFFFFFFFu32, code },
        probs: Probs::new(params.lc, params.lp),
        win: Window::new(max_output_size, params.dict()),
        state: 0,
        rep0: 0,
        rep1: 0,
        rep2: 0,
        rep3: 0,
        lc: params.lc,
        lp: params.lp,
        pb: params.pb,
    };
    let ghost ctx0 = eng.ctx(source@);
    let ghost st0 = eng.v();
    proof {
        assert(st0 == s_init(source@, params, offset as int));
        assert(ctx0 == s_ctx(source@, params, max_output_size as int));
        assert(s_decode(source@, params, offset as int, max_output_size as int) == s_decode_from(
            ctx0,
            st0,
        ));
    }
    loop
        invariant
            eng.wf(),
            eng.ctx(source@) == ctx0,
            eng.win.max_output == max_output_size,
            s_decode_from(ctx0, st0) == s_decode_from(ctx0, eng.v()),
            s_decode(source@, params, offset as int, max_output_size as int) == s_decode_from(
                ctx0,
                st0,
            ),
        decreases max_output_size - eng.win.data@.len(),
    {
        let ghost pre = eng.v();
        match eng.step(source) {
            StepKind::Continue => {
                proof {
                    lemma_decode_from_next(ctx0, pre, eng.v());
                }
            },
            StepKind::Finished => {
                proof {
                    lemma_decode_from_done(ctx0, pre, eng.v());
                }
                return Ok(eng.win.data);
            },
            StepKind::Failed(e) => {
                proof {
                    lemma_decode_from_fail(ctx0, pre, e);
                }
                return Err(e);
            },
        }
    }
}

} // verus!
