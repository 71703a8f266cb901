//! The arithmetic coder: symbol-by-symbol interval narrowing over the
//! adaptive model, with three-case renormalization (lower half, upper half,
//! and the underflow case that defers complementary bits).

use vstd::prelude::*;
use crate::model::{
    init_model, model_valid, observe, sum_prefix, lemma_pro_gap, lemma_sum_prefix_elem,
    lemma_sum_prefix_zero, ModelState, Probabilities, PRECISION,
};
use crate::code::{lemma_bits_determine_data, spec_serialize, stream_bit, stream_next, Code};
use vstd::arithmetic::div_mod::{
    lemma_div_is_ordered, lemma_div_multiples_vanish, lemma_div_plus_one, lemma_div_pos_is_pos,
};
use vstd::arithmetic::mul::{
    lemma_mul_inequality, lemma_mul_is_commutative, lemma_mul_is_distributive_add_other_way,
    lemma_mul_nonnegative, lemma_mul_upper_bound,
};
use vstd::arithmetic::power2::{lemma2_to64, lemma_pow2_adds, lemma_pow2_strictly_increases, pow2};

verus! {

/// Midpoint of the 32-bit working range.
pub const HALF: u32 = 0x80000000;

/// First quartile of the 32-bit working range.
pub const QUARTER: u32 = 0x40000000;

/// Third quartile of the 32-bit working range.
pub const THREE_QUARTERS: u32 = 0xC0000000;

/// Encoder state carried from symbol to symbol: the current interval, the
/// count of deferred complementary bits, the bits emitted so far, and the
/// adaptive model.
#[verifier::ext_equal]
pub struct EncState {
    pub low: int,
    pub high: int,
    pub pending: int,
    pub bits: Seq<bool>,
    pub model: ModelState,
}

/// Result of running encoder renormalization to completion.
#[verifier::ext_equal]
pub struct EncRenorm {
    pub low: int,
    pub high: int,
    pub pending: int,
    pub bits: Seq<bool>,
}

/// Decoder state carried from symbol to symbol: the interval, the 32-bit
/// window into the incoming bits, the next bit position, the model, and the
/// symbols produced so far.
#[verifier::ext_equal]
pub struct DecState {
    pub low: int,
    pub high: int,
    pub value: int,
    pub pos: int,
    pub model: ModelState,
    pub out: Seq<u8>,
}

/// Result of running decoder renormalization to completion.
#[verifier::ext_equal]
pub struct DecRenorm {
    pub low: int,
    pub high: int,
    pub value: int,
    pub pos: int,
}

/// `n` copies of one bit.
pub open spec fn repeat_bit(b: bool, n: int) -> Seq<bool> {
    Seq::new(if n >= 0 { n as nat } else { 0 }, |i: int| b)
}

/// Whether one of the three renormalization cases applies: the interval
/// lies in the lower half, in the upper half, or hugs the midpoint.
pub open spec fn can_renorm(low: int, high: int) -> bool {
    high < HALF || low >= HALF || (low >= QUARTER && high < THREE_QUARTERS)
}

/// Encoder renormalization run to completion. Lower half: emit a zero and
/// the deferred ones. Upper half: emit a one and the deferred zeros.
/// Underflow: defer one more bit. Each case doubles the interval, keeping
/// `high`'s fresh low bit set.
pub open spec fn enc_renorm(low: int, high: int, pending: int, bits: Seq<bool>) -> EncRenorm
    decreases 0x100000000 - (high - low),
{
    if 0 <= low <= high < 0x100000000 && can_renorm(low, high) {
        if high < HALF {
            enc_renorm(2 * low, 2 * high + 1, 0, bits + seq![false] + repeat_bit(true, pending))
        } else if low >= HALF {
            enc_renorm(
                2 * (low - HALF),
                2 * (high - HALF) + 1,
                0,
                bits + seq![true] + repeat_bit(false, pending),
            )
        } else {
            enc_renorm(2 * (low - QUARTER), 2 * (high - QUARTER) + 1, pending + 1, bits)
        }
    } else {
        EncRenorm { low, high, pending, bits }
    }
}

/// One encoding step: narrow the interval to symbol `sym`'s share of the
/// cumulative table, renormalize, then let the model observe the symbol.
pub open spec fn enc_step(st: EncState, sym: int) -> EncState {
    let range = st.high - st.low + 1;
    let h2 = st.low + range * st.model.pro[sym + 1] / st.model.sum - 1;
    let l2 = st.low + range * st.model.pro[sym] / st.model.sum;
    let rn = enc_renorm(l2, h2, st.pending, st.bits);
    EncState {
        low: rn.low,
        high: rn.high,
        pending: rn.pending,
        bits: rn.bits,
        model: observe(st.model, sym),
    }
}

/// Encoder state at the start of a session.
pub open spec fn init_enc() -> EncState {
    EncState {
        low: 0,
        high: 0xFFFFFFFF,
        pending: 0,
        bits: Seq::empty(),
        model: init_model(),
    }
}

/// Encoder state after processing the symbols of `data` from index `i` on.
pub open spec fn enc_from(data: Seq<u8>, i: int, st: EncState) -> EncState
    decreases data.len() - i,
{
    if 0 <= i < data.len() {
        enc_from(data, i + 1, enc_step(st, data[i] as int))
    } else {
        st
    }
}

/// The complete bit sequence the encoder emits for `data`: every symbol
/// step in order, then the single flush bit.
pub open spec fn spec_encode_bits(data: Seq<u8>) -> Seq<bool> {
    enc_from(data, 0, init_enc()).bits.push(true)
}

/// The linear symbol search the decoder performs: the first symbol whose
/// sub-interval's upper bound reaches `value`, or 255 if none does.
pub open spec fn sym_search(low: int, range: int, value: int, m: ModelState, i: int) -> int
    decreases 256 - i,
{
    if 1 <= i <= 255 {
        if value <= low + range * m.pro[i] / m.sum - 1 {
            i - 1
        } else {
            sym_search(low, range, value, m, i + 1)
        }
    } else {
        255
    }
}

/// Decoder renormalization run to completion: the same three interval cases
/// as the encoder, with the 32-bit window shifted alongside and fed from
/// the bit buffer (zero once it is exhausted).
pub open spec fn dec_renorm(low: int, high: int, value: int, data: Seq<u8>, pos: int) -> DecRenorm
    decreases 0x100000000 - (high - low),
{
    if 0 <= low <= high < 0x100000000 && can_renorm(low, high) {
        let b: int = if stream_bit(data, pos) {
            1
        } else {
            0
        };
        let np = stream_next(data, pos);
        if high < HALF {
            dec_renorm(2 * low, 2 * high + 1, 2 * value + b, data, np)
        } else if low >= HALF {
            dec_renorm(2 * (low - HALF), 2 * (high - HALF) + 1, 2 * (value - HALF) + b, data, np)
        } else {
            dec_renorm(
                2 * (low - QUARTER),
                2 * (high - QUARTER) + 1,
                2 * (value - QUARTER) + b,
                data,
                np,
            )
        }
    } else {
        DecRenorm { low, high, value, pos }
    }
}

/// The 32-bit window seeded from the first `n` stream bits, most
/// significant first.
pub open spec fn init_value(data: Seq<u8>, n: int) -> int
    decreases n,
{
    if n <= 0 {
        0
    } else {
        2 * init_value(data, n - 1) + if stream_bit(data, n - 1) {
            1int
        } else {
            0int
        }
    }
}

/// Read position after `n` sequential reads: it saturates at the buffer
/// end.
pub open spec fn pos_after(data: Seq<u8>, n: int) -> int {
    if n <= data.len() * 8 {
        n
    } else {
        data.len() * 8 as int
    }
}

/// Decoder state at the start of a session, after seeding the window with
/// the first 32 stream bits.
pub open spec fn init_dec(data: Seq<u8>) -> DecState {
    DecState {
        low: 0,
        high: 0xFFFFFFFF,
        value: init_value(data, 32),
        pos: pos_after(data, 32),
        model: init_model(),
        out: Seq::empty(),
    }
}

/// Decoder run until `chars` symbols are out: find the symbol whose
/// sub-interval holds the window, narrow exactly as the encoder did, and —
/// except after the last symbol — renormalize and let the model observe.
pub open spec fn dec_from(data: Seq<u8>, chars: int, st: DecState) -> DecState
    decreases chars - st.out.len(),
{
    if st.out.len() < chars {
        let range = st.high - st.low + 1;
        let c = sym_search(st.low, range, st.value, st.model, 1);
        let h2 = st.low + range * st.model.pro[c + 1] / st.model.sum - 1;
        let l2 = st.low + range * st.model.pro[c] / st.model.sum;
        let out2 = st.out.push(c as u8);
        if out2.len() >= chars {
            DecState {
                low: l2,
                high: h2,
                value: st.value,
                pos: st.pos,
                model: st.model,
                out: out2,
            }
        } else {
            let rn = dec_renorm(l2, h2, st.value, data, st.pos);
            dec_from(
                data,
                chars,
                DecState {
                    low: rn.low,
                    high: rn.high,
                    value: rn.value,
                    pos: rn.pos,
                    model: observe(st.model, c),
                    out: out2,
                },
            )
        }
    } else {
        st
    }
}

/// The byte sequence the decoder reconstructs from the bit buffer `data`
/// and the out-of-band symbol count `chars`.
pub open spec fn spec_decode(data: Seq<u8>, chars: int) -> Seq<u8> {
    dec_from(data, chars, init_dec(data)).out
}

/// With a valid model and a renormalized range, each symbol's sub-interval
/// is non-empty and all of them tile `[low, low + range)` in order.
proof fn lemma_narrow(low: int, range: int, m: ModelState, c: int)
    requires
        model_valid(m),
        0 <= c < 256,
        range >= m.sum + 1,
    ensures
        0 <= range * m.pro[c] / m.sum,
        range * m.pro[c] / m.sum + 1 <= range * m.pro[c + 1] / m.sum,
        range * m.pro[c + 1] / m.sum <= range,
        0 <= m.pro[c],
        m.pro[c] < m.pro[c + 1] <= m.sum,
{
    lemma_pro_gap(m.pro, 0, c);
    lemma_pro_gap(m.pro, c + 1, 256);
    lemma_mul_nonnegative(range, m.pro[c]);
    lemma_div_pos_is_pos(range * m.pro[c], m.sum);
    // range * pro[c+1] >= range * pro[c] + range >= range * pro[c] + sum
    assert(range * m.pro[c + 1] >= range * m.pro[c] + range) by {
        lemma_mul_is_distributive_add_other_way(range, m.pro[c], 1);
        lemma_mul_inequality(m.pro[c] + 1, m.pro[c + 1], range);
        lemma_mul_is_commutative(m.pro[c] + 1, range);
        lemma_mul_is_commutative(m.pro[c + 1], range);
    }
    assert((m.sum + range * m.pro[c]) / m.sum == 1 + range * m.pro[c] / m.sum) by {
        lemma_div_plus_one(range * m.pro[c], m.sum);
    }
    lemma_div_is_ordered(m.sum + range * m.pro[c], range * m.pro[c + 1], m.sum);
    // range * pro[c+1] <= range * sum
    assert(range * m.pro[c + 1] <= range * m.sum) by {
        lemma_mul_inequality(m.pro[c + 1], m.sum, range);
        lemma_mul_is_commutative(m.pro[c + 1], range);
        lemma_mul_is_commutative(m.sum, range);
    }
    lemma_div_is_ordered(range * m.pro[c + 1], range * m.sum, m.sum);
    assert(range * m.sum / m.sum == range) by {
        lemma_div_multiples_vanish(range, m.sum);
        lemma_mul_is_commutative(range, m.sum);
    }
}

/// The symbol the search returns indeed owns the sub-interval containing
/// the window value.
proof fn lemma_sym_search_brackets(low: int, range: int, value: int, m: ModelState, i: int)
    requires
        model_valid(m),
        range >= m.sum + 1,
        1 <= i <= 256,
        low + range * m.pro[i - 1] / m.sum <= value,
        value <= low + range - 1,
    ensures
        i - 1 <= sym_search(low, range, value, m, i) <= 255,
        low + range * m.pro[sym_search(low, range, value, m, i)] / m.sum <= value,
        value <= low + range * m.pro[sym_search(low, range, value, m, i) + 1] / m.sum - 1,
    decreases 256 - i,
{
    if i <= 255 {
        if value <= low + range * m.pro[i] / m.sum - 1 {
        } else {
            lemma_sym_search_brackets(low, range, value, m, i + 1);
        }
    } else {
        // the last symbol: its upper bound is the full range
        assert(range * m.pro[256] / m.sum == range) by {
            lemma_div_multiples_vanish(range, m.sum);
            lemma_mul_is_commutative(range, m.sum);
        }
    }
}

/// Leaving the renormalization loop means the interval is again wide: more
/// than a quarter of the working range.
proof fn lemma_renorm_exit(low: int, high: int)
    requires
        0 <= low <= high < 0x100000000,
        !can_renorm(low, high),
    ensures
        high - low >= 0x40000001,
{
}

/// Powers of two are monotone in the exponent.
proof fn lemma_pow2_le(e1: nat, e2: nat)
    requires
        e1 <= e2,
    ensures
        pow2(e1) <= pow2(e2),
{
    if e1 < e2 {
        lemma_pow2_strictly_increases(e1, e2);
    }
}

/// The window seeded from `n` bits is a non-negative `n`-bit number.
proof fn lemma_init_value_bound(data: Seq<u8>, n: int)
    requires
        0 <= n,
    ensures
        0 <= init_value(data, n) < pow2(n as nat),
    decreases n,
{
    if n > 0 {
        lemma_init_value_bound(data, n - 1);
        lemma_pow2_adds((n - 1) as nat, 1);
        lemma2_to64();
    } else {
        lemma2_to64();
    }
}

impl Code {
    /// The symbol whose current sub-interval contains `val`, found by a
    /// linear scan of the cumulative table.
    pub fn get_code(low: u32, high: u32, val: u32, prob: &Probabilities) -> (r: u8)
        requires
            prob.wf(),
            low <= val <= high,
            high as int - low as int >= prob.sum,
        ensures
            r as int == sym_search(
                low as int,
                high as int - low as int + 1,
                val as int,
                prob.abs(),
                1,
            ),
    {
        proof {
            prob.lemma_abs_valid();
        }
        let ghost m = prob.abs();
        let ghost rg = high as int - low as int + 1;
        let range: u64 = high as u64 - low as u64 + 1;
        let mut i: usize = 1;
        while i <= 255
            invariant
                1 <= i <= 256,
                prob.wf(),
                model_valid(m),
                m == prob.abs(),
                range == rg,
                rg == high as int - low as int + 1,
                rg >= m.sum + 1,
                low <= val <= high,
                sym_search(low as int, rg, val as int, m, 1) == sym_search(
                    low as int,
                    rg,
                    val as int,
                    m,
                    i as int,
                ),
            decreases 256 - i,
        {
            proof {
                lemma_narrow(low as int, rg, m, i as int - 1);
                lemma_narrow(low as int, rg, m, i as int);
                lemma_pro_gap(m.pro, i as int, 256);
                assert(m.pro[i as int] == prob.pro@[i as int] as int);
                assert(m.pro[256] == prob.pro@[256] as int);
                assert(range * prob.pro@[i as int] as int <= 0x100000000 * PRECISION) by {
                    lemma_mul_upper_bound(
                        range as int,
                        0x100000000,
                        prob.pro@[i as int] as int,
                        PRECISION as int,
                    );
                }
                assert((rg * m.pro[i as int]) / m.sum >= 1);
                assert((rg * m.pro[i as int]) / m.sum <= rg);
            }
            if (val as u64) <= (low as u64) + (range * prob.pro[i]) / prob.sum - 1 {
                return (i - 1) as u8;
            }
            i = i + 1;
        }
        255
    }

    /// Encode `data`: for each byte in order, narrow the working interval
    /// to that symbol's share of the model, renormalize (emitting bits),
    /// and let the model observe the symbol; finish with the single flush
    /// bit. The result carries exactly the emitted bits and the symbol
    /// count, as `spec_encode_bits` describes.
    ///
    /// One symbol never fills more than 32 bit slots (emitted or deferred),
    /// so the precondition keeps the bit buffer's write index within
    /// `usize`.
    pub fn encode(data: &[u8]) -> (c: Code)
        requires
            data@.len() * 32 + 64 <= usize::MAX,
        ensures
            c.wf(),
            c.chars == data@.len(),
            c.read_index == 0,
            c.bits() == spec_encode_bits(data@),
            c.write_index == spec_encode_bits(data@).len(),
    {
        let ghost dseq = data@;
        let mut prob = Probabilities::new();
        let mut code = Code::new();
        code.chars = data.len();
        let mut high: u32 = 0xFFFFFFFF;
        let mut low: u32 = 0;
        let mut pending_bits: usize = 0;
        let mut i: usize = 0;
        proof {
            assert(EncState {
                low: low as int,
                high: high as int,
                pending: pending_bits as int,
                bits: code.bits(),
                model: prob.abs(),
            } =~= init_enc());
            lemma_sum_prefix_zero(prob.abs().temp, 256);
        }
        while i < data.len()
            invariant
                i <= dseq.len(),
                data@ == dseq,
                dseq.len() * 32 + 64 <= usize::MAX,
                prob.wf(),
                code.wf(),
                code.read_index == 0,
                code.chars == dseq.len(),
                low <= high,
                high as int - low as int + 1 >= PRECISION + 2,
                sum_prefix(prob.abs().temp, 256) == i,
                code.bits().len() + pending_bits as int <= 32 * i,
                enc_from(dseq, 0, init_enc()) == enc_from(
                    dseq,
                    i as int,
                    EncState {
                        low: low as int,
                        high: high as int,
                        pending: pending_bits as int,
                        bits: code.bits(),
                        model: prob.abs(),
                    },
                ),
            decreases dseq.len() - i,
        {
            let c_sym: usize = data[i] as usize;
            let ghost st0 = EncState {
                low: low as int,
                high: high as int,
                pending: pending_bits as int,
                bits: code.bits(),
                model: prob.abs(),
            };
            let ghost m = prob.abs();
            let ghost rg = high as int - low as int + 1;
            proof {
                prob.lemma_abs_valid();
                lemma_narrow(low as int, rg, m, c_sym as int);
                assert(m.pro[c_sym as int] == prob.pro@[c_sym as int] as int);
                assert(m.pro[c_sym as int + 1] == prob.pro@[c_sym as int + 1] as int);
                assert(rg * m.pro[c_sym as int + 1] <= 0x100000000 * (PRECISION as int)) by {
                    lemma_mul_upper_bound(rg, 0x100000000, m.pro[c_sym as int + 1], PRECISION as int);
                }
                assert(0 <= rg * m.pro[c_sym as int] <= 0x100000000 * (PRECISION as int)) by {
                    lemma_mul_nonnegative(rg, m.pro[c_sym as int]);
                    lemma_mul_upper_bound(rg, 0x100000000, m.pro[c_sym as int], PRECISION as int);
                }
            }
            let range: u64 = high as u64 - low as u64 + 1;
            let nh64: u64 = low as u64 + (range * prob.pro[c_sym + 1]) / prob.sum - 1;
            let nl64: u64 = low as u64 + (range * prob.pro[c_sym]) / prob.sum;
            proof {
                assert(nh64 as int == st0.low + rg * m.pro[c_sym as int + 1] / m.sum - 1);
                assert(nl64 as int == st0.low + rg * m.pro[c_sym as int] / m.sum);
                assert(nh64 <= high);
                assert(nl64 <= nh64);
            }
            high = nh64 as u32;
            low = nl64 as u32;
            let ghost l2 = low as int;
            let ghost h2 = high as int;
            let ghost p0 = pending_bits as int;
            let ghost b0 = code.bits();
            let ghost mut j: int = 0;
            proof {
                lemma2_to64();
            }
            loop
                invariant
                    low <= high,
                    code.wf(),
                    code.read_index == 0,
                    code.chars == dseq.len(),
                    dseq.len() * 32 + 64 <= usize::MAX,
                    i < dseq.len(),
                    0 <= j <= 32,
                    pow2(j as nat) <= high as int - low as int + 1,
                    code.bits().len() + pending_bits as int == b0.len() + p0 + j,
                    b0.len() + p0 <= 32 * i,
                    enc_renorm(l2, h2, p0, b0) == enc_renorm(
                        low as int,
                        high as int,
                        pending_bits as int,
                        code.bits(),
                    ),
                ensures
                    low <= high,
                    code.wf(),
                    code.read_index == 0,
                    code.chars == dseq.len(),
                    code.bits().len() + pending_bits as int <= b0.len() + p0 + 32,
                    b0.len() + p0 <= 32 * i,
                    !can_renorm(low as int, high as int),
                    enc_renorm(l2, h2, p0, b0) == enc_renorm(
                        low as int,
                        high as int,
                        pending_bits as int,
                        code.bits(),
                    ),
                decreases 0x100000000 - (high as int - low as int),
            {
                proof {
                    lemma2_to64();
                }
                if high < HALF {
                    proof {
                        if j > 31 {
                            lemma_pow2_le(32, j as nat);
                            assert(false);
                        }
                        lemma_pow2_adds(j as nat, 1);
                    }
                    let ghost bpre = code.bits();
                    let ghost ppre = pending_bits as int;
                    code.add_bit(false);
                    let ghost bb = code.bits();
                    let mut pb: usize = pending_bits;
                    while pb > 0
                        invariant
                            pb <= ppre,
                            pending_bits as int == ppre,
                            code.wf(),
                            code.read_index == 0,
                            code.chars == dseq.len(),
                            dseq.len() * 32 + 64 <= usize::MAX,
                            bb.len() + ppre <= 32 * i + 33,
                            i < dseq.len(),
                            code.bits() == bb + repeat_bit(true, ppre - pb),
                        decreases pb,
                    {
                        proof {
                            assert((bb + repeat_bit(true, ppre - pb)).push(true) =~= bb
                                + repeat_bit(true, ppre - pb + 1));
                        }
                        code.add_bit(true);
                        pb = pb - 1;
                    }
                    pending_bits = 0;
                    low = low * 2;
                    high = high * 2 + 1;
                    proof {
                        j = j + 1;
                        assert(code.bits() =~= bpre + seq![false] + repeat_bit(true, ppre));
                    }
                } else if low >= HALF {
                    proof {
                        if j > 31 {
                            lemma_pow2_le(32, j as nat);
                            assert(false);
                        }
                        lemma_pow2_adds(j as nat, 1);
                    }
                    let ghost bpre = code.bits();
                    let ghost ppre = pending_bits as int;
                    code.add_bit(true);
                    let ghost bb = code.bits();
                    let mut pb: usize = pending_bits;
                    while pb > 0
                        invariant
                            pb <= ppre,
                            pending_bits as int == ppre,
                            code.wf(),
                            code.read_index == 0,
                            code.chars == dseq.len(),
                            dseq.len() * 32 + 64 <= usize::MAX,
                            bb.len() + ppre <= 32 * i + 33,
                            i < dseq.len(),
                            code.bits() == bb + repeat_bit(false, ppre - pb),
                        decreases pb,
                    {
                        proof {
                            assert((bb + repeat_bit(false, ppre - pb)).push(false) =~= bb
                                + repeat_bit(false, ppre - pb + 1));
                        }
                        code.add_bit(false);
                        pb = pb - 1;
                    }
                    pending_bits = 0;
                    low = (low - HALF) * 2;
                    high = (high - HALF) * 2 + 1;
                    proof {
                        j = j + 1;
                        assert(code.bits() =~= bpre + seq![true] + repeat_bit(false, ppre));
                    }
                } else if low >= QUARTER && high < THREE_QUARTERS {
                    proof {
                        if j > 31 {
                            lemma_pow2_le(32, j as nat);
                            assert(false);
                        }
                        lemma_pow2_adds(j as nat, 1);
                        assert(pending_bits as int + 1 <= 32 * i + 32);
                    }
                    pending_bits = pending_bits + 1;
                    low = (low - QUARTER) * 2;
                    high = (high - QUARTER) * 2 + 1;
                    proof {
                        j = j + 1;
                    }
                } else {
                    break;
                }
            }
            proof {
                lemma_renorm_exit(low as int, high as int);
                let stepped = enc_step(st0, dseq[i as int] as int);
                assert(enc_renorm(low as int, high as int, pending_bits as int, code.bits())
                    == EncRenorm {
                    low: low as int,
                    high: high as int,
                    pending: pending_bits as int,
                    bits: code.bits(),
                });
                lemma_sum_prefix_elem(m.temp, c_sym as int, 256);
                assert(prob.temp@[c_sym as int] as int == m.temp[c_sym as int]);
                assert(prob.temp@[c_sym as int] < u64::MAX);
            }
            let ghost tpre = prob.abs().temp;
            prob.add(c_sym);
            proof {
                crate::model::lemma_sum_prefix_update(
                    tpre,
                    c_sym as int,
                    tpre[c_sym as int] + 1,
                    256,
                );
            }
            i = i + 1;
            proof {
                let cur = EncState {
                    low: low as int,
                    high: high as int,
                    pending: pending_bits as int,
                    bits: code.bits(),
                    model: prob.abs(),
                };
                assert(enc_step(st0, dseq[i - 1] as int) =~= cur);
                assert(enc_from(dseq, i - 1, st0) == enc_from(dseq, i as int, cur));
            }
        }
        proof {
            let cur = EncState {
                low: low as int,
                high: high as int,
                pending: pending_bits as int,
                bits: code.bits(),
                model: prob.abs(),
            };
            assert(enc_from(dseq, i as int, cur) == cur);
            assert(enc_from(dseq, 0, init_enc()).bits == code.bits());
        }
        code.add_bit(true);
        proof {
            assert(code.bits() == spec_encode_bits(dseq));
        }
        code
    }

    /// Decode the buffer's `chars` symbols: seed the 32-bit window from the
    /// first bits, then repeatedly pick the symbol whose sub-interval holds
    /// the window, narrow exactly as the encoder did, renormalize pulling
    /// fresh bits (zeros once the buffer is exhausted), and let the model
    /// observe. The loop is count-driven: exactly `chars` symbols come out,
    /// as `spec_decode` describes.
    pub fn decode(&mut self) -> (res: Vec<u8>)
        requires
            old(self).wf(),
            old(self).read_index == 0,
            old(self).write_index == old(self).data@.len() * 8,
            old(self).data@.len() * 8 <= usize::MAX,
        ensures
            res@ == spec_decode(old(self).data@, old(self).chars as int),
            res@.len() == old(self).chars,
            final(self).data@ == old(self).data@,
            final(self).write_index == old(self).write_index,
            final(self).chars == old(self).chars,
            final(self).read_index <= final(self).data@.len() * 8,
    {
        let ghost dat = old(self).data@;
        let ghost chars0 = old(self).chars as int;
        let mut prob = Probabilities::new();
        let mut res: Vec<u8> = Vec::new();
        let mut high: u32 = 0xFFFFFFFF;
        let mut low: u32 = 0;
        let mut value: u32 = 0;
        let mut k: usize = 0;
        while k < 32
            invariant
                k <= 32,
                self.data@ == dat,
                self.write_index == old(self).write_index,
                self.chars == old(self).chars,
                self.data@.len() * 8 <= usize::MAX,
                self.read_index as int == pos_after(dat, k as int),
                value as int == init_value(dat, k as int),
            decreases 32 - k,
        {
            proof {
                lemma_init_value_bound(dat, k as int);
                lemma_pow2_le(k as nat, 31);
                lemma2_to64();
            }
            let b = self.get_bit_and_shift();
            value = value * 2 + if b {
                1
            } else {
                0
            };
            k = k + 1;
        }
        proof {
            lemma_init_value_bound(dat, 32);
            lemma2_to64();
            lemma_sum_prefix_zero(prob.abs().temp, 256);
            assert(DecState {
                low: low as int,
                high: high as int,
                value: value as int,
                pos: self.read_index as int,
                model: prob.abs(),
                out: res@,
            } =~= init_dec(dat));
        }
        while res.len() < self.chars
            invariant
                res@.len() <= self.chars,
                self.data@ == dat,
                self.write_index == old(self).write_index,
                self.chars == old(self).chars,
                self.chars == chars0,
                self.data@.len() * 8 <= usize::MAX,
                self.read_index <= self.data@.len() * 8,
                prob.wf(),
                low <= value <= high,
                res@.len() < chars0 ==> high as int - low as int + 1 >= PRECISION + 2,
                res@.len() < chars0 ==> sum_prefix(prob.abs().temp, 256) == res@.len(),
                dec_from(dat, chars0, init_dec(dat)) == dec_from(
                    dat,
                    chars0,
                    DecState {
                        low: low as int,
                        high: high as int,
                        value: value as int,
                        pos: self.read_index as int,
                        model: prob.abs(),
                        out: res@,
                    },
                ),
            decreases chars0 - res@.len(),
        {
            let ghost st0 = DecState {
                low: low as int,
                high: high as int,
                value: value as int,
                pos: self.read_index as int,
                model: prob.abs(),
                out: res@,
            };
            let ghost m = prob.abs();
            let ghost rg = high as int - low as int + 1;
            proof {
                prob.lemma_abs_valid();
                assert(rg * m.pro[0] == 0);
                vstd::arithmetic::div_mod::lemma_div_of0(m.sum);
                lemma_sym_search_brackets(low as int, rg, value as int, m, 1);
            }
            let c = Self::get_code(low, high, value, &prob);
            let ghost cs = sym_search(low as int, rg, value as int, m, 1);
            proof {
                lemma_narrow(low as int, rg, m, cs);
                assert(m.pro[cs] == prob.pro@[cs] as int);
                assert(m.pro[cs + 1] == prob.pro@[cs + 1] as int);
                assert(rg * m.pro[cs + 1] <= 0x100000000 * (PRECISION as int)) by {
                    lemma_mul_upper_bound(rg, 0x100000000, m.pro[cs + 1], PRECISION as int);
                }
                assert(0 <= rg * m.pro[cs] <= 0x100000000 * (PRECISION as int)) by {
                    lemma_mul_nonnegative(rg, m.pro[cs]);
                    lemma_mul_upper_bound(rg, 0x100000000, m.pro[cs], PRECISION as int);
                }
            }
            res.push(c);
            let range: u64 = high as u64 - low as u64 + 1;
            let nh64: u64 = low as u64 + (range * prob.pro[c as usize + 1]) / prob.sum - 1;
            let nl64: u64 = low as u64 + (range * prob.pro[c as usize]) / prob.sum;
            proof {
                assert(nh64 as int == st0.low + rg * m.pro[cs + 1] / m.sum - 1);
                assert(nl64 as int == st0.low + rg * m.pro[cs] / m.sum);
                assert(nh64 <= high);
                assert(nl64 <= value as u64 <= nh64);
            }
            high = nh64 as u32;
            low = nl64 as u32;
            if res.len() < self.chars {
                let ghost l2 = low as int;
                let ghost h2 = high as int;
                let ghost v0 = value as int;
                let ghost q0 = self.read_index as int;
                loop
                    invariant
                        low <= value <= high,
                        self.data@ == dat,
                        self.write_index == old(self).write_index,
                        self.chars == old(self).chars,
                        self.chars == chars0,
                        self.data@.len() * 8 <= usize::MAX,
                        self.read_index <= self.data@.len() * 8,
                        dec_renorm(l2, h2, v0, dat, q0) == dec_renorm(
                            low as int,
                            high as int,
                            value as int,
                            dat,
                            self.read_index as int,
                        ),
                    ensures
                        low <= value <= high,
                        self.data@ == dat,
                        self.write_index == old(self).write_index,
                        self.chars == old(self).chars,
                        self.read_index <= self.data@.len() * 8,
                        !can_renorm(low as int, high as int),
                        dec_renorm(l2, h2, v0, dat, q0) == dec_renorm(
                            low as int,
                            high as int,
                            value as int,
                            dat,
                            self.read_index as int,
                        ),
                    decreases 0x100000000 - (high as int - low as int),
                {
                    if high < HALF {
                        let b = self.get_bit_and_shift();
                        value = value * 2 + if b {
                            1
                        } else {
                            0
                        };
                        low = low * 2;
                        high = high * 2 + 1;
                    } else if low >= HALF {
                        let b = self.get_bit_and_shift();
                        value = (value - HALF) * 2 + if b {
                            1
                        } else {
                            0
                        };
                        low = (low - HALF) * 2;
                        high = (high - HALF) * 2 + 1;
                    } else if low >= QUARTER && high < THREE_QUARTERS {
                        let b = self.get_bit_and_shift();
                        value = (value - QUARTER) * 2 + if b {
                            1
                        } else {
                            0
                        };
                        low = (low - QUARTER) * 2;
                        high = (high - QUARTER) * 2 + 1;
                    } else {
                        break;
                    }
                }
                proof {
                    lemma_renorm_exit(low as int, high as int);
                    assert(dec_renorm(
                        low as int,
                        high as int,
                        value as int,
                        dat,
                        self.read_index as int,
                    ) == DecRenorm {
                        low: low as int,
                        high: high as int,
                        value: value as int,
                        pos: self.read_index as int,
                    });
                    lemma_sum_prefix_elem(m.temp, cs, 256);
                    assert(prob.temp@[cs] as int == m.temp[cs]);
                    assert(prob.temp@[cs] < u64::MAX);
                }
                let ghost tpre = prob.abs().temp;
                prob.add(c as usize);
                proof {
                    crate::model::lemma_sum_prefix_update(tpre, cs, tpre[cs] + 1, 256);
                }
            }
            proof {
                let cur = DecState {
                    low: low as int,
                    high: high as int,
                    value: value as int,
                    pos: self.read_index as int,
                    model: prob.abs(),
                    out: res@,
                };
                if res@.len() >= chars0 {
                    assert(dec_from(dat, chars0, st0) == cur);
                    assert(dec_from(dat, chars0, cur) == cur);
                } else {
                    assert(dec_from(dat, chars0, st0) == dec_from(dat, chars0, cur));
                }
            }
        }
        proof {
            assert(res@ == spec_decode(dat, chars0));
        }
        res
    }
}

/// Encoding is deterministic: two coded sequences built for the same input
/// carry the same bits, and because well-formed buffers pack bits uniquely,
/// their byte buffers — and so their persisted artifacts — are identical.
pub proof fn lemma_encode_deterministic(a: Code, b: Code, data: Seq<u8>)
    requires
        a.wf(),
        b.wf(),
        a.bits() == spec_encode_bits(data),
        b.bits() == spec_encode_bits(data),
        a.write_index == spec_encode_bits(data).len(),
        b.write_index == spec_encode_bits(data).len(),
        a.chars == data.len(),
        b.chars == data.len(),
    ensures
        a.data@ == b.data@,
        spec_serialize(a.data@, a.chars as int) == spec_serialize(b.data@, b.chars as int),
{
    lemma_bits_determine_data(a, b);
}

/// Decoding is deterministic: the reconstructed byte sequence is a function
/// of the artifact's bit bytes and symbol count alone.
pub proof fn lemma_decode_deterministic(r1: Seq<u8>, r2: Seq<u8>, data: Seq<u8>, chars: int)
    requires
        r1 == spec_decode(data, chars),
        r2 == spec_decode(data, chars),
    ensures
        r1 == r2,
{
}

} // verus!
