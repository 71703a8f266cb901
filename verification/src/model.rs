//! The adaptive probability model: a cumulative-frequency table over the
//! 256-symbol alphabet, rebuilt from lifetime counts every `CYCLE` symbols.

use vstd::prelude::*;
use vstd::arithmetic::div_mod::{
    lemma_div_is_ordered, lemma_div_multiples_vanish, lemma_div_of0, lemma_div_pos_is_pos,
    lemma_fundamental_div_mod, lemma_fundamental_div_mod_converse_div, lemma_mod_bound,
};
use vstd::arithmetic::mul::{
    lemma_mul_inequality, lemma_mul_is_commutative, lemma_mul_is_distributive_add,
    lemma_mul_is_distributive_add_other_way, lemma_mul_nonnegative, lemma_mul_upper_bound,
};

verus! {

/// Denominator of all probabilities after the first rescale (2^30).
pub const PRECISION: u64 = 1073741824;

/// Number of observed symbols between two rescales.
pub const CYCLE: u64 = 64;

/// Mathematical state of the adaptive model. `pro` is the cumulative table
/// (257 entries, `pro[s]..pro[s+1]` is symbol `s`'s sub-interval), `temp`
/// holds the lifetime occurrence counts, `sum` the common denominator, and
/// `cycle` the number of symbols observed since the last rescale.
#[verifier::ext_equal]
pub struct ModelState {
    pub sum: int,
    pub pro: Seq<int>,
    pub temp: Seq<int>,
    pub cycle: int,
}

/// Sum of the first `n` entries of `s`.
pub open spec fn sum_prefix(s: Seq<int>, n: int) -> int
    decreases n,
{
    if n <= 0 {
        0
    } else {
        sum_prefix(s, n - 1) + s[n - 1]
    }
}

/// The uniform cumulative table the model starts from: `pro[i] == i`.
pub open spec fn uniform_pro() -> Seq<int> {
    Seq::new(257, |i: int| i)
}

/// Model state at the start of an encode or decode session.
pub open spec fn init_model() -> ModelState {
    ModelState {
        sum: 256,
        pro: uniform_pro(),
        temp: Seq::new(256, |i: int| 0),
        cycle: 0,
    }
}

/// Frequencies before deficit correction: each lifetime count scaled so the
/// total approaches `PRECISION - 256`, plus one so no symbol has frequency 0.
pub open spec fn scale_base(temp: Seq<int>) -> Seq<int> {
    let s = sum_prefix(temp, 256);
    Seq::new(256, |i: int| temp[i] * (PRECISION - 256) / s + 1)
}

/// What the truncating divisions left short of `PRECISION`.
pub open spec fn scale_deficit(temp: Seq<int>) -> int {
    PRECISION - sum_prefix(scale_base(temp), 256)
}

/// Final per-symbol frequencies: the deficit is given out, one unit each, to
/// the first symbols in index order.
pub open spec fn rescaled_freqs(temp: Seq<int>) -> Seq<int> {
    let d = scale_deficit(temp);
    Seq::new(256, |i: int| scale_base(temp)[i] + if i < d { 1int } else { 0int })
}

/// Cumulative table after a rescale of lifetime counts `temp`: the exclusive
/// prefix sums of `rescaled_freqs(temp)`.
pub open spec fn rescaled_pro(temp: Seq<int>) -> Seq<int> {
    Seq::new(257, |i: int| sum_prefix(rescaled_freqs(temp), i))
}

/// A rescale: the cumulative table is rebuilt from the lifetime counts and
/// the denominator becomes `PRECISION`; the counts themselves are kept.
pub open spec fn rescale(m: ModelState) -> ModelState {
    ModelState { sum: PRECISION as int, pro: rescaled_pro(m.temp), temp: m.temp, cycle: m.cycle }
}

/// One observation of symbol `sym`: the lifetime count rises by one, and on
/// every `CYCLE`-th observation the cumulative table is rebuilt.
pub open spec fn observe(m: ModelState, sym: int) -> ModelState {
    let t = m.temp.update(sym, m.temp[sym] + 1);
    if m.cycle + 1 >= CYCLE {
        ModelState { sum: PRECISION as int, pro: rescaled_pro(t), temp: t, cycle: 0 }
    } else {
        ModelState { sum: m.sum, pro: m.pro, temp: t, cycle: m.cycle + 1 }
    }
}

/// Model state after observing the symbols of `syms` in order, starting from
/// the initial uniform state.
pub open spec fn model_after(syms: Seq<int>) -> ModelState
    decreases syms.len(),
{
    if syms.len() == 0 {
        init_model()
    } else {
        observe(model_after(syms.drop_last()), syms.last())
    }
}

/// The first `n` entries of a sequence of non-negative values sum to a
/// non-negative total.
pub proof fn lemma_sum_prefix_nonneg(s: Seq<int>, n: int)
    requires
        0 <= n <= s.len(),
        forall|i: int| 0 <= i < s.len() ==> s[i] >= 0,
    ensures
        sum_prefix(s, n) >= 0,
    decreases n,
{
    if n > 0 {
        lemma_sum_prefix_nonneg(s, n - 1);
    }
}

/// The prefix sums of an all-zero sequence vanish.
pub proof fn lemma_sum_prefix_zero(s: Seq<int>, n: int)
    requires
        0 <= n <= s.len(),
        forall|i: int| 0 <= i < s.len() ==> s[i] == 0,
    ensures
        sum_prefix(s, n) == 0,
    decreases n,
{
    if n > 0 {
        lemma_sum_prefix_zero(s, n - 1);
    }
}

/// Prefix sums of a sequence of non-negative values grow with the prefix.
pub proof fn lemma_sum_prefix_mono(s: Seq<int>, a: int, b: int)
    requires
        0 <= a <= b <= s.len(),
        forall|i: int| 0 <= i < s.len() ==> s[i] >= 0,
    ensures
        sum_prefix(s, a) <= sum_prefix(s, b),
    decreases b,
{
    if b > a {
        lemma_sum_prefix_mono(s, a, b - 1);
    }
}

/// Each entry of a sequence of non-negative values is at most the sum of any
/// prefix containing it.
pub proof fn lemma_sum_prefix_elem(s: Seq<int>, i: int, n: int)
    requires
        0 <= i < n <= s.len(),
        forall|j: int| 0 <= j < s.len() ==> s[j] >= 0,
    ensures
        s[i] <= sum_prefix(s, n),
{
    lemma_sum_prefix_nonneg(s, i);
    assert(sum_prefix(s, i + 1) == sum_prefix(s, i) + s[i]);
    lemma_sum_prefix_mono(s, i + 1, n);
}

/// Overwriting one entry shifts a prefix sum by exactly the difference, and
/// only when the entry lies inside the prefix.
pub proof fn lemma_sum_prefix_update(s: Seq<int>, k: int, v: int, n: int)
    requires
        0 <= k < s.len(),
        0 <= n <= s.len(),
    ensures
        sum_prefix(s.update(k, v), n) == sum_prefix(s, n) + (if k < n {
            v - s[k]
        } else {
            0
        }),
    decreases n,
{
    if n > 0 {
        lemma_sum_prefix_update(s, k, v, n - 1);
    }
}

/// Truncating division loses at most the fractional parts: the sum of two
/// quotients is at most the quotient of the sum.
proof fn lemma_div_superadd(a: int, b: int, s: int)
    requires
        a >= 0,
        b >= 0,
        s >= 1,
    ensures
        a / s + b / s <= (a + b) / s,
{
    let qa = a / s;
    let qb = b / s;
    lemma_fundamental_div_mod(a, s);
    lemma_mod_bound(a, s);
    lemma_fundamental_div_mod(b, s);
    lemma_mod_bound(b, s);
    lemma_mul_is_distributive_add(s, qa, qb);
    assert(s * (qa + qb) <= a + b);
    lemma_div_is_ordered(s * (qa + qb), a + b, s);
    lemma_div_multiples_vanish(qa + qb, s);
}

/// The quotient of a sum exceeds the sum of the quotients by at most one.
proof fn lemma_div_subadd(a: int, b: int, s: int)
    requires
        a >= 0,
        b >= 0,
        s >= 1,
    ensures
        (a + b) / s <= a / s + b / s + 1,
{
    let qa = a / s;
    let qb = b / s;
    let ra = a % s;
    let rb = b % s;
    lemma_fundamental_div_mod(a, s);
    lemma_mod_bound(a, s);
    lemma_fundamental_div_mod(b, s);
    lemma_mod_bound(b, s);
    lemma_mul_is_distributive_add(s, qa, qb);
    lemma_mul_is_commutative(s, qa + qb);
    if ra + rb < s {
        lemma_fundamental_div_mod_converse_div(a + b, s, qa + qb, ra + rb);
    } else {
        lemma_mul_is_distributive_add(s, qa + qb, 1);
        lemma_mul_is_commutative(s, qa + qb + 1);
        lemma_fundamental_div_mod_converse_div(a + b, s, qa + qb + 1, ra + rb - s);
    }
}

/// Bounds on the partial sums of the scaled frequencies: the sum over the
/// first `n` symbols stays within `n` of the ideally scaled prefix total.
proof fn lemma_scale_base_sum(temp: Seq<int>, n: int)
    requires
        temp.len() == 256,
        forall|i: int| 0 <= i < 256 ==> temp[i] >= 0,
        sum_prefix(temp, 256) >= 1,
        0 <= n <= 256,
    ensures
        sum_prefix(scale_base(temp), n) <= sum_prefix(temp, n) * ((PRECISION - 256) as int)
            / sum_prefix(temp, 256) + n,
        n >= 1 ==> sum_prefix(scale_base(temp), n) >= sum_prefix(temp, n) * ((PRECISION
            - 256) as int) / sum_prefix(temp, 256) + 1,
    decreases n,
{
    let k = (PRECISION - 256) as int;
    let s = sum_prefix(temp, 256);
    if n == 0 {
        assert(sum_prefix(temp, 0) * k == 0);
        lemma_div_of0(s);
    } else {
        lemma_scale_base_sum(temp, n - 1);
        let tn = temp[n - 1];
        let t1 = sum_prefix(temp, n - 1);
        lemma_sum_prefix_nonneg(temp, n - 1);
        lemma_mul_nonnegative(t1, k);
        lemma_mul_nonnegative(tn, k);
        assert(scale_base(temp)[n - 1] == tn * k / s + 1);
        lemma_mul_is_distributive_add_other_way(k, t1, tn);
        assert(sum_prefix(temp, n) * k == t1 * k + tn * k);
        lemma_div_superadd(t1 * k, tn * k, s);
        lemma_div_subadd(t1 * k, tn * k, s);
        if n == 1 {
            lemma_div_of0(s);
            assert(sum_prefix(scale_base(temp), 1) == scale_base(temp)[0]);
        }
    }
}

/// Distributing the deficit adds exactly one to each of the first
/// `scale_deficit` entries, so a prefix sum rises by `min(n, deficit)`.
proof fn lemma_rescaled_freqs_sum(temp: Seq<int>, n: int)
    requires
        temp.len() == 256,
        0 <= n <= 256,
        0 <= scale_deficit(temp),
    ensures
        sum_prefix(rescaled_freqs(temp), n) == sum_prefix(scale_base(temp), n) + (if n
            <= scale_deficit(temp) {
            n
        } else {
            scale_deficit(temp)
        }),
    decreases n,
{
    if n > 0 {
        lemma_rescaled_freqs_sum(temp, n - 1);
    }
}

/// After a rescale the cumulative table is strictly increasing — every
/// symbol keeps a frequency of at least one — starts at zero, and its last
/// entry is exactly `PRECISION`. This holds for every history of lifetime
/// counts with at least one observation.
pub proof fn lemma_rescale_valid(temp: Seq<int>)
    requires
        temp.len() == 256,
        forall|i: int| 0 <= i < 256 ==> temp[i] >= 0,
        sum_prefix(temp, 256) >= 1,
    ensures
        rescaled_pro(temp).len() == 257,
        rescaled_pro(temp)[0] == 0,
        forall|i: int| 0 <= i < 256 ==> #[trigger] rescaled_pro(temp)[i] + 1 <= rescaled_pro(
            temp,
        )[i + 1],
        rescaled_pro(temp)[256] == PRECISION,
        0 <= scale_deficit(temp) <= 255,
        sum_prefix(rescaled_freqs(temp), 256) == PRECISION,
        forall|i: int| 0 <= i < 256 ==> 1 <= #[trigger] rescaled_freqs(temp)[i],
{
    let k = (PRECISION - 256) as int;
    let s = sum_prefix(temp, 256);
    lemma_scale_base_sum(temp, 256);
    lemma_div_multiples_vanish(k, s);
    assert(sum_prefix(temp, 256) * k == s * k) by {
        lemma_mul_is_commutative(s, k);
    }
    assert(sum_prefix(scale_base(temp), 256) <= k + 256);
    assert(sum_prefix(scale_base(temp), 256) >= k + 1);
    lemma_rescaled_freqs_sum(temp, 256);
    assert forall|i: int| 0 <= i < 256 implies 1 <= #[trigger] rescaled_freqs(temp)[i] by {
        lemma_mul_nonnegative(temp[i], k);
        lemma_div_pos_is_pos(temp[i] * k, s);
    }
    assert forall|i: int| 0 <= i < 256 implies #[trigger] rescaled_pro(temp)[i] + 1
        <= rescaled_pro(temp)[i + 1] by {
        assert(sum_prefix(rescaled_freqs(temp), i + 1) == sum_prefix(rescaled_freqs(temp), i)
            + rescaled_freqs(temp)[i]);
    }
}

/// Validity of a mathematical model state: the cumulative table is strictly
/// increasing from 0 to `sum`, and the denominator is 256 or `PRECISION`.
pub open spec fn model_valid(m: ModelState) -> bool {
    &&& m.pro.len() == 257
    &&& m.temp.len() == 256
    &&& m.pro[0] == 0
    &&& forall|i: int| 0 <= i < 256 ==> #[trigger] m.pro[i] < m.pro[i + 1]
    &&& m.pro[256] == m.sum
    &&& (m.sum == 256 || m.sum == PRECISION)
    &&& forall|i: int| 0 <= i < 256 ==> #[trigger] m.temp[i] >= 0
}

/// A strictly increasing integer table rises by at least the index gap.
pub proof fn lemma_pro_gap(pro: Seq<int>, i: int, j: int)
    requires
        pro.len() == 257,
        forall|k: int| 0 <= k < 256 ==> #[trigger] pro[k] < pro[k + 1],
        0 <= i <= j <= 256,
    ensures
        pro[i] + (j - i) <= pro[j],
    decreases j - i,
{
    if j > i {
        lemma_pro_gap(pro, i, j - 1);
    }
}

/// Every reachable model state is valid, whatever the history: after any
/// sequence of observed symbols the cumulative table is strictly
/// increasing — so every symbol keeps a frequency of at least one — from
/// zero up to the denominator, which is 256 until the first rescale and
/// exactly `PRECISION` from then on. The lifetime counts always total the
/// number of symbols observed.
pub proof fn lemma_model_after_valid(syms: Seq<int>)
    requires
        forall|i: int| 0 <= i < syms.len() ==> 0 <= #[trigger] syms[i] < 256,
    ensures
        model_valid(model_after(syms)),
        sum_prefix(model_after(syms).temp, 256) == syms.len(),
    decreases syms.len(),
{
    if syms.len() == 0 {
        lemma_sum_prefix_zero(init_model().temp, 256);
    } else {
        lemma_model_after_valid(syms.drop_last());
        let m = model_after(syms.drop_last());
        let sym = syms.last();
        assert(0 <= sym < 256);
        let t = m.temp.update(sym, m.temp[sym] + 1);
        lemma_sum_prefix_update(m.temp, sym, m.temp[sym] + 1, 256);
        assert forall|i: int| 0 <= i < 256 implies #[trigger] t[i] >= 0 by {
            assert(m.temp[i] >= 0);
        }
        if m.cycle + 1 >= CYCLE {
            lemma_rescale_valid(t);
        }
    }
}

/// Before the first rescale — that is, after fewer than `CYCLE`
/// observations — the model still carries the uniform table `pro[i] == i`
/// with denominator 256, whatever the symbols were.
pub proof fn lemma_cold_start(syms: Seq<int>)
    requires
        syms.len() < CYCLE,
    ensures
        model_after(syms).pro == uniform_pro(),
        model_after(syms).sum == 256,
        model_after(syms).cycle == syms.len(),
    decreases syms.len(),
{
    if syms.len() > 0 {
        lemma_cold_start(syms.drop_last());
    }
}

/// Adaptive cumulative-frequency table over the 256-symbol alphabet.
///
/// `pro` has 257 entries: `pro[0] == 0`, `pro[256] == sum`, and
/// `pro[s + 1] - pro[s]` is symbol `s`'s current frequency (always at least
/// one). `temp` holds the lifetime occurrence counts, never reset; every
/// rescale recomputes `pro` from the whole history. `cycle` counts symbols
/// since the last rescale.
pub struct Probabilities {
    pub sum: u64,
    pub pro: Vec<u64>,
    pub temp: Vec<u64>,
    pub cycle: u64,
}

impl Probabilities {
    /// The mathematical state this table represents.
    pub open spec fn abs(self) -> ModelState {
        ModelState {
            sum: self.sum as int,
            pro: self.pro@.map_values(|x: u64| x as int),
            temp: self.temp@.map_values(|x: u64| x as int),
            cycle: self.cycle as int,
        }
    }

    /// Structural invariant: the cumulative table is strictly increasing from
    /// 0 to `sum`, the denominator is either 256 (before the first rescale)
    /// or `PRECISION`, and the cycle counter has not yet reached `CYCLE`.
    pub open spec fn wf(self) -> bool {
        &&& self.pro@.len() == 257
        &&& self.temp@.len() == 256
        &&& self.pro@[0] == 0
        &&& forall|i: int| 0 <= i < 256 ==> #[trigger] self.pro@[i] < self.pro@[i + 1]
        &&& self.pro@[256] == self.sum
        &&& (self.sum == 256 || self.sum == PRECISION)
        &&& self.cycle < CYCLE
    }

    /// The table's invariant carries over to its mathematical state.
    pub proof fn lemma_abs_valid(self)
        requires
            self.wf(),
        ensures
            model_valid(self.abs()),
    {
        let m = self.abs();
        assert forall|i: int| 0 <= i < 256 implies #[trigger] m.pro[i] < m.pro[i + 1] by {
            assert(m.pro[i] == self.pro@[i] as int);
            assert(m.pro[i + 1] == self.pro@[i + 1] as int);
        }
        assert(m.pro[0] == self.pro@[0] as int);
        assert(m.pro[256] == self.pro@[256] as int);
        assert forall|i: int| 0 <= i < 256 implies #[trigger] m.temp[i] >= 0 by {
            assert(m.temp[i] == self.temp@[i] as int);
        }
    }

    /// A fresh model: uniform table (`pro[i] == i`), denominator 256, no
    /// observations yet.
    pub fn new() -> (r: Self)
        ensures
            r.wf(),
            r.abs() == init_model(),
    {
        let mut pro: Vec<u64> = Vec::new();
        let mut i: u64 = 0;
        while i < 257
            invariant
                i <= 257,
                pro@.len() == i,
                forall|j: int| 0 <= j < i ==> pro@[j] == j,
            decreases 257 - i,
        {
            pro.push(i);
            i = i + 1;
        }
        let mut temp: Vec<u64> = Vec::new();
        let mut k: u64 = 0;
        while k < 256
            invariant
                k <= 256,
                temp@.len() == k,
                forall|j: int| 0 <= j < k ==> temp@[j] == 0,
            decreases 256 - k,
        {
            temp.push(0);
            k = k + 1;
        }
        let r = Probabilities { sum: 256, temp, pro, cycle: 0 };
        proof {
            assert(r.abs().pro =~= uniform_pro());
            assert(r.abs().temp =~= init_model().temp);
            assert(r.abs() =~= init_model());
        }
        r
    }

    /// Rebuild the cumulative table from the lifetime counts, scaled so the
    /// new denominator is exactly `PRECISION`. Deterministic: encoder and
    /// decoder rebuild identical tables from identical histories. That the
    /// rebuilt table sums to exactly `PRECISION` is proved here once and
    /// for all, rather than checked at run time.
    pub fn update_probabilities(&mut self)
        requires
            old(self).wf(),
            sum_prefix(old(self).abs().temp, 256) >= 1,
        ensures
            final(self).wf(),
            final(self).abs() == rescale(old(self).abs()),
            final(self).temp@ == old(self).temp@,
            final(self).cycle == old(self).cycle,
            final(self).sum == PRECISION,
    {
        let ghost tint = old(self).abs().temp;
        proof {
            assert(tint.len() == 256);
            assert(forall|i: int| 0 <= i < 256 ==> tint[i] >= 0);
            lemma_rescale_valid(tint);
        }
        // Lifetime total of all counts; wide arithmetic so no history can
        // overflow it.
        let mut s: u128 = 0;
        let mut i: usize = 0;
        while i < 256
            invariant
                i <= 256,
                self.temp@ == old(self).temp@,
                self.temp@.len() == 256,
                tint == self.temp@.map_values(|x: u64| x as int),
                s == sum_prefix(tint, i as int),
                s <= i * 0x1_0000_0000_0000_0000,
            decreases 256 - i,
        {
            proof {
                assert(tint[i as int] == self.temp@[i as int] as int);
            }
            s = s + (self.temp[i] as u128);
            i = i + 1;
        }
        proof {
            assert(s >= 1);
        }
        // Scale every lifetime count, truncating, then add one so no symbol
        // loses its last unit of probability.
        let mut t: Vec<u64> = Vec::new();
        let mut i: usize = 0;
        while i < 256
            invariant
                i <= 256,
                t@.len() == i,
                self.temp@ == old(self).temp@,
                self.temp@.len() == 256,
                tint == self.temp@.map_values(|x: u64| x as int),
                s == sum_prefix(tint, 256),
                s >= 1,
                forall|j: int| 0 <= j < i ==> (#[trigger] t@[j]) as int == scale_base(tint)[j]
                    && t@[j] <= PRECISION - 255,
            decreases 256 - i,
        {
            let ghost k = (PRECISION - 256) as int;
            let ghost si = sum_prefix(tint, 256);
            proof {
                assert(forall|j: int| 0 <= j < 256 ==> tint[j] >= 0);
                lemma_sum_prefix_elem(tint, i as int, 256);
                lemma_mul_nonnegative(tint[i as int], k);
                lemma_mul_inequality(tint[i as int], si, k);
                lemma_div_is_ordered(tint[i as int] * k, si * k, si);
                lemma_div_multiples_vanish(k, si);
                lemma_mul_is_commutative(si, k);
                lemma_div_pos_is_pos(tint[i as int] * k, si);
                assert(tint[i as int] * k <= u64::MAX * 1073741568) by {
                    lemma_mul_upper_bound(tint[i as int], u64::MAX as int, k, k);
                }
                assert(tint[i as int] * k / si <= k);
            }
            let q: u128 = (self.temp[i] as u128) * ((PRECISION - 256) as u128) / s;
            t.push((q as u64) + 1);
            i = i + 1;
        }
        // Total of the scaled frequencies; the deficit is what truncation
        // left short of `PRECISION`.
        let mut all: u64 = 0;
        let mut i: usize = 0;
        while i < 256
            invariant
                i <= 256,
                t@.len() == 256,
                forall|j: int| 0 <= j < 256 ==> (#[trigger] t@[j]) as int == scale_base(tint)[j]
                    && t@[j] <= PRECISION - 255,
                all == sum_prefix(scale_base(tint), i as int),
                all <= i * 1073741569,
            decreases 256 - i,
        {
            proof {
                assert(t@[i as int] <= PRECISION - 255);
            }
            all = all + t[i];
            i = i + 1;
        }
        proof {
            lemma_rescaled_freqs_sum(tint, 256);
            assert(all <= PRECISION);
        }
        let deficit: u64 = PRECISION - all;
        proof {
            assert(deficit as int == scale_deficit(tint));
            assert(deficit <= 255);
        }
        // Hand the deficit out, one unit each, to the first symbols.
        let mut i: usize = 0;
        while i < deficit as usize
            invariant
                deficit <= 255,
                i <= deficit as usize,
                deficit as int == scale_deficit(tint),
                t@.len() == 256,
                forall|j: int| 0 <= j < i ==> (#[trigger] t@[j]) as int == rescaled_freqs(
                    tint,
                )[j] && t@[j] <= PRECISION - 254,
                forall|j: int| i <= j < 256 ==> (#[trigger] t@[j]) as int == scale_base(tint)[j]
                    && t@[j] <= PRECISION - 255,
            decreases deficit as int - i,
        {
            proof {
                assert(t@[i as int] <= PRECISION - 255);
            }
            let v = t[i];
            t.set(i, v + 1);
            i = i + 1;
        }
        proof {
            assert forall|j: int| 0 <= j < 256 implies (#[trigger] t@[j]) as int == rescaled_freqs(
                tint,
            )[j] by {
                if j >= deficit as int {
                    assert(rescaled_freqs(tint)[j] == scale_base(tint)[j]);
                }
            }
            lemma_rescaled_freqs_sum(tint, 256);
        }
        // Rebuild the cumulative table as the exclusive prefix sums.
        let mut pro: Vec<u64> = Vec::new();
        pro.push(0);
        let mut acc: u64 = 0;
        let mut i: usize = 0;
        while i < 256
            invariant
                i <= 256,
                t@.len() == 256,
                forall|j: int| 0 <= j < 256 ==> (#[trigger] t@[j]) as int == rescaled_freqs(
                    tint,
                )[j],
                pro@.len() == i + 1,
                acc == sum_prefix(rescaled_freqs(tint), i as int),
                forall|j: int| 0 <= j <= i ==> (#[trigger] pro@[j]) as int == rescaled_pro(tint)[j],
                sum_prefix(rescaled_freqs(tint), 256) == PRECISION,
            decreases 256 - i,
        {
            proof {
                assert forall|j: int| 0 <= j < 256 implies rescaled_freqs(tint)[j] >= 0 by {
                    assert((t@[j]) as int == rescaled_freqs(tint)[j]);
                }
                lemma_sum_prefix_mono(rescaled_freqs(tint), i as int + 1, 256);
            }
            acc = acc + t[i];
            pro.push(acc);
            i = i + 1;
        }
        self.pro = pro;
        self.sum = PRECISION;
        proof {
            lemma_rescale_valid(tint);
            assert(self.abs().pro =~= rescaled_pro(tint));
            assert(self.abs() =~= rescale(old(self).abs()));
            assert forall|i2: int| 0 <= i2 < 256 implies #[trigger] self.pro@[i2] < self.pro@[i2
                + 1] by {
                assert(rescaled_pro(tint)[i2] + 1 <= rescaled_pro(tint)[i2 + 1]);
            }
        }
    }

    /// Record one occurrence of `to_add`. Every `CYCLE`-th observation
    /// triggers a rescale of the cumulative table; in between, only the
    /// lifetime count and the cycle counter move.
    pub fn add(&mut self, to_add: usize)
        requires
            old(self).wf(),
            to_add < 256,
            old(self).temp@[to_add as int] < u64::MAX,
        ensures
            final(self).wf(),
            final(self).abs() == observe(old(self).abs(), to_add as int),
    {
        let ghost m0 = old(self).abs();
        let v = self.temp[to_add];
        self.temp.set(to_add, v + 1);
        self.cycle = self.cycle + 1;
        proof {
            assert(self.abs().temp =~= m0.temp.update(to_add as int, m0.temp[to_add as int] + 1));
        }
        if self.cycle >= CYCLE {
            self.cycle = 0;
            proof {
                let t = self.abs().temp;
                assert(forall|j: int| 0 <= j < 256 ==> t[j] >= 0);
                lemma_sum_prefix_elem(t, to_add as int, 256);
                assert(sum_prefix(t, 256) >= 1);
            }
            self.update_probabilities();
            proof {
                assert(self.abs() =~= observe(m0, to_add as int));
            }
        } else {
            proof {
                assert(self.abs() =~= observe(m0, to_add as int));
            }
        }
    }
}

} // verus!
