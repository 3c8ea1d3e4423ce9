//! Adaptive arithmetic coder: a finite-precision encoder and decoder over
//! a Fenwick-tree frequency model.
//!
//! Both coders narrow a 16-bit range `[low, high]` by the cumulative
//! interval of each symbol and renormalize it back out, the encoder
//! emitting bits (with deferred underflow bits counted in `pending`),
//! the decoder consuming them through a 16-bit shift register `value`.
//! The bit streams each side produces and expects are pinned down exactly
//! by the spec functions `encode_step`, `finish_bits` and `decode_step`.

use vstd::prelude::*;

use crate::bitvec::BitVec;
use crate::bitvec::stream_bit;
use crate::bitvec::stream_bit1;
use crate::fenwick::FenwickTree;
use crate::fenwick::lemma_elem_le_total;
use crate::fenwick::lemma_prefix_monotone;
use crate::fenwick::lemma_rsum_concat;
use crate::fenwick::lemma_rsum_const;
use crate::fenwick::lemma_rsum_sub_half;
use crate::fenwick::lemma_upper_unique;
use crate::fenwick::rsum;
use crate::fenwick::total_spec;
use vstd::arithmetic::div_mod::lemma_div_is_ordered;
use vstd::arithmetic::div_mod::lemma_div_multiples_vanish;
use vstd::arithmetic::div_mod::lemma_div_plus_one;
use vstd::arithmetic::div_mod::lemma_fundamental_div_mod;

verus! {

/// Number of bits of coder precision.
pub const VALB: u32 = 16;

/// Largest 16-bit range value.
pub const TOP: u32 = 0xffff;

/// First quarter boundary of the range.
pub const FIRST_QTR: u32 = 0x4000;

/// Midpoint of the range.
pub const HALF: u32 = 0x8000;

/// Third quarter boundary of the range.
pub const THIRD_QTR: u32 = 0xc000;

/// Cap on the sum of all model counts.
pub const MAX_FREQUENCY: u32 = 0x3fff;

/// A bit followed by `pending` copies of its complement.
pub open spec fn emit(bit: bool, pending: int) -> Seq<bool> {
    if pending <= 0 {
        seq![bit]
    } else {
        seq![bit] + Seq::new(pending as nat, |i: int| !bit)
    }
}

/// Renormalization: repeatedly doubles the range out of the lower half,
/// upper half, or middle half, emitting one bit plus the deferred
/// underflow bits in the first two cases and deferring one more bit in
/// the third.  Returns the final `(low, high, pending)` and the emitted
/// bits.
pub open spec fn renorm(low: int, high: int, pending: int) -> (int, int, int, Seq<bool>)
    decreases 0x10000 - (high - low),
{
    if !(0 <= low <= high <= 0xffff && pending >= 0) {
        (low, high, pending, Seq::<bool>::empty())
    } else if high < HALF {
        let r = renorm(2 * low, 2 * high + 1, 0);
        (r.0, r.1, r.2, emit(false, pending) + r.3)
    } else if low >= HALF {
        let r = renorm(2 * (low - HALF), 2 * (high - HALF) + 1, 0);
        (r.0, r.1, r.2, emit(true, pending) + r.3)
    } else if low >= FIRST_QTR && high < THIRD_QTR {
        renorm(2 * (low - FIRST_QTR), 2 * (high - FIRST_QTR) + 1, pending + 1)
    } else {
        (low, high, pending, Seq::<bool>::empty())
    }
}

/// The new low bound after narrowing by a cumulative interval.
pub open spec fn narrow_low(low: int, high: int, lo_c: int, denom: int) -> int {
    low + ((high - low + 1) * lo_c) / denom
}

/// The new high bound after narrowing by a cumulative interval.
pub open spec fn narrow_high(low: int, high: int, hi_c: int, denom: int) -> int {
    low + ((high - low + 1) * hi_c) / denom - 1
}

/// One whole encoder step for symbol `s` under model `m`: narrow, then
/// renormalize.  Returns the final state and the emitted bits.
pub open spec fn encode_step(low: int, high: int, pending: int, m: Seq<u32>, s: int) -> (
    int,
    int,
    int,
    Seq<bool>,
) {
    renorm(
        narrow_low(low, high, rsum(m, 0, s), total_spec(m)),
        narrow_high(low, high, rsum(m, 0, s + 1), total_spec(m)),
        pending,
    )
}

/// The final bits that disambiguate the converged range.
pub open spec fn finish_bits(low: int, pending: int) -> Seq<bool> {
    emit(low >= FIRST_QTR, pending + 1)
}

/// The model after halving every count, keeping each at least 1.
pub open spec fn scaled(m: Seq<u32>) -> Seq<u32> {
    Seq::new(m.len(), |k: int| (m[k] - m[k] / 2) as u32)
}

/// How `discover` updates the model: halve everything when the total has
/// hit the cap, then count the symbol once more.
pub open spec fn discover_spec(m: Seq<u32>, s: int) -> Seq<u32> {
    if total_spec(m) == MAX_FREQUENCY {
        let m2 = scaled(m);
        m2.update(s, (m2[s] + 1) as u32)
    } else {
        m.update(s, (m[s] + 1) as u32)
    }
}

/// A valid coder model: at least one slot, few enough slots that halving
/// always makes room, every count positive, total within the cap.
pub open spec fn model_ok(m: Seq<u32>) -> bool {
    &&& 1 <= m.len()
    &&& 2 * m.len() <= MAX_FREQUENCY
    &&& forall|k: int| 0 <= k < m.len() ==> #[trigger] m[k] >= 1
    &&& total_spec(m) <= MAX_FREQUENCY
}

/// The range invariant restored after every renormalization: the range
/// straddles the midpoint and is not contained in the middle half.
pub open spec fn range_ok(low: int, high: int) -> bool {
    &&& 0 <= low < HALF
    &&& HALF <= high <= TOP
    &&& low < FIRST_QTR || high >= THIRD_QTR
}

/// Powers of two.
pub open spec fn pow2l(k: int) -> int
    decreases k,
{
    if k <= 0 {
        1
    } else {
        2 * pow2l(k - 1)
    }
}

proof fn lemma_pow2l_lb(k: int)
    requires
        k >= 16,
    ensures
        pow2l(k) >= 0x10000,
    decreases k,
{
    if k == 16 {
        reveal_with_fuel(pow2l, 18);
    } else {
        lemma_pow2l_lb(k - 1);
    }
}

/// Shared model update: halve all counts when the total has reached the
/// cap, then add one to the count of `s`.
fn model_discover(model: &mut FenwickTree, s: usize)
    requires
        old(model).wf(),
        model_ok(old(model)@),
        s < old(model)@.len(),
    ensures
        final(model).wf(),
        model_ok(final(model)@),
        final(model)@ == discover_spec(old(model)@, s as int),
{
    let ghost m0 = model@;
    let t: u32 = model.total();
    if t == MAX_FREQUENCY {
        model.scale(2);
        proof {
            assert(model@ =~= scaled(m0));
            lemma_rsum_sub_half(m0, model@, 0, m0.len() as int);
            assert forall|k: int| 0 <= k < model@.len() implies #[trigger] model@[k] >= 1 by {
                assert(m0[k] >= 1);
                let x = m0[k] as int;
                assert(x - x / 2 >= 1) by (nonlinear_arith)
                    requires
                        x >= 1,
                ;
            }
        }
    }
    let ghost m1 = model@;
    proof {
        lemma_elem_le_total(m1, s as int);
    }
    model.add(s, 1);
    proof {
        assert(model@ =~= discover_spec(m0, s as int));
        assert forall|k: int| 0 <= k < model@.len() implies #[trigger] model@[k] >= 1 by {
            assert(m1[k] >= 1);
        }
        crate::fenwick::lemma_rsum_update(m1, s as int, (m1[s as int] + 1) as u32, 0, m1.len() as int);
    }
}

/// The adaptive arithmetic encoder.
pub struct ArithmeticEncoder {
    model: FenwickTree,
    low: u32,
    high: u32,
    pending: u32,
}

impl ArithmeticEncoder {
    /// The frequency model, slot by slot.
    pub closed spec fn model_view(&self) -> Seq<u32> {
        self.model@
    }

    /// Low end of the current range.
    pub closed spec fn low_spec(&self) -> int {
        self.low as int
    }

    /// High end of the current range.
    pub closed spec fn high_spec(&self) -> int {
        self.high as int
    }

    /// Number of deferred underflow bits.
    pub closed spec fn pending_spec(&self) -> int {
        self.pending as int
    }

    /// The encoder invariant, restored by every operation.
    pub closed spec fn inv(&self) -> bool {
        &&& self.model.wf()
        &&& model_ok(self.model@)
        &&& range_ok(self.low as int, self.high as int)
    }

    /// A fresh encoder over `size` symbols, every count 1, range full.
    pub fn new(size: usize) -> (r: ArithmeticEncoder)
        requires
            1 <= size,
            2 * size <= MAX_FREQUENCY,
        ensures
            r.inv(),
            r.model_view() == Seq::new(size as nat, |k: int| 1u32),
            r.low_spec() == 0,
            r.high_spec() == TOP,
            r.pending_spec() == 0,
    {
        proof {
            assert(size * 1int == size as int) by (nonlinear_arith);
        }
        let model = FenwickTree::new(size, Some(1));
        proof {
            assert(model@ =~= Seq::new(size as nat, |k: int| 1u32));
            lemma_rsum_const(model@, 1u32, 0, size as int);
            assert(1u32 * (size as int) == size as int) by (nonlinear_arith);
        }
        ArithmeticEncoder { model, low: 0, high: TOP, pending: 0 }
    }

    /// Records one more occurrence of `s` in the model.
    pub fn discover(&mut self, s: usize)
        requires
            old(self).inv(),
            s < old(self).model_view().len(),
        ensures
            final(self).inv(),
            final(self).model_view() == discover_spec(old(self).model_view(), s as int),
            final(self).low_spec() == old(self).low_spec(),
            final(self).high_spec() == old(self).high_spec(),
            final(self).pending_spec() == old(self).pending_spec(),
    {
        model_discover(&mut self.model, s);
    }

    /// Pushes `bit` followed by the deferred underflow bits, which take
    /// the complementary value; clears the deferral count.
    fn write_bit_plus_pending(&mut self, bit: bool, out: &mut Vec<bool>)
        ensures
            final(out)@ == old(out)@ + emit(bit, old(self).pending as int),
            final(self).pending == 0,
            final(self).low == old(self).low,
            final(self).high == old(self).high,
            final(self).model == old(self).model,
    {
        out.push(bit);
        let p: u32 = self.pending;
        let mut cnt: u32 = 0;
        while cnt < p
            invariant
                cnt <= p,
                out@ == old(out)@ + seq![bit] + Seq::new(cnt as nat, |i: int| !bit),
                self.pending == old(self).pending,
                self.low == old(self).low,
                self.high == old(self).high,
                self.model == old(self).model,
                p == old(self).pending,
            decreases p - cnt,
        {
            out.push(!bit);
            cnt = cnt + 1;
            proof {
                assert(out@ =~= old(out)@ + seq![bit] + Seq::new(cnt as nat, |i: int| !bit));
            }
        }
        self.pending = 0;
        proof {
            assert(out@ =~= old(out)@ + emit(bit, p as int));
        }
    }

    /// Encodes symbol `s`: narrows the range by the symbol's cumulative
    /// interval and renormalizes, appending exactly the bits that
    /// `encode_step` describes.  The model is not touched.
    pub fn encode(&mut self, s: usize, out: &mut Vec<bool>)
        requires
            old(self).inv(),
            s < old(self).model_view().len(),
            old(self).pending_spec() <= u32::MAX - 16,
        ensures
            final(self).inv(),
            final(self).model_view() == old(self).model_view(),
            ({
                let r = encode_step(
                    old(self).low_spec(),
                    old(self).high_spec(),
                    old(self).pending_spec(),
                    old(self).model_view(),
                    s as int,
                );
                &&& final(self).low_spec() == r.0
                &&& final(self).high_spec() == r.1
                &&& final(self).pending_spec() == r.2
                &&& final(out)@ == old(out)@ + r.3
            }),
            final(self).pending_spec() <= old(self).pending_spec() + 16,
            final(self).pending_spec() >= 0,
            final(out)@.len() + final(self).pending_spec() <= old(out)@.len() + old(
                self,
            ).pending_spec() + 16,
    {
        let ghost m = self.model@;
        let ghost si = s as int;
        let lower: u32 = if s == 0 {
            0
        } else {
            self.model.sum(s - 1)
        };
        let upper: u32 = self.model.sum(s);
        let denom: u32 = self.model.total();
        proof {
            assert(rsum(m, 0, 0) == 0);
            assert(lower == rsum(m, 0, s as int));
            lemma_rsum_concat(m, 0, s as int, s as int + 1);
            assert(rsum(m, s as int, s as int + 1) == m[s as int] + rsum(
                m,
                s as int + 1,
                s as int + 1,
            ));
            assert(m[s as int] >= 1);
            assert(upper >= lower + 1);
            lemma_prefix_monotone(m, s as int + 1, m.len() as int);
            assert(lower + 1 <= upper <= denom <= MAX_FREQUENCY);
        }
        let range: u32 = (self.high - self.low) + 1;
        proof {
            assert(FIRST_QTR + 1 <= range <= 0x10000);
            lemma_narrow_bounds(
                self.low as int,
                self.high as int,
                lower as int,
                upper as int,
                denom as int,
            );
            assert(range * upper <= 0x10000 * 0x3fff) by (nonlinear_arith)
                requires
                    0 <= range <= 0x10000,
                    0 <= upper <= 0x3fff,
            ;
            assert(range * lower <= 0x10000 * 0x3fff) by (nonlinear_arith)
                requires
                    0 <= range <= 0x10000,
                    0 <= lower <= 0x3fff,
            ;
        }
        let hi2: u32 = self.low + (range * upper) / denom - 1;
        let lo2: u32 = self.low + (range * lower) / denom;
        self.high = hi2;
        self.low = lo2;
        proof {
            assert(lo2 == narrow_low(
                old(self).low_spec(),
                old(self).high_spec(),
                rsum(m, 0, si),
                total_spec(m),
            ));
            assert(hi2 == narrow_high(
                old(self).low_spec(),
                old(self).high_spec(),
                rsum(m, 0, si + 1),
                total_spec(m),
            ));
        }
        let ghost l0 = self.low as int;
        let ghost h0 = self.high as int;
        let ghost p0 = self.pending as int;
        let ghost out0 = out@;
        let ghost mut delta = Seq::<bool>::empty();
        let ghost mut kcnt: int = 0;
        loop
            invariant
                self.model@ == m,
                self.model.wf(),
                model_ok(m),
                0 <= self.low as int <= self.high as int <= 0xffff,
                kcnt >= 0,
                p0 <= u32::MAX - 16,
                pow2l(kcnt) <= self.high - self.low + 1,
                self.pending as int <= p0 + kcnt,
                out@.len() + self.pending as int == out0.len() + p0 + kcnt,
                out@ == out0 + delta,
                renorm(l0, h0, p0) == ({
                    let rc = renorm(self.low as int, self.high as int, self.pending as int);
                    (rc.0, rc.1, rc.2, delta + rc.3)
                }),
            ensures
                self.model@ == m,
                self.model.wf(),
                range_ok(self.low as int, self.high as int),
                out@ == out0 + delta,
                renorm(l0, h0, p0) == (
                    self.low as int,
                    self.high as int,
                    self.pending as int,
                    delta,
                ),
                self.pending as int <= p0 + 16,
                out@.len() + self.pending as int <= out0.len() + p0 + 16,
            decreases 0x10000 - (self.high - self.low),
        {
            proof {
                if kcnt >= 17 {
                    lemma_pow2l_lb(kcnt - 1);
                    assert(pow2l(kcnt) == 2 * pow2l(kcnt - 1));
                }
                assert(kcnt <= 16);
            }
            if self.high < HALF {
                let ghost pcur = self.pending as int;
                self.write_bit_plus_pending(false, out);
                self.low = self.low * 2;
                self.high = self.high * 2 + 1;
                proof {
                    delta = delta + emit(false, pcur);
                    assert(out@ =~= out0 + delta);
                }
            } else if self.low >= HALF {
                let ghost pcur = self.pending as int;
                self.write_bit_plus_pending(true, out);
                self.low = (self.low - HALF) * 2;
                self.high = (self.high - HALF) * 2 + 1;
                proof {
                    delta = delta + emit(true, pcur);
                    assert(out@ =~= out0 + delta);
                }
            } else if self.low >= FIRST_QTR && self.high < THIRD_QTR {
                proof {
                    if kcnt >= 16 {
                        lemma_pow2l_lb(kcnt);
                    }
                    assert(kcnt <= 15);
                }
                self.pending = self.pending + 1;
                self.low = (self.low - FIRST_QTR) * 2;
                self.high = (self.high - FIRST_QTR) * 2 + 1;
            } else {
                break ;
            }
            proof {
                kcnt = kcnt + 1;
                assert(pow2l(kcnt) == 2 * pow2l(kcnt - 1));
                assert(emit(false, 0) =~= seq![false]);
            }
        }
    }

    /// The model's count for symbol `s`.
    pub fn model_freq(&self, s: usize) -> (r: u32)
        requires
            self.inv(),
            s < self.model_view().len(),
        ensures
            r == self.model_view()[s as int],
    {
        self.model.freq(s)
    }

    /// The sum of all model counts.
    pub fn model_total(&self) -> (r: u32)
        requires
            self.inv(),
        ensures
            r == total_spec(self.model_view()),
    {
        self.model.total()
    }

    /// Flushes the last two disambiguating bits (plus deferred ones).
    pub fn finish(&mut self, out: &mut Vec<bool>)
        requires
            old(self).inv(),
            old(self).pending_spec() <= u32::MAX - 16,
        ensures
            final(self).inv(),
            final(self).model_view() == old(self).model_view(),
            final(out)@ == old(out)@ + finish_bits(old(self).low_spec(), old(self).pending_spec()),
            final(out)@.len() > old(out)@.len(),
    {
        self.pending = self.pending + 1;
        if self.low < FIRST_QTR {
            self.write_bit_plus_pending(false, out);
        } else {
            self.write_bit_plus_pending(true, out);
        }
    }
}

/// The read position after consuming one bit: it advances only while
/// bits remain; past the end the stream yields zeros without moving.
pub open spec fn next_pos(bits: Seq<bool>, pos: int) -> int {
    if pos < bits.len() {
        pos + 1
    } else {
        pos
    }
}

/// Decoder renormalization, mirroring the encoder's: the same three
/// cases adjust `low`, `high` and `value` and shift one more stream bit
/// (zero past the end) into `value`.
pub open spec fn dec_renorm(low: int, high: int, value: int, bits: Seq<bool>, pos: int) -> (
    int,
    int,
    int,
    int,
)
    decreases 0x10000 - (high - low),
{
    if !(0 <= low <= value <= high <= 0xffff) {
        (low, high, value, pos)
    } else if high < HALF {
        dec_renorm(
            2 * low,
            2 * high + 1,
            2 * value + stream_bit1(bits, pos),
            bits,
            next_pos(bits, pos),
        )
    } else if low >= HALF {
        dec_renorm(
            2 * (low - HALF),
            2 * (high - HALF) + 1,
            2 * (value - HALF) + stream_bit1(bits, pos),
            bits,
            next_pos(bits, pos),
        )
    } else if low >= FIRST_QTR && high < THIRD_QTR {
        dec_renorm(
            2 * (low - FIRST_QTR),
            2 * (high - FIRST_QTR) + 1,
            2 * (value - FIRST_QTR) + stream_bit1(bits, pos),
            bits,
            next_pos(bits, pos),
        )
    } else {
        (low, high, value, pos)
    }
}

/// The smallest index at or after `s` whose cumulative interval contains
/// `c`, the last index when none does.
pub open spec fn sym_at(m: Seq<u32>, c: int, s: int) -> int
    decreases m.len() - s,
{
    if s >= m.len() - 1 {
        m.len() - 1
    } else if c < rsum(m, 0, s + 1) {
        s
    } else {
        sym_at(m, c, s + 1)
    }
}

/// While `c` is below the total, `sym_at` finds the unique symbol whose
/// cumulative interval contains `c`.
pub proof fn lemma_sym_at(m: Seq<u32>, c: int, s0: int)
    requires
        m.len() >= 1,
        0 <= s0 < m.len(),
        rsum(m, 0, s0) <= c < total_spec(m),
    ensures
        ({
            let s = sym_at(m, c, s0);
            s0 <= s < m.len() && rsum(m, 0, s) <= c < rsum(m, 0, s + 1)
        }),
    decreases m.len() - s0,
{
    if s0 >= m.len() - 1 {
    } else if c < rsum(m, 0, s0 + 1) {
    } else {
        lemma_sym_at(m, c, s0 + 1);
    }
}

/// One whole decoder step: compute the cumulative value from `value`,
/// pick the symbol whose interval contains it, narrow and renormalize.
/// Returns the symbol and the final `(low, high, value, pos)`.
pub open spec fn decode_step(
    low: int,
    high: int,
    value: int,
    m: Seq<u32>,
    bits: Seq<bool>,
    pos: int,
) -> (int, int, int, int, int) {
    let range = high - low + 1;
    let denom = total_spec(m);
    let cum = ((value - low + 1) * denom - 1) / range;
    let s = sym_at(m, cum, 0);
    let r = dec_renorm(
        narrow_low(low, high, rsum(m, 0, s), denom),
        narrow_high(low, high, rsum(m, 0, s + 1), denom),
        value,
        bits,
        pos,
    );
    (s, r.0, r.1, r.2, r.3)
}

/// The numeric value of the stream bits `lo .. hi`, most significant
/// first.
pub open spec fn bits_value(bits: Seq<bool>, lo: int, hi: int) -> int
    decreases hi - lo,
{
    if lo >= hi {
        0
    } else {
        2 * bits_value(bits, lo, hi - 1) + stream_bit1(bits, hi - 1)
    }
}

proof fn lemma_bits_value_bound(bits: Seq<bool>, lo: int, hi: int)
    ensures
        0 <= bits_value(bits, lo, hi) < pow2l(hi - lo),
    decreases hi - lo,
{
    if lo < hi {
        lemma_bits_value_bound(bits, lo, hi - 1);
        assert(pow2l(hi - lo) == 2 * pow2l(hi - lo - 1));
    }
}

/// Where reading up to 16 header bits ends: 16 further on, or at the end
/// of the stream.
pub open spec fn begin_end(bits: Seq<bool>, pos: int) -> int {
    if pos + 16 <= bits.len() {
        pos + 16
    } else {
        bits.len() as int
    }
}

/// Reads the next stream bit, or zero once the stream is exhausted; the
/// position only advances while bits remain.
fn next_bit_or_zero(bits: &BitVec, pos: &mut usize) -> (b: bool)
    requires
        bits.wf(),
        *old(pos) <= bits@.len(),
    ensures
        b == stream_bit(bits@, *old(pos) as int),
        *final(pos) == next_pos(bits@, *old(pos) as int),
        *final(pos) <= bits@.len(),
{
    let n: usize = bits.len();
    if *pos < n {
        let r = bits.get(*pos);
        *pos = *pos + 1;
        match r {
            Some(bb) => bb,
            None => false,
        }
    } else {
        false
    }
}

/// The adaptive arithmetic decoder: the encoder's state machine run in
/// reverse, with a 16-bit window `value` over the compressed stream.
pub struct ArithmeticDecoder {
    model: FenwickTree,
    low: u32,
    high: u32,
    value: u32,
}

impl ArithmeticDecoder {
    /// The frequency model, slot by slot.
    pub closed spec fn model_view(&self) -> Seq<u32> {
        self.model@
    }

    /// Low end of the current range.
    pub closed spec fn low_spec(&self) -> int {
        self.low as int
    }

    /// High end of the current range.
    pub closed spec fn high_spec(&self) -> int {
        self.high as int
    }

    /// The shift register holding the current window of stream bits.
    pub closed spec fn value_spec(&self) -> int {
        self.value as int
    }

    /// The decoder invariant: a valid model, a normalized range, and the
    /// window inside the range.
    pub closed spec fn inv(&self) -> bool {
        &&& self.model.wf()
        &&& model_ok(self.model@)
        &&& range_ok(self.low as int, self.high as int)
        &&& self.low <= self.value <= self.high
    }

    /// A fresh decoder over `size` symbols, every count 1, range full,
    /// window empty.
    pub fn new(size: usize) -> (r: ArithmeticDecoder)
        requires
            1 <= size,
            2 * size <= MAX_FREQUENCY,
        ensures
            r.inv(),
            r.model_view() == Seq::new(size as nat, |k: int| 1u32),
            r.low_spec() == 0,
            r.high_spec() == TOP,
            r.value_spec() == 0,
    {
        proof {
            assert(size * 1int == size as int) by (nonlinear_arith);
        }
        let model = FenwickTree::new(size, Some(1));
        proof {
            assert(model@ =~= Seq::new(size as nat, |k: int| 1u32));
            lemma_rsum_const(model@, 1u32, 0, size as int);
            assert(1u32 * (size as int) == size as int) by (nonlinear_arith);
        }
        ArithmeticDecoder { model, low: 0, high: TOP, value: 0 }
    }

    /// Records one more occurrence of `s` in the model, by the same rule
    /// as the encoder, so that the two models stay in lock-step.
    pub fn discover(&mut self, s: usize)
        requires
            old(self).inv(),
            s < old(self).model_view().len(),
        ensures
            final(self).inv(),
            final(self).model_view() == discover_spec(old(self).model_view(), s as int),
            final(self).low_spec() == old(self).low_spec(),
            final(self).high_spec() == old(self).high_spec(),
            final(self).value_spec() == old(self).value_spec(),
    {
        model_discover(&mut self.model, s);
    }

    /// The model's count for symbol `s`.
    pub fn model_freq(&self, s: usize) -> (r: u32)
        requires
            self.inv(),
            s < self.model_view().len(),
        ensures
            r == self.model_view()[s as int],
    {
        self.model.freq(s)
    }

    /// The sum of all model counts.
    pub fn model_total(&self) -> (r: u32)
        requires
            self.inv(),
        ensures
            r == total_spec(self.model_view()),
    {
        self.model.total()
    }

    /// Shifts up to 16 initial stream bits into the window, stopping
    /// early when the stream runs out.
    pub fn begin(&mut self, bits: &BitVec, pos: &mut usize)
        requires
            old(self).inv(),
            bits.wf(),
            *old(pos) <= bits@.len(),
            old(self).low_spec() == 0,
            old(self).high_spec() == TOP,
            old(self).value_spec() == 0,
        ensures
            final(self).inv(),
            final(self).model_view() == old(self).model_view(),
            final(self).low_spec() == 0,
            final(self).high_spec() == TOP,
            final(self).value_spec() == bits_value(
                bits@,
                *old(pos) as int,
                begin_end(bits@, *old(pos) as int),
            ),
            *final(pos) == begin_end(bits@, *old(pos) as int),
            *final(pos) <= bits@.len(),
    {
        let ghost pos0 = *pos as int;
        let nbits: usize = bits.len();
        let mut cnt: u32 = 0;
        while cnt < VALB
            invariant_except_break
                cnt <= 16,
                bits.wf(),
                nbits == bits@.len(),
                *pos as int == pos0 + cnt,
                0 <= pos0,
                pos0 + cnt <= bits@.len(),
                self.value as int == bits_value(bits@, pos0, pos0 + cnt),
                self.value < pow2l(cnt as int),
                self.value <= TOP,
                self.low == 0,
                self.high == TOP,
                self.model == old(self).model,
            ensures
                bits.wf(),
                self.value as int == bits_value(bits@, pos0, begin_end(bits@, pos0)),
                *pos as int == begin_end(bits@, pos0),
                self.value <= TOP,
                self.low == 0,
                self.high == TOP,
                self.model == old(self).model,
            decreases 16 - cnt,
        {
            proof {
                reveal_with_fuel(pow2l, 18);
            }
            if *pos < nbits {
                let r = bits.get(*pos);
                let b: bool = match r {
                    Some(bb) => bb,
                    None => false,
                };
                *pos = *pos + 1;
                self.value = self.value * 2 + if b {
                    1
                } else {
                    0
                };
            } else {
                proof {
                    assert(pos0 + cnt == bits@.len());
                }
                break ;
            }
            cnt = cnt + 1;
            proof {
                assert(pow2l(cnt as int) == 2 * pow2l(cnt as int - 1));
            }
        }
    }

    /// Decodes one symbol: finds the symbol whose cumulative interval
    /// contains the scaled window value, narrows the range the same way
    /// the encoder did, and renormalizes, consuming stream bits.  The
    /// model is not touched.  Exactly `decode_step`.
    pub fn decode(&mut self, bits: &BitVec, pos: &mut usize) -> (s: usize)
        requires
            old(self).inv(),
            bits.wf(),
            *old(pos) <= bits@.len(),
        ensures
            final(self).inv(),
            final(self).model_view() == old(self).model_view(),
            *final(pos) <= bits@.len(),
            s < old(self).model_view().len(),
            ({
                let r = decode_step(
                    old(self).low_spec(),
                    old(self).high_spec(),
                    old(self).value_spec(),
                    old(self).model_view(),
                    bits@,
                    *old(pos) as int,
                );
                &&& s as int == r.0
                &&& final(self).low_spec() == r.1
                &&& final(self).high_spec() == r.2
                &&& final(self).value_spec() == r.3
                &&& *final(pos) == r.4
            }),
    {
        let ghost m = self.model@;
        let range: u32 = (self.high - self.low) + 1;
        let denom: u32 = self.model.total();
        proof {
            lemma_elem_le_total(m, 0);
            assert(denom >= 1);
            assert(FIRST_QTR + 1 <= range <= 0x10000);
            assert((self.value - self.low) + 1 >= 1);
            assert(((self.value - self.low) + 1) * denom <= 0x10000 * 0x3fff) by (nonlinear_arith)
                requires
                    1 <= (self.value - self.low) + 1 <= 0x10000,
                    1 <= denom <= 0x3fff,
            ;
            assert(((self.value - self.low) + 1) * denom >= 1) by (nonlinear_arith)
                requires
                    (self.value - self.low) + 1 >= 1,
                    denom >= 1,
            ;
        }
        let cum: u32 = (((self.value - self.low) + 1) * denom - 1) / range;
        proof {
            lemma_cum_lt_denom(
                self.low as int,
                self.high as int,
                self.value as int,
                denom as int,
            );
            assert(cum < denom);
        }
        let s: usize = self.model.upper(cum);
        proof {
            lemma_sym_at(m, cum as int, 0);
            lemma_upper_unique(m, cum as int, s as int, sym_at(m, cum as int, 0));
            assert(s as int == sym_at(m, cum as int, 0));
        }
        let upperc: u32 = self.model.sum(s);
        let lowerc: u32 = if s == 0 {
            0
        } else {
            self.model.sum(s - 1)
        };
        proof {
            assert(rsum(m, 0, 0) == 0);
            assert(lowerc == rsum(m, 0, s as int));
            lemma_rsum_concat(m, 0, s as int, s as int + 1);
            assert(rsum(m, s as int, s as int + 1) == m[s as int] + rsum(
                m,
                s as int + 1,
                s as int + 1,
            ));
            assert(m[s as int] >= 1);
            lemma_prefix_monotone(m, s as int + 1, m.len() as int);
            assert(lowerc + 1 <= upperc <= denom);
            lemma_narrow_bounds(
                self.low as int,
                self.high as int,
                lowerc as int,
                upperc as int,
                denom as int,
            );
            assert(range * upperc <= 0x10000 * 0x3fff) by (nonlinear_arith)
                requires
                    0 <= range <= 0x10000,
                    0 <= upperc <= 0x3fff,
            ;
            assert(range * lowerc <= 0x10000 * 0x3fff) by (nonlinear_arith)
                requires
                    0 <= range <= 0x10000,
                    0 <= lowerc <= 0x3fff,
            ;
            lemma_value_bracket(
                self.low as int,
                self.high as int,
                self.value as int,
                lowerc as int,
                upperc as int,
                denom as int,
            );
        }
        let hi2: u32 = self.low + (range * upperc) / denom - 1;
        let lo2: u32 = self.low + (range * lowerc) / denom;
        self.high = hi2;
        self.low = lo2;
        let ghost l0 = self.low as int;
        let ghost h0 = self.high as int;
        let ghost v0 = self.value as int;
        let ghost pos0 = *pos as int;
        loop
            invariant
                self.model@ == m,
                self.model.wf(),
                model_ok(m),
                bits.wf(),
                0 <= self.low as int,
                self.low <= self.value,
                self.value <= self.high,
                self.high <= TOP,
                *pos <= bits@.len(),
                dec_renorm(l0, h0, v0, bits@, pos0) == dec_renorm(
                    self.low as int,
                    self.high as int,
                    self.value as int,
                    bits@,
                    *pos as int,
                ),
            ensures
                self.model@ == m,
                self.model.wf(),
                bits.wf(),
                range_ok(self.low as int, self.high as int),
                self.low <= self.value <= self.high,
                *pos <= bits@.len(),
                dec_renorm(l0, h0, v0, bits@, pos0) == (
                    self.low as int,
                    self.high as int,
                    self.value as int,
                    *pos as int,
                ),
            decreases 0x10000 - (self.high - self.low),
        {
            if self.high < HALF {
            } else if self.low >= HALF {
                self.value = self.value - HALF;
                self.low = self.low - HALF;
                self.high = self.high - HALF;
            } else if self.low >= FIRST_QTR && self.high < THIRD_QTR {
                self.value = self.value - FIRST_QTR;
                self.low = self.low - FIRST_QTR;
                self.high = self.high - FIRST_QTR;
            } else {
                break ;
            }
            let b: bool = next_bit_or_zero(bits, pos);
            self.low = self.low * 2;
            self.high = self.high * 2 + 1;
            self.value = self.value * 2 + if b {
                1
            } else {
                0
            };
        }
        s
    }
}

/// The scaled cumulative value is always below the model total.
proof fn lemma_cum_lt_denom(low: int, high: int, value: int, denom: int)
    requires
        0 <= low <= value <= high <= 0xffff,
        1 <= denom,
    ensures
        ((value - low + 1) * denom - 1) / (high - low + 1) < denom,
        ((value - low + 1) * denom - 1) >= 0,
{
    let r = high - low + 1;
    let n = value - low + 1;
    assert(n * denom >= 1) by (nonlinear_arith)
        requires
            n >= 1,
            denom >= 1,
    ;
    assert(n * denom <= r * denom) by (nonlinear_arith)
        requires
            n <= r,
            denom >= 0,
    ;
    assert(r * denom - 1 == (denom - 1) * r + (r - 1)) by (nonlinear_arith);
    vstd::arithmetic::div_mod::lemma_fundamental_div_mod_converse(
        r * denom - 1,
        r,
        denom - 1,
        r - 1,
    );
    assert((r * denom - 1) / r == denom - 1);
    lemma_div_is_ordered(n * denom - 1, r * denom - 1, r);
}

/// After narrowing by the symbol that `upper` picked, the window value
/// still lies inside the new range.
proof fn lemma_value_bracket(low: int, high: int, value: int, lo_c: int, up_c: int, denom: int)
    requires
        0 <= low <= value <= high <= 0xffff,
        1 <= denom,
        0 <= lo_c,
        lo_c <= ((value - low + 1) * denom - 1) / (high - low + 1),
        ((value - low + 1) * denom - 1) / (high - low + 1) < up_c,
    ensures
        narrow_low(low, high, lo_c, denom) <= value,
        value <= narrow_high(low, high, up_c, denom),
{
    let r = high - low + 1;
    let x = (value - low + 1) * denom - 1;
    let cum = x / r;
    assert((value - low + 1) * denom - 1 >= 0) by (nonlinear_arith)
        requires
            value - low + 1 >= 1,
            denom >= 1,
    ;
    lemma_fundamental_div_mod(x, r);
    assert(x == r * cum + x % r);
    assert(0 <= x % r < r);
    assert(r * lo_c <= r * cum) by (nonlinear_arith)
        requires
            lo_c <= cum,
            r >= 0,
    ;
    assert(r * cum <= x);
    assert((value - low + 1) * denom - 1 == (value - low) * denom + (denom - 1)) by (
    nonlinear_arith);
    vstd::arithmetic::div_mod::lemma_fundamental_div_mod_converse(
        x,
        denom,
        value - low,
        denom - 1,
    );
    assert(x / denom == value - low);
    lemma_div_is_ordered(r * lo_c, x, denom);
    assert((r * lo_c) / denom <= value - low);
    assert(r * (cum + 1) == r * cum + r) by (nonlinear_arith);
    assert(r * (cum + 1) >= x + 1);
    assert(r * (cum + 1) <= r * up_c) by (nonlinear_arith)
        requires
            cum + 1 <= up_c,
            r >= 0,
    ;
    assert(r * up_c >= (value - low + 1) * denom);
    assert(denom * (value - low + 1) == (value - low + 1) * denom) by (nonlinear_arith);
    lemma_div_multiples_vanish(value - low + 1, denom);
    lemma_div_is_ordered((value - low + 1) * denom, r * up_c, denom);
    assert((r * up_c) / denom >= value - low + 1);
}

/// Bounds for the narrowed range: it stays inside the old range, keeps
/// at least one value, and both divisions stay in step.
proof fn lemma_narrow_bounds(low: int, high: int, lo_c: int, hi_c: int, denom: int)
    requires
        0 <= low <= high <= 0xffff,
        high - low + 1 >= denom + 1,
        0 <= lo_c,
        lo_c + 1 <= hi_c <= denom,
        1 <= denom,
    ensures
        low <= narrow_low(low, high, lo_c, denom),
        narrow_low(low, high, lo_c, denom) <= narrow_high(low, high, hi_c, denom),
        narrow_high(low, high, hi_c, denom) <= high,
        ((high - low + 1) * lo_c) / denom >= 0,
        ((high - low + 1) * hi_c) / denom >= 1,
        ((high - low + 1) * hi_c) / denom <= high - low + 1,
{
    let r = high - low + 1;
    assert(r * lo_c >= 0) by (nonlinear_arith)
        requires
            r >= 0,
            lo_c >= 0,
    ;
    lemma_div_is_ordered(0, r * lo_c, denom);
    assert(r * hi_c <= r * denom) by (nonlinear_arith)
        requires
            hi_c <= denom,
            r >= 0,
    ;
    assert(denom * r == r * denom) by (nonlinear_arith);
    lemma_div_multiples_vanish(r, denom);
    lemma_div_is_ordered(r * hi_c, r * denom, denom);
    assert((r * denom) / denom == r);
    assert(r * hi_c >= r * (lo_c + 1)) by (nonlinear_arith)
        requires
            hi_c >= lo_c + 1,
            r >= 0,
    ;
    assert(r * (lo_c + 1) == r * lo_c + r) by (nonlinear_arith);
    assert(r * lo_c + denom <= r * (lo_c + 1));
    lemma_div_plus_one(r * lo_c, denom);
    lemma_div_is_ordered(r * lo_c + denom, r * hi_c, denom);
    assert(denom + r * lo_c == r * lo_c + denom);
    assert(r * hi_c >= r * 1) by (nonlinear_arith)
        requires
            hi_c >= 1,
            r >= 0,
    ;
    assert(r * 1 == r) by (nonlinear_arith);
    lemma_div_is_ordered(r, r * hi_c, denom);
    lemma_div_is_ordered(denom, r, denom);
    assert(denom / denom == 1) by {
        assert(denom * 1 == denom) by (nonlinear_arith);
        lemma_div_multiples_vanish(1, denom);
    }
}

} // verus!
