//! Streaming technical indicators: SMA, EMA, RSI, Bollinger Bands and
//! MACD. Each consumes one fixed-point tick per call and returns either
//! "not ready" (`None`) or a computed value, updating its own state
//! incrementally.
//!
//! Every calculator's behaviour is specified exactly by spec functions
//! over its mathematical window or current value; divisions truncate
//! toward zero as [`div_trunc`] defines.

use vstd::prelude::*;
use crate::fixed::{Fixed, in_range, in_range_wide, div_trunc, sum_seq, raws, FIXED_BOUND, SCALE};
use crate::fixed::{
    div_trunc_i128, mul_div_trunc, sum_fixed, lemma_div_trunc_bound, lemma_sum_seq_constant,
    lemma_sum_seq_bound, lemma_sum_seq_take, sqrt_floor, isqrt_u128,
};
use vstd::arithmetic::div_mod::{
    lemma_div_pos_is_pos, lemma_div_is_ordered, lemma_div_multiples_vanish, lemma_div_by_self,
};

verus! {

/// Largest window length a calculator accepts.
pub const MAX_PERIOD: usize = 10_000;

/// The raw value inside an optional fixed-point number.
pub open spec fn opt_raw(o: Option<Fixed>) -> Option<int> {
    match o {
        Option::Some(f) => Option::Some(f.raw as int),
        Option::None => Option::None,
    }
}

/// A bounded FIFO window after one more value arrives: push at the tail,
/// drop the head once the window would exceed `period`.
pub open spec fn window_push(w: Seq<int>, period: int, v: int) -> Seq<int> {
    let w2 = w.push(v);
    if w2.len() > period {
        w2.subrange(1, w2.len() as int)
    } else {
        w2
    }
}

/// A bounded window keeps its entries within any bounds that held of the
/// old entries and the new value.
pub proof fn lemma_window_push_bounds(w: Seq<int>, period: int, v: int, lo: int, hi: int)
    requires
        forall|i: int| 0 <= i < w.len() ==> lo <= #[trigger] w[i] <= hi,
        lo <= v <= hi,
    ensures
        forall|i: int|
            0 <= i < window_push(w, period, v).len() ==> lo <= #[trigger] window_push(
                w,
                period,
                v,
            )[i] <= hi,
{
    let w2 = w.push(v);
    assert forall|i: int| 0 <= i < w2.len() implies lo <= #[trigger] w2[i] <= hi by {
        if i < w.len() {
            assert(w2[i] == w[i]);
        } else {
            assert(w2[i] == v);
        }
    }
    if w2.len() > period {
        let ww = w2.subrange(1, w2.len() as int);
        assert forall|i: int| 0 <= i < ww.len() implies lo <= #[trigger] ww[i] <= hi by {
            assert(ww[i] == w2[i + 1]);
        }
    }
}

/// The mean of a full window: its sum divided by the period, truncated.
pub open spec fn sma_mean(w: Seq<int>, period: int) -> int {
    div_trunc(sum_seq(w), period)
}

/// Simple Moving Average calculator.
pub struct SMA {
    period: usize,
    values: Vec<Fixed>,
}

impl SMA {
    /// The configured window length.
    pub closed spec fn period_spec(&self) -> int {
        self.period as int
    }

    /// The raw values currently in the window, oldest first.
    pub closed spec fn window(&self) -> Seq<int> {
        raws(self.values@)
    }

    /// Well-formed state: a valid period and a window that never exceeds
    /// it, holding in-range values only.
    pub open spec fn wf(&self) -> bool {
        &&& 1 <= self.period_spec() <= MAX_PERIOD
        &&& self.window().len() <= self.period_spec()
        &&& forall|i: int| 0 <= i < self.window().len() ==> in_range(#[trigger] self.window()[i])
    }

    /// A fresh calculator with an empty window.
    pub fn new(period: usize) -> (r: SMA)
        requires
            1 <= period <= MAX_PERIOD,
        ensures
            r.wf(),
            r.period_spec() == period,
            r.window() == Seq::<int>::empty(),
    {
        let r = SMA { period, values: Vec::new() };
        proof {
            assert(r.window() =~= Seq::<int>::empty());
        }
        r
    }

    /// Push one value into the window; once the window holds exactly
    /// `period` values the mean of the window is returned, else `None`.
    pub fn update(&mut self, value: Fixed) -> (r: Option<Fixed>)
        requires
            old(self).wf(),
            in_range(value.raw as int),
        ensures
            final(self).wf(),
            final(self).period_spec() == old(self).period_spec(),
            final(self).window() == window_push(
                old(self).window(),
                old(self).period_spec(),
                value.raw as int,
            ),
            final(self).window().len() == old(self).period_spec() ==> (r matches Some(f) && f.raw
                == sma_mean(final(self).window(), old(self).period_spec()) && in_range(
                f.raw as int,
            )),
            final(self).window().len() < old(self).period_spec() ==> r is None,
    {
        let ghost w0 = self.window();
        self.values.push(value);
        if self.values.len() > self.period {
            self.values.remove(0);
        }
        proof {
            assert(self.window() =~= window_push(w0, self.period as int, value.raw as int));
        }
        if self.values.len() == self.period {
            proof {
                assert forall|i: int| 0 <= i < self.values@.len() implies in_range_wide(
                    (#[trigger] self.values@[i]).raw as int,
                ) by {
                    assert(self.window()[i] == self.values@[i].raw as int);
                    assert(in_range(self.window()[i]));
                }
            }
            let s = sum_fixed(&self.values);
            proof {
                lemma_sum_seq_bound(self.window(), -(FIXED_BOUND as int), FIXED_BOUND as int);
                assert((self.period as int) * FIXED_BOUND == (self.window().len() as int)
                    * FIXED_BOUND);
                lemma_div_trunc_bound(sum_seq(self.window()), self.period as int, FIXED_BOUND as int);
            }
            let m = div_trunc_i128(s, self.period as i128);
            Some(Fixed { raw: m })
        } else {
            None
        }
    }

    /// Clear the window, returning to the cold-start state.
    pub fn reset(&mut self)
        ensures
            final(self).wf() <== old(self).wf(),
            final(self).period_spec() == old(self).period_spec(),
            final(self).window() == Seq::<int>::empty(),
    {
        self.values.clear();
        proof {
            assert(self.window() =~= Seq::<int>::empty());
        }
    }
}

/// A full window of one repeated value averages to exactly that value.
pub proof fn lemma_sma_constant(w: Seq<int>, period: int, v: int)
    requires
        w.len() == period,
        period >= 1,
        forall|i: int| 0 <= i < w.len() ==> #[trigger] w[i] == v,
    ensures
        sma_mean(w, period) == v,
{
    lemma_sum_seq_constant(w, v);
    if v >= 0 {
        lemma_div_multiples_vanish(v, period);
        assert(period * v == w.len() * v);
    } else {
        lemma_div_multiples_vanish(-v, period);
        assert(period * (-v) == -(w.len() * v)) by (nonlinear_arith)
            requires
                w.len() == period,
        ;
    }
}

/// The EMA recurrence: move from `prev` toward `v` by the fraction
/// `m / SCALE` of the gap, truncated.
pub open spec fn ema_next(prev: int, v: int, m: int) -> int {
    prev + div_trunc((v - prev) * m, SCALE as int)
}

/// One EMA update: the first value seeds the average, later values move
/// it by the multiplier.
pub open spec fn ema_step(cur: Option<int>, v: int, m: int) -> int {
    match cur {
        Option::None => v,
        Option::Some(prev) => ema_next(prev, v, m),
    }
}

/// One EMA step lands between the previous value and the new input:
/// the approach toward a constant input is monotone and never
/// overshoots. It is strict while the remaining gap, scaled by the
/// multiplier, is at least one fixed-point unit.
pub proof fn lemma_ema_no_overshoot(prev: int, v: int, m: int)
    requires
        0 <= m <= SCALE,
    ensures
        prev <= v ==> prev <= ema_next(prev, v, m) <= v,
        v <= prev ==> v <= ema_next(prev, v, m) <= prev,
        prev < v && (v - prev) * m >= SCALE ==> prev < ema_next(prev, v, m),
        v < prev && (prev - v) * m >= SCALE ==> ema_next(prev, v, m) < prev,
{
    let d = v - prev;
    let a = d * m;
    let ad = if d >= 0 {
        d
    } else {
        -d
    };
    assert(-(SCALE * ad) <= a <= SCALE * ad) by (nonlinear_arith)
        requires
            0 <= m <= SCALE,
            a == d * m,
            ad == (if d >= 0 {
                d
            } else {
                -d
            }),
    ;
    assert(d >= 0 ==> a >= 0) by (nonlinear_arith)
        requires
            m >= 0,
            a == d * m,
    ;
    assert(d < 0 ==> a <= 0) by (nonlinear_arith)
        requires
            m >= 0,
            a == d * m,
    ;
    assert(-a == (-d) * m) by (nonlinear_arith)
        requires
            a == d * m,
    ;
    lemma_div_trunc_bound(a, SCALE as int, ad);
    if d >= 0 {
        lemma_div_pos_is_pos(a, SCALE as int);
    } else {
        lemma_div_pos_is_pos(-a, SCALE as int);
    }
    if d > 0 && a >= SCALE {
        lemma_div_by_self(SCALE as int);
        lemma_div_is_ordered(SCALE as int, a, SCALE as int);
    }
    if d < 0 && (-d) * m >= SCALE {
        lemma_div_by_self(SCALE as int);
        lemma_div_is_ordered(SCALE as int, -a, SCALE as int);
    }
}

/// Exponential Moving Average calculator.
pub struct EMA {
    period: usize,
    multiplier: Fixed,
    current: Option<Fixed>,
}

impl EMA {
    /// The configured period.
    pub closed spec fn period_spec(&self) -> int {
        self.period as int
    }

    /// The smoothing multiplier, fixed at construction.
    pub closed spec fn multiplier_spec(&self) -> int {
        self.multiplier.raw as int
    }

    /// The current average, `None` until the first update.
    pub closed spec fn current_spec(&self) -> Option<int> {
        opt_raw(self.current)
    }

    /// Well-formed state: the multiplier is `2 / (period + 1)` in
    /// fixed-point, and the current value stays in the EMA range.
    pub open spec fn wf(&self) -> bool {
        &&& 1 <= self.period_spec() <= MAX_PERIOD
        &&& self.multiplier_spec() == div_trunc(2 * (SCALE as int), self.period_spec() + 1)
        &&& match self.current_spec() {
            Option::Some(c) => in_range_wide(c),
            Option::None => true,
        }
    }

    /// A fresh calculator; the multiplier `2 / (period + 1)` is computed
    /// and fixed here.
    pub fn new(period: usize) -> (r: EMA)
        requires
            1 <= period <= MAX_PERIOD,
        ensures
            r.wf(),
            r.period_spec() == period,
            r.multiplier_spec() == div_trunc(2 * (SCALE as int), period + 1),
            r.current_spec() is None,
    {
        let m = div_trunc_i128(2 * SCALE, (period as i128) + 1);
        EMA { period, multiplier: Fixed { raw: m }, current: None }
    }

    /// Feed one value: the first call seeds the average with the value
    /// itself; later calls move it by the multiplier. Always returns a
    /// value.
    pub fn update(&mut self, value: Fixed) -> (r: Option<Fixed>)
        requires
            old(self).wf(),
            in_range_wide(value.raw as int),
        ensures
            final(self).wf(),
            final(self).period_spec() == old(self).period_spec(),
            final(self).multiplier_spec() == old(self).multiplier_spec(),
            final(self).current_spec() == Some(
                ema_step(old(self).current_spec(), value.raw as int, old(self).multiplier_spec()),
            ),
            r matches Some(f) && f.raw == ema_step(
                old(self).current_spec(),
                value.raw as int,
                old(self).multiplier_spec(),
            ),
            old(self).current_spec() is None ==> r == Some(value),
    {
        proof {
            assert(2 * (SCALE as int) <= (self.period_spec() + 1) * (SCALE as int))
                by (nonlinear_arith)
                requires
                    self.period_spec() >= 1,
                    SCALE >= 1,
            ;
            lemma_div_trunc_bound(2 * (SCALE as int), self.period_spec() + 1, SCALE as int);
            lemma_div_pos_is_pos(2 * (SCALE as int), self.period_spec() + 1);
            assert(0 <= self.multiplier_spec() <= SCALE);
        }
        match self.current {
            Some(prev) => {
                proof {
                    let d = value.raw as int - prev.raw as int;
                    assert(-8 * (FIXED_BOUND as int) * (SCALE as int) <= d * self.multiplier_spec()
                        <= 8 * (FIXED_BOUND as int) * (SCALE as int)) by (nonlinear_arith)
                        requires
                            -4 * (FIXED_BOUND as int) <= d <= 4 * (FIXED_BOUND as int),
                            0 <= self.multiplier_spec() <= SCALE,
                            SCALE == 1_000_000i128,
                            FIXED_BOUND == 1_000_000_000_000_000i128,
                    ;
                    lemma_ema_no_overshoot(
                        prev.raw as int,
                        value.raw as int,
                        self.multiplier_spec(),
                    );
                }
                let t = mul_div_trunc(value.raw - prev.raw, self.multiplier.raw, SCALE);
                let e = prev.raw + t;
                self.current = Some(Fixed { raw: e });
                Some(Fixed { raw: e })
            },
            None => {
                self.current = Some(value);
                Some(value)
            },
        }
    }

    /// Clear the average, returning to the uninitialized state.
    pub fn reset(&mut self)
        ensures
            final(self).wf() <== old(self).wf(),
            final(self).period_spec() == old(self).period_spec(),
            final(self).multiplier_spec() == old(self).multiplier_spec(),
            final(self).current_spec() is None,
    {
        self.current = None;
    }
}

/// The gain recorded for a price change: the change if it is positive,
/// else zero.
pub open spec fn gain_of(change: int) -> int {
    if change > 0 {
        change
    } else {
        0
    }
}

/// The loss recorded for a price change: its magnitude if the change is
/// not positive, else zero.
pub open spec fn loss_of(change: int) -> int {
    if change > 0 {
        0
    } else {
        -change
    }
}

/// The RSI for a pair of average gain and average loss: `100` when the
/// average loss is zero, else `100 - 100 / (1 + RS)` with
/// `RS = avg_gain / avg_loss`, in fixed point.
pub open spec fn rsi_from_avgs(avg_gain: int, avg_loss: int) -> int {
    if avg_loss == 0 {
        100 * (SCALE as int)
    } else {
        100 * (SCALE as int) - div_trunc(
            100 * (SCALE as int) * (SCALE as int),
            (SCALE as int) + div_trunc(avg_gain * (SCALE as int), avg_loss),
        )
    }
}

/// The RSI of full gain and loss windows: computed from the two means.
pub open spec fn rsi_value(gains: Seq<int>, losses: Seq<int>, period: int) -> int {
    rsi_from_avgs(div_trunc(sum_seq(gains), period), div_trunc(sum_seq(losses), period))
}

/// The RSI of nonnegative averages always lies between 0 and 100, and is
/// exactly 100 when the average loss is zero.
pub proof fn lemma_rsi_range(avg_gain: int, avg_loss: int)
    requires
        avg_gain >= 0,
        avg_loss >= 0,
    ensures
        0 <= rsi_from_avgs(avg_gain, avg_loss) <= 100 * (SCALE as int),
        avg_loss == 0 ==> rsi_from_avgs(avg_gain, avg_loss) == 100 * (SCALE as int),
{
    if avg_loss != 0 {
        let s = SCALE as int;
        lemma_div_pos_is_pos(avg_gain * s, avg_loss);
        assert(avg_gain * s >= 0) by (nonlinear_arith)
            requires
                avg_gain >= 0,
                s >= 0,
        ;
        let rs = div_trunc(avg_gain * s, avg_loss);
        let denom = s + rs;
        lemma_div_pos_is_pos(100 * s * s, denom);
        vstd::arithmetic::div_mod::lemma_div_is_ordered_by_denominator(100 * s * s, s, denom);
        lemma_div_multiples_vanish(100 * s, s);
        assert(s * (100 * s) == 100 * s * s) by (nonlinear_arith);
        assert(div_trunc(100 * s * s, denom) <= 100 * s);
    }
}

/// An all-zero loss window yields an RSI of exactly 100, whatever the
/// gains: an unbroken uptrend saturates the index.
pub proof fn lemma_rsi_uptrend(gains: Seq<int>, losses: Seq<int>, period: int)
    requires
        period >= 1,
        forall|i: int| 0 <= i < losses.len() ==> #[trigger] losses[i] == 0,
    ensures
        rsi_value(gains, losses, period) == 100 * (SCALE as int),
{
    lemma_sum_seq_constant(losses, 0);
    assert(sum_seq(losses) == losses.len() * 0);
    vstd::arithmetic::div_mod::lemma_div_of0(period);
}

/// The loss window an RSI holds after a sequence of closes: each close
/// past the first contributes the loss of its change from the close
/// before it.
pub open spec fn losses_after(period: int, closes: Seq<int>) -> Seq<int>
    decreases closes.len(),
{
    if closes.len() <= 1 {
        Seq::empty()
    } else {
        window_push(
            losses_after(period, closes.drop_last()),
            period,
            loss_of(closes.last() - closes[closes.len() - 2]),
        )
    }
}

/// An unbroken uptrend records only zero losses, and after at least
/// `period + 1` strictly rising closes the loss window is full of them:
/// the RSI of any gains against that window is exactly 100.
pub proof fn lemma_rsi_uptrend_stream(period: int, closes: Seq<int>, gains: Seq<int>)
    requires
        period >= 1,
        closes.len() >= period + 1,
        forall|i: int| 0 <= i < closes.len() - 1 ==> #[trigger] closes[i] < closes[i + 1],
    ensures
        losses_after(period, closes).len() == period,
        rsi_value(gains, losses_after(period, closes), period) == 100 * (SCALE as int),
{
    lemma_losses_after_uptrend(period, closes);
    lemma_rsi_uptrend(gains, losses_after(period, closes), period);
}

/// In an uptrend the loss window grows by one zero per close until it
/// holds `period` zeros.
proof fn lemma_losses_after_uptrend(period: int, closes: Seq<int>)
    requires
        period >= 1,
        forall|i: int| 0 <= i < closes.len() - 1 ==> #[trigger] closes[i] < closes[i + 1],
    ensures
        closes.len() <= period + 1 ==> losses_after(period, closes).len() == closes.len() - 1
            || closes.len() == 0,
        closes.len() > period + 1 ==> losses_after(period, closes).len() == period,
        closes.len() == 0 ==> losses_after(period, closes).len() == 0,
        forall|i: int|
            0 <= i < losses_after(period, closes).len() ==> #[trigger] losses_after(
                period,
                closes,
            )[i] == 0,
    decreases closes.len(),
{
    if closes.len() > 1 {
        assert(forall|i: int|
            0 <= i < closes.drop_last().len() - 1 ==> #[trigger] closes.drop_last()[i]
                < closes.drop_last()[i + 1]) by {
            assert(forall|i: int|
                0 <= i < closes.len() - 1 ==> #[trigger] closes[i] < closes[i + 1]);
        }
        lemma_losses_after_uptrend(period, closes.drop_last());
        assert(closes[closes.len() - 2] < closes[closes.len() - 1]);
        assert(loss_of(closes.last() - closes[closes.len() - 2]) == 0);
        lemma_window_push_bounds(losses_after(period, closes.drop_last()), period, 0, 0, 0);
    }
}

/// RSI (Relative Strength Index) calculator.
pub struct RSI {
    period: usize,
    gains: Vec<Fixed>,
    losses: Vec<Fixed>,
    prev_close: Option<Fixed>,
}

impl RSI {
    /// The configured window length.
    pub closed spec fn period_spec(&self) -> int {
        self.period as int
    }

    /// The recorded gains, oldest first.
    pub closed spec fn gains_spec(&self) -> Seq<int> {
        raws(self.gains@)
    }

    /// The recorded losses, oldest first.
    pub closed spec fn losses_spec(&self) -> Seq<int> {
        raws(self.losses@)
    }

    /// The previous close, `None` before the first update.
    pub closed spec fn prev_close_spec(&self) -> Option<int> {
        opt_raw(self.prev_close)
    }

    /// Well-formed state: the two windows move in lockstep, never exceed
    /// the period, and hold nonnegative bounded entries.
    pub open spec fn wf(&self) -> bool {
        &&& 1 <= self.period_spec() <= MAX_PERIOD
        &&& self.gains_spec().len() == self.losses_spec().len()
        &&& self.gains_spec().len() <= self.period_spec()
        &&& forall|i: int|
            0 <= i < self.gains_spec().len() ==> 0 <= #[trigger] self.gains_spec()[i] <= 2 * (
            FIXED_BOUND as int)
        &&& forall|i: int|
            0 <= i < self.losses_spec().len() ==> 0 <= #[trigger] self.losses_spec()[i] <= 2 * (
            FIXED_BOUND as int)
        &&& match self.prev_close_spec() {
            Option::Some(c) => in_range(c),
            Option::None => true,
        }
    }

    /// A fresh calculator with empty windows and no previous close.
    pub fn new(period: usize) -> (r: RSI)
        requires
            1 <= period <= MAX_PERIOD,
        ensures
            r.wf(),
            r.period_spec() == period,
            r.gains_spec() == Seq::<int>::empty(),
            r.losses_spec() == Seq::<int>::empty(),
            r.prev_close_spec() is None,
    {
        let r = RSI { period, gains: Vec::new(), losses: Vec::new(), prev_close: None };
        proof {
            assert(r.gains_spec() =~= Seq::<int>::empty());
            assert(r.losses_spec() =~= Seq::<int>::empty());
        }
        r
    }

    /// Feed one close. The first call only records it. Later calls
    /// classify the change into the gain and loss windows; once both
    /// windows hold exactly `period` entries the RSI of their means is
    /// returned, always within `[0, 100]`.
    pub fn update(&mut self, close: Fixed) -> (r: Option<Fixed>)
        requires
            old(self).wf(),
            in_range(close.raw as int),
        ensures
            final(self).wf(),
            final(self).period_spec() == old(self).period_spec(),
            final(self).prev_close_spec() == Some(close.raw as int),
            old(self).prev_close_spec() is None ==> final(self).gains_spec() == old(
                self,
            ).gains_spec() && final(self).losses_spec() == old(self).losses_spec() && r is None,
            old(self).prev_close_spec() matches Some(prev) ==> final(self).gains_spec()
                == window_push(
                old(self).gains_spec(),
                old(self).period_spec(),
                gain_of(close.raw - prev),
            ) && final(self).losses_spec() == window_push(
                old(self).losses_spec(),
                old(self).period_spec(),
                loss_of(close.raw - prev),
            ),
            old(self).prev_close_spec() is Some && final(self).gains_spec().len() == old(
                self,
            ).period_spec() ==> (r matches Some(f) && f.raw == rsi_value(
                final(self).gains_spec(),
                final(self).losses_spec(),
                old(self).period_spec(),
            ) && 0 <= f.raw <= 100 * (SCALE as int)),
            old(self).prev_close_spec() is None || final(self).gains_spec().len() < old(
                self,
            ).period_spec() ==> r is None,
    {
        match self.prev_close {
            Some(prev) => {
                let change = close.raw - prev.raw;
                let g: i128 = if change > 0 {
                    change
                } else {
                    0
                };
                let l: i128 = if change > 0 {
                    0
                } else {
                    -change
                };
                let ghost g0 = self.gains_spec();
                let ghost l0 = self.losses_spec();
                self.gains.push(Fixed { raw: g });
                self.losses.push(Fixed { raw: l });
                if self.gains.len() > self.period {
                    self.gains.remove(0);
                    self.losses.remove(0);
                }
                proof {
                    assert(self.gains_spec() =~= window_push(
                        g0,
                        self.period as int,
                        gain_of(close.raw - prev.raw),
                    ));
                    assert(self.losses_spec() =~= window_push(
                        l0,
                        self.period as int,
                        loss_of(close.raw - prev.raw),
                    ));
                    lemma_window_push_bounds(
                        g0,
                        self.period as int,
                        gain_of(close.raw - prev.raw),
                        0,
                        2 * (FIXED_BOUND as int),
                    );
                    lemma_window_push_bounds(
                        l0,
                        self.period as int,
                        loss_of(close.raw - prev.raw),
                        0,
                        2 * (FIXED_BOUND as int),
                    );
                }
                self.prev_close = Some(close);
                if self.gains.len() == self.period {
                    proof {
                        assert forall|i: int| 0 <= i < self.gains@.len() implies in_range_wide(
                            (#[trigger] self.gains@[i]).raw as int,
                        ) by {
                            assert(self.gains_spec()[i] == self.gains@[i].raw as int);
                            assert(0 <= self.gains_spec()[i] <= 2 * (FIXED_BOUND as int));
                        }
                        assert forall|i: int| 0 <= i < self.losses@.len() implies in_range_wide(
                            (#[trigger] self.losses@[i]).raw as int,
                        ) by {
                            assert(self.losses_spec()[i] == self.losses@[i].raw as int);
                            assert(0 <= self.losses_spec()[i] <= 2 * (FIXED_BOUND as int));
                        }
                    }
                    let gs = sum_fixed(&self.gains);
                    let ls = sum_fixed(&self.losses);
                    proof {
                        lemma_sum_seq_bound(self.gains_spec(), 0, 2 * (FIXED_BOUND as int));
                        lemma_sum_seq_bound(self.losses_spec(), 0, 2 * (FIXED_BOUND as int));
                        lemma_div_trunc_bound(gs as int, self.period as int, 2 * (FIXED_BOUND as int));
                        lemma_div_trunc_bound(ls as int, self.period as int, 2 * (FIXED_BOUND as int));
                        lemma_div_pos_is_pos(gs as int, self.period as int);
                        lemma_div_pos_is_pos(ls as int, self.period as int);
                        assert((self.period as int) * (2 * (FIXED_BOUND as int))
                            == (self.gains_spec().len() as int) * (2 * (FIXED_BOUND as int)));
                        assert((self.period as int) * (2 * (FIXED_BOUND as int))
                            == (self.losses_spec().len() as int) * (2 * (FIXED_BOUND as int)));
                    }
                    let avg_gain = div_trunc_i128(gs, self.period as i128);
                    let avg_loss = div_trunc_i128(ls, self.period as i128);
                    proof {
                        lemma_rsi_range(avg_gain as int, avg_loss as int);
                    }
                    if avg_loss == 0 {
                        Some(Fixed { raw: 100 * SCALE })
                    } else {
                        proof {
                            assert(-i128::MAX <= avg_gain * SCALE <= i128::MAX)
                                by (nonlinear_arith)
                                requires
                                    0 <= avg_gain <= 2_000_000_000_000_000i128,
                                    SCALE == 1_000_000i128,
                            ;
                            assert(avg_gain * SCALE >= 0) by (nonlinear_arith)
                                requires
                                    avg_gain >= 0,
                                    SCALE >= 0,
                            ;
                            lemma_div_pos_is_pos(avg_gain * SCALE, avg_loss as int);
                        }
                        let rs = mul_div_trunc(avg_gain, SCALE, avg_loss);
                        let denom = SCALE + rs;
                        let q = div_trunc_i128(100 * SCALE * SCALE, denom);
                        proof {
                            lemma_div_pos_is_pos(100 * (SCALE as int) * (SCALE as int), denom as int);
                            vstd::arithmetic::div_mod::lemma_div_is_ordered_by_denominator(
                                100 * (SCALE as int) * (SCALE as int),
                                SCALE as int,
                                denom as int,
                            );
                            lemma_div_multiples_vanish(100 * (SCALE as int), SCALE as int);
                            assert((SCALE as int) * (100 * (SCALE as int)) == 100 * (SCALE as int) * (
                            SCALE as int)) by (nonlinear_arith);
                        }
                        Some(Fixed { raw: 100 * SCALE - q })
                    }
                } else {
                    None
                }
            },
            None => {
                self.prev_close = Some(close);
                None
            },
        }
    }

    /// Clear both windows and the previous close.
    pub fn reset(&mut self)
        ensures
            final(self).wf() <== old(self).wf(),
            final(self).period_spec() == old(self).period_spec(),
            final(self).gains_spec() == Seq::<int>::empty(),
            final(self).losses_spec() == Seq::<int>::empty(),
            final(self).prev_close_spec() is None,
    {
        self.gains.clear();
        self.losses.clear();
        self.prev_close = None;
        proof {
            assert(self.gains_spec() =~= Seq::<int>::empty());
            assert(self.losses_spec() =~= Seq::<int>::empty());
        }
    }
}

/// The window left after feeding a whole sequence of values, one
/// [`window_push`] at a time, into an empty window.
pub open spec fn window_after(period: int, inputs: Seq<int>) -> Seq<int>
    decreases inputs.len(),
{
    if inputs.len() == 0 {
        Seq::empty()
    } else {
        window_push(window_after(period, inputs.drop_last()), period, inputs.last())
    }
}

/// Warm-up: after `k` values a bounded window holds `min(k, period)` of
/// them, so a windowed calculator (SMA, Bollinger Bands, or RSI counting
/// its recorded changes) is ready — its window full — exactly from the
/// `period`-th qualifying value on, and not before.
pub proof fn lemma_window_warmup(period: int, inputs: Seq<int>)
    requires
        period >= 1,
    ensures
        inputs.len() <= period ==> window_after(period, inputs).len() == inputs.len(),
        inputs.len() > period ==> window_after(period, inputs).len() == period,
        window_after(period, inputs).len() == period <==> inputs.len() >= period,
    decreases inputs.len(),
{
    if inputs.len() > 0 {
        lemma_window_warmup(period, inputs.drop_last());
    }
}

/// A constant input stream leaves only that constant in the window, so
/// a full window averages to exactly the streamed value and has zero
/// variance: the steady-state SMA output, and all three Bollinger bands,
/// equal the constant.
pub proof fn lemma_constant_stream_window(period: int, inputs: Seq<int>, v: int)
    requires
        forall|i: int| 0 <= i < inputs.len() ==> #[trigger] inputs[i] == v,
    ensures
        forall|i: int|
            0 <= i < window_after(period, inputs).len() ==> #[trigger] window_after(
                period,
                inputs,
            )[i] == v,
    decreases inputs.len(),
{
    if inputs.len() > 0 {
        assert(forall|i: int|
            0 <= i < inputs.drop_last().len() ==> #[trigger] inputs.drop_last()[i] == v);
        lemma_constant_stream_window(period, inputs.drop_last(), v);
        lemma_window_push_bounds(window_after(period, inputs.drop_last()), period, v, v, v);
    }
}

/// The squared deviation of a value from a mean, in fixed point: always
/// nonnegative.
pub open spec fn sq_dev(x: int, mean: int) -> int {
    div_trunc((x - mean) * (x - mean), SCALE as int)
}

/// The population variance of a window against a mean: the average of
/// the fixed-point squared deviations, truncated.
pub open spec fn bb_variance(w: Seq<int>, mean: int, period: int) -> int {
    div_trunc(sum_seq(w.map_values(|x: int| sq_dev(x, mean))), period)
}

/// The half-width of the bands: the multiplier times the square root of
/// the variance, in fixed point.
pub open spec fn bb_band(w: Seq<int>, mean: int, period: int, k: int) -> int {
    div_trunc(k * sqrt_floor(bb_variance(w, mean, period) * (SCALE as int)), SCALE as int)
}

/// A window of one repeated value has zero variance, so its bands
/// coincide: upper, middle and lower all equal the value.
pub proof fn lemma_bb_constant(w: Seq<int>, period: int, v: int, k: int)
    requires
        w.len() == period,
        period >= 1,
        forall|i: int| 0 <= i < w.len() ==> #[trigger] w[i] == v,
    ensures
        sma_mean(w, period) == v,
        bb_band(w, v, period, k) == 0,
{
    lemma_sma_constant(w, period, v);
    let sq = w.map_values(|x: int| sq_dev(x, v));
    assert forall|i: int| 0 <= i < sq.len() implies #[trigger] sq[i] == 0 by {
        assert(w[i] == v);
        assert(sq[i] == sq_dev(w[i], v));
        vstd::arithmetic::div_mod::lemma_div_of0(SCALE as int);
    }
    lemma_sum_seq_constant(sq, 0);
    assert(sum_seq(sq) == sq.len() * 0);
    vstd::arithmetic::div_mod::lemma_div_of0(period);
    assert(bb_variance(w, v, period) == 0);
    crate::fixed::lemma_sqrt_floor_unique(0, 0);
    assert(k * 0 == 0) by (nonlinear_arith);
    vstd::arithmetic::div_mod::lemma_div_of0(SCALE as int);
}

/// Sum of the fixed-point squared deviations of a window from a mean.
fn sum_sq_dev(values: &Vec<Fixed>, mean: i128) -> (s: i128)
    requires
        forall|i: int| 0 <= i < values@.len() ==> in_range((#[trigger] values@[i]).raw as int),
        in_range(mean as int),
        values@.len() <= MAX_PERIOD,
    ensures
        s == sum_seq(raws(values@).map_values(|x: int| sq_dev(x, mean as int))),
        0 <= s <= (values@.len() as int) * 4_000_000_000_000_000_000_000_000int,
{
    let ghost q = raws(values@).map_values(|x: int| sq_dev(x, mean as int));
    let mut acc: i128 = 0;
    let mut i: usize = 0;
    proof {
        assert(q.take(0) =~= Seq::<int>::empty());
    }
    while i < values.len()
        invariant
            forall|j: int| 0 <= j < values@.len() ==> in_range((#[trigger] values@[j]).raw as int),
            in_range(mean as int),
            values@.len() <= MAX_PERIOD,
            q == raws(values@).map_values(|x: int| sq_dev(x, mean as int)),
            0 <= i <= values@.len(),
            acc == sum_seq(q.take(i as int)),
            0 <= acc <= (i as int) * 4_000_000_000_000_000_000_000_000int,
        decreases values@.len() - i,
    {
        proof {
            lemma_sum_seq_take(q, i as int);
            assert(q[i as int] == sq_dev(values@[i as int].raw as int, mean as int));
        }
        let d = values[i].raw - mean;
        proof {
            let di = d as int;
            assert(0 <= di * di <= 4_000_000_000_000_000_000_000_000_000_000int)
                by (nonlinear_arith)
                requires
                    -2_000_000_000_000_000int <= di <= 2_000_000_000_000_000int,
            ;
            lemma_div_pos_is_pos(di * di, SCALE as int);
            assert((SCALE as int) * 4_000_000_000_000_000_000_000_000int
                == 4_000_000_000_000_000_000_000_000_000_000int) by (nonlinear_arith)
                requires
                    SCALE == 1_000_000i128,
            ;
            lemma_div_trunc_bound(di * di, SCALE as int, 4_000_000_000_000_000_000_000_000int);
            let ii = i as int;
            let c = 4_000_000_000_000_000_000_000_000int;
            assert(ii * c + c == (ii + 1) * c) by (nonlinear_arith);
            assert((ii + 1) * c <= 40_000_000_000_000_000_000_000_000_000int) by (nonlinear_arith)
                requires
                    0 <= ii + 1 <= 10_000int,
                    c == 4_000_000_000_000_000_000_000_000int,
            ;
        }
        let sq = mul_div_trunc(d, d, SCALE);
        acc = acc + sq;
        i += 1;
    }
    proof {
        assert(q.take(values@.len() as int) =~= q);
    }
    acc
}

/// Bollinger Bands calculator: a moving average with bands a fixed
/// multiple of the standard deviation above and below it.
pub struct BollingerBands {
    sma: SMA,
    period: usize,
    std_dev: Fixed,
    values: Vec<Fixed>,
}

impl BollingerBands {
    /// The configured window length.
    pub closed spec fn period_spec(&self) -> int {
        self.period as int
    }

    /// The standard-deviation multiplier, fixed at construction.
    pub closed spec fn std_dev_spec(&self) -> int {
        self.std_dev.raw as int
    }

    /// The raw values currently in the window, oldest first.
    pub closed spec fn window(&self) -> Seq<int> {
        raws(self.values@)
    }

    /// Well-formed state: the owned moving average sees exactly the same
    /// window as the local one kept for the variance.
    pub closed spec fn wf(&self) -> bool {
        &&& self.sma.wf()
        &&& self.sma.period_spec() == self.period as int
        &&& self.sma.window() == raws(self.values@)
        &&& 1 <= self.period as int <= MAX_PERIOD
        &&& in_range(self.std_dev.raw as int)
    }

    /// A fresh calculator with an empty window.
    pub fn new(period: usize, std_dev: Fixed) -> (r: BollingerBands)
        requires
            1 <= period <= MAX_PERIOD,
            in_range(std_dev.raw as int),
        ensures
            r.wf(),
            r.period_spec() == period,
            r.std_dev_spec() == std_dev.raw,
            r.window() == Seq::<int>::empty(),
    {
        let r = BollingerBands { sma: SMA::new(period), period, std_dev, values: Vec::new() };
        proof {
            assert(r.window() =~= Seq::<int>::empty());
        }
        r
    }

    /// Feed one value into the window and the owned moving average; once
    /// the window is full, return `(upper, middle, lower)`: the mean and
    /// the bands `std_dev` standard deviations around it. With a
    /// nonnegative multiplier the bands always straddle the middle.
    pub fn update(&mut self, value: Fixed) -> (r: Option<(Fixed, Fixed, Fixed)>)
        requires
            old(self).wf(),
            in_range(value.raw as int),
        ensures
            final(self).wf(),
            final(self).period_spec() == old(self).period_spec(),
            final(self).std_dev_spec() == old(self).std_dev_spec(),
            final(self).window() == window_push(
                old(self).window(),
                old(self).period_spec(),
                value.raw as int,
            ),
            r is Some <==> final(self).window().len() == old(self).period_spec(),
            r matches Some(t) ==> t.1.raw == sma_mean(final(self).window(), old(self).period_spec())
                && t.0.raw == t.1.raw + bb_band(
                final(self).window(),
                t.1.raw as int,
                old(self).period_spec(),
                old(self).std_dev_spec(),
            ) && t.2.raw == t.1.raw - bb_band(
                final(self).window(),
                t.1.raw as int,
                old(self).period_spec(),
                old(self).std_dev_spec(),
            ),
            old(self).std_dev_spec() >= 0 ==> (r matches Some(t) ==> t.0.raw >= t.1.raw
                >= t.2.raw),
    {
        let ghost w0 = raws(self.values@);
        self.values.push(value);
        if self.values.len() > self.period {
            self.values.remove(0);
        }
        proof {
            assert(raws(self.values@) =~= window_push(w0, self.period as int, value.raw as int));
        }
        let mid_opt = self.sma.update(value);
        match mid_opt {
            Some(mid) => {
                if self.values.len() == self.period {
                    proof {
                        assert forall|i: int| 0 <= i < self.values@.len() implies in_range(
                            (#[trigger] self.values@[i]).raw as int,
                        ) by {
                            assert(self.sma.window()[i] == self.values@[i].raw as int);
                            assert(in_range(self.sma.window()[i]));
                        }
                    }
                    let ssum = sum_sq_dev(&self.values, mid.raw);
                    proof {
                        lemma_div_pos_is_pos(ssum as int, self.period as int);
                        assert((ssum as int) <= (self.period as int) * (ssum as int))
                            by (nonlinear_arith)
                            requires
                                self.period as int >= 1,
                                ssum >= 0,
                        ;
                        lemma_div_trunc_bound(ssum as int, self.period as int, ssum as int);
                        assert((self.values@.len() as int) * 4_000_000_000_000_000_000_000_000int
                            <= 40_000_000_000_000_000_000_000_000_000int) by (nonlinear_arith)
                            requires
                                self.values@.len() <= 10_000,
                        ;
                    }
                    let var = div_trunc_i128(ssum, self.period as i128);
                    let n: u128 = (var * SCALE) as u128;
                    let std_u = isqrt_u128(n);
                    proof {
                        assert(std_u as int <= 300_000_000_000_000_000int) by (nonlinear_arith)
                            requires
                                (std_u as int) * (std_u as int) <= (n as int),
                                n as int <= 40_000_000_000_000_000_000_000_000_000_000_000int,
                        ;
                    }
                    let std: i128 = std_u as i128;
                    proof {
                        let k = self.std_dev.raw as int;
                        assert(-i128::MAX <= k * (std as int) <= i128::MAX) by (nonlinear_arith)
                            requires
                                -1_000_000_000_000_000int <= k <= 1_000_000_000_000_000int,
                                0 <= std as int <= 300_000_000_000_000_000int,
                        ;
                        if k >= 0 {
                            assert(k * (std as int) >= 0) by (nonlinear_arith)
                                requires
                                    k >= 0,
                                    std >= 0,
                            ;
                            lemma_div_pos_is_pos(k * (std as int), SCALE as int);
                        }
                    }
                    let band = mul_div_trunc(self.std_dev.raw, std, SCALE);
                    let upper = mid.raw + band;
                    let lower = mid.raw - band;
                    proof {
                        crate::fixed::lemma_sqrt_floor_unique(n as int, std_u as int);
                        assert(n as int == bb_variance(
                            raws(self.values@),
                            mid.raw as int,
                            self.period as int,
                        ) * (SCALE as int));
                    }
                    Some((Fixed { raw: upper }, mid, Fixed { raw: lower }))
                } else {
                    None
                }
            },
            None => None,
        }
    }

    /// Reset the owned moving average and clear the window.
    pub fn reset(&mut self)
        ensures
            final(self).wf() <== old(self).wf(),
            final(self).period_spec() == old(self).period_spec(),
            final(self).std_dev_spec() == old(self).std_dev_spec(),
            final(self).window() == Seq::<int>::empty(),
    {
        self.sma.reset();
        self.values.clear();
        proof {
            assert(raws(self.values@) =~= Seq::<int>::empty());
        }
    }
}

/// The EMA multiplier `2 / (period + 1)` always lies between zero and
/// one (in fixed point) for a positive period.
pub proof fn lemma_ema_multiplier_range(period: int)
    requires
        1 <= period,
    ensures
        0 <= div_trunc(2 * (SCALE as int), period + 1) <= SCALE as int,
{
    assert(2 * (SCALE as int) <= (period + 1) * (SCALE as int)) by (nonlinear_arith)
        requires
            period >= 1,
            SCALE >= 1,
    ;
    lemma_div_trunc_bound(2 * (SCALE as int), period + 1, SCALE as int);
    lemma_div_pos_is_pos(2 * (SCALE as int), period + 1);
}

/// MACD (Moving Average Convergence Divergence) calculator: three
/// exponential averages and their differences.
pub struct MACD {
    fast_ema: EMA,
    slow_ema: EMA,
    signal_ema: EMA,
}

impl MACD {
    /// The owned fast EMA.
    pub closed spec fn fast(&self) -> EMA {
        self.fast_ema
    }

    /// The owned slow EMA.
    pub closed spec fn slow(&self) -> EMA {
        self.slow_ema
    }

    /// The owned signal EMA.
    pub closed spec fn signal(&self) -> EMA {
        self.signal_ema
    }

    /// Well-formed state: all three averages well formed, and the price
    /// averages within the plain input range, so their difference is a
    /// valid signal input.
    pub open spec fn wf(&self) -> bool {
        &&& self.fast().wf()
        &&& self.slow().wf()
        &&& self.signal().wf()
        &&& match self.fast().current_spec() {
            Option::Some(c) => in_range(c),
            Option::None => true,
        }
        &&& match self.slow().current_spec() {
            Option::Some(c) => in_range(c),
            Option::None => true,
        }
    }

    /// A fresh calculator from the three periods.
    pub fn new(fast_period: usize, slow_period: usize, signal_period: usize) -> (r: MACD)
        requires
            1 <= fast_period <= MAX_PERIOD,
            1 <= slow_period <= MAX_PERIOD,
            1 <= signal_period <= MAX_PERIOD,
        ensures
            r.wf(),
            r.fast().period_spec() == fast_period,
            r.slow().period_spec() == slow_period,
            r.signal().period_spec() == signal_period,
            r.fast().current_spec() is None,
            r.slow().current_spec() is None,
            r.signal().current_spec() is None,
    {
        MACD {
            fast_ema: EMA::new(fast_period),
            slow_ema: EMA::new(slow_period),
            signal_ema: EMA::new(signal_period),
        }
    }

    /// Feed one close to the fast and slow averages, their difference to
    /// the signal average, and return `(macd_line, signal, histogram)`.
    /// Because an EMA is warm from its first tick, a value is returned on
    /// every call, and the histogram is exactly the MACD line minus the
    /// signal line.
    pub fn update(&mut self, close: Fixed) -> (r: Option<(Fixed, Fixed, Fixed)>)
        requires
            old(self).wf(),
            in_range(close.raw as int),
        ensures
            final(self).wf(),
            final(self).fast().period_spec() == old(self).fast().period_spec(),
            final(self).slow().period_spec() == old(self).slow().period_spec(),
            final(self).signal().period_spec() == old(self).signal().period_spec(),
            r matches Some(t),
            r matches Some(t) ==> t.0.raw == ema_step(
                old(self).fast().current_spec(),
                close.raw as int,
                old(self).fast().multiplier_spec(),
            ) - ema_step(
                old(self).slow().current_spec(),
                close.raw as int,
                old(self).slow().multiplier_spec(),
            ) && t.1.raw == ema_step(
                old(self).signal().current_spec(),
                t.0.raw as int,
                old(self).signal().multiplier_spec(),
            ) && t.2.raw == t.0.raw - t.1.raw,
    {
        proof {
            lemma_ema_multiplier_range(self.fast().period_spec());
            lemma_ema_multiplier_range(self.slow().period_spec());
            match self.fast().current_spec() {
                Option::Some(c) => lemma_ema_no_overshoot(
                    c,
                    close.raw as int,
                    self.fast().multiplier_spec(),
                ),
                Option::None => (),
            }
            match self.slow().current_spec() {
                Option::Some(c) => lemma_ema_no_overshoot(
                    c,
                    close.raw as int,
                    self.slow().multiplier_spec(),
                ),
                Option::None => (),
            }
        }
        let f_opt = self.fast_ema.update(close);
        let s_opt = self.slow_ema.update(close);
        match (f_opt, s_opt) {
            (Some(fast), Some(slow)) => {
                let line = fast.raw - slow.raw;
                let sig_opt = self.signal_ema.update(Fixed { raw: line });
                match sig_opt {
                    Some(sig) => {
                        let hist = line - sig.raw;
                        Some((Fixed { raw: line }, sig, Fixed { raw: hist }))
                    },
                    None => None,
                }
            },
            _ => None,
        }
    }

    /// Reset all three averages.
    pub fn reset(&mut self)
        ensures
            final(self).wf() <== old(self).wf(),
            final(self).fast().period_spec() == old(self).fast().period_spec(),
            final(self).slow().period_spec() == old(self).slow().period_spec(),
            final(self).signal().period_spec() == old(self).signal().period_spec(),
            final(self).fast().current_spec() is None,
            final(self).slow().current_spec() is None,
            final(self).signal().current_spec() is None,
    {
        self.fast_ema.reset();
        self.slow_ema.reset();
        self.signal_ema.reset();
    }
}

} // verus!
