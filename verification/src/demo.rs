//! Demonstration drivers: build a small book and run each indicator over
//! a sample price series, returning the values a caller may display.

use vstd::prelude::*;
use crate::fixed::{Fixed, in_range, div_trunc, raws, SCALE};
use crate::orderbook::{OrderBook, level_map};
use crate::indicators::{SMA, EMA, RSI, MACD, opt_raw, window_after, sma_mean, ema_step};

verus! {

/// A small order book populated with three bid and three ask levels.
pub fn demo_orderbook() -> (b: OrderBook)
    ensures
        b.wf(),
        b.symbol@ == "BTCUSD"@,
        level_map(b.bids@) == map![
            49998_000_000int => 1_000_000int,
            49999_000_000int => 2_000_000int,
            50000_000_000int => 1_500_000int,
        ],
        level_map(b.asks@) == map![
            50001_000_000int => 1_000_000int,
            50002_000_000int => 1_500_000int,
            50003_000_000int => 2_000_000int,
        ],
{
    let mut ob = OrderBook::new("BTCUSD".to_string());
    ob.update_bid(Fixed::from_int(50000), Fixed::from_scaled(1_500_000));
    ob.update_bid(Fixed::from_int(49999), Fixed::from_int(2));
    ob.update_bid(Fixed::from_int(49998), Fixed::from_int(1));
    ob.update_ask(Fixed::from_int(50001), Fixed::from_int(1));
    ob.update_ask(Fixed::from_int(50002), Fixed::from_scaled(1_500_000));
    ob.update_ask(Fixed::from_int(50003), Fixed::from_int(2));
    proof {
        assert(level_map(ob.bids@) =~= map![
            49998_000_000int => 1_000_000int,
            49999_000_000int => 2_000_000int,
            50000_000_000int => 1_500_000int,
        ]);
        assert(level_map(ob.asks@) =~= map![
            50001_000_000int => 1_000_000int,
            50002_000_000int => 1_500_000int,
            50003_000_000int => 2_000_000int,
        ]);
    }
    ob
}

/// The sample price series the indicator demo runs over.
pub open spec fn demo_prices() -> Seq<int> {
    seq![
        50000_000_000int,
        50100_000_000int,
        50050_000_000int,
        50200_000_000int,
        50150_000_000int,
        50300_000_000int,
        50250_000_000int,
        50400_000_000int,
        50350_000_000int,
        50500_000_000int,
        50450_000_000int,
        50600_000_000int,
        50550_000_000int,
        50700_000_000int,
        50650_000_000int,
        50800_000_000int,
        50750_000_000int,
        50900_000_000int,
        50850_000_000int,
        51000_000_000int,
    ]
}

/// What an SMA reports after a sequence of values: the mean of its
/// window once the window is full, nothing before.
pub open spec fn sma_out_at(period: int, inputs: Seq<int>) -> Option<int> {
    if window_after(period, inputs).len() == period {
        Option::Some(sma_mean(window_after(period, inputs), period))
    } else {
        Option::None
    }
}

/// What an EMA holds after a sequence of values: each value folded in
/// by one [`ema_step`].
pub open spec fn ema_run(inputs: Seq<int>, m: int) -> Option<int>
    decreases inputs.len(),
{
    if inputs.len() == 0 {
        Option::None
    } else {
        Option::Some(ema_step(ema_run(inputs.drop_last(), m), inputs.last(), m))
    }
}

/// Run the indicators over the sample series: a ten-period SMA over all
/// twenty prices, a ten-period EMA over the first five, a fourteen-period
/// RSI and a (12, 26, 9) MACD over all twenty. Returns each calculator's
/// per-tick outputs in order.
pub fn demo_indicators() -> (r: (
    Vec<Option<Fixed>>,
    Vec<Option<Fixed>>,
    Vec<Option<Fixed>>,
    Vec<Option<(Fixed, Fixed, Fixed)>>,
))
    ensures
        r.0@.len() == 20,
        r.1@.len() == 5,
        r.2@.len() == 20,
        r.3@.len() == 20,
        forall|k: int|
            0 <= k < 20 ==> opt_raw(#[trigger] r.0@[k]) == sma_out_at(10, demo_prices().take(k + 1)),
        forall|k: int|
            0 <= k < 5 ==> opt_raw(#[trigger] r.1@[k]) == ema_run(
                demo_prices().take(k + 1),
                div_trunc(2 * (SCALE as int), 11),
            ),
        forall|k: int|
            0 <= k < 20 ==> ((#[trigger] r.2@[k]) matches Some(f) ==> 0 <= f.raw <= 100 * (
            SCALE as int)),
        forall|k: int| 0 <= k < 20 ==> (#[trigger] r.3@[k]) is Some,
        forall|k: int|
            0 <= k < 20 ==> ((#[trigger] r.3@[k]) matches Some(t) ==> t.2.raw == t.0.raw
                - t.1.raw),
{
    let mut prices: Vec<Fixed> = Vec::new();
    prices.push(Fixed::from_int(50000));
    prices.push(Fixed::from_int(50100));
    prices.push(Fixed::from_int(50050));
    prices.push(Fixed::from_int(50200));
    prices.push(Fixed::from_int(50150));
    prices.push(Fixed::from_int(50300));
    prices.push(Fixed::from_int(50250));
    prices.push(Fixed::from_int(50400));
    prices.push(Fixed::from_int(50350));
    prices.push(Fixed::from_int(50500));
    prices.push(Fixed::from_int(50450));
    prices.push(Fixed::from_int(50600));
    prices.push(Fixed::from_int(50550));
    prices.push(Fixed::from_int(50700));
    prices.push(Fixed::from_int(50650));
    prices.push(Fixed::from_int(50800));
    prices.push(Fixed::from_int(50750));
    prices.push(Fixed::from_int(50900));
    prices.push(Fixed::from_int(50850));
    prices.push(Fixed::from_int(51000));
    proof {
        assert(raws(prices@) =~= demo_prices());
        assert forall|k: int| 0 <= k < 20 implies in_range(#[trigger] demo_prices()[k]) by {
            assert(demo_prices()[k] == raws(prices@)[k]);
            assert(in_range(prices@[k].raw as int)) by {
                assert(0 < prices@[k].raw < 60_000_000_000i128);
            }
        }
    }

    let mut sma = SMA::new(10);
    let mut sma_out: Vec<Option<Fixed>> = Vec::new();
    let mut i: usize = 0;
    proof {
        assert(demo_prices().take(0) =~= Seq::<int>::empty());
        assert(window_after(10, Seq::<int>::empty()) =~= Seq::<int>::empty());
    }
    while i < 20
        invariant
            prices@.len() == 20,
            raws(prices@) == demo_prices(),
            forall|k: int| 0 <= k < 20 ==> in_range(#[trigger] demo_prices()[k]),
            0 <= i <= 20,
            sma.wf(),
            sma.period_spec() == 10,
            sma.window() == window_after(10, demo_prices().take(i as int)),
            sma_out@.len() == i,
            forall|k: int|
                0 <= k < i ==> opt_raw(#[trigger] sma_out@[k]) == sma_out_at(
                    10,
                    demo_prices().take(k + 1),
                ),
        decreases 20 - i,
    {
        proof {
            assert(demo_prices().take(i as int + 1).drop_last() =~= demo_prices().take(i as int));
            assert(demo_prices()[i as int] == raws(prices@)[i as int]);
            assert(in_range(prices@[i as int].raw as int));
        }
        let o = sma.update(prices[i]);
        sma_out.push(o);
        i += 1;
    }

    let mut ema = EMA::new(10);
    let mut ema_out: Vec<Option<Fixed>> = Vec::new();
    let mut j: usize = 0;
    proof {
        assert(demo_prices().take(0) =~= Seq::<int>::empty());
    }
    while j < 5
        invariant
            prices@.len() == 20,
            raws(prices@) == demo_prices(),
            forall|k: int| 0 <= k < 20 ==> in_range(#[trigger] demo_prices()[k]),
            0 <= j <= 5,
            ema.wf(),
            ema.period_spec() == 10,
            ema.multiplier_spec() == div_trunc(2 * (SCALE as int), 11),
            ema.current_spec() == ema_run(
                demo_prices().take(j as int),
                div_trunc(2 * (SCALE as int), 11),
            ),
            ema_out@.len() == j,
            forall|k: int|
                0 <= k < j ==> opt_raw(#[trigger] ema_out@[k]) == ema_run(
                    demo_prices().take(k + 1),
                    div_trunc(2 * (SCALE as int), 11),
                ),
        decreases 5 - j,
    {
        proof {
            assert(demo_prices().take(j as int + 1).drop_last() =~= demo_prices().take(j as int));
            assert(demo_prices()[j as int] == raws(prices@)[j as int]);
            assert(in_range(prices@[j as int].raw as int));
        }
        let o = ema.update(prices[j]);
        ema_out.push(o);
        j += 1;
    }

    let mut rsi = RSI::new(14);
    let mut rsi_out: Vec<Option<Fixed>> = Vec::new();
    let mut k: usize = 0;
    while k < 20
        invariant
            prices@.len() == 20,
            raws(prices@) == demo_prices(),
            forall|x: int| 0 <= x < 20 ==> in_range(#[trigger] demo_prices()[x]),
            0 <= k <= 20,
            rsi.wf(),
            rsi_out@.len() == k,
            forall|x: int|
                0 <= x < k ==> ((#[trigger] rsi_out@[x]) matches Some(f) ==> 0 <= f.raw <= 100 * (
                SCALE as int)),
        decreases 20 - k,
    {
        proof {
            assert(demo_prices()[k as int] == raws(prices@)[k as int]);
            assert(in_range(prices@[k as int].raw as int));
        }
        let o = rsi.update(prices[k]);
        rsi_out.push(o);
        k += 1;
    }

    let mut macd = MACD::new(12, 26, 9);
    let mut macd_out: Vec<Option<(Fixed, Fixed, Fixed)>> = Vec::new();
    let mut n: usize = 0;
    while n < 20
        invariant
            prices@.len() == 20,
            raws(prices@) == demo_prices(),
            forall|x: int| 0 <= x < 20 ==> in_range(#[trigger] demo_prices()[x]),
            0 <= n <= 20,
            macd.wf(),
            macd_out@.len() == n,
            forall|x: int| 0 <= x < n ==> (#[trigger] macd_out@[x]) is Some,
            forall|x: int|
                0 <= x < n ==> ((#[trigger] macd_out@[x]) matches Some(t) ==> t.2.raw == t.0.raw
                    - t.1.raw),
        decreases 20 - n,
    {
        proof {
            assert(demo_prices()[n as int] == raws(prices@)[n as int]);
            assert(in_range(prices@[n as int].raw as int));
        }
        let o = macd.update(prices[n]);
        macd_out.push(o);
        n += 1;
    }

    proof {
        assert(demo_prices().take(20) =~= demo_prices());
    }
    (sma_out, ema_out, rsi_out, macd_out)
}

} // verus!
