//! A per-instrument limit order book: a sorted ledger of price levels for
//! each side, with best-price, mid-price, spread, depth and imbalance
//! queries.
//!
//! Each side is a vector of levels sorted by strictly ascending price, so
//! the best bid is the last entry and the best ask the first. The
//! mathematical model of a side is the finite map from price to quantity
//! ([`level_map`]); every update is specified against that map.

use vstd::prelude::*;
use crate::fixed::{Fixed, in_range, div_trunc, sum_seq, FIXED_BOUND, SCALE};
use crate::fixed::{div_trunc_i128, mul_div_trunc, lemma_sum_seq_bound, lemma_sum_seq_take,
    lemma_div_trunc_bound};

verus! {

/// Most price levels one side of a book may hold.
pub const MAX_LEVELS: usize = 100_000_000;

/// One aggregated (price, total quantity) pair on one side of the book.
#[derive(Clone, Copy, Debug, PartialEq, Eq, Structural)]
pub struct PriceLevel {
    pub price: Fixed,
    pub quantity: Fixed,
}

/// Order book for a trading symbol.
#[derive(Debug, Clone)]
pub struct OrderBook {
    pub symbol: String,
    pub bids: Vec<PriceLevel>,
    pub asks: Vec<PriceLevel>,
    pub last_update: i64,
}

/// Prices strictly ascend along the sequence.
pub open spec fn sorted_strict(s: Seq<PriceLevel>) -> bool {
    forall|i: int, j: int|
        0 <= i < j < s.len() ==> #[trigger] s[i].price.raw < #[trigger] s[j].price.raw
}

/// Well-formed side: sorted, no zero quantity stored, values in range,
/// and not over the size cap.
pub open spec fn levels_wf(s: Seq<PriceLevel>) -> bool {
    &&& sorted_strict(s)
    &&& forall|i: int|
        0 <= i < s.len() ==> (#[trigger] s[i]).quantity.raw != 0 && in_range(
            s[i].price.raw as int,
        ) && in_range(s[i].quantity.raw as int)
    &&& s.len() <= MAX_LEVELS
}

/// The mathematical content of a side: the map from price to quantity.
pub open spec fn level_map(s: Seq<PriceLevel>) -> Map<int, int>
    decreases s.len(),
{
    if s.len() == 0 {
        Map::empty()
    } else {
        level_map(s.drop_last()).insert(
            s.last().price.raw as int,
            s.last().quantity.raw as int,
        )
    }
}

/// The quantities of a side, in sequence order.
pub open spec fn qtys(s: Seq<PriceLevel>) -> Seq<int> {
    s.map_values(|l: PriceLevel| l.quantity.raw as int)
}

/// A price is in the level map exactly when some entry carries it.
pub proof fn lemma_level_map_contains(s: Seq<PriceLevel>, x: int)
    ensures
        level_map(s).dom().contains(x) <==> exists|i: int|
            0 <= i < s.len() && (#[trigger] s[i]).price.raw == x,
    decreases s.len(),
{
    if s.len() > 0 {
        lemma_level_map_contains(s.drop_last(), x);
        if level_map(s).dom().contains(x) {
            if s.last().price.raw == x {
                assert(s[s.len() - 1].price.raw == x);
            } else {
                let i = choose|i: int|
                    0 <= i < s.drop_last().len() && (#[trigger] s.drop_last()[i]).price.raw == x;
                assert(s[i].price.raw == x);
            }
        }
        if exists|i: int| 0 <= i < s.len() && (#[trigger] s[i]).price.raw == x {
            let i = choose|i: int| 0 <= i < s.len() && (#[trigger] s[i]).price.raw == x;
            if i < s.len() - 1 {
                assert(s.drop_last()[i].price.raw == x);
            }
        }
    }
}

/// Inserting an entry with a fresh price inserts its pair into the map.
proof fn lemma_level_map_insert(s: Seq<PriceLevel>, i: int, l: PriceLevel)
    requires
        0 <= i <= s.len(),
        forall|j: int| 0 <= j < s.len() ==> (#[trigger] s[j]).price.raw != l.price.raw,
    ensures
        level_map(s.insert(i, l)) == level_map(s).insert(l.price.raw as int, l.quantity.raw as int),
    decreases s.len(),
{
    let t = s.insert(i, l);
    if i == s.len() {
        assert(t.drop_last() =~= s);
    } else {
        assert(t.last() == s.last());
        assert(t.drop_last() =~= s.drop_last().insert(i, l));
        lemma_level_map_insert(s.drop_last(), i, l);
        assert(level_map(t) =~= level_map(s).insert(l.price.raw as int, l.quantity.raw as int));
    }
}

/// Overwriting the quantity at an entry updates the map at its price.
proof fn lemma_level_map_update(s: Seq<PriceLevel>, i: int, l: PriceLevel)
    requires
        0 <= i < s.len(),
        l.price.raw == s[i].price.raw,
        forall|j: int, k: int|
            0 <= j < k < s.len() ==> #[trigger] s[j].price.raw != #[trigger] s[k].price.raw,
    ensures
        level_map(s.update(i, l)) == level_map(s).insert(l.price.raw as int, l.quantity.raw as int),
    decreases s.len(),
{
    let t = s.update(i, l);
    if i == s.len() - 1 {
        assert(t.drop_last() =~= s.drop_last());
        assert(level_map(t) =~= level_map(s).insert(l.price.raw as int, l.quantity.raw as int));
    } else {
        assert(t.last() == s.last());
        assert(t.drop_last() =~= s.drop_last().update(i, l));
        lemma_level_map_update(s.drop_last(), i, l);
        assert(s[i].price.raw != s[s.len() - 1].price.raw);
        assert(level_map(t) =~= level_map(s).insert(l.price.raw as int, l.quantity.raw as int));
    }
}

/// Removing an entry removes its price from the map, provided no other
/// entry carries the same price.
proof fn lemma_level_map_remove(s: Seq<PriceLevel>, i: int)
    requires
        0 <= i < s.len(),
        forall|j: int, k: int|
            0 <= j < k < s.len() ==> #[trigger] s[j].price.raw != #[trigger] s[k].price.raw,
    ensures
        level_map(s.remove(i)) == level_map(s).remove(s[i].price.raw as int),
    decreases s.len(),
{
    let t = s.remove(i);
    let p = s[i].price.raw as int;
    if i == s.len() - 1 {
        assert(t =~= s.drop_last());
        assert(forall|j: int|
            0 <= j < s.drop_last().len() ==> (#[trigger] s.drop_last()[j]).price.raw
                != s[i].price.raw);
        lemma_level_map_contains(s.drop_last(), p);
        assert(level_map(t) =~= level_map(s).remove(p));
    } else {
        assert(t.last() == s.last());
        assert(t.drop_last() =~= s.drop_last().remove(i));
        lemma_level_map_remove(s.drop_last(), i);
        assert(s[i].price.raw != s[s.len() - 1].price.raw);
        assert(level_map(t) =~= level_map(s).remove(p));
    }
}

/// A price absent from the map means the removal changed nothing.
proof fn lemma_level_map_remove_absent(s: Seq<PriceLevel>, p: int)
    requires
        forall|j: int| 0 <= j < s.len() ==> (#[trigger] s[j]).price.raw != p,
    ensures
        level_map(s).remove(p) == level_map(s),
{
    lemma_level_map_contains(s, p);
    assert(level_map(s).remove(p) =~= level_map(s));
}

/// A price absent from a side's map is carried by no level of that side,
/// so no query — best price included — can report it.
pub proof fn lemma_absent_price_no_level(s: Seq<PriceLevel>, p: int)
    requires
        !level_map(s).dom().contains(p),
    ensures
        forall|i: int| 0 <= i < s.len() ==> (#[trigger] s[i]).price.raw != p,
{
    lemma_level_map_contains(s, p);
}

/// On a well-formed side the last level is the maximum-price entry of
/// the side's map, carrying exactly the quantity the map records: the
/// best bid is the highest-priced bid.
pub proof fn lemma_last_level_is_max(s: Seq<PriceLevel>)
    requires
        levels_wf(s),
        s.len() > 0,
    ensures
        level_map(s).dom().contains(s.last().price.raw as int),
        level_map(s)[s.last().price.raw as int] == s.last().quantity.raw as int,
        forall|x: int| level_map(s).dom().contains(x) ==> x <= s.last().price.raw,
{
    assert forall|x: int| level_map(s).dom().contains(x) implies x <= s.last().price.raw by {
        lemma_level_map_contains(s, x);
        let i = choose|i: int| 0 <= i < s.len() && (#[trigger] s[i]).price.raw == x;
        if i < s.len() - 1 {
            assert(s[i].price.raw < s[s.len() - 1].price.raw);
        }
    }
}

/// On a well-formed side the first level is the minimum-price entry of
/// the side's map, carrying exactly the quantity the map records: the
/// best ask is the lowest-priced ask.
pub proof fn lemma_first_level_is_min(s: Seq<PriceLevel>)
    requires
        levels_wf(s),
        s.len() > 0,
    ensures
        level_map(s).dom().contains(s[0].price.raw as int),
        level_map(s)[s[0].price.raw as int] == s[0].quantity.raw as int,
        forall|x: int| level_map(s).dom().contains(x) ==> x >= s[0].price.raw,
    decreases s.len(),
{
    if s.len() == 1 {
    } else {
        lemma_first_level_is_min(s.drop_last());
        assert(s.drop_last()[0] == s[0]);
        assert(s[0].price.raw < s[s.len() - 1].price.raw);
    }
    assert forall|x: int| level_map(s).dom().contains(x) implies x >= s[0].price.raw by {
        lemma_level_map_contains(s, x);
        let i = choose|i: int| 0 <= i < s.len() && (#[trigger] s[i]).price.raw == x;
        if i > 0 {
            assert(s[0].price.raw < s[i].price.raw);
        }
    }
}

/// Setting a level and then zeroing it removes the price from the side:
/// the price is gone afterwards, and if it was the only one resting, the
/// side is empty, so its best price is `None`.
pub proof fn lemma_upsert_then_zero(m: Map<int, int>, p: int, q: int)
    ensures
        m.insert(p, q).remove(p) == m.remove(p),
        !m.insert(p, q).remove(p).dom().contains(p),
        m.dom().subset_of(Set::empty().insert(p)) ==> m.insert(p, q).remove(p) == Map::<
            int,
            int,
        >::empty(),
{
    assert(m.insert(p, q).remove(p) =~= m.remove(p));
    if m.dom().subset_of(Set::empty().insert(p)) {
        assert(m.insert(p, q).remove(p) =~= Map::<int, int>::empty());
    }
}

/// A side whose map is empty holds no levels.
pub proof fn lemma_empty_map_empty_side(s: Seq<PriceLevel>)
    requires
        level_map(s) == Map::<int, int>::empty(),
    ensures
        s.len() == 0,
{
    if s.len() > 0 {
        assert(level_map(s).dom().contains(s.last().price.raw as int));
    }
}

/// The mid price of a best bid and best ask: their mean, truncated.
pub open spec fn spec_mid(bid: int, ask: int) -> int {
    div_trunc(bid + ask, 2)
}

/// The spread as a percentage of the mid price: `spread / mid`, truncated
/// to fixed-point precision, times one hundred.
pub open spec fn spec_spread_pct(spread: int, mid: int) -> int {
    100 * div_trunc(spread * SCALE, mid)
}

/// The volume imbalance of the two sides: `(bidVol - askVol) / total`,
/// truncated, and zero whenever `total` is not strictly positive.
pub open spec fn spec_imbalance(bids: Seq<PriceLevel>, asks: Seq<PriceLevel>) -> int {
    let bv = sum_seq(qtys(bids));
    let av = sum_seq(qtys(asks));
    if bv + av > 0 {
        div_trunc((bv - av) * SCALE, bv + av)
    } else {
        0
    }
}

/// Sum of the quantities on one side.
fn sum_quantities(levels: &Vec<PriceLevel>) -> (s: i128)
    requires
        levels_wf(levels@),
    ensures
        s == sum_seq(qtys(levels@)),
        -(levels@.len() as int) * FIXED_BOUND <= s <= (levels@.len() as int) * FIXED_BOUND,
{
    let ghost q = qtys(levels@);
    let mut acc: i128 = 0;
    let mut i: usize = 0;
    proof {
        assert(q.take(0) =~= Seq::<int>::empty());
    }
    while i < levels.len()
        invariant
            levels_wf(levels@),
            q == qtys(levels@),
            0 <= i <= levels@.len(),
            acc == sum_seq(q.take(i as int)),
            -(i as int) * FIXED_BOUND <= acc <= (i as int) * FIXED_BOUND,
        decreases levels@.len() - i,
    {
        proof {
            lemma_sum_seq_take(q, i as int);
            assert(q[i as int] == levels@[i as int].quantity.raw as int);
            assert(in_range(levels@[i as int].quantity.raw as int));
            let ii = i as int;
            assert(ii * FIXED_BOUND + FIXED_BOUND == (ii + 1) * FIXED_BOUND) by (nonlinear_arith);
            assert(-(ii * FIXED_BOUND) - FIXED_BOUND == -((ii + 1) * FIXED_BOUND))
                by (nonlinear_arith);
            assert((ii + 1) * FIXED_BOUND <= 100_000_000_000_000_000_000_000int)
                by (nonlinear_arith)
                requires
                    0 <= ii + 1 <= 100_000_000int,
                    FIXED_BOUND == 1_000_000_000_000_000i128,
            ;
        }
        acc = acc + levels[i].quantity.raw;
        i += 1;
    }
    proof {
        assert(q.take(levels@.len() as int) =~= q);
    }
    acc
}

/// Upsert into one sorted side: a zero quantity removes the level, any
/// other quantity inserts or overwrites it.
fn upsert_level(levels: &mut Vec<PriceLevel>, price: Fixed, quantity: Fixed)
    requires
        levels_wf(old(levels)@),
        old(levels)@.len() < MAX_LEVELS,
        in_range(price.raw as int),
        in_range(quantity.raw as int),
    ensures
        levels_wf(final(levels)@),
        level_map(final(levels)@) == (if quantity.raw == 0 {
            level_map(old(levels)@).remove(price.raw as int)
        } else {
            level_map(old(levels)@).insert(price.raw as int, quantity.raw as int)
        }),
        final(levels)@.len() <= old(levels)@.len() + 1,
        quantity.raw == 0 ==> final(levels)@.len() <= old(levels)@.len(),
        quantity.raw != 0 ==> final(levels)@.len() > 0,
{
    let ghost s0 = levels@;
    let mut i: usize = 0;
    while i < levels.len() && levels[i].price.raw < price.raw
        invariant
            levels@ == s0,
            0 <= i <= s0.len(),
            forall|j: int| 0 <= j < i ==> #[trigger] s0[j].price.raw < price.raw,
        decreases s0.len() - i,
    {
        i += 1;
    }
    proof {
        if i < s0.len() {
            assert(s0[i as int].price.raw >= price.raw);
        }
        assert(levels_wf(s0));
        assert(forall|j: int, k: int|
            0 <= j < k < s0.len() ==> #[trigger] s0[j].price.raw != #[trigger] s0[k].price.raw);
    }
    if i < levels.len() && levels[i].price.raw == price.raw {
        if quantity.raw == 0 {
            levels.remove(i);
            proof {
                lemma_level_map_remove(s0, i as int);
                assert(levels_wf(levels@));
            }
        } else {
            levels.remove(i);
            levels.insert(i, PriceLevel { price, quantity });
            proof {
                assert(levels@ =~= s0.update(i as int, PriceLevel { price, quantity }));
                lemma_level_map_update(s0, i as int, PriceLevel { price, quantity });
                assert(levels_wf(levels@));
            }
        }
    } else {
        proof {
            if i < s0.len() {
                assert(s0[i as int].price.raw > price.raw);
                assert(forall|j: int|
                    i < j < s0.len() ==> #[trigger] s0[j].price.raw > s0[i as int].price.raw);
            }
            assert(forall|j: int| 0 <= j < s0.len() ==> (#[trigger] s0[j]).price.raw != price.raw);
        }
        if quantity.raw == 0 {
            proof {
                lemma_level_map_remove_absent(s0, price.raw as int);
            }
        } else {
            levels.insert(i, PriceLevel { price, quantity });
            proof {
                lemma_level_map_insert(s0, i as int, PriceLevel { price, quantity });
                assert(levels_wf(levels@));
            }
        }
    }
}

impl OrderBook {
    /// Book-wide well-formedness: both sides well formed.
    pub open spec fn wf(&self) -> bool {
        levels_wf(self.bids@) && levels_wf(self.asks@)
    }

    /// Create a new, empty order book.
    pub fn new(symbol: String) -> (r: OrderBook)
        ensures
            r.wf(),
            r.symbol == symbol,
            r.bids@.len() == 0,
            r.asks@.len() == 0,
            r.last_update == 0,
    {
        OrderBook { symbol, bids: Vec::new(), asks: Vec::new(), last_update: 0 }
    }

    /// Upsert a bid level; a zero quantity removes the level.
    pub fn update_bid(&mut self, price: Fixed, quantity: Fixed)
        requires
            old(self).wf(),
            old(self).bids@.len() < MAX_LEVELS,
            in_range(price.raw as int),
            in_range(quantity.raw as int),
        ensures
            final(self).wf(),
            level_map(final(self).bids@) == (if quantity.raw == 0 {
                level_map(old(self).bids@).remove(price.raw as int)
            } else {
                level_map(old(self).bids@).insert(price.raw as int, quantity.raw as int)
            }),
            final(self).bids@.len() <= old(self).bids@.len() + 1,
            quantity.raw != 0 ==> final(self).bids@.len() > 0,
            final(self).asks@ == old(self).asks@,
            final(self).symbol == old(self).symbol,
            final(self).last_update == old(self).last_update,
    {
        upsert_level(&mut self.bids, price, quantity);
    }

    /// Upsert an ask level; a zero quantity removes the level.
    pub fn update_ask(&mut self, price: Fixed, quantity: Fixed)
        requires
            old(self).wf(),
            old(self).asks@.len() < MAX_LEVELS,
            in_range(price.raw as int),
            in_range(quantity.raw as int),
        ensures
            final(self).wf(),
            level_map(final(self).asks@) == (if quantity.raw == 0 {
                level_map(old(self).asks@).remove(price.raw as int)
            } else {
                level_map(old(self).asks@).insert(price.raw as int, quantity.raw as int)
            }),
            final(self).asks@.len() <= old(self).asks@.len() + 1,
            quantity.raw != 0 ==> final(self).asks@.len() > 0,
            final(self).bids@ == old(self).bids@,
            final(self).symbol == old(self).symbol,
            final(self).last_update == old(self).last_update,
    {
        upsert_level(&mut self.asks, price, quantity);
    }

    /// The highest-priced bid, with its quantity; `None` iff no bids rest.
    pub fn best_bid(&self) -> (r: Option<(Fixed, Fixed)>)
        ensures
            r is Some <==> self.bids@.len() > 0,
            self.bids@.len() > 0 ==> r == Some(
                (self.bids@.last().price, self.bids@.last().quantity),
            ),
    {
        if self.bids.len() == 0 {
            None
        } else {
            let l = self.bids[self.bids.len() - 1];
            Some((l.price, l.quantity))
        }
    }

    /// The lowest-priced ask, with its quantity; `None` iff no asks rest.
    pub fn best_ask(&self) -> (r: Option<(Fixed, Fixed)>)
        ensures
            r is Some <==> self.asks@.len() > 0,
            self.asks@.len() > 0 ==> r == Some((self.asks@[0].price, self.asks@[0].quantity)),
    {
        if self.asks.len() == 0 {
            None
        } else {
            let l = self.asks[0];
            Some((l.price, l.quantity))
        }
    }

    /// The mean of best bid and best ask; `None` unless both sides rest.
    pub fn mid_price(&self) -> (r: Option<Fixed>)
        requires
            self.wf(),
        ensures
            r is Some <==> self.bids@.len() > 0 && self.asks@.len() > 0,
            self.bids@.len() > 0 && self.asks@.len() > 0 ==> (r matches Some(f) && f.raw
                == spec_mid(
                self.bids@.last().price.raw as int,
                self.asks@[0].price.raw as int,
            )),
    {
        match (self.best_bid(), self.best_ask()) {
            (Some((bid, _)), Some((ask, _))) => {
                proof {
                    assert(in_range(self.bids@.last().price.raw as int));
                    assert(in_range(self.asks@[0].price.raw as int));
                }
                Some(Fixed { raw: div_trunc_i128(bid.raw + ask.raw, 2) })
            },
            _ => None,
        }
    }

    /// Best ask price minus best bid price; `None` unless both sides rest.
    /// Negative exactly when the book is crossed.
    pub fn spread(&self) -> (r: Option<Fixed>)
        requires
            self.wf(),
        ensures
            r is Some <==> self.bids@.len() > 0 && self.asks@.len() > 0,
            self.bids@.len() > 0 && self.asks@.len() > 0 ==> (r matches Some(f) && f.raw
                == self.asks@[0].price.raw - self.bids@.last().price.raw),
    {
        match (self.best_bid(), self.best_ask()) {
            (Some((bid, _)), Some((ask, _))) => {
                proof {
                    assert(in_range(self.bids@.last().price.raw as int));
                    assert(in_range(self.asks@[0].price.raw as int));
                }
                Some(Fixed { raw: ask.raw - bid.raw })
            },
            _ => None,
        }
    }

    /// The spread as a percentage of the mid price; `None` unless both
    /// sides rest and the mid price is strictly positive.
    pub fn spread_percentage(&self) -> (r: Option<Fixed>)
        requires
            self.wf(),
        ensures
            r is Some <==> self.bids@.len() > 0 && self.asks@.len() > 0 && spec_mid(
                self.bids@.last().price.raw as int,
                self.asks@[0].price.raw as int,
            ) > 0,
            r matches Some(f) ==> f.raw == spec_spread_pct(
                self.asks@[0].price.raw - self.bids@.last().price.raw,
                spec_mid(self.bids@.last().price.raw as int, self.asks@[0].price.raw as int),
            ),
    {
        match (self.spread(), self.mid_price()) {
            (Some(spread), Some(mid)) => {
                if mid.raw > 0 {
                    proof {
                        let a = spread.raw * SCALE;
                        let m = if a >= 0 {
                            a
                        } else {
                            -a
                        };
                        assert(-(2_000_000_000_000_000_000_000int) <= a
                            <= 2_000_000_000_000_000_000_000int) by (nonlinear_arith)
                            requires
                                a == spread.raw * SCALE,
                                -2_000_000_000_000_000int <= spread.raw
                                    <= 2_000_000_000_000_000int,
                                SCALE == 1_000_000i128,
                        ;
                        assert(-((mid.raw as int) * m) <= a <= (mid.raw as int) * m)
                            by (nonlinear_arith)
                            requires
                                mid.raw >= 1,
                                m >= 0,
                                -m <= a <= m,
                        ;
                        lemma_div_trunc_bound(a, mid.raw as int, m);
                    }
                    let q = mul_div_trunc(spread.raw, SCALE, mid.raw);
                    Some(Fixed { raw: 100 * q })
                } else {
                    None
                }
            },
            _ => None,
        }
    }

    /// Up to `n` bid levels, best (highest price) first.
    pub fn top_bids(&self, n: usize) -> (r: Vec<PriceLevel>)
        ensures
            r@.len() == (if n < self.bids@.len() {
                n as int
            } else {
                self.bids@.len() as int
            }),
            forall|k: int| 0 <= k < r@.len() ==> r@[k] == self.bids@[self.bids@.len() - 1 - k],
    {
        let mut r: Vec<PriceLevel> = Vec::new();
        let mut k: usize = 0;
        while k < n && k < self.bids.len()
            invariant
                0 <= k <= self.bids@.len(),
                k <= n,
                n < self.bids@.len() ==> k <= n,
                r@.len() == k,
                k < (if n < self.bids@.len() {
                    n as int
                } else {
                    self.bids@.len() as int
                }) || k == (if n < self.bids@.len() {
                    n as int
                } else {
                    self.bids@.len() as int
                }),
                forall|j: int| 0 <= j < k ==> r@[j] == self.bids@[self.bids@.len() - 1 - j],
            decreases self.bids@.len() - k,
        {
            let l = self.bids[self.bids.len() - 1 - k];
            r.push(l);
            k += 1;
        }
        r
    }

    /// Up to `n` ask levels, best (lowest price) first.
    pub fn top_asks(&self, n: usize) -> (r: Vec<PriceLevel>)
        ensures
            r@.len() == (if n < self.asks@.len() {
                n as int
            } else {
                self.asks@.len() as int
            }),
            forall|k: int| 0 <= k < r@.len() ==> r@[k] == self.asks@[k],
    {
        let mut r: Vec<PriceLevel> = Vec::new();
        let mut k: usize = 0;
        while k < n && k < self.asks.len()
            invariant
                0 <= k <= self.asks@.len(),
                k <= n,
                r@.len() == k,
                forall|j: int| 0 <= j < k ==> r@[j] == self.asks@[j],
            decreases self.asks@.len() - k,
        {
            let l = self.asks[k];
            r.push(l);
            k += 1;
        }
        r
    }

    /// Total quantity resting on the bid side; zero for an empty side.
    pub fn total_bid_volume(&self) -> (r: Fixed)
        requires
            self.wf(),
        ensures
            r.raw == sum_seq(qtys(self.bids@)),
    {
        Fixed { raw: sum_quantities(&self.bids) }
    }

    /// Total quantity resting on the ask side; zero for an empty side.
    pub fn total_ask_volume(&self) -> (r: Fixed)
        requires
            self.wf(),
        ensures
            r.raw == sum_seq(qtys(self.asks@)),
    {
        Fixed { raw: sum_quantities(&self.asks) }
    }

    /// Normalized difference of the two sides' volumes, and exactly zero
    /// when the total volume is not strictly positive.
    pub fn volume_imbalance(&self) -> (r: Fixed)
        requires
            self.wf(),
        ensures
            r.raw == spec_imbalance(self.bids@, self.asks@),
            sum_seq(qtys(self.bids@)) + sum_seq(qtys(self.asks@)) <= 0 ==> r.raw == 0,
            (forall|i: int| 0 <= i < self.bids@.len() ==> (#[trigger] self.bids@[i]).quantity.raw
                >= 0) && (forall|i: int|
                0 <= i < self.asks@.len() ==> (#[trigger] self.asks@[i]).quantity.raw >= 0)
                ==> -SCALE <= r.raw <= SCALE,
    {
        let bid_vol = sum_quantities(&self.bids);
        let ask_vol = sum_quantities(&self.asks);
        let total = bid_vol + ask_vol;
        if total > 0 {
            proof {
                let d = bid_vol as int - ask_vol as int;
                assert((self.bids@.len() as int) * FIXED_BOUND <= (MAX_LEVELS as int) * (
                FIXED_BOUND as int)) by (nonlinear_arith)
                    requires
                        self.bids@.len() <= MAX_LEVELS,
                        FIXED_BOUND >= 0,
                ;
                assert((self.asks@.len() as int) * FIXED_BOUND <= (MAX_LEVELS as int) * (
                FIXED_BOUND as int)) by (nonlinear_arith)
                    requires
                        self.asks@.len() <= MAX_LEVELS,
                        FIXED_BOUND >= 0,
                ;
                let cap = (MAX_LEVELS as int) * (FIXED_BOUND as int);
                assert(-(2 * cap) <= d <= 2 * cap);
                assert(-i128::MAX <= d * SCALE <= i128::MAX) by (nonlinear_arith)
                    requires
                        -(2 * cap) <= d <= 2 * cap,
                        cap == (MAX_LEVELS as int) * (FIXED_BOUND as int),
                        FIXED_BOUND == 1_000_000_000_000_000i128,
                        SCALE == 1_000_000i128,
                        MAX_LEVELS == 100_000_000usize,
                ;
                if (forall|i: int|
                    0 <= i < self.bids@.len() ==> (#[trigger] self.bids@[i]).quantity.raw >= 0) && (
                forall|i: int|
                    0 <= i < self.asks@.len() ==> (#[trigger] self.asks@[i]).quantity.raw >= 0) {
                    lemma_sum_seq_bound(qtys(self.bids@), 0, FIXED_BOUND as int);
                    lemma_sum_seq_bound(qtys(self.asks@), 0, FIXED_BOUND as int);
                    assert(bid_vol >= 0 && ask_vol >= 0);
                    assert(-((total as int) * SCALE) <= d * SCALE <= (total as int) * SCALE)
                        by (nonlinear_arith)
                        requires
                            bid_vol >= 0,
                            ask_vol >= 0,
                            total == bid_vol + ask_vol,
                            d == bid_vol as int - ask_vol as int,
                            SCALE > 0,
                    ;
                    lemma_div_trunc_bound(d * SCALE, total as int, SCALE as int);
                }
            }
            Fixed { raw: mul_div_trunc(bid_vol - ask_vol, SCALE, total) }
        } else {
            Fixed { raw: 0 }
        }
    }
}

} // verus!
