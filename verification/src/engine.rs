//! The FIFO cost-basis engine.
//!
//! The engine folds a chronologically ordered trade sequence into running
//! totals while maintaining a queue of open lots, oldest first. Its whole
//! behaviour is pinned by the spec-level fold [`run_engine`]: the exec code
//! is proved to compute exactly that fold.

use vstd::prelude::*;
use std::collections::VecDeque;
use crate::calendar::year_of_nanos;
use crate::calendar::year_of_timestamp;
use crate::trade::MAX_QTY;
use crate::trade::UNIT;
use crate::trade::MAX_TRADES;
use crate::trade::Side;
use crate::trade::Trade;
use crate::trade::TradeView;
use crate::trade::trade_views;
use crate::trade::trade_wf;
use crate::trade::trades_wf;

verus! {

broadcast use vstd::std_specs::vecdeque::group_vec_dequeue_axioms;

/// An open FIFO queue entry: volume still held and the part of its
/// acquisition cost still attributable to that volume.
#[derive(Clone, Copy)]
pub struct Lot {
    /// Remaining volume, scaled by `UNIT`; positive while the lot exists.
    pub amount: i64,
    /// Remaining acquisition cost (price times volume plus fee), scaled.
    pub cost: i128,
}

/// Mathematical image of a [`Lot`].
#[verifier::ext_equal]
pub struct LotView {
    pub amount: int,
    pub cost: int,
}

impl View for Lot {
    type V = LotView;

    open spec fn view(&self) -> LotView {
        LotView { amount: self.amount as int, cost: self.cost as int }
    }
}

/// The largest cost a single lot can carry: a maximal volume bought at a
/// maximal price with a maximal fee.
pub open spec fn max_lot_cost() -> int {
    (MAX_QTY as int) * (MAX_QTY as int) + MAX_QTY
}

/// A lot holds positive volume and a cost within the engine's range.
pub open spec fn lot_wf(l: LotView) -> bool {
    &&& 0 < l.amount <= MAX_QTY
    &&& 0 <= l.cost <= max_lot_cost()
}

/// Every lot of the queue is well formed.
pub open spec fn queue_wf(q: Seq<LotView>) -> bool {
    forall|i: int| 0 <= i < q.len() ==> lot_wf(#[trigger] q[i])
}

/// Total acquisition cost still sitting in the queue.
pub open spec fn queue_cost(q: Seq<LotView>) -> int
    decreases q.len(),
{
    if q.len() == 0 {
        0
    } else {
        q[0].cost + queue_cost(q.subrange(1, q.len() as int))
    }
}

/// Total volume still sitting in the queue.
pub open spec fn queue_amount(q: Seq<LotView>) -> int
    decreases q.len(),
{
    if q.len() == 0 {
        0
    } else {
        q[0].amount + queue_amount(q.subrange(1, q.len() as int))
    }
}

/// Consume `rem` units of volume from the front of the queue.
///
/// Returns the queue that is left and the cost basis taken out of it.
/// A lot no larger than the open amount leaves whole; a larger front lot
/// gives up a proportional slice (rounded down) and stays at the front.
/// An emptied queue ends consumption with whatever basis was available.
pub open spec fn consume_queue(q: Seq<LotView>, rem: int) -> (Seq<LotView>, int)
    decreases q.len(),
{
    if rem <= 0 || q.len() == 0 {
        (q, 0)
    } else {
        let lot = q[0];
        if lot.amount <= rem {
            let rest = consume_queue(q.subrange(1, q.len() as int), rem - lot.amount);
            (rest.0, lot.cost + rest.1)
        } else {
            let partial = (lot.cost * rem) / lot.amount;
            let shrunk = LotView { amount: lot.amount - rem, cost: lot.cost - partial };
            (q.update(0, shrunk), partial)
        }
    }
}

/// The whole state of one engine run, as mathematics.
#[verifier::ext_equal]
pub struct EngineView {
    pub queue: Seq<LotView>,
    pub last_price: int,
    pub realized_pnl: int,
    pub balance: int,
    pub buy_volume_base: int,
    pub sell_volume_base: int,
    pub buy_volume_quote: int,
    pub sell_volume_quote: int,
    pub cost_sold: int,
    pub value_sold: int,
}

/// The state before any trade has been processed.
pub open spec fn init_engine() -> EngineView {
    EngineView {
        queue: Seq::empty(),
        last_price: 0,
        realized_pnl: 0,
        balance: 0,
        buy_volume_base: 0,
        sell_volume_base: 0,
        buy_volume_quote: 0,
        sell_volume_quote: 0,
        cost_sold: 0,
        value_sold: 0,
    }
}

/// Whether a sell at time `ts` counts towards realized PnL under the
/// optional calendar-year restriction.
pub open spec fn counts_for_year(ts: int, year: Option<i32>) -> bool {
    match year {
        Option::None => true,
        Option::Some(y) => year_of_nanos(ts) == y as int,
    }
}

/// The cost basis a sell of trade `t` takes out of queue `q`.
pub open spec fn sell_cost_basis(q: Seq<LotView>, t: TradeView) -> int {
    consume_queue(q, t.volume).1
}

/// The quote value of a fill: volume times price, brought back to the
/// common `UNIT` scale (both factors carry it), rounded down.
pub open spec fn quote_value(volume: int, price: int) -> int {
    (volume * price) / (UNIT as int)
}

/// The quote proceeds of a sell: volume times price, less the fee.
pub open spec fn sell_proceeds(t: TradeView) -> int {
    quote_value(t.volume, t.price) - t.fee
}

/// How one trade transforms the engine state.
pub open spec fn engine_step(m: EngineView, t: TradeView, year: Option<i32>) -> EngineView {
    if t.side == Side::Buy {
        let lot_cost = quote_value(t.volume, t.price) + t.fee;
        EngineView {
            queue: m.queue.push(LotView { amount: t.volume, cost: lot_cost }),
            last_price: t.price,
            balance: m.balance + t.volume,
            buy_volume_base: m.buy_volume_base + t.volume,
            buy_volume_quote: m.buy_volume_quote + lot_cost,
            ..m
        }
    } else {
        let proceeds = sell_proceeds(t);
        let consumed = consume_queue(m.queue, t.volume);
        let pnl = proceeds - consumed.1;
        EngineView {
            queue: consumed.0,
            last_price: t.price,
            realized_pnl: m.realized_pnl
                + if counts_for_year(t.timestamp_nanos, year) {
                    pnl
                } else {
                    0
                },
            balance: m.balance - t.volume,
            sell_volume_base: m.sell_volume_base + t.volume,
            sell_volume_quote: m.sell_volume_quote + proceeds,
            cost_sold: m.cost_sold + consumed.1,
            value_sold: m.value_sold + proceeds,
            ..m
        }
    }
}

/// The engine state after processing a whole trade sequence in order.
pub open spec fn run_engine(ts: Seq<TradeView>, year: Option<i32>) -> EngineView
    decreases ts.len(),
{
    if ts.len() == 0 {
        init_engine()
    } else {
        engine_step(run_engine(ts.drop_last(), year), ts.last(), year)
    }
}

/// Mark-to-last-trade valuation of the lots still held: for each lot, its
/// volume at the last seen price less its remaining cost.
pub open spec fn unrealized_total(q: Seq<LotView>, price: int) -> int
    decreases q.len(),
{
    if q.len() == 0 {
        0
    } else {
        unrealized_total(q.drop_last(), price) + (quote_value(q.last().amount, price)
            - q.last().cost)
    }
}

/// Invariant tying an engine state to the number `n` of trades folded in.
/// It bounds every total so that the exec engine can stay within `i128`,
/// and records cost conservation: what was bought is either still in the
/// queue or was charged against sells.
pub open spec fn engine_wf(m: EngineView, n: int) -> bool {
    &&& 0 <= n <= MAX_TRADES
    &&& queue_wf(m.queue)
    &&& m.queue.len() <= n
    &&& 0 <= m.last_price <= MAX_QTY
    &&& 0 <= m.buy_volume_base <= n * (MAX_QTY as int)
    &&& 0 <= m.sell_volume_base <= n * (MAX_QTY as int)
    &&& 0 <= m.buy_volume_quote <= n * max_lot_cost()
    &&& -(n * (MAX_QTY as int)) <= m.sell_volume_quote <= n * max_lot_cost()
    &&& -(n * (MAX_QTY as int)) <= m.value_sold <= n * max_lot_cost()
    &&& 0 <= m.cost_sold
    &&& queue_cost(m.queue) + m.cost_sold == m.buy_volume_quote
    &&& -(n * max_lot_cost()) - m.cost_sold <= m.realized_pnl <= n * max_lot_cost()
    &&& -(n * (MAX_QTY as int)) <= m.balance <= n * (MAX_QTY as int)
}

/// Final statistics of one engine run.
pub struct RunStatistics {
    pub realized_pnl: i128,
    pub unrealized_pnl: i128,
    pub balance: i128,
    pub total_buy_volume_base: i128,
    pub total_sell_volume_base: i128,
    pub total_buy_volume_quote: i128,
    pub total_sell_volume_quote: i128,
    pub total_cost_of_sold_assets: i128,
    pub total_value_of_sold_assets: i128,
}

/// Mathematical image of [`RunStatistics`].
pub struct StatsView {
    pub realized_pnl: int,
    pub unrealized_pnl: int,
    pub balance: int,
    pub total_buy_volume_base: int,
    pub total_sell_volume_base: int,
    pub total_buy_volume_quote: int,
    pub total_sell_volume_quote: int,
    pub total_cost_of_sold_assets: int,
    pub total_value_of_sold_assets: int,
}

impl View for RunStatistics {
    type V = StatsView;

    open spec fn view(&self) -> StatsView {
        StatsView {
            realized_pnl: self.realized_pnl as int,
            unrealized_pnl: self.unrealized_pnl as int,
            balance: self.balance as int,
            total_buy_volume_base: self.total_buy_volume_base as int,
            total_sell_volume_base: self.total_sell_volume_base as int,
            total_buy_volume_quote: self.total_buy_volume_quote as int,
            total_sell_volume_quote: self.total_sell_volume_quote as int,
            total_cost_of_sold_assets: self.total_cost_of_sold_assets as int,
            total_value_of_sold_assets: self.total_value_of_sold_assets as int,
        }
    }
}

/// The statistics an engine state yields once the run is over.
pub open spec fn stats_of(m: EngineView) -> StatsView {
    StatsView {
        realized_pnl: m.realized_pnl,
        unrealized_pnl: unrealized_total(m.queue, m.last_price),
        balance: m.balance,
        total_buy_volume_base: m.buy_volume_base,
        total_sell_volume_base: m.sell_volume_base,
        total_buy_volume_quote: m.buy_volume_quote,
        total_sell_volume_quote: m.sell_volume_quote,
        total_cost_of_sold_assets: m.cost_sold,
        total_value_of_sold_assets: m.value_sold,
    }
}

/// Appending a lot adds its cost to the queue's total cost.
pub proof fn lemma_queue_cost_push(q: Seq<LotView>, l: LotView)
    ensures
        queue_cost(q.push(l)) == queue_cost(q) + l.cost,
    decreases q.len(),
{
    if q.len() == 0 {
        assert(q.push(l).subrange(1, 1) =~= Seq::<LotView>::empty());
        assert(queue_cost(Seq::<LotView>::empty()) == 0);
        assert(queue_cost(q) == 0);
        assert(q.push(l)[0] == l);
    } else {
        assert(q.push(l).subrange(1, q.len() as int + 1) =~= q.subrange(
            1,
            q.len() as int,
        ).push(l));
        lemma_queue_cost_push(q.subrange(1, q.len() as int), l);
    }
}

/// A well-formed queue holds a non-negative total cost.
pub proof fn lemma_queue_cost_nonneg(q: Seq<LotView>)
    requires
        queue_wf(q),
    ensures
        queue_cost(q) >= 0,
    decreases q.len(),
{
    if q.len() > 0 {
        let tail = q.subrange(1, q.len() as int);
        assert(forall|i: int| 0 <= i < tail.len() ==> #[trigger] tail[i] == q[i + 1]);
        lemma_queue_cost_nonneg(tail);
        assert(lot_wf(q[0]));
    }
}

/// A well-formed queue holds a non-negative total volume.
pub proof fn lemma_queue_amount_nonneg(q: Seq<LotView>)
    requires
        queue_wf(q),
    ensures
        queue_amount(q) >= 0,
    decreases q.len(),
{
    if q.len() > 0 {
        let tail = q.subrange(1, q.len() as int);
        assert(forall|i: int| 0 <= i < tail.len() ==> #[trigger] tail[i] == q[i + 1]);
        lemma_queue_amount_nonneg(tail);
        assert(lot_wf(q[0]));
    }
}

/// The proportional slice taken out of a partially consumed lot: it is
/// between zero and the lot's whole remaining cost, and it equals a
/// quotient/remainder split of the cost that never needs the full
/// `cost * rem` product.
pub proof fn lemma_partial_slice(c: int, a: int, rem: int)
    requires
        0 <= c <= max_lot_cost(),
        0 < rem < a <= MAX_QTY,
    ensures
        0 <= (c * rem) / a <= c,
        (c * rem) / a == (c / a) * rem + ((c % a) * rem) / a,
        0 <= (c / a) * rem <= c,
        0 <= (c % a) * rem <= max_lot_cost(),
        0 <= ((c % a) * rem) / a < a,
{
    let q = c / a;
    let r = c % a;
    vstd::arithmetic::div_mod::lemma_fundamental_div_mod(c, a);
    vstd::arithmetic::div_mod::lemma_remainder(c, a);
    vstd::arithmetic::div_mod::lemma_div_pos_is_pos(c, a);
    vstd::arithmetic::mul::lemma_mul_is_commutative(q, a);
    vstd::arithmetic::mul::lemma_mul_is_commutative(r, a);
    assert(0 <= r < a);
    assert(q * rem <= q * a) by (nonlinear_arith)
        requires
            0 <= q,
            0 < rem < a,
    ;
    assert(q * a <= c);
    vstd::arithmetic::mul::lemma_mul_nonnegative(q, rem);
    vstd::arithmetic::mul::lemma_mul_nonnegative(r, rem);
    assert(r * rem <= r * a) by (nonlinear_arith)
        requires
            0 <= r,
            0 < rem < a,
    ;
    assert(r * a <= (MAX_QTY as int) * (MAX_QTY as int)) by (nonlinear_arith)
        requires
            0 <= r < a <= MAX_QTY as int,
    ;
    vstd::arithmetic::div_mod::lemma_div_is_ordered(r * rem, r * a, a);
    vstd::arithmetic::div_mod::lemma_div_multiples_vanish(r, a);
    vstd::arithmetic::div_mod::lemma_div_pos_is_pos(r * rem, a);
    assert(((c % a) * rem) / a <= r);
    let q2 = (r * rem) / a;
    let r2 = (r * rem) % a;
    vstd::arithmetic::div_mod::lemma_fundamental_div_mod(r * rem, a);
    vstd::arithmetic::div_mod::lemma_remainder(r * rem, a);
    assert(0 <= r2 < a);
    assert(c * rem == (q * rem + q2) * a + r2) by (nonlinear_arith)
        requires
            c == a * q + r,
            r * rem == a * q2 + r2,
    ;
    vstd::arithmetic::div_mod::lemma_fundamental_div_mod_converse(c * rem, a, q * rem + q2, r2);
}

/// What front consumption guarantees: the queue stays well formed, never
/// grows, and gives up exactly the cost basis that is charged.
pub proof fn lemma_consume_props(q: Seq<LotView>, rem: int)
    requires
        queue_wf(q),
        0 <= rem,
    ensures
        queue_wf(consume_queue(q, rem).0),
        consume_queue(q, rem).0.len() <= q.len(),
        0 <= consume_queue(q, rem).1 <= queue_cost(q),
        queue_cost(consume_queue(q, rem).0) == queue_cost(q) - consume_queue(q, rem).1,
    decreases q.len(),
{
    lemma_queue_cost_nonneg(q);
    if rem <= 0 || q.len() == 0 {
    } else {
        let lot = q[0];
        assert(lot_wf(lot));
        let tail = q.subrange(1, q.len() as int);
        assert(forall|i: int| 0 <= i < tail.len() ==> #[trigger] tail[i] == q[i + 1]);
        if lot.amount <= rem {
            lemma_consume_props(tail, rem - lot.amount);
        } else {
            let partial = (lot.cost * rem) / lot.amount;
            lemma_partial_slice(lot.cost, lot.amount, rem);
            lemma_queue_cost_nonneg(tail);
            let shrunk = LotView { amount: lot.amount - rem, cost: lot.cost - partial };
            let q2 = q.update(0, shrunk);
            assert(lot_wf(shrunk));
            assert(queue_wf(q2)) by {
                assert(forall|i: int| 0 < i < q2.len() ==> #[trigger] q2[i] == q[i]);
            }
            assert(q2.subrange(1, q2.len() as int) =~= tail);
        }
    }
}

/// One engine step keeps the state invariant, with the trade count grown
/// by one.
pub proof fn lemma_step_wf(m: EngineView, t: TradeView, year: Option<i32>, n: int)
    requires
        engine_wf(m, n),
        trade_wf(t),
        n < MAX_TRADES,
    ensures
        engine_wf(engine_step(m, t, year), n + 1),
{
    let maxq = MAX_QTY as int;
    let maxc = max_lot_cost();
    assert(0 < maxq * maxq && maxq <= maxc) by (nonlinear_arith)
        requires
            maxq == MAX_QTY as int,
            maxc == maxq * maxq + maxq,
    ;
    assert((n + 1) * maxq == n * maxq + maxq) by (nonlinear_arith);
    assert((n + 1) * maxc == n * maxc + maxc) by (nonlinear_arith);
    assert(0 < t.volume * t.price <= maxq * maxq) by (nonlinear_arith)
        requires
            0 < t.volume <= maxq,
            0 < t.price <= maxq,
    ;
    vstd::arithmetic::div_mod::lemma_div_pos_is_pos(t.volume * t.price, UNIT as int);
    vstd::arithmetic::div_mod::lemma_div_nonincreasing(t.volume * t.price, UNIT as int);
    lemma_queue_cost_nonneg(m.queue);
    if t.side == Side::Buy {
        let lot_cost = quote_value(t.volume, t.price) + t.fee;
        let l = LotView { amount: t.volume, cost: lot_cost };
        assert(lot_wf(l));
        lemma_queue_cost_push(m.queue, l);
        let m2 = engine_step(m, t, year);
        assert(queue_wf(m2.queue)) by {
            assert(forall|i: int|
                0 <= i < m.queue.len() ==> #[trigger] m2.queue[i] == m.queue[i]);
            assert(m2.queue[m.queue.len() as int] == l);
        }
    } else {
        lemma_consume_props(m.queue, t.volume);
    }
}

/// Numeric caps implied by the invariant: room enough that every `i128`
/// operation of the exec engine stays in range.
pub proof fn lemma_wf_bounds(m: EngineView, n: int)
    requires
        engine_wf(m, n),
    ensures
        -0x1000000000000000000000000000000 <= m.realized_pnl <= 0x1000000000000000000000000000000,
        -0x1000000000000000000000000000000 <= m.balance <= 0x1000000000000000000000000000000,
        0 <= m.buy_volume_base <= 0x1000000000000000000000000000000,
        0 <= m.sell_volume_base <= 0x1000000000000000000000000000000,
        0 <= m.buy_volume_quote <= 0x1000000000000000000000000000000,
        -0x1000000000000000000000000000000 <= m.sell_volume_quote
            <= 0x1000000000000000000000000000000,
        -0x1000000000000000000000000000000 <= m.value_sold <= 0x1000000000000000000000000000000,
        0 <= m.cost_sold <= 0x1000000000000000000000000000000,
        0 <= queue_cost(m.queue) <= 0x1000000000000000000000000000000,
        m.queue.len() <= 0x100_0000,
{
    let maxq = MAX_QTY as int;
    let maxc = max_lot_cost();
    assert(0 <= maxc <= 0x800000000000000000000000) by (nonlinear_arith)
        requires
            maxq == 0x8000_0000_0000,
            maxc == maxq * maxq + maxq,
    ;
    vstd::arithmetic::mul::lemma_mul_upper_bound(n, 0x100_0000, maxc, 0x800000000000000000000000);
    vstd::arithmetic::mul::lemma_mul_nonnegative(n, maxc);
    vstd::arithmetic::mul::lemma_mul_upper_bound(n, 0x100_0000, maxq, 0x8000_0000_0000);
    vstd::arithmetic::mul::lemma_mul_nonnegative(n, maxq);
    lemma_queue_cost_nonneg(m.queue);
}

/// The exec FIFO engine: the queue of open lots plus the running totals,
/// together with the calendar-year restriction the run was started with
/// and how many trades it has folded in so far.
pub struct FifoEngine {
    pub queue: VecDeque<Lot>,
    pub year: Option<i32>,
    pub n_processed: u64,
    pub last_price: i64,
    pub realized_pnl: i128,
    pub balance: i128,
    pub buy_volume_base: i128,
    pub sell_volume_base: i128,
    pub buy_volume_quote: i128,
    pub sell_volume_quote: i128,
    pub cost_sold: i128,
    pub value_sold: i128,
}

/// The images of a sequence of lots.
pub open spec fn lot_views(q: Seq<Lot>) -> Seq<LotView> {
    q.map_values(|l: Lot| l@)
}

impl View for FifoEngine {
    type V = EngineView;

    open spec fn view(&self) -> EngineView {
        EngineView {
            queue: lot_views(self.queue@),
            last_price: self.last_price as int,
            realized_pnl: self.realized_pnl as int,
            balance: self.balance as int,
            buy_volume_base: self.buy_volume_base as int,
            sell_volume_base: self.sell_volume_base as int,
            buy_volume_quote: self.buy_volume_quote as int,
            sell_volume_quote: self.sell_volume_quote as int,
            cost_sold: self.cost_sold as int,
            value_sold: self.value_sold as int,
        }
    }
}

impl FifoEngine {
    /// The engine's invariant: its state is one that folding in
    /// `n_processed` well-formed trades can reach.
    pub open spec fn wf(self) -> bool {
        engine_wf(self@, self.n_processed as int)
    }

    /// A fresh engine, optionally restricting realized PnL to one
    /// calendar year of sell executions.
    pub fn new(year: Option<i32>) -> (e: FifoEngine)
        ensures
            e@ == init_engine(),
            e.wf(),
            e.n_processed == 0,
            e.year == year,
    {
        let e = FifoEngine {
            queue: VecDeque::new(),
            year,
            n_processed: 0,
            last_price: 0,
            realized_pnl: 0,
            balance: 0,
            buy_volume_base: 0,
            sell_volume_base: 0,
            buy_volume_quote: 0,
            sell_volume_quote: 0,
            cost_sold: 0,
            value_sold: 0,
        };
        proof {
            assert(e@.queue =~= init_engine().queue);
            assert(e@ =~= init_engine());
            assert(queue_cost(e@.queue) == 0);
        }
        e
    }

    /// Fold one trade into the running state.
    ///
    /// A buy pushes a lot to the back of the queue; a sell consumes lots
    /// from the front, oldest first, charging their cost against the
    /// proceeds. The new state is exactly one [`engine_step`].
    pub fn process(&mut self, t: &Trade)
        requires
            old(self).wf(),
            trade_wf(t@),
            old(self).n_processed < MAX_TRADES,
        ensures
            final(self).wf(),
            final(self)@ == engine_step(old(self)@, t@, old(self).year),
            final(self).year == old(self).year,
            final(self).n_processed == old(self).n_processed + 1,
    {
        let ghost m0 = self@;
        let ghost n0 = self.n_processed;
        let ghost year0 = self.year;
        proof {
            lemma_step_wf(m0, t@, year0, n0 as int);
            lemma_wf_bounds(m0, n0 as int);
            assert(0 < (t@.volume) * (t@.price) <= 0x400000000000000000000000) by (nonlinear_arith)
                requires
                    0 < t@.volume <= 0x8000_0000_0000,
                    0 < t@.price <= 0x8000_0000_0000,
            ;
            vstd::arithmetic::div_mod::lemma_div_pos_is_pos((t@.volume) * (t@.price), UNIT as int);
            vstd::arithmetic::div_mod::lemma_div_nonincreasing(
                (t@.volume) * (t@.price),
                UNIT as int,
            );
        }
        self.last_price = t.price;
        match t.side {
            Side::Buy => {
                let prod: i128 = (t.volume as i128) * (t.price as i128);
                let lot_cost: i128 = ((prod as u128) / 100_000_000) as i128 + (t.fee as i128);
                self.queue.push_back(Lot { amount: t.volume, cost: lot_cost });
                self.balance = self.balance + (t.volume as i128);
                self.buy_volume_base = self.buy_volume_base + (t.volume as i128);
                self.buy_volume_quote = self.buy_volume_quote + lot_cost;
                proof {
                    assert(lot_views(self.queue@) =~= m0.queue.push(
                        LotView {
                            amount: t@.volume,
                            cost: quote_value(t@.volume, t@.price) + t@.fee,
                        },
                    ));
                }
            },
            Side::Sell => {
                let prod: i128 = (t.volume as i128) * (t.price as i128);
                let proceeds: i128 = ((prod as u128) / 100_000_000) as i128 - (t.fee as i128);
                let mut remaining: i64 = t.volume;
                let mut cost_basis: i128 = 0;
                let ghost q0 = lot_views(self.queue@);
                proof {
                    assert(q0 == m0.queue);
                    lemma_queue_cost_nonneg(q0);
                }
                while remaining > 0 && self.queue.len() > 0
                    invariant
                        0 <= remaining <= MAX_QTY,
                        queue_wf(lot_views(self.queue@)),
                        consume_queue(q0, t@.volume).0 == consume_queue(
                            lot_views(self.queue@),
                            remaining as int,
                        ).0,
                        consume_queue(q0, t@.volume).1 == cost_basis + consume_queue(
                            lot_views(self.queue@),
                            remaining as int,
                        ).1,
                        0 <= cost_basis,
                        cost_basis + queue_cost(lot_views(self.queue@)) == queue_cost(q0),
                        0 <= queue_cost(lot_views(self.queue@)),
                        0 <= queue_cost(q0) <= 0x1000000000000000000000000000000,
                        self@.last_price == t@.price,
                        self@.realized_pnl == m0.realized_pnl,
                        self@.balance == m0.balance,
                        self@.buy_volume_base == m0.buy_volume_base,
                        self@.sell_volume_base == m0.sell_volume_base,
                        self@.buy_volume_quote == m0.buy_volume_quote,
                        self@.sell_volume_quote == m0.sell_volume_quote,
                        self@.cost_sold == m0.cost_sold,
                        self@.value_sold == m0.value_sold,
                        self.year == year0,
                        self.n_processed == n0,
                    decreases self.queue.len(), remaining,
                {
                    let ghost qpre = lot_views(self.queue@);
                    proof {
                        assert(qpre.len() > 0);
                        assert(lot_wf(qpre[0]));
                    }
                    let lot = self.queue.pop_front().unwrap();
                    proof {
                        assert(lot@ == qpre[0]);
                        assert(lot_views(self.queue@) =~= qpre.subrange(1, qpre.len() as int));
                        assert(forall|i: int|
                            0 <= i < qpre.len() - 1 ==> #[trigger] lot_views(self.queue@)[i]
                                == qpre[i + 1]);
                        lemma_queue_cost_nonneg(lot_views(self.queue@));
                    }
                    if lot.amount <= remaining {
                        proof {
                            assert(queue_cost(qpre) == qpre[0].cost + queue_cost(
                                qpre.subrange(1, qpre.len() as int),
                            ));
                            assert(queue_cost(lot_views(self.queue@)) == queue_cost(
                                qpre.subrange(1, qpre.len() as int),
                            ));
                        }
                        cost_basis = cost_basis + lot.cost;
                        remaining = remaining - lot.amount;
                    } else {
                        let ghost rem0 = remaining as int;
                        proof {
                            lemma_partial_slice(lot@.cost, lot@.amount, remaining as int);
                        }
                        proof {
                            assert((MAX_QTY as int) * (MAX_QTY as int) + MAX_QTY
                                <= 0x800000000000000000000000) by (nonlinear_arith)
                                requires
                                    MAX_QTY == 0x8000_0000_0000,
                            ;
                        }
                        let cu: u128 = lot.cost as u128;
                        let au: u128 = lot.amount as u128;
                        let ru: u128 = remaining as u128;
                        let partial: i128 = ((cu / au) * ru + (cu % au) * ru / au) as i128;
                        proof {
                            assert(partial as int == (lot@.cost * rem0) / lot@.amount);
                        }
                        self.queue.push_front(
                            Lot { amount: lot.amount - remaining, cost: lot.cost - partial },
                        );
                        cost_basis = cost_basis + partial;
                        remaining = 0;
                        proof {
                            let shrunk = LotView {
                                amount: qpre[0].amount - rem0,
                                cost: qpre[0].cost - partial as int,
                            };
                            let q2 = qpre.update(0, shrunk);
                            assert(lot_views(self.queue@) =~= q2);
                            assert(q2.subrange(1, q2.len() as int) =~= qpre.subrange(
                                1,
                                qpre.len() as int,
                            ));
                            assert(queue_cost(q2) == q2[0].cost + queue_cost(
                                q2.subrange(1, q2.len() as int),
                            ));
                            assert(queue_cost(qpre) == qpre[0].cost + queue_cost(
                                qpre.subrange(1, qpre.len() as int),
                            ));
                        }
                    }
                }
                proof {
                    assert(cost_basis == consume_queue(q0, t@.volume).1);
                    assert(lot_views(self.queue@) == consume_queue(q0, t@.volume).0);
                    lemma_consume_props(q0, t@.volume);
                }
                let counted: bool = match self.year {
                    Option::None => true,
                    Option::Some(y) => year_of_timestamp(t.timestamp_nanos) == y,
                };
                if counted {
                    self.realized_pnl = self.realized_pnl + (proceeds - cost_basis);
                }
                self.balance = self.balance - (t.volume as i128);
                self.sell_volume_base = self.sell_volume_base + (t.volume as i128);
                self.sell_volume_quote = self.sell_volume_quote + proceeds;
                self.cost_sold = self.cost_sold + cost_basis;
                self.value_sold = self.value_sold + proceeds;
            },
        }
        self.n_processed = self.n_processed + 1;
        proof {
            assert(self@ =~= engine_step(m0, t@, year0));
        }
    }

    /// Read the final statistics off the engine state, valuing the lots
    /// still held at the last seen price.
    pub fn statistics(&self) -> (r: RunStatistics)
        requires
            self.wf(),
        ensures
            r@ == stats_of(self@),
    {
        proof {
            lemma_wf_bounds(self@, self.n_processed as int);
        }
        let ghost qv = lot_views(self.queue@);
        let mut unreal: i128 = 0;
        let mut i: usize = 0;
        let n = self.queue.len();
        while i < n
            invariant
                0 <= i <= n,
                n == self.queue@.len(),
                n <= 0x100_0000,
                qv == lot_views(self.queue@),
                qv.len() == n,
                queue_wf(qv),
                0 <= self@.last_price <= MAX_QTY,
                unreal == unrealized_total(qv.take(i as int), self@.last_price),
                -((i as int) * 0x1000000000000000000000000) <= unreal <= (i as int)
                    * 0x1000000000000000000000000,
            decreases n - i,
        {
            let lot = self.queue[i];
            proof {
                assert(lot@ == qv[i as int]);
                assert(lot_wf(qv[i as int]));
                assert(0 <= (lot@.amount) * (self@.last_price)
                    <= 0x400000000000000000000000) by (nonlinear_arith)
                    requires
                        0 <= self@.last_price <= 0x8000_0000_0000,
                        0 < lot@.amount <= 0x8000_0000_0000,
                ;
                vstd::arithmetic::div_mod::lemma_div_pos_is_pos(
                    (lot@.amount) * (self@.last_price),
                    UNIT as int,
                );
                vstd::arithmetic::div_mod::lemma_div_nonincreasing(
                    (lot@.amount) * (self@.last_price),
                    UNIT as int,
                );
            }
            let prod: i128 = (lot.amount as i128) * (self.last_price as i128);
            let term: i128 = ((prod as u128) / 100_000_000) as i128 - lot.cost;
            unreal = unreal + term;
            i = i + 1;
            proof {
                assert(qv.take(i as int).drop_last() =~= qv.take(i as int - 1));
                assert(qv.take(i as int).last() == qv[i as int - 1]);
            }
        }
        proof {
            assert(qv.take(n as int) =~= qv);
        }
        RunStatistics {
            realized_pnl: self.realized_pnl,
            unrealized_pnl: unreal,
            balance: self.balance,
            total_buy_volume_base: self.buy_volume_base,
            total_sell_volume_base: self.sell_volume_base,
            total_buy_volume_quote: self.buy_volume_quote,
            total_sell_volume_quote: self.sell_volume_quote,
            total_cost_of_sold_assets: self.cost_sold,
            total_value_of_sold_assets: self.value_sold,
        }
    }
}

/// Compute the whole FIFO report for a chronologically ordered trade
/// sequence, optionally restricting realized PnL to sells falling in one
/// calendar year. The result is exactly the statistics of the spec-level
/// fold [`run_engine`].
pub fn compute_fifo_pnl(trades: &Vec<Trade>, year: Option<i32>) -> (r: RunStatistics)
    requires
        trades_wf(trade_views(trades@)),
        trades@.len() <= MAX_TRADES,
    ensures
        r@ == stats_of(run_engine(trade_views(trades@), year)),
{
    let ghost tv = trade_views(trades@);
    let mut engine = FifoEngine::new(year);
    let n = trades.len();
    let mut i: usize = 0;
    while i < n
        invariant
            0 <= i <= n,
            n == trades@.len(),
            n <= MAX_TRADES,
            tv == trade_views(trades@),
            tv.len() == n,
            trades_wf(tv),
            engine.wf(),
            engine.year == year,
            engine.n_processed as int == i as int,
            engine@ == run_engine(tv.take(i as int), year),
        decreases n - i,
    {
        proof {
            assert(tv[i as int] == trades@[i as int]@);
        }
        engine.process(&trades[i]);
        i = i + 1;
        proof {
            assert(tv.take(i as int).drop_last() =~= tv.take(i as int - 1));
            assert(tv.take(i as int).last() == tv[i as int - 1]);
        }
    }
    proof {
        assert(tv.take(n as int) =~= tv);
    }
    engine.statistics()
}

} // verus!
