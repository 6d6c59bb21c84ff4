//! Laws of the FIFO engine, proved once and for all over the spec fold.

use vstd::prelude::*;
use crate::engine::EngineView;
use crate::engine::LotView;
use crate::engine::consume_queue;
use crate::engine::counts_for_year;
use crate::engine::engine_step;
use crate::engine::lemma_queue_amount_nonneg;
use crate::engine::lot_wf;
use crate::engine::queue_amount;
use crate::engine::queue_cost;
use crate::engine::queue_wf;
use crate::engine::run_engine;
use crate::engine::sell_cost_basis;
use crate::engine::sell_proceeds;
use crate::trade::Side;
use crate::trade::TradeView;

verus! {

/// FIFO ordering, whole-lot part: a sell large enough to cover the `old`
/// lots at the front of the queue consumes exactly those lots, charging
/// their full remaining cost, before anything of the `young` lots behind
/// them is touched.
pub proof fn lemma_fifo_oldest_first(old_lots: Seq<LotView>, young: Seq<LotView>, rem: int)
    requires
        queue_wf(old_lots),
        queue_wf(young),
        rem >= queue_amount(old_lots),
    ensures
        consume_queue(old_lots + young, rem).0 == consume_queue(
            young,
            rem - queue_amount(old_lots),
        ).0,
        consume_queue(old_lots + young, rem).1 == queue_cost(old_lots) + consume_queue(
            young,
            rem - queue_amount(old_lots),
        ).1,
    decreases old_lots.len(),
{
    if old_lots.len() == 0 {
        assert(old_lots + young =~= young);
        assert(queue_amount(old_lots) == 0);
        assert(queue_cost(old_lots) == 0);
    } else {
        let tail = old_lots.subrange(1, old_lots.len() as int);
        assert(forall|i: int| 0 <= i < tail.len() ==> #[trigger] tail[i] == old_lots[i + 1]);
        lemma_queue_amount_nonneg(tail);
        assert(lot_wf(old_lots[0]));
        let q = old_lots + young;
        assert(q[0] == old_lots[0]);
        assert(rem >= old_lots[0].amount + queue_amount(tail));
        assert(q.subrange(1, q.len() as int) =~= tail + young);
        lemma_fifo_oldest_first(tail, young, rem - old_lots[0].amount);
    }
}

/// FIFO ordering, partial-lot part: a sell smaller than the front lot
/// shrinks that lot in place by a proportional slice and leaves it at the
/// front; every younger lot is untouched, so the queue's order survives.
pub proof fn lemma_fifo_partial_leaves_front(q: Seq<LotView>, rem: int)
    requires
        q.len() > 0,
        0 < rem < q[0].amount,
    ensures
        consume_queue(q, rem).0 == q.update(
            0,
            LotView {
                amount: q[0].amount - rem,
                cost: q[0].cost - (q[0].cost * rem) / q[0].amount,
            },
        ),
        consume_queue(q, rem).1 == (q[0].cost * rem) / q[0].amount,
        forall|i: int| 0 < i < q.len() ==> #[trigger] consume_queue(q, rem).0[i] == q[i],
{
}

/// Balance identity: however the trades run, the final balance is the
/// total bought volume minus the total sold volume, exactly.
pub proof fn lemma_balance_identity(ts: Seq<TradeView>, year: Option<i32>)
    ensures
        run_engine(ts, year).balance == run_engine(ts, year).buy_volume_base - run_engine(
            ts,
            year,
        ).sell_volume_base,
    decreases ts.len(),
{
    if ts.len() > 0 {
        lemma_balance_identity(ts.drop_last(), year);
    }
}

/// Realized PnL with no year restriction equals total sell proceeds minus
/// total cost charged for the sold volume.
pub proof fn lemma_realized_additivity(ts: Seq<TradeView>)
    ensures
        run_engine(ts, Option::None).realized_pnl == run_engine(ts, Option::None).value_sold
            - run_engine(ts, Option::None).cost_sold,
    decreases ts.len(),
{
    if ts.len() > 0 {
        lemma_realized_additivity(ts.drop_last());
    }
}

/// The per-sell profit values of a run that never restricts by year,
/// summed over the sells that the optional year restriction admits.
pub open spec fn summed_sell_pnl(ts: Seq<TradeView>, year: Option<i32>) -> int
    decreases ts.len(),
{
    if ts.len() == 0 {
        0
    } else {
        let t = ts.last();
        summed_sell_pnl(ts.drop_last(), year) + if t.side == Side::Sell && counts_for_year(
            t.timestamp_nanos,
            year,
        ) {
            sell_proceeds(t) - sell_cost_basis(run_engine(ts.drop_last(), Option::None).queue, t)
        } else {
            0
        }
    }
}

/// The year restriction touches nothing but realized PnL: the lot queue,
/// the last seen price and every aggregate total come out the same for
/// any two restrictions.
pub proof fn lemma_year_only_affects_realized(ts: Seq<TradeView>, y1: Option<i32>, y2: Option<i32>)
    ensures
        run_engine(ts, y1).queue == run_engine(ts, y2).queue,
        run_engine(ts, y1).last_price == run_engine(ts, y2).last_price,
        run_engine(ts, y1).balance == run_engine(ts, y2).balance,
        run_engine(ts, y1).buy_volume_base == run_engine(ts, y2).buy_volume_base,
        run_engine(ts, y1).sell_volume_base == run_engine(ts, y2).sell_volume_base,
        run_engine(ts, y1).buy_volume_quote == run_engine(ts, y2).buy_volume_quote,
        run_engine(ts, y1).sell_volume_quote == run_engine(ts, y2).sell_volume_quote,
        run_engine(ts, y1).cost_sold == run_engine(ts, y2).cost_sold,
        run_engine(ts, y1).value_sold == run_engine(ts, y2).value_sold,
    decreases ts.len(),
{
    if ts.len() > 0 {
        lemma_year_only_affects_realized(ts.drop_last(), y1, y2);
    }
}

/// Year filter: realized PnL under a restriction is exactly the sum of
/// the unrestricted per-sell profits of the sells the restriction admits.
/// With no restriction it is the sum over all sells.
pub proof fn lemma_year_filter(ts: Seq<TradeView>, year: Option<i32>)
    ensures
        run_engine(ts, year).realized_pnl == summed_sell_pnl(ts, year),
    decreases ts.len(),
{
    if ts.len() > 0 {
        lemma_year_filter(ts.drop_last(), year);
        lemma_year_only_affects_realized(ts.drop_last(), year, Option::None);
    }
}

} // verus!
