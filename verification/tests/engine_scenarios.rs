use fifo_pnl::engine::FifoEngine;
use fifo_pnl::engine::compute_fifo_pnl;
use fifo_pnl::trade::Side;
use fifo_pnl::trade::Trade;

// All quantities are scaled by UNIT = 100_000_000.
const UNIT: i64 = 100_000_000;

fn trade(ts_secs: i64, side: Side, price: i64, fee: i64, volume: i64) -> Trade {
    Trade {
        order_id: String::from("O-1"),
        pair: String::from("XXBTZEUR"),
        timestamp_nanos: ts_secs * 1_000_000_000,
        side,
        price,
        fee,
        volume,
        cost: String::from("0"),
        order_type: String::from("limit"),
    }
}

#[test]
fn buy_then_partial_sell_scenario() {
    // One buy of 1.0 at price 100 with fee 1 (lot cost 101), one sell of
    // 0.4 at price 150 with fee 0.5.
    let trades = vec![
        trade(1_600_000_000, Side::Buy, 100 * UNIT, 1 * UNIT, 1 * UNIT),
        trade(1_600_000_100, Side::Sell, 150 * UNIT, UNIT / 2, 4 * UNIT / 10),
    ];
    let r = compute_fifo_pnl(&trades, None);
    // proceeds = 59.5, cost basis = 40.4, pnl = 19.1
    assert_eq!(r.realized_pnl, 1_910_000_000);
    // remaining lot (0.6, 60.6) marked at 150: (150 * 0.6) - 60.6 = 29.4
    assert_eq!(r.unrealized_pnl, 2_940_000_000);
    assert_eq!(r.balance, 60_000_000);
    assert_eq!(r.total_buy_volume_base, 100_000_000);
    assert_eq!(r.total_sell_volume_base, 40_000_000);
    assert_eq!(r.total_buy_volume_quote, 10_100_000_000);
    assert_eq!(r.total_sell_volume_quote, 5_950_000_000);
    assert_eq!(r.total_cost_of_sold_assets, 4_040_000_000);
    assert_eq!(r.total_value_of_sold_assets, 5_950_000_000);
}

#[test]
fn partial_sell_leaves_shrunk_lot_at_front() {
    let mut e = FifoEngine::new(None);
    e.process(&trade(1_600_000_000, Side::Buy, 100 * UNIT, 1 * UNIT, 1 * UNIT));
    e.process(&trade(1_600_000_050, Side::Buy, 200 * UNIT, 0, 1 * UNIT));
    e.process(&trade(1_600_000_100, Side::Sell, 150 * UNIT, UNIT / 2, 4 * UNIT / 10));
    // The first lot was consumed proportionally and stays at the front;
    // the younger lot is untouched behind it.
    assert_eq!(e.queue.len(), 2);
    assert_eq!(e.queue[0].amount, 60_000_000);
    assert_eq!(e.queue[0].cost, 6_060_000_000);
    assert_eq!(e.queue[1].amount, 100_000_000);
    assert_eq!(e.queue[1].cost, 20_000_000_000);
}

#[test]
fn second_sell_continues_from_shrunk_front_lot() {
    // After a partial consumption the remainder must still be first in
    // line: the next sell draws on it before the younger lot.
    let trades = vec![
        trade(100, Side::Buy, 100 * UNIT, 1 * UNIT, 1 * UNIT),
        trade(200, Side::Buy, 200 * UNIT, 0, 1 * UNIT),
        trade(300, Side::Sell, 150 * UNIT, UNIT / 2, 4 * UNIT / 10),
        trade(400, Side::Sell, 150 * UNIT, 0, 6 * UNIT / 10),
    ];
    let r = compute_fifo_pnl(&trades, None);
    // second sell consumes exactly the shrunk first lot (0.6, 60.6):
    // total cost of sold assets = 40.4 + 60.6 = 101
    assert_eq!(r.total_cost_of_sold_assets, 10_100_000_000);
    // untouched second lot remains: (1.0, 200), marked at 150
    assert_eq!(r.unrealized_pnl, -5_000_000_000);
    assert_eq!(r.balance, 100_000_000);
}

#[test]
fn fifo_consumes_oldest_lot_first() {
    // Two lots; a sell covering the first entirely must charge the first
    // lot's cost, not the second's.
    let trades = vec![
        trade(100, Side::Buy, 10 * UNIT, 0, 1 * UNIT),
        trade(200, Side::Buy, 20 * UNIT, 0, 1 * UNIT),
        trade(300, Side::Sell, 30 * UNIT, 0, 1 * UNIT),
    ];
    let r = compute_fifo_pnl(&trades, None);
    // cost basis of the sell is the oldest lot: 10
    assert_eq!(r.total_cost_of_sold_assets, 1_000_000_000);
    assert_eq!(r.realized_pnl, 2_000_000_000);
}

#[test]
fn overselling_exhausts_queue_without_error() {
    // Selling 2.0 when only one lot of 1.0 exists: the cost basis covers
    // only the tracked lot; no error is raised.
    let trades = vec![
        trade(100, Side::Buy, 100 * UNIT, 1 * UNIT, 1 * UNIT),
        trade(200, Side::Sell, 100 * UNIT, 0, 2 * UNIT),
    ];
    let r = compute_fifo_pnl(&trades, None);
    assert_eq!(r.total_cost_of_sold_assets, 10_100_000_000);
    // proceeds 200, cost basis 101
    assert_eq!(r.realized_pnl, 9_900_000_000);
    assert_eq!(r.balance, -100_000_000);
    // the queue is empty, so nothing is marked to market
    assert_eq!(r.unrealized_pnl, 0);
}

#[test]
fn balance_equals_buys_minus_sells() {
    let trades = vec![
        trade(100, Side::Buy, 10 * UNIT, 0, 3 * UNIT),
        trade(200, Side::Sell, 12 * UNIT, 0, 1 * UNIT),
        trade(300, Side::Buy, 11 * UNIT, 0, 2 * UNIT),
        trade(400, Side::Sell, 9 * UNIT, 0, 1 * UNIT),
    ];
    let r = compute_fifo_pnl(&trades, None);
    assert_eq!(
        r.balance,
        (r.total_buy_volume_base - r.total_sell_volume_base) as i128
    );
    assert_eq!(r.balance, 300_000_000);
}

#[test]
fn realized_pnl_sums_per_sell_profits() {
    let trades = vec![
        trade(100, Side::Buy, 10 * UNIT, 0, 2 * UNIT),
        trade(200, Side::Sell, 15 * UNIT, 0, 1 * UNIT),
        trade(300, Side::Sell, 8 * UNIT, 0, 1 * UNIT),
    ];
    let r = compute_fifo_pnl(&trades, None);
    // first sell: 15 - 10 = 5; second sell: 8 - 10 = -2
    assert_eq!(r.realized_pnl, 500_000_000 - 200_000_000);
    assert_eq!(
        r.realized_pnl,
        r.total_value_of_sold_assets - r.total_cost_of_sold_assets
    );
}

#[test]
fn empty_trade_set_gives_all_zero_report() {
    let trades: Vec<Trade> = Vec::new();
    let r = compute_fifo_pnl(&trades, None);
    assert_eq!(r.realized_pnl, 0);
    assert_eq!(r.unrealized_pnl, 0);
    assert_eq!(r.balance, 0);
    assert_eq!(r.total_buy_volume_base, 0);
    assert_eq!(r.total_sell_volume_base, 0);
    assert_eq!(r.total_buy_volume_quote, 0);
    assert_eq!(r.total_sell_volume_quote, 0);
    assert_eq!(r.total_cost_of_sold_assets, 0);
    assert_eq!(r.total_value_of_sold_assets, 0);
}

// 2021-01-01 00:00:00 UTC and 2022-01-01 00:00:00 UTC.
const Y2021: i64 = 1_609_459_200;
const Y2022: i64 = 1_640_995_200;

#[test]
fn year_filter_restricts_realized_pnl_only() {
    let trades = vec![
        trade(Y2021, Side::Buy, 10 * UNIT, 0, 2 * UNIT),
        trade(Y2021 + 1000, Side::Sell, 15 * UNIT, 0, 1 * UNIT),
        trade(Y2022, Side::Sell, 20 * UNIT, 0, 1 * UNIT),
    ];
    let all = compute_fifo_pnl(&trades, None);
    let only_2021 = compute_fifo_pnl(&trades, Some(2021));
    let only_2022 = compute_fifo_pnl(&trades, Some(2022));
    // per-sell profits: 2021 sell: 15 - 10 = 5; 2022 sell: 20 - 10 = 10
    assert_eq!(all.realized_pnl, 1_500_000_000);
    assert_eq!(only_2021.realized_pnl, 500_000_000);
    assert_eq!(only_2022.realized_pnl, 1_000_000_000);
    assert_eq!(all.realized_pnl, only_2021.realized_pnl + only_2022.realized_pnl);
    // the auxiliary totals are not year-filtered
    assert_eq!(all.total_sell_volume_quote, only_2021.total_sell_volume_quote);
    assert_eq!(all.total_cost_of_sold_assets, only_2021.total_cost_of_sold_assets);
    assert_eq!(all.total_value_of_sold_assets, only_2022.total_value_of_sold_assets);
    assert_eq!(all.balance, only_2021.balance);
    assert_eq!(all.unrealized_pnl, only_2021.unrealized_pnl);
}

#[test]
fn year_filter_with_no_matching_year_yields_zero_realized() {
    let trades = vec![
        trade(Y2021, Side::Buy, 10 * UNIT, 0, 1 * UNIT),
        trade(Y2021 + 500, Side::Sell, 15 * UNIT, 0, 1 * UNIT),
    ];
    let r = compute_fifo_pnl(&trades, Some(1999));
    assert_eq!(r.realized_pnl, 0);
    assert_eq!(r.total_value_of_sold_assets, 1_500_000_000);
}

#[test]
fn last_trade_price_marks_open_position() {
    // The unrealized PnL uses the price of the most recent trade, even a
    // sell, not a live market price.
    let trades = vec![
        trade(100, Side::Buy, 10 * UNIT, 0, 2 * UNIT),
        trade(200, Side::Sell, 30 * UNIT, 0, 1 * UNIT),
    ];
    let r = compute_fifo_pnl(&trades, None);
    // one unit left with cost 10, marked at 30
    assert_eq!(r.unrealized_pnl, 2_000_000_000);
}
