use fifo_pnl::ingest::FetchAction;
use fifo_pnl::ingest::IngestError;
use fifo_pnl::ingest::IngestPipeline;
use fifo_pnl::trade::Side;
use fifo_pnl::trade::Trade;

fn trade_for(order_id: &str, pair: &str, ts_secs: i64) -> Trade {
    Trade {
        order_id: String::from(order_id),
        pair: String::from(pair),
        timestamp_nanos: ts_secs * 1_000_000_000,
        side: Side::Buy,
        price: 100_000_000,
        fee: 0,
        volume: 100_000_000,
        cost: String::from("1"),
        order_type: String::from("limit"),
    }
}

#[test]
fn pagination_stops_after_exactly_three_pages_for_120_records() {
    let (mut p, first) = IngestPipeline::begin(String::from("XXBTZEUR"), false);
    assert_eq!(first, FetchAction::RequestTrades { offset: 0, pause_before: false });
    let a1 = p.on_trades_page(Vec::new(), 120);
    assert_eq!(a1, FetchAction::RequestTrades { offset: 50, pause_before: true });
    let a2 = p.on_trades_page(Vec::new(), 120);
    assert_eq!(a2, FetchAction::RequestTrades { offset: 100, pause_before: true });
    let a3 = p.on_trades_page(Vec::new(), 120);
    assert_eq!(a3, FetchAction::Done);
}

#[test]
fn single_page_needs_no_pause_and_no_second_request() {
    let (mut p, _) = IngestPipeline::begin(String::from("XXBTZEUR"), false);
    let a = p.on_trades_page(Vec::new(), 50);
    assert_eq!(a, FetchAction::Done);
}

#[test]
fn records_of_other_pairs_are_dropped() {
    let (mut p, _) = IngestPipeline::begin(String::from("XXBTZEUR"), false);
    let page = vec![
        trade_for("A", "XXBTZEUR", 3),
        trade_for("B", "XETHZEUR", 2),
        trade_for("C", "XXBTZEUR", 1),
    ];
    p.on_trades_page(page, 3);
    let out = p.finish();
    assert_eq!(out.len(), 2);
    // sorted ascending by time: C (1) before A (3)
    assert_eq!(out[0].order_id, "C");
    assert_eq!(out[1].order_id, "A");
}

#[test]
fn user_reference_filter_pages_closed_orders_and_cross_references() {
    let (mut p, _) = IngestPipeline::begin(String::from("XXBTZEUR"), true);
    let page = vec![
        trade_for("A", "XXBTZEUR", 1),
        trade_for("B", "XXBTZEUR", 2),
        trade_for("C", "XXBTZEUR", 3),
    ];
    let a = p.on_trades_page(page, 3);
    assert_eq!(a, FetchAction::RequestOrders { offset: 0, pause_before: false });
    // 3 closed orders in total, served over two pages
    let b = p.on_orders_page(vec![String::from("A"), String::from("C")], 3);
    assert_eq!(b, FetchAction::RequestOrders { offset: 50, pause_before: true });
    let c = p.on_orders_page(vec![String::from("Z")], 3);
    assert_eq!(c, FetchAction::Done);
    let out = p.finish();
    assert_eq!(out.len(), 2);
    assert_eq!(out[0].order_id, "A");
    assert_eq!(out[1].order_id, "C");
}

#[test]
fn trades_are_sorted_ascending_by_timestamp() {
    let (mut p, _) = IngestPipeline::begin(String::from("P"), false);
    let page = vec![
        trade_for("late", "P", 30),
        trade_for("early", "P", 10),
        trade_for("middle", "P", 20),
    ];
    p.on_trades_page(page, 3);
    let out = p.finish();
    assert_eq!(out[0].order_id, "early");
    assert_eq!(out[1].order_id, "middle");
    assert_eq!(out[2].order_id, "late");
}

#[test]
fn sort_is_stable_for_equal_timestamps() {
    let (mut p, _) = IngestPipeline::begin(String::from("P"), false);
    let page = vec![
        trade_for("first", "P", 10),
        trade_for("second", "P", 10),
        trade_for("third", "P", 10),
        trade_for("older", "P", 5),
    ];
    p.on_trades_page(page, 4);
    let out = p.finish();
    assert_eq!(out[0].order_id, "older");
    assert_eq!(out[1].order_id, "first");
    assert_eq!(out[2].order_id, "second");
    assert_eq!(out[3].order_id, "third");
}

#[test]
fn two_runs_on_identical_data_agree() {
    let mut results: Vec<Vec<Trade>> = Vec::new();
    for _ in 0..2 {
        let (mut p, _) = IngestPipeline::begin(String::from("P"), true);
        let page = vec![
            trade_for("A", "P", 2),
            trade_for("B", "P", 1),
            trade_for("C", "Q", 1),
        ];
        p.on_trades_page(page, 3);
        p.on_orders_page(vec![String::from("A"), String::from("B")], 2);
        results.push(p.finish());
    }
    assert_eq!(results[0].len(), results[1].len());
    for i in 0..results[0].len() {
        assert_eq!(results[0][i].order_id, results[1][i].order_id);
        assert_eq!(results[0][i].timestamp_nanos, results[1][i].timestamp_nanos);
    }
}

#[test]
fn remote_failure_yields_an_error_kind_and_no_partial_result() {
    let (mut p, _) = IngestPipeline::begin(String::from("P"), false);
    let a = p.on_trades_page(vec![trade_for("A", "P", 1)], 120);
    assert_eq!(a, FetchAction::RequestTrades { offset: 50, pause_before: true });
    p.on_remote_error(IngestError::Remote);
    let r = p.outcome();
    assert_eq!(r.unwrap_err(), IngestError::Remote);
}

#[test]
fn malformed_page_during_orders_is_reported_as_such() {
    let (mut p, _) = IngestPipeline::begin(String::from("P"), true);
    let a = p.on_trades_page(vec![trade_for("A", "P", 1)], 1);
    assert_eq!(a, FetchAction::RequestOrders { offset: 0, pause_before: false });
    p.on_remote_error(IngestError::MalformedResponse);
    assert_eq!(p.outcome().unwrap_err(), IngestError::MalformedResponse);
}

#[test]
fn successful_outcome_returns_the_sorted_selection() {
    let (mut p, _) = IngestPipeline::begin(String::from("P"), false);
    let a = p.on_trades_page(vec![trade_for("B", "P", 2), trade_for("A", "P", 1)], 2);
    assert_eq!(a, FetchAction::Done);
    let out = p.outcome().unwrap();
    assert_eq!(out.len(), 2);
    assert_eq!(out[0].order_id, "A");
    assert_eq!(out[1].order_id, "B");
}

#[test]
fn pipeline_output_feeds_the_engine() {
    let (mut p, _) = IngestPipeline::begin(String::from("P"), false);
    let mut buy = trade_for("B", "P", 10);
    buy.price = 10_000_000_000;
    buy.fee = 100_000_000;
    buy.volume = 100_000_000;
    let mut sell = trade_for("S", "P", 20);
    sell.side = Side::Sell;
    sell.price = 15_000_000_000;
    sell.fee = 50_000_000;
    sell.volume = 40_000_000;
    // delivered out of order; the pipeline must order them for FIFO
    p.on_trades_page(vec![sell, buy], 2);
    let out = p.finish();
    let r = fifo_pnl::engine::compute_fifo_pnl(&out, None);
    assert_eq!(r.realized_pnl, 1_910_000_000);
    assert_eq!(r.balance, 60_000_000);
}

#[test]
fn empty_result_after_filtering_is_valid() {
    let (mut p, _) = IngestPipeline::begin(String::from("NOPE"), false);
    p.on_trades_page(vec![trade_for("A", "OTHER", 1)], 1);
    let out = p.finish();
    assert_eq!(out.len(), 0);
    let r = fifo_pnl::engine::compute_fifo_pnl(&out, None);
    assert_eq!(r.realized_pnl, 0);
    assert_eq!(r.balance, 0);
}
