use fifo_pnl::trade::Side;
use fifo_pnl::trade::TradeError;
use fifo_pnl::trade::TradeRecord;

fn record(side: &str, price: &str, fee: &str, volume: &str) -> TradeRecord {
    TradeRecord {
        order_id: String::from("OQCLML-BW3P3-BUCMWZ"),
        pair: String::from("XXBTZEUR"),
        timestamp_nanos: 1_688_669_448_759_000_000,
        side: String::from(side),
        price: String::from(price),
        fee: String::from(fee),
        volume: String::from(volume),
        cost: String::from("30.23505"),
        order_type: String::from("limit"),
    }
}

#[test]
fn parses_a_valid_buy() {
    let t = record("buy", "30010.1", "0.6", "0.00125").parse().unwrap();
    assert!(matches!(t.side, Side::Buy));
    assert_eq!(t.price, 3_001_010_000_000);
    assert_eq!(t.fee, 60_000_000);
    assert_eq!(t.volume, 125_000);
    assert_eq!(t.order_id, "OQCLML-BW3P3-BUCMWZ");
    assert_eq!(t.pair, "XXBTZEUR");
    assert_eq!(t.timestamp_nanos, 1_688_669_448_759_000_000);
    assert_eq!(t.cost, "30.23505");
    assert_eq!(t.order_type, "limit");
}

#[test]
fn parses_a_valid_sell() {
    let t = record("sell", "150", "0.5", "0.4").parse().unwrap();
    assert!(matches!(t.side, Side::Sell));
    assert_eq!(t.price, 15_000_000_000);
    assert_eq!(t.fee, 50_000_000);
    assert_eq!(t.volume, 40_000_000);
}

#[test]
fn accepts_venue_style_padded_decimals() {
    let t = record("buy", "30010.1000000000", "0.6000000000", "0.0012500000")
        .parse()
        .unwrap();
    assert_eq!(t.price, 3_001_010_000_000);
    assert_eq!(t.fee, 60_000_000);
    assert_eq!(t.volume, 125_000);
}

#[test]
fn rejects_unknown_side() {
    let r = record("short", "100", "0", "1").parse();
    assert_eq!(r.unwrap_err(), TradeError::InvalidSide);
}

#[test]
fn side_check_comes_first() {
    let r = record("hold", "not-a-number", "x", "y").parse();
    assert_eq!(r.unwrap_err(), TradeError::InvalidSide);
}

#[test]
fn rejects_zero_or_bad_price() {
    assert_eq!(
        record("buy", "0", "0", "1").parse().unwrap_err(),
        TradeError::InvalidPrice
    );
    assert_eq!(
        record("buy", "0.0", "0", "1").parse().unwrap_err(),
        TradeError::InvalidPrice
    );
    assert_eq!(
        record("buy", "12x", "0", "1").parse().unwrap_err(),
        TradeError::InvalidPrice
    );
}

#[test]
fn rejects_bad_fee() {
    assert_eq!(
        record("buy", "100", "fee", "1").parse().unwrap_err(),
        TradeError::InvalidFee
    );
    // a zero fee is fine
    assert!(record("buy", "100", "0", "1").parse().is_ok());
}

#[test]
fn rejects_zero_or_bad_volume() {
    assert_eq!(
        record("sell", "100", "0", "0").parse().unwrap_err(),
        TradeError::InvalidVolume
    );
    assert_eq!(
        record("sell", "100", "0", "").parse().unwrap_err(),
        TradeError::InvalidVolume
    );
}
