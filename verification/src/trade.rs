//! The trade record and its fixed-point quantity model.

use vstd::prelude::*;
use crate::decimal::decimal_ok;
use crate::decimal::decimal_val;
use crate::decimal::parse_decimal;

verus! {

/// Number of decimal places carried by every quantity in this crate;
/// it covers the eight places the venue's quantity strings use.
pub const FRAC_DIGITS: u32 = 8;

/// Scaling factor: one whole unit of currency or volume equals `UNIT`
/// fixed-point steps.
pub const UNIT: i64 = 100_000_000;

/// Upper bound on any single parsed quantity (already scaled by `UNIT`).
/// Keeping every per-trade quantity below 2^47 lets the engine run all
/// of its accounting in `i128` without overflow. It caps each fill's
/// volume, price and fee at about 1.4 million whole units; a fill beyond
/// that is rejected up front rather than accounted imprecisely.
pub const MAX_QTY: i64 = 0x8000_0000_0000;

/// Upper bound on the number of trades one engine run accepts.
pub const MAX_TRADES: u64 = 0x100_0000;

/// Which side of the book an execution hit.
#[derive(Clone, Copy, PartialEq, Eq, Structural, Debug)]
pub enum Side {
    Buy,
    Sell,
}

/// One executed fill, with all quantities as scaled fixed-point integers.
#[derive(Debug)]
pub struct Trade {
    /// Identifier of the parent order; used to cross-reference closed orders.
    pub order_id: String,
    /// Trading-pair symbol; used for filtering.
    pub pair: String,
    /// Execution time in nanoseconds since the epoch; defines FIFO order.
    pub timestamp_nanos: i64,
    pub side: Side,
    /// Price per whole base unit, scaled by `UNIT`.
    pub price: i64,
    /// Fee in quote currency, scaled by `UNIT`.
    pub fee: i64,
    /// Executed volume in base currency, scaled by `UNIT`.
    pub volume: i64,
    /// Quote value reported by the venue, as reported; informational only.
    pub cost: String,
    /// Order type reported by the venue; informational only.
    pub order_type: String,
}

/// Mathematical image of a [`Trade`].
pub struct TradeView {
    pub order_id: Seq<char>,
    pub pair: Seq<char>,
    pub timestamp_nanos: int,
    pub side: Side,
    pub price: int,
    pub fee: int,
    pub volume: int,
    pub cost: Seq<char>,
    pub order_type: Seq<char>,
}

impl View for Trade {
    type V = TradeView;

    open spec fn view(&self) -> TradeView {
        TradeView {
            order_id: self.order_id@,
            pair: self.pair@,
            timestamp_nanos: self.timestamp_nanos as int,
            side: self.side,
            price: self.price as int,
            fee: self.fee as int,
            volume: self.volume as int,
            cost: self.cost@,
            order_type: self.order_type@,
        }
    }
}

/// The data-model invariant of one trade: positive volume and price,
/// a non-negative fee, everything within the engine's range.
pub open spec fn trade_wf(t: TradeView) -> bool {
    &&& 0 < t.volume <= MAX_QTY
    &&& 0 < t.price <= MAX_QTY
    &&& 0 <= t.fee <= MAX_QTY
}

/// The image of a sequence of trades.
pub open spec fn trade_views(s: Seq<Trade>) -> Seq<TradeView> {
    s.map_values(|t: Trade| t@)
}

/// Every trade in the sequence satisfies the data-model invariant.
pub open spec fn trades_wf(s: Seq<TradeView>) -> bool {
    forall|i: int| 0 <= i < s.len() ==> trade_wf(#[trigger] s[i])
}

/// One raw record of the remote trade collection, before validation:
/// every quantity still the exact decimal string the venue reported.
pub struct TradeRecord {
    pub order_id: String,
    pub pair: String,
    pub timestamp_nanos: i64,
    pub side: String,
    pub price: String,
    pub fee: String,
    pub volume: String,
    pub cost: String,
    pub order_type: String,
}

/// Why a raw record is not a valid trade.
#[derive(Clone, Copy, PartialEq, Eq, Structural, Debug)]
pub enum TradeError {
    /// The side is neither `buy` nor `sell`.
    InvalidSide,
    /// The price is not a well-formed positive decimal in range.
    InvalidPrice,
    /// The fee is not a well-formed decimal in range.
    InvalidFee,
    /// The volume is not a well-formed positive decimal in range.
    InvalidVolume,
}

/// The side a raw side string denotes, if any.
pub open spec fn side_of(s: Seq<char>) -> Option<Side> {
    if s == "buy"@ {
        Option::Some(Side::Buy)
    } else if s == "sell"@ {
        Option::Some(Side::Sell)
    } else {
        Option::None
    }
}

/// A price or volume string is acceptable when it is a well-formed
/// decimal with a positive value within the engine's range.
pub open spec fn positive_qty_ok(s: Seq<char>) -> bool {
    decimal_ok(s) && 0 < decimal_val(s) <= MAX_QTY
}

/// A fee string is acceptable when it is a well-formed decimal within
/// the engine's range; zero is allowed.
pub open spec fn fee_ok(s: Seq<char>) -> bool {
    decimal_ok(s) && decimal_val(s) <= MAX_QTY
}

impl TradeRecord {
    /// Validate a raw record into a trade, or say exactly why not.
    ///
    /// The side must be `buy` or `sell`; price and volume must be
    /// positive in-range decimals, the fee a non-negative one. The
    /// checks run in that order and the first failure is reported.
    pub fn parse(self) -> (r: Result<Trade, TradeError>)
        ensures
            match r {
                Ok(t) => {
                    &&& side_of(self.side@) == Option::Some(t.side)
                    &&& positive_qty_ok(self.price@) && t.price as int == decimal_val(self.price@)
                    &&& fee_ok(self.fee@) && t.fee as int == decimal_val(self.fee@)
                    &&& positive_qty_ok(self.volume@) && t.volume as int == decimal_val(
                        self.volume@,
                    )
                    &&& t.order_id@ == self.order_id@
                    &&& t.pair@ == self.pair@
                    &&& t.timestamp_nanos == self.timestamp_nanos
                    &&& t.cost@ == self.cost@
                    &&& t.order_type@ == self.order_type@
                    &&& trade_wf(t@)
                },
                Err(TradeError::InvalidSide) => side_of(self.side@) is None,
                Err(TradeError::InvalidPrice) => side_of(self.side@) is Some && !positive_qty_ok(
                    self.price@,
                ),
                Err(TradeError::InvalidFee) => side_of(self.side@) is Some && positive_qty_ok(
                    self.price@,
                ) && !fee_ok(self.fee@),
                Err(TradeError::InvalidVolume) => side_of(self.side@) is Some && positive_qty_ok(
                    self.price@,
                ) && fee_ok(self.fee@) && !positive_qty_ok(self.volume@),
            },
    {
        let side: Side;
        if self.side.eq(&"buy".to_owned()) {
            side = Side::Buy;
        } else if self.side.eq(&"sell".to_owned()) {
            side = Side::Sell;
        } else {
            return Err(TradeError::InvalidSide);
        }
        let price = match parse_decimal(self.price.as_str()) {
            Ok(v) => {
                if v <= 0 {
                    return Err(TradeError::InvalidPrice);
                }
                v
            },
            Err(_) => {
                return Err(TradeError::InvalidPrice);
            },
        };
        let fee = match parse_decimal(self.fee.as_str()) {
            Ok(v) => v,
            Err(_) => {
                return Err(TradeError::InvalidFee);
            },
        };
        let volume = match parse_decimal(self.volume.as_str()) {
            Ok(v) => {
                if v <= 0 {
                    return Err(TradeError::InvalidVolume);
                }
                v
            },
            Err(_) => {
                return Err(TradeError::InvalidVolume);
            },
        };
        Ok(
            Trade {
                order_id: self.order_id,
                pair: self.pair,
                timestamp_nanos: self.timestamp_nanos,
                side,
                price,
                fee,
                volume,
                cost: self.cost,
                order_type: self.order_type,
            },
        )
    }
}

} // verus!
