//! FIFO profit-and-loss accounting for a single trading pair.
//!
//! The crate reconstructs realized and unrealized PnL from a historical
//! record of buy/sell executions, using first-in-first-out lot matching.
//! All monetary quantities are exact fixed-point integers scaled by
//! [`trade::UNIT`]; ingestion of the paginated remote trade history is
//! modelled as a state machine whose decisions are verified here while an
//! unverified driver performs the actual transport.

pub mod calendar;
pub mod decimal;
pub mod engine;
pub mod ingest;
pub mod laws;
pub mod trade;
