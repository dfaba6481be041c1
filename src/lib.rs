//! Settlement engine for a pari-mutuel price prediction market.
//!
//! Users stake on one of three outcomes of an asset's price move over a
//! fixed window. At resolution the move is classified against a reference
//! price, and winners share the whole pool, net of a house commission, in
//! proportion to their stake on the winning side.
//!
//! The engine holds its state in memory and talks to nothing: the host
//! supplies the clock, the prices and the outcome of each fund transfer.
use vstd::prelude::*;

pub mod types;
pub mod payout;
pub mod model;
pub mod engine;
pub mod laws;
pub mod oracle;
pub mod trailing;

pub use types::{ContractError, Error, Market, MarketStats, Odds, Outcome, PayoutStatus, PayoutSummary, Payment, UserBet};
pub use engine::PredictionMarket;
pub use oracle::{OracleContract, PriceData};
pub use trailing::{OrderStatus, TrailingOrder, TrailingStopContract};
