//! Aggregation of the quotes of one derivative instrument.
//!
//! Venues quote an instrument in tickers: a best bid and a best ask, each
//! with amount and implied volatility. From the tickers of one instrument the
//! library makes one aggregate, a ladder of the five best bids and one of the
//! five best asks together with strike, kind, delta and timestamp, and writes
//! it as the JSON text under which it is published on a message bus.
//!
//! - `number`: doubles, held by their encoding, and their order
//! - `rounding`, `digits`: rounding to the nearest, whole numbers of any size
//! - `decimal`: reading a number off a decimal text
//! - `fixed`, `shortest`: writing a number, in fixed point and as JSON number
//! - `text`: JSON strings and integers
//! - `ticker`: the records, a venue's ticker, a level of a ladder, the aggregate
//! - `instrument`: names of instruments and what they say
//! - `ranking`: the order of a ladder, and what it amounts to
//! - `aggregate`: from tickers to the aggregate
//! - `wire`: the published text
//! - `publish`: topic and message for the bus
//! - `service`: the steps of one request
//!
//! The library asks no provider and sends nothing: it is handed what a
//! provider returned and hands back what is to be sent. It does no
//! floating-point arithmetic either: numbers are ranked, read and written by
//! integer arithmetic on their encoding. Every function is verified, and
//! none of them panics.

pub mod number;
pub mod rounding;
pub mod digits;
pub mod decimal;
pub mod fixed;
pub mod shortest;
pub mod text;
pub mod ticker;
pub mod instrument;
pub mod ranking;
pub mod aggregate;
pub mod wire;
pub mod publish;
pub mod service;
