//! The records that flow through an aggregation: a venue's raw ticker, one
//! quote level of a ladder, and the aggregate that is published.
//!
//! Each record that owns text has a view, in which the text is a sequence of
//! characters. Contracts speak of the views.

use vstd::prelude::*;
use crate::number::Double;

verus! {

/// The sensitivities that a venue reports with a ticker.
#[derive(Clone, Copy, Debug, PartialEq, Eq, Structural)]
pub struct Greeks {
    pub delta: Option<Double>,
}

/// One venue's live quote snapshot for an instrument.
#[derive(Debug)]
pub struct RawTicker {
    pub instrument_name: String,
    pub best_bid_price: Double,
    pub best_bid_amount: Double,
    pub bid_iv: Double,
    pub best_ask_price: Double,
    pub best_ask_amount: Double,
    pub ask_iv: Double,
    pub index_price: Double,
    pub greeks: Option<Greeks>,
    pub state: String,
    pub timestamp: i64,
}

/// What a `RawTicker` holds.
pub struct RawTickerView {
    pub instrument_name: Seq<char>,
    pub best_bid_price: Double,
    pub best_bid_amount: Double,
    pub bid_iv: Double,
    pub best_ask_price: Double,
    pub best_ask_amount: Double,
    pub ask_iv: Double,
    pub index_price: Double,
    pub greeks: Option<Greeks>,
    pub state: Seq<char>,
    pub timestamp: i64,
}

impl View for RawTicker {
    type V = RawTickerView;

    open spec fn view(&self) -> RawTickerView {
        RawTickerView {
            instrument_name: self.instrument_name@,
            best_bid_price: self.best_bid_price,
            best_bid_amount: self.best_bid_amount,
            bid_iv: self.bid_iv,
            best_ask_price: self.best_ask_price,
            best_ask_amount: self.best_ask_amount,
            ask_iv: self.ask_iv,
            index_price: self.index_price,
            greeks: self.greeks,
            state: self.state@,
            timestamp: self.timestamp,
        }
    }
}

impl DeepView for RawTicker {
    type V = RawTickerView;

    open spec fn deep_view(&self) -> RawTickerView {
        self@
    }
}

impl Clone for RawTicker {
    fn clone(&self) -> (copy: Self)
        ensures
            copy@ == self@,
    {
        RawTicker {
            instrument_name: self.instrument_name.clone(),
            best_bid_price: self.best_bid_price,
            best_bid_amount: self.best_bid_amount,
            bid_iv: self.bid_iv,
            best_ask_price: self.best_ask_price,
            best_ask_amount: self.best_ask_amount,
            ask_iv: self.ask_iv,
            index_price: self.index_price,
            greeks: self.greeks,
            state: self.state.clone(),
            timestamp: self.timestamp,
        }
    }
}

/// One entry of a ladder: a price with the amount quoted at it, the implied
/// volatility, the index price, and a label that names where it came from.
#[derive(Debug)]
pub struct QuoteLevel {
    pub price: Double,
    pub amount: Double,
    pub implied_vol: Double,
    pub index_price: Double,
    pub source_label: String,
}

/// What a `QuoteLevel` holds.
pub struct QuoteLevelView {
    pub price: Double,
    pub amount: Double,
    pub implied_vol: Double,
    pub index_price: Double,
    pub source_label: Seq<char>,
}

impl View for QuoteLevel {
    type V = QuoteLevelView;

    open spec fn view(&self) -> QuoteLevelView {
        QuoteLevelView {
            price: self.price,
            amount: self.amount,
            implied_vol: self.implied_vol,
            index_price: self.index_price,
            source_label: self.source_label@,
        }
    }
}

impl DeepView for QuoteLevel {
    type V = QuoteLevelView;

    open spec fn deep_view(&self) -> QuoteLevelView {
        self@
    }
}

impl Clone for QuoteLevel {
    fn clone(&self) -> (copy: Self)
        ensures
            copy@ == self@,
    {
        QuoteLevel {
            price: self.price,
            amount: self.amount,
            implied_vol: self.implied_vol,
            index_price: self.index_price,
            source_label: self.source_label.clone(),
        }
    }
}

/// A copy of the levels, one by one.
pub fn clone_levels(levels: &Vec<QuoteLevel>) -> (copy: Vec<QuoteLevel>)
    ensures
        copy.deep_view() == levels.deep_view(),
{
    let mut copy: Vec<QuoteLevel> = Vec::new();
    let mut i: usize = 0;
    while i < levels.len()
        invariant
            i <= levels.len(),
            copy.len() == i,
            forall|k: int| 0 <= k < i ==> copy[k]@ == levels[k]@,
        decreases levels.len() - i,
    {
        copy.push(levels[i].clone());
        i += 1;
    }
    copy
}

/// The ranked summary of the best bids and asks of one instrument.
#[derive(Debug)]
pub struct AggregatedTicker {
    pub instrument_name: String,
    pub strike: Double,
    pub kind: String,
    pub delta: Double,
    pub bids: Vec<QuoteLevel>,
    pub asks: Vec<QuoteLevel>,
    pub timestamp: i64,
}

/// What an `AggregatedTicker` holds.
pub struct AggregatedTickerView {
    pub instrument_name: Seq<char>,
    pub strike: Double,
    pub kind: Seq<char>,
    pub delta: Double,
    pub bids: Seq<QuoteLevelView>,
    pub asks: Seq<QuoteLevelView>,
    pub timestamp: i64,
}

impl View for AggregatedTicker {
    type V = AggregatedTickerView;

    open spec fn view(&self) -> AggregatedTickerView {
        AggregatedTickerView {
            instrument_name: self.instrument_name@,
            strike: self.strike,
            kind: self.kind@,
            delta: self.delta,
            bids: self.bids.deep_view(),
            asks: self.asks.deep_view(),
            timestamp: self.timestamp,
        }
    }
}

impl Clone for AggregatedTicker {
    fn clone(&self) -> (copy: Self)
        ensures
            copy@ == self@,
    {
        AggregatedTicker {
            instrument_name: self.instrument_name.clone(),
            strike: self.strike,
            kind: self.kind.clone(),
            delta: self.delta,
            bids: clone_levels(&self.bids),
            asks: clone_levels(&self.asks),
            timestamp: self.timestamp,
        }
    }
}

} // verus!
