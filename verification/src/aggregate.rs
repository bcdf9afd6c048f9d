//! The aggregation engine: from the tickers of one instrument to its
//! aggregate.
//!
//! Every ticker gives one level to each side. Each side is ranked, best
//! first, and cut to the depth of the ladder. The strike comes from the
//! instrument name; kind, delta and timestamp come from the first ticker.

use vstd::prelude::*;
use crate::number::Double;
use crate::instrument::InstrumentDescriptor;
use crate::ranking::{Side, LADDER_DEPTH, better, in_price_order, insert_ranked, ladder,
    lemma_insert_ranked_at, lemma_ladder_shape, ranked};
use crate::ticker::{AggregatedTicker, AggregatedTickerView, QuoteLevel, QuoteLevelView, RawTicker,
    RawTickerView};

verus! {

/// The level that a ticker gives to a side.
pub open spec fn level_of(side: Side, ticker: RawTickerView) -> QuoteLevelView {
    match side {
        Side::Bid => QuoteLevelView {
            price: ticker.best_bid_price,
            amount: ticker.best_bid_amount,
            implied_vol: ticker.bid_iv,
            index_price: ticker.index_price,
            source_label: ticker.instrument_name,
        },
        Side::Ask => QuoteLevelView {
            price: ticker.best_ask_price,
            amount: ticker.best_ask_amount,
            implied_vol: ticker.ask_iv,
            index_price: ticker.index_price,
            source_label: ticker.instrument_name,
        },
    }
}

/// The levels that the tickers give to a side, in the order of the tickers.
pub open spec fn levels_of(side: Side, tickers: Seq<RawTickerView>) -> Seq<QuoteLevelView> {
    tickers.map_values(|t: RawTickerView| level_of(side, t))
}

/// The level that a ticker gives to a side.
pub fn quote_level(ticker: &RawTicker, side: Side) -> (level: QuoteLevel)
    ensures
        level@ == level_of(side, ticker@),
{
    match side {
        Side::Bid => QuoteLevel {
            price: ticker.best_bid_price,
            amount: ticker.best_bid_amount,
            implied_vol: ticker.bid_iv,
            index_price: ticker.index_price,
            source_label: ticker.instrument_name.clone(),
        },
        Side::Ask => QuoteLevel {
            price: ticker.best_ask_price,
            amount: ticker.best_ask_amount,
            implied_vol: ticker.ask_iv,
            index_price: ticker.index_price,
            source_label: ticker.instrument_name.clone(),
        },
    }
}

/// The levels that the tickers give to a side, in the order of the tickers.
pub fn side_levels(tickers: &Vec<RawTicker>, side: Side) -> (levels: Vec<QuoteLevel>)
    ensures
        levels.deep_view() == levels_of(side, tickers.deep_view()),
{
    let mut levels: Vec<QuoteLevel> = Vec::new();
    let mut i: usize = 0;
    while i < tickers.len()
        invariant
            i <= tickers.len(),
            levels.len() == i,
            forall|k: int| 0 <= k < i ==> levels[k]@ == level_of(side, tickers[k]@),
        decreases tickers.len() - i,
    {
        levels.push(quote_level(&tickers[i], side));
        i += 1;
    }
    levels
}

/// Tells whether price `a` is strictly better than price `b` on a side.
pub fn is_better(side: Side, a: Double, b: Double) -> (r: bool)
    ensures
        r == better(side, a, b),
{
    match side {
        Side::Bid => b.below(a),
        Side::Ask => a.below(b),
    }
}

/// Puts a level into ranked levels: behind every level that is at least as
/// good, so that it overtakes no level at its own price.
pub fn insert_level(levels: &mut Vec<QuoteLevel>, level: QuoteLevel, side: Side)
    ensures
        final(levels).deep_view() == insert_ranked(side, old(levels).deep_view(), level@),
{
    let ghost before = levels.deep_view();
    let mut pos: usize = levels.len();
    while pos > 0 && is_better(side, level.price, levels[pos - 1].price)
        invariant
            pos <= levels.len(),
            levels.deep_view() == before,
            forall|j: int|
                pos <= j < before.len() ==> better(side, level.price, (#[trigger] before[j]).price),
        decreases pos,
    {
        pos -= 1;
    }
    proof {
        lemma_insert_ranked_at(side, before, level@, pos as int);
    }
    levels.insert(pos, level);
}

/// Ranks levels: best first, levels at one price in the order given.
pub fn rank_levels(levels: Vec<QuoteLevel>, side: Side) -> (out: Vec<QuoteLevel>)
    ensures
        out.deep_view() == ranked(side, levels.deep_view()),
{
    let ghost given = levels.deep_view();
    let mut out: Vec<QuoteLevel> = Vec::new();
    for level in it: levels
        invariant
            out.deep_view() == ranked(side, given.take(it.index() as int)),
            it.seq().len() == given.len(),
            forall|k: int| 0 <= k < given.len() ==> (#[trigger] it.seq()[k])@ == given[k],
    {
        proof {
            let i = it.index() as int;
            assert(given.take(i + 1).drop_last() =~= given.take(i));
        }
        insert_level(&mut out, level, side);
    }
    assert(given.take(given.len() as int) =~= given);
    out
}

/// Cuts ranked levels to the depth of the ladder.
pub fn truncate_to_depth(levels: &mut Vec<QuoteLevel>)
    ensures
        final(levels).deep_view() == if old(levels).len() <= LADDER_DEPTH {
            old(levels).deep_view()
        } else {
            old(levels).deep_view().take(LADDER_DEPTH as int)
        },
{
    levels.truncate(LADDER_DEPTH);
}

/// The ladder of one side of the book that the tickers make up.
pub fn top_of_book(tickers: &Vec<RawTicker>, side: Side) -> (top: Vec<QuoteLevel>)
    ensures
        top.deep_view() == ladder(side, levels_of(side, tickers.deep_view())),
        top.len() <= LADDER_DEPTH,
        top.len() <= tickers.len(),
        in_price_order(side, top.deep_view()),
{
    let levels = side_levels(tickers, side);
    let mut top = rank_levels(levels, side);
    truncate_to_depth(&mut top);
    proof {
        lemma_ladder_shape(side, levels_of(side, tickers.deep_view()));
    }
    top
}

/// A price that is no number.
#[derive(Clone, Copy, Debug, PartialEq, Eq, Structural)]
pub struct PriceError {
    /// The side on which the price stands.
    pub side: Side,
    /// The place of the ticker among those handed in.
    pub index: usize,
}

/// The text that reports a price that is no number.
pub open spec fn price_error_text(error: PriceError) -> Seq<char> {
    match error.side {
        Side::Bid => "Best bid price is not a number"@,
        Side::Ask => "Best ask price is not a number"@,
    }
}

impl PriceError {
    /// The text that reports the error.
    pub fn message(&self) -> (text: String)
        ensures
            text@ == price_error_text(*self),
    {
        match self.side {
            Side::Bid => "Best bid price is not a number".to_owned(),
            Side::Ask => "Best ask price is not a number".to_owned(),
        }
    }
}

/// Whether a ticker quotes a price that is NaN, on either side.
pub open spec fn quotes_nan(ticker: RawTickerView) -> bool {
    ticker.best_bid_price.nan() || ticker.best_ask_price.nan()
}

/// Whether every price that the tickers quote is a number.
pub open spec fn prices_are_numbers(tickers: Seq<RawTickerView>) -> bool {
    forall|i: int| 0 <= i < tickers.len() ==> !quotes_nan(#[trigger] tickers[i])
}

/// Whether `error` names the first price among the tickers that is NaN: the
/// first ticker that quotes one, and its bid side if the bid is NaN, else its
/// ask side.
pub open spec fn names_first_nan(tickers: Seq<RawTickerView>, error: PriceError) -> bool {
    &&& error.index < tickers.len()
    &&& forall|i: int| 0 <= i < error.index ==> !quotes_nan(#[trigger] tickers[i])
    &&& quotes_nan(tickers[error.index as int])
    &&& error.side == if tickers[error.index as int].best_bid_price.nan() {
        Side::Bid
    } else {
        Side::Ask
    }
}

/// Looks for a price that is NaN. Such a price has no place in the order of
/// a ladder, so the tickers that hold one are refused.
pub fn check_prices(tickers: &Vec<RawTicker>) -> (result: Result<(), PriceError>)
    ensures
        result is Ok <==> prices_are_numbers(tickers.deep_view()),
        result matches Err(error) ==> names_first_nan(tickers.deep_view(), error),
{
    let mut i: usize = 0;
    while i < tickers.len()
        invariant
            i <= tickers.len(),
            forall|k: int| 0 <= k < i ==> !quotes_nan(#[trigger] tickers.deep_view()[k]),
        decreases tickers.len() - i,
    {
        assert(tickers.deep_view()[i as int] == tickers[i as int]@);
        if tickers[i].best_bid_price.is_nan() {
            return Err(PriceError { side: Side::Bid, index: i });
        }
        if tickers[i].best_ask_price.is_nan() {
            return Err(PriceError { side: Side::Ask, index: i });
        }
        i += 1;
    }
    Ok(())
}

/// The kind of the aggregate: the state of the first ticker.
pub open spec fn kind_of(tickers: Seq<RawTickerView>) -> Seq<char> {
    if tickers.len() > 0 {
        tickers[0].state
    } else {
        "Unknown"@
    }
}

/// The delta of the aggregate: that of the first ticker, zero where it
/// reports none.
pub open spec fn delta_of(tickers: Seq<RawTickerView>) -> Double {
    if tickers.len() > 0 && tickers[0].greeks is Some && tickers[0].greeks->0.delta is Some {
        tickers[0].greeks->0.delta->0
    } else {
        Double { bits: 0 }
    }
}

/// The timestamp of the aggregate: that of the first ticker.
pub open spec fn timestamp_of(tickers: Seq<RawTickerView>) -> i64 {
    if tickers.len() > 0 {
        tickers[0].timestamp
    } else {
        0
    }
}

/// The aggregate of the tickers of one instrument.
pub open spec fn aggregate_of(
    instrument_name: Seq<char>,
    tickers: Seq<RawTickerView>,
    strike: Double,
) -> AggregatedTickerView {
    AggregatedTickerView {
        instrument_name,
        strike,
        kind: kind_of(tickers),
        delta: delta_of(tickers),
        bids: ladder(Side::Bid, levels_of(Side::Bid, tickers)),
        asks: ladder(Side::Ask, levels_of(Side::Ask, tickers)),
        timestamp: timestamp_of(tickers),
    }
}

/// Whether an aggregate is well formed: neither ladder is longer than the
/// depth of a ladder, the bids stand highest first, the asks lowest first.
pub open spec fn well_formed(aggregate: AggregatedTickerView) -> bool {
    &&& aggregate.bids.len() <= LADDER_DEPTH
    &&& aggregate.asks.len() <= LADDER_DEPTH
    &&& in_price_order(Side::Bid, aggregate.bids)
    &&& in_price_order(Side::Ask, aggregate.asks)
}

/// Whatever the tickers, their aggregate is well formed, neither of its
/// ladders has more levels than there are tickers, and its strike is the one
/// that the instrument name gave.
pub proof fn lemma_aggregate_well_formed(
    instrument_name: Seq<char>,
    tickers: Seq<RawTickerView>,
    strike: Double,
)
    ensures
        well_formed(aggregate_of(instrument_name, tickers, strike)),
        aggregate_of(instrument_name, tickers, strike).bids.len() <= tickers.len(),
        aggregate_of(instrument_name, tickers, strike).asks.len() <= tickers.len(),
        aggregate_of(instrument_name, tickers, strike).strike == strike,
{
    lemma_ladder_shape(Side::Bid, levels_of(Side::Bid, tickers));
    lemma_ladder_shape(Side::Ask, levels_of(Side::Ask, tickers));
}

/// No ticker at all gives the defaults: kind "Unknown", delta zero,
/// timestamp zero, and two empty ladders.
pub proof fn lemma_aggregate_of_nothing(instrument_name: Seq<char>, strike: Double)
    ensures
        aggregate_of(instrument_name, Seq::empty(), strike) == (AggregatedTickerView {
            instrument_name,
            strike,
            kind: "Unknown"@,
            delta: Double { bits: 0 },
            bids: Seq::empty(),
            asks: Seq::empty(),
            timestamp: 0,
        }),
{
    let none = Seq::<RawTickerView>::empty();
    assert(levels_of(Side::Bid, none) =~= Seq::empty());
    assert(levels_of(Side::Ask, none) =~= Seq::empty());
}

/// The kind, delta and timestamp that the first ticker gives the aggregate,
/// or the defaults where there is no ticker.
pub fn first_ticker_metadata(tickers: &Vec<RawTicker>) -> (meta: (String, Double, i64))
    ensures
        meta.0@ == kind_of(tickers.deep_view()),
        meta.1 == delta_of(tickers.deep_view()),
        meta.2 == timestamp_of(tickers.deep_view()),
{
    if tickers.len() == 0 {
        ("Unknown".to_owned(), Double::zero(), 0)
    } else {
        let first = &tickers[0];
        let delta = match first.greeks {
            Some(greeks) => match greeks.delta {
                Some(delta) => delta,
                None => Double::zero(),
            },
            None => Double::zero(),
        };
        (first.state.clone(), delta, first.timestamp)
    }
}

/// Aggregates the tickers of one instrument: both ladders, the strike that
/// the instrument name gave, and kind, delta and timestamp of the first
/// ticker. No ticker at all gives an aggregate with empty ladders, kind
/// "Unknown", delta zero and timestamp zero. A price that is NaN is refused.
pub fn aggregate_tickers(
    instrument_name: String,
    tickers: Vec<RawTicker>,
    instrument_parts: InstrumentDescriptor,
) -> (result: Result<AggregatedTicker, PriceError>)
    ensures
        result is Ok <==> prices_are_numbers(tickers.deep_view()),
        result matches Ok(agg) ==> agg@ == aggregate_of(
            instrument_name@,
            tickers.deep_view(),
            instrument_parts.strike,
        ),
        result matches Ok(agg) ==> well_formed(agg@) && agg.bids.len() <= tickers.len()
            && agg.asks.len() <= tickers.len(),
        result matches Err(error) ==> names_first_nan(tickers.deep_view(), error),
{
    match check_prices(&tickers) {
        Err(error) => Err(error),
        Ok(()) => {
            let bids = top_of_book(&tickers, Side::Bid);
            let asks = top_of_book(&tickers, Side::Ask);
            let (kind, delta, timestamp) = first_ticker_metadata(&tickers);
            Ok(
                AggregatedTicker {
                    instrument_name,
                    strike: instrument_parts.strike,
                    kind,
                    delta,
                    bids,
                    asks,
                    timestamp,
                },
            )
        },
    }
}

/// The tickers that are for the instrument of the given name, in the order
/// in which they stand.
pub open spec fn named(tickers: Seq<RawTickerView>, instrument_name: Seq<char>) -> Seq<
    RawTickerView,
> {
    tickers.filter(|t: RawTickerView| t.instrument_name == instrument_name)
}

/// Keeps the tickers whose instrument name is exactly the given one. A
/// provider may return more than was asked for.
pub fn filter_tickers(tickers: Vec<RawTicker>, instrument_name: &String) -> (kept: Vec<RawTicker>)
    ensures
        kept.deep_view() == named(tickers.deep_view(), instrument_name@),
{
    let ghost given = tickers.deep_view();
    let ghost wanted = |t: RawTickerView| t.instrument_name == instrument_name@;
    let mut kept: Vec<RawTicker> = Vec::new();
    proof {
        reveal(Seq::filter);
    }
    for ticker in it: tickers
        invariant
            kept.deep_view() == given.take(it.index() as int).filter(wanted),
            it.seq().len() == given.len(),
            forall|k: int| 0 <= k < given.len() ==> (#[trigger] it.seq()[k])@ == given[k],
            wanted == |t: RawTickerView| t.instrument_name == instrument_name@,
    {
        let ghost i = it.index() as int;
        proof {
            assert(given.take(i + 1) =~= given.take(i).push(given[i]));
            Seq::lemma_filter_push(given.take(i), given[i], wanted);
        }
        if ticker.instrument_name == *instrument_name {
            kept.push(ticker);
        }
    }
    assert(given.take(given.len() as int) =~= given);
    kept
}

} // verus!
