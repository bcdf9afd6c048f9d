//! The text under which an aggregate is published.
//!
//! The aggregate goes out as one JSON object, written without white space,
//! with exactly these members in this order: `instrument_name` (string),
//! `strike` (number), `kind` (string), `delta` (number), `bids` and `asks`
//! (arrays), `timestamp` (integer). Each entry of `bids` and `asks` is an
//! array of five strings: price, amount, implied volatility and index price,
//! each in fixed point with two digits after the point, and the source
//! label. That the four numbers of a level travel as strings is part of the
//! format, and consumers rely on it.

use vstd::prelude::*;
use vstd::string::StringExecFns;
use crate::fixed::{fixed_point, fixed_point_of};
use crate::shortest::{json_number, push_json_number};
use crate::text::{decimal, json_string, push_decimal, push_json_string};
use crate::ticker::{AggregatedTicker, AggregatedTickerView, QuoteLevel, QuoteLevelView};

verus! {

/// A level as JSON: an array of five strings, the four numbers in fixed
/// point and the source label.
pub open spec fn json_level(level: QuoteLevelView) -> Seq<char> {
    seq!['['] + json_string(fixed_point(level.price)) + seq![','] + json_string(
        fixed_point(level.amount),
    ) + seq![','] + json_string(fixed_point(level.implied_vol)) + seq![','] + json_string(
        fixed_point(level.index_price),
    ) + seq![','] + json_string(level.source_label) + seq![']']
}

/// Levels as JSON, one after the other with a comma between two of them.
pub open spec fn json_level_list(levels: Seq<QuoteLevelView>) -> Seq<char>
    decreases levels.len(),
{
    if levels.len() == 0 {
        Seq::empty()
    } else if levels.len() == 1 {
        json_level(levels[0])
    } else {
        json_level_list(levels.drop_last()) + seq![','] + json_level(levels.last())
    }
}

/// A ladder as JSON: an array of levels.
pub open spec fn json_levels(levels: Seq<QuoteLevelView>) -> Seq<char> {
    seq!['['] + json_level_list(levels) + seq![']']
}

/// The published text of an aggregate.
pub open spec fn document(ticker: AggregatedTickerView) -> Seq<char> {
    "{\"instrument_name\":"@ + json_string(ticker.instrument_name) + ",\"strike\":"@ + json_number(
        ticker.strike,
    ) + ",\"kind\":"@ + json_string(ticker.kind) + ",\"delta\":"@ + json_number(ticker.delta)
        + ",\"bids\":"@ + json_levels(ticker.bids) + ",\"asks\":"@ + json_levels(ticker.asks)
        + ",\"timestamp\":"@ + decimal(ticker.timestamp as int) + "}"@
}

/// Appends a number in fixed point as a JSON string.
pub fn push_fixed_string(out: &mut String, number: crate::number::Double)
    ensures
        final(out)@ == old(out)@ + json_string(fixed_point(number)),
{
    let text = fixed_point_of(number);
    push_json_string(out, text.as_str());
}

/// Appends a level as JSON.
pub fn push_level(out: &mut String, level: &QuoteLevel)
    ensures
        final(out)@ == old(out)@ + json_level(level@),
{
    out.push('[');
    push_fixed_string(out, level.price);
    out.push(',');
    push_fixed_string(out, level.amount);
    out.push(',');
    push_fixed_string(out, level.implied_vol);
    out.push(',');
    push_fixed_string(out, level.index_price);
    out.push(',');
    push_json_string(out, level.source_label.as_str());
    out.push(']');
}

/// Appends a ladder as JSON.
pub fn push_levels(out: &mut String, levels: &Vec<QuoteLevel>)
    ensures
        final(out)@ == old(out)@ + json_levels(levels.deep_view()),
{
    let ghost before = out@;
    let ghost all = levels.deep_view();
    out.push('[');
    let mut i: usize = 0;
    while i < levels.len()
        invariant
            i <= levels.len(),
            all == levels.deep_view(),
            out@ == before.push('[') + json_level_list(all.take(i as int)),
        decreases levels.len() - i,
    {
        proof {
            assert(all.take(i + 1).drop_last() =~= all.take(i as int));
        }
        if i > 0 {
            out.push(',');
        }
        push_level(out, &levels[i]);
        i += 1;
    }
    out.push(']');
    assert(all.take(levels.len() as int) =~= all);
}

/// Writes the published text of an aggregate.
pub fn encode(ticker: &AggregatedTicker) -> (text: String)
    ensures
        text@ == document(ticker@),
{
    let mut text = String::new();
    text.append("{\"instrument_name\":");
    push_json_string(&mut text, ticker.instrument_name.as_str());
    text.append(",\"strike\":");
    push_json_number(&mut text, ticker.strike);
    text.append(",\"kind\":");
    push_json_string(&mut text, ticker.kind.as_str());
    text.append(",\"delta\":");
    push_json_number(&mut text, ticker.delta);
    text.append(",\"bids\":");
    push_levels(&mut text, &ticker.bids);
    text.append(",\"asks\":");
    push_levels(&mut text, &ticker.asks);
    text.append(",\"timestamp\":");
    push_decimal(&mut text, ticker.timestamp);
    text.append("}");
    text
}

} // verus!
