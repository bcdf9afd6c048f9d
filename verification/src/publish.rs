//! What goes to the message bus.

use vstd::prelude::*;
use vstd::string::{StrSliceExecFns, StringExecFns};
use vstd::utf8::encode_utf8;
use crate::service::{AggregationError, error_text};
use crate::ticker::AggregatedTicker;
use crate::wire::{document, encode};

verus! {

/// The topic under which the aggregate of an instrument is published: a
/// fixed prefix and the name of the instrument as it was handed in.
pub open spec fn topic_of(instrument_name: Seq<char>) -> Seq<char> {
    "agg-ticker."@ + instrument_name
}

/// The topic under which the aggregate of an instrument is published.
pub fn topic(instrument_name: &str) -> (subject: String)
    ensures
        subject@ == topic_of(instrument_name@),
{
    let mut subject = "agg-ticker.".to_owned();
    subject.append(instrument_name);
    subject
}

/// A message for the bus.
#[derive(Debug)]
pub struct BrokerMessage {
    pub subject: String,
    pub reply_to: Option<String>,
    pub body: Vec<u8>,
}

/// The message that publishes an aggregate: under the topic of the
/// instrument, with no reply expected, the published text in UTF-8 as body.
pub fn publication(instrument_name: &str, ticker: &AggregatedTicker) -> (message: BrokerMessage)
    ensures
        message.subject@ == topic_of(instrument_name@),
        message.reply_to is None,
        message.body@ == encode_utf8(document(ticker@)),
{
    let text = encode(ticker);
    BrokerMessage {
        subject: topic(instrument_name),
        reply_to: None,
        body: text.as_str().as_bytes_vec(),
    }
}

/// What becomes of a request to aggregate and publish.
#[derive(Debug)]
pub enum Outcome {
    /// There is an aggregate: this message goes to the bus. Whether the bus
    /// takes it changes nothing for the caller.
    Publish(BrokerMessage),
    /// There is none: this text reports why, and nothing is published.
    Report(String),
}

/// Decides what becomes of a request to aggregate and publish, from what the
/// aggregation gave.
pub fn publish_or_report(
    instrument_name: &str,
    aggregated: Result<AggregatedTicker, AggregationError>,
) -> (outcome: Outcome)
    ensures
        match aggregated {
            Ok(ticker) => outcome matches Outcome::Publish(message) && message.subject@ == topic_of(
                instrument_name@,
            ) && message.reply_to is None && message.body@ == encode_utf8(document(ticker@)),
            Err(error) => outcome matches Outcome::Report(text) && text@ == error_text(error@),
        },
{
    match aggregated {
        Ok(ticker) => Outcome::Publish(publication(instrument_name, &ticker)),
        Err(error) => Outcome::Report(error.message()),
    }
}

} // verus!
