//! One request, from the name of an instrument to its aggregate.
//!
//! A request goes through the library in two steps, and between them the
//! caller asks the provider for tickers. `prepare` parses the name and says
//! what to ask for. `aggregate_fetched` takes what the provider returned and
//! makes the aggregate. Nothing is kept from one request to the next.

use vstd::prelude::*;
use crate::aggregate::{PriceError, aggregate_of, aggregate_tickers, filter_tickers, named,
    names_first_nan, price_error_text, prices_are_numbers};
use crate::instrument::{InstrumentDescriptor, InstrumentDescriptorView, InstrumentKind,
    ParseError, ParseErrorView, classify, kind_of_indicator, parse_error_text,
    parse_instrument_name, parsed};
use crate::ticker::{AggregatedTicker, RawTicker};

verus! {

/// What a provider of tickers is asked for: the tickers of one currency and
/// one kind of instrument.
#[derive(Debug)]
pub struct ProviderQuery {
    pub currency: String,
    pub kind: InstrumentKind,
}

/// The query for the tickers of an instrument: its currency, and the kind
/// that its indicator stands for.
pub fn provider_query(descriptor: &InstrumentDescriptor) -> (query: ProviderQuery)
    ensures
        query.currency@ == descriptor@.currency,
        query.kind == kind_of_indicator(descriptor@.option_kind),
{
    ProviderQuery {
        currency: descriptor.currency.clone(),
        kind: classify(descriptor.option_kind.as_str()),
    }
}

/// A request that is ready for the provider: what the name of the
/// instrument says, and what to ask the provider for.
#[derive(Debug)]
pub struct Request {
    pub descriptor: InstrumentDescriptor,
    pub query: ProviderQuery,
}

/// What `prepare` makes of a name.
pub open spec fn prepared(instrument_name: Seq<char>) -> Result<
    (InstrumentDescriptorView, Seq<char>, InstrumentKind),
    AggregationErrorView,
> {
    match parsed(instrument_name) {
        Err(error) => Err(AggregationErrorView::Parse(error)),
        Ok(descriptor) => Ok(
            (descriptor, descriptor.currency, kind_of_indicator(descriptor.option_kind)),
        ),
    }
}

/// The first step of a request: parses the name of the instrument and says
/// what to ask the provider for. A name that is refused ends the request.
pub fn prepare(instrument_name: &str) -> (result: Result<Request, AggregationError>)
    ensures
        match result {
            Ok(request) => prepared(instrument_name@) == Ok::<
                (InstrumentDescriptorView, Seq<char>, InstrumentKind),
                AggregationErrorView,
            >((request.descriptor@, request.query.currency@, request.query.kind)),
            Err(error) => prepared(instrument_name@) == Err::<
                (InstrumentDescriptorView, Seq<char>, InstrumentKind),
                AggregationErrorView,
            >(error@),
        },
{
    match parse_instrument_name(instrument_name) {
        Err(error) => Err(AggregationError::Parse(error)),
        Ok(descriptor) => {
            let query = provider_query(&descriptor);
            Ok(Request { descriptor, query })
        },
    }
}

/// Why a request gave no aggregate.
#[derive(Debug)]
pub enum AggregationError {
    /// The name of the instrument was refused.
    Parse(ParseError),
    /// The provider failed. The text is its own.
    Provider(String),
    /// A ticker quotes a price that is no number.
    Price(PriceError),
}

/// What an `AggregationError` holds.
pub enum AggregationErrorView {
    Parse(ParseErrorView),
    Provider(Seq<char>),
    Price(PriceError),
}

impl View for AggregationError {
    type V = AggregationErrorView;

    open spec fn view(&self) -> AggregationErrorView {
        match self {
            AggregationError::Parse(error) => AggregationErrorView::Parse(error@),
            AggregationError::Provider(text) => AggregationErrorView::Provider(text@),
            AggregationError::Price(error) => AggregationErrorView::Price(*error),
        }
    }
}

/// The text that reports an error to a caller who takes text. What a
/// provider said is handed on word for word.
pub open spec fn error_text(error: AggregationErrorView) -> Seq<char> {
    match error {
        AggregationErrorView::Parse(parse) => parse_error_text(parse),
        AggregationErrorView::Provider(text) => text,
        AggregationErrorView::Price(price) => price_error_text(price),
    }
}

impl AggregationError {
    /// The text that reports the error.
    pub fn message(&self) -> (text: String)
        ensures
            text@ == error_text(self@),
    {
        match self {
            AggregationError::Parse(parse) => parse.message(),
            AggregationError::Provider(text) => text.clone(),
            AggregationError::Price(price) => price.message(),
        }
    }
}

/// Aggregates what a provider returned for an instrument. A failure of the
/// provider is handed on as it is. Of the tickers returned, those of other
/// instruments are left out: a provider may return all tickers of a currency
/// and kind. The rest is aggregated, unless one of them quotes a price that
/// is no number.
pub fn aggregate_fetched(
    instrument_name: String,
    descriptor: InstrumentDescriptor,
    fetched: Result<Vec<RawTicker>, String>,
) -> (result: Result<AggregatedTicker, AggregationError>)
    ensures
        match fetched {
            Err(failure) => result matches Err(error) && error@ == AggregationErrorView::Provider(
                failure@,
            ),
            Ok(tickers) => {
                let kept = named(tickers.deep_view(), instrument_name@);
                match result {
                    Ok(aggregate) => prices_are_numbers(kept) && aggregate@ == aggregate_of(
                        instrument_name@,
                        kept,
                        descriptor.strike,
                    ),
                    Err(error) => {
                        &&& !prices_are_numbers(kept)
                        &&& error matches AggregationError::Price(price)
                        &&& names_first_nan(kept, price)
                    },
                }
            },
        },
{
    match fetched {
        Err(failure) => Err(AggregationError::Provider(failure)),
        Ok(tickers) => {
            let kept = filter_tickers(tickers, &instrument_name);
            match aggregate_tickers(instrument_name, kept, descriptor) {
                Ok(aggregate) => Ok(aggregate),
                Err(price) => Err(AggregationError::Price(price)),
            }
        },
    }
}

} // verus!
