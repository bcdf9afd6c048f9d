//! Instrument names and what they say.
//!
//! A name has four segments with a hyphen between two of them: the currency,
//! the expiry code, the strike and the indicator of the option kind, as in
//! `BTC-27DEC24-68000-C`. The strike is a decimal number and must be finite.
//! Currency and expiry are taken as they stand.

use vstd::prelude::*;
use vstd::string::StringExecFns;
use crate::decimal::{read_number, reading, ReadError};
use crate::number::Double;

verus! {

/// The character that stands between two segments of a name.
pub const SEPARATOR: char = '-';

/// The kinds of instrument that a provider of tickers tells apart.
#[derive(Clone, Copy, Debug, PartialEq, Eq, Structural)]
pub enum InstrumentKind {
    Spot,
    Opt,
}

/// Why a name was refused.
#[derive(Debug)]
pub enum ParseError {
    /// The name does not have exactly four segments.
    MalformedName,
    /// The strike segment does not stand for a finite number. The text says
    /// why.
    InvalidStrike(String),
}

/// What a `ParseError` holds.
pub enum ParseErrorView {
    MalformedName,
    InvalidStrike(Seq<char>),
}

impl View for ParseError {
    type V = ParseErrorView;

    open spec fn view(&self) -> ParseErrorView {
        match self {
            ParseError::MalformedName => ParseErrorView::MalformedName,
            ParseError::InvalidStrike(reason) => ParseErrorView::InvalidStrike(reason@),
        }
    }
}

/// The text that reports a refused name.
pub open spec fn parse_error_text(error: ParseErrorView) -> Seq<char> {
    match error {
        ParseErrorView::MalformedName => "Invalid instrument name format"@,
        ParseErrorView::InvalidStrike(reason) => "Failed to parse strike: "@ + reason,
    }
}

impl ParseError {
    /// The text that reports the error.
    pub fn message(&self) -> (text: String)
        ensures
            text@ == parse_error_text(self@),
    {
        match self {
            ParseError::MalformedName => "Invalid instrument name format".to_owned(),
            ParseError::InvalidStrike(reason) => {
                let mut text = "Failed to parse strike: ".to_owned();
                text.append(reason.as_str());
                text
            },
        }
    }
}

/// The four segments of a name, as text.
#[derive(Debug)]
pub struct NameParts {
    pub currency: String,
    pub expiry: String,
    pub strike: String,
    pub option_kind: String,
}

/// What `NameParts` hold.
pub struct NamePartsView {
    pub currency: Seq<char>,
    pub expiry: Seq<char>,
    pub strike: Seq<char>,
    pub option_kind: Seq<char>,
}

impl View for NameParts {
    type V = NamePartsView;

    open spec fn view(&self) -> NamePartsView {
        NamePartsView {
            currency: self.currency@,
            expiry: self.expiry@,
            strike: self.strike@,
            option_kind: self.option_kind@,
        }
    }
}

/// What an instrument name says: the currency, the expiry code, the strike
/// and the indicator of the option kind.
#[derive(Debug)]
pub struct InstrumentDescriptor {
    pub currency: String,
    pub expiry: String,
    pub strike: Double,
    pub option_kind: String,
}

/// What an `InstrumentDescriptor` holds.
pub struct InstrumentDescriptorView {
    pub currency: Seq<char>,
    pub expiry: Seq<char>,
    pub strike: Double,
    pub option_kind: Seq<char>,
}

impl View for InstrumentDescriptor {
    type V = InstrumentDescriptorView;

    open spec fn view(&self) -> InstrumentDescriptorView {
        InstrumentDescriptorView {
            currency: self.currency@,
            expiry: self.expiry@,
            strike: self.strike,
            option_kind: self.option_kind@,
        }
    }
}

impl Clone for InstrumentDescriptor {
    fn clone(&self) -> (copy: Self)
        ensures
            copy@ == self@,
    {
        InstrumentDescriptor {
            currency: self.currency.clone(),
            expiry: self.expiry.clone(),
            strike: self.strike,
            option_kind: self.option_kind.clone(),
        }
    }
}

/// The segments of a text: what stands before, between and after its
/// separators. A text without a separator is its own single segment; a text
/// with `n` separators has `n + 1` segments, some of them empty where two
/// separators meet or one stands at an end.
pub open spec fn segments(text: Seq<char>) -> Seq<Seq<char>>
    decreases text.len(),
{
    if text.len() == 0 {
        seq![Seq::empty()]
    } else {
        let before = segments(text.drop_last());
        if text.last() == SEPARATOR {
            before.push(Seq::empty())
        } else {
            before.drop_last().push(before.last().push(text.last()))
        }
    }
}

/// Whether a text holds no separator.
pub open spec fn separator_free(text: Seq<char>) -> bool {
    forall|i: int| 0 <= i < text.len() ==> text[i] != SEPARATOR
}

/// The name that four segments make up.
pub open spec fn joined(parts: NamePartsView) -> Seq<char> {
    parts.currency + seq![SEPARATOR] + parts.expiry + seq![SEPARATOR] + parts.strike
        + seq![SEPARATOR] + parts.option_kind
}

/// The four segments of a name, where it has exactly four.
pub open spec fn split(name: Seq<char>) -> Option<NamePartsView> {
    let all = segments(name);
    if all.len() == 4 {
        Some(NamePartsView { currency: all[0], expiry: all[1], strike: all[2], option_kind: all[3] })
    } else {
        None
    }
}

/// The kind of instrument that an indicator stands for: an option where it
/// holds the mark of a call, `C`, or of a put, `P`, else spot.
pub open spec fn kind_of_indicator(indicator: Seq<char>) -> InstrumentKind {
    if indicator.contains('C') || indicator.contains('P') {
        InstrumentKind::Opt
    } else {
        InstrumentKind::Spot
    }
}

/// Cuts a name into its four segments. A name with fewer or more segments is
/// refused.
pub fn split_instrument_name(instrument_name: &str) -> (result: Result<NameParts, ParseError>)
    ensures
        match result {
            Ok(parts) => split(instrument_name@) == Some(parts@),
            Err(error) => split(instrument_name@) is None && error@
                == ParseErrorView::MalformedName,
        },
{
    let mut done: Vec<String> = Vec::new();
    let mut current = String::new();
    for c in it: instrument_name.chars()
        invariant
            it.seq() == instrument_name@,
            done.deep_view().push(current@) == segments(
                instrument_name@.take(it.index() as int),
            ),
    {
        let ghost i = it.index() as int;
        proof {
            assert(instrument_name@.take(i + 1).drop_last() =~= instrument_name@.take(i));
        }
        if c == SEPARATOR {
            done.push(current);
            current = String::new();
        } else {
            current.push(c);
        }
    }
    assert(instrument_name@.take(instrument_name@.len() as int) =~= instrument_name@);
    if done.len() != 3 {
        return Err(ParseError::MalformedName);
    }
    let strike = done.pop().unwrap();
    let expiry = done.pop().unwrap();
    let currency = done.pop().unwrap();
    Ok(NameParts { currency, expiry, strike, option_kind: current })
}

/// Classifies the indicator of the option kind.
pub fn classify(indicator: &str) -> (kind: InstrumentKind)
    ensures
        kind == kind_of_indicator(indicator@),
{
    let mut marked = false;
    for c in it: indicator.chars()
        invariant
            it.seq() == indicator@,
            marked <==> exists|k: int|
                0 <= k < it.index() && (indicator@[k] == 'C' || indicator@[k] == 'P'),
    {
        if c == 'C' || c == 'P' {
            marked = true;
        }
    }
    if marked {
        InstrumentKind::Opt
    } else {
        InstrumentKind::Spot
    }
}

/// The view of what came of parsing a name.
pub open spec fn parsed_view(result: Result<InstrumentDescriptor, ParseError>) -> Result<
    InstrumentDescriptorView,
    ParseErrorView,
> {
    match result {
        Ok(descriptor) => Ok(descriptor@),
        Err(error) => Err(error@),
    }
}

/// What the strike segment of a name says: the finite number that it is
/// read as, or the reason why it is the strike of no instrument.
pub open spec fn strike_of(segment: Seq<char>) -> Result<Double, Seq<char>> {
    match reading(segment) {
        Err(ReadError::Empty) => Err("cannot parse float from empty string"@),
        Err(ReadError::Invalid) => Err("invalid float literal"@),
        Ok(strike) => if strike.finite() {
            Ok(strike)
        } else {
            Err("strike is not finite"@)
        },
    }
}

/// What a name says: its four segments, the strike read as a number. A name
/// that has not exactly four segments is malformed. One whose strike
/// segment is no finite number is refused for its strike.
pub open spec fn parsed(name: Seq<char>) -> Result<InstrumentDescriptorView, ParseErrorView> {
    match split(name) {
        None => Err(ParseErrorView::MalformedName),
        Some(parts) => match strike_of(parts.strike) {
            Err(reason) => Err(ParseErrorView::InvalidStrike(reason)),
            Ok(strike) => Ok(
                InstrumentDescriptorView {
                    currency: parts.currency,
                    expiry: parts.expiry,
                    strike,
                    option_kind: parts.option_kind,
                },
            ),
        },
    }
}

/// Reads the strike segment of a name.
pub fn read_strike(segment: &str) -> (result: Result<Double, String>)
    ensures
        match result {
            Ok(strike) => strike_of(segment@) == Ok::<Double, Seq<char>>(strike),
            Err(reason) => strike_of(segment@) == Err::<Double, Seq<char>>(reason@),
        },
{
    match read_number(segment) {
        Err(ReadError::Empty) => Err("cannot parse float from empty string".to_owned()),
        Err(ReadError::Invalid) => Err("invalid float literal".to_owned()),
        Ok(strike) => {
            if strike.is_finite() {
                Ok(strike)
            } else {
                Err("strike is not finite".to_owned())
            }
        },
    }
}

/// Parses the name of an instrument into what it says.
pub fn parse_instrument_name(instrument_name: &str) -> (result: Result<
    InstrumentDescriptor,
    ParseError,
>)
    ensures
        parsed_view(result) == parsed(instrument_name@),
{
    match split_instrument_name(instrument_name) {
        Err(error) => Err(error),
        Ok(parts) => match read_strike(parts.strike.as_str()) {
            Err(reason) => Err(ParseError::InvalidStrike(reason)),
            Ok(strike) => Ok(
                InstrumentDescriptor {
                    currency: parts.currency,
                    expiry: parts.expiry,
                    strike,
                    option_kind: parts.option_kind,
                },
            ),
        },
    }
}

/// Segments with a separator between two of them, as one text.
pub open spec fn join(pieces: Seq<Seq<char>>) -> Seq<char>
    decreases pieces.len(),
{
    if pieces.len() == 0 {
        Seq::empty()
    } else if pieces.len() == 1 {
        pieces[0]
    } else {
        join(pieces.drop_last()) + seq![SEPARATOR] + pieces.last()
    }
}

/// A text without a separator is its own single segment.
pub proof fn lemma_segments_of_one(text: Seq<char>)
    requires
        separator_free(text),
    ensures
        segments(text) == seq![text],
    decreases text.len(),
{
    if text.len() == 0 {
        assert(text =~= Seq::empty());
    } else {
        lemma_segments_of_one(text.drop_last());
        assert(text.drop_last().push(text.last()) =~= text);
    }
}

/// Behind a separator, a text without a separator is one more segment.
pub proof fn lemma_segments_of_appended(head: Seq<char>, tail: Seq<char>)
    requires
        separator_free(tail),
    ensures
        segments(head + seq![SEPARATOR] + tail) == segments(head).push(tail),
    decreases tail.len(),
{
    let whole = head + seq![SEPARATOR] + tail;
    if tail.len() == 0 {
        assert(whole.drop_last() =~= head);
        assert(tail =~= Seq::empty());
    } else {
        let shorter = tail.drop_last();
        lemma_segments_of_appended(head, shorter);
        assert(whole.drop_last() =~= head + seq![SEPARATOR] + shorter);
        assert(shorter.push(tail.last()) =~= tail);
    }
}

/// Cutting undoes joining: the name that four segments without a separator
/// make up is cut into exactly those four.
pub proof fn lemma_split_joined(parts: NamePartsView)
    requires
        separator_free(parts.currency),
        separator_free(parts.expiry),
        separator_free(parts.strike),
        separator_free(parts.option_kind),
    ensures
        split(joined(parts)) == Some(parts),
{
    let one = parts.currency;
    let two = one + seq![SEPARATOR] + parts.expiry;
    let three = two + seq![SEPARATOR] + parts.strike;
    lemma_segments_of_one(one);
    lemma_segments_of_appended(one, parts.expiry);
    lemma_segments_of_appended(two, parts.strike);
    lemma_segments_of_appended(three, parts.option_kind);
}

/// Joining undoes cutting: a text has at least one segment, no segment
/// holds a separator, and the segments joined are the text.
pub proof fn lemma_join_segments(text: Seq<char>)
    ensures
        segments(text).len() >= 1,
        forall|k: int| 0 <= k < segments(text).len() ==> separator_free(#[trigger] segments(text)[k]),
        join(segments(text)) == text,
    decreases text.len(),
{
    if text.len() != 0 {
        let shorter = text.drop_last();
        let before = segments(shorter);
        lemma_join_segments(shorter);
        let after = segments(text);
        if text.last() == SEPARATOR {
            assert(after.drop_last() =~= before);
        } else if before.len() != 1 {
            assert(after.drop_last() =~= before.drop_last());
            assert(text =~= shorter.push(text.last()));
        }
    }
}

/// What `split` yields, joined, is the name, and none of the four segments
/// holds a separator.
pub proof fn lemma_joined_split(name: Seq<char>)
    requires
        split(name) is Some,
    ensures
        joined(split(name)->0) == name,
        separator_free(split(name)->0.currency),
        separator_free(split(name)->0.expiry),
        separator_free(split(name)->0.strike),
        separator_free(split(name)->0.option_kind),
{
    lemma_join_segments(name);
    let all = segments(name);
    let three = all.drop_last();
    let two = three.drop_last();
    let one = two.drop_last();
    assert(join(one) == all[0]);
    assert(join(three) == join(two) + seq![SEPARATOR] + all[2]);
}

/// A well-formed name is parsed into what it was made of: for four segments
/// without a separator, of which the strike segment is read as a finite
/// number, the name that the segments make up is parsed into a descriptor
/// that holds currency, expiry and indicator as they stand in the name and
/// that number as its strike. The instrument is classified an option exactly
/// when the indicator holds `C` or `P`.
pub proof fn lemma_parse_well_formed(parts: NamePartsView, strike: Double)
    requires
        separator_free(parts.currency),
        separator_free(parts.expiry),
        separator_free(parts.strike),
        separator_free(parts.option_kind),
        reading(parts.strike) == Ok::<Double, ReadError>(strike),
        strike.finite(),
    ensures
        parsed(joined(parts)) == Ok::<InstrumentDescriptorView, ParseErrorView>(
            InstrumentDescriptorView {
                currency: parts.currency,
                expiry: parts.expiry,
                strike,
                option_kind: parts.option_kind,
            },
        ),
        kind_of_indicator(parts.option_kind) == InstrumentKind::Opt <==> (
        parts.option_kind.contains('C') || parts.option_kind.contains('P')),
{
    lemma_split_joined(parts);
}

} // verus!
