use agg_ticker::aggregate::{
    aggregate_tickers, check_prices, filter_tickers, first_ticker_metadata, insert_level,
    is_better, quote_level, rank_levels, side_levels, top_of_book, truncate_to_depth, PriceError,
};
use agg_ticker::instrument::InstrumentDescriptor;
use agg_ticker::number::Double;
use agg_ticker::ranking::{Side, LADDER_DEPTH};
use agg_ticker::ticker::{clone_levels, AggregatedTicker, Greeks, QuoteLevel, RawTicker};

const NAME: &str = "BTC-27DEC24-68000-C";

fn num(x: f64) -> Double {
    Double::from_bits(x.to_bits())
}

fn val(d: Double) -> f64 {
    f64::from_bits(d.to_bits())
}

fn ticker(bid: f64, ask: f64) -> RawTicker {
    RawTicker {
        instrument_name: NAME.to_string(),
        best_bid_price: num(bid),
        best_bid_amount: num(bid / 10.0),
        bid_iv: num(0.5),
        best_ask_price: num(ask),
        best_ask_amount: num(ask / 10.0),
        ask_iv: num(0.75),
        index_price: num(67000.0),
        greeks: Some(Greeks { delta: Some(num(0.25)) }),
        state: "open".to_string(),
        timestamp: 1_700_000_000_000,
    }
}

fn descriptor(strike: f64) -> InstrumentDescriptor {
    InstrumentDescriptor {
        currency: "BTC".to_string(),
        expiry: "27DEC24".to_string(),
        strike: num(strike),
        option_kind: "C".to_string(),
    }
}

fn level(price: f64, amount: f64) -> QuoteLevel {
    QuoteLevel {
        price: num(price),
        amount: num(amount),
        implied_vol: num(0.0),
        index_price: num(0.0),
        source_label: NAME.to_string(),
    }
}

fn prices(levels: &[QuoteLevel]) -> Vec<f64> {
    levels.iter().map(|l| val(l.price)).collect()
}

fn amounts(levels: &[QuoteLevel]) -> Vec<f64> {
    levels.iter().map(|l| val(l.amount)).collect()
}

fn aggregate(tickers: Vec<RawTicker>) -> AggregatedTicker {
    aggregate_tickers(NAME.to_string(), tickers, descriptor(68000.0)).unwrap()
}

#[test]
fn best_bid_and_best_ask_of_three_tickers() {
    let agg = aggregate(vec![ticker(100.0, 110.0), ticker(105.0, 108.0), ticker(98.0, 112.0)]);
    assert_eq!(val(agg.bids[0].price), 105.0);
    assert_eq!(val(agg.asks[0].price), 108.0);
    assert_eq!(prices(&agg.bids), vec![105.0, 100.0, 98.0]);
    assert_eq!(prices(&agg.asks), vec![108.0, 110.0, 112.0]);
}

#[test]
fn levels_carry_what_the_ticker_quoted() {
    let agg = aggregate(vec![ticker(100.0, 110.0)]);
    assert_eq!(agg.bids.len(), 1);
    assert_eq!(agg.asks.len(), 1);
    let bid = &agg.bids[0];
    assert_eq!(val(bid.price), 100.0);
    assert_eq!(val(bid.amount), 10.0);
    assert_eq!(val(bid.implied_vol), 0.5);
    assert_eq!(val(bid.index_price), 67000.0);
    assert_eq!(bid.source_label, NAME);
    let ask = &agg.asks[0];
    assert_eq!(val(ask.price), 110.0);
    assert_eq!(val(ask.amount), 11.0);
    assert_eq!(val(ask.implied_vol), 0.75);
    assert_eq!(val(ask.index_price), 67000.0);
    assert_eq!(ask.source_label, NAME);
}

#[test]
fn ladders_are_cut_to_five_and_stand_in_price_order() {
    let bids = [101.0, 107.0, 103.0, 99.0, 105.0, 102.0, 106.0];
    let tickers: Vec<RawTicker> = bids.iter().map(|b| ticker(*b, *b + 10.0)).collect();
    let agg = aggregate(tickers);
    assert_eq!(agg.bids.len(), LADDER_DEPTH);
    assert_eq!(agg.asks.len(), LADDER_DEPTH);
    assert_eq!(prices(&agg.bids), vec![107.0, 106.0, 105.0, 103.0, 102.0]);
    assert_eq!(prices(&agg.asks), vec![109.0, 111.0, 112.0, 113.0, 115.0]);
    for pair in agg.bids.windows(2) {
        assert!(val(pair[0].price) >= val(pair[1].price));
    }
    for pair in agg.asks.windows(2) {
        assert!(val(pair[0].price) <= val(pair[1].price));
    }
}

#[test]
fn ladders_are_no_longer_than_the_tickers_are_many() {
    for n in 0..9usize {
        let tickers: Vec<RawTicker> = (0..n).map(|i| ticker(100.0 + i as f64, 200.0 - i as f64)).collect();
        let agg = aggregate(tickers);
        assert_eq!(agg.bids.len(), n.min(5));
        assert_eq!(agg.asks.len(), n.min(5));
    }
}

#[test]
fn no_ticker_gives_the_defaults() {
    let agg = aggregate(Vec::new());
    assert_eq!(agg.instrument_name, NAME);
    assert_eq!(val(agg.strike), 68000.0);
    assert_eq!(agg.kind, "Unknown");
    assert_eq!(val(agg.delta), 0.0);
    assert_eq!(agg.delta.to_bits(), 0);
    assert_eq!(agg.timestamp, 0);
    assert!(agg.bids.is_empty());
    assert!(agg.asks.is_empty());
}

#[test]
fn strike_comes_from_the_descriptor() {
    let agg = aggregate_tickers(NAME.to_string(), vec![ticker(1.0, 2.0)], descriptor(12345.5)).unwrap();
    assert_eq!(val(agg.strike), 12345.5);
    assert_eq!(agg.instrument_name, NAME);
}

#[test]
fn kind_delta_and_timestamp_come_from_the_first_ticker() {
    let mut first = ticker(100.0, 110.0);
    first.state = "closed".to_string();
    first.greeks = Some(Greeks { delta: Some(num(-0.625)) });
    first.timestamp = 42;
    let mut second = ticker(105.0, 108.0);
    second.state = "open".to_string();
    second.timestamp = 43;
    let agg = aggregate(vec![first, second]);
    assert_eq!(agg.kind, "closed");
    assert_eq!(val(agg.delta), -0.625);
    assert_eq!(agg.timestamp, 42);
}

#[test]
fn delta_is_zero_where_the_first_ticker_reports_none() {
    let mut without_greeks = ticker(100.0, 110.0);
    without_greeks.greeks = None;
    let agg = aggregate(vec![without_greeks, ticker(1.0, 2.0)]);
    assert_eq!(agg.delta.to_bits(), 0.0f64.to_bits());

    let mut without_delta = ticker(100.0, 110.0);
    without_delta.greeks = Some(Greeks { delta: None });
    let agg = aggregate(vec![without_delta, ticker(1.0, 2.0)]);
    assert_eq!(agg.delta.to_bits(), 0.0f64.to_bits());
}

#[test]
fn first_ticker_metadata_of_tickers_and_of_none() {
    let (kind, delta, timestamp) = first_ticker_metadata(&vec![ticker(1.0, 2.0)]);
    assert_eq!(kind, "open");
    assert_eq!(val(delta), 0.25);
    assert_eq!(timestamp, 1_700_000_000_000);
    let (kind, delta, timestamp) = first_ticker_metadata(&Vec::new());
    assert_eq!(kind, "Unknown");
    assert_eq!(delta, Double::zero());
    assert_eq!(timestamp, 0);
}

#[test]
fn equal_prices_keep_the_order_of_the_provider() {
    let mut tickers = Vec::new();
    for (i, bid) in [100.0, 105.0, 100.0, 105.0, 100.0].iter().enumerate() {
        let mut t = ticker(*bid, 200.0);
        t.best_bid_amount = num(i as f64);
        t.best_ask_amount = num(i as f64);
        tickers.push(t);
    }
    let agg = aggregate(tickers);
    assert_eq!(prices(&agg.bids), vec![105.0, 105.0, 100.0, 100.0, 100.0]);
    assert_eq!(amounts(&agg.bids), vec![1.0, 3.0, 0.0, 2.0, 4.0]);
    assert_eq!(amounts(&agg.asks), vec![0.0, 1.0, 2.0, 3.0, 4.0]);
}

#[test]
fn zeros_of_either_sign_are_one_price() {
    let mut tickers = Vec::new();
    for (i, bid) in [0.0, -0.0, 0.0].iter().enumerate() {
        let mut t = ticker(*bid, *bid);
        t.best_bid_amount = num(i as f64);
        t.best_ask_amount = num(i as f64);
        tickers.push(t);
    }
    let agg = aggregate(tickers);
    assert_eq!(amounts(&agg.bids), vec![0.0, 1.0, 2.0]);
    assert_eq!(amounts(&agg.asks), vec![0.0, 1.0, 2.0]);
}

#[test]
fn negative_and_infinite_prices_are_ranked() {
    let all = [1.0, f64::NEG_INFINITY, -2.0, f64::INFINITY, -1.0, 0.0];
    let tickers: Vec<RawTicker> = all.iter().map(|p| ticker(*p, *p)).collect();
    let agg = aggregate(tickers);
    assert_eq!(prices(&agg.bids), vec![f64::INFINITY, 1.0, 0.0, -1.0, -2.0]);
    assert_eq!(prices(&agg.asks), vec![f64::NEG_INFINITY, -2.0, -1.0, 0.0, 1.0]);
}

#[test]
fn ranking_agrees_with_a_stable_sort() {
    let mut seed: u64 = 0x2545_f491_4f6c_dd1d;
    for round in 0..200usize {
        let n = round % 12;
        let mut given = Vec::new();
        for i in 0..n {
            seed ^= seed << 13;
            seed ^= seed >> 7;
            seed ^= seed << 17;
            let price = ((seed % 7) as f64) - 3.0;
            given.push((price, i as f64));
        }
        for side in [Side::Bid, Side::Ask] {
            let levels: Vec<QuoteLevel> = given.iter().map(|(p, a)| level(*p, *a)).collect();
            let ranked = rank_levels(levels, side);
            let mut expected = given.clone();
            match side {
                Side::Bid => expected.sort_by(|a, b| b.0.partial_cmp(&a.0).unwrap()),
                Side::Ask => expected.sort_by(|a, b| a.0.partial_cmp(&b.0).unwrap()),
            }
            let got: Vec<(f64, f64)> = ranked.iter().map(|l| (val(l.price), val(l.amount))).collect();
            assert_eq!(got, expected);
        }
    }
}

#[test]
fn insert_level_goes_behind_its_equals() {
    let mut bids = vec![level(105.0, 0.0), level(100.0, 1.0), level(100.0, 2.0), level(98.0, 3.0)];
    insert_level(&mut bids, level(100.0, 9.0), Side::Bid);
    assert_eq!(amounts(&bids), vec![0.0, 1.0, 2.0, 9.0, 3.0]);
    insert_level(&mut bids, level(200.0, 8.0), Side::Bid);
    assert_eq!(amounts(&bids), vec![8.0, 0.0, 1.0, 2.0, 9.0, 3.0]);
    insert_level(&mut bids, level(1.0, 7.0), Side::Bid);
    assert_eq!(amounts(&bids), vec![8.0, 0.0, 1.0, 2.0, 9.0, 3.0, 7.0]);

    let mut asks = vec![level(98.0, 0.0), level(100.0, 1.0), level(100.0, 2.0), level(105.0, 3.0)];
    insert_level(&mut asks, level(100.0, 9.0), Side::Ask);
    assert_eq!(amounts(&asks), vec![0.0, 1.0, 2.0, 9.0, 3.0]);
    insert_level(&mut asks, level(1.0, 8.0), Side::Ask);
    assert_eq!(amounts(&asks), vec![8.0, 0.0, 1.0, 2.0, 9.0, 3.0]);

    let mut empty: Vec<QuoteLevel> = Vec::new();
    insert_level(&mut empty, level(1.0, 1.0), Side::Ask);
    assert_eq!(prices(&empty), vec![1.0]);
}

#[test]
fn is_better_on_each_side() {
    assert!(is_better(Side::Bid, num(105.0), num(100.0)));
    assert!(!is_better(Side::Bid, num(100.0), num(105.0)));
    assert!(!is_better(Side::Bid, num(100.0), num(100.0)));
    assert!(is_better(Side::Ask, num(100.0), num(105.0)));
    assert!(!is_better(Side::Ask, num(105.0), num(100.0)));
    assert!(!is_better(Side::Ask, num(100.0), num(100.0)));
    assert!(!is_better(Side::Ask, num(0.0), num(-0.0)));
    assert!(!is_better(Side::Bid, num(0.0), num(-0.0)));
}

#[test]
fn quote_level_of_each_side() {
    let t = ticker(100.0, 110.0);
    let bid = quote_level(&t, Side::Bid);
    assert_eq!((val(bid.price), val(bid.amount), val(bid.implied_vol)), (100.0, 10.0, 0.5));
    let ask = quote_level(&t, Side::Ask);
    assert_eq!((val(ask.price), val(ask.amount), val(ask.implied_vol)), (110.0, 11.0, 0.75));
    assert_eq!(val(ask.index_price), 67000.0);
    assert_eq!(ask.source_label, NAME);
}

#[test]
fn side_levels_follow_the_tickers() {
    let tickers = vec![ticker(100.0, 110.0), ticker(105.0, 108.0), ticker(98.0, 112.0)];
    assert_eq!(prices(&side_levels(&tickers, Side::Bid)), vec![100.0, 105.0, 98.0]);
    assert_eq!(prices(&side_levels(&tickers, Side::Ask)), vec![110.0, 108.0, 112.0]);
    assert!(side_levels(&Vec::new(), Side::Bid).is_empty());
}

#[test]
fn top_of_book_of_each_side() {
    let tickers: Vec<RawTicker> = (0..8).map(|i| ticker(i as f64, i as f64)).collect();
    assert_eq!(prices(&top_of_book(&tickers, Side::Bid)), vec![7.0, 6.0, 5.0, 4.0, 3.0]);
    assert_eq!(prices(&top_of_book(&tickers, Side::Ask)), vec![0.0, 1.0, 2.0, 3.0, 4.0]);
}

#[test]
fn truncate_to_depth_keeps_the_front() {
    let mut long: Vec<QuoteLevel> = (0..7).map(|i| level(i as f64, 0.0)).collect();
    truncate_to_depth(&mut long);
    assert_eq!(prices(&long), vec![0.0, 1.0, 2.0, 3.0, 4.0]);
    let mut exact: Vec<QuoteLevel> = (0..5).map(|i| level(i as f64, 0.0)).collect();
    truncate_to_depth(&mut exact);
    assert_eq!(exact.len(), 5);
    let mut short: Vec<QuoteLevel> = (0..2).map(|i| level(i as f64, 0.0)).collect();
    truncate_to_depth(&mut short);
    assert_eq!(prices(&short), vec![0.0, 1.0]);
}

#[test]
fn a_price_that_is_nan_is_refused() {
    let tickers = vec![ticker(100.0, 110.0), ticker(f64::NAN, 108.0), ticker(98.0, f64::NAN)];
    let result = aggregate_tickers(NAME.to_string(), tickers, descriptor(68000.0));
    assert_eq!(result.unwrap_err(), PriceError { side: Side::Bid, index: 1 });

    let tickers = vec![ticker(100.0, 110.0), ticker(105.0, 108.0), ticker(98.0, -f64::NAN)];
    let result = aggregate_tickers(NAME.to_string(), tickers, descriptor(68000.0));
    assert_eq!(result.unwrap_err(), PriceError { side: Side::Ask, index: 2 });

    let tickers = vec![ticker(f64::NAN, f64::NAN)];
    let result = aggregate_tickers(NAME.to_string(), tickers, descriptor(68000.0));
    assert_eq!(result.unwrap_err(), PriceError { side: Side::Bid, index: 0 });
}

#[test]
fn check_prices_passes_numbers_and_infinities() {
    assert_eq!(check_prices(&Vec::new()), Ok(()));
    assert_eq!(check_prices(&vec![ticker(f64::INFINITY, f64::NEG_INFINITY)]), Ok(()));
    let mut odd = ticker(1.0, 2.0);
    odd.best_bid_amount = num(f64::NAN);
    odd.bid_iv = num(f64::NAN);
    odd.index_price = num(f64::NAN);
    assert_eq!(check_prices(&vec![odd]), Ok(()));
    assert_eq!(
        check_prices(&vec![ticker(1.0, 2.0), ticker(1.0, f64::NAN)]),
        Err(PriceError { side: Side::Ask, index: 1 })
    );
}

#[test]
fn filter_keeps_the_tickers_of_the_instrument() {
    let mut other = ticker(1.0, 2.0);
    other.instrument_name = "BTC-27DEC24-68000-P".to_string();
    let mut longer = ticker(3.0, 4.0);
    longer.instrument_name = "BTC-27DEC24-68000-CC".to_string();
    let mut lower = ticker(5.0, 6.0);
    lower.instrument_name = "btc-27dec24-68000-c".to_string();
    let tickers = vec![other, ticker(100.0, 110.0), longer, ticker(105.0, 108.0), lower];
    let kept = filter_tickers(tickers, &NAME.to_string());
    assert_eq!(kept.len(), 2);
    assert_eq!(val(kept[0].best_bid_price), 100.0);
    assert_eq!(val(kept[1].best_bid_price), 105.0);
    assert!(kept.iter().all(|t| t.instrument_name == NAME));
    assert!(filter_tickers(Vec::new(), &NAME.to_string()).is_empty());
    assert!(filter_tickers(vec![ticker(1.0, 2.0)], &"ETH-27DEC24-3000-C".to_string()).is_empty());
}

#[test]
fn clones_hold_the_same() {
    let t = ticker(100.0, 110.0);
    let copy = t.clone();
    assert_eq!(copy.instrument_name, t.instrument_name);
    assert_eq!(copy.best_bid_price, t.best_bid_price);
    assert_eq!(copy.best_ask_amount, t.best_ask_amount);
    assert_eq!(copy.greeks, t.greeks);
    assert_eq!(copy.state, t.state);
    assert_eq!(copy.timestamp, t.timestamp);
    let agg = aggregate(vec![ticker(100.0, 110.0), ticker(105.0, 108.0)]);
    let copy = agg.clone();
    assert_eq!(copy.instrument_name, agg.instrument_name);
    assert_eq!(copy.kind, agg.kind);
    assert_eq!(prices(&copy.bids), prices(&agg.bids));
    assert_eq!(prices(&copy.asks), prices(&agg.asks));
    let levels = clone_levels(&agg.bids);
    assert_eq!(amounts(&levels), amounts(&agg.bids));
    assert_eq!(levels[0].source_label, agg.bids[0].source_label);
}

#[test]
fn a_price_error_has_its_text() {
    assert_eq!(PriceError { side: Side::Bid, index: 0 }.message(), "Best bid price is not a number");
    assert_eq!(PriceError { side: Side::Ask, index: 9 }.message(), "Best ask price is not a number");
}
