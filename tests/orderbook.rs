use orderbook::book::{Increment, OrderBook, QuotesEnum, Tick};
use orderbook::side::{BookSide, Level};
use orderbook::types::{key_price, price_key, BookError, L3Quote, Side};

/// Fixed-point unit of the tests: 1e-8 of a currency unit.
fn px(x: f64) -> i64 {
    (x * 1e8).round() as i64
}

const DATE: &str = "2019-01-01T00:00:00.000Z";

fn quote(id: i64, price: f64, size: f64) -> L3Quote {
    L3Quote { id, price: px(price), size: px(size) }
}

fn increment(side: &str, added: Vec<L3Quote>, changed: Vec<L3Quote>, deleted: Vec<i64>) -> Tick {
    Tick {
        date: DATE.to_string(),
        instrument: "BTCUSD".to_string(),
        kind: "INCREMENT".to_string(),
        side: side.to_string(),
        quotes: QuotesEnum::INCREMENT(Increment { added, changed, deleted }),
    }
}

fn snapshot(side: &str, quotes: Vec<L3Quote>) -> Tick {
    Tick {
        date: DATE.to_string(),
        instrument: "BTCUSD".to_string(),
        kind: "SNAPSHOT".to_string(),
        side: side.to_string(),
        quotes: QuotesEnum::SNAPSHOT(quotes),
    }
}

fn level(key: i64, quotes: Vec<L3Quote>) -> Level {
    Level { key, quotes }
}

fn step() -> i64 {
    px(0.0025)
}

#[test]
fn orderbook_create_from_str() {
    let price_step = step();
    let ticks = vec![
        increment("BID", vec![quote(1, 4000.0, 1.05)], vec![], vec![]),
        increment("ASK", vec![quote(2, 5000.0, 1.10)], vec![], vec![]),
    ];
    let book = OrderBook::from_ticks(&ticks, "BTCUSD".to_string(), price_step).unwrap();
    assert_eq!(book.instrument(), &"BTCUSD".to_string());
    assert_eq!(book.price_step(), price_step);
    assert_eq!(book.date(), &DATE.to_string());
    assert_eq!(book.bid().levels(), &vec![level(1600000, vec![quote(1, 4000.0, 1.05)])]);
    assert_eq!(book.ask().levels(), &vec![level(2000000, vec![quote(2, 5000.0, 1.10)])]);
}

#[test]
fn orderbook_update_from_str() {
    let price_step = step();
    let mut book = OrderBook::new("BTCUSD".to_string(), price_step).unwrap();
    let mut bid_expected = vec![level(1600400, vec![quote(1, 4001.0, 1.05)])];
    let mut ask_expected = vec![level(2000800, vec![quote(2, 5002.0, 1.10)])];

    book.update_all(&vec![increment("BID", vec![quote(1, 4001.0, 1.05)], vec![], vec![])]).unwrap();
    book.update_all(&vec![increment("ASK", vec![quote(2, 5002.0, 1.10)], vec![], vec![])]).unwrap();
    assert_eq!(book.instrument(), &"BTCUSD".to_string());
    assert_eq!(book.price_step(), price_step);
    assert_eq!(book.date(), &DATE.to_string());
    assert_eq!(book.bid().levels(), &bid_expected);
    assert_eq!(book.ask().levels(), &ask_expected);

    bid_expected.push(level(1601200, vec![quote(3, 4003.0, 1.05)]));
    ask_expected.push(level(2001600, vec![quote(4, 5004.0, 1.10)]));
    book.update_all(&vec![increment("BID", vec![quote(3, 4003.0, 1.05)], vec![], vec![])]).unwrap();
    book.update_all(&vec![increment("ASK", vec![quote(4, 5004.0, 1.10)], vec![], vec![])]).unwrap();
    assert_eq!(book.instrument(), &"BTCUSD".to_string());
    assert_eq!(book.price_step(), price_step);
    assert_eq!(book.date(), &DATE.to_string());
    assert_eq!(book.bid().levels(), &bid_expected);
    assert_eq!(book.ask().levels(), &ask_expected);

    bid_expected[1].quotes[0].size = px(1.06);
    ask_expected[1].quotes[0].size = px(1.11);
    book.update_all(&vec![increment("BID", vec![], vec![quote(3, 4003.0, 1.06)], vec![])]).unwrap();
    book.update_all(&vec![increment("ASK", vec![], vec![quote(4, 5004.0, 1.11)], vec![])]).unwrap();
    assert_eq!(book.instrument(), &"BTCUSD".to_string());
    assert_eq!(book.price_step(), price_step);
    assert_eq!(book.date(), &DATE.to_string());
    assert_eq!(book.bid().levels(), &bid_expected);
    assert_eq!(book.ask().levels(), &ask_expected);
}

#[test]
fn orderbook_create_non_increment() {
    let ticks = vec![snapshot("BID", vec![quote(1, 4000.0, 1.05), quote(3, 4003.0, 1.05)])];
    let book = OrderBook::from_ticks(&ticks, "BTCUSD".to_string(), step()).unwrap();
    assert_eq!(
        book.bid().levels(),
        &vec![level(1600000, vec![quote(1, 4000.0, 1.05)]), level(1601200, vec![quote(3, 4003.0, 1.05)])]
    );
    assert!(book.ask().levels().is_empty());
}

#[test]
#[should_panic]
fn orderbook_snapshot_from_overlapped_bid_ask() {
    let ticks = vec![
        snapshot("BID", vec![quote(1, 5000.0, 1.05), quote(3, 4003.0, 1.05)]),
        snapshot("ASK", vec![quote(2, 5002.0, 1.10), quote(3, 4003.0, 1.10)]),
    ];
    let _ = OrderBook::from_ticks(&ticks, "BTCUSD".to_string(), step()).unwrap();
}

#[test]
fn overlapped_snapshots_report_crossed_keys() {
    let ticks = vec![
        snapshot("BID", vec![quote(1, 5000.0, 1.05), quote(3, 4003.0, 1.05)]),
        snapshot("ASK", vec![quote(2, 5002.0, 1.10), quote(3, 4003.0, 1.10)]),
    ];
    let r = OrderBook::from_ticks(&ticks, "BTCUSD".to_string(), step());
    assert!(matches!(r, Err(BookError::CrossedBook { bid_key: 2000000, ask_key: 1601200 })));
}

#[test]
fn equal_bid_and_ask_keys_are_crossed() {
    let ticks = vec![
        snapshot("BID", vec![quote(1, 4000.0, 1.0)]),
        snapshot("ASK", vec![quote(2, 4000.001, 1.0)]),
    ];
    let r = OrderBook::from_ticks(&ticks, "BTCUSD".to_string(), step());
    assert!(matches!(r, Err(BookError::CrossedBook { bid_key: 1600000, ask_key: 1600000 })));
}

#[test]
fn change_keeps_single_order_bucket() {
    let mut book = OrderBook::new("BTCUSD".to_string(), step()).unwrap();
    book.update(&increment("BID", vec![quote(1, 4000.0, 1.05)], vec![], vec![])).unwrap();
    book.update(&increment("ASK", vec![quote(2, 5000.0, 1.10)], vec![], vec![])).unwrap();
    book.update(&increment("BID", vec![], vec![quote(1, 4000.0, 1.20)], vec![])).unwrap();
    assert_eq!(book.bid().levels(), &vec![level(1600000, vec![quote(1, 4000.0, 1.20)])]);
    assert_eq!(book.cleanup(), Ok(()));
}

#[test]
fn delete_then_cleanup_empties_bid_side() {
    let mut book = OrderBook::new("BTCUSD".to_string(), step()).unwrap();
    book.update(&increment("BID", vec![quote(1, 4000.0, 1.05)], vec![], vec![])).unwrap();
    book.update(&increment("BID", vec![], vec![], vec![1])).unwrap();
    assert_eq!(book.bid().levels(), &vec![level(1600000, vec![])]);
    assert_eq!(book.cleanup(), Ok(()));
    assert!(book.bid().levels().is_empty());
}

#[test]
fn delete_of_unknown_id_fails() {
    let mut book = OrderBook::new("BTCUSD".to_string(), step()).unwrap();
    let r = book.update(&increment("BID", vec![], vec![], vec![99]));
    assert_eq!(r, Err(BookError::UnknownId { id: 99 }));
}

#[test]
fn change_of_unknown_id_fails() {
    let mut book = OrderBook::new("BTCUSD".to_string(), step()).unwrap();
    let r = book.update(&increment("ASK", vec![], vec![quote(5, 10.0, 1.0)], vec![]));
    assert_eq!(r, Err(BookError::UnknownId { id: 5 }));
}

#[test]
fn add_of_resting_id_fails() {
    let mut book = OrderBook::new("BTCUSD".to_string(), step()).unwrap();
    book.update(&increment("ASK", vec![quote(7, 10.0, 1.0)], vec![], vec![])).unwrap();
    let r = book.update(&increment("ASK", vec![quote(7, 11.0, 1.0)], vec![], vec![]));
    assert_eq!(r, Err(BookError::DuplicateId { id: 7 }));
}

#[test]
fn duplicate_id_within_snapshot_fails() {
    let mut book = OrderBook::new("BTCUSD".to_string(), step()).unwrap();
    let r = book.update(&snapshot("BID", vec![quote(1, 10.0, 1.0), quote(1, 11.0, 2.0)]));
    assert_eq!(r, Err(BookError::DuplicateId { id: 1 }));
}

#[test]
fn other_instrument_is_rejected_and_book_untouched() {
    let mut book = OrderBook::new("ETHUSD".to_string(), step()).unwrap();
    let r = book.update(&increment("BID", vec![quote(1, 10.0, 1.0)], vec![], vec![]));
    assert_eq!(r, Err(BookError::InstrumentMismatch));
    assert_eq!(book.date(), &"".to_string());
    assert!(book.bid().levels().is_empty());
}

#[test]
fn non_positive_tick_size_is_rejected() {
    assert!(matches!(OrderBook::new("BTCUSD".to_string(), 0), Err(BookError::InvalidTickSize)));
    assert!(matches!(OrderBook::new("BTCUSD".to_string(), -5), Err(BookError::InvalidTickSize)));
    assert!(matches!(OrderBook::from_ticks(&vec![], "BTCUSD".to_string(), 0), Err(BookError::InvalidTickSize)));
}

#[test]
fn cleanup_twice_equals_once() {
    let mut book = OrderBook::new("BTCUSD".to_string(), step()).unwrap();
    book.update(&increment("BID", vec![quote(1, 4000.0, 1.0), quote(2, 3999.0, 1.0)], vec![], vec![])).unwrap();
    book.update(&increment("BID", vec![], vec![], vec![2])).unwrap();
    book.update(&increment("ASK", vec![quote(3, 4001.0, 1.0)], vec![], vec![])).unwrap();
    assert_eq!(book.cleanup(), Ok(()));
    let bid_once = book.bid().levels().clone();
    let ask_once = book.ask().levels().clone();
    assert_eq!(book.cleanup(), Ok(()));
    assert_eq!(book.bid().levels(), &bid_once);
    assert_eq!(book.ask().levels(), &ask_once);
    assert_eq!(bid_once, vec![level(1600000, vec![quote(1, 4000.0, 1.0)])]);
}

#[test]
fn crossed_cleanup_twice_gives_same_error() {
    let ticks = vec![snapshot("BID", vec![quote(1, 5000.0, 1.0)]), snapshot("ASK", vec![quote(2, 4003.0, 1.0)])];
    let mut book = OrderBook::new("BTCUSD".to_string(), step()).unwrap();
    let first = book.update_all(&ticks);
    assert_eq!(first, Err(BookError::CrossedBook { bid_key: 2000000, ask_key: 1601200 }));
    assert_eq!(book.cleanup(), first);
}

#[test]
fn snapshot_replaces_resting_orders() {
    let mut book = OrderBook::new("BTCUSD".to_string(), step()).unwrap();
    book.update(&increment("BID", vec![quote(1, 4000.0, 1.0), quote(2, 4001.0, 2.0)], vec![], vec![])).unwrap();
    book.update(&snapshot("BID", vec![quote(2, 3990.0, 5.0), quote(9, 3995.0, 0.5)])).unwrap();
    assert_eq!(
        book.bid().levels(),
        &vec![level(1596000, vec![quote(2, 3990.0, 5.0)]), level(1598000, vec![quote(9, 3995.0, 0.5)])]
    );
    assert_eq!(book.cleanup(), Ok(()));
}

#[test]
fn change_moves_order_to_back_of_queue() {
    let mut book = OrderBook::new("BTCUSD".to_string(), step()).unwrap();
    book.update(&increment("ASK", vec![quote(1, 10.0, 1.0), quote(2, 10.0, 2.0), quote(3, 10.0, 3.0)], vec![], vec![]))
        .unwrap();
    book.update(&increment("ASK", vec![], vec![quote(1, 10.0, 1.5)], vec![])).unwrap();
    assert_eq!(
        book.ask().levels(),
        &vec![level(4000, vec![quote(2, 10.0, 2.0), quote(3, 10.0, 3.0), quote(1, 10.0, 1.5)])]
    );
}

#[test]
fn increment_applies_deletes_then_changes_then_adds() {
    let mut book = OrderBook::new("BTCUSD".to_string(), step()).unwrap();
    book.update(&increment("BID", vec![quote(1, 10.0, 1.0), quote(2, 10.0, 1.0)], vec![], vec![])).unwrap();
    let r = book.update(&increment("BID", vec![quote(1, 10.0, 3.0)], vec![quote(2, 10.0, 2.0)], vec![1]));
    assert_eq!(r, Ok(()));
    assert_eq!(book.bid().levels(), &vec![level(4000, vec![quote(2, 10.0, 2.0), quote(1, 10.0, 3.0)])]);
}

#[test]
fn remove_from_middle_keeps_order() {
    let mut side = BookSide::new();
    side.insert(5, L3Quote { id: 1, price: 50, size: 1 }).unwrap();
    side.insert(5, L3Quote { id: 2, price: 51, size: 1 }).unwrap();
    side.insert(5, L3Quote { id: 3, price: 52, size: 1 }).unwrap();
    side.insert(2, L3Quote { id: 4, price: 20, size: 1 }).unwrap();
    assert_eq!(side.remove(2), Ok(()));
    assert_eq!(side.remove(2), Err(BookError::UnknownId { id: 2 }));
    assert_eq!(side.insert(2, L3Quote { id: 4, price: 20, size: 9 }), Err(BookError::DuplicateId { id: 4 }));
    assert_eq!(
        side.levels(),
        &vec![
            level(2, vec![L3Quote { id: 4, price: 20, size: 1 }]),
            level(5, vec![L3Quote { id: 1, price: 50, size: 1 }, L3Quote { id: 3, price: 52, size: 1 }]),
        ]
    );
    assert_eq!(side.find(3), Some((1, 1)));
    assert_eq!(side.find(2), None);
    side.clear();
    assert!(side.levels().is_empty());
}

#[test]
fn prune_drops_only_empty_levels() {
    let mut side = BookSide::new();
    side.insert(1, L3Quote { id: 1, price: 10, size: 1 }).unwrap();
    side.insert(3, L3Quote { id: 2, price: 30, size: 1 }).unwrap();
    side.remove(1).unwrap();
    side.prune();
    assert_eq!(side.levels(), &vec![level(3, vec![L3Quote { id: 2, price: 30, size: 1 }])]);
}

#[test]
fn price_codec_rounds_toward_zero() {
    assert_eq!(price_key(px(4000.0), px(0.0025)), 1600000);
    assert_eq!(price_key(7, 2), 3);
    assert_eq!(price_key(-7, 2), -3);
    assert_eq!(price_key(0, 3), 0);
    assert_eq!(key_price(1600000, px(0.0025)), px(4000.0) as i128);
    assert_eq!(key_price(-3, 2), -6);
}

#[test]
fn side_names() {
    assert_eq!(Side::from_name(&"BID".to_string()), Some(Side::BID));
    assert_eq!(Side::from_name(&"ASK".to_string()), Some(Side::ASK));
    assert_eq!(Side::from_name(&"bid".to_string()), None);
    assert_eq!(Side::from_name(&"".to_string()), None);
}

#[test]
fn unknown_side_is_malformed_and_book_untouched() {
    let mut book = OrderBook::new("BTCUSD".to_string(), step()).unwrap();
    book.update(&increment("ASK", vec![quote(1, 10.0, 1.0)], vec![], vec![])).unwrap();
    let r = book.update(&increment("XYZ", vec![], vec![], vec![]));
    assert_eq!(r, Err(BookError::MalformedRecord));
    let r = book.update(&increment("bid", vec![quote(2, 9.0, 1.0)], vec![], vec![]));
    assert_eq!(r, Err(BookError::MalformedRecord));
    assert_eq!(book.ask().levels(), &vec![level(4000, vec![quote(1, 10.0, 1.0)])]);
    assert!(book.bid().levels().is_empty());
}

#[test]
fn snapshot_keeps_list_order_within_bucket() {
    let mut book = OrderBook::new("BTCUSD".to_string(), step()).unwrap();
    book.update(&increment("ASK", vec![quote(8, 20.0, 1.0)], vec![], vec![])).unwrap();
    book.update(&snapshot("ASK", vec![quote(5, 10.0, 1.0), quote(2, 12.0, 1.0), quote(3, 10.0, 2.0)])).unwrap();
    assert_eq!(
        book.ask().levels(),
        &vec![
            level(4000, vec![quote(5, 10.0, 1.0), quote(3, 10.0, 2.0)]),
            level(4800, vec![quote(2, 12.0, 1.0)]),
        ]
    );
}
