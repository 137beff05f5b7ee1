use protohackers::meanstoanend::{
    get_mean_price, parse_message, process_message, Insert, Message, Query,
};
use std::collections::BTreeMap;

#[test]
fn mean_over_a_span() {
    let mut prices = BTreeMap::new();
    prices.insert(12345, 101);
    prices.insert(12346, 102);
    prices.insert(12347, 100);
    prices.insert(40960, 5);
    assert_eq!(get_mean_price(&prices, 12288, 16384), 101);
    assert_eq!(get_mean_price(&prices, 16384, 12288), 0);
    assert_eq!(get_mean_price(&prices, 0, 100), 0);
    assert_eq!(get_mean_price(&prices, i32::MIN, i32::MAX), 77);
}

#[test]
fn mean_rounds_toward_zero() {
    let mut prices = BTreeMap::new();
    prices.insert(1, -1);
    prices.insert(2, -2);
    assert_eq!(get_mean_price(&prices, 1, 2), -1);
    prices.insert(3, 4);
    assert_eq!(get_mean_price(&prices, 1, 3), 0);
    let mut big = BTreeMap::new();
    big.insert(1, i32::MAX);
    big.insert(2, i32::MAX);
    assert_eq!(get_mean_price(&big, 1, 2), i32::MAX);
}

#[test]
fn parse_messages() {
    let insert = [0x49, 0x00, 0x00, 0x30, 0x39, 0x00, 0x00, 0x00, 0x65];
    match parse_message(&insert) {
        Ok(Message::I(Insert { ts, price })) => {
            assert_eq!(ts, 12345);
            assert_eq!(price, 101);
        }
        _ => panic!("expected an insert"),
    }
    let query = [0x51, 0x00, 0x00, 0x30, 0x00, 0xff, 0xff, 0xff, 0xff];
    match parse_message(&query) {
        Ok(Message::Q(Query { mints, maxts })) => {
            assert_eq!(mints, 12288);
            assert_eq!(maxts, -1);
        }
        _ => panic!("expected a query"),
    }
    assert!(parse_message(&[0x58, 0, 0, 0, 0, 0, 0, 0, 0]).is_err());
}

#[test]
fn query_after_insert() {
    let mut prices = BTreeMap::new();
    assert_eq!(process_message(&mut prices, &Message::I(Insert { ts: 7, price: -30 })), None);
    assert_eq!(
        process_message(&mut prices, &Message::Q(Query { mints: 7, maxts: 7 })),
        Some(-30)
    );
    assert_eq!(process_message(&mut prices, &Message::I(Insert { ts: 7, price: 12 })), None);
    assert_eq!(
        process_message(&mut prices, &Message::Q(Query { mints: 0, maxts: 10 })),
        Some(12)
    );
}
