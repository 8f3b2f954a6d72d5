use matching_engine::OrderBook;
use matching_engine::OrderType;
use matching_engine::RiskEngine;
use matching_engine::RiskError;
use matching_engine::Side;
use matching_engine::PRECISION;

const P: u64 = PRECISION;

#[test]
fn book_submit_and_match_directly() {
    let mut book = OrderBook::new();
    let mut risk = RiskEngine::new();
    let fills = book
        .submit(1, 2, OrderType::Limit, Side::Ask, 100 * P, 5 * P, &mut risk)
        .unwrap();
    assert!(fills.is_empty());
    let fills = book
        .submit(2, 3, OrderType::Limit, Side::Bid, 100 * P, 3 * P, &mut risk)
        .unwrap();
    assert_eq!(fills.len(), 1);
    assert_eq!(fills[0].maker_id, 1);
    assert_eq!(fills[0].price, 100 * P);
    assert_eq!(fills[0].qty, 3 * P);
    let (bids, asks) = book.get_l2_snapshot(10);
    assert!(bids.is_empty());
    assert_eq!(asks, vec![(100 * P, 2 * P)]);
}

#[test]
fn book_cancel_empties_level() {
    let mut book = OrderBook::new();
    let mut risk = RiskEngine::new();
    book.submit(1, 2, OrderType::Limit, Side::Bid, 100 * P, 5 * P, &mut risk).unwrap();
    let o = book.cancel(1).unwrap();
    assert_eq!(o.remaining, 5 * P);
    let (bids, _) = book.get_l2_snapshot(10);
    assert!(bids.is_empty());
    assert!(book.cancel(1).is_none());
}

#[test]
fn risk_gate_checks() {
    let mut risk = RiskEngine::new();
    // no limit configured: any size passes
    assert!(!risk.check_position_limit(7, u64::MAX));
    risk.set_position_limit(7, 10);
    assert!(risk.check_position_limit(7, 11));
    assert!(!risk.check_position_limit(7, 10));
    // rate credit counts down once per check
    let mut risk2 = RiskEngine::new();
    risk2.set_rate_limit(9, 1);
    assert!(!risk2.check_rate_limit(9));
    assert!(risk2.check_rate_limit(9));
}

#[test]
fn book_rejects_before_mutating() {
    let mut book = OrderBook::new();
    let mut risk = RiskEngine::new();
    risk.set_position_limit(4, 1 * P);
    let r = book.submit(1, 4, OrderType::Limit, Side::Bid, 100 * P, 2 * P, &mut risk);
    assert!(matches!(r, Err(RiskError::PositionLimit)));
    let (bids, asks) = book.get_l2_snapshot(10);
    assert!(bids.is_empty());
    assert!(asks.is_empty());
}
