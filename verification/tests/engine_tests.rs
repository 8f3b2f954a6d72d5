use matching_engine::MatchingEngine;
use matching_engine::OrderType;
use matching_engine::RiskError;
use matching_engine::Side;
use matching_engine::PRECISION;

const P: u64 = PRECISION;

#[test]
fn simple_crossing() {
    let mut e = MatchingEngine::new();
    let fills = e
        .submit("BTCUSDT", 1, 2, OrderType::Limit, Side::Ask, 100 * P, 5 * P)
        .unwrap();
    assert!(fills.is_empty());
    let fills = e
        .submit("BTCUSDT", 2, 3, OrderType::Limit, Side::Bid, 100 * P, 3 * P)
        .unwrap();
    assert_eq!(fills.len(), 1);
    assert_eq!(fills[0].maker_id, 1);
    assert_eq!(fills[0].taker_id, 2);
    assert_eq!(fills[0].price, 100 * P);
    assert_eq!(fills[0].qty, 3 * P);
    let (bids, asks) = e.get_l2_snapshot("BTCUSDT", 10).unwrap();
    assert_eq!(asks, vec![(100 * P, 2 * P)]);
    assert!(bids.is_empty());
}

#[test]
fn price_time_priority() {
    let mut e = MatchingEngine::new();
    e.submit("S", 1, 2, OrderType::Limit, Side::Ask, 100 * P, 1 * P).unwrap();
    e.submit("S", 2, 3, OrderType::Limit, Side::Ask, 100 * P, 1 * P).unwrap();
    let fills = e
        .submit("S", 3, 4, OrderType::Limit, Side::Bid, 100 * P, 2 * P)
        .unwrap();
    assert_eq!(fills.len(), 2);
    assert_eq!(fills[0].maker_id, 1);
    assert_eq!(fills[0].qty, 1 * P);
    assert_eq!(fills[1].maker_id, 2);
    assert_eq!(fills[1].qty, 1 * P);
}

#[test]
fn best_price_first() {
    let mut e = MatchingEngine::new();
    e.submit("S", 1, 2, OrderType::Limit, Side::Ask, 101 * P, 1 * P).unwrap();
    e.submit("S", 2, 2, OrderType::Limit, Side::Ask, 100 * P, 1 * P).unwrap();
    let fills = e
        .submit("S", 3, 4, OrderType::Limit, Side::Bid, 101 * P, 2 * P)
        .unwrap();
    assert_eq!(fills.len(), 2);
    assert_eq!(fills[0].maker_id, 2);
    assert_eq!(fills[0].price, 100 * P);
    assert_eq!(fills[1].maker_id, 1);
    assert_eq!(fills[1].price, 101 * P);
}

#[test]
fn postonly_rejection() {
    let mut e = MatchingEngine::new();
    e.submit("S", 1, 2, OrderType::Limit, Side::Ask, 100 * P, 1 * P).unwrap();
    let fills = e
        .submit("S", 2, 9, OrderType::PostOnly, Side::Bid, 100 * P, 1 * P)
        .unwrap();
    assert!(fills.is_empty());
    let (bids, _asks) = e.get_l2_snapshot("S", 10).unwrap();
    assert!(bids.is_empty());
    assert!(e.cancel("S", 2).is_none());
}

#[test]
fn postonly_rests_when_not_crossing() {
    let mut e = MatchingEngine::new();
    e.submit("S", 1, 2, OrderType::Limit, Side::Ask, 101 * P, 1 * P).unwrap();
    let fills = e
        .submit("S", 2, 9, OrderType::PostOnly, Side::Bid, 100 * P, 1 * P)
        .unwrap();
    assert!(fills.is_empty());
    let (bids, _) = e.get_l2_snapshot("S", 10).unwrap();
    assert_eq!(bids, vec![(100 * P, 1 * P)]);
}

#[test]
fn maker_only_is_postonly() {
    let mut e = MatchingEngine::new();
    e.submit("S", 1, 2, OrderType::Limit, Side::Ask, 100 * P, 1 * P).unwrap();
    let fills = e
        .submit("S", 2, 9, OrderType::MakerOnly, Side::Bid, 100 * P, 1 * P)
        .unwrap();
    assert!(fills.is_empty());
    assert!(e.cancel("S", 2).is_none());
}

#[test]
fn fok_fail() {
    let mut e = MatchingEngine::new();
    e.submit("S", 1, 2, OrderType::Limit, Side::Ask, 100 * P, 1 * P).unwrap();
    let fills = e
        .submit("S", 2, 9, OrderType::FOK, Side::Bid, 100 * P, 3 * P)
        .unwrap();
    assert!(fills.is_empty());
    let (_, asks) = e.get_l2_snapshot("S", 10).unwrap();
    assert_eq!(asks, vec![(100 * P, 1 * P)]);
}

#[test]
fn fok_success_fills_exactly() {
    let mut e = MatchingEngine::new();
    e.submit("S", 1, 2, OrderType::Limit, Side::Ask, 100 * P, 2 * P).unwrap();
    e.submit("S", 2, 3, OrderType::Limit, Side::Ask, 101 * P, 2 * P).unwrap();
    let fills = e
        .submit("S", 3, 9, OrderType::FOK, Side::Bid, 101 * P, 3 * P)
        .unwrap();
    let total: u64 = fills.iter().map(|f| f.qty).sum();
    assert_eq!(total, 3 * P);
    let (_, asks) = e.get_l2_snapshot("S", 10).unwrap();
    assert_eq!(asks, vec![(101 * P, 1 * P)]);
}

#[test]
fn self_trade_skip() {
    let mut e = MatchingEngine::new();
    e.submit("S", 1, 7, OrderType::Limit, Side::Ask, 100 * P, 1 * P).unwrap();
    e.submit("S", 2, 8, OrderType::Limit, Side::Ask, 100 * P, 1 * P).unwrap();
    let fills = e
        .submit("S", 3, 7, OrderType::Limit, Side::Bid, 100 * P, 1 * P)
        .unwrap();
    assert_eq!(fills.len(), 1);
    assert_eq!(fills[0].maker_id, 2);
    assert_eq!(fills[0].qty, 1 * P);
    let o = e.cancel("S", 1).expect("own order must still rest");
    assert_eq!(o.remaining, 1 * P);
}

#[test]
fn bad_quantization() {
    let mut e = MatchingEngine::new();
    let r = e.submit("S", 1, 2, OrderType::Limit, Side::Bid, 100 * P + 1, 1 * P);
    assert!(matches!(r, Err(RiskError::PriceOutOfRange)));
    let r = e.submit("S", 1, 2, OrderType::Limit, Side::Bid, 100 * P, 1 * P + 1);
    assert!(matches!(r, Err(RiskError::PriceOutOfRange)));
    assert!(e.get_l2_snapshot("S", 10).unwrap().0.is_empty());
}

#[test]
fn price_range_limits() {
    let mut e = MatchingEngine::new();
    let r = e.submit("S", 1, 2, OrderType::Limit, Side::Bid, 0, 1 * P);
    assert!(matches!(r, Err(RiskError::PriceOutOfRange)));
    let r = e.submit("S", 2, 2, OrderType::Limit, Side::Bid, 1_000_001 * P, 1 * P);
    assert!(matches!(r, Err(RiskError::PriceOutOfRange)));
    assert!(e.submit("S", 3, 2, OrderType::Limit, Side::Bid, 1 * P, 1 * P).is_ok());
    assert!(e.submit("S", 4, 2, OrderType::Limit, Side::Bid, 1_000_000 * P, 1 * P).is_ok());
}

#[test]
fn position_limit_rejects() {
    let mut e = MatchingEngine::new();
    e.set_position_limit(5, 2 * P);
    let r = e.submit("S", 1, 5, OrderType::Limit, Side::Bid, 100 * P, 3 * P);
    assert!(matches!(r, Err(RiskError::PositionLimit)));
    assert!(e.submit("S", 2, 5, OrderType::Limit, Side::Bid, 100 * P, 2 * P).is_ok());
    // users without a configured limit are not gated on size
    assert!(e.submit("S", 3, 6, OrderType::Limit, Side::Bid, 100 * P, 500 * P).is_ok());
}

#[test]
fn rate_limit_exhausts() {
    let mut e = MatchingEngine::new();
    e.set_rate_limit(5, 2);
    assert!(e.submit("S", 1, 5, OrderType::Limit, Side::Bid, 100 * P, 1 * P).is_ok());
    assert!(e.submit("S", 2, 5, OrderType::Limit, Side::Bid, 99 * P, 1 * P).is_ok());
    let r = e.submit("S", 3, 5, OrderType::Limit, Side::Bid, 98 * P, 1 * P);
    assert!(matches!(r, Err(RiskError::RateLimit)));
    // refilling the credit lets the user trade again
    e.set_rate_limit(5, 1);
    assert!(e.submit("S", 4, 5, OrderType::Limit, Side::Bid, 97 * P, 1 * P).is_ok());
}

#[test]
fn market_order_ignores_price_and_discards_rest() {
    let mut e = MatchingEngine::new();
    e.submit("S", 1, 2, OrderType::Limit, Side::Ask, 500 * P, 1 * P).unwrap();
    let fills = e
        .submit("S", 2, 3, OrderType::Market, Side::Bid, 1 * P, 5 * P)
        .unwrap();
    assert_eq!(fills.len(), 1);
    assert_eq!(fills[0].price, 500 * P);
    assert_eq!(fills[0].qty, 1 * P);
    // the unfilled remainder never rests
    let (bids, asks) = e.get_l2_snapshot("S", 10).unwrap();
    assert!(bids.is_empty());
    assert!(asks.is_empty());
}

#[test]
fn ioc_discards_remainder() {
    let mut e = MatchingEngine::new();
    e.submit("S", 1, 2, OrderType::Limit, Side::Ask, 100 * P, 1 * P).unwrap();
    let fills = e
        .submit("S", 2, 3, OrderType::IOC, Side::Bid, 100 * P, 3 * P)
        .unwrap();
    assert_eq!(fills.len(), 1);
    assert_eq!(fills[0].qty, 1 * P);
    let (bids, asks) = e.get_l2_snapshot("S", 10).unwrap();
    assert!(bids.is_empty());
    assert!(asks.is_empty());
}

#[test]
fn limit_remainder_rests() {
    let mut e = MatchingEngine::new();
    e.submit("S", 1, 2, OrderType::Limit, Side::Ask, 100 * P, 1 * P).unwrap();
    let fills = e
        .submit("S", 2, 3, OrderType::Limit, Side::Bid, 100 * P, 3 * P)
        .unwrap();
    assert_eq!(fills.len(), 1);
    let (bids, asks) = e.get_l2_snapshot("S", 10).unwrap();
    assert_eq!(bids, vec![(100 * P, 2 * P)]);
    assert!(asks.is_empty());
}

#[test]
fn cancel_returns_descriptor() {
    let mut e = MatchingEngine::new();
    e.submit("S", 1, 2, OrderType::Limit, Side::Ask, 100 * P, 5 * P).unwrap();
    e.submit("S", 9, 3, OrderType::Limit, Side::Bid, 100 * P, 2 * P).unwrap();
    let o = e.cancel("S", 1).expect("resting");
    assert_eq!(o.id, 1);
    assert_eq!(o.user_id, 2);
    assert_eq!(o.price, 100 * P);
    assert_eq!(o.qty, 5 * P);
    assert_eq!(o.remaining, 3 * P);
    assert!(e.cancel("S", 1).is_none());
    assert!(e.cancel("OTHER", 1).is_none());
}

#[test]
fn modify_resets_time_priority() {
    let mut e = MatchingEngine::new();
    e.submit("S", 1, 2, OrderType::Limit, Side::Ask, 100 * P, 1 * P).unwrap();
    e.submit("S", 2, 3, OrderType::Limit, Side::Ask, 100 * P, 1 * P).unwrap();
    // re-adding id 1 unchanged moves it behind id 2 in the queue
    e.modify("S", 1, None, None);
    let fills = e
        .submit("S", 3, 4, OrderType::Limit, Side::Bid, 100 * P, 1 * P)
        .unwrap();
    assert_eq!(fills[0].maker_id, 2);
}

#[test]
fn modify_identity_preserved() {
    let mut e = MatchingEngine::new();
    e.submit("S", 1, 2, OrderType::Limit, Side::Ask, 100 * P, 5 * P).unwrap();
    e.modify("S", 1, None, None);
    let o = e.cancel("S", 1).expect("still resting");
    assert_eq!(o.id, 1);
    assert_eq!(o.user_id, 2);
    assert_eq!(o.side, Side::Ask);
    assert_eq!(o.price, 100 * P);
    assert_eq!(o.qty, 5 * P);
}

#[test]
fn modify_new_price_and_qty() {
    let mut e = MatchingEngine::new();
    e.submit("S", 1, 2, OrderType::Limit, Side::Ask, 100 * P, 5 * P).unwrap();
    e.modify("S", 1, Some(101 * P), Some(2 * P));
    let (_, asks) = e.get_l2_snapshot("S", 10).unwrap();
    assert_eq!(asks, vec![(101 * P, 2 * P)]);
    let o = e.cancel("S", 1).unwrap();
    assert_eq!(o.qty, 2 * P);
    assert_eq!(o.remaining, 2 * P);
    // modifying a missing id is a silent no-op
    e.modify("S", 42, Some(1 * P), None);
    assert!(e.cancel("S", 42).is_none());
}

#[test]
fn l2_snapshot_depth_and_order() {
    let mut e = MatchingEngine::new();
    e.submit("S", 1, 2, OrderType::Limit, Side::Bid, 100 * P, 1 * P).unwrap();
    e.submit("S", 2, 2, OrderType::Limit, Side::Bid, 102 * P, 2 * P).unwrap();
    e.submit("S", 3, 2, OrderType::Limit, Side::Bid, 101 * P, 3 * P).unwrap();
    e.submit("S", 4, 2, OrderType::Limit, Side::Ask, 103 * P, 1 * P).unwrap();
    e.submit("S", 5, 2, OrderType::Limit, Side::Ask, 105 * P, 2 * P).unwrap();
    let (bids, asks) = e.get_l2_snapshot("S", 2).unwrap();
    assert_eq!(bids, vec![(102 * P, 2 * P), (101 * P, 3 * P)]);
    assert_eq!(asks, vec![(103 * P, 1 * P), (105 * P, 2 * P)]);
    assert!(e.get_l2_snapshot("UNKNOWN", 2).is_none());
}

#[test]
fn l2_aggregates_level_quantities() {
    let mut e = MatchingEngine::new();
    e.submit("S", 1, 2, OrderType::Limit, Side::Bid, 100 * P, 1 * P).unwrap();
    e.submit("S", 2, 3, OrderType::Limit, Side::Bid, 100 * P, 2 * P).unwrap();
    let (bids, _) = e.get_l2_snapshot("S", 10).unwrap();
    assert_eq!(bids, vec![(100 * P, 3 * P)]);
}

#[test]
fn batch_submit_runs_all() {
    let mut e = MatchingEngine::new();
    // batch against an unknown symbol creates no book and returns nothing
    let rs = e.batch_submit("S", vec![(1, 2, OrderType::Limit, Side::Bid, 100 * P, 1 * P)]);
    assert!(rs.is_empty());
    assert!(e.get_l2_snapshot("S", 1).is_none());
    e.submit("S", 1, 2, OrderType::Limit, Side::Ask, 100 * P, 1 * P).unwrap();
    let rs = e.batch_submit(
        "S",
        vec![
            (2, 3, OrderType::Limit, Side::Bid, 100 * P, 1 * P),
            (3, 3, OrderType::Limit, Side::Bid, 100 * P + 1, 1 * P),
            (4, 3, OrderType::Limit, Side::Bid, 99 * P, 1 * P),
        ],
    );
    assert_eq!(rs.len(), 3);
    assert_eq!(rs[0].as_ref().unwrap().len(), 1);
    assert!(matches!(rs[1], Err(RiskError::PriceOutOfRange)));
    assert!(rs[2].as_ref().unwrap().is_empty());
}

#[test]
fn books_are_independent() {
    let mut e = MatchingEngine::new();
    e.submit("A", 1, 2, OrderType::Limit, Side::Ask, 100 * P, 1 * P).unwrap();
    e.submit("B", 2, 3, OrderType::Limit, Side::Bid, 100 * P, 1 * P).unwrap();
    let (bids_a, asks_a) = e.get_l2_snapshot("A", 10).unwrap();
    assert!(bids_a.is_empty());
    assert_eq!(asks_a, vec![(100 * P, 1 * P)]);
    let (bids_b, asks_b) = e.get_l2_snapshot("B", 10).unwrap();
    assert_eq!(bids_b, vec![(100 * P, 1 * P)]);
    assert!(asks_b.is_empty());
}

#[test]
fn failed_submit_creates_empty_book() {
    let mut e = MatchingEngine::new();
    let r = e.submit("S", 1, 2, OrderType::Limit, Side::Bid, 100 * P + 1, 1 * P);
    assert!(r.is_err());
    // the book exists afterwards, empty: submit creates it before validating
    let (bids, asks) = e.get_l2_snapshot("S", 10).unwrap();
    assert!(bids.is_empty());
    assert!(asks.is_empty());
}

#[test]
fn fok_prescan_counts_own_quantity() {
    // the pre-scan counts same-user resting quantity toward feasibility,
    // while the real match skips it, so such a submission can under-fill
    let mut e = MatchingEngine::new();
    e.submit("S", 1, 7, OrderType::Limit, Side::Ask, 100 * P, 1 * P).unwrap();
    e.submit("S", 2, 8, OrderType::Limit, Side::Ask, 101 * P, 1 * P).unwrap();
    let fills = e
        .submit("S", 3, 7, OrderType::FOK, Side::Bid, 101 * P, 2 * P)
        .unwrap();
    let total: u64 = fills.iter().map(|f| f.qty).sum();
    assert_eq!(total, 1 * P);
    assert_eq!(fills[0].maker_id, 2);
}

#[test]
fn l2_total_saturates_instead_of_overflowing() {
    let mut e = MatchingEngine::new();
    let huge = (u64::MAX / PRECISION) * PRECISION;
    e.submit("S", 1, 2, OrderType::Limit, Side::Bid, 100 * P, huge).unwrap();
    e.submit("S", 2, 3, OrderType::Limit, Side::Bid, 100 * P, huge).unwrap();
    let (bids, _) = e.get_l2_snapshot("S", 1).unwrap();
    assert_eq!(bids, vec![(100 * P, u64::MAX)]);
}

#[test]
fn zero_quantity_is_accepted_and_never_rests() {
    let mut e = MatchingEngine::new();
    assert!(e.submit("S", 1, 2, OrderType::Limit, Side::Bid, 100 * P, 0).unwrap().is_empty());
    assert!(e.submit("S", 2, 2, OrderType::PostOnly, Side::Bid, 100 * P, 0).unwrap().is_empty());
    assert!(e.submit("S", 3, 2, OrderType::Market, Side::Bid, 100 * P, 0).unwrap().is_empty());
    assert!(e.submit("S", 4, 2, OrderType::IOC, Side::Ask, 100 * P, 0).unwrap().is_empty());
    assert!(e.submit("S", 5, 2, OrderType::FOK, Side::Ask, 100 * P, 0).unwrap().is_empty());
    let (bids, asks) = e.get_l2_snapshot("S", 10).unwrap();
    assert!(bids.is_empty());
    assert!(asks.is_empty());
    assert!(e.cancel("S", 2).is_none());
}

#[test]
fn zero_quantity_still_consumes_rate_credit() {
    let mut e = MatchingEngine::new();
    e.set_rate_limit(5, 1);
    assert!(e.submit("S", 1, 5, OrderType::Limit, Side::Bid, 100 * P, 0).is_ok());
    let r = e.submit("S", 2, 5, OrderType::Limit, Side::Bid, 100 * P, 1 * P);
    assert!(matches!(r, Err(RiskError::RateLimit)));
}
