use prediction_market::{ContractError, OrderStatus, TrailingStopContract};

fn s(text: &str) -> String {
    text.to_string()
}

/// A book with one order of `user`: deposit 1000 (net 980), 10% trail, opened at price 100.
fn book_with_order() -> TrailingStopContract {
    let mut book = TrailingStopContract::new();
    let id = book.create_order(10, s("user"), s("ASSET"), s("TOKEN"), 1000, 1000, Some(100)).unwrap();
    assert_eq!(id, 1);
    book
}

#[test]
fn test_contract_initialization() {
    let book = TrailingStopContract::new();
    assert_eq!(book.get_total_orders(), 0);
}

#[test]
fn test_order_creation() {
    let mut book = TrailingStopContract::new();
    let order_id = book.create_order(0, s("user"), s("asset"), s("token"), 1000, 1000, Some(1_000_000)).unwrap();
    assert_eq!(order_id, 1);
    assert_eq!(book.get_total_orders(), 1);
}

#[test]
fn new_order_keeps_fee_and_sets_stop() {
    let book = book_with_order();
    let o = book.get_order_by_id(1).unwrap();
    assert_eq!(o.amount, 980);
    assert_eq!(o.initial_price, 100);
    assert_eq!(o.highest_price, 100);
    assert_eq!(o.current_stop_price, 90);
    assert_eq!(o.status, OrderStatus::Active);
    assert!(book.get_order_by_id(2).is_none());
}

#[test]
fn create_order_errors() {
    let mut book = TrailingStopContract::new();
    assert_eq!(book.create_order(0, s("u"), s("a"), s("t"), 0, 1000, Some(100)), Err(ContractError::InvalidAmount));
    assert_eq!(book.create_order(0, s("u"), s("a"), s("t"), 10, 0, Some(100)), Err(ContractError::InvalidTrailPercentage));
    assert_eq!(book.create_order(0, s("u"), s("a"), s("t"), 10, 5001, Some(100)), Err(ContractError::InvalidTrailPercentage));
    assert_eq!(book.create_order(0, s("u"), s("a"), s("t"), 10, 1000, None), Err(ContractError::PriceNotAvailable));
    assert_eq!(book.create_order(0, s("u"), s("a"), s("t"), i128::MAX, 1000, Some(100)), Err(ContractError::InternalError));
    assert_eq!(book.get_total_orders(), 0);
}

#[test]
fn stop_follows_new_highs_and_executes() {
    let mut book = book_with_order();
    assert_eq!(book.check_order(20, 1, Some(120), 5000), Ok(None));
    let o = book.get_order_by_id(1).unwrap();
    assert_eq!((o.highest_price, o.current_stop_price, o.updated_at), (120, 108, 20));
    assert_eq!(book.check_order(30, 1, Some(110), 5000), Ok(None));
    assert_eq!(book.check_order(35, 1, None, 5000), Ok(None));
    // Executes at 108: +800 bps on 980 is 78, so 1058.
    assert_eq!(book.check_order(40, 1, Some(108), 5000), Ok(Some(1058)));
    let o = book.get_order_by_id(1).unwrap();
    assert_eq!(o.status, OrderStatus::Executed);
    assert_eq!(o.execution_price, Some(108));
    assert_eq!(o.executed_at, Some(40));
    assert_eq!(book.check_order(50, 1, Some(50), 5000), Err(ContractError::OrderNotActive));
    assert_eq!(book.check_order(50, 9, Some(50), 5000), Err(ContractError::OrderNotFound));
}

#[test]
fn payout_is_capped_by_balance_and_clamped() {
    let mut book = book_with_order();
    assert_eq!(book.check_order(20, 1, Some(108), 500), Ok(None));
    assert_eq!(book.check_order(20, 1, Some(90), 500), Ok(Some(500)));

    let mut book = book_with_order();
    // -6000 bps clamps to -5000: 980 - 490.
    assert_eq!(book.check_order(20, 1, Some(40), 5000), Ok(Some(490)));
}

#[test]
fn emergency_sale_takes_commission_on_profit() {
    let mut book = book_with_order();
    assert_eq!(book.set_emergency_commission_rate(1001), Err(ContractError::InvalidTrailPercentage));
    assert_eq!(book.set_emergency_commission_rate(500), Ok(()));
    assert_eq!(book.get_emergency_commission_rate(), 500);
    assert_eq!(book.emergency_sell_order(20, &s("other"), 1, Some(150), 10_000), Err(ContractError::Unauthorized));
    assert_eq!(book.emergency_sell_order(20, &s("user"), 1, None, 10_000), Err(ContractError::PriceNotAvailable));
    // +5000 bps: profit 490, commission 24, so 980 + 490 - 24.
    assert_eq!(book.emergency_sell_order(20, &s("user"), 1, Some(150), 10_000), Ok(1446));
    assert_eq!(book.emergency_sell_order(20, &s("user"), 1, Some(150), 10_000), Err(ContractError::OrderNotActive));
    // Beyond +200% the gain is clamped: 980 + 1960 - 98.
    let mut book = book_with_order();
    book.set_emergency_commission_rate(500).unwrap();
    assert_eq!(book.emergency_sell_order(20, &s("user"), 1, Some(1000), 10_000), Ok(2842));
}

#[test]
fn cancel_returns_net_deposit() {
    let mut book = book_with_order();
    assert_eq!(book.cancel_order(20, &s("other"), 1), Err(ContractError::Unauthorized));
    assert_eq!(book.cancel_order(20, &s("user"), 1), Ok(980));
    assert_eq!(book.get_order_by_id(1).unwrap().status, OrderStatus::Cancelled);
    assert_eq!(book.cancel_order(20, &s("user"), 1), Err(ContractError::OrderNotActive));
    assert_eq!(book.cancel_order(20, &s("user"), 2), Err(ContractError::OrderNotFound));
}

#[test]
fn listings_and_liquidity() {
    let mut book = book_with_order();
    book.create_order(11, s("other"), s("ASSET"), s("TOKEN"), 1000, 500, Some(100)).unwrap();
    book.create_order(12, s("user"), s("ASSET"), s("TOKEN"), 1000, 500, Some(100)).unwrap();
    book.cancel_order(13, &s("user"), 3).unwrap();
    assert_eq!(book.get_all_active_orders(), vec![1, 2]);
    let mine: Vec<u64> = book.get_user_orders(&s("user")).iter().map(|o| o.id).collect();
    assert_eq!(mine, vec![1, 3]);
    let active: Vec<u64> = book.get_user_active_orders(&s("user")).iter().map(|o| o.id).collect();
    assert_eq!(active, vec![1]);
    // Two active orders of 980: at most 5880 owed.
    assert_eq!(book.check_liquidity_needs(2000), Some(3880));
    assert_eq!(book.check_liquidity_needs(10_000), Some(0));
    assert_eq!(book.get_commission_info(2000), Some((2000, 0)));
    assert_eq!(book.get_commission_info(10_000), Some((10_000, 10_000)));
    assert_eq!(book.check_liquidity_needs(i128::MIN), None);
}
