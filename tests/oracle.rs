use prediction_market::{ContractError, OracleContract, PriceData};

fn d(price: i128) -> PriceData {
    PriceData { price, timestamp: 1 }
}

#[test]
fn latest_price_or_not_available() {
    assert_eq!(OracleContract::get_price(Some(d(5))), Ok(5));
    assert_eq!(OracleContract::get_price(None), Err(ContractError::PriceNotAvailable));
}

#[test]
fn usd_conversion_truncates_toward_zero() {
    assert_eq!(OracleContract::get_price_usd(1_234_567_890_000), 12_345);
    assert_eq!(OracleContract::get_price_usd(-150_000_000), -1);
    assert_eq!(OracleContract::get_price_usd(99_999_999), 0);
}

#[test]
fn decimal_conversion_both_ways() {
    assert_eq!(OracleContract::get_price_with_decimals(123_456, 4, 2), Ok(1_234));
    assert_eq!(OracleContract::get_price_with_decimals(-123_456, 4, 2), Ok(-1_234));
    assert_eq!(OracleContract::get_price_with_decimals(12, 2, 5), Ok(12_000));
    assert_eq!(OracleContract::get_price_with_decimals(5, 0, 0), Ok(5));
    assert_eq!(OracleContract::get_price_with_decimals(i128::MAX, 0, 1), Err(ContractError::InvalidThreshold));
    assert_eq!(OracleContract::get_price_with_decimals(0, 0, 60), Ok(0));
    assert_eq!(OracleContract::get_price_with_decimals(1, 0, 60), Err(ContractError::InvalidThreshold));
    assert_eq!(OracleContract::get_price_with_decimals(i128::MAX, 60, 0), Ok(0));
}

#[test]
fn change_percentage_of_latest_records() {
    assert_eq!(OracleContract::get_price_change_percentage(Some(vec![d(110), d(100)])), Ok(10));
    assert_eq!(OracleContract::get_price_change_percentage(Some(vec![d(95), d(100)])), Ok(-5));
    assert_eq!(OracleContract::get_price_change_percentage(Some(vec![d(95)])), Err(ContractError::InsufficientData));
    assert_eq!(OracleContract::get_price_change_percentage(None), Err(ContractError::InsufficientData));
    assert_eq!(OracleContract::get_price_change_percentage(Some(vec![d(5), d(0)])), Err(ContractError::InvalidThreshold));
}

#[test]
fn alert_band_checks() {
    assert_eq!(OracleContract::check_price_alert(Some(d(10)), 5, 10), Ok(true));
    assert_eq!(OracleContract::check_price_alert(Some(d(11)), 5, 10), Ok(false));
    assert_eq!(OracleContract::check_price_alert(None, 5, 10), Err(ContractError::PriceNotAvailable));
    assert_eq!(OracleContract::check_price_alert(None, 10, 10), Err(ContractError::InvalidThreshold));
    assert_eq!(OracleContract::validate_price(Some(d(5)), 5, 10), Ok(true));
}

#[test]
fn debug_info_and_batches() {
    assert_eq!(OracleContract::debug_price_info(123_456_789_012, 14), (123_456_789_012, 14, 1_234));
    assert_eq!(OracleContract::debug_price_info(1_234, 2), (1_234, 2, 12));
    assert_eq!(OracleContract::get_multiple_prices(&vec![Some(d(3)), None, Some(d(-4))]), vec![3, 0, -4]);
}
