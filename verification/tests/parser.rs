use trading_engine::decimal::Dec;
use trading_engine::parser::{calculate_trade_value, parse_price, parse_side, parse_size, ParseError};

#[test]
fn test_parse_side() {
    assert_eq!(parse_side("A"), "SELL");
    assert_eq!(parse_side("B"), "BUY");
    assert_eq!(parse_side("X"), "UNKNOWN");
    assert_eq!(parse_side(""), "UNKNOWN");
}

#[test]
fn parser_test_parse_side() {
    assert_eq!(trading_engine::detector::parse_side("A"), "SELL");
    assert_eq!(trading_engine::detector::parse_side("B"), "BUY");
    assert_eq!(trading_engine::detector::parse_side("X"), "UNKNOWN");
}

#[test]
fn test_parse_price() {
    assert_eq!(parse_price("42000.5").unwrap(), Dec::from_units(42_000_500_000_000_000));
    assert!(parse_price("invalid").is_err());
    assert_eq!(
        parse_price("invalid").unwrap_err(),
        ParseError::Price("Invalid decimal: unknown character".to_string())
    );
    assert!(parse_price("-100.0").is_ok());
}

#[test]
fn test_parse_size() {
    assert_eq!(parse_size("10.5").unwrap(), Dec::from_units(10_500_000_000_000));
    assert!(parse_size("invalid").is_err());
    assert_eq!(
        parse_size("invalid").unwrap_err(),
        ParseError::Size("Invalid decimal: unknown character".to_string())
    );
    assert!(parse_size("-5.0").is_ok()); // Assuming size can be negative for some reason
}

#[test]
fn test_calculate_trade_value() {
    assert_eq!(calculate_trade_value("100.0", "2.5").unwrap(), Dec::from_units(250_000_000_000_000));
    assert_eq!(calculate_trade_value("100.0", "0").unwrap(), Dec::from_units(0));
    assert_eq!(calculate_trade_value("0", "2.5").unwrap(), Dec::from_units(0));
    assert!(calculate_trade_value("abc", "2.5").is_err());
    assert!(calculate_trade_value("100.0", "xyz").is_err());
}

#[test]
fn parse_price_fine_scale_rounds_half_even() {
    // 13 fractional digits: the last one rounds half-to-even into the fixed scale.
    assert_eq!(parse_price("0.0000000000015").unwrap(), Dec::from_units(2));
    assert_eq!(parse_price("0.0000000000025").unwrap(), Dec::from_units(2));
    assert_eq!(parse_price("0.0000000000026").unwrap(), Dec::from_units(3));
}

#[test]
fn parse_price_empty_is_error() {
    assert_eq!(
        parse_price("").unwrap_err(),
        ParseError::Price("Invalid decimal: empty".to_string())
    );
}
