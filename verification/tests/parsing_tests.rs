use order_book::decimal::parse_fixed_point;
use order_book::messages::{message_type, subscription_for, TypeOfUpdate};
use order_book::order_book::{level_api_to_level, MalformedLevel};
use order_book::messages::LevelApi;
use order_book::price_level::Level;

const ATOMS: u64 = 100_000_000;

#[test]
fn parses_plain_integers() {
    assert_eq!(parse_fixed_point("1"), Some(ATOMS));
    assert_eq!(parse_fixed_point("0"), Some(0));
    assert_eq!(parse_fixed_point("100500"), Some(100_500 * ATOMS));
}

#[test]
fn parses_decimal_fractions_exactly() {
    assert_eq!(parse_fixed_point("5.0009"), Some(500_090_000));
    assert_eq!(parse_fixed_point("0.00000001"), Some(1));
    assert_eq!(parse_fixed_point("0.1"), Some(10_000_000));
    assert_eq!(parse_fixed_point("12.34500000"), Some(1_234_500_000));
}

#[test]
fn parses_the_largest_representable_value() {
    assert_eq!(parse_fixed_point("184467440737.09551615"), Some(u64::MAX));
    assert_eq!(parse_fixed_point("184467440737.09551616"), None);
    assert_eq!(parse_fixed_point("200000000000"), None);
}

#[test]
fn rejects_malformed_tokens() {
    assert_eq!(parse_fixed_point(""), None);
    assert_eq!(parse_fixed_point("abc"), None);
    assert_eq!(parse_fixed_point("NaN"), None);
    assert_eq!(parse_fixed_point("1."), None);
    assert_eq!(parse_fixed_point(".5"), None);
    assert_eq!(parse_fixed_point("1.2.3"), None);
    assert_eq!(parse_fixed_point("-1"), None);
    assert_eq!(parse_fixed_point("1,5"), None);
    // more fraction digits than the representation carries
    assert_eq!(parse_fixed_point("1.123456789"), None);
}

#[test]
fn level_parsing_surfaces_malformed_level() {
    let good = LevelApi { price: "5".to_string(), quantity: "1".to_string() };
    assert_eq!(
        level_api_to_level(&good),
        Ok(Level { quantity: ATOMS, price: 5 * ATOMS })
    );

    let bad_price = LevelApi { price: "x".to_string(), quantity: "1".to_string() };
    assert_eq!(level_api_to_level(&bad_price), Err(MalformedLevel));

    let bad_quantity = LevelApi { price: "5".to_string(), quantity: "".to_string() };
    assert_eq!(level_api_to_level(&bad_quantity), Err(MalformedLevel));
}

#[test]
fn classifies_stream_frames() {
    assert_eq!(
        message_type(r#"{"e":"depthUpdate","E":123,"s":"BTCUSDT"}"#),
        TypeOfUpdate::MD
    );
    assert_eq!(
        message_type(r#"{"e":"bookTicker","s":"BTCUSDT"}"#),
        TypeOfUpdate::Ticker
    );
    assert_eq!(
        message_type(r#"{"e":"aggTrade","s":"BTCUSDT"}"#),
        TypeOfUpdate::AggTrade
    );
    // an acknowledgement carries the request id and wins over everything
    assert_eq!(
        message_type(r#"{"result":null,"id":"btcusdt_17"}"#),
        TypeOfUpdate::Other
    );
    assert_eq!(message_type("hello"), TypeOfUpdate::Other);
    assert_eq!(message_type(""), TypeOfUpdate::Other);
}

#[test]
fn subscription_lists_the_three_topics() {
    let sub = subscription_for("btcusdt", "btcusdt_17".to_string());
    assert_eq!(sub.method, "SUBSCRIBE");
    assert_eq!(
        sub.params,
        vec![
            "btcusdt@depth".to_string(),
            "btcusdt@aggTrade".to_string(),
            "btcusdt@bookTicker".to_string()
        ]
    );
    assert_eq!(sub.id, "btcusdt_17");
}
