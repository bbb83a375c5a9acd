use bolt_dirk::endpoint::{participant_url, Endpoint};
use bolt_dirk::engine_hints::parse_nethermind_engine_error_hint;
use bolt_dirk::error::DirkError;
use bolt_dirk::text::push_decimal;

fn endpoint(name: &str, port: u32, id: u64) -> Endpoint {
    Endpoint { name: name.to_string(), port, id }
}

#[test]
fn participant_url_is_https_name_port() {
    assert_eq!(participant_url(&endpoint("dirk1.example.com", 9091, 1)), "https://dirk1.example.com:9091");
}

#[test]
fn participant_url_does_not_depend_on_the_id() {
    assert_eq!(
        participant_url(&endpoint("signer", 13141, 1)),
        participant_url(&endpoint("signer", 13141, 77)),
    );
}

#[test]
fn participant_url_with_extreme_ports() {
    assert_eq!(participant_url(&endpoint("localhost", 0, 1)), "https://localhost:0");
    assert_eq!(participant_url(&endpoint("localhost", 7, 1)), "https://localhost:7");
    assert_eq!(participant_url(&endpoint("localhost", 10, 1)), "https://localhost:10");
    assert_eq!(participant_url(&endpoint("localhost", u32::MAX, 1)), "https://localhost:4294967295");
}

#[test]
fn participant_url_keeps_the_name_as_it_is() {
    assert_eq!(participant_url(&endpoint("", 443, 1)), "https://:443");
    assert_eq!(participant_url(&endpoint("10.0.0.7", 443, 1)), "https://10.0.0.7:443");
    assert_eq!(participant_url(&endpoint("h\u{f6}st", 1, 1)), "https://h\u{f6}st:1");
}

#[test]
fn push_decimal_appends_the_numeral() {
    let mut text = String::from("n=");
    push_decimal(&mut text, 0);
    assert_eq!(text, "n=0");
    push_decimal(&mut text, 1234567890);
    assert_eq!(text, "n=01234567890");
    let mut long = String::new();
    push_decimal(&mut long, u64::MAX);
    assert_eq!(long, "18446744073709551615");
    let mut round = String::new();
    push_decimal(&mut round, 1000);
    assert_eq!(round, "1000");
}

#[test]
fn error_messages() {
    assert_eq!(
        DirkError::InsufficientSignatures { got: 1, expected: 2 }.message(),
        "Insufficient signatures: got 1, expected 2"
    );
    assert_eq!(
        DirkError::InsufficientSignatures { got: 0, expected: 120 }.message(),
        "Insufficient signatures: got 0, expected 120"
    );
    assert_eq!(
        DirkError::Aggregation.message(),
        "Failed to recover the combined signature from partial signatures"
    );
    assert_eq!(DirkError::Validation.message(), "Invalid composite public key");
}

#[test]
fn nethermind_messages_hold_no_hint_yet() {
    assert_eq!(parse_nethermind_engine_error_hint(""), Ok(None));
    assert_eq!(
        parse_nethermind_engine_error_hint("local: blockhash mismatch: got 0x01 expected 0x02"),
        Ok(None)
    );
}
