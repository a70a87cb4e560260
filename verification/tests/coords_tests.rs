use gsxman::coords::{parse_coordinate, parse_position, GeoPosition};

#[test]
fn parses_plain_decimals() {
    assert_eq!(parse_coordinate("47.45"), Some(47_450_000));
    assert_eq!(parse_coordinate("8.56"), Some(8_560_000));
    assert_eq!(parse_coordinate("0"), Some(0));
    assert_eq!(parse_coordinate("180"), Some(180_000_000));
}

#[test]
fn parses_signs_and_bare_points() {
    assert_eq!(parse_coordinate("-47.45"), Some(-47_450_000));
    assert_eq!(parse_coordinate("+8.5"), Some(8_500_000));
    assert_eq!(parse_coordinate(".5"), Some(500_000));
    assert_eq!(parse_coordinate("5."), Some(5_000_000));
    assert_eq!(parse_coordinate("-.25"), Some(-250_000));
}

#[test]
fn truncates_beyond_six_fraction_digits() {
    assert_eq!(parse_coordinate("1.2345678"), Some(1_234_567));
    assert_eq!(parse_coordinate("0.0000009"), Some(0));
}

#[test]
fn rejects_malformed_tokens() {
    assert_eq!(parse_coordinate(""), None);
    assert_eq!(parse_coordinate("."), None);
    assert_eq!(parse_coordinate("-"), None);
    assert_eq!(parse_coordinate("abc"), None);
    assert_eq!(parse_coordinate("4.5.6"), None);
    assert_eq!(parse_coordinate("4a"), None);
    assert_eq!(parse_coordinate("4 5"), None);
}

#[test]
fn rejects_oversized_integer_parts() {
    assert_eq!(parse_coordinate("1000000000000"), None);
    assert_eq!(parse_coordinate("999999999999"), Some(999_999_999_999_000_000));
}

#[test]
fn position_is_first_two_tokens() {
    assert_eq!(
        parse_position("47.45 8.56"),
        GeoPosition { lat_micro: 47_450_000, lon_micro: 8_560_000 }
    );
}

#[test]
fn position_falls_back_to_origin() {
    let origin = GeoPosition { lat_micro: 0, lon_micro: 0 };
    assert_eq!(parse_position("47.45"), origin);
    assert_eq!(parse_position(""), origin);
    assert_eq!(parse_position("abc def"), origin);
    assert_eq!(parse_position("47.45 def"), origin);
    assert_eq!(parse_position("47.45  8.56"), origin);
}
