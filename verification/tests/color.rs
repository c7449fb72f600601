use tran::config::Color;
use tran::errors::TranError;

#[test]
fn parses_hex_with_and_without_hash() {
    let a = Color::try_from_hex_str("#1A2b3C").unwrap();
    let b = Color::try_from_hex_str("1a2B3c").unwrap();
    assert_eq!(a.bytes(), (0x1a, 0x2b, 0x3c));
    assert_eq!(a, b);
    assert_eq!(a.to_string(), "#1a2b3c");
}

#[test]
fn rejects_what_is_no_hex_color() {
    for text in ["", "#", "12345", "1234567", "#12345", "#1234567", "x112233", "+f+f+f", "#12345g", "é12345"] {
        let res = Color::try_from_hex_str(text);
        assert!(matches!(res, Err(TranError::ConfigError(_))), "{}", text);
    }
}

#[test]
fn converts_by_the_standard_traits() {
    let c = Color::try_from("#0A0b0C").unwrap();
    assert_eq!(c, Color::from_bytes(10, 11, 12));
    assert_eq!(String::from(c), "#0a0b0c");
    let text: String = c.into();
    assert_eq!(text, "#0a0b0c");
    assert!(matches!(Color::try_from("#0A0b0"), Err(TranError::ConfigError(_))));
}

#[test]
fn black_and_white() {
    assert_eq!(Color::black().bytes(), (0, 0, 0));
    assert_eq!(Color::white().bytes(), (255, 255, 255));
    assert_eq!(Color::black().to_string(), "#000000");
    assert_eq!(Color::white().to_string(), "#ffffff");
}

#[test]
fn display_is_stable() {
    for text in ["#ABCDEF", "abcdef", "#09AFaf", "000000", "#FfFfFf"] {
        let first = Color::try_from_hex_str(text).unwrap();
        let shown = first.to_string();
        assert_eq!(shown.len(), 7);
        assert!(shown.starts_with('#'));
        assert!(shown[1..].chars().all(|c| c.is_ascii_digit() || ('a'..='f').contains(&c)));
        assert_eq!(shown[1..], text.trim_start_matches('#').to_lowercase());
        let second = Color::try_from_hex_str(&shown).unwrap();
        assert_eq!(first, second);
        assert_eq!(second.to_string(), shown);
    }
}
