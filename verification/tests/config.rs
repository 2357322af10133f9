use lsystem::config::{LineColorConfig, Rgb, RgbError};

// --- Parsing ---

#[test]
fn try_from_accepts_lowercase_hex() {
    let hex = Rgb::from_hex("#00e680").unwrap();
    assert_eq!(hex.r(), 0x00);
    assert_eq!(hex.g(), 0xe6);
    assert_eq!(hex.b(), 0x80);
}

#[test]
fn try_from_accepts_uppercase_hex() {
    let hex = Rgb::from_hex("#00E680").unwrap();
    assert_eq!(hex.r(), 0x00);
    assert_eq!(hex.g(), 0xe6);
    assert_eq!(hex.b(), 0x80);
}

#[test]
fn try_from_string_accepts_lowercase_hex() {
    let hex = Rgb::from_hex_string(String::from("#00e680")).unwrap();
    assert_eq!(hex, Rgb::new(0x00, 0xe6, 0x80));
}

// --- Display ---

#[test]
fn display_emits_canonical_lowercase() {
    assert_eq!(Rgb::new(0x00, 0xe6, 0x80).to_hex_string(), "#00e680");
    assert_eq!(Rgb::new(0xAB, 0xCD, 0xEF).to_hex_string(), "#abcdef");
    assert_eq!(Rgb::new(0x00, 0x00, 0x00).to_hex_string(), "#000000");
}

// --- Rejection cases ---

#[test]
fn try_from_rejects_missing_leading_hash() {
    assert_eq!(Rgb::from_hex("00e680"), Err(RgbError));
}

#[test]
fn try_from_rejects_too_short() {
    // 5 hex chars after #
    assert_eq!(Rgb::from_hex("#0e680"), Err(RgbError));
}

#[test]
fn try_from_rejects_too_long() {
    // 7 hex chars after #
    assert_eq!(Rgb::from_hex("#00e6800"), Err(RgbError));
}

#[test]
fn try_from_rejects_non_hex_character() {
    assert_eq!(Rgb::from_hex("#00g680"), Err(RgbError));
    assert_eq!(Rgb::from_hex("#zzzzzz"), Err(RgbError));
}

#[test]
fn try_from_rejects_shorthand() {
    // #rgb — 3 chars
    assert_eq!(Rgb::from_hex("#0e6"), Err(RgbError));
}

#[test]
fn try_from_rejects_alpha_form() {
    // #rrggbbaa — 8 chars
    assert_eq!(Rgb::from_hex("#00e680ff"), Err(RgbError));
}

#[test]
fn try_from_rejects_full_width_lookalikes() {
    // Full-width '#' (U+FF03) followed by 6 ASCII hex chars
    assert_eq!(Rgb::from_hex("\u{FF03}00e680"), Err(RgbError));
    // Full-width digits
    assert_eq!(Rgb::from_hex("#\u{FF10}\u{FF10}e680"), Err(RgbError));
}

#[test]
fn try_from_rejects_non_ascii_same_byte_length() {
    // Two 3-byte UTF-8 chars → 6 bytes total
    assert_eq!(Rgb::from_hex("#\u{0800}\u{0800}"), Err(RgbError));
}

#[test]
fn try_from_rejects_empty_string() {
    assert_eq!(Rgb::from_hex(""), Err(RgbError));
}

// --- Further cases ---

#[test]
fn sign_characters_are_not_hex_digits() {
    assert_eq!(Rgb::from_hex("#+f+f+f"), Err(RgbError));
    assert_eq!(Rgb::from_hex("#-10000"), Err(RgbError));
}

#[test]
fn printed_colour_parses_back_to_itself() {
    for (r, g, b) in [(0, 0, 0), (255, 255, 255), (0x12, 0xab, 0x9f), (1, 2, 3)] {
        let c = Rgb::new(r, g, b);
        assert_eq!(Rgb::from_hex(&c.to_hex_string()), Ok(c));
    }
}

#[test]
fn mixed_case_digits_parse() {
    assert_eq!(Rgb::from_hex("#aBcDeF"), Ok(Rgb::new(0xab, 0xcd, 0xef)));
}

#[test]
fn only_depth_gradients_need_topological_depth() {
    let c = Rgb::new(1, 2, 3);
    assert!(LineColorConfig::Gradient { start: c, end: c, topological_depth: true }
        .needs_topological_depth());
    assert!(!LineColorConfig::Gradient { start: c, end: c, topological_depth: false }
        .needs_topological_depth());
    assert!(!LineColorConfig::Solid(c).needs_topological_depth());
    assert!(!LineColorConfig::HueCycle { initial: c }.needs_topological_depth());
}
