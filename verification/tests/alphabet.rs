use lsystem::alphabet::{contains_3d_symbols, validate_bracket_balance, validate_symbols};
use lsystem::config::{ConfigError, Dimensions};

#[test]
fn recognizes_all_3d_symbols() {
    assert!(contains_3d_symbols("F&F"));
    assert!(contains_3d_symbols("F^F"));
    assert!(contains_3d_symbols("F/F"));
    assert!(contains_3d_symbols("F\\F"));
}

#[test]
fn returns_false_for_2d_only_strings() {
    assert!(!contains_3d_symbols("F+F-F|[]"));
}

// --- Further cases ---

#[test]
fn letters_and_universal_terminals_are_valid_in_2d() {
    assert_eq!(validate_symbols("AbZ F+-|[]f", "x", Dimensions::TwoD).is_ok(), false);
    assert!(validate_symbols("AbZF+-|[]f", "x", Dimensions::TwoD).is_ok());
}

#[test]
fn three_d_symbols_are_rejected_in_2d_and_accepted_in_3d() {
    assert!(validate_symbols("F&^/\\", "x", Dimensions::ThreeD).is_ok());
    assert_eq!(
        validate_symbols("FF^F", "l-system.rules.F", Dimensions::TwoD),
        Err(ConfigError::InvalidSymbol {
            ch: '^',
            field: "l-system.rules.F".to_string(),
            position: 2
        })
    );
}

#[test]
fn symbol_positions_count_characters() {
    assert_eq!(
        validate_symbols("ää1", "start", Dimensions::TwoD),
        Err(ConfigError::InvalidSymbol { ch: 'ä', field: "start".to_string(), position: 0 })
    );
    assert_eq!(
        validate_symbols("Fä", "start", Dimensions::ThreeD),
        Err(ConfigError::InvalidSymbol { ch: 'ä', field: "start".to_string(), position: 1 })
    );
}

#[test]
fn balanced_brackets_are_accepted() {
    assert!(validate_bracket_balance("", "f").is_ok());
    assert!(validate_bracket_balance("F[+F[-F]F]F[F]", "f").is_ok());
}

#[test]
fn first_unmatched_close_is_reported() {
    assert_eq!(
        validate_bracket_balance("F]F]", "f"),
        Err(ConfigError::UnmatchedClose { field: "f".to_string(), position: 1 })
    );
    assert_eq!(
        validate_bracket_balance("[F]]", "f"),
        Err(ConfigError::UnmatchedClose { field: "f".to_string(), position: 3 })
    );
}

#[test]
fn outermost_unclosed_open_is_reported() {
    assert_eq!(
        validate_bracket_balance("F[F[F]", "f"),
        Err(ConfigError::UnmatchedOpen { field: "f".to_string(), position: 1 })
    );
    assert_eq!(
        validate_bracket_balance("[F][F[", "f"),
        Err(ConfigError::UnmatchedOpen { field: "f".to_string(), position: 3 })
    );
}
