use std::collections::BTreeMap;

use lsystem::config::{ConfigError, Dimensions, LineColorConfig, Rgb};
use lsystem::config_defaults::{
    parse_rgb, ColorDefaults, DefaultLineColorMode, GradientDefaults, HueCycleDefaults,
    LineColorDefaults,
};
use lsystem::editor_config::{parse_grammar, EditorColorConfig, EditorLineColorConfig, RawLineColor};
use lsystem::ruleset::has_stack_directives;

fn hex(s: &str) -> Rgb {
    Rgb::from_hex(s).unwrap()
}

fn rules(entries: &[(&str, &str)]) -> Vec<(String, String)> {
    entries.iter().map(|(k, v)| (k.to_string(), v.to_string())).collect()
}

fn grammar(
    dimensions: Dimensions,
    start: &str,
    entries: &[(&str, &str)],
) -> Result<(String, BTreeMap<char, String>), ConfigError> {
    parse_grammar(dimensions, start, "axiom", &rules(entries))
}

fn custom_defaults() -> ColorDefaults {
    ColorDefaults {
        background: hex("#112233"),
        line: LineColorDefaults {
            default: DefaultLineColorMode::Solid,
            solid: hex("#445566"),
            gradient: GradientDefaults {
                start: hex("#123456"),
                end: hex("#abcdef"),
                topological_depth: true,
            },
            hue_cycle: HueCycleDefaults { initial: hex("#fedcba") },
        },
    }
}

#[test]
fn strips_whitespace_from_axiom() {
    let (start, rules) = grammar(Dimensions::TwoD, "F + + F", &[("F", "F - F")]).unwrap();
    assert_eq!(start, "F++F");
    assert_eq!(rules[&'F'], "F-F");
}

#[test]
fn rejects_digit_in_axiom() {
    let err = grammar(Dimensions::TwoD, "F+1", &[]).unwrap_err();
    assert!(matches!(err, ConfigError::InvalidSymbol { ch: '1', .. }), "unexpected error: {err:?}");
}

#[test]
fn rejects_multi_char_rule_key() {
    let err = grammar(Dimensions::TwoD, "F", &[("FF", "FFF")]).unwrap_err();
    assert!(matches!(err, ConfigError::InvalidRuleKey { .. }), "unexpected error: {err:?}");
}

#[test]
fn accepts_dimensions_3_with_3d_symbols() {
    grammar(Dimensions::ThreeD, "F&F^F/F", &[]).expect("3D config with 3D symbols should be valid");
}

#[test]
fn rejects_3d_symbols_in_2d_config() {
    let err = grammar(Dimensions::TwoD, "F&F", &[]).unwrap_err();
    assert!(matches!(err, ConfigError::InvalidSymbol { ch: '&', .. }), "unexpected error: {err:?}");
}

#[test]
fn rejects_unmatched_close_bracket_in_axiom() {
    let err = grammar(Dimensions::TwoD, "F]F", &[]).unwrap_err();
    assert!(
        matches!(err, ConfigError::UnmatchedClose { position: 1, .. }),
        "unexpected error: {err:?}"
    );
}

#[test]
fn rejects_unclosed_open_bracket_in_axiom() {
    let err = grammar(Dimensions::TwoD, "F[F", &[]).unwrap_err();
    assert!(
        matches!(err, ConfigError::UnmatchedOpen { position: 1, .. }),
        "unexpected error: {err:?}"
    );
}

#[test]
fn reports_first_unclosed_bracket_not_last() {
    let err = grammar(Dimensions::TwoD, "F[F[F", &[]).unwrap_err();
    assert!(
        matches!(err, ConfigError::UnmatchedOpen { position: 1, .. }),
        "unexpected error: {err:?}"
    );
}

#[test]
fn rejects_unbalanced_brackets_in_rule() {
    let err = grammar(Dimensions::TwoD, "F", &[("F", "F[+F")]).unwrap_err();
    assert!(matches!(err, ConfigError::UnmatchedOpen { .. }), "unexpected error: {err:?}");
}

#[test]
fn has_stack_directives_false_for_bracketless() {
    let (start, rules) = grammar(Dimensions::TwoD, "F-F++F-F", &[("F", "F-F++F-F")]).unwrap();
    assert!(!has_stack_directives(&start, &rules));
}

#[test]
fn has_stack_directives_true_when_axiom_has_bracket() {
    let (start, rules) = grammar(Dimensions::TwoD, "F[+F]F", &[]).unwrap();
    assert!(has_stack_directives(&start, &rules));
}

#[test]
fn has_stack_directives_true_when_rule_has_bracket() {
    let (start, rules) = grammar(Dimensions::TwoD, "F", &[("F", "F[+F]F[-F]F")]).unwrap();
    assert!(has_stack_directives(&start, &rules));
}

#[test]
fn editor_gradient_resolves_from_supplied_defaults_not_rust_constants() {
    let defaults = custom_defaults();
    let resolved = EditorLineColorConfig::Gradient { start: None, end: None, topological_depth: None }
        .resolve(&defaults.line);
    assert_eq!(
        resolved,
        LineColorConfig::Gradient {
            start: hex("#123456"),
            end: hex("#abcdef"),
            topological_depth: true,
        }
    );
}

#[test]
fn editor_hue_cycle_resolves_from_supplied_defaults_not_rust_constants() {
    let defaults = custom_defaults();
    let resolved = EditorLineColorConfig::HueCycle { initial: None }.resolve(&defaults.line);
    assert_eq!(resolved, LineColorConfig::HueCycle { initial: hex("#fedcba") });
}

#[test]
fn parses_missing_background_as_none() {
    let colors = EditorColorConfig::from_raw(None, None).unwrap();
    assert_eq!(colors.background, None);
    assert_eq!(colors.line, None);
}

#[test]
fn parses_present_background_as_some_hex() {
    let colors = EditorColorConfig::from_raw(Some("#102030".to_string()), None).unwrap();
    assert_eq!(colors.background, Some(Rgb::new(0x10, 0x20, 0x30)));
}

#[test]
fn rejects_invalid_hex_for_background() {
    let err = EditorColorConfig::from_raw(Some("#12345".to_string()), None).unwrap_err();
    assert_eq!(
        err,
        ConfigError::InvalidRgb { field: "colors.background".to_string(), value: "#12345".to_string() }
    );
}

#[test]
fn accepts_uppercase_hex_background() {
    let colors = EditorColorConfig::from_raw(Some("#ABCDEF".to_string()), None).unwrap();
    assert_eq!(colors.background, Some(Rgb::new(0xab, 0xcd, 0xef)));
}

#[test]
fn parses_scalar_solid_line_color() {
    let line = EditorLineColorConfig::from_raw(RawLineColor::Solid("#1a334d".to_string())).unwrap();
    assert_eq!(line, EditorLineColorConfig::Solid(Rgb::new(0x1a, 0x33, 0x4d)));
}

#[test]
fn parses_full_gradient_line_color() {
    let line = EditorLineColorConfig::from_raw(RawLineColor::Gradient {
        start: Some("#1a334d".to_string()),
        end: Some("#8099b3".to_string()),
        topological_depth: Some(true),
    })
    .unwrap();
    assert_eq!(
        line,
        EditorLineColorConfig::Gradient {
            start: Some(Rgb::new(0x1a, 0x33, 0x4d)),
            end: Some(Rgb::new(0x80, 0x99, 0xb3)),
            topological_depth: Some(true),
        }
    );
}

#[test]
fn parses_empty_gradient_line_color_with_defaults() {
    let line = EditorLineColorConfig::from_raw(RawLineColor::Gradient {
        start: None,
        end: None,
        topological_depth: None,
    })
    .unwrap();
    assert_eq!(
        line,
        EditorLineColorConfig::Gradient { start: None, end: None, topological_depth: None }
    );
}

#[test]
fn parses_empty_hue_cycle_line_color_with_default() {
    let line = EditorLineColorConfig::from_raw(RawLineColor::HueCycle { initial: None }).unwrap();
    assert_eq!(line, EditorLineColorConfig::HueCycle { initial: None });
}

#[test]
fn rejects_invalid_hex_for_initial() {
    let err = EditorLineColorConfig::from_raw(RawLineColor::HueCycle {
        initial: Some("red".to_string()),
    })
    .unwrap_err();
    assert_eq!(
        err,
        ConfigError::InvalidRgb {
            field: "colors.line.hue_cycle.initial".to_string(),
            value: "red".to_string()
        }
    );
}

#[test]
fn rejects_invalid_hex_for_gradient_colors() {
    let err = EditorLineColorConfig::from_raw(RawLineColor::Gradient {
        start: Some("#00000g".to_string()),
        end: Some("nope".to_string()),
        topological_depth: None,
    })
    .unwrap_err();
    assert_eq!(
        err,
        ConfigError::InvalidRgb {
            field: "colors.line.gradient.start".to_string(),
            value: "#00000g".to_string()
        }
    );
    let err = EditorLineColorConfig::from_raw(RawLineColor::Gradient {
        start: Some("#000000".to_string()),
        end: Some("nope".to_string()),
        topological_depth: None,
    })
    .unwrap_err();
    assert_eq!(
        err,
        ConfigError::InvalidRgb {
            field: "colors.line.gradient.end".to_string(),
            value: "nope".to_string()
        }
    );
}

#[test]
fn rejects_invalid_hex_for_line_color() {
    let err = EditorColorConfig::from_raw(None, Some(RawLineColor::Solid("#12".to_string())))
        .unwrap_err();
    assert_eq!(
        err,
        ConfigError::InvalidRgb { field: "colors.line.solid".to_string(), value: "#12".to_string() }
    );
}

// --- Further cases ---

#[test]
fn rule_errors_name_the_rule_field() {
    let err = grammar(Dimensions::TwoD, "F", &[("A", "F"), ("B", "F ? F")]).unwrap_err();
    assert_eq!(
        err,
        ConfigError::InvalidSymbol { ch: '?', field: "l-system.rules.B".to_string(), position: 1 }
    );
    let err = grammar(Dimensions::TwoD, "F", &[("b", "]")]).unwrap_err();
    assert_eq!(
        err,
        ConfigError::UnmatchedClose { field: "l-system.rules.b".to_string(), position: 0 }
    );
}

#[test]
fn start_string_errors_come_first_and_name_its_field() {
    let err = parse_grammar(Dimensions::TwoD, "F?", "start", &rules(&[("FF", "x")])).unwrap_err();
    assert_eq!(
        err,
        ConfigError::InvalidSymbol { ch: '?', field: "start".to_string(), position: 1 }
    );
}

#[test]
fn rule_keys_must_be_single_ascii_letters() {
    for key in ["", "1", "ä", "Fx", "+"] {
        let err = grammar(Dimensions::TwoD, "F", &[(key, "F")]).unwrap_err();
        assert_eq!(err, ConfigError::InvalidRuleKey { key: key.to_string() });
    }
}

#[test]
fn unicode_white_space_is_stripped() {
    let (start, rules) =
        grammar(Dimensions::TwoD, "F\u{3000}+\u{00A0}F\t\n", &[("F", "F\u{2003}F")]).unwrap();
    assert_eq!(start, "F+F");
    assert_eq!(rules[&'F'], "FF");
}

#[test]
fn colours_resolve_from_defaults_when_omitted() {
    let defaults = custom_defaults();
    let resolved = EditorColorConfig::default().resolve(&defaults);
    assert_eq!(resolved.background, hex("#112233"));
    assert_eq!(resolved.line, LineColorConfig::Solid(hex("#445566")));
    let c = hex("#010203");
    let resolved = EditorColorConfig { background: Some(c), line: Some(EditorLineColorConfig::Solid(c)) }
        .resolve(&defaults);
    assert_eq!(resolved.background, c);
    assert_eq!(resolved.line, LineColorConfig::Solid(c));
}

#[test]
fn parse_rgb_names_the_field() {
    assert_eq!(parse_rgb("#0a0b0c".to_string(), "x"), Ok(Rgb::new(10, 11, 12)));
    assert_eq!(
        parse_rgb("0a0b0c".to_string(), "colors.background"),
        Err(ConfigError::InvalidRgb {
            field: "colors.background".to_string(),
            value: "0a0b0c".to_string()
        })
    );
}
