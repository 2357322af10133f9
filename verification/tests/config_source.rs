use lsystem::config::{Dimensions, Rgb};
use lsystem::config_source::ConfigSource;
use lsystem::editor_config::EditorLineColorConfig;

const DOCUMENT: &str = r##"[metadata]
name = "First"

[l-system]
dimensions = "2D"
iterations = 1

[l-system.rules]
F = "FF"

[turtle]
angle = 60.0

[colors]
background = "#000000"

[colors.line]
solid = "#00e680"
"##;

const DOTTED: &str = r##"metadata.name = "Dotted"
l-system.dimensions = "2D"
l-system.iterations = 1
l-system.rules.F = "FF"
colors.background = "#000000"
colors.line.solid = "#00e680"
"##;

fn source(text: &str) -> ConfigSource {
    ConfigSource::parse(text).unwrap()
}

#[test]
fn unmodified_document_keeps_its_text() {
    let text = r##"# leading comment
[metadata] # keep this comment
name = "Styled"

[l-system]
dimensions = "3D"
iterations = 2

[l-system.rules]
F = 'F\F'

[colors.line.gradient]
start = "#1a334d"
end = "#b3cce6"
"##;
    assert_eq!(source(text).to_toml_string(), text);
}

#[test]
fn text_that_is_not_toml_is_refused() {
    assert!(ConfigSource::parse("[metadata\nname = 1").is_err());
    assert!(ConfigSource::parse("name = ").is_err());
    assert!(ConfigSource::parse("").is_ok());
}

#[test]
fn set_name_keeps_the_value_comment() {
    let mut s = source("[metadata]\nname = \"Old\" # keep name comment\n");
    s.set_name("New");
    assert_eq!(s.to_toml_string(), "[metadata]\nname = \"New\" # keep name comment\n");
}

#[test]
fn set_name_makes_a_metadata_table() {
    let mut s = source("metadata = 3\n");
    s.set_name("Named");
    let text = s.to_toml_string();
    assert!(text.starts_with("[metadata"), "{text}");
    assert!(text.contains("name = \"Named\""), "{text}");
    assert!(!text.contains("metadata = 3"), "{text}");
}

#[test]
fn set_iterations_and_dimensions_write_their_values() {
    let mut s = source(DOCUMENT);
    s.set_iterations(5);
    s.set_dimensions(Dimensions::ThreeD);
    let text = s.to_toml_string();
    assert!(text.contains("iterations = 5\n"), "{text}");
    assert!(text.contains("dimensions = \"3D\""), "{text}");
    s.set_dimensions(Dimensions::TwoD);
    assert!(s.to_toml_string().contains("dimensions = \"2D\""));
}

#[test]
fn set_iterations_keeps_comments_and_dotted_keys() {
    let mut s = source("[l-system]\niterations = 1 # keep iterations comment\n");
    s.set_iterations(5);
    assert_eq!(s.to_toml_string(), "[l-system]\niterations = 5 # keep iterations comment\n");

    let mut s = source(DOTTED);
    s.set_iterations(7);
    let text = s.to_toml_string();
    assert!(text.contains("l-system.iterations = 7"), "{text}");
    assert!(!text.contains("[l-system]"), "{text}");
}

#[test]
fn set_iterations_into_a_missing_table_makes_an_inline_table() {
    let mut s = source("[metadata]\nname = \"x\"\n");
    s.set_iterations(3);
    let text = s.to_toml_string();
    assert!(text.contains("iterations = 3"), "{text}");
    assert!(ConfigSource::parse(&text).is_ok());
}

#[test]
fn set_grammar_replaces_the_rules_table() {
    let mut s = source(DOCUMENT);
    let rules = vec![('F', "FF".to_string()), ('X', "F+X".to_string())];
    s.set_grammar("start", "XF", &rules);
    let text = s.to_toml_string();
    assert!(text.contains("start = \"XF\""), "{text}");
    assert!(text.contains("[l-system.rules]\nF = \"FF\"\nX = \"F+X\"\n"), "{text}");

    s.set_grammar("start", "F", &[]);
    let text = s.to_toml_string();
    assert!(text.contains("start = \"F\""), "{text}");
    assert!(!text.contains("X = "), "{text}");
}

#[test]
fn set_grammar_later_rule_for_a_symbol_wins() {
    let mut s = source(DOCUMENT);
    let rules = vec![('F', "F+F".to_string()), ('F', "F-F".to_string())];
    s.set_grammar("start", "F", &rules);
    let text = s.to_toml_string();
    assert!(text.contains("F = \"F-F\""), "{text}");
    assert!(!text.contains("F+F"), "{text}");
}

#[test]
fn set_background_writes_and_removes_the_hex_string() {
    let mut s = source(DOCUMENT);
    s.set_background(Some(Rgb::new(0xff, 0x80, 0x00)));
    assert!(s.to_toml_string().contains("background = \"#ff8000\""));
    s.set_background(None);
    assert!(!s.to_toml_string().contains("background"));
}

#[test]
fn set_background_keeps_comments_and_dotted_keys() {
    let mut s = source("[colors]\nbackground = \"#000000\" # keep background comment\n");
    s.set_background(Some(Rgb::new(0x1a, 0x33, 0x4d)));
    assert_eq!(
        s.to_toml_string(),
        "[colors]\nbackground = \"#1a334d\" # keep background comment\n"
    );

    let mut s = source(DOTTED);
    s.set_background(Some(Rgb::new(0x1a, 0x33, 0x4d)));
    let text = s.to_toml_string();
    assert!(text.contains("colors.background = \"#1a334d\""), "{text}");
    assert!(!text.contains("[colors]"), "{text}");
    s.set_background(None);
    assert!(!s.to_toml_string().contains("colors.background"));
}

#[test]
fn set_background_without_colors_makes_the_table() {
    let mut s = source("[metadata]\nname = \"x\"\n");
    s.set_background(None);
    assert_eq!(s.to_toml_string(), "[metadata]\nname = \"x\"\n");
    s.set_background(Some(Rgb::new(1, 2, 3)));
    let text = s.to_toml_string();
    assert!(text.contains("[colors]\nbackground = \"#010203\""), "{text}");
}

#[test]
fn set_line_color_none_removes_the_line_table() {
    let mut s = source(
        "[metadata]\nname = \"t\"\n[colors.line.hue_cycle]\ninitial = \"#e60000\"\n",
    );
    s.set_line_color(None);
    assert!(!s.to_toml_string().contains("hue_cycle"));
}

#[test]
fn set_line_color_gradient_writes_only_the_set_fields() {
    let mut s = source("[metadata]\nname = \"t\"\n\n[colors]\n");
    s.set_line_color(Some(&EditorLineColorConfig::Gradient {
        start: Some(Rgb::new(0x11, 0x22, 0x33)),
        end: None,
        topological_depth: None,
    }));
    let out = s.to_toml_string();
    assert!(out.contains("#112233"), "{out}");
    assert!(!out.contains("end"), "{out}");
    assert!(!out.contains("topological_depth"), "{out}");
}

#[test]
fn set_line_color_hue_cycle_without_initial_writes_an_empty_table() {
    let mut s = source("[metadata]\nname = \"t\"\n\n[colors]\n");
    s.set_line_color(Some(&EditorLineColorConfig::HueCycle { initial: None }));
    let out = s.to_toml_string();
    assert!(out.contains("[colors.line"), "{out}");
    assert!(!out.contains("initial"), "{out}");
}

#[test]
fn line_color_transitions_remove_stale_keys() {
    let mut s = source(DOCUMENT);

    s.set_line_color(Some(&EditorLineColorConfig::Gradient {
        start: Some(Rgb::new(0x1a, 0x33, 0x4d)),
        end: Some(Rgb::new(0xb3, 0xcc, 0xe6)),
        topological_depth: Some(false),
    }));
    let text = s.to_toml_string();
    assert!(text.contains("[colors.line.gradient]"), "{text}");
    assert!(text.contains("start = \"#1a334d\""), "{text}");
    assert!(text.contains("end = \"#b3cce6\""), "{text}");
    assert!(text.contains("topological_depth = false"), "{text}");
    assert!(!text.contains("solid ="), "{text}");

    s.set_line_color(Some(&EditorLineColorConfig::HueCycle {
        initial: Some(Rgb::new(0x66, 0x80, 0x99)),
    }));
    let text = s.to_toml_string();
    assert!(text.contains("[colors.line.hue_cycle]"), "{text}");
    assert!(text.contains("initial = \"#668099\""), "{text}");
    assert!(!text.contains("start ="), "{text}");
    assert!(!text.contains("end ="), "{text}");

    s.set_line_color(Some(&EditorLineColorConfig::Solid(Rgb::new(0x33, 0x4d, 0x66))));
    let text = s.to_toml_string();
    assert!(text.contains("solid = \"#334d66\""), "{text}");
    assert!(!text.contains("initial ="), "{text}");
    assert!(!text.contains("gradient"), "{text}");
}

#[test]
fn line_color_flat_layout_keys_are_dropped() {
    let mut s = source(
        "[colors.line]\nmode = \"gradient\"\ncolor = \"#000000\"\nstart = \"#111111\"\nend = \"#222222\"\ninitial = \"#333333\"\n",
    );
    s.set_line_color(Some(&EditorLineColorConfig::Solid(Rgb::new(0, 0, 0))));
    let text = s.to_toml_string();
    for key in ["mode", "color =", "start", "end", "initial"] {
        assert!(!text.contains(key), "{key} in {text}");
    }
    assert!(text.contains("solid = \"#000000\""), "{text}");
}

#[test]
fn line_color_edits_keep_value_comments() {
    let mut s = source("[colors.line]\nsolid = \"#00e680\" # keep line color comment\n");
    s.set_line_color(Some(&EditorLineColorConfig::Solid(Rgb::new(0x66, 0x80, 0x99))));
    assert!(s
        .to_toml_string()
        .contains("solid = \"#668099\" # keep line color comment"));

    let mut s = source("[colors.line.gradient]\nstart = \"#00e680\"\nend =   \"#ffffff\"\n");
    s.set_line_color(Some(&EditorLineColorConfig::Gradient {
        start: Some(Rgb::new(0x66, 0x80, 0x99)),
        end: Some(Rgb::new(0xb3, 0xcc, 0xe6)),
        topological_depth: Some(false),
    }));
    let text = s.to_toml_string();
    assert!(text.contains("start = \"#668099\""), "{text}");
    assert!(text.contains("end =   \"#b3cce6\""), "{text}");
}

#[test]
fn dotted_colors_get_a_nested_gradient_table() {
    let mut s = source(DOTTED);
    s.set_line_color(Some(&EditorLineColorConfig::Gradient {
        start: Some(Rgb::new(0x66, 0x80, 0x99)),
        end: Some(Rgb::new(0xb3, 0xcc, 0xe6)),
        topological_depth: Some(true),
    }));
    let text = s.to_toml_string();
    assert!(text.contains("[colors.line.gradient]"), "{text}");
    assert!(text.contains("topological_depth = true"), "{text}");
    assert!(!text.contains("[colors]"), "{text}");
    assert!(!text.contains("[colors.line]"), "{text}");
    assert!(!text.contains("solid"), "{text}");
}

#[test]
fn a_source_can_be_rebuilt_from_its_document() {
    let s = source(DOCUMENT);
    let copy = ConfigSource::from_document(s.document().clone());
    assert_eq!(copy.to_toml_string(), DOCUMENT);
}

#[test]
fn writable_and_table_keys_are_reported() {
    let s = source("a = 1\nc = { y = 2 }\n[b]\nx = 1\n");
    assert!(!s.writable_under("a"));
    assert!(s.writable_under("b"));
    assert!(s.writable_under("c"));
    assert!(s.writable_under("missing"));
    assert!(s.is_table("b"));
    assert!(!s.is_table("c"));
    assert!(!s.is_table("a"));
    assert!(!s.is_table("missing"));
}
