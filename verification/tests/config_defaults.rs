use lsystem::config::{ConfigError, LineColorConfig, Rgb};
use lsystem::config_defaults::{ColorDefaults, DefaultLineColorMode, RawColorDefaults};

fn shipped() -> RawColorDefaults {
    RawColorDefaults {
        background: "#000000".to_string(),
        default: DefaultLineColorMode::Solid,
        solid: "#00e680".to_string(),
        gradient_start: "#0d590d".to_string(),
        gradient_end: "#99e61a".to_string(),
        topological_depth: false,
        hue_cycle_initial: "#e60000".to_string(),
    }
}

#[test]
fn shipped_color_defaults_parse() {
    let d = ColorDefaults::from_raw(shipped()).unwrap();
    assert_eq!(d.background, Rgb::new(0, 0, 0));
    assert_eq!(d.line.solid, Rgb::new(0x00, 0xe6, 0x80));
    assert_eq!(d.line.gradient.start, Rgb::new(0x0d, 0x59, 0x0d));
    assert_eq!(d.line.gradient.end, Rgb::new(0x99, 0xe6, 0x1a));
    assert!(!d.line.gradient.topological_depth);
    assert_eq!(d.line.hue_cycle.initial, Rgb::new(0xe6, 0, 0));
    assert_eq!(d.line.default_line_color(), LineColorConfig::Solid(Rgb::new(0x00, 0xe6, 0x80)));
}

#[test]
fn color_defaults_report_the_first_bad_colour() {
    let mut raw = shipped();
    raw.gradient_end = "#12345".to_string();
    raw.hue_cycle_initial = "red".to_string();
    assert_eq!(
        ColorDefaults::from_raw(raw),
        Err(ConfigError::InvalidRgb {
            field: "colors.line.gradient.end".to_string(),
            value: "#12345".to_string(),
        })
    );

    let mut raw = shipped();
    raw.background = "000000".to_string();
    raw.solid = "#zzzzzz".to_string();
    assert_eq!(
        ColorDefaults::from_raw(raw),
        Err(ConfigError::InvalidRgb {
            field: "colors.background".to_string(),
            value: "000000".to_string(),
        })
    );

    let mut raw = shipped();
    raw.hue_cycle_initial = "#e6000".to_string();
    assert_eq!(
        ColorDefaults::from_raw(raw),
        Err(ConfigError::InvalidRgb {
            field: "colors.line.hue_cycle.initial".to_string(),
            value: "#e6000".to_string(),
        })
    );
}

#[test]
fn color_defaults_keep_the_default_mode() {
    let mut raw = shipped();
    raw.default = DefaultLineColorMode::Gradient;
    raw.topological_depth = true;
    let d = ColorDefaults::from_raw(raw).unwrap();
    assert_eq!(
        d.line.default_line_color(),
        LineColorConfig::Gradient {
            start: Rgb::new(0x0d, 0x59, 0x0d),
            end: Rgb::new(0x99, 0xe6, 0x1a),
            topological_depth: true,
        }
    );
}
