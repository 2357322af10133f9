//! Colour defaults that fill omitted authored colour fields.

use vstd::prelude::*;

use crate::config::{is_hex_color, hex_byte, ConfigError, LineColorConfig, Rgb};

verus! {

/// Default background and line colours.
#[derive(Debug, Clone, Copy, PartialEq, Eq, Structural)]
pub struct ColorDefaults {
    pub background: Rgb,
    pub line: LineColorDefaults,
}

/// Default line colour of every mode, and which mode applies by default.
#[derive(Debug, Clone, Copy, PartialEq, Eq, Structural)]
pub struct LineColorDefaults {
    pub default: DefaultLineColorMode,
    pub solid: Rgb,
    pub gradient: GradientDefaults,
    pub hue_cycle: HueCycleDefaults,
}

/// The line-colour mode used when a configuration names none.
#[derive(Debug, Clone, Copy, PartialEq, Eq, Structural)]
pub enum DefaultLineColorMode {
    Solid,
    Gradient,
    HueCycle,
}

/// Default gradient parameters.
#[derive(Debug, Clone, Copy, PartialEq, Eq, Structural)]
pub struct GradientDefaults {
    pub start: Rgb,
    pub end: Rgb,
    pub topological_depth: bool,
}

/// Default hue-cycle parameters.
#[derive(Debug, Clone, Copy, PartialEq, Eq, Structural)]
pub struct HueCycleDefaults {
    pub initial: Rgb,
}

impl LineColorDefaults {
    /// The line colour of the default mode, with that mode's default parameters.
    pub fn default_line_color(self) -> (c: LineColorConfig)
        ensures
            c == (match self.default {
                DefaultLineColorMode::Solid => LineColorConfig::Solid(self.solid),
                DefaultLineColorMode::Gradient => LineColorConfig::Gradient {
                    start: self.gradient.start,
                    end: self.gradient.end,
                    topological_depth: self.gradient.topological_depth,
                },
                DefaultLineColorMode::HueCycle => LineColorConfig::HueCycle {
                    initial: self.hue_cycle.initial,
                },
            }),
    {
        match self.default {
            DefaultLineColorMode::Solid => LineColorConfig::Solid(self.solid),
            DefaultLineColorMode::Gradient => LineColorConfig::Gradient {
                start: self.gradient.start,
                end: self.gradient.end,
                topological_depth: self.gradient.topological_depth,
            },
            DefaultLineColorMode::HueCycle => LineColorConfig::HueCycle {
                initial: self.hue_cycle.initial,
            },
        }
    }
}

/// Parses the `#rrggbb` colour `s` of `field`; the error names the field and
/// carries the rejected text.
pub fn parse_rgb(s: String, field: &str) -> (res: Result<Rgb, ConfigError>)
    ensures
        res is Ok <==> is_hex_color(s@),
        res matches Ok(c) ==> c == Rgb::from_hex_spec(s@),
        res matches Ok(c) ==> c.spec_r() == hex_byte(s@, 1) && c.spec_g() == hex_byte(s@, 3)
            && c.spec_b() == hex_byte(s@, 5),
        res matches Err(e) ==> e matches ConfigError::InvalidRgb { field: f, value } && f@
            == field@ && value@ == s@,
{
    match Rgb::from_hex(s.as_str()) {
        Ok(c) => Ok(c),
        Err(_) => Err(ConfigError::InvalidRgb { field: field.to_owned(), value: s }),
    }
}

/// Colour defaults as text, before the colours are checked.
#[derive(Debug, Clone, PartialEq, Eq)]
pub struct RawColorDefaults {
    pub background: String,
    pub default: DefaultLineColorMode,
    pub solid: String,
    pub gradient_start: String,
    pub gradient_end: String,
    pub topological_depth: bool,
    pub hue_cycle_initial: String,
}

/// The first malformed colour of `raw`, in field order, is `s` under `field`.
pub open spec fn first_bad_default(raw: RawColorDefaults, s: Seq<char>, field: Seq<char>) -> bool {
    if !is_hex_color(raw.background@) {
        s == raw.background@ && field == "colors.background"@
    } else if !is_hex_color(raw.solid@) {
        s == raw.solid@ && field == "colors.line.solid"@
    } else if !is_hex_color(raw.gradient_start@) {
        s == raw.gradient_start@ && field == "colors.line.gradient.start"@
    } else if !is_hex_color(raw.gradient_end@) {
        s == raw.gradient_end@ && field == "colors.line.gradient.end"@
    } else {
        s == raw.hue_cycle_initial@ && field == "colors.line.hue_cycle.initial"@
    }
}

impl ColorDefaults {
    /// Checks the colours of `raw`: the background, then the solid colour,
    /// the gradient's start and end, and the hue cycle's initial colour. The
    /// first malformed one is reported under its field.
    pub fn from_raw(raw: RawColorDefaults) -> (res: Result<ColorDefaults, ConfigError>)
        ensures
            res is Ok <==> is_hex_color(raw.background@) && is_hex_color(raw.solid@) && is_hex_color(
                raw.gradient_start@,
            ) && is_hex_color(raw.gradient_end@) && is_hex_color(raw.hue_cycle_initial@),
            res matches Ok(d) ==> d == (ColorDefaults {
                background: Rgb::from_hex_spec(raw.background@),
                line: LineColorDefaults {
                    default: raw.default,
                    solid: Rgb::from_hex_spec(raw.solid@),
                    gradient: GradientDefaults {
                        start: Rgb::from_hex_spec(raw.gradient_start@),
                        end: Rgb::from_hex_spec(raw.gradient_end@),
                        topological_depth: raw.topological_depth,
                    },
                    hue_cycle: HueCycleDefaults { initial: Rgb::from_hex_spec(raw.hue_cycle_initial@) },
                },
            }),
            res matches Err(e) ==> e matches ConfigError::InvalidRgb { field, value } && first_bad_default(
                raw,
                value@,
                field@,
            ),
    {
        let background = match parse_rgb(raw.background, "colors.background") {
            Ok(c) => c,
            Err(e) => {
                return Err(e);
            },
        };
        let solid = match parse_rgb(raw.solid, "colors.line.solid") {
            Ok(c) => c,
            Err(e) => {
                return Err(e);
            },
        };
        let start = match parse_rgb(raw.gradient_start, "colors.line.gradient.start") {
            Ok(c) => c,
            Err(e) => {
                return Err(e);
            },
        };
        let end = match parse_rgb(raw.gradient_end, "colors.line.gradient.end") {
            Ok(c) => c,
            Err(e) => {
                return Err(e);
            },
        };
        let initial = match parse_rgb(raw.hue_cycle_initial, "colors.line.hue_cycle.initial") {
            Ok(c) => c,
            Err(e) => {
                return Err(e);
            },
        };
        Ok(ColorDefaults {
            background,
            line: LineColorDefaults {
                default: raw.default,
                solid,
                gradient: GradientDefaults { start, end, topological_depth: raw.topological_depth },
                hue_cycle: HueCycleDefaults { initial },
            },
        })
    }
}

} // verus!
