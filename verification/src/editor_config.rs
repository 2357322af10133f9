//! Authored configuration as the editor holds it: grammar text checked
//! against the alphabet, and colour fields that may still be omitted.

use std::collections::BTreeMap;

use vstd::prelude::*;

use crate::alphabet::{
    bracket_error, brackets_ok, is_ascii_letter, symbol_error, symbols_ok, validate_bracket_balance,
    validate_symbols,
};
use crate::config::{is_hex_color, ColorConfig, ConfigError, Dimensions, LineColorConfig, Rgb};
use crate::config_defaults::{parse_rgb, ColorDefaults, LineColorDefaults};
use crate::ruleset::rules_view;
use crate::text::{chars_of, string_from_chars, strip_white_space, without_white_space};

verus! {

/// Prefix of the field name under which a rule's right-hand side is reported.
pub const RULE_FIELD_PREFIX: &'static str = "l-system.rules.";

/// A rule key is a single ASCII letter.
pub open spec fn rule_key_ok(key: Seq<char>) -> bool {
    key.len() == 1 && is_ascii_letter(key[0])
}

/// The field name under which the rule for `k` is reported.
pub open spec fn rule_field(k: char) -> Seq<char> {
    RULE_FIELD_PREFIX@ + seq![k]
}

/// Grammar text uses only allowed symbols and balanced brackets.
pub open spec fn text_ok(s: Seq<char>, dimensions: Dimensions) -> bool {
    symbols_ok(s, dimensions) && brackets_ok(s)
}

/// `e` reports the first problem of grammar text `s`: an invalid symbol if
/// there is one, else a bracket problem.
pub open spec fn text_error(e: ConfigError, s: Seq<char>, field: Seq<char>, dimensions: Dimensions) -> bool {
    if !symbols_ok(s, dimensions) {
        symbol_error(e, s, field, dimensions)
    } else {
        bracket_error(e, s, field)
    }
}

/// An authored rule `(key, right-hand side)` is acceptable.
pub open spec fn entry_ok(entry: (String, String), dimensions: Dimensions) -> bool {
    rule_key_ok(entry.0@) && text_ok(without_white_space(entry.1@), dimensions)
}

/// `e` reports the first problem of an authored rule.
pub open spec fn entry_error(e: ConfigError, entry: (String, String), dimensions: Dimensions) -> bool {
    if !rule_key_ok(entry.0@) {
        e matches ConfigError::InvalidRuleKey { key } && key@ == entry.0@
    } else {
        text_error(e, without_white_space(entry.1@), rule_field(entry.0@[0]), dimensions)
    }
}

/// The rules the authored entries define, later entries replacing earlier ones.
pub open spec fn authored_rules(entries: Seq<(String, String)>) -> Map<char, Seq<char>>
    decreases entries.len(),
{
    if entries.len() == 0 {
        Map::empty()
    } else {
        authored_rules(entries.drop_last()).insert(
            entries.last().0@[0],
            without_white_space(entries.last().1@),
        )
    }
}

/// Inserts `v` under `k` (`BTreeMap::insert`): afterwards the map sends `k`
/// to `v` and is otherwise unchanged.
#[verifier::external_body]
fn insert_rule(map: &mut BTreeMap<char, String>, k: char, v: String)
    ensures
        final(map)@ == old(map)@.insert(k, v),
{
    map.insert(k, v);
}

/// The field name under which the rule for `k` is reported.
fn rule_field_name(k: char) -> (f: String)
    ensures
        f@ == rule_field(k),
{
    let mut v = chars_of(RULE_FIELD_PREFIX);
    v.push(k);
    string_from_chars(v)
}

/// Checks authored grammar text and builds the grammar from it.
///
/// White space is removed from the start string and from every right-hand
/// side. The start string is checked first (its problems reported under
/// `start_field`), then each rule in order: its key must be a single ASCII
/// letter, and its right-hand side, reported under `l-system.rules.<key>`,
/// must use only symbols of `dimensions` and balanced brackets. The first
/// problem found is returned.
pub fn parse_grammar(
    dimensions: Dimensions,
    start: &str,
    start_field: &str,
    rules: &Vec<(String, String)>,
) -> (res: Result<(String, BTreeMap<char, String>), ConfigError>)
    ensures
        res is Ok <==> text_ok(without_white_space(start@), dimensions) && forall|i: int|
            0 <= i < rules@.len() ==> entry_ok(#[trigger] rules@[i], dimensions),
        res matches Ok(g) ==> g.0@ == without_white_space(start@) && rules_view(g.1@)
            == authored_rules(rules@),
        res matches Err(e) ==> if !text_ok(without_white_space(start@), dimensions) {
            text_error(e, without_white_space(start@), start_field@, dimensions)
        } else {
            exists|i: int|
                0 <= i < rules@.len() && !entry_ok(#[trigger] rules@[i], dimensions) && (forall|j: int|
                    0 <= j < i ==> entry_ok(#[trigger] rules@[j], dimensions)) && entry_error(
                    e,
                    rules@[i],
                    dimensions,
                )
        },
{
    let stripped = strip_white_space(start);
    match validate_symbols(stripped.as_str(), start_field, dimensions) {
        Ok(()) => {},
        Err(e) => {
            return Err(e);
        },
    }
    match validate_bracket_balance(stripped.as_str(), start_field) {
        Ok(()) => {},
        Err(e) => {
            return Err(e);
        },
    }
    let mut map: BTreeMap<char, String> = BTreeMap::new();
    let mut i: usize = 0;
    proof {
        assert(rules_view(map@) =~= authored_rules(rules@.take(0)));
    }
    while i < rules.len()
        invariant
            0 <= i <= rules@.len(),
            text_ok(without_white_space(start@), dimensions),
            forall|j: int| 0 <= j < i ==> entry_ok(#[trigger] rules@[j], dimensions),
            rules_view(map@) == authored_rules(rules@.take(i as int)),
        decreases rules@.len() - i,
    {
        let key_chars = chars_of(rules[i].0.as_str());
        if key_chars.len() != 1 || !(('a' <= key_chars[0] && key_chars[0] <= 'z') || ('A'
            <= key_chars[0] && key_chars[0] <= 'Z')) {
            let e = ConfigError::InvalidRuleKey { key: rules[i].0.clone() };
            proof {
                assert(!entry_ok(rules@[i as int], dimensions));
                assert(entry_error(e, rules@[i as int], dimensions));
            }
            return Err(e);
        }
        let k = key_chars[0];
        let field = rule_field_name(k);
        let rhs = strip_white_space(rules[i].1.as_str());
        match validate_symbols(rhs.as_str(), field.as_str(), dimensions) {
            Ok(()) => {},
            Err(e) => {
                proof {
                    assert(!entry_ok(rules@[i as int], dimensions));
                    assert(entry_error(e, rules@[i as int], dimensions));
                }
                return Err(e);
            },
        }
        match validate_bracket_balance(rhs.as_str(), field.as_str()) {
            Ok(()) => {},
            Err(e) => {
                proof {
                    assert(!entry_ok(rules@[i as int], dimensions));
                    assert(entry_error(e, rules@[i as int], dimensions));
                }
                return Err(e);
            },
        }
        let ghost before = map@;
        insert_rule(&mut map, k, rhs);
        proof {
            assert(entry_ok(rules@[i as int], dimensions));
            let entries = rules@.take(i + 1);
            assert(entries.drop_last() =~= rules@.take(i as int));
            assert(entries.last() == rules@[i as int]);
            assert(rules_view(map@) =~= rules_view(before).insert(k, without_white_space(rules@[i as int].1@)));
        }
        i = i + 1;
    }
    proof {
        assert(rules@.take(rules@.len() as int) =~= rules@);
    }
    Ok((stripped, map))
}

/// Authored colour fields before defaults are applied.
#[derive(Debug, Clone, Copy, PartialEq, Eq, Structural)]
pub struct EditorColorConfig {
    pub background: Option<Rgb>,
    /// Authored line-colour mode, or `None` when the configuration names
    /// none and the default solid colour applies.
    pub line: Option<EditorLineColorConfig>,
}

/// Authored line-colour fields before mode defaults are applied.
///
/// `Solid` always carries its colour. Gradient and hue-cycle parameters may
/// be omitted, inheriting from defaults at resolve time.
#[derive(Debug, Clone, Copy, PartialEq, Eq, Structural)]
pub enum EditorLineColorConfig {
    Solid(Rgb),
    Gradient {
        /// `None` inherits the gradient start colour from defaults.
        start: Option<Rgb>,
        /// `None` inherits the gradient end colour from defaults.
        end: Option<Rgb>,
        /// `None` inherits the topological-depth setting from defaults.
        topological_depth: Option<bool>,
    },
    HueCycle {
        /// `None` inherits the initial hue-cycle colour from defaults.
        initial: Option<Rgb>,
    },
}

/// Line-colour text as authored: colours are still unparsed strings.
#[derive(Debug, Clone, PartialEq, Eq)]
pub enum RawLineColor {
    Solid(String),
    Gradient { start: Option<String>, end: Option<String>, topological_depth: Option<bool> },
    HueCycle { initial: Option<String> },
}

impl Default for EditorColorConfig {
    fn default() -> (c: Self)
        ensures
            c.background is None,
            c.line is None,
    {
        EditorColorConfig { background: None, line: None }
    }
}

/// `o` is absent or a `#rrggbb` colour.
pub open spec fn optional_hex_ok(o: Option<String>) -> bool {
    o matches Some(s) ==> is_hex_color(s@)
}

/// The colour `o` names, if any.
pub open spec fn optional_hex_value(o: Option<String>) -> Option<Rgb> {
    match o {
        Some(s) => Some(Rgb::from_hex_spec(s@)),
        None => None,
    }
}

/// `e` rejects the colour text `s` of `field`.
pub open spec fn rgb_error(e: ConfigError, s: Seq<char>, field: Seq<char>) -> bool {
    e matches ConfigError::InvalidRgb { field: f, value } && f@ == field && value@ == s
}

fn parse_optional_rgb(o: Option<String>, field: &str) -> (res: Result<Option<Rgb>, ConfigError>)
    ensures
        res is Ok <==> optional_hex_ok(o),
        res matches Ok(v) ==> v == optional_hex_value(o),
        res matches Err(e) ==> rgb_error(e, o->0@, field@),
{
    match o {
        Some(s) => match parse_rgb(s, field) {
            Ok(c) => Ok(Some(c)),
            Err(e) => Err(e),
        },
        None => Ok(None),
    }
}

impl EditorLineColorConfig {
    /// The gradient fields `(start, end, topological_depth)` of a gradient,
    /// or `(None, None, None)` for any other mode.
    pub fn gradient_fields(self) -> (f: (Option<Rgb>, Option<Rgb>, Option<bool>))
        ensures
            f == (match self {
                EditorLineColorConfig::Gradient { start, end, topological_depth } => (
                    start,
                    end,
                    topological_depth,
                ),
                _ => (None, None, None),
            }),
    {
        match self {
            EditorLineColorConfig::Gradient { start, end, topological_depth } => (
                start,
                end,
                topological_depth,
            ),
            _ => (None, None, None),
        }
    }

    /// The runtime line colour: omitted parameters come from `defaults`.
    pub fn resolve(self, defaults: &LineColorDefaults) -> (c: LineColorConfig)
        ensures
            c == resolve_line(self, *defaults),
    {
        match self {
            EditorLineColorConfig::Solid(color) => LineColorConfig::Solid(color),
            EditorLineColorConfig::Gradient { start, end, topological_depth } => {
                LineColorConfig::Gradient {
                    start: match start {
                        Some(c) => c,
                        None => defaults.gradient.start,
                    },
                    end: match end {
                        Some(c) => c,
                        None => defaults.gradient.end,
                    },
                    topological_depth: match topological_depth {
                        Some(b) => b,
                        None => defaults.gradient.topological_depth,
                    },
                }
            },
            EditorLineColorConfig::HueCycle { initial } => LineColorConfig::HueCycle {
                initial: match initial {
                    Some(c) => c,
                    None => defaults.hue_cycle.initial,
                },
            },
        }
    }

    /// Parses authored line-colour text. Colours are checked in field order
    /// (`start` before `end`); the first malformed one is reported under
    /// `colors.line.<mode>.<field>`.
    pub fn from_raw(raw: RawLineColor) -> (res: Result<EditorLineColorConfig, ConfigError>)
        ensures
            res is Ok <==> raw_line_ok(raw),
            res matches Ok(l) ==> l == raw_line_value(raw),
            res matches Err(e) ==> raw_line_error(e, raw),
    {
        match raw {
            RawLineColor::Solid(s) => match parse_rgb(s, "colors.line.solid") {
                Ok(c) => Ok(EditorLineColorConfig::Solid(c)),
                Err(e) => Err(e),
            },
            RawLineColor::Gradient { start, end, topological_depth } => {
                let start = match parse_optional_rgb(start, "colors.line.gradient.start") {
                    Ok(v) => v,
                    Err(e) => {
                        return Err(e);
                    },
                };
                let end = match parse_optional_rgb(end, "colors.line.gradient.end") {
                    Ok(v) => v,
                    Err(e) => {
                        return Err(e);
                    },
                };
                Ok(EditorLineColorConfig::Gradient { start, end, topological_depth })
            },
            RawLineColor::HueCycle { initial } => match parse_optional_rgb(
                initial,
                "colors.line.hue_cycle.initial",
            ) {
                Ok(v) => Ok(EditorLineColorConfig::HueCycle { initial: v }),
                Err(e) => Err(e),
            },
        }
    }
}

/// The authored line-colour text is well formed.
pub open spec fn raw_line_ok(raw: RawLineColor) -> bool {
    match raw {
        RawLineColor::Solid(s) => is_hex_color(s@),
        RawLineColor::Gradient { start, end, .. } => optional_hex_ok(start) && optional_hex_ok(end),
        RawLineColor::HueCycle { initial } => optional_hex_ok(initial),
    }
}

/// The line colour well-formed authored text describes.
pub open spec fn raw_line_value(raw: RawLineColor) -> EditorLineColorConfig {
    match raw {
        RawLineColor::Solid(s) => EditorLineColorConfig::Solid(Rgb::from_hex_spec(s@)),
        RawLineColor::Gradient { start, end, topological_depth } => EditorLineColorConfig::Gradient {
            start: optional_hex_value(start),
            end: optional_hex_value(end),
            topological_depth,
        },
        RawLineColor::HueCycle { initial } => EditorLineColorConfig::HueCycle {
            initial: optional_hex_value(initial),
        },
    }
}

/// `e` reports the first malformed colour of authored line-colour text.
pub open spec fn raw_line_error(e: ConfigError, raw: RawLineColor) -> bool {
    match raw {
        RawLineColor::Solid(s) => rgb_error(e, s@, "colors.line.solid"@),
        RawLineColor::Gradient { start, end, .. } => if !optional_hex_ok(start) {
            rgb_error(e, start->0@, "colors.line.gradient.start"@)
        } else {
            rgb_error(e, end->0@, "colors.line.gradient.end"@)
        },
        RawLineColor::HueCycle { initial } => rgb_error(
            e,
            initial->0@,
            "colors.line.hue_cycle.initial"@,
        ),
    }
}

/// The runtime line colour of authored line-colour fields.
pub open spec fn resolve_line(line: EditorLineColorConfig, defaults: LineColorDefaults) -> LineColorConfig {
    match line {
        EditorLineColorConfig::Solid(color) => LineColorConfig::Solid(color),
        EditorLineColorConfig::Gradient { start, end, topological_depth } => LineColorConfig::Gradient {
            start: match start {
                Some(c) => c,
                None => defaults.gradient.start,
            },
            end: match end {
                Some(c) => c,
                None => defaults.gradient.end,
            },
            topological_depth: match topological_depth {
                Some(b) => b,
                None => defaults.gradient.topological_depth,
            },
        },
        EditorLineColorConfig::HueCycle { initial } => LineColorConfig::HueCycle {
            initial: match initial {
                Some(c) => c,
                None => defaults.hue_cycle.initial,
            },
        },
    }
}

impl EditorColorConfig {
    /// The runtime colours: an omitted background or line colour comes from
    /// `defaults`, an omitted line colour being the default solid colour.
    pub fn resolve(&self, defaults: &ColorDefaults) -> (c: ColorConfig)
        ensures
            c.background == (match self.background {
                Some(b) => b,
                None => defaults.background,
            }),
            c.line == (match self.line {
                Some(l) => resolve_line(l, defaults.line),
                None => LineColorConfig::Solid(defaults.line.solid),
            }),
    {
        let background = match self.background {
            Some(b) => b,
            None => defaults.background,
        };
        let line = match self.line {
            Some(l) => l.resolve(&defaults.line),
            None => LineColorConfig::Solid(defaults.line.solid),
        };
        ColorConfig { background, line }
    }

    /// Parses authored colour text: the background (reported under
    /// `colors.background`) first, then the line colour.
    pub fn from_raw(background: Option<String>, line: Option<RawLineColor>) -> (res: Result<
        EditorColorConfig,
        ConfigError,
    >)
        ensures
            res is Ok <==> optional_hex_ok(background) && (line matches Some(l) ==> raw_line_ok(l)),
            res matches Ok(c) ==> c.background == optional_hex_value(background) && c.line == (
            match line {
                Some(l) => Some(raw_line_value(l)),
                None => None,
            }),
            res matches Err(e) ==> if !optional_hex_ok(background) {
                rgb_error(e, background->0@, "colors.background"@)
            } else {
                raw_line_error(e, line->0)
            },
    {
        let background = match parse_optional_rgb(background, "colors.background") {
            Ok(v) => v,
            Err(e) => {
                return Err(e);
            },
        };
        match line {
            None => Ok(EditorColorConfig { background, line: None }),
            Some(raw) => match EditorLineColorConfig::from_raw(raw) {
                Ok(l) => Ok(EditorColorConfig { background, line: Some(l) }),
                Err(e) => Err(e),
            },
        }
    }
}

/// A rule key is accepted exactly when it is one character from `a`..=`z`
/// or `A`..=`Z`.
pub proof fn lemma_rule_keys_are_ascii_letters(key: Seq<char>)
    ensures
        rule_key_ok(key) <==> key.len() == 1 && (('a' <= key[0] && key[0] <= 'z') || ('A' <= key[0]
            && key[0] <= 'Z')),
{
}

} // verus!
