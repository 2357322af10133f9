//! Line-colour modes and the colour-picker memory of the editor.

use vstd::prelude::*;

use crate::config::{LineColorConfig, Rgb};
use crate::config_defaults::{ColorDefaults, LineColorDefaults};
use crate::editor_config::{resolve_line, EditorColorConfig, EditorLineColorConfig};
use crate::text::str_equals;

verus! {

/// The three line-colour modes.
#[derive(Clone, Copy, Debug, PartialEq, Eq, Structural)]
pub enum LineColorMode {
    Solid,
    Gradient,
    HueCycle,
}

/// The configuration key of a mode.
pub open spec fn mode_key(mode: LineColorMode) -> Seq<char> {
    match mode {
        LineColorMode::Solid => "solid"@,
        LineColorMode::Gradient => "gradient"@,
        LineColorMode::HueCycle => "hue_cycle"@,
    }
}

/// The mode a configuration key names, if any.
pub open spec fn mode_of_key(key: Seq<char>) -> Option<LineColorMode> {
    if key == "solid"@ {
        Some(LineColorMode::Solid)
    } else if key == "gradient"@ {
        Some(LineColorMode::Gradient)
    } else if key == "hue_cycle"@ {
        Some(LineColorMode::HueCycle)
    } else {
        None
    }
}

/// The mode of an authored line colour.
pub open spec fn mode_of_line(line: EditorLineColorConfig) -> LineColorMode {
    match line {
        EditorLineColorConfig::Solid(_) => LineColorMode::Solid,
        EditorLineColorConfig::Gradient { .. } => LineColorMode::Gradient,
        EditorLineColorConfig::HueCycle { .. } => LineColorMode::HueCycle,
    }
}

impl LineColorMode {
    /// Every mode, in picker order.
    pub const ALL: [LineColorMode; 3] = [
        LineColorMode::Solid,
        LineColorMode::Gradient,
        LineColorMode::HueCycle,
    ];

    /// The mode of an authored line colour.
    pub fn from_line_color(line_color: &EditorLineColorConfig) -> (m: Self)
        ensures
            m == mode_of_line(*line_color),
    {
        match line_color {
            EditorLineColorConfig::Solid(_) => LineColorMode::Solid,
            EditorLineColorConfig::Gradient { .. } => LineColorMode::Gradient,
            EditorLineColorConfig::HueCycle { .. } => LineColorMode::HueCycle,
        }
    }

    /// The mode named by a configuration key: `solid`, `gradient` or `hue_cycle`.
    pub fn from_key(key: &str) -> (m: Option<Self>)
        ensures
            m == mode_of_key(key@),
    {
        if str_equals(key, "solid") {
            Some(LineColorMode::Solid)
        } else if str_equals(key, "gradient") {
            Some(LineColorMode::Gradient)
        } else if str_equals(key, "hue_cycle") {
            Some(LineColorMode::HueCycle)
        } else {
            None
        }
    }

    /// The configuration key of the mode.
    pub fn key(self) -> (k: &'static str)
        ensures
            k@ == mode_key(self),
    {
        match self {
            LineColorMode::Solid => "solid",
            LineColorMode::Gradient => "gradient",
            LineColorMode::HueCycle => "hue_cycle",
        }
    }

    /// The name shown for the mode in the editor.
    pub fn label(self) -> (s: &'static str)
        ensures
            s@ == (match self {
                LineColorMode::Solid => "Solid"@,
                LineColorMode::Gradient => "Gradient"@,
                LineColorMode::HueCycle => "Hue cycle"@,
            }),
    {
        match self {
            LineColorMode::Solid => "Solid",
            LineColorMode::Gradient => "Gradient",
            LineColorMode::HueCycle => "Hue cycle",
        }
    }
}

/// Reading a mode's key back gives the mode.
pub proof fn lemma_line_color_mode_key_round_trip(mode: LineColorMode)
    ensures
        mode_of_key(mode_key(mode)) == Some(mode),
{
    reveal_strlit("solid");
    reveal_strlit("gradient");
    reveal_strlit("hue_cycle");
    assert("gradient"@ != "solid"@) by {
        assert("gradient"@.len() != "solid"@.len());
    }
    assert("hue_cycle"@ != "solid"@) by {
        assert("hue_cycle"@[0] != "solid"@[0]);
    }
    assert("hue_cycle"@ != "gradient"@) by {
        assert("hue_cycle"@[0] != "gradient"@[0]);
    }
}

/// Gradient parameters last chosen in the picker; `None` means "the default".
#[derive(Clone, Copy, Debug, PartialEq, Eq, Structural)]
struct RememberedGradient {
    start: Option<Rgb>,
    end: Option<Rgb>,
    topological_depth: Option<bool>,
}

/// What the colour pickers remember per line-colour mode while the user
/// switches between modes, so that switching back restores earlier choices.
#[derive(Clone, Copy, Debug)]
pub struct ColorControlMemory {
    background: Rgb,
    line_defaults: LineColorDefaults,
    solid: Option<Rgb>,
    gradient: Option<RememberedGradient>,
    hue_cycle: Option<Rgb>,
}

/// Gradient slot contents `(start, end, topological_depth)`.
pub type GradientSlot = (Option<Rgb>, Option<Rgb>, Option<bool>);

/// The picker slots `(solid, gradient, hue_cycle)` after remembering `line`:
/// the slot of its mode takes its fields; no line clears the solid slot.
pub open spec fn slots_after(
    solid: Option<Rgb>,
    gradient: GradientSlot,
    hue_cycle: Option<Rgb>,
    line: Option<EditorLineColorConfig>,
) -> (Option<Rgb>, GradientSlot, Option<Rgb>) {
    match line {
        None => (None, gradient, hue_cycle),
        Some(EditorLineColorConfig::Solid(c)) => (Some(c), gradient, hue_cycle),
        Some(EditorLineColorConfig::Gradient { start, end, topological_depth }) => (
            solid,
            (start, end, topological_depth),
            hue_cycle,
        ),
        Some(EditorLineColorConfig::HueCycle { initial }) => (solid, gradient, initial),
    }
}

impl ColorControlMemory {
    /// The remembered background colour.
    pub closed spec fn spec_background(&self) -> Rgb {
        self.background
    }

    /// The line-colour defaults the memory falls back to.
    pub closed spec fn spec_line_defaults(&self) -> LineColorDefaults {
        self.line_defaults
    }

    /// The remembered solid colour, if any.
    pub closed spec fn spec_solid(&self) -> Option<Rgb> {
        self.solid
    }

    /// The remembered gradient fields.
    pub closed spec fn spec_gradient(&self) -> GradientSlot {
        match self.gradient {
            Some(g) => (g.start, g.end, g.topological_depth),
            None => (None, None, None),
        }
    }

    /// The remembered hue-cycle start colour, if any.
    pub closed spec fn spec_hue_cycle(&self) -> Option<Rgb> {
        self.hue_cycle
    }

    /// Picker memory for authored colours: the authored background (else the
    /// default) and the authored line colour in the slot of its mode; the
    /// other slots are empty.
    pub fn from_editor_config(editor: &EditorColorConfig, defaults: &ColorDefaults) -> (m: Self)
        ensures
            m.spec_background() == (match editor.background {
                Some(b) => b,
                None => defaults.background,
            }),
            m.spec_line_defaults() == defaults.line,
            (m.spec_solid(), m.spec_gradient(), m.spec_hue_cycle()) == slots_after(
                None,
                (None, None, None),
                None,
                editor.line,
            ),
    {
        let mut memory = ColorControlMemory {
            background: match editor.background {
                Some(b) => b,
                None => defaults.background,
            },
            line_defaults: defaults.line,
            solid: None,
            gradient: None,
            hue_cycle: None,
        };
        memory.remember_line(editor.line);
        memory
    }

    pub fn background(&self) -> (b: Rgb)
        ensures
            b == self.spec_background(),
    {
        self.background
    }

    pub fn remember_background(&mut self, background: Rgb)
        ensures
            final(self).spec_background() == background,
            final(self).spec_line_defaults() == old(self).spec_line_defaults(),
            final(self).spec_solid() == old(self).spec_solid(),
            final(self).spec_gradient() == old(self).spec_gradient(),
            final(self).spec_hue_cycle() == old(self).spec_hue_cycle(),
    {
        self.background = background;
    }

    /// The solid colour to show: the remembered one, else the default.
    pub fn solid_color(&self) -> (c: Rgb)
        ensures
            c == (match self.spec_solid() {
                Some(c) => c,
                None => self.spec_line_defaults().solid,
            }),
    {
        match self.solid {
            Some(c) => c,
            None => self.line_defaults.solid,
        }
    }

    /// The gradient fields to show: each remembered field, else its default.
    pub fn gradient_fields(&self) -> (f: (Rgb, Rgb, bool))
        ensures
            f.0 == (match self.spec_gradient().0 {
                Some(c) => c,
                None => self.spec_line_defaults().gradient.start,
            }),
            f.1 == (match self.spec_gradient().1 {
                Some(c) => c,
                None => self.spec_line_defaults().gradient.end,
            }),
            f.2 == (match self.spec_gradient().2 {
                Some(b) => b,
                None => self.spec_line_defaults().gradient.topological_depth,
            }),
    {
        let d = self.line_defaults.gradient;
        let rg = match self.gradient {
            Some(g) => g,
            None => RememberedGradient { start: None, end: None, topological_depth: None },
        };
        (
            match rg.start {
                Some(c) => c,
                None => d.start,
            },
            match rg.end {
                Some(c) => c,
                None => d.end,
            },
            match rg.topological_depth {
                Some(b) => b,
                None => d.topological_depth,
            },
        )
    }

    /// The hue-cycle start colour to show: the remembered one, else the default.
    pub fn hue_cycle_initial(&self) -> (c: Rgb)
        ensures
            c == (match self.spec_hue_cycle() {
                Some(c) => c,
                None => self.spec_line_defaults().hue_cycle.initial,
            }),
    {
        match self.hue_cycle {
            Some(c) => c,
            None => self.line_defaults.hue_cycle.initial,
        }
    }

    /// Remembers `line_color` in the slot of its mode; `None` clears the
    /// solid slot.
    pub fn remember_line(&mut self, line_color: Option<EditorLineColorConfig>)
        ensures
            final(self).spec_background() == old(self).spec_background(),
            final(self).spec_line_defaults() == old(self).spec_line_defaults(),
            (final(self).spec_solid(), final(self).spec_gradient(), final(self).spec_hue_cycle())
                == slots_after(
                old(self).spec_solid(),
                old(self).spec_gradient(),
                old(self).spec_hue_cycle(),
                line_color,
            ),
    {
        match line_color {
            None => self.solid = None,
            Some(EditorLineColorConfig::Solid(color)) => self.solid = Some(color),
            Some(EditorLineColorConfig::Gradient { start, end, topological_depth }) => {
                self.gradient = Some(RememberedGradient { start, end, topological_depth });
            },
            Some(EditorLineColorConfig::HueCycle { initial }) => self.hue_cycle = initial,
        }
    }

    /// The authored line colour remembered for `mode`: the solid slot may be
    /// empty; gradient and hue-cycle always exist, with omitted fields `None`.
    pub open spec fn remembered_line(&self, mode: LineColorMode) -> Option<EditorLineColorConfig> {
        match mode {
            LineColorMode::Solid => match self.spec_solid() {
                Some(c) => Some(EditorLineColorConfig::Solid(c)),
                None => None,
            },
            LineColorMode::Gradient => Some(
                EditorLineColorConfig::Gradient {
                    start: self.spec_gradient().0,
                    end: self.spec_gradient().1,
                    topological_depth: self.spec_gradient().2,
                },
            ),
            LineColorMode::HueCycle => Some(
                EditorLineColorConfig::HueCycle { initial: self.spec_hue_cycle() },
            ),
        }
    }

    /// The authored line colour remembered for `mode`.
    pub fn line_for(&self, mode: LineColorMode) -> (l: Option<EditorLineColorConfig>)
        ensures
            l == self.remembered_line(mode),
    {
        match mode {
            LineColorMode::Solid => match self.solid {
                Some(c) => Some(EditorLineColorConfig::Solid(c)),
                None => None,
            },
            LineColorMode::Gradient => {
                let rg = match self.gradient {
                    Some(g) => g,
                    None => RememberedGradient { start: None, end: None, topological_depth: None },
                };
                Some(
                    EditorLineColorConfig::Gradient {
                        start: rg.start,
                        end: rg.end,
                        topological_depth: rg.topological_depth,
                    },
                )
            },
            LineColorMode::HueCycle => Some(EditorLineColorConfig::HueCycle { initial: self.hue_cycle }),
        }
    }
}

/// Remembering a line colour and then asking for its mode gives back exactly
/// that line colour; the other modes keep what they remembered.
pub proof fn lemma_remember_then_line_for(
    before: ColorControlMemory,
    after: ColorControlMemory,
    line: EditorLineColorConfig,
    other: LineColorMode,
)
    requires
        (after.spec_solid(), after.spec_gradient(), after.spec_hue_cycle()) == slots_after(
            before.spec_solid(),
            before.spec_gradient(),
            before.spec_hue_cycle(),
            Some(line),
        ),
    ensures
        after.remembered_line(mode_of_line(line)) == Some(line),
        other != mode_of_line(line) ==> after.remembered_line(other) == before.remembered_line(other),
{
}

/// The line colour the controls show and edit: the authored line colour with
/// omitted parameters from `defaults`, or the default solid colour when none
/// is authored.
pub fn line_color_for_controls(editor: &EditorColorConfig, defaults: &LineColorDefaults) -> (c: LineColorConfig)
    ensures
        c == (match editor.line {
            Some(l) => resolve_line(l, *defaults),
            None => LineColorConfig::Solid(defaults.solid),
        }),
{
    match editor.line {
        Some(l) => l.resolve(defaults),
        None => LineColorConfig::Solid(defaults.solid),
    }
}

/// The picker mode of authored colours: the authored line colour's mode, or
/// `Solid` when none is authored.
pub fn selected_line_color_mode(editor: &EditorColorConfig) -> (m: LineColorMode)
    ensures
        m == (match editor.line {
            Some(l) => mode_of_line(l),
            None => LineColorMode::Solid,
        }),
{
    match &editor.line {
        Some(l) => LineColorMode::from_line_color(l),
        None => LineColorMode::Solid,
    }
}

} // verus!
