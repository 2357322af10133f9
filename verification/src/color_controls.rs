//! What the colour controls of the editor write into the authored
//! configuration when the user switches modes or toggles "use default".

use vstd::prelude::*;

use crate::color::{mode_of_line, slots_after, ColorControlMemory, LineColorMode};
use crate::config::Rgb;
use crate::editor_config::EditorLineColorConfig;

verus! {

/// A line-colour field that can fall back to its default.
#[derive(Clone, Copy, Debug, PartialEq, Eq, Structural)]
pub enum ColorDefaultField {
    SolidLine,
    GradientStart,
    GradientEnd,
    HueCycleInitial,
}

/// The authored line colour after `field` is switched to its default
/// (`use_default`) or back to the remembered colour, given the authored line
/// colour `editor` and the picker fields `(solid, gradient start, gradient
/// end, hue-cycle start)` shown at that moment.
pub open spec fn toggled_line(
    field: ColorDefaultField,
    use_default: bool,
    editor: Option<EditorLineColorConfig>,
    shown: (Rgb, Rgb, Rgb, Rgb),
) -> Option<EditorLineColorConfig> {
    let (start, end, td) = match editor {
        Some(EditorLineColorConfig::Gradient { start, end, topological_depth }) => (
            start,
            end,
            topological_depth,
        ),
        _ => (None, None, None),
    };
    match field {
        ColorDefaultField::SolidLine => if use_default {
            None
        } else {
            Some(EditorLineColorConfig::Solid(shown.0))
        },
        ColorDefaultField::GradientStart => Some(
            EditorLineColorConfig::Gradient {
                start: if use_default {
                    None
                } else {
                    Some(shown.1)
                },
                end,
                topological_depth: td,
            },
        ),
        ColorDefaultField::GradientEnd => Some(
            EditorLineColorConfig::Gradient {
                start,
                end: if use_default {
                    None
                } else {
                    Some(shown.2)
                },
                topological_depth: td,
            },
        ),
        ColorDefaultField::HueCycleInitial => Some(
            EditorLineColorConfig::HueCycle {
                initial: if use_default {
                    None
                } else {
                    Some(shown.3)
                },
            },
        ),
    }
}

/// The picker fields a memory shows: solid colour, gradient start and end,
/// hue-cycle start, each remembered or else the default.
pub open spec fn shown_fields(m: ColorControlMemory) -> (Rgb, Rgb, Rgb, Rgb) {
    let d = m.spec_line_defaults();
    (
        match m.spec_solid() {
            Some(c) => c,
            None => d.solid,
        },
        match m.spec_gradient().0 {
            Some(c) => c,
            None => d.gradient.start,
        },
        match m.spec_gradient().1 {
            Some(c) => c,
            None => d.gradient.end,
        },
        match m.spec_hue_cycle() {
            Some(c) => c,
            None => d.hue_cycle.initial,
        },
    )
}

/// The memory after remembering `line`.
pub open spec fn remembered(before: ColorControlMemory, after: ColorControlMemory, line: Option<EditorLineColorConfig>) -> bool {
    &&& after.spec_background() == before.spec_background()
    &&& after.spec_line_defaults() == before.spec_line_defaults()
    &&& (after.spec_solid(), after.spec_gradient(), after.spec_hue_cycle()) == slots_after(
        before.spec_solid(),
        before.spec_gradient(),
        before.spec_hue_cycle(),
        line,
    )
}

/// Switches `field` to its default or back to the remembered colour.
/// Switching to the default first remembers the authored line colour, so
/// switching back restores it.
pub fn toggle_line_color_default(
    memory: &mut ColorControlMemory,
    editor_line: Option<EditorLineColorConfig>,
    field: ColorDefaultField,
    use_default: bool,
) -> (line: Option<EditorLineColorConfig>)
    ensures
        use_default ==> remembered(*old(memory), *final(memory), editor_line),
        !use_default ==> *final(memory) == *old(memory),
        line == toggled_line(field, use_default, editor_line, shown_fields(*final(memory))),
{
    if use_default {
        memory.remember_line(editor_line);
    }
    let (editor_start, editor_end, editor_td) = match editor_line {
        Some(l) => l.gradient_fields(),
        None => (None, None, None),
    };
    let (mem_start, mem_end, _) = memory.gradient_fields();
    match field {
        ColorDefaultField::SolidLine => if use_default {
            None
        } else {
            Some(EditorLineColorConfig::Solid(memory.solid_color()))
        },
        ColorDefaultField::GradientStart => Some(
            EditorLineColorConfig::Gradient {
                start: if use_default {
                    None
                } else {
                    Some(mem_start)
                },
                end: editor_end,
                topological_depth: editor_td,
            },
        ),
        ColorDefaultField::GradientEnd => Some(
            EditorLineColorConfig::Gradient {
                start: editor_start,
                end: if use_default {
                    None
                } else {
                    Some(mem_end)
                },
                topological_depth: editor_td,
            },
        ),
        ColorDefaultField::HueCycleInitial => Some(
            EditorLineColorConfig::HueCycle {
                initial: if use_default {
                    None
                } else {
                    Some(memory.hue_cycle_initial())
                },
            },
        ),
    }
}

/// Switches the line-colour mode: the authored line colour is remembered,
/// and the line colour remembered for `mode` becomes the authored one.
pub fn switch_line_color_mode(
    memory: &mut ColorControlMemory,
    editor_line: Option<EditorLineColorConfig>,
    mode: LineColorMode,
) -> (line: Option<EditorLineColorConfig>)
    ensures
        remembered(*old(memory), *final(memory), editor_line),
        line == final(memory).remembered_line(mode),
{
    memory.remember_line(editor_line);
    memory.line_for(mode)
}

/// Switches the background to its default (`is_default`), remembering the
/// background shown until then, or back to the remembered background.
pub fn toggle_background_default(memory: &mut ColorControlMemory, shown_background: Rgb, is_default: bool) -> (background: Option<Rgb>)
    ensures
        is_default ==> background is None && final(memory).spec_background() == shown_background,
        !is_default ==> background == Some(old(memory).spec_background()) && *final(memory) == *old(
            memory,
        ),
        final(memory).spec_line_defaults() == old(memory).spec_line_defaults(),
        final(memory).spec_solid() == old(memory).spec_solid(),
        final(memory).spec_gradient() == old(memory).spec_gradient(),
        final(memory).spec_hue_cycle() == old(memory).spec_hue_cycle(),
{
    if is_default {
        memory.remember_background(shown_background);
        None
    } else {
        Some(memory.background())
    }
}

/// Switching the mode away from an authored line colour and back restores it:
/// the picker remembers each mode's colour across mode switches.
pub proof fn lemma_mode_switch_round_trip(
    m0: ColorControlMemory,
    m1: ColorControlMemory,
    m2: ColorControlMemory,
    authored: EditorLineColorConfig,
    other: LineColorMode,
)
    requires
        remembered(m0, m1, Some(authored)),
        remembered(m1, m2, m1.remembered_line(other)),
    ensures
        m2.remembered_line(mode_of_line(authored)) == Some(authored),
{
}

} // verus!
