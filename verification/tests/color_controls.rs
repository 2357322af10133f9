use lsystem::color::{ColorControlMemory, LineColorMode};
use lsystem::color_controls::{
    switch_line_color_mode, toggle_background_default, toggle_line_color_default,
    ColorDefaultField,
};
use lsystem::config::Rgb;
use lsystem::config_defaults::{
    ColorDefaults, DefaultLineColorMode, GradientDefaults, HueCycleDefaults, LineColorDefaults,
};
use lsystem::editor_config::{EditorColorConfig, EditorLineColorConfig};

fn defaults() -> ColorDefaults {
    ColorDefaults {
        background: Rgb::new(0x08, 0x10, 0x18),
        line: LineColorDefaults {
            default: DefaultLineColorMode::Solid,
            solid: Rgb::new(0x10, 0x20, 0x30),
            gradient: GradientDefaults {
                start: Rgb::new(0x40, 0x50, 0x60),
                end: Rgb::new(0x70, 0x80, 0x90),
                topological_depth: false,
            },
            hue_cycle: HueCycleDefaults { initial: Rgb::new(0xa0, 0xb0, 0xc0) },
        },
    }
}

fn fresh_memory() -> ColorControlMemory {
    ColorControlMemory::from_editor_config(&EditorColorConfig::default(), &defaults())
}

#[test]
fn solid_default_toggle_clears_and_restores_the_authored_colour() {
    let mut memory = fresh_memory();
    let authored = Some(EditorLineColorConfig::Solid(Rgb::new(1, 2, 3)));

    let line = toggle_line_color_default(&mut memory, authored, ColorDefaultField::SolidLine, true);
    assert_eq!(line, None);

    let line = toggle_line_color_default(&mut memory, line, ColorDefaultField::SolidLine, false);
    assert_eq!(line, authored);
}

#[test]
fn solid_toggle_off_without_memory_uses_the_default_colour() {
    let mut memory = fresh_memory();
    let line = toggle_line_color_default(&mut memory, None, ColorDefaultField::SolidLine, false);
    assert_eq!(line, Some(EditorLineColorConfig::Solid(Rgb::new(0x10, 0x20, 0x30))));
}

#[test]
fn gradient_start_toggle_keeps_the_other_fields() {
    let mut memory = fresh_memory();
    let authored = Some(EditorLineColorConfig::Gradient {
        start: Some(Rgb::new(9, 9, 9)),
        end: Some(Rgb::new(7, 7, 7)),
        topological_depth: Some(true),
    });

    let line =
        toggle_line_color_default(&mut memory, authored, ColorDefaultField::GradientStart, true);
    assert_eq!(
        line,
        Some(EditorLineColorConfig::Gradient {
            start: None,
            end: Some(Rgb::new(7, 7, 7)),
            topological_depth: Some(true),
        })
    );

    let line =
        toggle_line_color_default(&mut memory, line, ColorDefaultField::GradientStart, false);
    assert_eq!(line, authored);
}

#[test]
fn gradient_end_toggle_uses_the_default_end_when_nothing_was_remembered() {
    let mut memory = fresh_memory();
    let authored = Some(EditorLineColorConfig::Gradient {
        start: Some(Rgb::new(9, 9, 9)),
        end: None,
        topological_depth: None,
    });
    let line =
        toggle_line_color_default(&mut memory, authored, ColorDefaultField::GradientEnd, false);
    assert_eq!(
        line,
        Some(EditorLineColorConfig::Gradient {
            start: Some(Rgb::new(9, 9, 9)),
            end: Some(Rgb::new(0x70, 0x80, 0x90)),
            topological_depth: None,
        })
    );
}

#[test]
fn hue_cycle_toggle_round_trip() {
    let mut memory = fresh_memory();
    let authored = Some(EditorLineColorConfig::HueCycle { initial: Some(Rgb::new(5, 6, 7)) });
    let line =
        toggle_line_color_default(&mut memory, authored, ColorDefaultField::HueCycleInitial, true);
    assert_eq!(line, Some(EditorLineColorConfig::HueCycle { initial: None }));
    let line =
        toggle_line_color_default(&mut memory, line, ColorDefaultField::HueCycleInitial, false);
    assert_eq!(line, authored);
}

#[test]
fn mode_switch_and_back_restores_the_authored_line() {
    let mut memory = fresh_memory();
    let authored = Some(EditorLineColorConfig::Solid(Rgb::new(1, 2, 3)));

    let line = switch_line_color_mode(&mut memory, authored, LineColorMode::Gradient);
    assert_eq!(
        line,
        Some(EditorLineColorConfig::Gradient { start: None, end: None, topological_depth: None })
    );

    let line = switch_line_color_mode(&mut memory, line, LineColorMode::Solid);
    assert_eq!(line, authored);
}

#[test]
fn background_default_toggle_remembers_the_shown_colour() {
    let mut memory = fresh_memory();
    let shown = Rgb::new(0x20, 0x30, 0x40);

    assert_eq!(toggle_background_default(&mut memory, shown, true), None);
    assert_eq!(toggle_background_default(&mut memory, shown, false), Some(shown));
    assert_eq!(memory.background(), shown);
}

#[test]
fn background_toggle_off_first_gives_the_initial_background() {
    let mut memory = fresh_memory();
    assert_eq!(
        toggle_background_default(&mut memory, Rgb::new(1, 1, 1), false),
        Some(Rgb::new(0x08, 0x10, 0x18))
    );
}
