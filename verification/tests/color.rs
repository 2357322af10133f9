use lsystem::color::{
    line_color_for_controls, selected_line_color_mode, ColorControlMemory, LineColorMode,
};
use lsystem::config::{LineColorConfig, Rgb};
use lsystem::config_defaults::{
    ColorDefaults, DefaultLineColorMode, GradientDefaults, HueCycleDefaults, LineColorDefaults,
};
use lsystem::editor_config::{EditorColorConfig, EditorLineColorConfig};

fn hex(s: &str) -> Rgb {
    Rgb::from_hex(s).unwrap()
}

/// The colour defaults the application ships with.
fn shipped_color_defaults() -> ColorDefaults {
    ColorDefaults {
        background: hex("#000000"),
        line: LineColorDefaults {
            default: DefaultLineColorMode::Solid,
            solid: hex("#00e680"),
            gradient: GradientDefaults {
                start: hex("#0d590d"),
                end: hex("#99e61a"),
                topological_depth: false,
            },
            hue_cycle: HueCycleDefaults { initial: hex("#e60000") },
        },
    }
}

fn custom_color_defaults() -> ColorDefaults {
    let mut defaults = shipped_color_defaults();
    defaults.background = Rgb::new(0x08, 0x10, 0x18);
    defaults.line.solid = Rgb::new(0x10, 0x20, 0x30);
    defaults.line.gradient.start = Rgb::new(0x40, 0x50, 0x60);
    defaults.line.gradient.end = Rgb::new(0x70, 0x80, 0x90);
    defaults.line.gradient.topological_depth = true;
    defaults.line.hue_cycle.initial = Rgb::new(0xa0, 0xb0, 0xc0);
    defaults
}

#[test]
fn missing_editor_line_uses_solid_color_for_controls() {
    let defaults = custom_color_defaults();
    assert_eq!(
        line_color_for_controls(&EditorColorConfig::default(), &defaults.line),
        LineColorConfig::Solid(defaults.line.solid)
    );
}

#[test]
fn selected_line_color_mode_uses_solid_when_line_is_absent() {
    assert_eq!(
        selected_line_color_mode(&EditorColorConfig::default()),
        LineColorMode::Solid
    );
}

#[test]
fn selected_line_color_mode_uses_authored_mode_when_present() {
    let editor = EditorColorConfig {
        background: None,
        line: Some(EditorLineColorConfig::HueCycle { initial: None }),
    };

    assert_eq!(selected_line_color_mode(&editor), LineColorMode::HueCycle);
}

#[test]
fn empty_authored_line_modes_resolve_parameters_from_defaults() {
    let defaults = custom_color_defaults();

    assert_eq!(
        line_color_for_controls(
            &EditorColorConfig {
                background: None,
                line: Some(EditorLineColorConfig::Gradient {
                    start: None,
                    end: None,
                    topological_depth: None,
                }),
            },
            &defaults.line,
        ),
        LineColorConfig::Gradient {
            start: defaults.line.gradient.start,
            end: defaults.line.gradient.end,
            topological_depth: defaults.line.gradient.topological_depth,
        }
    );
    assert_eq!(
        line_color_for_controls(
            &EditorColorConfig {
                background: None,
                line: Some(EditorLineColorConfig::HueCycle { initial: None }),
            },
            &defaults.line,
        ),
        LineColorConfig::HueCycle { initial: defaults.line.hue_cycle.initial }
    );
}

#[test]
fn color_memory_from_editor_config_initializes_background_from_editor_or_defaults() {
    let defaults = custom_color_defaults();
    let default_memory =
        ColorControlMemory::from_editor_config(&EditorColorConfig::default(), &defaults);
    assert_eq!(default_memory.background(), defaults.background);

    let override_background = Rgb::new(0xf0, 0xe0, 0xd0);
    let override_memory = ColorControlMemory::from_editor_config(
        &EditorColorConfig { background: Some(override_background), line: None },
        &defaults,
    );
    assert_eq!(override_memory.background(), override_background);
}

#[test]
fn color_memory_inactive_line_slots_use_none_for_defaults() {
    let defaults = custom_color_defaults();
    let hue_active_memory = ColorControlMemory::from_editor_config(
        &EditorColorConfig {
            background: None,
            line: Some(EditorLineColorConfig::HueCycle { initial: Some(Rgb::new(0xf0, 0xe0, 0xd0)) }),
        },
        &defaults,
    );

    assert_eq!(hue_active_memory.line_for(LineColorMode::Solid), None);
    assert_eq!(
        hue_active_memory.line_for(LineColorMode::Gradient),
        Some(EditorLineColorConfig::Gradient { start: None, end: None, topological_depth: None })
    );

    let solid_active_memory = ColorControlMemory::from_editor_config(
        &EditorColorConfig {
            background: None,
            line: Some(EditorLineColorConfig::Solid(Rgb::new(0xd0, 0xe0, 0xf0))),
        },
        &defaults,
    );

    assert_eq!(
        solid_active_memory.line_for(LineColorMode::HueCycle),
        Some(EditorLineColorConfig::HueCycle { initial: None })
    );
}

#[test]
fn line_color_mode_key_round_trip() {
    for mode in [LineColorMode::Solid, LineColorMode::Gradient, LineColorMode::HueCycle] {
        assert_eq!(LineColorMode::from_key(mode.key()), Some(mode));
    }
    assert_eq!(LineColorMode::ALL.len(), 3);
    assert_eq!(LineColorMode::from_key("unknown"), None);
    assert_eq!(LineColorMode::from_key("depth_gradient"), None);
}

#[test]
fn color_memory_remembers_solid_across_mode_switch() {
    let solid = Some(EditorLineColorConfig::Solid(Rgb::new(0xff, 0x00, 0x00)));
    let mut memory = ColorControlMemory::from_editor_config(
        &EditorColorConfig {
            background: None,
            line: Some(EditorLineColorConfig::Solid(Rgb::new(0xff, 0x00, 0x00))),
        },
        &shipped_color_defaults(),
    );
    memory.remember_line(Some(EditorLineColorConfig::Gradient {
        start: None,
        end: None,
        topological_depth: None,
    }));
    assert_eq!(memory.line_for(LineColorMode::Solid), solid);
}

#[test]
fn color_memory_unvisited_slots_return_all_none() {
    let memory = ColorControlMemory::from_editor_config(
        &EditorColorConfig::default(),
        &shipped_color_defaults(),
    );
    assert_eq!(memory.line_for(LineColorMode::Solid), None);
    assert_eq!(
        memory.line_for(LineColorMode::Gradient),
        Some(EditorLineColorConfig::Gradient { start: None, end: None, topological_depth: None })
    );
    assert_eq!(
        memory.line_for(LineColorMode::HueCycle),
        Some(EditorLineColorConfig::HueCycle { initial: None })
    );
}

#[test]
fn line_color_preserves_authored_topological_depth() {
    let editor = EditorColorConfig {
        background: None,
        line: Some(EditorLineColorConfig::Gradient {
            start: Some(Rgb::new(0x1a, 0x33, 0x4d)),
            end: Some(Rgb::new(0x80, 0x99, 0xb3)),
            topological_depth: Some(true),
        }),
    };

    assert_eq!(
        line_color_for_controls(&editor, &shipped_color_defaults().line),
        LineColorConfig::Gradient {
            start: Rgb::new(0x1a, 0x33, 0x4d),
            end: Rgb::new(0x80, 0x99, 0xb3),
            topological_depth: true,
        }
    );
    assert_eq!(
        ColorControlMemory::from_editor_config(&editor, &shipped_color_defaults())
            .line_for(LineColorMode::Gradient),
        Some(EditorLineColorConfig::Gradient {
            start: Some(Rgb::new(0x1a, 0x33, 0x4d)),
            end: Some(Rgb::new(0x80, 0x99, 0xb3)),
            topological_depth: Some(true),
        })
    );
}

#[test]
fn color_memory_preserves_gradient_topological_depth_flag() {
    let mut memory = ColorControlMemory::from_editor_config(
        &EditorColorConfig {
            background: None,
            line: Some(EditorLineColorConfig::Gradient {
                start: Some(Rgb::new(0x1a, 0x33, 0x4d)),
                end: Some(Rgb::new(0xb3, 0xcc, 0xe6)),
                topological_depth: Some(true),
            }),
        },
        &shipped_color_defaults(),
    );
    memory.remember_line(Some(EditorLineColorConfig::HueCycle {
        initial: Some(Rgb::new(0xff, 0x00, 0x00)),
    }));

    assert_eq!(
        memory.line_for(LineColorMode::Gradient),
        Some(EditorLineColorConfig::Gradient {
            start: Some(Rgb::new(0x1a, 0x33, 0x4d)),
            end: Some(Rgb::new(0xb3, 0xcc, 0xe6)),
            topological_depth: Some(true),
        })
    );
}

#[test]
fn color_memory_background_remembered() {
    let bg = Rgb::new(0x1a, 0x33, 0x4d);
    let mut memory = ColorControlMemory::from_editor_config(
        &EditorColorConfig { background: Some(bg), line: None },
        &shipped_color_defaults(),
    );
    assert_eq!(memory.background(), bg);
    assert_eq!(memory.line_for(LineColorMode::Solid), None);
    let new_bg = Rgb::new(0xe5, 0xcc, 0xb3);
    memory.remember_background(new_bg);
    assert_eq!(memory.background(), new_bg);
}

#[test]
fn custom_defaults_are_used_by_gradient_resolve() {
    let mut defaults = shipped_color_defaults();
    defaults.line.gradient = GradientDefaults {
        start: hex("#123456"),
        end: hex("#abcdef"),
        topological_depth: true,
    };
    let resolved = EditorLineColorConfig::Gradient { start: None, end: None, topological_depth: None }
        .resolve(&defaults.line);

    assert_eq!(
        resolved,
        LineColorConfig::Gradient {
            start: hex("#123456"),
            end: hex("#abcdef"),
            topological_depth: true,
        }
    );
}

// --- Further cases ---

#[test]
fn default_line_color_follows_the_default_mode() {
    let mut line = shipped_color_defaults().line;
    assert_eq!(line.default_line_color(), LineColorConfig::Solid(hex("#00e680")));
    line.default = DefaultLineColorMode::Gradient;
    assert_eq!(
        line.default_line_color(),
        LineColorConfig::Gradient {
            start: hex("#0d590d"),
            end: hex("#99e61a"),
            topological_depth: false,
        }
    );
    line.default = DefaultLineColorMode::HueCycle;
    assert_eq!(line.default_line_color(), LineColorConfig::HueCycle { initial: hex("#e60000") });
}

#[test]
fn picker_fields_fall_back_to_defaults() {
    let defaults = custom_color_defaults();
    let mut memory = ColorControlMemory::from_editor_config(&EditorColorConfig::default(), &defaults);
    assert_eq!(memory.solid_color(), defaults.line.solid);
    assert_eq!(
        memory.gradient_fields(),
        (defaults.line.gradient.start, defaults.line.gradient.end, true)
    );
    assert_eq!(memory.hue_cycle_initial(), defaults.line.hue_cycle.initial);

    let red = Rgb::new(0xff, 0, 0);
    memory.remember_line(Some(EditorLineColorConfig::Gradient {
        start: Some(red),
        end: None,
        topological_depth: Some(false),
    }));
    memory.remember_line(Some(EditorLineColorConfig::Solid(red)));
    memory.remember_line(Some(EditorLineColorConfig::HueCycle { initial: Some(red) }));
    assert_eq!(memory.solid_color(), red);
    assert_eq!(memory.gradient_fields(), (red, defaults.line.gradient.end, false));
    assert_eq!(memory.hue_cycle_initial(), red);

    // Forgetting the line colour clears only the solid slot.
    memory.remember_line(None);
    assert_eq!(memory.line_for(LineColorMode::Solid), None);
    assert_eq!(memory.hue_cycle_initial(), red);
}

#[test]
fn mode_labels_and_gradient_fields() {
    assert_eq!(LineColorMode::HueCycle.label(), "Hue cycle");
    assert_eq!(LineColorMode::from_line_color(&EditorLineColorConfig::Solid(hex("#010203"))), LineColorMode::Solid);
    let c = hex("#010203");
    assert_eq!(
        EditorLineColorConfig::Gradient { start: Some(c), end: None, topological_depth: Some(true) }
            .gradient_fields(),
        (Some(c), None, Some(true))
    );
    assert_eq!(EditorLineColorConfig::Solid(c).gradient_fields(), (None, None, None));
}
