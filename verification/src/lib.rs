//! L-system grammars: symbol validation, colour configuration, compiled
//! grammar expansion and the small pieces of editor state built on them.

pub mod alphabet;
pub mod animation;
pub mod cancellation;
pub mod color;
pub mod color_controls;
pub mod config;
pub mod config_defaults;
pub mod config_entry;
pub mod config_source;
pub mod depth;
pub mod dimension;
pub mod editor_config;
pub mod export;
pub mod grammar;
pub mod growth;
pub mod names;
pub mod presets;
pub mod rewriting;
pub mod ruleset;
pub mod sphere_table;
pub mod symbol_ids;
pub mod text;
pub mod util;
pub mod workspace;
