use lsystem::names::{decimal_chars, unique_name};
use lsystem::presets::load_presets;
use lsystem::workspace::{ConfigWorkspace, WorkspaceError};

/// A workspace whose entries are just their source text.
fn workspace(names: &[&str]) -> Result<ConfigWorkspace<String>, WorkspaceError> {
    ConfigWorkspace::from_presets(
        names.iter().map(|n| (n.to_string(), format!("name = \"{n}\""))).collect(),
    )
}

#[test]
fn from_presets_rejects_empty_iterator() {
    let error = workspace(&[]).unwrap_err();
    assert!(matches!(error, WorkspaceError::Empty));
}

#[test]
fn from_presets_rejects_duplicate_names() {
    let error = workspace(&["Duplicate", "Duplicate"]).unwrap_err();
    assert!(matches!(error, WorkspaceError::DuplicateName(ref name) if name == "Duplicate"));
}

#[test]
fn fresh_workspace_is_not_dirty_and_selects_first_entry() {
    let ws = workspace(&["First", "Second"]).unwrap();
    assert_eq!(ws.selected_index(), 0);
    assert_eq!(ws.selected_name(), "First");
    assert_eq!(ws.entries().len(), 2);
}

#[test]
fn copy_selects_the_new_entry() {
    let mut ws = workspace(&["Plant"]).unwrap();
    let name = ws.copy_name();
    assert_eq!(name, "Plant copy");
    let index = ws.add_entry(name, "copied".to_string()).unwrap();
    assert_eq!(index, 1);
    assert_eq!(ws.selected_index(), 1);
    assert_eq!(ws.selected(), "copied");
    assert_eq!(ws.names()[0], "Plant");
}

#[test]
fn select_rejects_out_of_bounds_index() {
    let mut ws = workspace(&["First"]).unwrap();
    let error = ws.select(1).unwrap_err();
    assert!(matches!(error, WorkspaceError::InvalidIndex(1)));
    assert_eq!(ws.selected_index(), 0);
}

#[test]
fn index_by_name_returns_none_for_unknown_name() {
    let ws = workspace(&["First"]).unwrap();
    assert_eq!(ws.index_by_name("Missing"), None);
    assert_eq!(ws.index_by_name("First"), Some(0));
}

#[test]
fn rename_updates_entry_name() {
    let mut ws = workspace(&["Plant"]).unwrap();
    ws.replace_entry(0, "My Plant".to_string(), "name = \"My Plant\"".to_string()).unwrap();
    assert_eq!(ws.selected_name(), "My Plant");
    assert!(ws.selected().contains("\"My Plant\""));
}

#[test]
fn rename_rejects_duplicate_name() {
    let mut ws = workspace(&["First", "Second"]).unwrap();
    let err = ws.replace_entry(0, "Second".to_string(), String::new()).unwrap_err();
    assert!(matches!(err, WorkspaceError::DuplicateName(ref n) if n == "Second"));
    assert_eq!(ws.selected_name(), "First");
}

#[test]
fn rename_rejects_invalid_index() {
    let mut ws = workspace(&["First"]).unwrap();
    assert!(matches!(
        ws.replace_entry(1, "Y".to_string(), String::new()).unwrap_err(),
        WorkspaceError::InvalidIndex(1)
    ));
}

#[test]
fn a_taken_name_gets_the_first_free_suffix() {
    let mut ws = workspace(&["First"]).unwrap();
    let name = ws.unique_name("First");
    assert_eq!(name, "First 2");
    let index = ws.add_entry(name, "imported".to_string()).unwrap();
    assert_eq!(index, 1);
    assert_eq!(ws.selected_name(), "First 2");
}

// --- Further cases ---

#[test]
fn unique_names_skip_every_taken_suffix() {
    let names: Vec<String> =
        ["A", "A 2", "A 3", "B"].iter().map(|s| s.to_string()).collect();
    assert_eq!(unique_name(&names, "A"), "A 4");
    assert_eq!(unique_name(&names, "B"), "B 2");
    assert_eq!(unique_name(&names, "C"), "C");
    let many: Vec<String> = std::iter::once("x".to_string())
        .chain((2..=11).map(|k| format!("x {k}")))
        .collect();
    assert_eq!(unique_name(&many, "x"), "x 12");
}

#[test]
fn decimal_digits_have_no_leading_zeros() {
    let digits = |n: usize| decimal_chars(n).into_iter().collect::<String>();
    assert_eq!(digits(0), "0");
    assert_eq!(digits(7), "7");
    assert_eq!(digits(10), "10");
    assert_eq!(digits(1234567), "1234567");
}

#[test]
fn committing_keeps_names_unique() {
    let mut ws = workspace(&["First", "Second"]).unwrap();
    ws.select(1).unwrap();
    assert!(matches!(
        ws.replace_entry(1, "First".to_string(), String::new()),
        Err(WorkspaceError::DuplicateName(ref n)) if n == "First"
    ));
    ws.replace_entry(1, "Second".to_string(), "applied".to_string()).unwrap();
    assert_eq!(ws.selected(), "applied");
    assert!(ws.can_reset_to("Second", true));
    assert!(!ws.can_reset_to("First", true));
    assert!(!ws.can_reset_to("Second", false));
    assert!(ws.name_exists_except("First", 1));
    assert!(!ws.name_exists_except("First", 0));
}

#[test]
fn adding_a_taken_name_is_refused() {
    let mut ws = workspace(&["First"]).unwrap();
    assert!(matches!(
        ws.add_entry("First".to_string(), String::new()),
        Err(WorkspaceError::DuplicateName(ref n)) if n == "First"
    ));
    assert_eq!(ws.entries().len(), 1);
}

#[test]
fn presets_are_toml_files_sorted_by_path() {
    let files = vec![
        ("sierpinski.toml".to_string(), Some("s".to_string())),
        ("README.md".to_string(), Some("r".to_string())),
        ("binary.toml".to_string(), None),
        (".toml".to_string(), Some("hidden".to_string())),
        ("dragon.toml".to_string(), Some("d".to_string())),
        ("koch.toml".to_string(), Some("k".to_string())),
        ("notes.toml.bak".to_string(), Some("n".to_string())),
    ];
    let presets = load_presets(files);
    let labels: Vec<&str> = presets.iter().map(|(l, _)| l.as_str()).collect();
    assert_eq!(labels, ["dragon.toml", "koch.toml", "sierpinski.toml"]);
    assert_eq!(presets[0].1, "d");
}

#[test]
fn preset_order_is_byte_order() {
    let files = vec![
        ("b.toml".to_string(), Some(String::new())),
        ("B.toml".to_string(), Some(String::new())),
        ("a.toml".to_string(), Some(String::new())),
        ("ä.toml".to_string(), Some(String::new())),
        ("a b.toml".to_string(), Some(String::new())),
    ];
    let labels: Vec<String> = load_presets(files).into_iter().map(|(l, _)| l).collect();
    let mut expected = labels.clone();
    expected.sort();
    assert_eq!(labels, expected);
    assert_eq!(labels, ["B.toml", "a b.toml", "a.toml", "b.toml", "ä.toml"]);
}

#[test]
fn presets_with_one_path_keep_their_order() {
    let files = vec![
        ("b.toml".to_string(), Some("first b".to_string())),
        ("a.toml".to_string(), Some("only a".to_string())),
        ("b.toml".to_string(), Some("second b".to_string())),
        ("b.toml".to_string(), None),
    ];
    let presets = load_presets(files);
    let texts: Vec<&str> = presets.iter().map(|(_, t)| t.as_str()).collect();
    assert_eq!(texts, ["only a", "first b", "second b"]);
}
