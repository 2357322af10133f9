use lsystem::config::Rgb;
use lsystem::config_entry::{ConfigDocument, ConfigEntry};
use lsystem::config_source::ConfigSource;
use lsystem::workspace::{ConfigWorkspace, WorkspaceError};

fn text(name: &str, iterations: u32) -> String {
    format!(
        "[metadata]\nname = \"{name}\"\n\n[l-system]\ndimensions = \"2D\"\niterations = {iterations}\n\n[l-system.rules]\nF = \"FF\"\n\n[colors]\nbackground = \"#000000\"\n"
    )
}

fn doc_of(text: &str, name: &str) -> ConfigDocument {
    ConfigDocument::new(ConfigSource::parse(text).unwrap(), name.to_string())
}

fn doc(name: &str, iterations: u32) -> ConfigDocument {
    doc_of(&text(name, iterations), name)
}

fn workspace(names: &[&str]) -> ConfigWorkspace<ConfigEntry> {
    ConfigWorkspace::from_documents(names.iter().map(|n| doc(n, 1)).collect()).unwrap()
}

/// Applies the selected draft the way the editor does: read it, take the
/// name it declares, and hand the document to the workspace.
fn apply_draft(ws: &mut ConfigWorkspace<ConfigEntry>, name: &str) -> Result<(), WorkspaceError> {
    let source = ws.selected().pending_source().unwrap().unwrap();
    ws.apply(ConfigDocument::new(source, name.to_string()))
}

#[test]
fn documents_keep_their_text_and_name() {
    let d = doc("First", 1);
    assert_eq!(d.name(), "First");
    assert_eq!(d.to_toml_string(), text("First", 1));
}

#[test]
fn fresh_workspace_entries_are_clean_presets() {
    let ws = workspace(&["First", "Second"]);
    assert_eq!(ws.selected_index(), 0);
    for entry in ws.entries() {
        assert!(!entry.is_dirty());
        assert!(entry.default_name().is_some());
        assert!(!entry.has_default_changes());
    }
    assert_eq!(ws.selected().draft_text(), text("First", 1));
    assert!(!ws.can_reset());
}

#[test]
fn empty_and_duplicate_document_lists_are_refused() {
    assert!(matches!(
        ConfigWorkspace::<ConfigEntry>::from_documents(vec![]),
        Err(WorkspaceError::Empty)
    ));
    assert!(matches!(
        ConfigWorkspace::<ConfigEntry>::from_documents(vec![doc("A", 1), doc("B", 1), doc("A", 2)]),
        Err(WorkspaceError::DuplicateName(n)) if n == "A"
    ));
}

#[test]
fn switching_entries_keeps_each_draft() {
    let mut ws = workspace(&["First", "Second"]);
    let mut first = ws.selected().clone();
    first.set_draft_text("first draft".to_string());
    ws.replace_entry(0, "First".to_string(), first).unwrap();
    ws.select(1).unwrap();
    assert!(!ws.selected().is_dirty());
    ws.select(0).unwrap();
    assert_eq!(ws.selected().draft_text(), "first draft");
    assert!(ws.selected().is_dirty());
}

#[test]
fn draft_equal_to_the_applied_text_is_clean() {
    let mut entry = ConfigEntry::custom(doc("First", 1));
    entry.set_draft_text(text("First", 1));
    assert!(!entry.is_dirty());
    entry.set_draft_text(text("First", 2));
    assert!(entry.is_dirty());
    entry.revert();
    assert!(!entry.is_dirty());
    assert_eq!(entry.draft_text(), text("First", 1));
}

#[test]
fn pending_source_reads_the_draft() {
    let mut entry = ConfigEntry::custom(doc("First", 1));
    assert!(entry.pending_source().is_none());
    entry.set_draft_text("[metadata\n".to_string());
    assert!(matches!(entry.pending_source(), Some(Err(_))));
    entry.set_draft_text(text("First", 3));
    let source = entry.pending_source().unwrap().unwrap();
    assert_eq!(source.to_toml_string(), text("First", 3));
}

#[test]
fn applying_a_draft_commits_it_and_renames_the_entry() {
    let mut ws = workspace(&["First", "Second"]);
    let mut entry = ws.selected().clone();
    entry.set_draft_text(text("Renamed", 4));
    ws.replace_entry(0, "First".to_string(), entry).unwrap();

    apply_draft(&mut ws, "Renamed").unwrap();
    assert_eq!(ws.selected().name(), "Renamed");
    assert_eq!(ws.names()[0], "Renamed");
    assert!(!ws.selected().is_dirty());
    assert_eq!(ws.selected().draft_text(), text("Renamed", 4));
    assert!(ws.selected().has_default_changes());
}

#[test]
fn applying_a_draft_under_a_taken_name_is_refused() {
    let mut ws = workspace(&["First", "Second"]);
    let mut entry = ws.selected().clone();
    entry.set_draft_text(text("Second", 4));
    ws.replace_entry(0, "First".to_string(), entry).unwrap();

    assert!(matches!(
        apply_draft(&mut ws, "Second"),
        Err(WorkspaceError::DuplicateName(n)) if n == "Second"
    ));
    assert_eq!(ws.selected().name(), "First");
    assert!(ws.selected().is_dirty());
    assert_eq!(ws.selected().draft_text(), text("Second", 4));
}

#[test]
fn reset_restores_the_bundled_default() {
    let mut ws = workspace(&["First"]);
    let mut source = ws.selected().applied().source().clone();
    source.set_background(Some(Rgb::new(0x1a, 0x33, 0x4d)));
    ws.apply(ConfigDocument::new(source, "First".to_string())).unwrap();
    assert!(ws.selected().has_default_changes());
    assert!(ws.can_reset());

    assert_eq!(ws.reset().unwrap(), true);
    assert!(!ws.selected().is_dirty());
    assert_eq!(ws.selected().draft_text(), text("First", 1));
    assert!(!ws.can_reset());
}

#[test]
fn custom_entries_have_no_default_to_reset() {
    let mut ws = workspace(&["First"]);
    ws.import(doc("Imported", 2)).unwrap();
    assert!(ws.selected().default_name().is_none());
    assert!(!ws.can_reset());
    assert_eq!(ws.reset().unwrap(), false);
    assert_eq!(ws.selected().draft_text(), text("Imported", 2));
}

#[test]
fn reset_is_refused_when_another_entry_holds_the_default_name() {
    let mut ws = workspace(&["First"]);
    ws.apply(doc("Renamed", 1)).unwrap();
    ws.import(doc("First", 5)).unwrap();
    ws.select(0).unwrap();
    assert!(!ws.can_reset());
    assert!(matches!(ws.reset(), Err(WorkspaceError::DuplicateName(n)) if n == "First"));
    assert_eq!(ws.selected().name(), "Renamed");
}

#[test]
fn copy_renames_a_valid_draft_and_keeps_the_applied_document() {
    let mut ws = workspace(&["First"]);
    let mut entry = ws.selected().clone();
    entry.set_draft_text(text("First", 7));
    ws.replace_entry(0, "First".to_string(), entry).unwrap();

    assert_eq!(ws.copy_name(), "First copy");
    let index = ws.copy().unwrap();
    assert_eq!(index, 1);
    assert_eq!(ws.selected_index(), 1);
    let copy = ws.selected();
    assert_eq!(copy.name(), "First copy");
    assert!(copy.default_name().is_none());
    assert!(copy.is_dirty());
    let draft = copy.draft_text();
    assert!(draft.contains("name = \"First copy\""), "{draft}");
    assert!(draft.contains("iterations = 7"), "{draft}");
    let applied = copy.applied().to_toml_string();
    assert!(applied.contains("name = \"First copy\""), "{applied}");
    assert!(applied.contains("iterations = 1"), "{applied}");
}

#[test]
fn copy_keeps_a_draft_that_is_not_toml() {
    let mut ws = workspace(&["First"]);
    let mut entry = ws.selected().clone();
    entry.set_draft_text("name = = broken".to_string());
    ws.replace_entry(0, "First".to_string(), entry).unwrap();

    ws.copy().unwrap();
    assert_eq!(ws.selected().draft_text(), "name = = broken");
}

#[test]
fn rename_renames_the_document_and_the_draft() {
    let mut ws = workspace(&["First", "Second"]);
    let mut entry = ws.selected().clone();
    entry.set_draft_text(text("First", 9));
    ws.replace_entry(0, "First".to_string(), entry).unwrap();

    ws.rename(0, "Third").unwrap();
    assert_eq!(ws.names()[0], "Third");
    assert!(ws.selected().is_dirty());
    let draft = ws.selected().draft_text();
    assert!(draft.contains("name = \"Third\""), "{draft}");
    assert!(draft.contains("iterations = 9"), "{draft}");
    assert!(ws.selected().applied().to_toml_string().contains("name = \"Third\""));
}

#[test]
fn rename_refuses_bad_indexes_and_taken_names() {
    let mut ws = workspace(&["First", "Second"]);
    assert!(matches!(
        ws.rename(0, "Second"),
        Err(WorkspaceError::DuplicateName(n)) if n == "Second"
    ));
    assert!(matches!(
        ws.rename(5, "X"),
        Err(WorkspaceError::InvalidIndex(5))
    ));
    assert_eq!(ws.names()[0], "First");
}

#[test]
fn import_takes_a_free_name_and_selects_the_entry() {
    let mut ws = workspace(&["Imported"]);
    let base = "Imported";
    let unique = ws.unique_name(base);
    assert_eq!(unique, "Imported 2");
    let mut source = ConfigSource::parse(&text(base, 3)).unwrap();
    source.set_name(&unique);
    let index = ws.import(ConfigDocument::new(source, unique.clone())).unwrap();
    assert_eq!(index, 1);
    assert_eq!(ws.selected_index(), 1);
    assert_eq!(ws.selected().name(), "Imported 2");
    assert!(ws.selected().draft_text().contains("name = \"Imported 2\""));
    assert!(ws.import(doc("Imported", 1)).is_err());
    assert_eq!(ws.selected_index(), 1);
}

/// A configuration like the ones the editor's tests use: name, symbols and
/// turtle angle.
fn plant_text(name: &str, rule: &str, angle: f32) -> String {
    format!(
        "[metadata]\nname = \"{name}\"\n\n[l-system]\ndimensions = \"2D\"\niterations = 1\n\n[l-system.rules]\nF = \"{rule}\"\n\n[turtle]\nangle = {angle:?}\n\n[colors]\nbackground = \"#000000\"\n\n[colors.line]\nsolid = \"#00e680\"\n"
    )
}

fn renamed_text(text: &str, name: &str) -> String {
    let mut source = ConfigSource::parse(text).unwrap();
    source.set_name(name);
    source.to_toml_string()
}

/// Imports `text` the way the editor does: read it, check it (here: the
/// caller knows the name it declares), and hand it to the workspace.
fn import_text(
    ws: &mut ConfigWorkspace<ConfigEntry>,
    text: &str,
    name: &str,
) -> Result<usize, String> {
    let source = ConfigSource::parse(text).map_err(|_| "not TOML".to_string())?;
    ws.import_toml(ConfigDocument::new(source, name.to_string())).map_err(|e| format!("{e:?}"))
}

#[test]
fn import_toml_creates_new_selected_entry_with_no_default() {
    let first = plant_text("First", "F", 60.0);
    let imported = plant_text("Imported", "F+F", 90.0);
    let mut ws = ConfigWorkspace::from_documents(vec![doc_of(&first, "First")]).unwrap();

    let idx = import_text(&mut ws, &imported, "Imported").unwrap();

    assert_eq!(idx, 1);
    assert_eq!(ws.selected_index(), 1);
    assert_eq!(ws.selected().name(), "Imported");
    assert!(!ws.selected().is_dirty());
    assert!(!ws.can_reset());
    assert_eq!(ws.entries().len(), 2);
}

#[test]
fn import_toml_deduplicates_name_with_suffix() {
    let first = plant_text("First", "F", 60.0);
    let duplicate = plant_text("First", "F+F", 90.0);
    let mut ws = ConfigWorkspace::from_documents(vec![doc_of(&first, "First")]).unwrap();

    let idx = import_text(&mut ws, &duplicate, "First").unwrap();

    assert_eq!(idx, 1);
    assert_eq!(ws.selected().name(), "First 2");
    assert!(!ws.selected().is_dirty());
    let text = ws.selected().draft_text();
    assert!(text.contains("name = \"First 2\""), "{text}");
    assert!(text.contains("angle = 90.0"), "{text}");
}

#[test]
fn import_toml_rejects_invalid_toml() {
    let first = plant_text("First", "F", 60.0);
    let mut ws = ConfigWorkspace::from_documents(vec![doc_of(&first, "First")]).unwrap();

    assert!(import_text(&mut ws, "not valid toml", "x").is_err());
    assert_eq!(ws.entries().len(), 1);
    assert_eq!(ws.selected_index(), 0);
}

#[test]
fn config_workspace_apply_unique_renamed_draft_updates_entry_name() {
    let first = plant_text("First", "F", 60.0);
    let second = plant_text("Second", "F+F", 90.0);
    let mut ws =
        ConfigWorkspace::from_documents(vec![doc_of(&first, "First"), doc_of(&second, "Second")])
            .unwrap();

    let mut entry = ws.selected().clone();
    entry.set_draft_text(renamed_text(&first, "Renamed"));
    ws.replace_entry(0, "First".to_string(), entry).unwrap();
    apply_draft(&mut ws, "Renamed").unwrap();

    assert_eq!(ws.selected().name(), "Renamed");
    assert_eq!(ws.selected_index(), 0);
    assert_eq!(ws.names(), &vec!["Renamed".to_string(), "Second".to_string()]);
    assert!(!ws.selected().is_dirty());
}

#[test]
fn config_workspace_copy_entry_preserves_dirty_valid_draft() {
    let first = plant_text("Plant", "F", 60.0);
    let second = plant_text("Plant copy", "F+F", 90.0);
    let draft = first.replace("angle = 60", "angle = 45");
    let mut ws =
        ConfigWorkspace::from_documents(vec![doc_of(&first, "Plant"), doc_of(&second, "Plant copy")])
            .unwrap();
    ws.select(0).unwrap();
    let mut entry = ws.selected().clone();
    entry.set_draft_text(draft.clone());
    ws.replace_entry(0, "Plant".to_string(), entry).unwrap();

    ws.copy().unwrap();
    let expected_text = renamed_text(&draft, "Plant copy 2");
    let expected_applied = renamed_text(&first, "Plant copy 2");

    let entry = ws.selected();
    assert_eq!(entry.name(), "Plant copy 2");
    assert_eq!(entry.draft_text(), expected_text);
    assert!(entry.is_dirty());
    assert_eq!(entry.applied().to_toml_string(), expected_applied);
    assert!(entry.applied().to_toml_string().contains("angle = 60"));
    assert!(!ws.can_reset());
}

#[test]
fn config_workspace_copy_entry_preserves_unparseable_draft_text() {
    let first = plant_text("Plant", "F", 60.0);
    let mut ws = ConfigWorkspace::from_documents(vec![doc_of(&first, "Plant")]).unwrap();
    let mut entry = ws.selected().clone();
    entry.set_draft_text("not valid toml".to_string());
    ws.replace_entry(0, "Plant".to_string(), entry).unwrap();

    ws.copy().unwrap();
    let expected_applied = renamed_text(&first, "Plant copy");

    let entry = ws.selected();
    assert_eq!(entry.name(), "Plant copy");
    assert_eq!(entry.draft_text(), "not valid toml");
    assert!(entry.is_dirty());
    assert_eq!(ws.selected_index(), 1);
    assert_eq!(entry.applied().to_toml_string(), expected_applied);
    assert!(ConfigSource::parse(&entry.draft_text()).is_err());
    assert!(!ws.can_reset());
}

#[test]
fn reset_with_a_free_default_name_resets() {
    let mut ws = workspace(&["First", "Second"]);
    ws.apply(doc("First", 3)).unwrap();
    assert!(ws.can_reset());
    assert_eq!(ws.reset().unwrap(), true);
    assert_eq!(ws.selected().draft_text(), text("First", 1));
}
