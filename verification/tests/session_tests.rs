use path_editor::encoding::ValueEncoding;
use path_editor::expand::Environment;
use path_editor::registry::{read_reg_value, Hive, RawValue, RegistryError, Scope};
use path_editor::session::{Editor, Effect, SaveError};
use path_editor::store::MoveOutcome;

fn strings(items: &[&str]) -> Vec<String> {
    items.iter().map(|s| s.to_string()).collect()
}

fn raw(text: &str, type_code: u32) -> Option<RawValue> {
    let mut bytes = Vec::new();
    for u in text.encode_utf16().chain(Some(0)) {
        bytes.extend_from_slice(&u.to_le_bytes());
    }
    Some(RawValue { bytes, type_code })
}

fn broadcasts(effects: &[Effect]) -> usize {
    effects.iter().filter(|e| matches!(e, Effect::Broadcast)).count()
}

#[test]
fn scopes_bind_to_their_keys() {
    assert_eq!(Scope::User.hive(), Hive::CurrentUser);
    assert_eq!(Scope::System.hive(), Hive::LocalMachine);
    assert_eq!(Scope::User.subkey(), "Environment");
    assert_eq!(Scope::System.subkey(), "SYSTEM\\CurrentControlSet\\Control\\Session Manager\\Environment");
    assert_eq!(Scope::User.value_name(), "Path");
    assert_eq!(Scope::System.value_name(), "Path");
    assert!(!Scope::User.needs_elevation());
    assert!(Scope::System.needs_elevation());
    assert_eq!(Scope::User.panel_title(), "User PATH (HKCU)");
    assert_eq!(Scope::System.panel_title(), "System PATH (HKLM)");
}

#[test]
fn absent_value_reads_as_empty_plain() {
    assert_eq!(read_reg_value(None), (String::new(), ValueEncoding::Plain));
}

#[test]
fn present_value_is_decoded() {
    assert_eq!(read_reg_value(raw("C:\\A;%X%", 2)), ("C:\\A;%X%".to_string(), ValueEncoding::Expandable));
    assert_eq!(read_reg_value(raw("C:\\A", 1)), ("C:\\A".to_string(), ValueEncoding::Plain));
    assert_eq!(read_reg_value(raw("C:\\A", 3)), ("C:\\A".to_string(), ValueEncoding::Other));
    assert_eq!(
        read_reg_value(Some(RawValue { bytes: vec![0x41], type_code: 1 })),
        (String::new(), ValueEncoding::Plain)
    );
}

#[test]
fn session_starts_from_the_reads() {
    let editor = Editor::new(raw("C:\\U1; C:\\U2", 1), raw("%SystemRoot%;C:\\S", 2), true);
    assert!(editor.elevated());
    assert_eq!(editor.store(Scope::User).parts(), &strings(&["C:\\U1", "C:\\U2"]));
    assert_eq!(editor.store(Scope::User).encoding(), ValueEncoding::Plain);
    assert_eq!(editor.store(Scope::System).parts(), &strings(&["%SystemRoot%", "C:\\S"]));
    assert_eq!(editor.store(Scope::System).encoding(), ValueEncoding::Expandable);
}

#[test]
fn session_without_values_is_empty() {
    let editor = Editor::new(None, None, false);
    assert!(!editor.elevated());
    for scope in [Scope::User, Scope::System] {
        assert_eq!(editor.store(scope).len(), 0);
        assert_eq!(editor.store(scope).encoding(), ValueEncoding::Plain);
        assert_eq!(editor.store(scope).filter(), "");
    }
}

#[test]
fn edits_touch_one_scope() {
    let mut editor = Editor::new(raw("A;B;a", 1), raw("X;Y;Z", 1), false);
    assert!(editor.add(Scope::System, " W "));
    assert!(!editor.add(Scope::System, "  "));
    assert_eq!(editor.store(Scope::System).parts(), &strings(&["X", "Y", "Z", "W"]));
    assert_eq!(editor.store(Scope::User).parts(), &strings(&["A", "B", "a"]));
    let env = Environment::new();
    assert_eq!(editor.apply_dedupe(Scope::User, &env), 1);
    assert_eq!(editor.store(Scope::User).parts(), &strings(&["A", "B"]));
    editor.click(Scope::System, 3, false);
    assert_eq!(editor.move_selected(Scope::System, -1), MoveOutcome::Moved);
    assert_eq!(editor.store(Scope::System).parts(), &strings(&["X", "Y", "W", "Z"]));
    assert_eq!(editor.move_selected(Scope::User, -1), MoveOutcome::NothingSelected);
    assert_eq!(editor.remove_selected(Scope::System), 1);
    assert_eq!(editor.store(Scope::System).parts(), &strings(&["X", "Y", "Z"]));
    editor.apply_sort(Scope::User);
    assert_eq!(editor.store(Scope::User).parts(), &strings(&["A", "B"]));
}

#[test]
fn session_move_is_refused_while_filtering() {
    let mut editor = Editor::new(raw("A;B;C", 1), raw("X;Y", 1), true);
    editor.click(Scope::User, 1, false);
    editor.click(Scope::System, 1, false);
    editor.set_filter(Scope::User, "a".to_string());
    assert_eq!(editor.move_selected(Scope::User, 1), MoveOutcome::FilterActive);
    assert_eq!(editor.move_selected(Scope::User, -1), MoveOutcome::FilterActive);
    assert_eq!(editor.store(Scope::User).parts(), &strings(&["A", "B", "C"]));
    assert_eq!(editor.store(Scope::User).selected_indices(), vec![1]);
    assert_eq!(editor.move_selected(Scope::System, -1), MoveOutcome::Moved);
    assert_eq!(editor.store(Scope::System).parts(), &strings(&["Y", "X"]));
}

#[test]
fn system_save_needs_elevation() {
    let editor = Editor::new(raw("A", 1), raw("X", 1), false);
    assert_eq!(editor.save_one(Scope::System), Err(SaveError::ElevationRequired));
}

#[test]
fn user_save_ignores_elevation() {
    let plain = Editor::new(raw("A;B", 1), raw("X", 1), false);
    let elevated = Editor::new(raw("A;B", 1), raw("X", 1), true);
    let p1 = plain.save_one(Scope::User).unwrap();
    let p2 = elevated.save_one(Scope::User).unwrap();
    assert_eq!(p1, p2);
    assert_eq!(p1.scope, Scope::User);
    assert_eq!(p1.text, "A;B");
}

#[test]
fn elevated_system_save_is_planned() {
    let editor = Editor::new(raw("A", 1), raw("X;%Y%", 1), true);
    let plan = editor.save_one(Scope::System).unwrap();
    assert_eq!(plan.scope, Scope::System);
    assert_eq!(plan.text, "X;%Y%");
    assert_eq!(plan.encoding, ValueEncoding::Expandable);
    assert_eq!(plan.bytes, raw("X;%Y%", 2).unwrap().bytes);
}

#[test]
fn write_plan_keeps_expandable_encoding() {
    let editor = Editor::new(raw("A", 2), raw("X", 7), true);
    assert_eq!(editor.write_path(Scope::User).encoding, ValueEncoding::Expandable);
    assert_eq!(editor.write_path(Scope::System).encoding, ValueEncoding::Plain);
}

#[test]
fn end_to_end_first_save() {
    let mut editor = Editor::new(None, None, false);
    assert_eq!(editor.store(Scope::User).raw_preview(), "");
    assert!(editor.add(Scope::User, "C:\\Tools"));
    let plan = editor.save_one(Scope::User).unwrap();
    let expected: Vec<u8> = vec![
        0x43, 0, 0x3A, 0, 0x5C, 0, 0x54, 0, 0x6F, 0, 0x6F, 0, 0x6C, 0, 0x73, 0, 0, 0,
    ];
    assert_eq!(plan.bytes, expected);
    assert_eq!(plan.encoding, ValueEncoding::Plain);
    assert_eq!(plan.encoding.code(), Some(1));
    let effects = editor.write_finished(&plan, Ok(())).unwrap();
    assert_eq!(broadcasts(&effects), 1);
    assert_eq!(effects, vec![Effect::Broadcast, Effect::SetProcessPath("C:\\Tools".to_string())]);
    assert_eq!(editor.store(Scope::User).encoding(), ValueEncoding::Plain);
}

#[test]
fn finished_write_records_the_encoding() {
    let mut editor = Editor::new(raw("A", 1), raw("X", 1), true);
    editor.add(Scope::User, "%B%");
    let plan = editor.save_one(Scope::User).unwrap();
    assert_eq!(plan.encoding, ValueEncoding::Expandable);
    editor.write_finished(&plan, Ok(())).unwrap();
    assert_eq!(editor.store(Scope::User).encoding(), ValueEncoding::Expandable);
    assert_eq!(editor.store(Scope::System).encoding(), ValueEncoding::Plain);
    editor.click(Scope::User, 1, false);
    editor.remove_selected(Scope::User);
    assert_eq!(editor.save_one(Scope::User).unwrap().encoding, ValueEncoding::Expandable);
}

#[test]
fn system_save_merges_process_path() {
    let mut editor = Editor::new(raw("U1;U2", 1), raw("S1;S2", 1), true);
    let plan = editor.save_one(Scope::System).unwrap();
    let effects = editor.write_finished(&plan, Ok(())).unwrap();
    assert_eq!(effects, vec![Effect::Broadcast, Effect::SetProcessPath("U1;U2;S1;S2".to_string())]);
}

#[test]
fn failed_write_changes_nothing() {
    let mut editor = Editor::new(raw("A", 7), raw("X", 1), true);
    editor.add(Scope::User, "%B%");
    editor.click(Scope::User, 0, false);
    let plan = editor.save_one(Scope::User).unwrap();
    let error = RegistryError::OpenFailed("Access is denied.".to_string());
    assert_eq!(editor.write_finished(&plan, Err(error.clone())), Err(error));
    assert_eq!(editor.store(Scope::User).encoding(), ValueEncoding::Other);
    assert_eq!(editor.store(Scope::User).parts(), &strings(&["A", "%B%"]));
    assert_eq!(editor.store(Scope::User).selected_indices(), vec![0]);
    let error = RegistryError::WriteFailed("The handle is invalid.".to_string());
    assert_eq!(editor.write_finished(&plan, Err(error.clone())), Err(error));
}

#[test]
fn save_all_skips_system_without_elevation() {
    let editor = Editor::new(raw("A", 1), raw("X", 1), false);
    let plan = editor.save_all();
    assert!(plan.system_skipped);
    assert_eq!(plan.writes.len(), 1);
    assert_eq!(plan.writes[0], editor.write_path(Scope::User));
}

#[test]
fn save_all_writes_user_then_system() {
    let editor = Editor::new(raw("A", 1), raw("X;%Y%", 1), true);
    let plan = editor.save_all();
    assert!(!plan.system_skipped);
    assert_eq!(plan.writes.len(), 2);
    assert_eq!(plan.writes[0], editor.write_path(Scope::User));
    assert_eq!(plan.writes[1], editor.write_path(Scope::System));
    assert_eq!(plan.writes[0].scope, Scope::User);
    assert_eq!(plan.writes[1].scope, Scope::System);
}
