use win_ctx::{ActivationType, CtxEntry, CtxError, EntryOptions, MenuPosition, RegStore, Separator};

fn key_of(segments: &[&str]) -> Vec<String> {
    segments.iter().map(|s| s.to_string()).collect()
}

fn assert_no_command(store: &RegStore, key: &[&str]) {
    let mut cmd = key_of(key);
    cmd.push("command".to_string());
    assert!(
        !store.key_exists(&cmd),
        "Entry should not have a command"
    );
}

fn assert_command(store: &RegStore, key: &[&str], expected: &str) {
    let mut cmd = key_of(key);
    cmd.push("command".to_string());
    assert!(store.key_exists(&cmd), "Entry should have a command");
    assert_eq!(
        store.get_value(&cmd, "").as_deref(),
        Some(expected),
        "Entry has incorrect command value"
    );
}

fn assert_value(store: &RegStore, key: &[&str], name: &str, expected: &str) {
    let res = store.get_value(&key_of(key), name);
    assert!(res.is_some(), "Entry has missing {name} value");
    assert_eq!(res.unwrap(), expected, "Entry has incorrect {name} value");
}

fn assert_no_value(store: &RegStore, key: &[&str], name: &str) {
    assert!(
        store.get_value(&key_of(key), name).is_none(),
        "Entry has {name} value but should not"
    );
}

#[test]
fn get_entry() {
    let mut store = RegStore::new();
    let id = "Entry under test".to_string();
    let _new_entry = CtxEntry::new(&id, &ActivationType::Folder, &mut store).unwrap();
    let entry = CtxEntry::get(&vec![id.clone()], &ActivationType::Folder, &store).unwrap();
    let name = entry.name(&store).unwrap();

    assert_eq!(name, id);
}

#[test]
fn get_all_entries() {
    let mut store = RegStore::new();
    let any_file = ActivationType::File("*".to_string());
    let folder = ActivationType::Folder;
    let background = ActivationType::Background;
    for name in ["First", "Second", "Third"] {
        CtxEntry::new(name, &any_file, &mut store).unwrap();
    }
    for name in ["First", "Second", "Third", "Fourth"] {
        CtxEntry::new(name, &folder, &mut store).unwrap();
    }
    for name in ["First", "Second", "Third"] {
        CtxEntry::new(name, &background, &mut store).unwrap();
    }

    let file_entries = CtxEntry::get_all_of_type(&any_file, &store);
    let rs_ext_entries = CtxEntry::get_all_of_type(&ActivationType::File(".rs".to_string()), &store);
    let folder_entries = CtxEntry::get_all_of_type(&folder, &store);
    let bg_entries = CtxEntry::get_all_of_type(&background, &store);

    assert_eq!(file_entries.len(), 3);
    assert_eq!(rs_ext_entries.len(), 0);
    assert_eq!(folder_entries.len(), 4);
    assert_eq!(bg_entries.len(), 3);
}

#[test]
fn get_missing_entry() {
    let store = RegStore::new();
    let id = "No such entry".to_string();
    let entry = CtxEntry::get(&vec![id], &ActivationType::Background, &store);

    assert!(entry.is_none());
}

#[test]
fn create_and_get_entry() {
    let mut store = RegStore::new();
    let id = "Fresh entry".to_string();
    let new_entry = CtxEntry::new(&id, &ActivationType::Folder, &mut store).unwrap();
    let get_entry = CtxEntry::get(&vec![id], &ActivationType::Folder, &store).unwrap();

    assert_eq!(&new_entry.path, &get_entry.path);
}

#[test]
fn create_duplicate_fails_and_preserves_attributes() {
    let mut store = RegStore::new();
    let id = "Guarded entry";
    let mut entry = CtxEntry::new(id, &ActivationType::Folder, &mut store).unwrap();
    entry
        .set_icon(Some("original icon"), &mut store)
        .expect("Failed to set icon");

    let err = CtxEntry::new(id, &ActivationType::Folder, &mut store).unwrap_err();
    assert_eq!(err, CtxError::AlreadyExists);
    assert_value(&store, &["Directory", "shell", id], "Icon", "original icon");
}

#[test]
fn basic_entry_on_all_files() {
    let mut store = RegStore::new();
    let id = "Any file entry";
    let _entry = CtxEntry::new(id, &ActivationType::File("*".to_string()), &mut store).unwrap();
    let key = ["*", "shell", id];
    assert!(store.key_exists(&key_of(&key)));

    assert_no_command(&store, &key);
    assert_no_value(&store, &key, "Icon");
    assert_no_value(&store, &key, "Position");
    assert_no_value(&store, &key, "Extended");
}

#[test]
fn basic_entry_on_extension() {
    let mut store = RegStore::new();
    let id = "Extension entry";
    let _entry = CtxEntry::new(id, &ActivationType::File(".rs".to_string()), &mut store).unwrap();
    let key = [".rs", "shell", id];
    assert!(store.key_exists(&key_of(&key)));

    assert_no_command(&store, &key);
    assert_no_value(&store, &key, "Icon");
    assert_no_value(&store, &key, "Position");
    assert_no_value(&store, &key, "Extended");
}

#[test]
fn basic_entry_on_folder() {
    let mut store = RegStore::new();
    let id = "Folder entry";
    let _entry = CtxEntry::new(id, &ActivationType::Folder, &mut store).unwrap();
    let key = ["Directory", "shell", id];
    assert!(store.key_exists(&key_of(&key)));

    assert_no_command(&store, &key);
    assert_no_value(&store, &key, "Icon");
    assert_no_value(&store, &key, "Position");
    assert_no_value(&store, &key, "Extended");
}

#[test]
fn basic_entry_on_background() {
    let mut store = RegStore::new();
    let id = "Background entry";
    let _entry = CtxEntry::new(id, &ActivationType::Background, &mut store).unwrap();
    let key = ["Directory", "Background", "shell", id];
    assert!(store.key_exists(&key_of(&key)));

    assert_no_command(&store, &key);
    assert_no_value(&store, &key, "Icon");
    assert_no_value(&store, &key, "Position");
    assert_no_value(&store, &key, "Extended");
}

#[test]
fn entry_with_options() {
    let mut store = RegStore::new();
    let id = "Configured entry";
    let test_str = "test string";
    let _entry = CtxEntry::new_with_options(
        id,
        &ActivationType::Background,
        &EntryOptions {
            command: Some(test_str.to_string()),
            icon: Some(test_str.to_string()),
            position: Some(MenuPosition::Top),
            separator: Some(Separator::After),
            extended: true,
        },
        &mut store,
    )
    .unwrap();
    let key = ["Directory", "Background", "shell", id];

    assert_command(&store, &key, test_str);
    assert_value(&store, &key, "Icon", test_str);
    assert_value(&store, &key, "Position", "Top");
    assert_value(&store, &key, "Extended", "");
}

#[test]
fn get_and_set_command() {
    let mut store = RegStore::new();
    let id = "Command entry";
    let command = "test command";
    let mut entry = CtxEntry::new(id, &ActivationType::Folder, &mut store).unwrap();
    let key = ["Directory", "shell", id];

    assert_no_command(&store, &key);
    entry
        .set_command(Some(command), &mut store)
        .expect("Failed to set command");
    assert_command(&store, &key, command);
    assert_eq!(entry.command(&store).unwrap().unwrap(), command);
}

#[test]
fn unset_command_reads_back_absent() {
    let mut store = RegStore::new();
    let mut entry = CtxEntry::new("Quiet entry", &ActivationType::Folder, &mut store).unwrap();
    entry
        .set_command(Some("temporary"), &mut store)
        .expect("Failed to set command");
    entry
        .set_command(None, &mut store)
        .expect("Failed to clear command");
    assert!(entry.command(&store).unwrap().is_none());
}

#[test]
fn get_and_set_icon() {
    let mut store = RegStore::new();
    let id = "Icon entry";
    let icon = "test icon";
    let mut entry = CtxEntry::new(id, &ActivationType::Folder, &mut store).unwrap();
    let key = ["Directory", "shell", id];

    assert_no_value(&store, &key, "Icon");
    entry
        .set_icon(Some(icon), &mut store)
        .expect("Failed to set icon");
    assert_value(&store, &key, "Icon", icon);
    assert_eq!(entry.icon(&store).unwrap().unwrap(), icon);

    entry.set_icon(None, &mut store).expect("Failed to clear icon");
    assert!(entry.icon(&store).unwrap().is_none());
}

#[test]
fn get_and_set_position() {
    let mut store = RegStore::new();
    let id = "Positioned entry";
    let position = MenuPosition::Bottom;
    let mut entry = CtxEntry::new(id, &ActivationType::Folder, &mut store).unwrap();
    let key = ["Directory", "shell", id];

    assert_no_value(&store, &key, "Position");
    entry
        .set_position(Some(position), &mut store)
        .expect("Failed to set position");
    assert_value(&store, &key, "Position", "Bottom");
    assert_eq!(entry.position(&store).unwrap(), Some(MenuPosition::Bottom));

    entry
        .set_position(Some(MenuPosition::Top), &mut store)
        .expect("Failed to set position");
    assert_eq!(entry.position(&store).unwrap(), Some(MenuPosition::Top));

    entry
        .set_position(None, &mut store)
        .expect("Failed to clear position");
    assert!(entry.position(&store).unwrap().is_none());
}

#[test]
fn get_and_set_separator() {
    let mut store = RegStore::new();
    let id = "Separated entry";
    let mut entry = CtxEntry::new(id, &ActivationType::Folder, &mut store).unwrap();
    let key = ["Directory", "shell", id];

    assert_no_value(&store, &key, "SeparatorBefore");
    assert_no_value(&store, &key, "SeparatorAfter");
    entry
        .set_separator(Some(Separator::Both), &mut store)
        .expect("Failed to set separator");
    assert_value(&store, &key, "SeparatorBefore", "");
    assert_value(&store, &key, "SeparatorAfter", "");
}

#[test]
fn separator_round_trips_through_all_variants() {
    let mut store = RegStore::new();
    let mut entry = CtxEntry::new("Separator entry", &ActivationType::Folder, &mut store).unwrap();

    for variant in [Separator::Before, Separator::After, Separator::Both] {
        entry
            .set_separator(Some(variant), &mut store)
            .expect("Failed to set separator");
        assert_eq!(entry.separator(&store).unwrap(), Some(variant));
    }
    entry
        .set_separator(None, &mut store)
        .expect("Failed to clear separator");
    assert!(entry.separator(&store).unwrap().is_none());
}

#[test]
fn get_and_set_extended() {
    let mut store = RegStore::new();
    let id = "Extended entry";
    let mut entry = CtxEntry::new(id, &ActivationType::Folder, &mut store).unwrap();
    let key = ["Directory", "shell", id];

    assert_no_value(&store, &key, "Extended");
    entry
        .set_extended(true, &mut store)
        .expect("Failed to set extended");
    assert_value(&store, &key, "Extended", "");
    assert_eq!(entry.extended(&store).unwrap(), true);

    entry
        .set_extended(false, &mut store)
        .expect("Failed to clear extended");
    assert_eq!(entry.extended(&store).unwrap(), false);
}

#[test]
fn rename_entry() {
    let mut store = RegStore::new();
    let old_id = "Old entry name";
    let new_id = "New entry name";
    let mut entry = CtxEntry::new(old_id, &ActivationType::Folder, &mut store).unwrap();

    assert!(
        store.key_exists(&key_of(&["Directory", "shell", old_id])),
        "Initial entry does not exist"
    );
    entry
        .rename(new_id, &mut store)
        .expect("Failed to rename entry");
    assert!(
        store.key_exists(&key_of(&["Directory", "shell", new_id])),
        "Renamed entry does not exist"
    );

    entry
        .rename("", &mut store)
        .expect_err("Blank name should not be allowed");
}

#[test]
fn rename_to_blank_is_invalid_input_and_leaves_store_alone() {
    let mut store = RegStore::new();
    let id = "Stable entry";
    let mut entry = CtxEntry::new(id, &ActivationType::Folder, &mut store).unwrap();
    entry
        .set_icon(Some("icon before rename"), &mut store)
        .expect("Failed to set icon");

    let err = entry.rename("", &mut store).unwrap_err();
    assert_eq!(err, CtxError::InvalidInput);
    assert!(store.key_exists(&key_of(&["Directory", "shell", id])));
    assert_value(
        &store,
        &["Directory", "shell", id],
        "Icon",
        "icon before rename",
    );
    assert_eq!(entry.name(&store).unwrap(), id);
}

#[test]
fn delete_entry() {
    let mut store = RegStore::new();
    let id = "Doomed entry";
    let entry = CtxEntry::new(id, &ActivationType::Folder, &mut store).unwrap();

    entry.delete(&mut store).expect("Failed to delete entry");
    assert!(
        !store.key_exists(&key_of(&["Directory", "shell", id])),
        "Found key after deletion"
    );
}

#[test]
fn operations_on_deleted_entry_fail_with_not_found() {
    let mut store = RegStore::new();
    let id = "Fleeting entry";
    let entry = CtxEntry::new(id, &ActivationType::Folder, &mut store).unwrap();
    let mut stale = CtxEntry::get(&vec![id.to_string()], &ActivationType::Folder, &store).unwrap();
    entry.delete(&mut store).expect("Failed to delete entry");

    assert_eq!(stale.icon(&store).unwrap_err(), CtxError::NotFound);
    assert_eq!(
        stale.set_icon(Some("too late"), &mut store).unwrap_err(),
        CtxError::NotFound
    );
    assert_eq!(stale.name(&store).unwrap_err(), CtxError::NotFound);
}

#[test]
fn open_in_terminal_scenario() {
    let mut store = RegStore::new();
    let name = "Open in terminal";
    let command = "cmd /s /k pushd \"%V\"";
    let icon = "cmd.exe";
    let entry = CtxEntry::new_with_options(
        name,
        &ActivationType::Folder,
        &EntryOptions {
            command: Some(command.to_string()),
            icon: Some(icon.to_string()),
            position: None,
            separator: None,
            extended: false,
        },
        &mut store,
    )
    .unwrap();

    let looked_up = CtxEntry::get(&vec![name.to_string()], &ActivationType::Folder, &store)
        .expect("Lookup by the same name path should succeed");
    assert_eq!(looked_up.command(&store).unwrap().as_deref(), Some(command));
    assert_eq!(looked_up.icon(&store).unwrap().as_deref(), Some(icon));

    entry.delete(&mut store).expect("Failed to delete entry");
    assert!(CtxEntry::get(&vec![name.to_string()], &ActivationType::Folder, &store).is_none());
}
