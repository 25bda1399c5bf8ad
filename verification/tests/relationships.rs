use win_ctx::{ActivationType, CtxEntry, RegStore};

#[test]
fn root_has_no_parent() {
    let mut store = RegStore::new();
    let entry = CtxEntry::new("Root entry", &ActivationType::Folder, &mut store).unwrap();

    assert!(entry.parent(&store).is_none());
}

#[test]
fn new_entry_has_no_children() {
    let mut store = RegStore::new();
    let entry = CtxEntry::new("Childless entry", &ActivationType::Folder, &mut store).unwrap();

    assert!(entry.children(&store).unwrap().is_empty());
}

#[test]
fn parent_with_children() {
    let mut store = RegStore::new();
    let child_1_id = "First child";
    let child_2_id = "Second child";
    let parent = CtxEntry::new("Parent entry", &ActivationType::Folder, &mut store).unwrap();
    let child_1 = parent.new_child(child_1_id, &mut store).unwrap();
    let child_2 = parent.new_child(child_2_id, &mut store).unwrap();

    assert_eq!(
        parent.children(&store).unwrap().len(),
        2,
        "Parent should have two children"
    );
    assert!(
        parent.child(child_1_id, &store).unwrap().is_some(),
        "Parent should have child 1"
    );
    assert!(
        parent.child(child_2_id, &store).unwrap().is_some(),
        "Parent should have child 2"
    );
    assert!(child_1.parent(&store).is_some(), "Child 1 should have parent");
    assert!(child_2.parent(&store).is_some(), "Child 2 should have parent");
    assert_eq!(
        child_1.parent(&store).unwrap().path(),
        child_2.parent(&store).unwrap().path(),
        "Children do not have same parent"
    );
}

#[test]
fn orphan_basic() {
    let mut store = RegStore::new();
    let parent = CtxEntry::new("Short-lived parent", &ActivationType::Folder, &mut store).unwrap();
    let child = parent.new_child("Orphaned child", &mut store).unwrap();

    parent.delete(&mut store).expect("Failed to delete parent");
    assert!(
        child.parent(&store).is_none(),
        "Child has parent after deletion"
    );
}

#[test]
fn orphan_with_error_value() {
    let mut store = RegStore::new();
    let parent = CtxEntry::new("Vanishing parent", &ActivationType::Folder, &mut store).unwrap();
    let mut child = parent.new_child("Stranded child", &mut store).unwrap();

    child
        .set_icon(Some("test icon"), &mut store)
        .expect("Failed to set child icon");
    parent.delete(&mut store).expect("Failed to delete parent");
    child
        .icon(&store)
        .expect_err("Should not be able to get child icon after orphaned");
}

#[test]
fn open_directory_in_scenario() {
    let mut store = RegStore::new();
    let parent = CtxEntry::new("Open directory in", &ActivationType::Background, &mut store)
        .unwrap();
    let mut terminal = parent.new_child("Terminal", &mut store).unwrap();
    terminal
        .set_command(Some("cmd /s /k pushd \"%V\""), &mut store)
        .expect("Failed to set first command");
    let mut powershell = parent.new_child("Powershell", &mut store).unwrap();
    powershell
        .set_command(
            Some("powershell -noexit -command Set-Location -literalPath '%V'"),
            &mut store,
        )
        .expect("Failed to set second command");

    let children = parent.children(&store).unwrap();
    assert_eq!(children.len(), 2, "Parent should have exactly two children");
    for child in &children {
        assert_eq!(
            child.parent(&store).unwrap().path(),
            parent.path(),
            "Child's parent path should match the parent's own path"
        );
    }
    assert_ne!(
        children[0].command(&store).unwrap(),
        children[1].command(&store).unwrap(),
        "Children should keep their distinct commands"
    );

    parent.delete(&mut store).expect("Failed to delete parent");
    assert!(terminal.parent(&store).is_none());
    assert!(powershell.parent(&store).is_none());
}
