use win_ctx::utils::classic_menu_path;
use win_ctx::{toggle_classic_menu, RegStore};

#[test]
fn disable_enable_classic_menu() {
    let mut store = RegStore::new();
    toggle_classic_menu(false, &mut store).expect("Failed to disable classic menu");
    toggle_classic_menu(false, &mut store).expect("Duplicate menu disable call should be ok");
    assert!(
        !store.key_exists(&classic_menu_path()),
        "Classic menu key should not exist"
    );

    toggle_classic_menu(true, &mut store).expect("Failed to enable classic menu");
    toggle_classic_menu(true, &mut store).expect("Duplicate menu enable call should be ok");
    assert!(
        store.key_exists(&classic_menu_path()),
        "Classic menu key should exist"
    );
}

#[test]
fn disable_after_enable_removes_registration() {
    let mut store = RegStore::new();
    toggle_classic_menu(true, &mut store).expect("Failed to enable classic menu");
    toggle_classic_menu(false, &mut store).expect("Failed to disable classic menu");
    assert!(!store.key_exists(&classic_menu_path()));
}
