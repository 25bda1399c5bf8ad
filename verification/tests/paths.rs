use win_ctx::ActivationType;
use win_ctx::{get_base_path, get_full_path};

#[test]
fn empty_name_path() {
    let path = get_full_path(&ActivationType::Folder, &Vec::<String>::new());
    assert_eq!(path, "Directory\\shell");
}

#[test]
fn filled_name_path() {
    let name_path = vec!["1".to_string(), "2".to_string(), "3".to_string()];
    let path = get_full_path(&ActivationType::Folder, &name_path);
    assert_eq!(path, "Directory\\shell\\1\\shell\\2\\shell\\3");
}

#[test]
fn base_path_per_context() {
    assert_eq!(get_base_path(&ActivationType::File("*".to_string())), "*");
    assert_eq!(get_base_path(&ActivationType::File(".rs".to_string())), ".rs");
    assert_eq!(get_base_path(&ActivationType::Folder), "Directory");
    assert_eq!(
        get_base_path(&ActivationType::Background),
        "Directory\\Background"
    );
}

#[test]
fn distinct_name_paths_never_collide() {
    let a = vec!["Alpha".to_string(), "Beta".to_string()];
    let b = vec!["Alpha".to_string(), "Gamma".to_string()];
    let c = vec!["Alpha".to_string()];
    let pa = get_full_path(&ActivationType::Background, &a);
    let pb = get_full_path(&ActivationType::Background, &b);
    let pc = get_full_path(&ActivationType::Background, &c);
    assert_ne!(pa, pb);
    assert_ne!(pa, pc);
    assert_ne!(pb, pc);
}

#[test]
fn same_inputs_same_path() {
    let a = vec!["Open in terminal".to_string()];
    let first = get_full_path(&ActivationType::Folder, &a);
    let second = get_full_path(&ActivationType::Folder, &a);
    assert_eq!(first, second);
    assert_eq!(first, "Directory\\shell\\Open in terminal");
}
