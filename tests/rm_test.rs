use invy::commands::{add, list, rm, show};
use invy::error::InvError;
use invy::store::Store;

const NOW: &str = "2024-01-01 00:00:00";
const LATER: &str = "2024-02-02 12:00:00";

#[test]
fn remove_item() {
    let mut st = Store::new();
    add::run(&mut st, "hammer", None, None, NOW).unwrap();
    let removed = rm::run(&mut st, "hammer", LATER).unwrap();
    assert_eq!(removed.name, "hammer");
    assert!(removed.orphaned.is_empty());
    let err = show::run(&st, "hammer").unwrap_err();
    assert!(err.message().contains("not found"));
}

#[test]
fn remove_empty_container() {
    let mut st = Store::new();
    add::run(&mut st, "empty_box", None, None, NOW).unwrap();
    let removed = rm::run(&mut st, "empty_box", LATER).unwrap();
    assert_eq!(removed.name, "empty_box");
    let err = show::run(&st, "empty_box").unwrap_err();
    assert!(err.message().contains("not found"));
}

#[test]
fn remove_container_orphans_contents() {
    let mut st = Store::new();
    add::run(&mut st, "toolbox", None, None, NOW).unwrap();
    add::run(&mut st, "hammer", None, Some("toolbox"), NOW).unwrap();
    add::run(&mut st, "screwdriver", None, Some("toolbox"), NOW).unwrap();
    let removed = rm::run(&mut st, "toolbox", LATER).unwrap();
    assert_eq!(removed.name, "toolbox");
    assert_eq!(removed.orphaned, vec!["hammer".to_string(), "screwdriver".to_string()]);
    assert!(show::run(&st, "toolbox").unwrap_err().message().contains("not found"));
    let rows = list::run(&st, None).unwrap();
    let names: Vec<&str> = rows.iter().map(|r| r.name.as_str()).collect();
    assert_eq!(names, vec!["hammer", "screwdriver"]);
}

#[test]
fn remove_nonexistent_item_fails() {
    let mut st = Store::new();
    let err = rm::run(&mut st, "nonexistent", LATER).unwrap_err();
    assert!(matches!(err, InvError::NotFound { .. }));
    assert!(err.message().contains("not found"));
}

#[test]
fn remove_nested_container_orphans_to_root() {
    let mut st = Store::new();
    add::run(&mut st, "garage", None, None, NOW).unwrap();
    add::run(&mut st, "toolbox", None, Some("garage"), NOW).unwrap();
    add::run(&mut st, "hammer", None, Some("toolbox"), NOW).unwrap();
    let removed = rm::run(&mut st, "toolbox", LATER).unwrap();
    assert_eq!(removed.orphaned, vec!["hammer".to_string()]);
    let hammer = show::run(&st, "hammer").unwrap();
    assert_eq!(hammer.path, vec!["hammer".to_string()]);
    assert_eq!(hammer.updated_at, LATER);
    assert!(show::run(&st, "garage").is_ok());
    assert_eq!(show::run(&st, "garage").unwrap().child_count, Some(0));
}

#[test]
fn remove_refused_when_orphan_name_taken_at_root() {
    let mut st = Store::new();
    add::run(&mut st, "hammer", None, None, NOW).unwrap();
    add::run(&mut st, "hammer", None, Some("toolbox"), NOW).unwrap();
    let before = st.len();
    let err = rm::run(&mut st, "toolbox", LATER).unwrap_err();
    assert!(matches!(err, InvError::DuplicateName { container_id: None, .. }));
    assert_eq!(st.len(), before);
    assert!(show::run(&st, "toolbox/hammer").is_ok());
}
