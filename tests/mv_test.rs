use invy::commands::{add, list, mv, show};
use invy::error::InvError;
use invy::store::Store;

const NOW: &str = "2024-01-01 00:00:00";
const LATER: &str = "2024-02-02 12:00:00";

#[test]
fn move_item_to_different_container() {
    let mut st = Store::new();
    add::run(&mut st, "toolbox", None, None, NOW).unwrap();
    add::run(&mut st, "workshop", None, None, NOW).unwrap();
    add::run(&mut st, "hammer", None, Some("toolbox"), NOW).unwrap();
    let moved = mv::run(&mut st, "hammer", "workshop", LATER).unwrap();
    assert_eq!(moved.old_path, vec!["toolbox".to_string(), "hammer".to_string()]);
    assert_eq!(moved.item.path, vec!["workshop".to_string(), "hammer".to_string()]);
    let shown = show::run(&st, "hammer").unwrap();
    assert_eq!(shown.path, vec!["workshop".to_string(), "hammer".to_string()]);
    assert_eq!(shown.updated_at, LATER);
}

#[test]
fn move_item_to_root() {
    let mut st = Store::new();
    add::run(&mut st, "toolbox", None, None, NOW).unwrap();
    add::run(&mut st, "hammer", None, Some("toolbox"), NOW).unwrap();
    let moved = mv::run(&mut st, "hammer", "/", LATER).unwrap();
    assert_eq!(moved.item.path, vec!["hammer".to_string()]);
    let rows = list::run(&st, None).unwrap();
    assert!(rows.iter().any(|r| r.name == "hammer"));
}

#[test]
fn move_container_into_itself_fails() {
    let mut st = Store::new();
    add::run(&mut st, "toolbox", None, None, NOW).unwrap();
    let err = mv::run(&mut st, "toolbox", "toolbox", LATER).unwrap_err();
    assert!(matches!(err, InvError::CycleViolation { .. }));
    assert!(err.message().contains("cannot move"));
}

#[test]
fn move_container_into_descendant_fails() {
    let mut st = Store::new();
    add::run(&mut st, "garage", None, None, NOW).unwrap();
    add::run(&mut st, "shelf", None, Some("garage"), NOW).unwrap();
    let err = mv::run(&mut st, "garage", "shelf", LATER).unwrap_err();
    assert!(matches!(err, InvError::CycleViolation { .. }));
    assert!(err.message().contains("cannot move"));
    assert_eq!(show::run(&st, "garage").unwrap().path, vec!["garage".to_string()]);
}

#[test]
fn move_auto_creates_destination() {
    let mut st = Store::new();
    add::run(&mut st, "hammer", None, None, NOW).unwrap();
    let moved = mv::run(&mut st, "hammer", "new_toolbox", LATER).unwrap();
    assert_eq!(moved.item.path, vec!["new_toolbox".to_string(), "hammer".to_string()]);
    assert!(show::run(&st, "new_toolbox").is_ok());
}

#[test]
fn move_nonexistent_item_fails() {
    let mut st = Store::new();
    let err = mv::run(&mut st, "nonexistent", "somewhere", LATER).unwrap_err();
    assert!(matches!(err, InvError::NotFound { .. }));
    assert!(err.message().contains("not found"));
    assert_eq!(st.len(), 0);
}

#[test]
fn move_name_conflict_fails() {
    let mut st = Store::new();
    add::run(&mut st, "hammer", None, None, NOW).unwrap();
    add::run(&mut st, "toolbox", None, None, NOW).unwrap();
    add::run(&mut st, "hammer", None, Some("toolbox"), NOW).unwrap();
    let err = mv::run(&mut st, "toolbox/hammer", "/", LATER).unwrap_err();
    assert!(matches!(err, InvError::DuplicateName { container_id: None, .. }));
    assert!(err.message().contains("already exists"));
}

#[test]
fn move_root_word_means_root_level() {
    let mut st = Store::new();
    add::run(&mut st, "hammer", None, Some("toolbox"), NOW).unwrap();
    let moved = mv::run(&mut st, "hammer", "root", LATER).unwrap();
    assert_eq!(moved.item.path, vec!["hammer".to_string()]);
}

#[test]
fn move_to_current_container_is_allowed() {
    let mut st = Store::new();
    add::run(&mut st, "hammer", None, Some("toolbox"), NOW).unwrap();
    let moved = mv::run(&mut st, "toolbox/hammer", "toolbox", LATER).unwrap();
    assert_eq!(moved.item.path, vec!["toolbox".to_string(), "hammer".to_string()]);
}

#[test]
fn move_into_grandchild_fails() {
    let mut st = Store::new();
    add::run(&mut st, "hammer", None, Some("garage/shelf/box"), NOW).unwrap();
    let err = mv::run(&mut st, "garage", "garage/shelf/box", LATER).unwrap_err();
    assert!(matches!(err, InvError::CycleViolation { .. }));
    let moved = mv::run(&mut st, "box", "/", LATER).unwrap();
    assert_eq!(moved.item.path, vec!["box".to_string()]);
}
