use invy::commands::{add, edit, show};
use invy::error::InvError;
use invy::store::Store;

const NOW: &str = "2024-01-01 00:00:00";
const LATER: &str = "2024-02-02 12:00:00";

#[test]
fn edit_name() {
    let mut st = Store::new();
    add::run(&mut st, "hammer", None, None, NOW).unwrap();
    let ed = edit::run(&mut st, "hammer", Some("claw hammer"), None, LATER).unwrap();
    assert_eq!(ed.old_name, "hammer");
    assert_eq!(ed.item.name, "claw hammer");
    assert_eq!(ed.item.updated_at, LATER);
    assert_eq!(ed.item.created_at, NOW);
    assert!(show::run(&st, "claw hammer").is_ok());
    let err = show::run(&st, "hammer").unwrap_err();
    assert!(err.message().contains("not found"));
}

#[test]
fn edit_description() {
    let mut st = Store::new();
    add::run(&mut st, "hammer", Some("old description"), None, NOW).unwrap();
    let ed = edit::run(&mut st, "hammer", None, Some("new description"), LATER).unwrap();
    assert_eq!(ed.old_description.as_deref(), Some("old description"));
    let shown = show::run(&st, "hammer").unwrap();
    assert_eq!(shown.description.as_deref(), Some("new description"));
}

#[test]
fn edit_both() {
    let mut st = Store::new();
    add::run(&mut st, "hammer", Some("old description"), None, NOW).unwrap();
    let ed = edit::run(&mut st, "hammer", Some("ball peen"), Some("new description"), LATER).unwrap();
    assert_eq!(ed.item.name, "ball peen");
    let shown = show::run(&st, "ball peen").unwrap();
    assert_eq!(shown.description.as_deref(), Some("new description"));
}

#[test]
fn edit_nonexistent_item_fails() {
    let mut st = Store::new();
    let err = edit::run(&mut st, "nonexistent", Some("newname"), None, LATER).unwrap_err();
    assert!(matches!(err, InvError::NotFound { .. }));
    assert!(err.message().contains("not found"));
}

#[test]
fn edit_no_changes_fails() {
    let mut st = Store::new();
    add::run(&mut st, "hammer", None, None, NOW).unwrap();
    let err = edit::run(&mut st, "hammer", None, None, LATER).unwrap_err();
    assert!(matches!(err, InvError::NoChangesRequested));
    assert!(err.message().contains("no changes"));
}

#[test]
fn edit_name_conflict_fails() {
    let mut st = Store::new();
    add::run(&mut st, "hammer", None, None, NOW).unwrap();
    add::run(&mut st, "screwdriver", None, None, NOW).unwrap();
    let err = edit::run(&mut st, "screwdriver", Some("hammer"), None, LATER).unwrap_err();
    assert!(matches!(err, InvError::DuplicateName { .. }));
    assert!(err.message().contains("already exists"));
    assert!(show::run(&st, "screwdriver").is_ok());
}

#[test]
fn edit_clear_description() {
    let mut st = Store::new();
    add::run(&mut st, "hammer", Some("has description"), None, NOW).unwrap();
    let ed = edit::run(&mut st, "hammer", None, Some(""), LATER).unwrap();
    assert_eq!(ed.item.description, None);
    assert_eq!(show::run(&st, "hammer").unwrap().description, None);
}

#[test]
fn edit_with_json_output() {
    let mut st = Store::new();
    add::run(&mut st, "hammer", None, None, NOW).unwrap();
    let ed = edit::run(&mut st, "hammer", Some("new_hammer"), None, LATER).unwrap();
    assert_eq!(ed.item.name, "new_hammer");
}

#[test]
fn edit_to_same_name_is_allowed() {
    let mut st = Store::new();
    add::run(&mut st, "hammer", None, None, NOW).unwrap();
    let ed = edit::run(&mut st, "hammer", Some("hammer"), None, LATER).unwrap();
    assert_eq!(ed.item.name, "hammer");
}
