use invy::commands::{add, show};
use invy::error::InvError;
use invy::store::Store;

const NOW: &str = "2024-01-01 00:00:00";

#[test]
fn show_item_details_and_path() {
    let mut st = Store::new();
    add::run(&mut st, "garage", None, None, NOW).unwrap();
    add::run(&mut st, "toolbox", None, Some("garage"), NOW).unwrap();
    add::run(&mut st, "hammer", Some("claw hammer"), Some("toolbox"), NOW).unwrap();
    let shown = show::run(&st, "hammer").unwrap();
    assert_eq!(shown.name, "hammer");
    assert_eq!(shown.description.as_deref(), Some("claw hammer"));
    assert_eq!(
        shown.path,
        vec!["garage".to_string(), "toolbox".to_string(), "hammer".to_string()]
    );
}

#[test]
fn show_container_with_contents_count() {
    let mut st = Store::new();
    add::run(&mut st, "toolbox", None, None, NOW).unwrap();
    add::run(&mut st, "hammer", None, Some("toolbox"), NOW).unwrap();
    add::run(&mut st, "screwdriver", None, Some("toolbox"), NOW).unwrap();
    let shown = show::run(&st, "toolbox").unwrap();
    assert_eq!(shown.name, "toolbox");
    assert_eq!(shown.child_count, Some(2));
}

#[test]
fn show_nonexistent_item_fails() {
    let st = Store::new();
    let err = show::run(&st, "nonexistent").unwrap_err();
    assert!(matches!(err, InvError::NotFound { .. }));
    assert!(err.message().contains("not found"));
}

#[test]
fn show_with_json_output() {
    let mut st = Store::new();
    add::run(&mut st, "hammer", Some("claw hammer"), None, NOW).unwrap();
    let shown = show::run(&st, "hammer").unwrap();
    assert_eq!(shown.name, "hammer");
    assert_eq!(shown.description.as_deref(), Some("claw hammer"));
    assert_eq!(shown.created_at, NOW);
    assert_eq!(shown.updated_at, NOW);
}

#[test]
fn show_by_full_path() {
    let mut st = Store::new();
    add::run(&mut st, "hammer", Some("root hammer"), None, NOW).unwrap();
    add::run(&mut st, "hammer", None, Some("toolbox"), NOW).unwrap();
    let shown = show::run(&st, "toolbox/hammer").unwrap();
    assert_eq!(shown.name, "hammer");
    assert_eq!(shown.description, None);
    assert_eq!(shown.path, vec!["toolbox".to_string(), "hammer".to_string()]);
}

#[test]
fn show_ambiguous_name_fails() {
    let mut st = Store::new();
    add::run(&mut st, "hammer", None, None, NOW).unwrap();
    add::run(&mut st, "hammer", None, Some("toolbox"), NOW).unwrap();
    let err = show::run(&st, "hammer").unwrap_err();
    assert!(matches!(err, InvError::Ambiguous { .. }));
    assert!(err.message().contains("ambiguous"));
}
