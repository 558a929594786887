use invy::commands::{add, list};
use invy::error::InvError;
use invy::store::Store;
use invy::tree::{build_tree, flatten_tree};

const NOW: &str = "2024-01-01 00:00:00";

fn names(rows: &[invy::model::ListItem]) -> Vec<String> {
    rows.iter().map(|r| r.name.clone()).collect()
}

#[test]
fn list_all_top_level_items() {
    let mut st = Store::new();
    add::run(&mut st, "hammer", None, None, NOW).unwrap();
    add::run(&mut st, "screwdriver", None, None, NOW).unwrap();
    add::run(&mut st, "wrench", None, None, NOW).unwrap();
    let rows = list::run(&st, None).unwrap();
    assert_eq!(names(&rows), vec!["hammer", "screwdriver", "wrench"]);
}

#[test]
fn list_items_in_container() {
    let mut st = Store::new();
    add::run(&mut st, "toolbox", None, None, NOW).unwrap();
    add::run(&mut st, "hammer", None, Some("toolbox"), NOW).unwrap();
    add::run(&mut st, "screwdriver", None, Some("toolbox"), NOW).unwrap();
    add::run(&mut st, "standalone", None, None, NOW).unwrap();
    let rows = list::run(&st, Some("toolbox")).unwrap();
    assert_eq!(names(&rows), vec!["hammer", "screwdriver"]);
    assert!(!names(&rows).contains(&"standalone".to_string()));
}

#[test]
fn list_with_json_output() {
    let mut st = Store::new();
    add::run(&mut st, "hammer", Some("claw hammer"), None, NOW).unwrap();
    let rows = list::run(&st, None).unwrap();
    assert_eq!(rows[0].name, "hammer");
    assert_eq!(rows[0].description.as_deref(), Some("claw hammer"));
}

#[test]
fn list_with_csv_output() {
    let mut st = Store::new();
    add::run(&mut st, "hammer", None, None, NOW).unwrap();
    let rows = list::run(&st, None).unwrap();
    assert_eq!(rows.len(), 1);
    assert_eq!(rows[0].child_count, 0);
}

#[test]
fn list_empty_container() {
    let mut st = Store::new();
    add::run(&mut st, "empty_box", None, None, NOW).unwrap();
    assert!(list::run(&st, Some("empty_box")).unwrap().is_empty());
}

#[test]
fn list_nonexistent_container_fails() {
    let st = Store::new();
    let err = list::run(&st, Some("nonexistent")).unwrap_err();
    assert!(matches!(err, InvError::NotFound { .. }));
    assert!(err.message().contains("not found"));
}

#[test]
fn list_recursive() {
    let mut st = Store::new();
    add::run(&mut st, "garage", None, None, NOW).unwrap();
    add::run(&mut st, "toolbox", None, Some("garage"), NOW).unwrap();
    add::run(&mut st, "hammer", None, Some("toolbox"), NOW).unwrap();
    let forest = build_tree(&st);
    assert_eq!(forest.len(), 1);
    assert_eq!(forest[0].name, "garage");
    assert_eq!(forest[0].children[0].name, "toolbox");
    assert_eq!(forest[0].children[0].children[0].name, "hammer");
}

#[test]
fn list_shows_child_count() {
    let mut st = Store::new();
    add::run(&mut st, "toolbox", None, None, NOW).unwrap();
    add::run(&mut st, "hammer", None, Some("toolbox"), NOW).unwrap();
    add::run(&mut st, "screwdriver", None, Some("toolbox"), NOW).unwrap();
    let rows = list::run(&st, None).unwrap();
    assert_eq!(names(&rows), vec!["toolbox"]);
    assert_eq!(rows[0].child_count, 2);
}

#[test]
fn recursive_rows_come_in_preorder() {
    let mut st = Store::new();
    add::run(&mut st, "hammer", None, Some("garage/toolbox"), NOW).unwrap();
    add::run(&mut st, "bike", None, Some("garage"), NOW).unwrap();
    add::run(&mut st, "attic", None, None, NOW).unwrap();
    let rows = flatten_tree(&build_tree(&st));
    assert_eq!(names(&rows), vec!["attic", "garage", "bike", "toolbox", "hammer"]);
    let counts: Vec<i64> = rows.iter().map(|r| r.child_count).collect();
    assert_eq!(counts, vec![0, 2, 0, 1, 0]);
}
