use invy::commands::{add, show};
use invy::error::InvError;
use invy::store::Store;

const NOW: &str = "2024-01-01 00:00:00";

#[test]
fn add_item_with_name_only() {
    let mut st = Store::new();
    let added = add::run(&mut st, "hammer", None, None, NOW).unwrap();
    assert_eq!(added.name, "hammer");
    assert_eq!(added.path, vec!["hammer".to_string()]);
    assert_eq!(added.child_count, Some(0));
    assert_eq!(added.created_at, NOW);
}

#[test]
fn add_item_with_description() {
    let mut st = Store::new();
    let added = add::run(&mut st, "hammer", Some("claw hammer"), None, NOW).unwrap();
    assert_eq!(added.name, "hammer");
    assert_eq!(added.description.as_deref(), Some("claw hammer"));
}

#[test]
fn add_item_into_container_auto_creates() {
    let mut st = Store::new();
    let added = add::run(&mut st, "hammer", None, Some("toolbox"), NOW).unwrap();
    assert_eq!(added.name, "hammer");
    assert_eq!(added.path, vec!["toolbox".to_string(), "hammer".to_string()]);
    let toolbox = show::run(&st, "toolbox").unwrap();
    assert_eq!(toolbox.path, vec!["toolbox".to_string()]);
    assert_eq!(toolbox.child_count, Some(1));
    assert_eq!(toolbox.description, None);
}

#[test]
fn add_item_into_nested_container() {
    let mut st = Store::new();
    add::run(&mut st, "garage", None, None, NOW).unwrap();
    add::run(&mut st, "toolbox", None, Some("garage"), NOW).unwrap();
    let added = add::run(&mut st, "hammer", None, Some("toolbox"), NOW).unwrap();
    assert_eq!(added.name, "hammer");
    assert_eq!(
        added.path,
        vec!["garage".to_string(), "toolbox".to_string(), "hammer".to_string()]
    );
    assert_eq!(st.len(), 3);
}

#[test]
fn add_duplicate_name_in_same_container_fails() {
    let mut st = Store::new();
    add::run(&mut st, "hammer", None, None, NOW).unwrap();
    let before = st.len();
    let err = add::run(&mut st, "hammer", None, None, NOW).unwrap_err();
    assert!(matches!(err, InvError::DuplicateName { container_id: None, .. }));
    assert!(err.message().contains("already exists"));
    assert_eq!(st.len(), before);
}

#[test]
fn add_duplicate_name_in_different_containers_succeeds() {
    let mut st = Store::new();
    add::run(&mut st, "hammer", None, None, NOW).unwrap();
    let added = add::run(&mut st, "hammer", None, Some("toolbox"), NOW).unwrap();
    assert_eq!(added.path, vec!["toolbox".to_string(), "hammer".to_string()]);
}

#[test]
fn add_with_json_output() {
    let mut st = Store::new();
    let added = add::run(&mut st, "hammer", Some("claw hammer"), None, NOW).unwrap();
    assert_eq!(added.name, "hammer");
    assert_eq!(added.description.as_deref(), Some("claw hammer"));
}

#[test]
fn add_with_csv_output() {
    let mut st = Store::new();
    let added = add::run(&mut st, "hammer", None, None, NOW).unwrap();
    assert_eq!(added.name, "hammer");
    assert_eq!(added.description, None);
    assert_eq!(added.path.len(), 1);
}

#[test]
fn add_into_nested_path_creates_each_missing_segment() {
    let mut st = Store::new();
    add::run(&mut st, "garage", None, None, NOW).unwrap();
    let added = add::run(&mut st, "hammer", None, Some("garage/shelf/box"), NOW).unwrap();
    assert_eq!(
        added.path,
        vec!["garage".to_string(), "shelf".to_string(), "box".to_string(), "hammer".to_string()]
    );
    assert_eq!(st.len(), 4);
}

#[test]
fn add_into_ambiguous_container_fails_without_creating() {
    let mut st = Store::new();
    add::run(&mut st, "box", None, None, NOW).unwrap();
    add::run(&mut st, "box", None, Some("shelf"), NOW).unwrap();
    let before = st.len();
    let err = add::run(&mut st, "hammer", None, Some("box"), NOW).unwrap_err();
    match err {
        InvError::Ambiguous { paths, .. } => {
            assert_eq!(paths, vec!["box".to_string(), "shelf/box".to_string()]);
        }
        other => panic!("unexpected {:?}", other),
    }
    assert_eq!(st.len(), before);
}
