use invy::commands::{add, edit, mv, rm, show};
use invy::db;
use invy::error::InvError;
use invy::model::{Format, Item, TreeItem};
use invy::text;
use invy::store::Store;
use invy::tree::build_tree;

const NOW: &str = "2024-01-01 00:00:00";
const LATER: &str = "2024-02-02 12:00:00";

fn snapshot(st: &Store) -> Vec<(i64, String, Option<String>, Option<i64>, String)> {
    db::list_all_items(st)
        .into_iter()
        .map(|i| (i.id, i.name, i.description, i.container_id, i.updated_at))
        .collect()
}

fn tree_names(ts: &[TreeItem]) -> Vec<String> {
    ts.iter().map(|t| t.name.clone()).collect()
}

fn record(id: i64, name: &str, container_id: Option<i64>) -> Item {
    Item {
        id,
        name: name.to_string(),
        description: None,
        container_id,
        created_at: NOW.to_string(),
        updated_at: NOW.to_string(),
    }
}

#[test]
fn duplicate_attempts_leave_store_unchanged() {
    let mut st = Store::new();
    add::run(&mut st, "hammer", None, Some("toolbox"), NOW).unwrap();
    add::run(&mut st, "saw", None, Some("toolbox"), NOW).unwrap();
    add::run(&mut st, "saw", None, None, NOW).unwrap();
    let before = snapshot(&st);
    assert!(matches!(
        add::run(&mut st, "hammer", None, Some("toolbox"), LATER),
        Err(InvError::DuplicateName { .. })
    ));
    assert_eq!(snapshot(&st), before);
    assert!(matches!(
        edit::run(&mut st, "toolbox/saw", Some("hammer"), None, LATER),
        Err(InvError::DuplicateName { .. })
    ));
    assert_eq!(snapshot(&st), before);
    assert!(matches!(
        mv::run(&mut st, "toolbox/saw", "/", LATER),
        Err(InvError::DuplicateName { container_id: None, .. })
    ));
    assert_eq!(snapshot(&st), before);
}

#[test]
fn move_refuses_self_and_descendants_only() {
    let mut st = Store::new();
    add::run(&mut st, "c", None, Some("a/b"), NOW).unwrap();
    add::run(&mut st, "d", None, None, NOW).unwrap();
    for dest in ["a", "a/b", "a/b/c", "b", "c"] {
        let err = mv::run(&mut st, "a", dest, LATER).unwrap_err();
        assert!(matches!(err, InvError::CycleViolation { .. }), "{}", dest);
    }
    let moved = mv::run(&mut st, "a", "d", LATER).unwrap();
    assert_eq!(moved.item.path, vec!["d".to_string(), "a".to_string()]);
    let c = show::run(&st, "c").unwrap();
    assert_eq!(c.path, vec!["d", "a", "b", "c"].iter().map(|s| s.to_string()).collect::<Vec<_>>());
    let a = db::resolve(&st, "d/a").unwrap();
    let cid = db::resolve(&st, "c").unwrap();
    assert!(db::is_ancestor(&st, a.id, cid.id));
    assert!(db::is_ancestor(&st, cid.id, cid.id));
    assert!(!db::is_ancestor(&st, cid.id, a.id));
}

#[test]
fn created_path_round_trips() {
    let mut st = Store::new();
    let made = db::resolve_or_create_container(&mut st, "a/b/c", NOW).unwrap();
    assert_eq!(st.len(), 3);
    let found = db::resolve(&st, "a/b/c").unwrap();
    assert_eq!(found.id, made.id);
    assert_eq!(
        db::get_item_path(&st, found.id),
        vec!["a".to_string(), "b".to_string(), "c".to_string()]
    );
    let again = db::resolve_or_create_container(&mut st, "/a//b/c/", LATER).unwrap();
    assert_eq!(again.id, made.id);
    assert_eq!(st.len(), 3);
}

#[test]
fn remove_sends_exactly_the_children_to_root() {
    let mut st = Store::new();
    add::run(&mut st, "house", None, None, NOW).unwrap();
    add::run(&mut st, "x", None, Some("box"), NOW).unwrap();
    add::run(&mut st, "y", None, Some("box"), NOW).unwrap();
    add::run(&mut st, "z", None, Some("box"), NOW).unwrap();
    add::run(&mut st, "inner", None, Some("box/x"), NOW).unwrap();
    let x = db::resolve(&st, "x").unwrap();
    let removed = rm::run(&mut st, "box", LATER).unwrap();
    assert_eq!(removed.orphaned, vec!["x".to_string(), "y".to_string(), "z".to_string()]);
    let roots: Vec<String> = db::list_root_items(&st).into_iter().map(|i| i.name).collect();
    assert_eq!(roots, vec!["house", "x", "y", "z"]);
    assert!(db::get_item_by_path(&st, "x/inner").is_some());
    let inner = db::resolve(&st, "inner").unwrap();
    assert_eq!(inner.container_id, Some(x.id));
    let before = snapshot(&st);
    rm::run(&mut st, "inner", LATER).unwrap();
    let after = snapshot(&st);
    let expected: Vec<_> = before.into_iter().filter(|r| r.1 != "inner").collect();
    assert_eq!(after, expected);
}

#[test]
fn ambiguous_name_lists_every_path() {
    let mut st = Store::new();
    add::run(&mut st, "hammer", None, Some("garage"), NOW).unwrap();
    add::run(&mut st, "hammer", None, Some("toolbox"), NOW).unwrap();
    match db::resolve(&st, "hammer") {
        Err(InvError::Ambiguous { name, paths }) => {
            assert_eq!(name, "hammer");
            assert_eq!(paths, vec!["garage/hammer".to_string(), "toolbox/hammer".to_string()]);
        }
        other => panic!("unexpected {:?}", other),
    }
    let err = db::resolve(&st, "hammer").unwrap_err();
    assert_eq!(
        err.message(),
        "'hammer' is ambiguous. Use full path: garage/hammer, toolbox/hammer"
    );
    let found = db::resolve(&st, "toolbox/hammer").unwrap();
    assert_eq!(db::get_item_path(&st, found.id), vec!["toolbox".to_string(), "hammer".to_string()]);
}

#[test]
fn tree_orders_siblings_by_name() {
    let mut st = Store::new();
    for n in ["zebra", "alpha", "middle"] {
        add::run(&mut st, n, None, None, NOW).unwrap();
    }
    for n in ["Delta", "bravo", "Charlie"] {
        add::run(&mut st, n, None, Some("zebra"), NOW).unwrap();
    }
    let forest = build_tree(&st);
    assert_eq!(tree_names(&forest), vec!["alpha", "middle", "zebra"]);
    assert_eq!(forest[2].child_count, 3);
    assert_eq!(tree_names(&forest[2].children), vec!["bravo", "Charlie", "Delta"]);
}

#[test]
fn tree_breaks_ties_by_creation_order() {
    let mut st = Store::new();
    add::run(&mut st, "box", None, None, NOW).unwrap();
    add::run(&mut st, "Box", None, None, NOW).unwrap();
    add::run(&mut st, "BOX", None, None, NOW).unwrap();
    add::run(&mut st, "bo", None, None, NOW).unwrap();
    let forest = build_tree(&st);
    assert_eq!(tree_names(&forest), vec!["bo", "box", "Box", "BOX"]);
}

#[test]
fn add_toolbox_hammer_scenario_tree() {
    let mut st = Store::new();
    add::run(&mut st, "garage", None, None, NOW).unwrap();
    add::run(&mut st, "toolbox", None, Some("garage"), NOW).unwrap();
    add::run(&mut st, "hammer", None, Some("garage/toolbox"), NOW).unwrap();
    let forest = build_tree(&st);
    assert_eq!(forest.len(), 1);
    assert_eq!(forest[0].name, "garage");
    assert_eq!(forest[0].child_count, 1);
    let toolbox = &forest[0].children[0];
    assert_eq!(toolbox.name, "toolbox");
    assert_eq!(toolbox.child_count, 1);
    assert_eq!(toolbox.children.len(), 1);
    let hammer = &toolbox.children[0];
    assert_eq!(hammer.name, "hammer");
    assert_eq!(hammer.child_count, 0);
    assert!(hammer.children.is_empty());
}

#[test]
fn empty_store_projects_empty_forest() {
    let st = Store::new();
    assert!(build_tree(&st).is_empty());
    assert!(db::list_all_items(&st).is_empty());
}

#[test]
fn loading_accepts_consistent_records() {
    let rows = vec![record(1, "garage", None), record(3, "hammer", Some(5)), record(5, "toolbox", Some(1))];
    let st = Store::from_items(rows, 9).unwrap();
    assert_eq!(st.next_id(), 9);
    assert_eq!(
        db::get_item_path(&st, 3),
        vec!["garage".to_string(), "toolbox".to_string(), "hammer".to_string()]
    );
    let mut st = st;
    let added = add::run(&mut st, "saw", None, None, NOW).unwrap();
    assert_eq!(added.id, 9);
}

#[test]
fn loading_refuses_cycles_and_broken_rows() {
    let cycle = vec![record(1, "a", Some(2)), record(2, "b", Some(1))];
    assert!(matches!(Store::from_items(cycle, 3), Err(InvError::StoreFailure { .. })));
    let own = vec![record(1, "a", Some(1))];
    assert!(matches!(Store::from_items(own, 2), Err(InvError::StoreFailure { .. })));
    let dangling = vec![record(1, "a", Some(7))];
    assert!(Store::from_items(dangling, 8).is_err());
    let duplicate = vec![record(1, "a", None), record(2, "a", None)];
    assert!(Store::from_items(duplicate, 3).is_err());
    let unordered = vec![record(2, "a", None), record(1, "b", None)];
    assert!(Store::from_items(unordered, 3).is_err());
    let stale_next = vec![record(4, "a", None)];
    assert!(Store::from_items(stale_next, 4).is_err());
    let empty_name = vec![record(1, "", None)];
    assert!(Store::from_items(empty_name, 2).is_err());
}

#[test]
fn store_primitives_keep_the_table_rules() {
    let mut st = Store::new();
    let g = db::insert_item(&mut st, "garage", Some("cold"), None, NOW).unwrap();
    assert_eq!(g.id, 1);
    assert!(matches!(
        db::insert_item(&mut st, "garage", None, None, NOW),
        Err(InvError::DuplicateName { .. })
    ));
    assert!(matches!(
        db::insert_item(&mut st, "box", None, Some(42), NOW),
        Err(InvError::StoreFailure { .. })
    ));
    let b = db::insert_item(&mut st, "box", None, Some(g.id), NOW).unwrap();
    assert_eq!(db::count_children(&st, g.id), 1);
    assert!(db::name_exists_in_container(&st, "box", Some(g.id)));
    assert!(!db::name_exists_in_container(&st, "box", None));
    db::update_item_description(&mut st, b.id, Some("wooden"), LATER);
    assert_eq!(db::get_item_by_id(&st, b.id).unwrap().description.as_deref(), Some("wooden"));
    db::update_item_name(&mut st, b.id, "crate", LATER).unwrap();
    assert_eq!(db::get_item_by_path(&st, "garage/crate").unwrap().id, b.id);
    assert!(db::get_item_by_path(&st, "garage/box").is_none());
    assert!(db::get_item_by_path(&st, "/").is_none());
    db::move_item(&mut st, b.id, None, LATER).unwrap();
    assert_eq!(db::list_items_in_container(&st, g.id).len(), 0);
    assert_eq!(db::list_root_items(&st).len(), 2);
    db::delete_item(&mut st, g.id, LATER).unwrap();
    assert!(db::get_item_by_id(&st, g.id).is_none());
    assert_eq!(db::find_items_by_exact_name(&st, "crate").len(), 1);
    assert_eq!(db::search_items(&st, "WOOD").len(), 1);
    assert!(db::resolve_item(&st, "nothing").unwrap().is_none());
    let made = db::get_or_create_container(&mut st, "shed", NOW).unwrap();
    let same = db::get_or_create_container(&mut st, "shed", NOW).unwrap();
    assert_eq!(made.id, same.id);
}

#[test]
fn guard_checks() {
    let mut st = Store::new();
    add::run(&mut st, "b", None, Some("a"), NOW).unwrap();
    let a = db::resolve(&st, "a").unwrap();
    let b = db::resolve(&st, "b").unwrap();
    assert!(matches!(
        invy::guard::assert_no_cycle(&st, &a, b.id),
        Err(InvError::CycleViolation { .. })
    ));
    assert!(invy::guard::assert_no_cycle(&st, &b, a.id).is_err() == false);
    assert!(invy::guard::assert_name_available(&st, "b", Some(a.id), Some(b.id)).is_ok());
    assert!(matches!(
        invy::guard::assert_name_available(&st, "b", Some(a.id), None),
        Err(InvError::DuplicateName { .. })
    ));
    assert!(invy::guard::assert_name_available(&st, "b", None, None).is_ok());
}

#[test]
fn text_helpers() {
    assert_eq!(text::split_segments("a//b/"), vec!["a".to_string(), "b".to_string()]);
    assert!(text::split_segments("///").is_empty());
    assert_eq!(text::split_segments("hammer"), vec!["hammer".to_string()]);
    assert!(text::contains_separator("a/b"));
    assert!(!text::contains_separator("ab"));
    assert_eq!(text::join_path(&vec!["a".to_string(), "b".to_string()]), "a/b");
    assert_eq!(text::folded_codes("AbZ["), vec![97, 98, 122, 91]);
    assert!(text::lex_compare(&vec![1, 2], &vec![1, 3]) < 0);
    assert!(text::lex_compare(&vec![1, 2, 0], &vec![1, 2]) > 0);
    assert_eq!(text::lex_compare(&vec![4], &vec![4]), 0);
    assert!(text::occurs(&vec![2, 3], &vec![1, 2, 3]));
    assert!(!text::occurs(&vec![3, 2], &vec![1, 2, 3]));
}

#[test]
fn messages_and_formats() {
    assert_eq!(Format::from_flags(true, true), Format::Json);
    assert_eq!(Format::from_flags(false, true), Format::Csv);
    assert_eq!(Format::from_flags(false, false), Format::Human);
    let e = InvError::NotFound { reference: "x".to_string() };
    assert_eq!(e.message(), "item 'x' not found");
    let e = InvError::CycleViolation { name: "box".to_string() };
    assert_eq!(e.message(), "cannot move 'box' into itself or its descendants");
    let e = InvError::DuplicateName { name: "box".to_string(), container_id: None };
    assert_eq!(e.message(), "item 'box' already exists in (root)");
}

#[test]
fn conversions_keep_fields() {
    let it = record(7, "lamp", Some(2));
    let wp = it.clone().with_path(vec!["desk".to_string(), "lamp".to_string()], Some(3));
    assert_eq!(wp.id, 7);
    assert_eq!(wp.path.len(), 2);
    assert_eq!(wp.child_count, Some(3));
    let li = it.into_list_item(4);
    assert_eq!(li.id, 7);
    assert_eq!(li.name, "lamp");
    assert_eq!(li.child_count, 4);
}
