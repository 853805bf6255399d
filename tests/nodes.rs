use backend::api::nodes::{
    change_content, change_name, change_parent, create_node, delete, get_nodes, ChangeNodeContent, ChangeNodeName,
    ChangeParentPayload, CreateNodePayload, DeleteNode,
};
use backend::jwt::Claims;
use backend::models::{NewNode, NewNodePayload, Node};
use backend::user_management::create_with_hash;
use backend::{BackendError, Database};

fn claims(id: i32) -> Claims {
    Claims { sub: id, username: String::from("u"), exp: 0 }
}

fn path(parts: &[&str]) -> Vec<String> {
    parts.iter().map(|p| p.to_string()).collect()
}

fn dir(name: &str) -> NewNodePayload {
    NewNodePayload { name: name.to_string(), is_directory: true, content: None }
}

fn leaf(name: &str, content: &str) -> NewNodePayload {
    NewNodePayload { name: name.to_string(), is_directory: false, content: Some(content.to_string()) }
}

fn db_with_users() -> Database {
    let mut db = Database::new();
    create_with_hash(&mut db, "one", "h1").unwrap();
    create_with_hash(&mut db, "two", "h2").unwrap();
    db
}

fn create(db: &mut Database, owner: i32, parent: &[&str], node: NewNodePayload) -> Result<Node, BackendError> {
    create_node(&claims(owner), db, &CreateNodePayload { parent: path(parent), node })
}

#[test]
fn new_node_requires_content_on_leaves() {
    let bad = NewNodePayload { name: String::from("x"), is_directory: false, content: None };
    assert!(matches!(NewNode::new(&bad, None, &1), Err(BackendError::InvalidValue)));
    let d = NewNodePayload { name: String::from("d"), is_directory: true, content: Some(String::from("ignored")) };
    let n = NewNode::new(&d, Some(&5), &1).unwrap();
    assert_eq!(n.content, None);
    assert_eq!(n.parent_id, Some(5));
    assert_eq!(n.parent_is_directory, Some(true));
    let l = NewNode::new(&leaf("l", "text"), None, &2).unwrap();
    assert_eq!(l.content.as_deref(), Some("text"));
    assert_eq!(l.parent_is_directory, None);
    assert_eq!(l.owner_id, 2);
}

#[test]
fn created_node_resolves_with_its_attributes() {
    let mut db = db_with_users();
    let d = create(&mut db, 1, &[], dir("docs")).unwrap();
    let l = create(&mut db, 1, &["docs"], leaf("a.md", "hello")).unwrap();
    let got = Node::fetch_by_path_for_user(&db, &1, &path(&["docs", "a.md"])).unwrap();
    assert_eq!(got.node_id, l.node_id);
    assert_eq!(got.node_name, "a.md");
    assert_eq!(got.content.as_deref(), Some("hello"));
    assert!(!got.is_directory);
    assert_eq!(got.parent_id, Some(d.node_id));
    assert_eq!(got.owner_id, 1);
    assert!(matches!(Node::fetch_by_path_for_user(&db, &2, &path(&["docs", "a.md"])), Err(BackendError::NotFound)));
}

#[test]
fn resolution_fails_fast_and_on_empty_path() {
    let mut db = db_with_users();
    create(&mut db, 1, &[], dir("a")).unwrap();
    assert!(matches!(Node::fetch_by_path_for_user(&db, &1, &path(&["b", "a"])), Err(BackendError::NotFound)));
    assert!(matches!(Node::fetch_by_path_for_user(&db, &1, &path(&[])), Err(BackendError::NotFound)));
}

#[test]
fn nested_name_is_not_found_at_root() {
    let mut db = db_with_users();
    create(&mut db, 1, &[], dir("a")).unwrap();
    create(&mut db, 1, &["a"], dir("b")).unwrap();
    assert!(matches!(Node::fetch_by_path_for_user(&db, &1, &path(&["b"])), Err(BackendError::NotFound)));
}

#[test]
fn creating_under_missing_parent_or_leaf_fails() {
    let mut db = db_with_users();
    assert!(matches!(create(&mut db, 1, &["none"], dir("x")), Err(BackendError::NotFound)));
    create(&mut db, 1, &[], leaf("f", "c")).unwrap();
    assert!(matches!(create(&mut db, 1, &["f"], dir("x")), Err(BackendError::InvalidValue)));
    let bad = NewNodePayload { name: String::from("y"), is_directory: false, content: None };
    assert!(matches!(create(&mut db, 1, &[], bad), Err(BackendError::InvalidValue)));
    assert_eq!(db.nodes.len(), 1);
}

#[test]
fn second_sibling_with_same_name_conflicts() {
    let mut db = db_with_users();
    create(&mut db, 1, &[], dir("a")).unwrap();
    assert!(matches!(create(&mut db, 1, &[], leaf("a", "x")), Err(BackendError::Conflict)));
    create(&mut db, 1, &["a"], dir("a")).unwrap();
    create(&mut db, 2, &[], dir("a")).unwrap();
    assert!(matches!(create(&mut db, 1, &["a"], dir("a")), Err(BackendError::Conflict)));
    assert_eq!(db.nodes.len(), 3);
}

#[test]
fn store_full_is_reported() {
    let mut db = db_with_users();
    db.next_node_id = i32::MAX;
    assert!(matches!(create(&mut db, 1, &[], dir("a")), Err(BackendError::StorageFull)));
}

#[test]
fn move_resolves_at_new_path_only() {
    let mut db = db_with_users();
    create(&mut db, 1, &[], dir("a")).unwrap();
    create(&mut db, 1, &[], dir("b")).unwrap();
    let x = create(&mut db, 1, &["a"], leaf("x", "1")).unwrap();
    let resp = change_parent(
        &claims(1),
        &mut db,
        &ChangeParentPayload { node_path: path(&["a", "x"]), new_parent_path: path(&["b"]) },
    )
    .unwrap();
    assert_eq!(resp.old_path, path(&["a", "x"]));
    assert_eq!(resp.new_path, path(&["b", "x"]));
    assert_eq!(Node::fetch_id_by_path_for_user(&db, &1, &resp.new_path).unwrap(), x.node_id);
    assert!(matches!(Node::fetch_id_by_path_for_user(&db, &1, &resp.old_path), Err(BackendError::NotFound)));
    let resp = change_parent(
        &claims(1),
        &mut db,
        &ChangeParentPayload { node_path: path(&["b", "x"]), new_parent_path: path(&[]) },
    )
    .unwrap();
    assert_eq!(resp.new_path, path(&["x"]));
    assert_eq!(Node::fetch_id_by_path_for_user(&db, &1, &path(&["x"])).unwrap(), x.node_id);
}

#[test]
fn move_under_itself_or_descendant_fails() {
    let mut db = db_with_users();
    create(&mut db, 1, &[], dir("a")).unwrap();
    create(&mut db, 1, &["a"], dir("b")).unwrap();
    create(&mut db, 1, &["a", "b"], dir("c")).unwrap();
    let before: Vec<Option<i32>> = db.nodes.iter().map(|n| n.parent_id).collect();
    for dest in [path(&["a"]), path(&["a", "b"]), path(&["a", "b", "c"])] {
        let r = change_parent(&claims(1), &mut db, &ChangeParentPayload { node_path: path(&["a"]), new_parent_path: dest });
        assert!(matches!(r, Err(BackendError::InvalidValue)));
    }
    let after: Vec<Option<i32>> = db.nodes.iter().map(|n| n.parent_id).collect();
    assert_eq!(before, after);
}

#[test]
fn move_into_leaf_or_onto_taken_name_fails() {
    let mut db = db_with_users();
    create(&mut db, 1, &[], dir("a")).unwrap();
    create(&mut db, 1, &[], leaf("f", "c")).unwrap();
    create(&mut db, 1, &["a"], dir("f")).unwrap();
    let r = change_parent(&claims(1), &mut db, &ChangeParentPayload { node_path: path(&["a"]), new_parent_path: path(&["f"]) });
    assert!(matches!(r, Err(BackendError::InvalidValue)));
    let r = change_parent(&claims(1), &mut db, &ChangeParentPayload { node_path: path(&["a", "f"]), new_parent_path: path(&[]) });
    assert!(matches!(r, Err(BackendError::Conflict)));
    let r = change_parent(&claims(1), &mut db, &ChangeParentPayload { node_path: path(&["zz"]), new_parent_path: path(&[]) });
    assert!(matches!(r, Err(BackendError::NotFound)));
}

#[test]
fn content_change_rules() {
    let mut db = db_with_users();
    create(&mut db, 1, &[], dir("d")).unwrap();
    create(&mut db, 1, &["d"], leaf("f", "old")).unwrap();
    let r = change_content(&claims(1), &mut db, &ChangeNodeContent { path: path(&["d"]), new_content: String::from("x") });
    assert!(matches!(r, Err(BackendError::InvalidValue)));
    let p = ChangeNodeContent { path: path(&["d", "f"]), new_content: String::from("new") };
    let once = change_content(&claims(1), &mut db, &p).unwrap();
    let stored_once = Node::fetch_by_path_for_user(&db, &1, &p.path).unwrap();
    let twice = change_content(&claims(1), &mut db, &p).unwrap();
    let stored_twice = Node::fetch_by_path_for_user(&db, &1, &p.path).unwrap();
    assert_eq!(once, twice);
    assert_eq!(stored_once, stored_twice);
    assert_eq!(stored_twice.content.as_deref(), Some("new"));
}

#[test]
fn model_content_change_on_missing_row() {
    let mut db = Database::new();
    let ghost = Node {
        node_id: 42,
        node_name: String::from("g"),
        parent_id: None,
        parent_is_directory: None,
        owner_id: 1,
        is_directory: false,
        content: Some(String::from("c")),
    };
    assert!(matches!(ghost.change_content(&mut db, "x"), Err(BackendError::NotFound)));
}

#[test]
fn rename_rules() {
    let mut db = db_with_users();
    create(&mut db, 1, &[], dir("a")).unwrap();
    create(&mut db, 1, &[], dir("b")).unwrap();
    let r = change_name(&claims(1), &mut db, &ChangeNodeName { path: path(&["a"]), new_name: "b" });
    assert!(matches!(r, Err(BackendError::Conflict)));
    let n = change_name(&claims(1), &mut db, &ChangeNodeName { path: path(&["a"]), new_name: "c" }).unwrap();
    assert_eq!(n.node_name, "c");
    assert!(Node::fetch_by_path_for_user(&db, &1, &path(&["c"])).is_ok());
    assert!(change_name(&claims(1), &mut db, &ChangeNodeName { path: path(&["c"]), new_name: "c" }).is_ok());
}

#[test]
fn delete_rules() {
    let mut db = db_with_users();
    create(&mut db, 1, &[], dir("a")).unwrap();
    create(&mut db, 1, &["a"], leaf("f", "c")).unwrap();
    let r = delete(&claims(1), &mut db, &DeleteNode { path: path(&["a"]) });
    assert!(matches!(r, Err(BackendError::Conflict)));
    delete(&claims(1), &mut db, &DeleteNode { path: path(&["a", "f"]) }).unwrap();
    delete(&claims(1), &mut db, &DeleteNode { path: path(&["a"]) }).unwrap();
    assert!(db.nodes.is_empty());
    let r = delete(&claims(1), &mut db, &DeleteNode { path: path(&["a"]) });
    assert!(matches!(r, Err(BackendError::NotFound)));
}

#[test]
fn listing_is_per_owner() {
    let mut db = db_with_users();
    create(&mut db, 1, &[], dir("a")).unwrap();
    create(&mut db, 2, &[], dir("b")).unwrap();
    create(&mut db, 1, &["a"], leaf("c", "x")).unwrap();
    let mine = get_nodes(&claims(1), &db).unwrap();
    let names: Vec<&str> = mine.iter().map(|n| n.node_name.as_str()).collect();
    assert_eq!(names, vec!["a", "c"]);
    assert_eq!(get_nodes(&claims(3), &db).unwrap().len(), 0);
}

#[test]
fn error_status_codes() {
    assert_eq!(BackendError::NotFound.status(), 404);
    assert_eq!(BackendError::Conflict.status(), 409);
    assert_eq!(BackendError::InvalidValue.status(), 422);
    assert_eq!(BackendError::InvalidCredentials.status(), 401);
    assert_eq!(BackendError::StorageFull.status(), 500);
}

#[test]
fn unknown_owner_cannot_create() {
    let mut db = db_with_users();
    assert!(matches!(create(&mut db, 7, &[], dir("a")), Err(BackendError::NotFound)));
    assert!(db.nodes.is_empty());
}

#[test]
fn deleting_a_user_removes_its_nodes() {
    let mut db = db_with_users();
    create(&mut db, 1, &[], dir("a")).unwrap();
    create(&mut db, 2, &[], dir("b")).unwrap();
    create(&mut db, 1, &["a"], leaf("c", "x")).unwrap();
    backend::user_management::delete(&mut db, 1).unwrap();
    assert_eq!(db.nodes.len(), 1);
    assert_eq!(db.nodes[0].node_name, "b");
    assert!(matches!(create(&mut db, 1, &[], dir("z")), Err(BackendError::NotFound)));
}

#[test]
fn consistency_check_accepts_built_stores_and_refuses_broken_ones() {
    let mut db = db_with_users();
    create(&mut db, 1, &[], dir("a")).unwrap();
    create(&mut db, 1, &["a"], dir("b")).unwrap();
    assert!(db.is_consistent());
    let a = db.nodes[0].node_id;
    let b = db.nodes[1].node_id;
    db.nodes[0].parent_id = Some(b);
    db.nodes[0].parent_is_directory = Some(true);
    assert!(!db.is_consistent());
    db.nodes[0].parent_id = None;
    db.nodes[0].parent_is_directory = None;
    assert!(db.is_consistent());
    db.nodes[1].owner_id = 9;
    assert!(!db.is_consistent());
    assert_ne!(a, b);
}
