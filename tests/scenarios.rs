use backend::api::nodes::{create_node, delete, get_nodes, CreateNodePayload, DeleteNode};
use backend::api::notebooks::{
    create_notebook, create_page, create_section, fetch_notebooks, CreateNotebookPayload, CreatePagePayload,
    CreateSectionPayload,
};
use backend::api::users::{auth, Credentials};
use backend::jwt::{Claims, Config};
use backend::models::{NewNodePayload, Node};
use backend::user_management::{create_with_cost, create_with_hash};
use backend::{BackendError, Database};

#[test]
fn end_to_end_notes() {
    let mut db = Database::new();
    let cfg = Config { secret: String::from("server secret"), expire_in: 3600, validation_leeway: 60 };
    create_with_cost(&mut db, "alice", "pw1", 4).unwrap();
    let login = auth(&cfg, &Credentials { username: String::from("alice"), password: String::from("pw1") }, &db).unwrap();
    let headers = vec![format!("Bearer {}", login.token)];
    let claims = Claims::from_request(&headers, Some(&cfg)).unwrap();

    let notes = create_node(
        &claims,
        &mut db,
        &CreateNodePayload {
            parent: vec![],
            node: NewNodePayload { name: String::from("Notes"), is_directory: true, content: None },
        },
    )
    .unwrap();
    let todo = create_node(
        &claims,
        &mut db,
        &CreateNodePayload {
            parent: vec![String::from("Notes")],
            node: NewNodePayload {
                name: String::from("todo.md"),
                is_directory: false,
                content: Some(String::from("buy milk")),
            },
        },
    )
    .unwrap();
    let all = get_nodes(&claims, &db).unwrap();
    assert_eq!(all.len(), 2);
    assert_eq!(all[0].node_id, notes.node_id);
    assert_eq!(all[1].node_id, todo.node_id);
    assert_eq!(all[1].content.as_deref(), Some("buy milk"));

    let todo_path = vec![String::from("Notes"), String::from("todo.md")];
    delete(&claims, &mut db, &DeleteNode { path: todo_path.clone() }).unwrap();
    assert!(matches!(Node::fetch_by_path_for_user(&db, &claims.id(), &todo_path), Err(BackendError::NotFound)));
}

#[test]
fn notebook_tree_for_one_user() {
    let mut db = Database::new();
    create_with_hash(&mut db, "me", "h").unwrap();
    create_with_hash(&mut db, "other", "h").unwrap();
    let me = Claims { sub: 1, username: String::from("me"), exp: 0 };
    let other = Claims { sub: 2, username: String::from("other"), exp: 0 };
    create_notebook(&me, &mut db, &CreateNotebookPayload { notebook_title: "Work" }).unwrap();
    create_section(&me, &mut db, "Work", &CreateSectionPayload { section_title: "Q1" }).unwrap();
    create_page(&me, &mut db, "Work", "Q1", &CreatePagePayload { page_title: "plan", content: "step 1" }).unwrap();
    create_page(&me, &mut db, "Work", "Q1", &CreatePagePayload { page_title: "budget", content: "100" }).unwrap();
    create_notebook(&other, &mut db, &CreateNotebookPayload { notebook_title: "Work" }).unwrap();
    create_section(&other, &mut db, "Work", &CreateSectionPayload { section_title: "Q1" }).unwrap();
    create_page(&other, &mut db, "Work", "Q1", &CreatePagePayload { page_title: "secret", content: "x" }).unwrap();

    let tree = fetch_notebooks(&me, &db).unwrap();
    assert_eq!(tree.0.len(), 1);
    assert_eq!(tree.0[0].title, "Work");
    assert_eq!(tree.0[0].sections.len(), 1);
    assert_eq!(tree.0[0].sections[0].title, "Q1");
    let pages = &tree.0[0].sections[0].pages;
    assert_eq!(pages.len(), 2);
    assert_eq!(pages[0].title, "plan");
    assert_eq!(pages[0].content, "step 1");
    assert_eq!(pages[1].title, "budget");
    assert_eq!(pages[1].content, "100");
}
