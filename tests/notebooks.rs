use backend::api::notebooks::{
    create_notebook, create_page, create_section, delete_notebook, delete_page, delete_section, fetch_notebooks,
    modify_notebook, modify_page, modify_section, CreateNotebookPayload, CreatePagePayload, CreateSectionPayload,
    ModifyNotebookPayload, ModifyPagePayload, ModifySectionPayload,
};
use backend::jwt::Claims;
use backend::models::{Page, PagePath, PagesTree};
use backend::user_management::{create_with_hash, delete};
use backend::{BackendError, Database};

fn me() -> Claims {
    Claims { sub: 1, username: String::from("me"), exp: 0 }
}

fn setup() -> Database {
    let mut db = Database::new();
    create_with_hash(&mut db, "me", "h").unwrap();
    create_notebook(&me(), &mut db, &CreateNotebookPayload { notebook_title: "Work" }).unwrap();
    create_section(&me(), &mut db, "Work", &CreateSectionPayload { section_title: "Q1" }).unwrap();
    create_page(&me(), &mut db, "Work", "Q1", &CreatePagePayload { page_title: "plan", content: "a" }).unwrap();
    create_page(&me(), &mut db, "Work", "Q1", &CreatePagePayload { page_title: "budget", content: "b" }).unwrap();
    db
}

#[test]
fn titles_are_unique_per_level() {
    let mut db = setup();
    let r = create_notebook(&me(), &mut db, &CreateNotebookPayload { notebook_title: "Work" });
    assert!(matches!(r, Err(BackendError::Conflict)));
    let r = create_section(&me(), &mut db, "Work", &CreateSectionPayload { section_title: "Q1" });
    assert!(matches!(r, Err(BackendError::Conflict)));
    let r = create_page(&me(), &mut db, "Work", "Q1", &CreatePagePayload { page_title: "plan", content: "z" });
    assert!(matches!(r, Err(BackendError::Conflict)));
    let r = create_section(&me(), &mut db, "Home", &CreateSectionPayload { section_title: "Q1" });
    assert!(matches!(r, Err(BackendError::NotFound)));
    let r = create_page(&me(), &mut db, "Work", "Q2", &CreatePagePayload { page_title: "x", content: "z" });
    assert!(matches!(r, Err(BackendError::NotFound)));
    create_section(&me(), &mut db, "Work", &CreateSectionPayload { section_title: "Q2" }).unwrap();
    create_page(&me(), &mut db, "Work", "Q2", &CreatePagePayload { page_title: "plan", content: "z" }).unwrap();
}

#[test]
fn modify_page_sets_content_and_title() {
    let mut db = setup();
    let p = modify_page(
        &me(),
        &mut db,
        "Work",
        "Q1",
        "plan",
        &ModifyPagePayload { page_title: Some(String::from("roadmap")), content: Some(String::from("new")) },
    )
    .unwrap();
    assert_eq!(p.page_title, "roadmap");
    assert_eq!(p.content, "new");
    let loaded = Page::load_for_user_by_path(
        &db,
        1,
        &PagePath { notebook_title: "Work", section_title: "Q1", page_title: "roadmap" },
    )
    .unwrap();
    assert_eq!(loaded.content, "new");
}

#[test]
fn refused_title_leaves_page_unchanged() {
    let mut db = setup();
    let r = modify_page(
        &me(),
        &mut db,
        "Work",
        "Q1",
        "plan",
        &ModifyPagePayload { page_title: Some(String::from("budget")), content: Some(String::from("new")) },
    );
    assert!(matches!(r, Err(BackendError::Conflict)));
    let loaded =
        Page::load_for_user_by_path(&db, 1, &PagePath { notebook_title: "Work", section_title: "Q1", page_title: "plan" })
            .unwrap();
    assert_eq!(loaded.content, "a");
}

#[test]
fn modify_notebook_and_section() {
    let mut db = setup();
    let same = modify_notebook(&me(), &mut db, "Work", &ModifyNotebookPayload { notebook_title: None }).unwrap();
    assert_eq!(same.notebook_title, "Work");
    let nb = modify_notebook(&me(), &mut db, "Work", &ModifyNotebookPayload { notebook_title: Some(String::from("Job")) })
        .unwrap();
    assert_eq!(nb.notebook_title, "Job");
    let r = modify_notebook(&me(), &mut db, "Work", &ModifyNotebookPayload { notebook_title: None });
    assert!(matches!(r, Err(BackendError::NotFound)));
    let s = modify_section(&me(), &mut db, "Job", "Q1", &ModifySectionPayload { section_title: Some(String::from("Q3")) })
        .unwrap();
    assert_eq!(s.section_title, "Q3");
}

#[test]
fn deletes_go_bottom_up() {
    let mut db = setup();
    assert!(matches!(delete_notebook(&me(), &mut db, "Work"), Err(BackendError::Conflict)));
    assert!(matches!(delete_section(&me(), &mut db, "Work", "Q1"), Err(BackendError::Conflict)));
    delete_page(&me(), &mut db, "Work", "Q1", "plan").unwrap();
    delete_page(&me(), &mut db, "Work", "Q1", "budget").unwrap();
    assert!(matches!(delete_page(&me(), &mut db, "Work", "Q1", "budget"), Err(BackendError::NotFound)));
    delete_section(&me(), &mut db, "Work", "Q1").unwrap();
    delete_notebook(&me(), &mut db, "Work").unwrap();
    let tree: PagesTree = fetch_notebooks(&me(), &db).unwrap();
    assert!(tree.0.is_empty());
}

#[test]
fn notebooks_need_a_stored_user() {
    let mut db = Database::new();
    let nobody = Claims { sub: 5, username: String::from("nobody"), exp: 0 };
    let r = create_notebook(&nobody, &mut db, &CreateNotebookPayload { notebook_title: "Work" });
    assert!(matches!(r, Err(BackendError::NotFound)));
}

#[test]
fn deleting_a_user_removes_its_notebooks() {
    let mut db = setup();
    create_with_hash(&mut db, "other", "h").unwrap();
    let other = Claims { sub: 2, username: String::from("other"), exp: 0 };
    create_notebook(&other, &mut db, &CreateNotebookPayload { notebook_title: "Home" }).unwrap();
    create_section(&other, &mut db, "Home", &CreateSectionPayload { section_title: "S" }).unwrap();
    create_page(&other, &mut db, "Home", "S", &CreatePagePayload { page_title: "p", content: "c" }).unwrap();
    delete(&mut db, 1).unwrap();
    assert_eq!(db.notebooks.len(), 1);
    assert_eq!(db.notebooks[0].notebook_title, "Home");
    assert_eq!(db.sections.len(), 1);
    assert_eq!(db.pages.len(), 1);
    assert_eq!(db.pages[0].page_title, "p");
    assert_eq!(fetch_notebooks(&other, &db).unwrap().0.len(), 1);
}
