use backend::api::users::{auth, profile, Credentials};
use backend::jwt::{Claims, Config};
use backend::user_management::{change_password, check_user, create_with_cost, create_with_hash, delete};
use backend::{BackendError, Database};

const COST: u32 = 4;

fn config() -> Config {
    Config { secret: String::from("secret"), expire_in: 3600, validation_leeway: 60 }
}

#[test]
fn created_user_checks_with_its_password_only() {
    let mut db = Database::new();
    let u = create_with_cost(&mut db, "alice", "pw1", COST).unwrap();
    assert_eq!(u.username, "alice");
    assert_ne!(u.password_hash, "pw1");
    assert_eq!(check_user(&db, "alice", "pw1").unwrap().unwrap().id, u.id);
    assert!(check_user(&db, "alice", "wrong").unwrap().is_none());
    assert!(check_user(&db, "bob", "pw1").unwrap().is_none());
}

#[test]
fn duplicate_username_conflicts() {
    let mut db = Database::new();
    create_with_hash(&mut db, "alice", "h").unwrap();
    assert!(matches!(create_with_hash(&mut db, "alice", "h2"), Err(BackendError::Conflict)));
    assert!(matches!(create_with_cost(&mut db, "alice", "pw", COST), Err(BackendError::Conflict)));
    assert_eq!(db.users.len(), 1);
}

#[test]
fn bad_cost_is_a_hash_error() {
    let mut db = Database::new();
    assert!(matches!(create_with_cost(&mut db, "alice", "pw", 3), Err(BackendError::Bcrypt(_))));
    assert!(db.users.is_empty());
}

#[test]
fn malformed_hash_is_a_hash_error() {
    let mut db = Database::new();
    create_with_hash(&mut db, "alice", "not a bcrypt hash").unwrap();
    assert!(matches!(check_user(&db, "alice", "pw"), Err(BackendError::Bcrypt(_))));
}

#[test]
fn change_password_and_delete() {
    let mut db = Database::new();
    let u = create_with_cost(&mut db, "alice", "pw1", COST).unwrap();
    assert!(matches!(change_password(&mut db, 99, "x"), Err(BackendError::NotFound)));
    let v = change_password(&mut db, u.id, "pw2").unwrap();
    assert_eq!(v.id, u.id);
    assert!(check_user(&db, "alice", "pw2").unwrap().is_some());
    assert!(check_user(&db, "alice", "pw1").unwrap().is_none());
    assert!(matches!(delete(&mut db, 99), Err(BackendError::NotFound)));
    delete(&mut db, u.id).unwrap();
    assert!(db.users.is_empty());
}

#[test]
fn login_issues_a_token_for_the_user() {
    let mut db = Database::new();
    let cfg = config();
    let u = create_with_cost(&mut db, "alice", "pw1", COST).unwrap();
    let resp = auth(&cfg, &Credentials { username: String::from("alice"), password: String::from("pw1") }, &db).unwrap();
    let claims = Claims::from_token(&resp.token, &cfg).unwrap();
    assert_eq!(claims.id(), u.id);
    assert_eq!(claims.username, "alice");
    assert_eq!(profile(&claims, &db).unwrap().username, "alice");
    let bad = auth(&cfg, &Credentials { username: String::from("alice"), password: String::from("nope") }, &db);
    assert!(matches!(bad, Err(BackendError::InvalidCredentials)));
    let nobody = auth(&cfg, &Credentials { username: String::from("bob"), password: String::from("pw1") }, &db);
    assert!(matches!(nobody, Err(BackendError::InvalidCredentials)));
}

#[test]
fn error_texts() {
    assert_eq!(BackendError::NotFound.message(), "Entity not found");
    assert_eq!(BackendError::Conflict.description(), "Conflict");
    assert_eq!(BackendError::InvalidCredentials.message(), "Invalid credentials");
    let mut db = Database::new();
    let e = create_with_cost(&mut db, "alice", "pw", 3).err().unwrap();
    let m = e.message();
    assert!(m.starts_with("Bcrypt error: "));
    assert!(m.len() > "Bcrypt error: ".len());
    assert_eq!(e.description(), "description() is deprecated; use Display");
    assert_eq!(e.status(), 500);
}

#[test]
fn unknown_id_password_change_keeps_store() {
    let mut db = Database::new();
    let u = create_with_cost(&mut db, "alice", "pw1", COST).unwrap();
    assert!(matches!(change_password(&mut db, u.id + 1, "x"), Err(BackendError::NotFound)));
    let v = change_password(&mut db, u.id, "pw2").unwrap();
    assert_eq!(v.username, "alice");
}
