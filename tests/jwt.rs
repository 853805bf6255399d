use backend::jwt::{strip_bearer, AuthTokenError, Claims, Config};
use backend::models::User;
use backend::BackendError;

fn config() -> Config {
    Config { secret: String::from("my awesome secret"), expire_in: 100, validation_leeway: 60 }
}

fn foobar() -> User {
    User { id: 1, username: String::from("foobar"), password_hash: String::from("some hash") }
}

#[test]
fn it_validates_a_token() {
    let cfg = config();
    let user = foobar();
    let token = Claims::from_user(user, &cfg).to_token(&cfg).unwrap();

    assert!(Claims::from_token(&token, &cfg).is_ok());
}

#[test]
fn token_round_trip_recovers_claims() {
    let cfg = config();
    let claims = Claims::from_user_at(foobar(), &cfg, 1_000);
    assert_eq!(claims.exp, 1_100);
    let token = claims.to_token(&cfg).unwrap();
    assert_ne!(token, "foobar");
    assert_eq!(token.matches('.').count(), 2);
    let back = Claims::from_token_at(&token, &cfg, 1_050).unwrap();
    assert_eq!(back.id(), 1);
    assert_eq!(back.username, "foobar");
    assert_eq!(back.exp, 1_100);
}

#[test]
fn token_is_accepted_until_expiry_plus_leeway() {
    let cfg = config();
    let token = Claims::from_user_at(foobar(), &cfg, 1_000).to_token(&cfg).unwrap();
    assert!(Claims::from_token_at(&token, &cfg, 1_160).is_ok());
    assert!(matches!(Claims::from_token_at(&token, &cfg, 1_161), Err(BackendError::InvalidToken)));
}

#[test]
fn token_under_another_secret_is_rejected() {
    let cfg = config();
    let token = Claims::from_user_at(foobar(), &cfg, 1_000).to_token(&cfg).unwrap();
    let other = Config { secret: String::from("another secret"), expire_in: 100, validation_leeway: 60 };
    assert!(matches!(Claims::from_token_at(&token, &other, 1_000), Err(BackendError::JwtError(_))));
    assert!(matches!(Claims::from_token_at("not a token", &cfg, 1_000), Err(BackendError::JwtError(_))));
}

#[test]
fn expiry_saturates() {
    let cfg = Config { secret: String::from("s"), expire_in: i64::MAX, validation_leeway: 0 };
    assert_eq!(Claims::from_user_at(foobar(), &cfg, 10).exp, i64::MAX);
}

#[test]
fn fields_are_checked() {
    assert!(Claims::from_fields((Some(7), Some(String::from("a")), Some(100)), 0, 100).is_ok());
    assert!(matches!(
        Claims::from_fields((Some(7), None, Some(100)), 0, 100),
        Err(BackendError::InvalidToken)
    ));
    assert!(matches!(
        Claims::from_fields((Some(1 << 40), Some(String::from("a")), Some(100)), 0, 100),
        Err(BackendError::InvalidToken)
    ));
    assert!(matches!(
        Claims::from_fields((Some(7), Some(String::from("a")), Some(100)), 5, 106),
        Err(BackendError::InvalidToken)
    ));
}

fn bearer(token: &str) -> String {
    format!("Bearer {}", token)
}

#[test]
fn request_binding_distinguishes_failures() {
    let cfg = config();
    let token = Claims::from_user_at(foobar(), &cfg, 1_000).to_token(&cfg).unwrap();
    let none: Vec<String> = vec![];
    assert_eq!(Claims::from_request_at(&none, Some(&cfg), 1_000).err(), Some(AuthTokenError::Missing));
    let two = vec![bearer(&token), bearer(&token)];
    assert_eq!(Claims::from_request_at(&two, Some(&cfg), 1_000).err(), Some(AuthTokenError::BadCount));
    let basic = vec![format!("Basic {}", token)];
    assert_eq!(Claims::from_request_at(&basic, Some(&cfg), 1_000).err(), Some(AuthTokenError::Missing));
    let mut tampered = token.clone();
    tampered.push('x');
    let one_tampered = vec![bearer(&tampered)];
    assert_eq!(Claims::from_request_at(&one_tampered, Some(&cfg), 1_000).err(), Some(AuthTokenError::Invalid));
    let one = vec![bearer(&token)];
    assert_eq!(Claims::from_request_at(&one, None, 1_000).err(), Some(AuthTokenError::Internal));
    let claims = Claims::from_request_at(&one, Some(&cfg), 1_000).unwrap();
    assert_eq!(claims.id(), 1);
    assert_eq!(Claims::from_request_at(&one, Some(&cfg), 2_000).err(), Some(AuthTokenError::Invalid));
}

#[test]
fn request_binding_with_clock() {
    let cfg = config();
    let token = Claims::from_user(foobar(), &cfg).to_token(&cfg).unwrap();
    let one = vec![bearer(&token)];
    assert_eq!(Claims::from_request(&one, Some(&cfg)).unwrap().id(), 1);
}

#[test]
fn auth_error_status() {
    assert_eq!(AuthTokenError::Invalid.status(), 401);
    assert_eq!(AuthTokenError::Missing.status(), 400);
    assert_eq!(AuthTokenError::BadCount.status(), 400);
    assert_eq!(AuthTokenError::Internal.status(), 400);
}

#[test]
fn bearer_prefix_is_stripped() {
    assert_eq!(strip_bearer("Bearer abc"), Some("abc"));
    assert_eq!(strip_bearer("Bearer "), Some(""));
    assert_eq!(strip_bearer("bearer abc"), None);
    assert_eq!(strip_bearer("Bear"), None);
}

#[test]
fn tampered_token_with_clock_is_invalid() {
    let cfg = config();
    let token = Claims::from_user(foobar(), &cfg).to_token(&cfg).unwrap();
    let mut tampered = token.clone();
    tampered.insert(10, 'x');
    let one = vec![bearer(&tampered)];
    assert_eq!(Claims::from_request(&one, Some(&cfg)).err(), Some(AuthTokenError::Invalid));
    let other = Config { secret: String::from("other"), expire_in: 100, validation_leeway: 60 };
    let signed_elsewhere = Claims::from_user(foobar(), &other).to_token(&other).unwrap();
    let one = vec![bearer(&signed_elsewhere)];
    assert_eq!(Claims::from_request(&one, Some(&cfg)).err(), Some(AuthTokenError::Invalid));
}

#[test]
fn equal_claims_give_equal_tokens() {
    let cfg = config();
    let a = Claims { sub: 3, username: String::from("x"), exp: 77 };
    let b = Claims { sub: 3, username: String::from("x"), exp: 77 };
    assert_eq!(a.to_token(&cfg).unwrap(), b.to_token(&cfg).unwrap());
}
