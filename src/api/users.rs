use vstd::prelude::*;

use crate::database::Database;
use crate::errors::{BackendError, BackendResult};
use crate::jwt::{jwt_encoded, Claims, Config};
use crate::models::users::{user_named, user_with_id, User};
use crate::password::bcrypt_verdict;
use crate::user_management;

verus! {

/// A login attempt.
pub struct Credentials {
    pub username: String,
    pub password: String,
}

/// The token a successful login returns.
pub struct AuthResponse {
    pub token: String,
}

/// Logs a user in: where the username exists and the password matches,
/// returns a token for that user signed with `jwt_cfg`; where not,
/// `InvalidCredentials`.
pub fn auth(jwt_cfg: &Config, credentials: &Credentials, db: &Database) -> (r: BackendResult<AuthResponse>)
    ensures
        match user_named(db.users@, credentials.username@) {
            None => r == Err::<AuthResponse, BackendError>(BackendError::InvalidCredentials),
            Some(u) => match bcrypt_verdict(credentials.password@, u.password_hash@) {
                None => r matches Err(BackendError::Bcrypt(_)),
                Some(false) => r == Err::<AuthResponse, BackendError>(BackendError::InvalidCredentials),
                Some(true) => r matches Ok(a) && exists|exp: i64|
                    a.token@ == #[trigger] jwt_encoded(u.id, u.username@, exp, jwt_cfg.secret@),
            },
        },
{
    match user_management::check_user(db, credentials.username.as_str(), credentials.password.as_str())? {
        Some(user) => {
            let claims = Claims::from_user(user, jwt_cfg);
            let token = claims.to_token(jwt_cfg)?;
            Ok(AuthResponse { token })
        },
        None => Err(BackendError::InvalidCredentials),
    }
}

/// The caller's own user record.
pub fn profile(claims: &Claims, db: &Database) -> (r: BackendResult<User>)
    ensures
        match user_with_id(db.users@, claims.sub) {
            Some(u) => r == Ok::<User, BackendError>(u),
            None => r == Err::<User, BackendError>(BackendError::NotFound),
        },
{
    User::load_by_id(db, claims.id())
}

} // verus!
