//! Signed, time-limited identity tokens (JWT, HS256) that bind a request to
//! one user.
use vstd::prelude::*;

use crate::errors::{BackendError, BackendResult};
use crate::models::users::{User, UserId};

verus! {

/// How tokens are signed and checked.
pub struct Config {
    /// The secret that signs tokens.
    pub secret: String,
    /// Seconds a token stays valid after it is issued.
    pub expire_in: i64,
    /// Seconds a token is still accepted after it expired.
    pub validation_leeway: u64,
}

impl Clone for Config {
    fn clone(&self) -> (r: Self)
        ensures
            r == *self,
    {
        Config { secret: self.secret.clone(), expire_in: self.expire_in, validation_leeway: self.validation_leeway }
    }
}

/// What a token carries: the user's id, the username and the expiry time
/// (seconds since the Unix epoch).
#[derive(Debug)]
pub struct Claims {
    pub sub: UserId,
    pub username: String,
    pub exp: i64,
}

/// Why a request carries no usable identity.
#[derive(Debug, PartialEq, Eq, Structural)]
pub enum AuthTokenError {
    /// More than one credential.
    BadCount,
    /// The signing configuration is not available.
    Internal,
    /// A token that fails verification or has expired.
    Invalid,
    /// No credential, or one without the bearer scheme.
    Missing,
}

impl AuthTokenError {
    /// The HTTP status code that reports this error: 401 for a token that
    /// fails verification, 400 for the rest.
    pub fn status(&self) -> (r: u16)
        ensures
            r == (if *self == AuthTokenError::Invalid {
                401u16
            } else {
                400u16
            }),
    {
        match self {
            AuthTokenError::Invalid => 401,
            _ => 400,
        }
    }
}

/// The characters of an optional text.
pub open spec fn text_view(t: Option<String>) -> Option<Seq<char>> {
    match t {
        Some(s) => Some(s@),
        None => None,
    }
}

/// The token that `jsonwebtoken::encode` makes of the claims `sub`,
/// `username` and `exp` under `secret`.
pub uninterp spec fn jwt_encoded(sub: i32, username: Seq<char>, exp: i64, secret: Seq<char>) -> Seq<char>;

/// What `jsonwebtoken::decode` reads from `token` under `secret`, without
/// checking the expiry: `None` where the token is malformed or its signature
/// does not match, else the `sub`, `username` and `exp` claims where present
/// with the right JSON type.
pub uninterp spec fn jwt_decoded(token: Seq<char>, secret: Seq<char>) -> Option<
    (Option<i64>, Option<Seq<char>>, Option<i64>),
>;

/// Relies on `jsonwebtoken::encode` (HS256, default header) over a JSON object
/// with the three claims: signing is deterministic, so the token is a
/// function of the claims and the secret; with an HMAC key built from the
/// secret, serialising a map and signing cannot fail.
#[verifier::external_body]
fn encode_token(sub: i32, username: &str, exp: i64, secret: &str) -> (r: Result<String, jsonwebtoken::errors::Error>)
    ensures
        r is Ok,
        r matches Ok(t) ==> t@ == jwt_encoded(sub, username@, exp, secret@),
{
    let mut claims = serde_json::Map::new();
    claims.insert(String::from("sub"), serde_json::Value::from(sub));
    claims.insert(String::from("username"), serde_json::Value::from(username));
    claims.insert(String::from("exp"), serde_json::Value::from(exp));
    let key = jsonwebtoken::EncodingKey::from_secret(secret.as_bytes());
    jsonwebtoken::encode(&jsonwebtoken::Header::default(), &claims, &key)
}

/// Relies on `jsonwebtoken::decode` (HS256 only, expiry not checked), which
/// checks the signature and parses the claims object, and on `serde_json`'s
/// `as_i64` / `as_str` to read the three claims. A token that `encode` made
/// under the same secret reads back as the claims it was made of.
#[verifier::external_body]
fn decode_token(token: &str, secret: &str) -> (r: Result<(Option<i64>, Option<String>, Option<i64>), jsonwebtoken::errors::Error>)
    ensures
        r is Ok ==> jwt_decoded(token@, secret@) == Some((r->Ok_0.0, text_view(r->Ok_0.1), r->Ok_0.2)),
        r is Err ==> jwt_decoded(token@, secret@) is None,
        forall|sub: i32, username: Seq<char>, exp: i64|
            #[trigger] jwt_encoded(sub, username, exp, secret@) == token@ ==> r is Ok && r->Ok_0.0 == Some(
                sub as i64,
            ) && text_view(r->Ok_0.1) == Some(username) && r->Ok_0.2 == Some(exp),
{
    let mut validation = jsonwebtoken::Validation::new(jsonwebtoken::Algorithm::HS256);
    validation.validate_exp = false;
    let key = jsonwebtoken::DecodingKey::from_secret(secret.as_bytes());
    let data = jsonwebtoken::decode::<serde_json::Map<String, serde_json::Value>>(token, &key, &validation)?;
    let claims = data.claims;
    Ok((
        claims.get("sub").and_then(serde_json::Value::as_i64),
        claims.get("username").and_then(serde_json::Value::as_str).map(String::from),
        claims.get("exp").and_then(serde_json::Value::as_i64),
    ))
}

/// Relies on `chrono::Utc::now`: the current time in seconds since the Unix
/// epoch. Nothing is known of its value.
#[verifier::external_body]
pub(crate) fn current_timestamp() -> (r: i64) {
    chrono::Utc::now().timestamp()
}

/// The claims that decoded fields describe: all three present and the id
/// within range.
pub open spec fn claims_of_fields(d: (Option<i64>, Option<Seq<char>>, Option<i64>)) -> Option<(i32, Seq<char>, i64)> {
    match d {
        (Some(sub), Some(username), Some(exp)) => if i32::MIN <= sub <= i32::MAX {
            Some((sub as i32, username, exp))
        } else {
            None
        },
        _ => None,
    }
}

/// The claims a verification returned, if any.
pub open spec fn claims_of_result(r: BackendResult<Claims>) -> Option<(i32, Seq<char>, i64)> {
    match r {
        Ok(c) => Some((c.sub, c.username@, c.exp)),
        Err(_) => None,
    }
}

/// A request binding's result as plain values.
pub open spec fn binding_of(r: Result<Claims, AuthTokenError>) -> Result<(i32, Seq<char>, i64), AuthTokenError> {
    match r {
        Ok(c) => Ok((c.sub, c.username@, c.exp)),
        Err(e) => Err(e),
    }
}

/// Whether a token that expires at `exp` is still accepted at `now`.
pub open spec fn unexpired(exp: i64, leeway: u64, now: i64) -> bool {
    now <= exp + leeway
}

/// The expiry of a token issued at `now` for `ttl` seconds, held within the
/// range of `i64`.
pub open spec fn expiry_at(now: i64, ttl: i64) -> i64 {
    if now + ttl > i64::MAX {
        i64::MAX
    } else if now + ttl < i64::MIN {
        i64::MIN
    } else {
        (now + ttl) as i64
    }
}

/// What checking a token at time `now` yields, given what decoding it read.
pub open spec fn check_outcome(d: Option<(Option<i64>, Option<Seq<char>>, Option<i64>)>, leeway: u64, now: i64) -> Option<(i32, Seq<char>, i64)> {
    match d {
        None => None,
        Some(fields) => match claims_of_fields(fields) {
            None => None,
            Some((sub, username, exp)) => if unexpired(exp, leeway, now) {
                Some((sub, username, exp))
            } else {
                None
            },
        },
    }
}

impl Claims {
    /// The id of the user the token was issued to.
    pub fn id(&self) -> (r: UserId)
        ensures
            r == self.sub,
    {
        self.sub
    }

    /// The claims of a token issued to `user` at time `now`.
    pub fn from_user_at(user: User, cfg: &Config, now: i64) -> (r: Claims)
        ensures
            r.sub == user.id,
            r.username == user.username,
            r.exp == expiry_at(now, cfg.expire_in),
    {
        let exp = match now.checked_add(cfg.expire_in) {
            Some(e) => e,
            None => if cfg.expire_in > 0 {
                i64::MAX
            } else {
                i64::MIN
            },
        };
        Claims { sub: user.id, username: user.username, exp }
    }

    /// The claims of a token issued to `user` now.
    pub fn from_user(user: User, cfg: &Config) -> (r: Claims)
        ensures
            r.sub == user.id,
            r.username == user.username,
    {
        let now = current_timestamp();
        Self::from_user_at(user, cfg, now)
    }

    /// Accepts decoded fields at time `now`: all three claims present, the
    /// id within range, and `now` no later than the expiry plus the leeway.
    /// Anything else is `InvalidToken`.
    pub fn from_fields(fields: (Option<i64>, Option<String>, Option<i64>), leeway: u64, now: i64) -> (r: BackendResult<Claims>)
        ensures
            match check_outcome(
                Some((fields.0, text_view(fields.1), fields.2)),
                leeway,
                now,
            ) {
                Some((sub, username, exp)) => r matches Ok(c) && c.sub == sub && c.username@ == username
                    && c.exp == exp,
                None => r == Err::<Claims, BackendError>(BackendError::InvalidToken),
            },
    {
        match fields {
            (Some(sub), Some(username), Some(exp)) => {
                if sub < i32::MIN as i64 || sub > i32::MAX as i64 {
                    return Err(BackendError::InvalidToken);
                }
                if (now as i128) > (exp as i128) + (leeway as i128) {
                    return Err(BackendError::InvalidToken);
                }
                Ok(Claims { sub: sub as i32, username, exp })
            },
            _ => Err(BackendError::InvalidToken),
        }
    }

    /// Verifies `token` against `cfg` at time `now` and returns its claims.
    /// A token that does not decode under the secret is `JwtError`; one whose
    /// claims are incomplete or that expired more than the leeway before
    /// `now` is `InvalidToken`. A token that `to_token` made under the same
    /// secret gives back its claims while unexpired, and only then.
    pub fn from_token_at(token: &str, cfg: &Config, now: i64) -> (r: BackendResult<Claims>)
        ensures
            jwt_decoded(token@, cfg.secret@) is None ==> r matches Err(BackendError::JwtError(_)),
            jwt_decoded(token@, cfg.secret@) is Some ==> match check_outcome(
                jwt_decoded(token@, cfg.secret@),
                cfg.validation_leeway,
                now,
            ) {
                Some((sub, username, exp)) => r matches Ok(c) && c.sub == sub && c.username@ == username
                    && c.exp == exp,
                None => r == Err::<Claims, BackendError>(BackendError::InvalidToken),
            },
            forall|sub: i32, username: Seq<char>, exp: i64|
                #[trigger] jwt_encoded(sub, username, exp, cfg.secret@) == token@ ==> (r is Ok
                    <==> unexpired(exp, cfg.validation_leeway, now)) && (r matches Ok(c) ==> c.sub == sub
                    && c.username@ == username && c.exp == exp),
    {
        match decode_token(token, cfg.secret.as_str()) {
            Ok(fields) => Self::from_fields(fields, cfg.validation_leeway, now),
            Err(e) => Err(BackendError::JwtError(e)),
        }
    }

    /// Verifies `token` against `cfg` at the current time and returns its
    /// claims. Whatever the time, a token that does not decode is `JwtError`,
    /// one whose claims are incomplete `InvalidToken`, and claims that come
    /// back are those the token carries. The outcome is the one
    /// `from_token_at` gives at some time.
    pub fn from_token(token: &str, cfg: &Config) -> (r: BackendResult<Claims>)
        ensures
            jwt_decoded(token@, cfg.secret@) is None ==> r matches Err(BackendError::JwtError(_)),
            jwt_decoded(token@, cfg.secret@) matches Some(d) && claims_of_fields(d) is None ==> r
                == Err::<Claims, BackendError>(BackendError::InvalidToken),
            jwt_decoded(token@, cfg.secret@) is Some ==> exists|now: i64|
                #[trigger] check_outcome(jwt_decoded(token@, cfg.secret@), cfg.validation_leeway, now)
                    == claims_of_result(r),
            jwt_decoded(token@, cfg.secret@) is Some ==> (r is Ok || r == Err::<Claims, BackendError>(
                BackendError::InvalidToken,
            )),
            r matches Ok(c) ==> jwt_decoded(token@, cfg.secret@) matches Some(d) && claims_of_fields(d)
                == Some((c.sub, c.username@, c.exp)),
            forall|sub: i32, username: Seq<char>, exp: i64|
                #[trigger] jwt_encoded(sub, username, exp, cfg.secret@) == token@ ==> (r matches Ok(c)
                    ==> c.sub == sub && c.username@ == username && c.exp == exp),
    {
        let now = current_timestamp();
        Self::from_token_at(token, cfg, now)
    }

    /// Signs these claims with `cfg`'s secret. This never fails.
    pub fn to_token(&self, cfg: &Config) -> (r: BackendResult<String>)
        ensures
            r matches Ok(t) && t@ == jwt_encoded(self.sub, self.username@, self.exp, cfg.secret@),
    {
        match encode_token(self.sub, self.username.as_str(), self.exp, cfg.secret.as_str()) {
            Ok(t) => Ok(t),
            Err(e) => Err(BackendError::JwtError(e)),
        }
    }
}


/// The configuration, where there is one.
pub open spec fn config_of(cfg: Option<&Config>) -> Option<Config> {
    match cfg {
        Some(c) => Some(*c),
        None => None,
    }
}

/// The scheme that must open a credential: `Bearer` and one space.
pub open spec fn bearer_prefix() -> Seq<char> {
    seq!['B', 'e', 'a', 'r', 'e', 'r', ' ']
}

/// Whether a credential opens with the bearer scheme.
pub open spec fn has_bearer(h: Seq<char>) -> bool {
    h.len() >= 7 && h.subrange(0, 7) == bearer_prefix()
}

/// What binding a request with these credential headers yields at `now`.
pub open spec fn request_outcome(headers: Seq<String>, cfg: Option<Config>, now: i64) -> Result<
    (i32, Seq<char>, i64),
    AuthTokenError,
> {
    match cfg {
        None => Err(AuthTokenError::Internal),
        Some(c) => if headers.len() == 0 {
            Err(AuthTokenError::Missing)
        } else if headers.len() > 1 {
            Err(AuthTokenError::BadCount)
        } else if !has_bearer(headers[0]@) {
            Err(AuthTokenError::Missing)
        } else {
            match check_outcome(
                jwt_decoded(headers[0]@.subrange(7, headers[0]@.len() as int), c.secret@),
                c.validation_leeway,
                now,
            ) {
                Some(claims) => Ok(claims),
                None => Err(AuthTokenError::Invalid),
            }
        },
    }
}

/// The token after the bearer scheme, where the credential has it.
pub fn strip_bearer(h: &str) -> (r: Option<&str>)
    ensures
        has_bearer(h@) <==> r is Some,
        r matches Some(t) ==> t@ == h@.subrange(7, h@.len() as int),
{
    let n = h.unicode_len();
    if n < 7 {
        return None;
    }
    let ok = h.get_char(0) == 'B' && h.get_char(1) == 'e' && h.get_char(2) == 'a' && h.get_char(3) == 'r'
        && h.get_char(4) == 'e' && h.get_char(5) == 'r' && h.get_char(6) == ' ';
    if !ok {
        assert(h@.subrange(0, 7) != bearer_prefix()) by {
            if h@.subrange(0, 7) == bearer_prefix() {
                assert(h@[0] == h@.subrange(0, 7)[0]);
                assert(h@[1] == h@.subrange(0, 7)[1]);
                assert(h@[2] == h@.subrange(0, 7)[2]);
                assert(h@[3] == h@.subrange(0, 7)[3]);
                assert(h@[4] == h@.subrange(0, 7)[4]);
                assert(h@[5] == h@.subrange(0, 7)[5]);
                assert(h@[6] == h@.subrange(0, 7)[6]);
            }
        }
        return None;
    }
    assert(h@.subrange(0, 7) =~= bearer_prefix());
    Some(h.substring_char(7, n))
}

impl Claims {
    /// Binds a request to a user at time `now`, from its credential headers:
    /// no signing configuration is `Internal`; no credential, or one without
    /// the bearer scheme, `Missing`; more than one `BadCount`; a token that
    /// fails verification `Invalid`.
    pub fn from_request_at(headers: &[String], cfg: Option<&Config>, now: i64) -> (r: Result<Claims, AuthTokenError>)
        ensures
            match request_outcome(
                headers@,
                config_of(cfg),
                now,
            ) {
                Ok((sub, username, exp)) => r matches Ok(c) && c.sub == sub && c.username@ == username
                    && c.exp == exp,
                Err(e) => r == Err::<Claims, AuthTokenError>(e),
            },
    {
        let cfg = match cfg {
            Some(c) => c,
            None => {
                return Err(AuthTokenError::Internal);
            },
        };
        if headers.len() == 0 {
            return Err(AuthTokenError::Missing);
        }
        if headers.len() > 1 {
            return Err(AuthTokenError::BadCount);
        }
        let token = match strip_bearer(headers[0].as_str()) {
            Some(t) => t,
            None => {
                return Err(AuthTokenError::Missing);
            },
        };
        match Self::from_token_at(token, cfg, now) {
            Ok(claims) => Ok(claims),
            Err(_) => Err(AuthTokenError::Invalid),
        }
    }

    /// Binds a request to a user at the current time, from its credential
    /// headers: the outcome is the one `from_request_at` gives at some time.
    /// Only the expiry depends on the time: a single bearer credential whose
    /// token does not verify under the secret, or lacks a claim, is `Invalid`
    /// whenever it is checked.
    pub fn from_request(headers: &[String], cfg: Option<&Config>) -> (r: Result<Claims, AuthTokenError>)
        ensures
            cfg is None ==> r == Err::<Claims, AuthTokenError>(AuthTokenError::Internal),
            cfg is Some && headers@.len() == 0 ==> r == Err::<Claims, AuthTokenError>(AuthTokenError::Missing),
            cfg is Some && headers@.len() > 1 ==> r == Err::<Claims, AuthTokenError>(AuthTokenError::BadCount),
            cfg is Some && headers@.len() == 1 && !has_bearer(headers@[0]@) ==> r == Err::<
                Claims,
                AuthTokenError,
            >(AuthTokenError::Missing),
            cfg is Some && headers@.len() == 1 && has_bearer(headers@[0]@) ==> (r is Ok || r == Err::<
                Claims,
                AuthTokenError,
            >(AuthTokenError::Invalid)),
            cfg is Some && headers@.len() == 1 && has_bearer(headers@[0]@) && !(jwt_decoded(
                headers@[0]@.subrange(7, headers@[0]@.len() as int),
                cfg->Some_0.secret@,
            ) matches Some(d) && claims_of_fields(d) is Some) ==> r == Err::<Claims, AuthTokenError>(
                AuthTokenError::Invalid,
            ),
            exists|now: i64| #[trigger] request_outcome(headers@, config_of(cfg), now) == binding_of(r),
    {
        let now = current_timestamp();
        Self::from_request_at(headers, cfg, now)
    }
}

} // verus!
