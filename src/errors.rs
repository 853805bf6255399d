use vstd::prelude::*;

verus! {

#[verifier::external_type_specification]
#[verifier::external_body]
pub struct ExBcryptError(bcrypt::BcryptError);

#[verifier::external_type_specification]
#[verifier::external_body]
pub struct ExJwtError(jsonwebtoken::errors::Error);

/// The failures that the library reports.
#[derive(Debug)]
pub enum BackendError {
    /// The password hashing primitive failed.
    Bcrypt(bcrypt::BcryptError),
    /// Signing a token failed.
    JwtError(jsonwebtoken::errors::Error),
    /// A token whose claims are incomplete or that has expired.
    InvalidToken,
    /// The store has no identifier left for a new row.
    StorageFull,
    InvalidCredentials,
    InvalidValue,
    NotFound,
    Conflict,
}

pub type BackendResult<T> = Result<T, BackendError>;

impl BackendError {
    /// The HTTP status code that reports this error.
    pub fn status(&self) -> (r: u16)
        ensures
            r == match self {
                BackendError::InvalidCredentials => 401u16,
                BackendError::InvalidValue => 422u16,
                BackendError::NotFound => 404u16,
                BackendError::Conflict => 409u16,
                _ => 500u16,
            },
    {
        match self {
            BackendError::InvalidCredentials => 401,
            BackendError::InvalidValue => 422,
            BackendError::NotFound => 404,
            BackendError::Conflict => 409,
            _ => 500,
        }
    }
}


/// Relies on the `Display` impl of `bcrypt::BcryptError`: its text.
#[verifier::external_body]
fn bcrypt_error_text(e: &bcrypt::BcryptError) -> (r: String) {
    e.to_string()
}

/// Relies on the `Display` impl of `jsonwebtoken::errors::Error`: its text.
#[verifier::external_body]
fn jwt_error_text(e: &jsonwebtoken::errors::Error) -> (r: String) {
    e.to_string()
}

/// The text that `std`'s default `description` gives for an error that
/// does not override it.
pub open spec fn deprecated_description() -> Seq<char> {
    "description() is deprecated; use Display"@
}

impl BackendError {
    /// A human-readable message: a fixed text for the library's own
    /// failures, the wrapped error's text after a prefix for the others.
    pub fn message(&self) -> (r: String)
        ensures
            *self == BackendError::InvalidCredentials ==> r@ == "Invalid credentials"@,
            *self == BackendError::InvalidValue ==> r@ == "Invalid value"@,
            *self == BackendError::NotFound ==> r@ == "Entity not found"@,
            *self == BackendError::Conflict ==> r@ == "Conflict"@,
            *self == BackendError::InvalidToken ==> r@ == "Invalid token"@,
            *self == BackendError::StorageFull ==> r@ == "Storage full"@,
            *self is Bcrypt ==> "Bcrypt error: "@.is_prefix_of(r@),
            *self is JwtError ==> "JWT error: "@.is_prefix_of(r@),
    {
        match self {
            BackendError::Bcrypt(e) => {
                let mut m = "Bcrypt error: ".to_string();
                let t = bcrypt_error_text(e);
                m.append(t.as_str());
                m
            },
            BackendError::JwtError(e) => {
                let mut m = "JWT error: ".to_string();
                let t = jwt_error_text(e);
                m.append(t.as_str());
                m
            },
            BackendError::InvalidCredentials => "Invalid credentials".to_string(),
            BackendError::InvalidValue => "Invalid value".to_string(),
            BackendError::NotFound => "Entity not found".to_string(),
            BackendError::Conflict => "Conflict".to_string(),
            BackendError::InvalidToken => "Invalid token".to_string(),
            BackendError::StorageFull => "Storage full".to_string(),
        }
    }

    /// A short description: the fixed text of the library's own failures;
    /// for a wrapped error, the text that the wrapped type's `description`
    /// gives, as neither overrides the default.
    pub fn description(&self) -> (r: &'static str)
        ensures
            *self == BackendError::InvalidCredentials ==> r@ == "Invalid credentials"@,
            *self == BackendError::InvalidValue ==> r@ == "Invalid value"@,
            *self == BackendError::NotFound ==> r@ == "Entity not found"@,
            *self == BackendError::Conflict ==> r@ == "Conflict"@,
            *self == BackendError::InvalidToken ==> r@ == "Invalid token"@,
            *self == BackendError::StorageFull ==> r@ == "Storage full"@,
            (*self is Bcrypt || *self is JwtError) ==> r@ == deprecated_description(),
    {
        match self {
            BackendError::Bcrypt(_) => "description() is deprecated; use Display",
            BackendError::JwtError(_) => "description() is deprecated; use Display",
            BackendError::InvalidCredentials => "Invalid credentials",
            BackendError::InvalidValue => "Invalid value",
            BackendError::NotFound => "Entity not found",
            BackendError::Conflict => "Conflict",
            BackendError::InvalidToken => "Invalid token",
            BackendError::StorageFull => "Storage full",
        }
    }
}

} // verus!
