//! Password hashing, through the bcrypt crate.
use vstd::prelude::*;

verus! {

/// The work factor that user creation hashes with (bcrypt's default).
pub const DEFAULT_COST: u32 = 12;

/// What `bcrypt::verify` answers for a password and a stored hash: `None`
/// where it fails (a malformed hash), else whether the password matches.
pub uninterp spec fn bcrypt_verdict(password: Seq<char>, hash: Seq<char>) -> Option<bool>;

/// Relies on `bcrypt::hash`: it draws a random salt, so nothing fixes the
/// result, but a hash it returns is one that `bcrypt::verify` accepts for the
/// same password (verify recomputes the hash with the salt and cost read back
/// from it).
#[verifier::external_body]
pub(crate) fn hash_password(password: &str, cost: u32) -> (r: Result<String, bcrypt::BcryptError>)
    ensures
        r matches Ok(h) ==> bcrypt_verdict(password@, h@) == Some(true),
{
    bcrypt::hash(password, cost)
}

/// Relies on `bcrypt::verify`: whether `password` matches `hash`, a function
/// of the two alone.
#[verifier::external_body]
pub(crate) fn verify_password(password: &str, hash: &str) -> (r: Result<bool, bcrypt::BcryptError>)
    ensures
        match r {
            Ok(b) => bcrypt_verdict(password@, hash@) == Some(b),
            Err(_) => bcrypt_verdict(password@, hash@) is None,
        },
{
    bcrypt::verify(password, hash)
}

} // verus!
