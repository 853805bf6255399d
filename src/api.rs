//! The operations that requests map to: each takes the caller's verified
//! claims, so the user they act for comes from the token alone.
pub mod nodes;
pub mod notebooks;
pub mod users;
