//! Persistence and authorization core of a notebook service: users own a
//! forest of named nodes addressed by path, or a fixed notebook / section /
//! page hierarchy, and every request is bound to one user by a signed token.
pub mod api;
pub mod consistency;
pub mod database;
pub mod errors;
pub mod jwt;
pub mod models;
pub mod password;
pub mod user_management;

pub use crate::database::Database;
pub use crate::errors::{BackendError, BackendResult};
