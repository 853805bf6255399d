use vstd::prelude::*;

use crate::database::Database;
use crate::errors::{BackendError, BackendResult};

verus! {

pub type UserId = i32;

/// The data needed to store a new user.
pub struct NewUser {
    pub username: String,
    pub password_hash: String,
}

/// A stored user: id and username are unique, the hash is opaque.
#[derive(Debug)]
pub struct User {
    pub id: UserId,
    pub username: String,
    pub password_hash: String,
}

impl Clone for User {
    fn clone(&self) -> (r: Self)
        ensures
            r == *self,
    {
        User { id: self.id, username: self.username.clone(), password_hash: self.password_hash.clone() }
    }
}

/// Index of the first user with the given id, scanning from `k`.
pub open spec fn user_index_from(users: Seq<User>, id: UserId, k: int) -> Option<int>
    decreases users.len() - k,
{
    if k < 0 || k >= users.len() {
        None
    } else if users[k].id == id {
        Some(k)
    } else {
        user_index_from(users, id, k + 1)
    }
}

/// Index of the first user with the given name, scanning from `k`.
pub open spec fn username_index_from(users: Seq<User>, name: Seq<char>, k: int) -> Option<int>
    decreases users.len() - k,
{
    if k < 0 || k >= users.len() {
        None
    } else if users[k].username@ == name {
        Some(k)
    } else {
        username_index_from(users, name, k + 1)
    }
}

/// The user with the given id.
pub open spec fn user_with_id(users: Seq<User>, id: UserId) -> Option<User> {
    match user_index_from(users, id, 0) {
        Some(i) => Some(users[i]),
        None => None,
    }
}

/// The user with the given name.
pub open spec fn user_named(users: Seq<User>, name: Seq<char>) -> Option<User> {
    match username_index_from(users, name, 0) {
        Some(i) => Some(users[i]),
        None => None,
    }
}

pub proof fn lemma_user_index_from_is_match(users: Seq<User>, id: UserId, k: int)
    requires
        k >= 0,
    ensures
        user_index_from(users, id, k) matches Some(i) ==> k <= i < users.len() && users[i].id == id,
        user_index_from(users, id, k) is None ==> forall|j: int|
            k <= j < users.len() ==> #[trigger] users[j].id != id,
    decreases users.len() - k,
{
    if 0 <= k < users.len() && users[k].id != id {
        lemma_user_index_from_is_match(users, id, k + 1);
    }
}

pub proof fn lemma_username_index_from_is_match(users: Seq<User>, name: Seq<char>, k: int)
    requires
        k >= 0,
    ensures
        username_index_from(users, name, k) matches Some(i) ==> k <= i < users.len()
            && users[i].username@ == name,
        username_index_from(users, name, k) is None ==> forall|j: int|
            k <= j < users.len() ==> #[trigger] users[j].username@ != name,
    decreases users.len() - k,
{
    if 0 <= k < users.len() && users[k].username@ != name {
        lemma_username_index_from_is_match(users, name, k + 1);
    }
}

/// Position of the user with the given id.
pub fn find_user_by_id(users: &Vec<User>, id: UserId) -> (r: Option<usize>)
    ensures
        match r {
            Some(i) => i < users.len() && user_index_from(users@, id, 0) == Some(i as int),
            None => user_index_from(users@, id, 0) is None,
        },
{
    let mut i: usize = 0;
    while i < users.len()
        invariant
            i <= users.len(),
            user_index_from(users@, id, 0) == user_index_from(users@, id, i as int),
        decreases users.len() - i,
    {
        if users[i].id == id {
            return Some(i);
        }
        i = i + 1;
    }
    None
}

/// Position of the user with the given name.
pub fn find_user_by_name(users: &Vec<User>, name: &str) -> (r: Option<usize>)
    ensures
        match r {
            Some(i) => i < users.len() && username_index_from(users@, name@, 0) == Some(i as int),
            None => username_index_from(users@, name@, 0) is None,
        },
{
    let mut i: usize = 0;
    while i < users.len()
        invariant
            i <= users.len(),
            username_index_from(users@, name@, 0) == username_index_from(users@, name@, i as int),
        decreases users.len() - i,
    {
        if str_eq(users[i].username.as_str(), name) {
            return Some(i);
        }
        i = i + 1;
    }
    None
}

/// Whether two strings hold the same characters.
pub fn str_eq(a: &str, b: &str) -> (r: bool)
    ensures
        r == (a@ == b@),
{
    let n = a.unicode_len();
    if n != b.unicode_len() {
        return false;
    }
    let mut i: usize = 0;
    while i < n
        invariant
            n == a@.len(),
            n == b@.len(),
            i <= n,
            forall|j: int| 0 <= j < i ==> a@[j] == b@[j],
        decreases n - i,
    {
        if a.get_char(i) != b.get_char(i) {
            return false;
        }
        i = i + 1;
    }
    assert(a@ =~= b@);
    true
}

impl User {
    /// Loads the user with the given id; `NotFound` where there is none.
    pub fn load_by_id(db: &Database, id: UserId) -> (r: BackendResult<User>)
        ensures
            match user_with_id(db.users@, id) {
                Some(u) => r == Ok::<User, BackendError>(u),
                None => r == Err::<User, BackendError>(BackendError::NotFound),
            },
    {
        match find_user_by_id(&db.users, id) {
            Some(i) => Ok(db.users[i].clone()),
            None => Err(BackendError::NotFound),
        }
    }

    /// Loads the user with the given username; `NotFound` where there is none.
    pub fn load_by_username(db: &Database, username: &str) -> (r: BackendResult<User>)
        ensures
            match user_named(db.users@, username@) {
                Some(u) => r == Ok::<User, BackendError>(u),
                None => r == Err::<User, BackendError>(BackendError::NotFound),
            },
    {
        match find_user_by_name(&db.users, username) {
            Some(i) => Ok(db.users[i].clone()),
            None => Err(BackendError::NotFound),
        }
    }
}

} // verus!

verus! {

/// Ids unique, positive and below the counter; usernames unique.
pub open spec fn users_wf(users: Seq<User>, next: i32) -> bool {
    &&& next >= 1
    &&& forall|i: int| 0 <= i < users.len() ==> 1 <= #[trigger] users[i].id < next
    &&& forall|i: int, j: int|
        0 <= i < users.len() && 0 <= j < users.len() && i != j ==> #[trigger] users[i].id
            != #[trigger] users[j].id
    &&& forall|i: int, j: int|
        0 <= i < users.len() && 0 <= j < users.len() && i != j ==> #[trigger] users[i].username@
            != #[trigger] users[j].username@
}

} // verus!
