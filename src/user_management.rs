//! Creating, deleting and checking users.
use vstd::prelude::*;

use crate::database::Database;
use crate::errors::{BackendError, BackendResult};
use crate::models::nodes::{nodes_wf, owner_known, owners_known, Node};
use crate::models::notebooks::{
    notebook_present, notebooks_owned, notebooks_wf, pages_linked, pages_wf, section_present, sections_linked,
    sections_wf, user_present, Notebook, Page, Section,
};
use crate::models::users::{
    find_user_by_id, lemma_user_index_from_is_match, lemma_username_index_from_is_match, user_index_from,
    user_named, user_with_id, users_wf, User, UserId,
};
use crate::password::{bcrypt_verdict, hash_password, verify_password, DEFAULT_COST};

verus! {

/// Only the user table and its counter differ between `a` and `b`.
pub open spec fn same_except_users(a: Database, b: Database) -> bool {
    &&& a.nodes == b.nodes
    &&& a.notebooks == b.notebooks
    &&& a.sections == b.sections
    &&& a.pages == b.pages
    &&& a.next_node_id == b.next_node_id
    &&& a.next_notebook_id == b.next_notebook_id
    &&& a.next_section_id == b.next_section_id
    &&& a.next_page_id == b.next_page_id
}

/// The nodes that `owner` does not own, in table order.
pub open spec fn nodes_not_of_owner(nodes: Seq<Node>, owner: UserId) -> Seq<Node>
    decreases nodes.len(),
{
    if nodes.len() == 0 {
        nodes
    } else if nodes.last().owner_id != owner {
        nodes_not_of_owner(nodes.drop_last(), owner).push(nodes.last())
    } else {
        nodes_not_of_owner(nodes.drop_last(), owner)
    }
}

/// Why storing a user named `username` is refused: the name is taken, or no
/// id is left.
pub open spec fn create_error(users: Seq<User>, next: i32, username: Seq<char>) -> Option<BackendError> {
    if user_named(users, username) is Some {
        Some(BackendError::Conflict)
    } else if next == i32::MAX {
        Some(BackendError::StorageFull)
    } else {
        None
    }
}

/// Stores a user with an already hashed password and returns it. A taken
/// username is `Conflict`.
pub fn create_with_hash(db: &mut Database, username: &str, password_hash: &str) -> (r: BackendResult<User>)
    requires
        old(db).wf(),
    ensures
        final(db).wf(),
        same_except_users(*final(db), *old(db)),
        match create_error(old(db).users@, old(db).next_user_id, username@) {
            Some(e) => r == Err::<User, BackendError>(e) && *final(db) == *old(db),
            None => r matches Ok(u) && u.id == old(db).next_user_id && u.username@ == username@
                && u.password_hash@ == password_hash@ && final(db).users@ == old(db).users@.push(u)
                && final(db).next_user_id == old(db).next_user_id + 1,
        },
{
    if crate::models::users::find_user_by_name(&db.users, username).is_some() {
        return Err(BackendError::Conflict);
    }
    if db.next_user_id == i32::MAX {
        return Err(BackendError::StorageFull);
    }
    let user = User { id: db.next_user_id, username: username.to_string(), password_hash: password_hash.to_string() };
    let ghost old_users = db.users@;
    proof {
        lemma_username_index_from_is_match(old_users, username@, 0);
    }
    db.users.push(user.clone());
    db.next_user_id = db.next_user_id + 1;
    proof {
        let users = db.users@;
        assert forall|k: int| 0 <= k < db.nodes@.len() implies owner_known(users, #[trigger] db.nodes@[k].owner_id) by {
            let j = choose|j: int| 0 <= j < old_users.len() && #[trigger] old_users[j].id == db.nodes@[k].owner_id;
            assert(users[j] == old_users[j]);
        }
        assert forall|k: int| 0 <= k < db.notebooks@.len() implies user_present(users, #[trigger] db.notebooks@[k].user_id) by {
            let j = choose|j: int| 0 <= j < old_users.len() && #[trigger] old_users[j].id == db.notebooks@[k].user_id;
            assert(users[j] == old_users[j]);
        }
        assert(users[old_users.len() as int] == user);
        assert forall|i: int, j: int|
            0 <= i < users.len() && 0 <= j < users.len() && i != j implies #[trigger] users[i].username@
                != #[trigger] users[j].username@ by {
            if i < old_users.len() {
                assert(users[i] == old_users[i]);
            }
            if j < old_users.len() {
                assert(users[j] == old_users[j]);
            }
        }
        assert forall|i: int, j: int|
            0 <= i < users.len() && 0 <= j < users.len() && i != j implies #[trigger] users[i].id
                != #[trigger] users[j].id by {
            if i < old_users.len() {
                assert(users[i] == old_users[i]);
            }
            if j < old_users.len() {
                assert(users[j] == old_users[j]);
            }
        }
    }
    Ok(user)
}

/// Creates a user whose password is hashed with work factor `cost`. A taken
/// username is `Conflict` (checked before hashing); a failed hash is
/// `Bcrypt` and stores nothing. The
/// stored hash is one that the password verifies against.
pub fn create_with_cost(db: &mut Database, username: &str, password: &str, cost: u32) -> (r: BackendResult<User>)
    requires
        old(db).wf(),
    ensures
        final(db).wf(),
        same_except_users(*final(db), *old(db)),
        r is Err ==> *final(db) == *old(db),
        r matches Ok(u) ==> u.username@ == username@ && bcrypt_verdict(password@, u.password_hash@) == Some(true)
            && u.id == old(db).next_user_id && final(db).users@ == old(db).users@.push(u),
        user_named(old(db).users@, username@) is Some ==> r == Err::<User, BackendError>(BackendError::Conflict),
        user_named(old(db).users@, username@) is None && old(db).next_user_id < i32::MAX ==> (r is Ok
            || r matches Err(BackendError::Bcrypt(_))),
{
    if crate::models::users::find_user_by_name(&db.users, username).is_some() {
        return Err(BackendError::Conflict);
    }
    let hash = match hash_password(password, cost) {
        Ok(h) => h,
        Err(e) => {
            return Err(BackendError::Bcrypt(e));
        },
    };
    create_with_hash(db, username, hash.as_str())
}

/// Creates a user with the given username and password, hashed with the
/// default work factor.
pub fn create(db: &mut Database, username: &str, password: &str) -> (r: BackendResult<User>)
    requires
        old(db).wf(),
    ensures
        final(db).wf(),
        same_except_users(*final(db), *old(db)),
        r is Err ==> *final(db) == *old(db),
        r matches Ok(u) ==> u.username@ == username@ && bcrypt_verdict(password@, u.password_hash@) == Some(true)
            && u.id == old(db).next_user_id && final(db).users@ == old(db).users@.push(u),
        user_named(old(db).users@, username@) is Some ==> r == Err::<User, BackendError>(BackendError::Conflict),
        user_named(old(db).users@, username@) is None && old(db).next_user_id < i32::MAX ==> (r is Ok
            || r matches Err(BackendError::Bcrypt(_))),
{
    create_with_cost(db, username, password, DEFAULT_COST)
}

/// Replaces the stored hash of the user `user_id` and returns the user.
/// `NotFound` where there is no such user.
pub fn set_password_hash(db: &mut Database, user_id: UserId, password_hash: &str) -> (r: BackendResult<User>)
    requires
        old(db).wf(),
    ensures
        final(db).wf(),
        same_except_users(*final(db), *old(db)),
        final(db).next_user_id == old(db).next_user_id,
        match user_index_from(old(db).users@, user_id, 0) {
            None => r == Err::<User, BackendError>(BackendError::NotFound) && *final(db) == *old(db),
            Some(i) => r matches Ok(u) && u.id == user_id && u.username == old(db).users@[i].username
                && u.password_hash@ == password_hash@ && final(db).users@ == old(db).users@.update(i, u),
        },
{
    let i = match find_user_by_id(&db.users, user_id) {
        Some(i) => i,
        None => {
            return Err(BackendError::NotFound);
        },
    };
    proof {
        lemma_user_index_from_is_match(db.users@, user_id, 0);
    }
    let ghost old_users = db.users@;
    let user = User { id: db.users[i].id, username: db.users[i].username.clone(), password_hash: password_hash.to_string() };
    db.users.set(i, user.clone());
    proof {
        let users = db.users@;
        assert forall|k: int| 0 <= k < db.nodes@.len() implies owner_known(users, #[trigger] db.nodes@[k].owner_id) by {
            let j = choose|j: int| 0 <= j < old_users.len() && #[trigger] old_users[j].id == db.nodes@[k].owner_id;
            assert(users[j].id == old_users[j].id);
        }
        assert forall|k: int| 0 <= k < db.notebooks@.len() implies user_present(users, #[trigger] db.notebooks@[k].user_id) by {
            let j = choose|j: int| 0 <= j < old_users.len() && #[trigger] old_users[j].id == db.notebooks@[k].user_id;
            assert(users[j].id == old_users[j].id);
        }
        assert forall|a: int, b: int|
            0 <= a < users.len() && 0 <= b < users.len() && a != b implies #[trigger] users[a].username@
                != #[trigger] users[b].username@ by {
            assert(old_users[a].username@ != old_users[b].username@);
        }
        assert forall|a: int, b: int|
            0 <= a < users.len() && 0 <= b < users.len() && a != b implies #[trigger] users[a].id
                != #[trigger] users[b].id by {
            assert(old_users[a].id != old_users[b].id);
        }
    }
    Ok(user)
}

/// Changes the password of the user `user_id` and returns the user, with its
/// username kept. No such user is `NotFound` (checked before hashing); a
/// failed hash is `Bcrypt`; either way nothing changes.
pub fn change_password(db: &mut Database, user_id: UserId, new_password: &str) -> (r: BackendResult<User>)
    requires
        old(db).wf(),
    ensures
        final(db).wf(),
        same_except_users(*final(db), *old(db)),
        r is Err ==> *final(db) == *old(db),
        user_index_from(old(db).users@, user_id, 0) is None ==> r == Err::<User, BackendError>(
            BackendError::NotFound,
        ),
        user_index_from(old(db).users@, user_id, 0) is Some ==> (r is Ok || r matches Err(BackendError::Bcrypt(_))),
        r matches Ok(u) ==> u.id == user_id && u.username == old(db).users@[user_index_from(
            old(db).users@,
            user_id,
            0,
        )->Some_0].username && bcrypt_verdict(new_password@, u.password_hash@) == Some(true)
            && final(db).users@ == old(db).users@.update(user_index_from(old(db).users@, user_id, 0)->Some_0, u),
{
    if find_user_by_id(&db.users, user_id).is_none() {
        return Err(BackendError::NotFound);
    }
    let hash = match hash_password(new_password, DEFAULT_COST) {
        Ok(h) => h,
        Err(e) => {
            return Err(BackendError::Bcrypt(e));
        },
    };
    set_password_hash(db, user_id, hash.as_str())
}

/// Checks a username and password: `Ok(Some(user))` where the user exists
/// and the password matches its hash, `Ok(None)` where the user does not
/// exist or the password is wrong, `Bcrypt` where the stored hash cannot be
/// checked.
pub fn check_user(db: &Database, username: &str, password: &str) -> (r: BackendResult<Option<User>>)
    ensures
        match user_named(db.users@, username@) {
            None => r == Ok::<Option<User>, BackendError>(None),
            Some(u) => match bcrypt_verdict(password@, u.password_hash@) {
                None => r matches Err(BackendError::Bcrypt(_)),
                Some(true) => r == Ok::<Option<User>, BackendError>(Some(u)),
                Some(false) => r == Ok::<Option<User>, BackendError>(None),
            },
        },
{
    let user = match User::load_by_username(db, username) {
        Ok(user) => user,
        Err(_) => {
            return Ok(None);
        },
    };
    match verify_password(password, user.password_hash.as_str()) {
        Ok(true) => Ok(Some(user)),
        Ok(false) => Ok(None),
        Err(e) => Err(BackendError::Bcrypt(e)),
    }
}


/// The nodes that `owner` does not own, with the position of each in `nodes`.
fn nodes_kept(nodes: &Vec<Node>, owner: UserId, next: Ghost<i32>, users: Ghost<Seq<User>>) -> (r: Vec<Node>)
    requires
        nodes_wf(nodes@, next@),
        owners_known(users@, nodes@),
    ensures
        r@ == nodes_not_of_owner(nodes@, owner),
        nodes_wf(r@, next@),
        forall|a: int| 0 <= a < r@.len() ==> #[trigger] r@[a].owner_id != owner && owner_known(users@, r@[a].owner_id),
{
    let mut out: Vec<Node> = Vec::new();
    let ghost mut pos: Seq<int> = Seq::empty();
    let mut i: usize = 0;
    assert(nodes@.take(0) =~= Seq::<Node>::empty());
    while i < nodes.len()
        invariant
            i <= nodes@.len(),
            nodes_wf(nodes@, next@),
            out@ == nodes_not_of_owner(nodes@.take(i as int), owner),
            pos.len() == out@.len(),
            forall|a: int| 0 <= a < pos.len() ==> 0 <= #[trigger] pos[a] < i && out@[a] == nodes@[pos[a]],
            forall|a: int, b: int| 0 <= a < b < pos.len() ==> #[trigger] pos[a] < #[trigger] pos[b],
            forall|k: int| 0 <= k < i && #[trigger] nodes@[k].owner_id != owner ==> out@.contains(nodes@[k]),
            forall|a: int| 0 <= a < out@.len() ==> #[trigger] out@[a].owner_id != owner,
        decreases nodes.len() - i,
    {
        assert(nodes@.take(i + 1).drop_last() =~= nodes@.take(i as int));
        let ghost before = out@;
        if nodes[i].owner_id != owner {
            out.push(nodes[i].clone());
            proof {
                pos = pos.push(i as int);
                assert(out@[before.len() as int] == nodes@[i as int]);
                assert forall|k: int| 0 <= k < i && #[trigger] nodes@[k].owner_id != owner implies out@.contains(nodes@[k]) by {
                    let b = choose|b: int| 0 <= b < before.len() && before[b] == nodes@[k];
                    assert(out@[b] == before[b]);
                }
            }
        }
        i = i + 1;
    }
    assert(nodes@.take(nodes@.len() as int) =~= nodes@);
    proof {
        let o = out@;
        assert forall|a: int, b: int| 0 <= a < o.len() && 0 <= b < o.len() && a != b implies pos[a] != pos[b] by {
            if a < b {
                assert(pos[a] < pos[b]);
            } else {
                assert(pos[b] < pos[a]);
            }
        }
        assert forall|a: int| 0 <= a < o.len() implies 1 <= #[trigger] o[a].node_id < next@ by {
            assert(o[a] == nodes@[pos[a]]);
        }
        assert forall|a: int, b: int| 0 <= a < o.len() && 0 <= b < o.len() && a != b implies #[trigger] o[a].node_id
            != #[trigger] o[b].node_id by {
            assert(o[a] == nodes@[pos[a]] && o[b] == nodes@[pos[b]] && pos[a] != pos[b]);
        }
        assert forall|a: int, b: int|
            0 <= a < o.len() && 0 <= b < o.len() && a != b && #[trigger] o[a].owner_id == #[trigger] o[b].owner_id
                && o[a].parent_id == o[b].parent_id implies o[a].node_name@ != o[b].node_name@ by {
            assert(o[a] == nodes@[pos[a]] && o[b] == nodes@[pos[b]] && pos[a] != pos[b]);
        }
        assert forall|a: int| 0 <= a < o.len() implies #[trigger] o[a].owner_id != owner && owner_known(users@, o[a].owner_id) by {
            assert(o[a] == nodes@[pos[a]]);
        }
        assert forall|a: int| 0 <= a < o.len() implies (#[trigger] o[a].is_directory <==> o[a].content is None) by {
            assert(o[a] == nodes@[pos[a]]);
        }
        assert forall|a: int| 0 <= a < o.len() implies crate::models::nodes::node_rooted(o, #[trigger] o[a].node_id) by {
            let y = o[a].node_id;
            assert(o[a] == nodes@[pos[a]]);
            assert(crate::models::nodes::node_rooted(nodes@, nodes@[pos[a]].node_id));
            let f = choose|f: nat| #[trigger] crate::models::nodes::rooted(nodes@, Some(y), f);
            crate::models::nodes::lemma_row_from(nodes@, y, 0);
            assert(crate::models::nodes::row_of(nodes@, y) == Some(pos[a]));
            crate::models::nodes::lemma_rooted_without_owner(nodes@, next@, o, owner, Some(y), f);
        }
        assert forall|a: int| 0 <= a < o.len() implies crate::models::nodes::parent_present(o, #[trigger] o[a]) by {
            let n = o[a];
            assert(n == nodes@[pos[a]]);
            assert(crate::models::nodes::parent_present(nodes@, nodes@[pos[a]]));
            if let Some(p) = n.parent_id {
                let j = choose|j: int|
                    0 <= j < nodes@.len() && #[trigger] nodes@[j].node_id == p && nodes@[j].is_directory
                        && nodes@[j].owner_id == n.owner_id;
                assert(nodes@[j].owner_id != owner);
                assert(o.contains(nodes@[j]));
                let b = choose|b: int| 0 <= b < o.len() && o[b] == nodes@[j];
                assert(o[b].node_id == p);
            }
        }
        assert forall|a: int| 0 <= a < o.len() implies #[trigger] o[a].parent_is_directory == crate::models::nodes::parent_flag(o[a].parent_id) by {
            assert(o[a] == nodes@[pos[a]]);
        }
    }
    out
}


/// Whether section `s` belongs to a notebook of `user`.
pub open spec fn section_of_user(nbs: Seq<Notebook>, user: UserId, s: Section) -> bool {
    exists|j: int| 0 <= j < nbs.len() && #[trigger] nbs[j].notebook_id == s.notebook_id && nbs[j].user_id == user
}

/// Whether page `p` belongs to a section of a notebook of `user`.
pub open spec fn page_of_user(secs: Seq<Section>, nbs: Seq<Notebook>, user: UserId, p: Page) -> bool {
    exists|j: int|
        0 <= j < secs.len() && #[trigger] secs[j].section_id == p.section_id && section_of_user(nbs, user, secs[j])
}

/// Whether section `s` belongs to a notebook of `user`.
fn is_section_of_user(nbs: &Vec<Notebook>, user: UserId, s: &Section) -> (r: bool)
    ensures
        r == section_of_user(nbs@, user, *s),
{
    let mut j: usize = 0;
    while j < nbs.len()
        invariant
            j <= nbs@.len(),
            forall|k: int| 0 <= k < j ==> !(#[trigger] nbs@[k].notebook_id == s.notebook_id && nbs@[k].user_id == user),
        decreases nbs.len() - j,
    {
        if nbs[j].notebook_id == s.notebook_id && nbs[j].user_id == user {
            return true;
        }
        j = j + 1;
    }
    false
}

/// Whether page `p` belongs to a section of a notebook of `user`.
fn is_page_of_user(secs: &Vec<Section>, nbs: &Vec<Notebook>, user: UserId, p: &Page) -> (r: bool)
    ensures
        r == page_of_user(secs@, nbs@, user, *p),
{
    let mut j: usize = 0;
    while j < secs.len()
        invariant
            j <= secs@.len(),
            forall|k: int|
                0 <= k < j ==> !(#[trigger] secs@[k].section_id == p.section_id && section_of_user(nbs@, user, secs@[k])),
        decreases secs.len() - j,
    {
        if secs[j].section_id == p.section_id && is_section_of_user(nbs, user, &secs[j]) {
            return true;
        }
        j = j + 1;
    }
    false
}

/// The notebooks of users other than `user`, in table order.
pub open spec fn notebooks_not_of_user(nbs: Seq<Notebook>, user: UserId) -> Seq<Notebook>
    decreases nbs.len(),
{
    if nbs.len() == 0 {
        nbs
    } else if !(nbs.last().user_id == user) {
        notebooks_not_of_user(nbs.drop_last(), user).push(nbs.last())
    } else {
        notebooks_not_of_user(nbs.drop_last(), user)
    }
}

/// The notebooks of users other than `user`, in table order.
fn notebooks_kept(nbs: &Vec<Notebook>, user: UserId, next: Ghost<i32>, users: Ghost<Seq<User>>) -> (r: Vec<Notebook>)
    requires
        notebooks_wf(nbs@, next@),
        notebooks_owned(users@, nbs@),
    ensures
        r@ == notebooks_not_of_user(nbs@, user),
        notebooks_wf(r@, next@),
        forall|a: int| 0 <= a < r@.len() ==> #[trigger] r@[a].user_id != user && user_present(users@, r@[a].user_id),
        forall|k: int| 0 <= k < nbs@.len() && !(nbs@[k].user_id == user) ==> r@.contains(#[trigger] nbs@[k]),
{
    let mut out: Vec<Notebook> = Vec::new();
    let ghost mut pos: Seq<int> = Seq::empty();
    let mut i: usize = 0;
    assert(nbs@.take(0) =~= Seq::<Notebook>::empty());
    while i < nbs.len()
        invariant
            i <= nbs@.len(),
            notebooks_wf(nbs@, next@),
            notebooks_owned(users@, nbs@),
            out@ == notebooks_not_of_user(nbs@.take(i as int), user),
            pos.len() == out@.len(),
            forall|a: int| 0 <= a < pos.len() ==> 0 <= #[trigger] pos[a] < i && out@[a] == nbs@[pos[a]],
            forall|a: int, b: int| 0 <= a < b < pos.len() ==> #[trigger] pos[a] < #[trigger] pos[b],
            forall|k: int| 0 <= k < i && !(nbs@[k].user_id == user) ==> out@.contains(#[trigger] nbs@[k]),
            forall|a: int| 0 <= a < out@.len() ==> #[trigger] out@[a].user_id != user && user_present(users@, out@[a].user_id),
        decreases nbs.len() - i,
    {
        assert(nbs@.take(i + 1).drop_last() =~= nbs@.take(i as int));
        assert(nbs@.take(i + 1).last() == nbs@[i as int]);
        let ghost before = out@;
        if !(nbs[i].user_id == user) {
            out.push(nbs[i].clone());
            proof {
                pos = pos.push(i as int);
                assert(out@[before.len() as int] == nbs@[i as int]);
                assert forall|k: int| 0 <= k < i && !(nbs@[k].user_id == user) implies out@.contains(#[trigger] nbs@[k]) by {
                    let b = choose|b: int| 0 <= b < before.len() && before[b] == nbs@[k];
                    assert(out@[b] == before[b]);
                }
            }
        }
        i = i + 1;
    }
    assert(nbs@.take(nbs@.len() as int) =~= nbs@);
    proof {
        let o = out@;
        assert forall|a: int, b: int| 0 <= a < o.len() && 0 <= b < o.len() && a != b implies pos[a] != pos[b] by {
            if a < b {
                assert(pos[a] < pos[b]);
            } else {
                assert(pos[b] < pos[a]);
            }
        }
        assert forall|a: int| 0 <= a < o.len() implies 1 <= #[trigger] o[a].notebook_id < next@ by {
            assert(o[a] == nbs@[pos[a]]);
        }
        assert forall|a: int, b: int| 0 <= a < o.len() && 0 <= b < o.len() && a != b implies #[trigger] o[a].notebook_id
            != #[trigger] o[b].notebook_id by {
            assert(o[a] == nbs@[pos[a]] && o[b] == nbs@[pos[b]] && pos[a] != pos[b]);
        }
        assert forall|a: int, b: int|
            0 <= a < o.len() && 0 <= b < o.len() && a != b && #[trigger] o[a].user_id == #[trigger] o[b].user_id
                implies o[a].notebook_title@ != o[b].notebook_title@ by {
            assert(o[a] == nbs@[pos[a]] && o[b] == nbs@[pos[b]] && pos[a] != pos[b]);
        }
    }
    out
}

/// The sections that belong to no notebook of `user`, in table order.
pub open spec fn sections_not_of_user(secs: Seq<Section>, nbs: Seq<Notebook>, user: UserId) -> Seq<Section>
    decreases secs.len(),
{
    if secs.len() == 0 {
        secs
    } else if !(section_of_user(nbs, user, secs.last())) {
        sections_not_of_user(secs.drop_last(), nbs, user).push(secs.last())
    } else {
        sections_not_of_user(secs.drop_last(), nbs, user)
    }
}

/// The sections that belong to no notebook of `user`, in table order.
fn sections_kept(secs: &Vec<Section>, nbs: &Vec<Notebook>, user: UserId, next: Ghost<i32>) -> (r: Vec<Section>)
    requires
        sections_wf(secs@, next@),
        sections_linked(nbs@, secs@),
    ensures
        r@ == sections_not_of_user(secs@, nbs@, user),
        sections_wf(r@, next@),
        forall|a: int| 0 <= a < r@.len() ==> !section_of_user(nbs@, user, #[trigger] r@[a]) && notebook_present(nbs@, r@[a].notebook_id),
        forall|k: int| 0 <= k < secs@.len() && !(section_of_user(nbs@, user, secs@[k])) ==> r@.contains(#[trigger] secs@[k]),
{
    let mut out: Vec<Section> = Vec::new();
    let ghost mut pos: Seq<int> = Seq::empty();
    let mut i: usize = 0;
    assert(secs@.take(0) =~= Seq::<Section>::empty());
    while i < secs.len()
        invariant
            i <= secs@.len(),
            sections_wf(secs@, next@),
            sections_linked(nbs@, secs@),
            out@ == sections_not_of_user(secs@.take(i as int), nbs@, user),
            pos.len() == out@.len(),
            forall|a: int| 0 <= a < pos.len() ==> 0 <= #[trigger] pos[a] < i && out@[a] == secs@[pos[a]],
            forall|a: int, b: int| 0 <= a < b < pos.len() ==> #[trigger] pos[a] < #[trigger] pos[b],
            forall|k: int| 0 <= k < i && !(section_of_user(nbs@, user, secs@[k])) ==> out@.contains(#[trigger] secs@[k]),
            forall|a: int| 0 <= a < out@.len() ==> !section_of_user(nbs@, user, #[trigger] out@[a]) && notebook_present(nbs@, out@[a].notebook_id),
        decreases secs.len() - i,
    {
        assert(secs@.take(i + 1).drop_last() =~= secs@.take(i as int));
        assert(secs@.take(i + 1).last() == secs@[i as int]);
        let ghost before = out@;
        if !(is_section_of_user(nbs, user, &secs[i])) {
            out.push(secs[i].clone());
            proof {
                pos = pos.push(i as int);
                assert(out@[before.len() as int] == secs@[i as int]);
                assert forall|k: int| 0 <= k < i && !(section_of_user(nbs@, user, secs@[k])) implies out@.contains(#[trigger] secs@[k]) by {
                    let b = choose|b: int| 0 <= b < before.len() && before[b] == secs@[k];
                    assert(out@[b] == before[b]);
                }
            }
        }
        i = i + 1;
    }
    assert(secs@.take(secs@.len() as int) =~= secs@);
    proof {
        let o = out@;
        assert forall|a: int, b: int| 0 <= a < o.len() && 0 <= b < o.len() && a != b implies pos[a] != pos[b] by {
            if a < b {
                assert(pos[a] < pos[b]);
            } else {
                assert(pos[b] < pos[a]);
            }
        }
        assert forall|a: int| 0 <= a < o.len() implies 1 <= #[trigger] o[a].section_id < next@ by {
            assert(o[a] == secs@[pos[a]]);
        }
        assert forall|a: int, b: int| 0 <= a < o.len() && 0 <= b < o.len() && a != b implies #[trigger] o[a].section_id
            != #[trigger] o[b].section_id by {
            assert(o[a] == secs@[pos[a]] && o[b] == secs@[pos[b]] && pos[a] != pos[b]);
        }
        assert forall|a: int, b: int|
            0 <= a < o.len() && 0 <= b < o.len() && a != b && #[trigger] o[a].notebook_id == #[trigger] o[b].notebook_id
                implies o[a].section_title@ != o[b].section_title@ by {
            assert(o[a] == secs@[pos[a]] && o[b] == secs@[pos[b]] && pos[a] != pos[b]);
        }
    }
    out
}

/// The pages that belong to no section of `user`, in table order.
pub open spec fn pages_not_of_user(pages: Seq<Page>, secs: Seq<Section>, nbs: Seq<Notebook>, user: UserId) -> Seq<Page>
    decreases pages.len(),
{
    if pages.len() == 0 {
        pages
    } else if !(page_of_user(secs, nbs, user, pages.last())) {
        pages_not_of_user(pages.drop_last(), secs, nbs, user).push(pages.last())
    } else {
        pages_not_of_user(pages.drop_last(), secs, nbs, user)
    }
}

/// The pages that belong to no section of `user`, in table order.
fn pages_kept(pages: &Vec<Page>, secs: &Vec<Section>, nbs: &Vec<Notebook>, user: UserId, next: Ghost<i32>) -> (r: Vec<Page>)
    requires
        pages_wf(pages@, next@),
        pages_linked(secs@, pages@),
    ensures
        r@ == pages_not_of_user(pages@, secs@, nbs@, user),
        pages_wf(r@, next@),
        forall|a: int| 0 <= a < r@.len() ==> !page_of_user(secs@, nbs@, user, #[trigger] r@[a]) && section_present(secs@, r@[a].section_id),
        forall|k: int| 0 <= k < pages@.len() && !(page_of_user(secs@, nbs@, user, pages@[k])) ==> r@.contains(#[trigger] pages@[k]),
{
    let mut out: Vec<Page> = Vec::new();
    let ghost mut pos: Seq<int> = Seq::empty();
    let mut i: usize = 0;
    assert(pages@.take(0) =~= Seq::<Page>::empty());
    while i < pages.len()
        invariant
            i <= pages@.len(),
            pages_wf(pages@, next@),
            pages_linked(secs@, pages@),
            out@ == pages_not_of_user(pages@.take(i as int), secs@, nbs@, user),
            pos.len() == out@.len(),
            forall|a: int| 0 <= a < pos.len() ==> 0 <= #[trigger] pos[a] < i && out@[a] == pages@[pos[a]],
            forall|a: int, b: int| 0 <= a < b < pos.len() ==> #[trigger] pos[a] < #[trigger] pos[b],
            forall|k: int| 0 <= k < i && !(page_of_user(secs@, nbs@, user, pages@[k])) ==> out@.contains(#[trigger] pages@[k]),
            forall|a: int| 0 <= a < out@.len() ==> !page_of_user(secs@, nbs@, user, #[trigger] out@[a]) && section_present(secs@, out@[a].section_id),
        decreases pages.len() - i,
    {
        assert(pages@.take(i + 1).drop_last() =~= pages@.take(i as int));
        assert(pages@.take(i + 1).last() == pages@[i as int]);
        let ghost before = out@;
        if !(is_page_of_user(secs, nbs, user, &pages[i])) {
            out.push(pages[i].clone());
            proof {
                pos = pos.push(i as int);
                assert(out@[before.len() as int] == pages@[i as int]);
                assert forall|k: int| 0 <= k < i && !(page_of_user(secs@, nbs@, user, pages@[k])) implies out@.contains(#[trigger] pages@[k]) by {
                    let b = choose|b: int| 0 <= b < before.len() && before[b] == pages@[k];
                    assert(out@[b] == before[b]);
                }
            }
        }
        i = i + 1;
    }
    assert(pages@.take(pages@.len() as int) =~= pages@);
    proof {
        let o = out@;
        assert forall|a: int, b: int| 0 <= a < o.len() && 0 <= b < o.len() && a != b implies pos[a] != pos[b] by {
            if a < b {
                assert(pos[a] < pos[b]);
            } else {
                assert(pos[b] < pos[a]);
            }
        }
        assert forall|a: int| 0 <= a < o.len() implies 1 <= #[trigger] o[a].page_id < next@ by {
            assert(o[a] == pages@[pos[a]]);
        }
        assert forall|a: int, b: int| 0 <= a < o.len() && 0 <= b < o.len() && a != b implies #[trigger] o[a].page_id
            != #[trigger] o[b].page_id by {
            assert(o[a] == pages@[pos[a]] && o[b] == pages@[pos[b]] && pos[a] != pos[b]);
        }
        assert forall|a: int, b: int|
            0 <= a < o.len() && 0 <= b < o.len() && a != b && #[trigger] o[a].section_id == #[trigger] o[b].section_id
                implies o[a].page_title@ != o[b].page_title@ by {
            assert(o[a] == pages@[pos[a]] && o[b] == pages@[pos[b]] && pos[a] != pos[b]);
        }
    }
    out
}


/// Deletes the user `user_id` together with the nodes it owns and its
/// notebooks, their sections and their pages. `NotFound` where there is no
/// such user.
pub fn delete(db: &mut Database, user_id: UserId) -> (r: BackendResult<()>)
    requires
        old(db).wf(),
    ensures
        final(db).wf(),
        match user_index_from(old(db).users@, user_id, 0) {
            None => r == Err::<(), BackendError>(BackendError::NotFound) && *final(db) == *old(db),
            Some(i) => r is Ok && final(db).users@ == old(db).users@.remove(i) && final(db).nodes@
                == nodes_not_of_owner(old(db).nodes@, user_id) && final(db).notebooks@ == notebooks_not_of_user(
                old(db).notebooks@,
                user_id,
            ) && final(db).sections@ == sections_not_of_user(old(db).sections@, old(db).notebooks@, user_id)
                && final(db).pages@ == pages_not_of_user(
                old(db).pages@,
                old(db).sections@,
                old(db).notebooks@,
                user_id,
            ),
        },
{
    let i = match find_user_by_id(&db.users, user_id) {
        Some(i) => i,
        None => {
            return Err(BackendError::NotFound);
        },
    };
    let ghost old_users = db.users@;
    let ghost old_nbs = db.notebooks@;
    let ghost old_secs = db.sections@;
    let kept = nodes_kept(&db.nodes, user_id, Ghost(db.next_node_id), Ghost(db.users@));
    let kept_pages = pages_kept(&db.pages, &db.sections, &db.notebooks, user_id, Ghost(db.next_page_id));
    let kept_sections = sections_kept(&db.sections, &db.notebooks, user_id, Ghost(db.next_section_id));
    let kept_notebooks = notebooks_kept(&db.notebooks, user_id, Ghost(db.next_notebook_id), Ghost(db.users@));
    db.nodes = kept;
    db.pages = kept_pages;
    db.sections = kept_sections;
    db.notebooks = kept_notebooks;
    db.users.remove(i);
    proof {
        let users = db.users@;
        lemma_user_index_from_is_match(old_users, user_id, 0);
        let nbs = db.notebooks@;
        let secs = db.sections@;
        let pages = db.pages@;
        assert forall|a: int| 0 <= a < secs.len() implies notebook_present(nbs, #[trigger] secs[a].notebook_id) by {
            let s = secs[a];
            let j = choose|j: int| 0 <= j < old_nbs.len() && #[trigger] old_nbs[j].notebook_id == s.notebook_id;
            assert(old_nbs[j].user_id != user_id);
            assert(nbs.contains(old_nbs[j]));
            let b = choose|b: int| 0 <= b < nbs.len() && nbs[b] == old_nbs[j];
            assert(nbs[b].notebook_id == s.notebook_id);
        }
        assert forall|a: int| 0 <= a < pages.len() implies section_present(secs, #[trigger] pages[a].section_id) by {
            let p = pages[a];
            let j = choose|j: int| 0 <= j < old_secs.len() && #[trigger] old_secs[j].section_id == p.section_id;
            assert(!section_of_user(old_nbs, user_id, old_secs[j]));
            assert(secs.contains(old_secs[j]));
            let b = choose|b: int| 0 <= b < secs.len() && secs[b] == old_secs[j];
            assert(secs[b].section_id == p.section_id);
        }
        assert forall|a: int| 0 <= a < nbs.len() implies user_present(users, #[trigger] nbs[a].user_id) by {
            let u = nbs[a].user_id;
            let j = choose|j: int| 0 <= j < old_users.len() && #[trigger] old_users[j].id == u;
            assert(j != i);
            let nj = if j < i { j } else { j - 1 };
            assert(users[nj] == old_users[j]);
        }
        assert forall|k: int| 0 <= k < db.nodes@.len() implies owner_known(users, #[trigger] db.nodes@[k].owner_id) by {
            let owner = db.nodes@[k].owner_id;
            lemma_user_index_from_is_match(old_users, user_id, 0);
            let j = choose|j: int| 0 <= j < old_users.len() && #[trigger] old_users[j].id == owner;
            assert(j != i);
            let nj = if j < i { j } else { j - 1 };
            assert(users[nj] == old_users[j]);
        }
        assert forall|a: int| 0 <= a < users.len() implies #[trigger] users[a] == old_users[if a < i { a } else { a + 1 }] by {}
        assert forall|a: int| 0 <= a < users.len() implies 1 <= #[trigger] users[a].id < db.next_user_id by {
            assert(users[a] == old_users[if a < i { a } else { a + 1 }]);
        }
        assert forall|a: int, b: int|
            0 <= a < users.len() && 0 <= b < users.len() && a != b implies #[trigger] users[a].id
                != #[trigger] users[b].id by {
            let oa = if a < i { a } else { a + 1 };
            let ob = if b < i { b } else { b + 1 };
            assert(users[a] == old_users[oa] && users[b] == old_users[ob]);
        }
        assert forall|a: int, b: int|
            0 <= a < users.len() && 0 <= b < users.len() && a != b implies #[trigger] users[a].username@
                != #[trigger] users[b].username@ by {
            let oa = if a < i { a } else { a + 1 };
            let ob = if b < i { b } else { b + 1 };
            assert(users[a] == old_users[oa] && users[b] == old_users[ob]);
        }
    }
    Ok(())
}

} // verus!
