use vstd::prelude::*;

use crate::database::Database;
use crate::errors::{BackendError, BackendResult};
use crate::jwt::Claims;
use crate::models::users::user_index_from;
use crate::models::nodes::{
    chain_has, content_error, delete_error, insert_error, lemma_move_resolves_at_new_path_only, lemma_node_at_path,
    move_error, node_at_path, path_text, nodes_of_owner, path_passes_through, rename_error, resolve_scope, row_of,
    same_except_nodes, with_content, with_name, with_parent, NewNodePayload, Node, NodeName, OwnedPath,
};

verus! {

/// Where to create a node, and what.
pub struct CreateNodePayload {
    pub parent: OwnedPath,
    pub node: NewNodePayload,
}

/// The node whose content to replace, and the new content.
pub struct ChangeNodeContent {
    pub path: OwnedPath,
    pub new_content: String,
}

/// The node to rename, and the new name.
pub struct ChangeNodeName<'a> {
    pub path: OwnedPath,
    pub new_name: &'a str,
}

/// The node to move, and the directory to move it under (empty: the root
/// scope).
pub struct ChangeParentPayload {
    pub node_path: OwnedPath,
    pub new_parent_path: OwnedPath,
}

/// Where a moved node was, and where it is now.
pub struct ChangeParentResponse {
    pub old_path: OwnedPath,
    pub new_path: OwnedPath,
}

/// The node to delete.
pub struct DeleteNode {
    pub path: OwnedPath,
}

/// A copy of a path.
pub fn clone_path(p: &Vec<NodeName>) -> (r: Vec<NodeName>)
    ensures
        r@ == p@,
{
    let mut out: Vec<NodeName> = Vec::new();
    let mut i: usize = 0;
    while i < p.len()
        invariant
            i <= p@.len(),
            out@ == p@.take(i as int),
        decreases p.len() - i,
    {
        out.push(p[i].clone());
        assert(out@ =~= p@.take(i + 1));
        i = i + 1;
    }
    assert(out@ =~= p@);
    out
}

/// The id of the node that `path` names, where it is not empty.
pub open spec fn dest_of(nodes: Seq<Node>, owner: i32, path: Seq<NodeName>) -> Option<i32> {
    if path.len() == 0 {
        None
    } else {
        Some(node_at_path(nodes, owner, path)->Some_0.node_id)
    }
}

/// All nodes of the caller.
pub fn get_nodes(claims: &Claims, db: &Database) -> (r: BackendResult<Vec<Node>>)
    ensures
        r matches Ok(v) && v@ == nodes_of_owner(db.nodes@, claims.sub),
{
    Node::fetch_all_for_user(db, &claims.id())
}

/// Creates a node for the caller under `payload.parent`; it then resolves
/// at that path followed by its name, with the attributes given.
pub fn create_node(claims: &Claims, db: &mut Database, payload: &CreateNodePayload) -> (r: BackendResult<Node>)
    requires
        old(db).wf(),
    ensures
        final(db).wf(),
        same_except_nodes(*final(db), *old(db)),
        user_index_from(old(db).users@, claims.sub, 0) is None ==> r == Err::<Node, BackendError>(
            BackendError::NotFound,
        ) && *final(db) == *old(db),
        user_index_from(old(db).users@, claims.sub, 0) is Some ==> match insert_error(
            old(db).nodes@,
            old(db).next_node_id,
            claims.sub,
            payload.parent@,
            payload.node,
        ) {
            Some(e) => r == Err::<Node, BackendError>(e) && *final(db) == *old(db),
            None => r matches Ok(n) && final(db).nodes@ == old(db).nodes@.push(n) && node_at_path(
                final(db).nodes@,
                claims.sub,
                payload.parent@.push(payload.node.name),
            ) == Some(n) && n.node_name@ == payload.node.name@ && n.is_directory == payload.node.is_directory
                && (!n.is_directory ==> n.content == payload.node.content),
        },
{
    Node::insert(db, &claims.id(), payload.parent.as_slice(), &payload.node)
}

/// Replaces the content of the caller's node at `payload.path`.
pub fn change_content(claims: &Claims, db: &mut Database, payload: &ChangeNodeContent) -> (r: BackendResult<Node>)
    requires
        old(db).wf(),
    ensures
        final(db).wf(),
        same_except_nodes(*final(db), *old(db)),
        match node_at_path(old(db).nodes@, claims.sub, payload.path@) {
            None => r == Err::<Node, BackendError>(BackendError::NotFound) && *final(db) == *old(db),
            Some(n) => match content_error(old(db).nodes@, n) {
                Some(e) => r == Err::<Node, BackendError>(e) && *final(db) == *old(db),
                None => r matches Ok(m) && m.content matches Some(c) && c@ == payload.new_content@ && m
                    == with_content(n, c) && final(db).nodes@ == old(db).nodes@.update(
                    row_of(old(db).nodes@, n.node_id)->Some_0,
                    with_content(n, c),
                ),
            },
        },
{
    proof {
        lemma_node_at_path(db.nodes@, claims.sub, payload.path@);
    }
    let node = Node::fetch_by_path_for_user(db, &claims.id(), payload.path.as_slice())?;
    node.change_content(db, payload.new_content.as_str())
}

/// Renames the caller's node at `payload.path`.
pub fn change_name<'a>(claims: &Claims, db: &mut Database, payload: &ChangeNodeName<'a>) -> (r: BackendResult<Node>)
    requires
        old(db).wf(),
    ensures
        final(db).wf(),
        same_except_nodes(*final(db), *old(db)),
        match node_at_path(old(db).nodes@, claims.sub, payload.path@) {
            None => r == Err::<Node, BackendError>(BackendError::NotFound) && *final(db) == *old(db),
            Some(n) => match rename_error(old(db).nodes@, n.node_id, payload.new_name@) {
                Some(e) => r == Err::<Node, BackendError>(e) && *final(db) == *old(db),
                None => r matches Ok(m) && m.node_name@ == payload.new_name@ && m == with_name(n, m.node_name)
                    && final(db).nodes@ == old(db).nodes@.update(
                    row_of(old(db).nodes@, n.node_id)->Some_0,
                    with_name(n, m.node_name),
                ),
            },
        },
{
    proof {
        lemma_node_at_path(db.nodes@, claims.sub, payload.path@);
    }
    let node = Node::fetch_by_path_for_user(db, &claims.id(), payload.path.as_slice())?;
    node.change_name(db, payload.new_name)
}

/// Moves the caller's node at `payload.node_path` under the directory at
/// `payload.new_parent_path` (empty: the root scope) and reports both paths.
/// A destination whose path passes through the node, that is the node
/// itself or lies below it, is `InvalidValue`; every failure changes
/// nothing. After the move the node resolves at the new path, and no longer
/// at the old one where its parent changed.
pub fn change_parent(claims: &Claims, db: &mut Database, payload: &ChangeParentPayload) -> (r: BackendResult<
    ChangeParentResponse,
>)
    requires
        old(db).wf(),
    ensures
        final(db).wf(),
        same_except_nodes(*final(db), *old(db)),
        final(db).next_node_id == old(db).next_node_id,
        r is Err ==> *final(db) == *old(db),
        ({
            let nodes = old(db).nodes@;
            let owner = claims.sub;
            let dest_path = payload.new_parent_path@;
            match node_at_path(nodes, owner, payload.node_path@) {
                None => r == Err::<ChangeParentResponse, BackendError>(BackendError::NotFound),
                Some(n) => if dest_path.len() > 0 && node_at_path(nodes, owner, dest_path) is None {
                    r == Err::<ChangeParentResponse, BackendError>(BackendError::NotFound)
                } else if chain_has(nodes, owner, dest_path, n.node_id) {
                    r == Err::<ChangeParentResponse, BackendError>(BackendError::InvalidValue)
                } else {
                    let dest = dest_of(nodes, owner, dest_path);
                    match move_error(nodes, n.node_id, dest) {
                        Some(e) => r == Err::<ChangeParentResponse, BackendError>(e),
                        None => r matches Ok(resp) && resp.old_path@ == payload.node_path@ && resp.new_path@
                            == dest_path.push(n.node_name) && final(db).nodes@ == nodes.update(
                            row_of(nodes, n.node_id)->Some_0,
                            with_parent(n, dest),
                        ) && resolve_scope(final(db).nodes@, owner, resp.new_path@) == Some(Some(n.node_id))
                            && (dest != n.parent_id ==> resolve_scope(final(db).nodes@, owner, resp.old_path@)
                            is None) && (path_text(dest_path) != path_text(payload.node_path@.drop_last())
                            ==> resolve_scope(final(db).nodes@, owner, resp.old_path@) is None),
                    }
                }
            }
        }),
{
    let owner = claims.id();
    proof {
        lemma_node_at_path(db.nodes@, owner, payload.node_path@);
        lemma_node_at_path(db.nodes@, owner, payload.new_parent_path@);
    }
    let node = Node::fetch_by_path_for_user(db, &owner, payload.node_path.as_slice())?;
    let new_parent = if payload.new_parent_path.len() == 0 {
        None
    } else {
        let parent = Node::fetch_by_path_for_user(db, &owner, payload.new_parent_path.as_slice())?;
        if path_passes_through(&db.nodes, owner, payload.new_parent_path.as_slice(), node.node_id) {
            return Err(BackendError::InvalidValue);
        }
        Some(parent)
    };
    let ghost old_nodes = db.nodes@;
    let ghost next = db.next_node_id;
    let ghost i = row_of(old_nodes, node.node_id)->Some_0;
    let ghost dest = dest_of(old_nodes, owner, payload.new_parent_path@);
    let moved = node.change_parent(db, new_parent.as_ref())?;
    let mut new_path = clone_path(&payload.new_parent_path);
    new_path.push(moved.node_name.clone());
    let old_path = clone_path(&payload.node_path);
    proof {
        lemma_move_resolves_at_new_path_only(
            old_nodes,
            next,
            owner,
            i,
            dest,
            payload.new_parent_path@,
            payload.node_path@,
        );
    }
    Ok(ChangeParentResponse { old_path, new_path })
}

/// Deletes the caller's node at `payload.path`.
pub fn delete(claims: &Claims, db: &mut Database, payload: &DeleteNode) -> (r: BackendResult<()>)
    requires
        old(db).wf(),
    ensures
        final(db).wf(),
        same_except_nodes(*final(db), *old(db)),
        match node_at_path(old(db).nodes@, claims.sub, payload.path@) {
            None => r == Err::<(), BackendError>(BackendError::NotFound) && *final(db) == *old(db),
            Some(n) => match delete_error(old(db).nodes@, n.node_id) {
                Some(e) => r == Err::<(), BackendError>(e) && *final(db) == *old(db),
                None => r is Ok && final(db).nodes@ == old(db).nodes@.remove(row_of(old(db).nodes@, n.node_id)->Some_0),
            },
        },
{
    proof {
        lemma_node_at_path(db.nodes@, claims.sub, payload.path@);
    }
    let node = Node::fetch_by_path_for_user(db, &claims.id(), payload.path.as_slice())?;
    node.delete(db)
}

} // verus!
