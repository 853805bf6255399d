use vstd::prelude::*;

use crate::database::Database;
use crate::errors::{BackendError, BackendResult};
use crate::models::users::{find_user_by_id, lemma_user_index_from_is_match, str_eq, user_index_from, User, UserId};

verus! {

pub type NodeName = String;

pub type NodeId = i32;

pub type OwnedPath = Vec<NodeName>;

/// What a caller gives to create a node.
#[derive(Debug)]
pub struct NewNodePayload {
    pub name: String,
    pub is_directory: bool,
    pub content: Option<String>,
}

/// A node row before the store has given it an id.
#[derive(Debug)]
pub struct NewNode {
    pub node_name: String,
    pub parent_id: Option<NodeId>,
    pub parent_is_directory: Option<bool>,
    pub owner_id: UserId,
    pub is_directory: bool,
    pub content: Option<String>,
}

/// A stored node: a directory, or a leaf that holds content.
#[derive(Debug, PartialEq, Eq)]
pub struct Node {
    pub node_id: NodeId,
    pub node_name: NodeName,
    pub parent_id: Option<NodeId>,
    pub parent_is_directory: Option<bool>,
    pub owner_id: UserId,
    pub is_directory: bool,
    pub content: Option<String>,
}

impl Clone for Node {
    fn clone(&self) -> (r: Self)
        ensures
            r == *self,
    {
        Node {
            node_id: self.node_id,
            node_name: self.node_name.clone(),
            parent_id: self.parent_id,
            parent_is_directory: self.parent_is_directory,
            owner_id: self.owner_id,
            is_directory: self.is_directory,
            content: clone_text(&self.content),
        }
    }
}

/// A copy of an optional text.
pub fn clone_text(t: &Option<String>) -> (r: Option<String>)
    ensures
        r == *t,
{
    match t {
        Some(s) => Some(s.clone()),
        None => None,
    }
}

/// The parent-side column that the store keeps beside `parent_id`: only a
/// directory can be a parent.
pub open spec fn parent_flag(parent_id: Option<NodeId>) -> Option<bool> {
    if parent_id is Some {
        Some(true)
    } else {
        None
    }
}

/// The row that a valid payload describes: a directory holds no content.
pub open spec fn new_node_of(payload: NewNodePayload, parent_id: Option<NodeId>, owner_id: UserId) -> NewNode {
    NewNode {
        node_name: payload.name,
        parent_id,
        parent_is_directory: parent_flag(parent_id),
        owner_id,
        is_directory: payload.is_directory,
        content: if payload.is_directory {
            None
        } else {
            payload.content
        },
    }
}

/// A leaf must come with content.
pub open spec fn payload_valid(payload: NewNodePayload) -> bool {
    payload.is_directory || payload.content is Some
}

impl NewNode {
    /// Builds the row for `payload` under `parent_id`, owned by `owner_id`.
    /// A leaf without content is `InvalidValue`.
    pub fn new(payload: &NewNodePayload, parent_id: Option<&NodeId>, owner_id: &UserId) -> (r:
        BackendResult<NewNode>)
        ensures
            payload_valid(*payload) ==> r == Ok::<NewNode, BackendError>(
                new_node_of(
                    *payload,
                    match parent_id {
                        Some(id) => Some(*id),
                        None => None,
                    },
                    *owner_id,
                ),
            ),
            !payload_valid(*payload) ==> r == Err::<NewNode, BackendError>(BackendError::InvalidValue),
    {
        let parent: Option<NodeId> = match parent_id {
            Some(id) => Some(*id),
            None => None,
        };
        let parent_is_directory = if parent.is_some() {
            Some(true)
        } else {
            None
        };
        if payload.is_directory {
            Ok(NewNode {
                node_name: payload.name.clone(),
                parent_id: parent,
                parent_is_directory,
                owner_id: *owner_id,
                is_directory: true,
                content: None,
            })
        } else {
            if payload.content.is_none() {
                return Err(BackendError::InvalidValue);
            }
            Ok(NewNode {
                node_name: payload.name.clone(),
                parent_id: parent,
                parent_is_directory,
                owner_id: *owner_id,
                is_directory: false,
                content: clone_text(&payload.content),
            })
        }
    }
}

/// Whether `n` is the child named `name` of `parent` in `owner`'s forest
/// (`None` is the root scope).
pub open spec fn is_child(n: Node, owner: UserId, parent: Option<NodeId>, name: Seq<char>) -> bool {
    n.owner_id == owner && n.parent_id == parent && n.node_name@ == name
}

/// Index of the first child named `name` of `parent`, scanning from `k`.
pub open spec fn child_from(
    nodes: Seq<Node>,
    owner: UserId,
    parent: Option<NodeId>,
    name: Seq<char>,
    k: int,
) -> Option<int>
    decreases nodes.len() - k,
{
    if k < 0 || k >= nodes.len() {
        None
    } else if is_child(nodes[k], owner, parent, name) {
        Some(k)
    } else {
        child_from(nodes, owner, parent, name, k + 1)
    }
}

/// The scope that `path` names in `owner`'s forest: `Some(None)` for the
/// root scope (the empty path), `Some(Some(id))` for a node, `None` where a
/// segment has no match. Each segment is looked up under the node that the
/// segments before it named.
pub open spec fn resolve_scope(nodes: Seq<Node>, owner: UserId, path: Seq<NodeName>) -> Option<
    Option<NodeId>,
>
    decreases path.len(),
{
    if path.len() == 0 {
        Some(None)
    } else {
        match resolve_scope(nodes, owner, path.drop_last()) {
            None => None,
            Some(parent) => match child_from(nodes, owner, parent, path.last()@, 0) {
                None => None,
                Some(i) => Some(Some(nodes[i].node_id)),
            },
        }
    }
}

/// Index of the first row with id `id`, scanning from `k`.
pub open spec fn row_from(nodes: Seq<Node>, id: NodeId, k: int) -> Option<int>
    decreases nodes.len() - k,
{
    if k < 0 || k >= nodes.len() {
        None
    } else if nodes[k].node_id == id {
        Some(k)
    } else {
        row_from(nodes, id, k + 1)
    }
}

/// Index of the row with id `id`.
pub open spec fn row_of(nodes: Seq<Node>, id: NodeId) -> Option<int> {
    row_from(nodes, id, 0)
}

/// The node that `path` names in `owner`'s forest.
pub open spec fn node_at_path(nodes: Seq<Node>, owner: UserId, path: Seq<NodeName>) -> Option<Node> {
    match resolve_scope(nodes, owner, path) {
        Some(Some(id)) => match row_of(nodes, id) {
            Some(i) => if nodes[i].owner_id == owner {
                Some(nodes[i])
            } else {
                None
            },
            None => None,
        },
        _ => None,
    }
}

/// The nodes that `owner` owns, in table order.
pub open spec fn nodes_of_owner(nodes: Seq<Node>, owner: UserId) -> Seq<Node>
    decreases nodes.len(),
{
    if nodes.len() == 0 {
        nodes
    } else if nodes.last().owner_id == owner {
        nodes_of_owner(nodes.drop_last(), owner).push(nodes.last())
    } else {
        nodes_of_owner(nodes.drop_last(), owner)
    }
}

/// Ids unique, positive and below the counter; sibling names unique; content
/// present exactly on leaves; the parent column set exactly under a parent;
/// every parent present, a directory of the same owner; and every chain of
/// parents ending at the root scope, so that no node lies below itself.
pub open spec fn nodes_wf(nodes: Seq<Node>, next: i32) -> bool {
    &&& next >= 1
    &&& forall|i: int| 0 <= i < nodes.len() ==> 1 <= #[trigger] nodes[i].node_id < next
    &&& forall|i: int, j: int|
        0 <= i < nodes.len() && 0 <= j < nodes.len() && i != j ==> #[trigger] nodes[i].node_id
            != #[trigger] nodes[j].node_id
    &&& forall|i: int, j: int|
        0 <= i < nodes.len() && 0 <= j < nodes.len() && i != j && #[trigger] nodes[i].owner_id
            == #[trigger] nodes[j].owner_id && nodes[i].parent_id == nodes[j].parent_id
            ==> nodes[i].node_name@ != nodes[j].node_name@
    &&& forall|i: int|
        0 <= i < nodes.len() ==> (#[trigger] nodes[i].is_directory <==> nodes[i].content is None)
    &&& forall|i: int|
        0 <= i < nodes.len() ==> #[trigger] nodes[i].parent_is_directory == parent_flag(
            nodes[i].parent_id,
        )
    &&& forall|i: int| 0 <= i < nodes.len() ==> parent_present(nodes, #[trigger] nodes[i])
    &&& forall|i: int| 0 <= i < nodes.len() ==> node_rooted(nodes, #[trigger] nodes[i].node_id)
}

/// Some user has id `owner`.
pub open spec fn owner_known(users: Seq<User>, owner: UserId) -> bool {
    exists|j: int| 0 <= j < users.len() && #[trigger] users[j].id == owner
}

/// Every node is owned by a stored user.
pub open spec fn owners_known(users: Seq<User>, nodes: Seq<Node>) -> bool {
    forall|i: int| 0 <= i < nodes.len() ==> owner_known(users, #[trigger] nodes[i].owner_id)
}

/// A node with a parent has it in `nodes`: a directory of the same owner.
pub open spec fn parent_present(nodes: Seq<Node>, n: Node) -> bool {
    n.parent_id matches Some(p) ==> exists|j: int|
        0 <= j < nodes.len() && #[trigger] nodes[j].node_id == p && nodes[j].is_directory && nodes[j].owner_id
            == n.owner_id
}

pub proof fn lemma_child_from(nodes: Seq<Node>, owner: UserId, parent: Option<NodeId>, name: Seq<char>, k: int)
    requires
        k >= 0,
    ensures
        child_from(nodes, owner, parent, name, k) matches Some(i) ==> k <= i < nodes.len()
            && is_child(nodes[i], owner, parent, name),
        child_from(nodes, owner, parent, name, k) is None ==> forall|j: int|
            k <= j < nodes.len() ==> !is_child(#[trigger] nodes[j], owner, parent, name),
    decreases nodes.len() - k,
{
    if k < nodes.len() && !is_child(nodes[k], owner, parent, name) {
        lemma_child_from(nodes, owner, parent, name, k + 1);
    }
}

pub proof fn lemma_child_from_push(
    nodes: Seq<Node>,
    n: Node,
    owner: UserId,
    parent: Option<NodeId>,
    name: Seq<char>,
    k: int,
)
    requires
        0 <= k <= nodes.len(),
    ensures
        child_from(nodes.push(n), owner, parent, name, k) == match child_from(nodes, owner, parent, name, k) {
            Some(i) => Some(i),
            None => if is_child(n, owner, parent, name) {
                Some(nodes.len() as int)
            } else {
                None
            },
        },
    decreases nodes.len() - k,
{
    if k < nodes.len() {
        assert(nodes.push(n)[k] == nodes[k]);
        lemma_child_from_push(nodes, n, owner, parent, name, k + 1);
    } else {
        assert(nodes.push(n)[k] == n);
        assert(child_from(nodes.push(n), owner, parent, name, k + 1) is None);
    }
}

pub proof fn lemma_row_from(nodes: Seq<Node>, id: NodeId, k: int)
    requires
        k >= 0,
    ensures
        row_from(nodes, id, k) matches Some(i) ==> k <= i < nodes.len() && nodes[i].node_id == id,
        row_from(nodes, id, k) is None ==> forall|j: int|
            k <= j < nodes.len() ==> #[trigger] nodes[j].node_id != id,
    decreases nodes.len() - k,
{
    if k < nodes.len() && nodes[k].node_id != id {
        lemma_row_from(nodes, id, k + 1);
    }
}

pub proof fn lemma_row_from_push(nodes: Seq<Node>, n: Node, id: NodeId, k: int)
    requires
        0 <= k <= nodes.len(),
    ensures
        row_from(nodes.push(n), id, k) == match row_from(nodes, id, k) {
            Some(i) => Some(i),
            None => if n.node_id == id {
                Some(nodes.len() as int)
            } else {
                None
            },
        },
    decreases nodes.len() - k,
{
    if k < nodes.len() {
        assert(nodes.push(n)[k] == nodes[k]);
        lemma_row_from_push(nodes, n, id, k + 1);
    } else {
        assert(nodes.push(n)[k] == n);
        assert(row_from(nodes.push(n), id, k + 1) is None);
    }
}

/// The node a path names is the row that its id leads to.
pub proof fn lemma_node_at_path(nodes: Seq<Node>, owner: UserId, path: Seq<NodeName>)
    ensures
        node_at_path(nodes, owner, path) matches Some(n) ==> row_of(nodes, n.node_id) matches Some(i) && 0 <= i
            < nodes.len() && nodes[i] == n && n.owner_id == owner && resolve_scope(nodes, owner, path) == Some(
            Some(n.node_id),
        ),
{
    if let Some(Some(id)) = resolve_scope(nodes, owner, path) {
        lemma_row_from(nodes, id, 0);
    }
}

/// Replacing a row by one with the same id, kind and owner whose parent is
/// present keeps every parent present.
pub proof fn lemma_parents_after_update(nodes: Seq<Node>, i: int, x: Node)
    requires
        0 <= i < nodes.len(),
        forall|a: int| 0 <= a < nodes.len() ==> parent_present(nodes, #[trigger] nodes[a]),
        x.node_id == nodes[i].node_id,
        x.is_directory == nodes[i].is_directory,
        x.owner_id == nodes[i].owner_id,
        parent_present(nodes, x),
    ensures
        forall|a: int|
            0 <= a < nodes.len() ==> parent_present(nodes.update(i, x), #[trigger] nodes.update(i, x)[a]),
{
    let m = nodes.update(i, x);
    assert forall|a: int| 0 <= a < m.len() implies parent_present(m, #[trigger] m[a]) by {
        let n = m[a];
        if a != i {
            assert(n == nodes[a]);
        }
        assert(parent_present(nodes, n));
        if let Some(p) = n.parent_id {
            let j = choose|j: int|
                0 <= j < nodes.len() && #[trigger] nodes[j].node_id == p && nodes[j].is_directory && nodes[j].owner_id
                    == n.owner_id;
            assert(m[j].node_id == p && m[j].is_directory && m[j].owner_id == n.owner_id);
        }
    }
}

/// Removing a row that no row has as its parent keeps every parent present.
pub proof fn lemma_parents_after_remove(nodes: Seq<Node>, i: int)
    requires
        0 <= i < nodes.len(),
        forall|a: int| 0 <= a < nodes.len() ==> parent_present(nodes, #[trigger] nodes[a]),
        !has_children(nodes, nodes[i].node_id),
    ensures
        forall|a: int|
            0 <= a < nodes.len() - 1 ==> parent_present(nodes.remove(i), #[trigger] nodes.remove(i)[a]),
{
    let m = nodes.remove(i);
    assert forall|a: int| 0 <= a < m.len() implies parent_present(m, #[trigger] m[a]) by {
        let oa = if a < i { a } else { a + 1 };
        let n = m[a];
        assert(n == nodes[oa]);
        assert(parent_present(nodes, nodes[oa]));
        if let Some(p) = n.parent_id {
            let j = choose|j: int|
                0 <= j < nodes.len() && #[trigger] nodes[j].node_id == p && nodes[j].is_directory && nodes[j].owner_id
                    == n.owner_id;
            if j == i {
                assert(nodes[oa].parent_id == Some(nodes[i].node_id));
                assert(has_children(nodes, nodes[i].node_id));
            }
            let nj = if j < i { j } else { j - 1 };
            assert(m[nj] == nodes[j]);
        }
    }
}

/// A path that names a scope still names it once a row is appended.
pub proof fn lemma_resolve_scope_push(nodes: Seq<Node>, n: Node, owner: UserId, path: Seq<NodeName>)
    requires
        resolve_scope(nodes, owner, path) is Some,
    ensures
        resolve_scope(nodes.push(n), owner, path) == resolve_scope(nodes, owner, path),
    decreases path.len(),
{
    if path.len() > 0 {
        lemma_resolve_scope_push(nodes, n, owner, path.drop_last());
        let parent = resolve_scope(nodes, owner, path.drop_last())->Some_0;
        lemma_child_from_push(nodes, n, owner, parent, path.last()@, 0);
        lemma_child_from(nodes, owner, parent, path.last()@, 0);
    }
}

/// A path whose first `k` segments name no scope names none.
pub proof fn lemma_resolve_scope_prefix(nodes: Seq<Node>, owner: UserId, path: Seq<NodeName>, k: int)
    requires
        0 <= k <= path.len(),
        resolve_scope(nodes, owner, path.take(k)) is None,
    ensures
        resolve_scope(nodes, owner, path) is None,
    decreases path.len() - k,
{
    if k < path.len() {
        assert(path.take(k + 1).drop_last() =~= path.take(k));
        lemma_resolve_scope_prefix(nodes, owner, path, k + 1);
    } else {
        assert(path.take(k) =~= path);
    }
}

/// Position of the first child named `name` of `parent` in `owner`'s forest.
pub fn find_child(nodes: &Vec<Node>, owner: UserId, parent: Option<NodeId>, name: &str) -> (r: Option<usize>)
    ensures
        match r {
            Some(i) => i < nodes.len() && child_from(nodes@, owner, parent, name@, 0) == Some(i as int),
            None => child_from(nodes@, owner, parent, name@, 0) is None,
        },
{
    let mut i: usize = 0;
    while i < nodes.len()
        invariant
            i <= nodes.len(),
            child_from(nodes@, owner, parent, name@, 0) == child_from(nodes@, owner, parent, name@, i as int),
        decreases nodes.len() - i,
    {
        let n = &nodes[i];
        if n.owner_id == owner && n.parent_id == parent && str_eq(n.node_name.as_str(), name) {
            return Some(i);
        }
        i = i + 1;
    }
    None
}

/// Position of the row with id `id`.
pub fn find_row(nodes: &Vec<Node>, id: NodeId) -> (r: Option<usize>)
    ensures
        match r {
            Some(i) => i < nodes.len() && row_of(nodes@, id) == Some(i as int),
            None => row_of(nodes@, id) is None,
        },
{
    let mut i: usize = 0;
    while i < nodes.len()
        invariant
            i <= nodes.len(),
            row_of(nodes@, id) == row_from(nodes@, id, i as int),
        decreases nodes.len() - i,
    {
        if nodes[i].node_id == id {
            return Some(i);
        }
        i = i + 1;
    }
    None
}

impl Node {
    /// Walks `path` from the root scope of `user_id`'s forest, one segment at
    /// a time, to the id of the node it names. Fails `NotFound` at the first
    /// segment without a match, and for the empty path, which names no node.
    pub fn fetch_id_by_path_for_user(db: &Database, user_id: &UserId, path: &[NodeName]) -> (r:
        BackendResult<NodeId>)
        ensures
            match resolve_scope(db.nodes@, *user_id, path@) {
                Some(Some(id)) => r == Ok::<NodeId, BackendError>(id),
                _ => r == Err::<NodeId, BackendError>(BackendError::NotFound),
            },
    {
        let mut node_id: Option<NodeId> = None;
        let mut i: usize = 0;
        assert(path@.take(0) =~= Seq::<NodeName>::empty());
        while i < path.len()
            invariant
                i <= path@.len(),
                resolve_scope(db.nodes@, *user_id, path@.take(i as int)) == Some(node_id),
            decreases path.len() - i,
        {
            assert(path@.take(i + 1).drop_last() =~= path@.take(i as int));
            match find_child(&db.nodes, *user_id, node_id, path[i].as_str()) {
                Some(k) => {
                    node_id = Some(db.nodes[k].node_id);
                },
                None => {
                    proof {
                        lemma_resolve_scope_prefix(db.nodes@, *user_id, path@, i + 1);
                    }
                    return Err(BackendError::NotFound);
                },
            }
            i = i + 1;
        }
        assert(path@.take(path@.len() as int) =~= path@);
        match node_id {
            Some(id) => Ok(id),
            None => Err(BackendError::NotFound),
        }
    }

    /// Fetches the node that `path` names in `user_id`'s forest.
    pub fn fetch_by_path_for_user(db: &Database, user_id: &UserId, path: &[NodeName]) -> (r:
        BackendResult<Node>)
        ensures
            match node_at_path(db.nodes@, *user_id, path@) {
                Some(n) => r == Ok::<Node, BackendError>(n),
                None => r == Err::<Node, BackendError>(BackendError::NotFound),
            },
    {
        let id = Self::fetch_id_by_path_for_user(db, user_id, path)?;
        match find_row(&db.nodes, id) {
            Some(i) => {
                if db.nodes[i].owner_id == *user_id {
                    Ok(db.nodes[i].clone())
                } else {
                    Err(BackendError::NotFound)
                }
            },
            None => Err(BackendError::NotFound),
        }
    }

    /// All nodes that `user_id` owns, in table order.
    pub fn fetch_all_for_user(db: &Database, user_id: &UserId) -> (r: BackendResult<Vec<Node>>)
        ensures
            r matches Ok(v) && v@ == nodes_of_owner(db.nodes@, *user_id),
    {
        let mut out: Vec<Node> = Vec::new();
        let mut i: usize = 0;
        assert(db.nodes@.take(0) =~= Seq::<Node>::empty());
        while i < db.nodes.len()
            invariant
                i <= db.nodes@.len(),
                out@ == nodes_of_owner(db.nodes@.take(i as int), *user_id),
            decreases db.nodes.len() - i,
        {
            assert(db.nodes@.take(i + 1).drop_last() =~= db.nodes@.take(i as int));
            if db.nodes[i].owner_id == *user_id {
                out.push(db.nodes[i].clone());
            }
            i = i + 1;
        }
        assert(db.nodes@.take(db.nodes@.len() as int) =~= db.nodes@);
        Ok(out)
    }
}


/// Whether some row other than `except` is the child named `name` of `parent`.
pub open spec fn sibling_taken(
    nodes: Seq<Node>,
    owner: UserId,
    parent: Option<NodeId>,
    name: Seq<char>,
    except: int,
) -> bool {
    exists|j: int| 0 <= j < nodes.len() && j != except && is_child(#[trigger] nodes[j], owner, parent, name)
}

/// Whether the row of `id` is a directory of `owner`.
pub open spec fn is_directory_of(nodes: Seq<Node>, owner: UserId, id: NodeId) -> bool {
    match row_of(nodes, id) {
        Some(k) => nodes[k].is_directory && nodes[k].owner_id == owner,
        None => false,
    }
}

/// Whether walking up from `from` by parent links meets `target` within
/// `fuel` steps: `from` is `target` or lies below it.
pub open spec fn reaches(nodes: Seq<Node>, from: Option<NodeId>, target: NodeId, fuel: nat) -> bool
    decreases fuel,
{
    match from {
        None => false,
        Some(id) => id == target || (fuel > 0 && match row_of(nodes, id) {
            None => false,
            Some(k) => reaches(nodes, nodes[k].parent_id, target, (fuel - 1) as nat),
        }),
    }
}

/// Whether some row has `id` as its parent.
pub open spec fn has_children(nodes: Seq<Node>, id: NodeId) -> bool {
    exists|k: int| 0 <= k < nodes.len() && #[trigger] nodes[k].parent_id == Some(id)
}

/// The row that `insert` stores for `payload` under `parent`.
pub open spec fn created_node(id: NodeId, owner: UserId, parent: Option<NodeId>, payload: NewNodePayload) -> Node {
    let n = new_node_of(payload, parent, owner);
    Node {
        node_id: id,
        node_name: n.node_name,
        parent_id: n.parent_id,
        parent_is_directory: n.parent_is_directory,
        owner_id: n.owner_id,
        is_directory: n.is_directory,
        content: n.content,
    }
}

/// Why `insert` refuses, in the order it checks: the parent path names no
/// scope; the parent is not a directory; a leaf without content; a sibling
/// of that name; no id left.
pub open spec fn insert_error(
    nodes: Seq<Node>,
    next: i32,
    owner: UserId,
    parent_path: Seq<NodeName>,
    payload: NewNodePayload,
) -> Option<BackendError> {
    match resolve_scope(nodes, owner, parent_path) {
        None => Some(BackendError::NotFound),
        Some(parent) => if parent matches Some(pid) && !is_directory_of(nodes, owner, pid) {
            Some(BackendError::InvalidValue)
        } else if !payload_valid(payload) {
            Some(BackendError::InvalidValue)
        } else if sibling_taken(nodes, owner, parent, payload.name@, -1) {
            Some(BackendError::Conflict)
        } else if next == i32::MAX {
            Some(BackendError::StorageFull)
        } else {
            None
        },
    }
}

/// Why a content change of `n` is refused: a directory (as given, or as
/// stored), or no row with its id.
pub open spec fn content_error(nodes: Seq<Node>, n: Node) -> Option<BackendError> {
    if n.is_directory {
        Some(BackendError::InvalidValue)
    } else {
        match row_of(nodes, n.node_id) {
            None => Some(BackendError::NotFound),
            Some(i) => if nodes[i].is_directory {
                Some(BackendError::InvalidValue)
            } else {
                None
            },
        }
    }
}

/// Why a rename of the row of `id` is refused: no such row, or a sibling
/// that already has the name.
pub open spec fn rename_error(nodes: Seq<Node>, id: NodeId, name: Seq<char>) -> Option<BackendError> {
    match row_of(nodes, id) {
        None => Some(BackendError::NotFound),
        Some(i) => if sibling_taken(nodes, nodes[i].owner_id, nodes[i].parent_id, name, i) {
            Some(BackendError::Conflict)
        } else {
            None
        },
    }
}

/// Why moving the row of `id` under `dest` (`None`: to the root scope) is
/// refused: either row missing; the destination is no directory of the same
/// owner, or is the node itself or lies below it; a sibling of that name
/// under the destination.
pub open spec fn move_error(nodes: Seq<Node>, id: NodeId, dest: Option<NodeId>) -> Option<BackendError> {
    match row_of(nodes, id) {
        None => Some(BackendError::NotFound),
        Some(i) => match dest {
            None => if sibling_taken(nodes, nodes[i].owner_id, None, nodes[i].node_name@, i) {
                Some(BackendError::Conflict)
            } else {
                None
            },
            Some(d) => match row_of(nodes, d) {
                None => Some(BackendError::NotFound),
                Some(j) => if !nodes[j].is_directory || nodes[j].owner_id != nodes[i].owner_id {
                    Some(BackendError::InvalidValue)
                } else if below(nodes, dest, id) {
                    Some(BackendError::InvalidValue)
                } else if sibling_taken(nodes, nodes[i].owner_id, dest, nodes[i].node_name@, i) {
                    Some(BackendError::Conflict)
                } else {
                    None
                },
            },
        },
    }
}

/// Why deleting the row of `id` is refused: no such row, or it still has
/// children (a directory is deleted only once it is empty).
pub open spec fn delete_error(nodes: Seq<Node>, id: NodeId) -> Option<BackendError> {
    match row_of(nodes, id) {
        None => Some(BackendError::NotFound),
        Some(i) => if has_children(nodes, id) {
            Some(BackendError::Conflict)
        } else {
            None
        },
    }
}

/// The text a node holds, if any.
pub open spec fn content_text(n: Node) -> Option<Seq<char>> {
    match n.content {
        Some(c) => Some(c@),
        None => None,
    }
}

/// `n` with its content replaced.
pub open spec fn with_content(n: Node, c: String) -> Node {
    Node { content: Some(c), ..n }
}

/// `n` with its name replaced.
pub open spec fn with_name(n: Node, name: String) -> Node {
    Node { node_name: name, ..n }
}

/// `n` moved under `dest`.
pub open spec fn with_parent(n: Node, dest: Option<NodeId>) -> Node {
    Node { parent_id: dest, parent_is_directory: parent_flag(dest), ..n }
}

/// Only the node table and its counter differ between `a` and `b`.
pub open spec fn same_except_nodes(a: Database, b: Database) -> bool {
    &&& a.users == b.users
    &&& a.notebooks == b.notebooks
    &&& a.sections == b.sections
    &&& a.pages == b.pages
    &&& a.next_user_id == b.next_user_id
    &&& a.next_notebook_id == b.next_notebook_id
    &&& a.next_section_id == b.next_section_id
    &&& a.next_page_id == b.next_page_id
}

/// Whether a row other than `except` is the child named `name` of `parent`.
pub fn find_sibling(nodes: &Vec<Node>, owner: UserId, parent: Option<NodeId>, name: &str, except: usize) -> (r: bool)
    ensures
        r == sibling_taken(nodes@, owner, parent, name@, except as int),
{
    let mut i: usize = 0;
    while i < nodes.len()
        invariant
            i <= nodes.len(),
            forall|j: int| 0 <= j < i && j != except ==> !is_child(#[trigger] nodes@[j], owner, parent, name@),
        decreases nodes.len() - i,
    {
        let n = &nodes[i];
        if i != except && n.owner_id == owner && n.parent_id == parent && str_eq(n.node_name.as_str(), name) {
            assert(is_child(nodes@[i as int], owner, parent, name@));
            return true;
        }
        i = i + 1;
    }
    false
}

/// Whether some row has `id` as its parent.
pub fn find_child_of(nodes: &Vec<Node>, id: NodeId) -> (r: bool)
    ensures
        r == has_children(nodes@, id),
{
    let mut i: usize = 0;
    while i < nodes.len()
        invariant
            i <= nodes.len(),
            forall|k: int| 0 <= k < i ==> #[trigger] nodes@[k].parent_id != Some(id),
        decreases nodes.len() - i,
    {
        if nodes[i].parent_id == Some(id) {
            return true;
        }
        i = i + 1;
    }
    false
}

/// Whether walking up from `from` by parent links meets `target` after
/// some number of steps: `from` is `target` or lies below it.
pub open spec fn below(nodes: Seq<Node>, from: Option<NodeId>, target: NodeId) -> bool {
    exists|f: nat| #[trigger] reaches(nodes, from, target, f)
}

/// Whether walking up from `from` by parent links ends at the root scope
/// within `fuel` steps.
pub open spec fn rooted(nodes: Seq<Node>, from: Option<NodeId>, fuel: nat) -> bool
    decreases fuel,
{
    match from {
        None => true,
        Some(id) => fuel > 0 && match row_of(nodes, id) {
            None => false,
            Some(k) => rooted(nodes, nodes[k].parent_id, (fuel - 1) as nat),
        },
    }
}

/// Whether the chain of parents above the node `id` ends at the root scope.
pub open spec fn node_rooted(nodes: Seq<Node>, id: NodeId) -> bool {
    exists|f: nat| #[trigger] rooted(nodes, Some(id), f)
}

/// One step up: below a node that is not the target means below its parent.
pub proof fn lemma_below_step(nodes: Seq<Node>, id: NodeId, target: NodeId, k: int)
    requires
        id != target,
        row_of(nodes, id) == Some(k),
    ensures
        below(nodes, Some(id), target) == below(nodes, nodes[k].parent_id, target),
{
    if below(nodes, Some(id), target) {
        let f = choose|f: nat| #[trigger] reaches(nodes, Some(id), target, f);
        assert(reaches(nodes, nodes[k].parent_id, target, (f - 1) as nat));
    }
    if below(nodes, nodes[k].parent_id, target) {
        let f = choose|f: nat| #[trigger] reaches(nodes, nodes[k].parent_id, target, f);
        assert(reaches(nodes, Some(id), target, f + 1));
    }
}

/// More fuel does not hurt.
pub proof fn lemma_rooted_more(nodes: Seq<Node>, from: Option<NodeId>, f: nat, e: nat)
    requires
        rooted(nodes, from, f),
    ensures
        rooted(nodes, from, f + e),
    decreases f,
{
    if let Some(id) = from {
        let k = row_of(nodes, id)->Some_0;
        lemma_rooted_more(nodes, nodes[k].parent_id, (f - 1) as nat, e);
        assert((f + e - 1) as nat == (f - 1) as nat + e);
    }
}

/// A walk up through rows that keep their ids and parents in `b` walks the
/// same way there.
pub proof fn lemma_rooted_frame(a: Seq<Node>, b: Seq<Node>, from: Option<NodeId>, f: nat)
    requires
        rooted(a, from, f),
        forall|y: NodeId|
            #[trigger] row_of(a, y) is Some ==> row_of(b, y) is Some && 0 <= row_of(b, y)->Some_0 < b.len()
                && b[row_of(b, y)->Some_0].parent_id == a[row_of(a, y)->Some_0].parent_id,
    ensures
        rooted(b, from, f),
    decreases f,
{
    if let Some(id) = from {
        let k = row_of(a, id)->Some_0;
        assert(row_of(a, id) is Some);
        lemma_rooted_frame(a, b, a[k].parent_id, (f - 1) as nat);
    }
}

/// A walk up that never meets the node `e` walks the same way in `b`, where
/// every other row keeps its id and parent.
pub proof fn lemma_rooted_avoiding(a: Seq<Node>, b: Seq<Node>, e: NodeId, from: Option<NodeId>, f: nat)
    requires
        rooted(a, from, f),
        !below(a, from, e),
        forall|y: NodeId|
            y != e && #[trigger] row_of(a, y) is Some ==> row_of(b, y) is Some && 0 <= row_of(b, y)->Some_0
                < b.len() && b[row_of(b, y)->Some_0].parent_id == a[row_of(a, y)->Some_0].parent_id,
    ensures
        rooted(b, from, f),
    decreases f,
{
    if let Some(id) = from {
        assert(reaches(a, from, e, 0) == (id == e));
        let k = row_of(a, id)->Some_0;
        lemma_below_step(a, id, e, k);
        assert(row_of(a, id) is Some);
        lemma_rooted_avoiding(a, b, e, a[k].parent_id, (f - 1) as nat);
    }
}

/// Replacing a row by one with the same id leaves every row lookup as it was.
pub proof fn lemma_row_from_update(nodes: Seq<Node>, i: int, x: Node, id: NodeId, k: int)
    requires
        0 <= i < nodes.len(),
        0 <= k,
        x.node_id == nodes[i].node_id,
    ensures
        row_from(nodes.update(i, x), id, k) == row_from(nodes, id, k),
    decreases nodes.len() - k,
{
    if k < nodes.len() {
        lemma_row_from_update(nodes, i, x, id, k + 1);
    }
}

/// With unique ids, a row other than `i` is found at its shifted position
/// once row `i` is removed.
pub proof fn lemma_row_of_remove(nodes: Seq<Node>, next: i32, i: int, y: NodeId)
    requires
        nodes_wf(nodes, next),
        0 <= i < nodes.len(),
        row_of(nodes, y) matches Some(k) && k != i,
    ensures
        row_of(nodes.remove(i), y) == Some(
            if row_of(nodes, y)->Some_0 < i {
                row_of(nodes, y)->Some_0
            } else {
                row_of(nodes, y)->Some_0 - 1
            },
        ),
{
    let k = row_of(nodes, y)->Some_0;
    let m = nodes.remove(i);
    lemma_row_from(nodes, y, 0);
    let sk = if k < i { k } else { k - 1 };
    assert(m[sk] == nodes[k]);
    lemma_row_from(m, y, 0);
    if let Some(j) = row_from(m, y, 0) {
        let uj = if j < i { j } else { j + 1 };
        assert(m[j] == nodes[uj]);
    }
}

/// No walk up from a node other than `e` meets `e` where `e` has no
/// children.
pub proof fn lemma_not_below_childless(nodes: Seq<Node>, y: NodeId, e: NodeId, f: nat)
    requires
        y != e,
        !has_children(nodes, e),
    ensures
        !reaches(nodes, Some(y), e, f),
    decreases f,
{
    if f > 0 {
        if let Some(k) = row_of(nodes, y) {
            lemma_row_from(nodes, y, 0);
            if let Some(p) = nodes[k].parent_id {
                if p == e {
                    assert(nodes[k].parent_id == Some(e));
                    assert(has_children(nodes, e));
                } else {
                    lemma_not_below_childless(nodes, p, e, (f - 1) as nat);
                }
            } else {
                assert(!reaches(nodes, None, e, (f - 1) as nat));
            }
        }
    }
}

/// A walk up in the store where row `i` became `x` (same id) ends at the
/// root scope, given that it ends there from the node `x` itself.
pub proof fn lemma_rooted_through(a: Seq<Node>, i: int, x: Node, from: Option<NodeId>, f: nat, fd: nat)
    requires
        0 <= i < a.len(),
        x.node_id == a[i].node_id,
        rooted(a.update(i, x), Some(x.node_id), fd),
        rooted(a, from, f),
    ensures
        rooted(a.update(i, x), from, f + fd),
    decreases f,
{
    let b = a.update(i, x);
    if let Some(y) = from {
        if y == x.node_id {
            lemma_rooted_more(b, from, fd, f);
        } else {
            let k = row_of(a, y)->Some_0;
            lemma_row_from(a, y, 0);
            lemma_row_from_update(a, i, x, y, 0);
            assert(k != i);
            assert(b[k] == a[k]);
            lemma_rooted_through(a, i, x, a[k].parent_id, (f - 1) as nat, fd);
            assert((f + fd - 1) as nat == (f - 1) as nat + fd);
        }
    }
}

/// Appending a fresh row under an existing parent keeps every chain of
/// parents ending at the root scope.
pub proof fn lemma_rooted_after_push(a: Seq<Node>, next: i32, n: Node)
    requires
        nodes_wf(a, next),
        row_of(a, n.node_id) is None,
        n.parent_id matches Some(p) ==> row_of(a, p) is Some,
    ensures
        forall|r: int| 0 <= r < a.len() + 1 ==> node_rooted(a.push(n), #[trigger] a.push(n)[r].node_id),
{
    let b = a.push(n);
    assert forall|y: NodeId| #[trigger] row_of(a, y) is Some implies row_of(b, y) is Some && 0 <= row_of(b, y)->Some_0
        < b.len() && b[row_of(b, y)->Some_0].parent_id == a[row_of(a, y)->Some_0].parent_id by {
        lemma_row_from_push(a, n, y, 0);
        lemma_row_from(a, y, 0);
    }
    lemma_row_from_push(a, n, n.node_id, 0);
    assert(b[a.len() as int] == n);
    if let Some(p) = n.parent_id {
        let k = row_of(a, p)->Some_0;
        lemma_row_from(a, p, 0);
        assert(node_rooted(a, a[k].node_id));
        let f = choose|f: nat| #[trigger] rooted(a, Some(p), f);
        lemma_rooted_frame(a, b, Some(p), f);
        assert(rooted(b, Some(n.node_id), f + 1));
    } else {
        assert(rooted(b, None, 0));
        assert(rooted(b, Some(n.node_id), 1));
    }
    assert(node_rooted(b, n.node_id));
    assert forall|r: int| 0 <= r < a.len() + 1 implies node_rooted(b, #[trigger] b[r].node_id) by {
        if r < a.len() {
            assert(b[r] == a[r]);
            assert(node_rooted(a, a[r].node_id));
            let f = choose|f: nat| #[trigger] rooted(a, Some(a[r].node_id), f);
            lemma_rooted_frame(a, b, Some(a[r].node_id), f);
        } else {
            assert(b[r] == n);
        }
    }
}

/// Replacing a row by one with the same id and parent keeps every chain of
/// parents ending at the root scope.
pub proof fn lemma_rooted_after_update(a: Seq<Node>, next: i32, i: int, x: Node)
    requires
        nodes_wf(a, next),
        0 <= i < a.len(),
        x.node_id == a[i].node_id,
        x.parent_id == a[i].parent_id,
    ensures
        forall|r: int| 0 <= r < a.len() ==> node_rooted(a.update(i, x), #[trigger] a.update(i, x)[r].node_id),
{
    let b = a.update(i, x);
    assert forall|y: NodeId| #[trigger] row_of(a, y) is Some implies row_of(b, y) is Some && 0 <= row_of(b, y)->Some_0
        < b.len() && b[row_of(b, y)->Some_0].parent_id == a[row_of(a, y)->Some_0].parent_id by {
        lemma_row_from_update(a, i, x, y, 0);
        lemma_row_from(a, y, 0);
    }
    assert forall|r: int| 0 <= r < a.len() implies node_rooted(b, #[trigger] b[r].node_id) by {
        assert(b[r].node_id == a[r].node_id);
        assert(node_rooted(a, a[r].node_id));
        let f = choose|f: nat| #[trigger] rooted(a, Some(a[r].node_id), f);
        lemma_rooted_frame(a, b, Some(a[r].node_id), f);
    }
}

/// Moving row `i` under `dest`, which is not the node nor lies below it,
/// keeps every chain of parents ending at the root scope.
pub proof fn lemma_rooted_after_move(a: Seq<Node>, next: i32, i: int, dest: Option<NodeId>)
    requires
        nodes_wf(a, next),
        0 <= i < a.len(),
        dest matches Some(d) ==> row_of(a, d) is Some && !below(a, dest, a[i].node_id),
    ensures
        forall|r: int|
            0 <= r < a.len() ==> node_rooted(
                a.update(i, with_parent(a[i], dest)),
                #[trigger] a.update(i, with_parent(a[i], dest))[r].node_id,
            ),
{
    let x = with_parent(a[i], dest);
    let b = a.update(i, x);
    let e = a[i].node_id;
    lemma_row_from(a, e, 0);
    assert(row_of(a, e) == Some(i));
    lemma_row_from_update(a, i, x, e, 0);
    assert forall|y: NodeId| y != e && #[trigger] row_of(a, y) is Some implies row_of(b, y) is Some && 0 <= row_of(
        b,
        y,
    )->Some_0 < b.len() && b[row_of(b, y)->Some_0].parent_id == a[row_of(a, y)->Some_0].parent_id by {
        lemma_row_from_update(a, i, x, y, 0);
        lemma_row_from(a, y, 0);
    }
    assert(b[i] == x);
    if let Some(d) = dest {
        let k = row_of(a, d)->Some_0;
        lemma_row_from(a, d, 0);
        assert(node_rooted(a, a[k].node_id));
        let f = choose|f: nat| #[trigger] rooted(a, Some(d), f);
        lemma_rooted_avoiding(a, b, e, dest, f);
        assert(rooted(b, Some(x.node_id), f + 1));
    } else {
        assert(rooted(b, None, 0));
        assert(rooted(b, Some(x.node_id), 1));
    }
    assert(node_rooted(b, x.node_id));
    let fd = choose|f: nat| #[trigger] rooted(b, Some(x.node_id), f);
    assert forall|r: int| 0 <= r < a.len() implies node_rooted(b, #[trigger] b[r].node_id) by {
        assert(b[r].node_id == a[r].node_id);
        assert(node_rooted(a, a[r].node_id));
        let f = choose|f: nat| #[trigger] rooted(a, Some(a[r].node_id), f);
        lemma_rooted_through(a, i, x, Some(a[r].node_id), f, fd);
    }
}

/// Removing a row without children keeps every chain of parents ending at
/// the root scope.
pub proof fn lemma_rooted_after_remove(a: Seq<Node>, next: i32, i: int)
    requires
        nodes_wf(a, next),
        0 <= i < a.len(),
        !has_children(a, a[i].node_id),
    ensures
        forall|r: int| 0 <= r < a.len() - 1 ==> node_rooted(a.remove(i), #[trigger] a.remove(i)[r].node_id),
{
    let m = a.remove(i);
    let e = a[i].node_id;
    assert forall|y: NodeId| y != e && #[trigger] row_of(a, y) is Some implies row_of(m, y) is Some && 0 <= row_of(
        m,
        y,
    )->Some_0 < m.len() && m[row_of(m, y)->Some_0].parent_id == a[row_of(a, y)->Some_0].parent_id by {
        lemma_row_from(a, y, 0);
        let k = row_of(a, y)->Some_0;
        assert(k != i);
        lemma_row_of_remove(a, next, i, y);
        let sk = if k < i { k } else { k - 1 };
        assert(m[sk] == a[k]);
    }
    assert forall|r: int| 0 <= r < a.len() - 1 implies node_rooted(m, #[trigger] m[r].node_id) by {
        let orr = if r < i { r } else { r + 1 };
        assert(m[r] == a[orr]);
        let y = a[orr].node_id;
        assert(y != e);
        assert(node_rooted(a, y));
        let f = choose|f: nat| #[trigger] rooted(a, Some(y), f);
        assert forall|g: nat| !#[trigger] reaches(a, Some(y), e, g) by {
            lemma_not_below_childless(a, y, e, g);
        }
        lemma_rooted_avoiding(a, m, e, Some(y), f);
    }
}

/// A walk up from a node whose owner is not `u` walks the same way once the
/// nodes of `u` are dropped (a parent has the same owner as its child).
pub proof fn lemma_rooted_without_owner(a: Seq<Node>, next: i32, o: Seq<Node>, u: UserId, from: Option<NodeId>, f: nat)
    requires
        nodes_wf(a, next),
        forall|p: int, q: int|
            0 <= p < o.len() && 0 <= q < o.len() && p != q ==> #[trigger] o[p].node_id != #[trigger] o[q].node_id,
        forall|k: int| 0 <= k < a.len() && a[k].owner_id != u ==> o.contains(#[trigger] a[k]),
        rooted(a, from, f),
        from matches Some(y) ==> row_of(a, y) is Some && a[row_of(a, y)->Some_0].owner_id != u,
    ensures
        rooted(o, from, f),
    decreases f,
{
    if let Some(y) = from {
        let k = row_of(a, y)->Some_0;
        lemma_row_from(a, y, 0);
        assert(o.contains(a[k]));
        let b = choose|b: int| 0 <= b < o.len() && o[b] == a[k];
        lemma_row_from(o, y, 0);
        assert(row_of(o, y) == Some(b));
        if let Some(pp) = a[k].parent_id {
            assert(parent_present(a, a[k]));
            let jj = choose|jj: int|
                0 <= jj < a.len() && #[trigger] a[jj].node_id == pp && a[jj].is_directory && a[jj].owner_id
                    == a[k].owner_id;
            lemma_row_from(a, pp, 0);
            assert(row_of(a, pp) == Some(jj));
        }
        lemma_rooted_without_owner(a, next, o, u, a[k].parent_id, (f - 1) as nat);
    }
}

/// A walk that ends at the root scope from `from` ends there from every
/// node it passes.
pub proof fn lemma_rooted_passing(nodes: Seq<Node>, from: Option<NodeId>, t: NodeId, f: nat, g: nat)
    requires
        rooted(nodes, from, f),
        reaches(nodes, from, t, g),
    ensures
        rooted(nodes, Some(t), f),
    decreases g,
{
    if let Some(y) = from {
        if y != t {
            let k = row_of(nodes, y)->Some_0;
            lemma_rooted_passing(nodes, nodes[k].parent_id, t, (f - 1) as nat, (g - 1) as nat);
            lemma_rooted_more(nodes, Some(t), (f - 1) as nat, 1);
        }
    }
}

proof fn lemma_not_rooted_on_cycle(nodes: Seq<Node>, i: int, f: nat)
    requires
        0 <= i < nodes.len(),
        row_of(nodes, nodes[i].node_id) == Some(i),
        below(nodes, nodes[i].parent_id, nodes[i].node_id),
    ensures
        !rooted(nodes, Some(nodes[i].node_id), f),
    decreases f,
{
    if f > 0 {
        lemma_not_rooted_on_cycle(nodes, i, (f - 1) as nat);
        if rooted(nodes, Some(nodes[i].node_id), f) {
            let g = choose|g: nat| #[trigger] reaches(nodes, nodes[i].parent_id, nodes[i].node_id, g);
            lemma_rooted_passing(nodes, nodes[i].parent_id, nodes[i].node_id, (f - 1) as nat, g);
        }
    }
}

/// No node lies below itself: the parent relation has no cycle.
pub proof fn lemma_no_node_below_itself(nodes: Seq<Node>, next: i32, i: int)
    requires
        nodes_wf(nodes, next),
        0 <= i < nodes.len(),
    ensures
        !below(nodes, nodes[i].parent_id, nodes[i].node_id),
{
    lemma_row_from(nodes, nodes[i].node_id, 0);
    assert(row_of(nodes, nodes[i].node_id) == Some(i));
    if below(nodes, nodes[i].parent_id, nodes[i].node_id) {
        assert(node_rooted(nodes, nodes[i].node_id));
        let f = choose|f: nat| #[trigger] rooted(nodes, Some(nodes[i].node_id), f);
        lemma_not_rooted_on_cycle(nodes, i, f);
    }
}

/// A path that passes through the node `x` names a node at or below `x`.
pub proof fn lemma_chain_below(nodes: Seq<Node>, next: i32, owner: UserId, path: Seq<NodeName>, x: NodeId)
    requires
        nodes_wf(nodes, next),
        resolve_scope(nodes, owner, path) matches Some(Some(_)),
        chain_has(nodes, owner, path, x),
    ensures
        below(nodes, resolve_scope(nodes, owner, path)->Some_0, x),
    decreases path.len(),
{
    let q = path.drop_last();
    let s = resolve_scope(nodes, owner, q)->Some_0;
    let p = resolve_scope(nodes, owner, path)->Some_0->Some_0;
    lemma_child_from(nodes, owner, s, path.last()@, 0);
    let c = child_from(nodes, owner, s, path.last()@, 0)->Some_0;
    lemma_row_from(nodes, p, 0);
    assert(row_of(nodes, p) == Some(c));
    if p == x {
        assert(reaches(nodes, Some(p), x, 0));
    } else {
        assert(chain_has(nodes, owner, q, x));
        assert(q.len() > 0);
        assert(s is Some);
        lemma_chain_below(nodes, next, owner, q, x);
        let g = choose|g: nat| #[trigger] reaches(nodes, s, x, g);
        assert(reaches(nodes, Some(p), x, g + 1));
    }
}

/// Whether `from` is `target` or lies below it. The chain of parents above
/// `from` ends at the root scope, so the walk ends.
pub fn is_within(nodes: &Vec<Node>, from: Option<NodeId>, target: NodeId) -> (r: bool)
    requires
        from matches Some(d) ==> node_rooted(nodes@, d),
    ensures
        r == below(nodes@, from, target),
{
    let ghost mut g: nat = if let Some(d) = from {
        choose|f: nat| #[trigger] rooted(nodes@, Some(d), f)
    } else {
        0
    };
    let mut cur = from;
    loop
        invariant
            rooted(nodes@, cur, g),
            below(nodes@, from, target) == below(nodes@, cur, target),
        decreases g,
    {
        match cur {
            None => {
                assert forall|f: nat| !#[trigger] reaches(nodes@, None, target, f) by {}
                return false;
            },
            Some(id) => {
                if id == target {
                    assert(reaches(nodes@, cur, target, 0));
                    return true;
                }
                match find_row(nodes, id) {
                    None => {
                        assert forall|f: nat| !#[trigger] reaches(nodes@, cur, target, f) by {}
                        return false;
                    },
                    Some(k) => {
                        proof {
                            lemma_below_step(nodes@, id, target, k as int);
                            g = (g - 1) as nat;
                        }
                        cur = nodes[k].parent_id;
                    },
                }
            },
        }
    }
}

impl Node {
    /// Inserts a node for `payload` under the directory that `parent_path`
    /// names (the root scope where it is empty) and returns it. An owner that
    /// is no stored user is `NotFound`. The new node is then what
    /// `parent_path` followed by its name resolves to.
    pub fn insert(db: &mut Database, owner_id: &UserId, parent_path: &[NodeName], payload: &NewNodePayload) -> (r:
        BackendResult<Node>)
        requires
            old(db).wf(),
        ensures
            final(db).wf(),
            same_except_nodes(*final(db), *old(db)),
            user_index_from(old(db).users@, *owner_id, 0) is None ==> r == Err::<Node, BackendError>(
                BackendError::NotFound,
            ) && *final(db) == *old(db),
            user_index_from(old(db).users@, *owner_id, 0) is Some ==> match insert_error(
                old(db).nodes@,
                old(db).next_node_id,
                *owner_id,
                parent_path@,
                *payload,
            ) {
                Some(e) => r == Err::<Node, BackendError>(e) && *final(db) == *old(db),
                None => r matches Ok(n) && n == created_node(
                    old(db).next_node_id,
                    *owner_id,
                    resolve_scope(old(db).nodes@, *owner_id, parent_path@)->Some_0,
                    *payload,
                ) && final(db).nodes@ == old(db).nodes@.push(n) && final(db).next_node_id
                    == old(db).next_node_id + 1 && node_at_path(
                    final(db).nodes@,
                    *owner_id,
                    parent_path@.push(payload.name),
                ) == Some(n),
            },
    {
        let u = match find_user_by_id(&db.users, *owner_id) {
            Some(u) => u,
            None => {
                return Err(BackendError::NotFound);
            },
        };
        proof {
            lemma_user_index_from_is_match(db.users@, *owner_id, 0);
            assert(db.users@[u as int].id == *owner_id);
        }
        let parent_id: Option<NodeId> = if parent_path.len() == 0 {
            None
        } else {
            let pid = Self::fetch_id_by_path_for_user(db, owner_id, parent_path)?;
            Some(pid)
        };
        if let Some(pid) = parent_id {
            match find_row(&db.nodes, pid) {
                Some(k) => {
                    if !db.nodes[k].is_directory || db.nodes[k].owner_id != *owner_id {
                        return Err(BackendError::InvalidValue);
                    }
                },
                None => {
                    return Err(BackendError::InvalidValue);
                },
            }
        }
        let parent_ref: Option<&NodeId> = match &parent_id {
            Some(id) => Some(id),
            None => None,
        };
        let new_node = NewNode::new(payload, parent_ref, owner_id)?;
        if find_sibling(&db.nodes, *owner_id, parent_id, payload.name.as_str(), db.nodes.len()) {
            return Err(BackendError::Conflict);
        }
        if db.next_node_id == i32::MAX {
            return Err(BackendError::StorageFull);
        }
        let node = Node {
            node_id: db.next_node_id,
            node_name: new_node.node_name,
            parent_id: new_node.parent_id,
            parent_is_directory: new_node.parent_is_directory,
            owner_id: new_node.owner_id,
            is_directory: new_node.is_directory,
            content: new_node.content,
        };
        let ghost old_nodes = db.nodes@;
        let ghost path = parent_path@.push(payload.name);
        proof {
            lemma_row_from(old_nodes, node.node_id, 0);
            lemma_row_from_push(old_nodes, node, node.node_id, 0);
            assert(path.drop_last() =~= parent_path@);
            lemma_resolve_scope_push(old_nodes, node, *owner_id, parent_path@);
            lemma_child_from(old_nodes, *owner_id, parent_id, payload.name@, 0);
            lemma_child_from_push(old_nodes, node, *owner_id, parent_id, payload.name@, 0);
            lemma_rooted_after_push(old_nodes, db.next_node_id, node);
        }
        db.nodes.push(node.clone());
        db.next_node_id = db.next_node_id + 1;
        proof {
            let nodes = db.nodes@;
            assert(nodes[old_nodes.len() as int] == node);
            assert forall|i: int, j: int|
                0 <= i < nodes.len() && 0 <= j < nodes.len() && i != j && #[trigger] nodes[i].owner_id
                    == #[trigger] nodes[j].owner_id && nodes[i].parent_id == nodes[j].parent_id
                    implies nodes[i].node_name@ != nodes[j].node_name@ by {
                if i == old_nodes.len() {
                    assert(old_nodes[j] == nodes[j]);
                } else if j == old_nodes.len() {
                    assert(old_nodes[i] == nodes[i]);
                } else {
                    assert(old_nodes[i] == nodes[i] && old_nodes[j] == nodes[j]);
                }
            }
            assert(resolve_scope(nodes, *owner_id, path) == Some(Some(node.node_id)));
            assert forall|a: int| 0 <= a < nodes.len() implies owner_known(db.users@, #[trigger] nodes[a].owner_id) by {
                if a < old_nodes.len() {
                    assert(nodes[a] == old_nodes[a]);
                }
            }
            assert forall|a: int| 0 <= a < nodes.len() implies parent_present(nodes, #[trigger] nodes[a]) by {
                if a < old_nodes.len() {
                    assert(nodes[a] == old_nodes[a]);
                    assert(parent_present(old_nodes, old_nodes[a]));
                    if let Some(p) = old_nodes[a].parent_id {
                        let j = choose|j: int|
                            0 <= j < old_nodes.len() && #[trigger] old_nodes[j].node_id == p && old_nodes[j].is_directory
                                && old_nodes[j].owner_id == old_nodes[a].owner_id;
                        assert(nodes[j] == old_nodes[j]);
                    }
                } else if let Some(p) = parent_id {
                    let k = row_of(old_nodes, p)->Some_0;
                    lemma_row_from(old_nodes, p, 0);
                    assert(nodes[k] == old_nodes[k]);
                }
            }
        }
        Ok(node)
    }
}


impl Node {
    /// Replaces the content of this node's row and returns the node with the
    /// new content. A directory is `InvalidValue`; a vanished row `NotFound`.
    pub fn change_content(self, db: &mut Database, new_content: &str) -> (r: BackendResult<Node>)
        requires
            old(db).wf(),
        ensures
            final(db).wf(),
            same_except_nodes(*final(db), *old(db)),
            final(db).next_node_id == old(db).next_node_id,
            match content_error(old(db).nodes@, self) {
                Some(e) => r == Err::<Node, BackendError>(e) && *final(db) == *old(db),
                None => r matches Ok(n) && n.content matches Some(c) && c@ == new_content@
                    && n == with_content(self, c) && final(db).nodes@ == old(db).nodes@.update(
                    row_of(old(db).nodes@, self.node_id)->Some_0,
                    with_content(old(db).nodes@[row_of(old(db).nodes@, self.node_id)->Some_0], c),
                ),
            },
    {
        if self.is_directory {
            return Err(BackendError::InvalidValue);
        }
        let i = match find_row(&db.nodes, self.node_id) {
            Some(i) => i,
            None => {
                return Err(BackendError::NotFound);
            },
        };
        if db.nodes[i].is_directory {
            return Err(BackendError::InvalidValue);
        }
        let c = new_content.to_string();
        let ghost old_nodes = db.nodes@;
        let mut row = db.nodes[i].clone();
        row.content = Some(c.clone());
        proof {
            assert(parent_present(old_nodes, old_nodes[i as int]));
            lemma_parents_after_update(old_nodes, i as int, row);
            lemma_rooted_after_update(old_nodes, db.next_node_id, i as int, row);
        }
        db.nodes.set(i, row);
        proof {
            let nodes = db.nodes@;
            assert forall|a: int, b: int|
                0 <= a < nodes.len() && 0 <= b < nodes.len() && a != b && #[trigger] nodes[a].owner_id
                    == #[trigger] nodes[b].owner_id && nodes[a].parent_id == nodes[b].parent_id
                    implies nodes[a].node_name@ != nodes[b].node_name@ by {
                assert(old_nodes[a].node_name@ != old_nodes[b].node_name@);
            }
        }
        Ok(Node { content: Some(c), ..self })
    }

    /// Renames this node's row and returns the node with the new name. A
    /// sibling with that name is `Conflict`; a vanished row `NotFound`.
    pub fn change_name(self, db: &mut Database, new_name: &str) -> (r: BackendResult<Node>)
        requires
            old(db).wf(),
        ensures
            final(db).wf(),
            same_except_nodes(*final(db), *old(db)),
            final(db).next_node_id == old(db).next_node_id,
            match rename_error(old(db).nodes@, self.node_id, new_name@) {
                Some(e) => r == Err::<Node, BackendError>(e) && *final(db) == *old(db),
                None => r matches Ok(n) && n.node_name@ == new_name@ && n == with_name(self, n.node_name)
                    && final(db).nodes@ == old(db).nodes@.update(
                    row_of(old(db).nodes@, self.node_id)->Some_0,
                    with_name(old(db).nodes@[row_of(old(db).nodes@, self.node_id)->Some_0], n.node_name),
                ),
            },
    {
        let i = match find_row(&db.nodes, self.node_id) {
            Some(i) => i,
            None => {
                return Err(BackendError::NotFound);
            },
        };
        if find_sibling(&db.nodes, db.nodes[i].owner_id, db.nodes[i].parent_id, new_name, i) {
            return Err(BackendError::Conflict);
        }
        let name = new_name.to_string();
        let ghost old_nodes = db.nodes@;
        let mut row = db.nodes[i].clone();
        row.node_name = name.clone();
        proof {
            assert(parent_present(old_nodes, old_nodes[i as int]));
            lemma_parents_after_update(old_nodes, i as int, row);
            lemma_rooted_after_update(old_nodes, db.next_node_id, i as int, row);
        }
        db.nodes.set(i, row);
        proof {
            let nodes = db.nodes@;
            assert forall|a: int, b: int|
                0 <= a < nodes.len() && 0 <= b < nodes.len() && a != b && #[trigger] nodes[a].owner_id
                    == #[trigger] nodes[b].owner_id && nodes[a].parent_id == nodes[b].parent_id
                    implies nodes[a].node_name@ != nodes[b].node_name@ by {
                if a == i {
                    assert(is_child(old_nodes[b], old_nodes[a].owner_id, old_nodes[a].parent_id, new_name@) ==> sibling_taken(old_nodes, old_nodes[a].owner_id, old_nodes[a].parent_id, new_name@, i as int));
                } else if b == i {
                    assert(is_child(old_nodes[a], old_nodes[b].owner_id, old_nodes[b].parent_id, new_name@) ==> sibling_taken(old_nodes, old_nodes[b].owner_id, old_nodes[b].parent_id, new_name@, i as int));
                } else {
                    assert(old_nodes[a].node_name@ != old_nodes[b].node_name@);
                }
            }
        }
        Ok(Node { node_name: name, ..self })
    }

    /// Moves this node's row under `new_parent` (`None`: to the root scope)
    /// and returns the stored row. The destination must be a directory of the
    /// same owner that is neither the node nor below it (`InvalidValue`); a
    /// sibling with the node's name there is `Conflict`; a vanished row
    /// `NotFound`.
    pub fn change_parent(self, db: &mut Database, new_parent: Option<&Node>) -> (r: BackendResult<Node>)
        requires
            old(db).wf(),
        ensures
            final(db).wf(),
            same_except_nodes(*final(db), *old(db)),
            final(db).next_node_id == old(db).next_node_id,
            ({
                let dest = match new_parent {
                    Some(p) => Some(p.node_id),
                    None => None,
                };
                match move_error(old(db).nodes@, self.node_id, dest) {
                    Some(e) => r == Err::<Node, BackendError>(e) && *final(db) == *old(db),
                    None => {
                        let i = row_of(old(db).nodes@, self.node_id)->Some_0;
                        r == Ok::<Node, BackendError>(with_parent(old(db).nodes@[i], dest))
                            && final(db).nodes@ == old(db).nodes@.update(i, with_parent(old(db).nodes@[i], dest))
                    },
                }
            }),
    {
        let i = match find_row(&db.nodes, self.node_id) {
            Some(i) => i,
            None => {
                return Err(BackendError::NotFound);
            },
        };
        let dest: Option<NodeId> = match new_parent {
            Some(p) => Some(p.node_id),
            None => None,
        };
        if let Some(d) = dest {
            match find_row(&db.nodes, d) {
                None => {
                    return Err(BackendError::NotFound);
                },
                Some(j) => {
                    if !db.nodes[j].is_directory || db.nodes[j].owner_id != db.nodes[i].owner_id {
                        return Err(BackendError::InvalidValue);
                    }
                    proof {
                        lemma_row_from(db.nodes@, d, 0);
                        assert(db.nodes@[j as int].node_id == d);
                    }
                    if is_within(&db.nodes, dest, self.node_id) {
                        return Err(BackendError::InvalidValue);
                    }
                },
            }
        }
        if find_sibling(&db.nodes, db.nodes[i].owner_id, dest, db.nodes[i].node_name.as_str(), i) {
            return Err(BackendError::Conflict);
        }
        let ghost old_nodes = db.nodes@;
        let mut row = db.nodes[i].clone();
        row.parent_id = dest;
        row.parent_is_directory = if dest.is_some() {
            Some(true)
        } else {
            None
        };
        proof {
            if let Some(d) = dest {
                let k = row_of(old_nodes, d)->Some_0;
                lemma_row_from(old_nodes, d, 0);
                assert(old_nodes[k].node_id == d);
            }
            lemma_parents_after_update(old_nodes, i as int, row);
            lemma_row_from(old_nodes, self.node_id, 0);
            lemma_rooted_after_move(old_nodes, db.next_node_id, i as int, dest);
        }
        db.nodes.set(i, row.clone());
        proof {
            let nodes = db.nodes@;
            assert forall|a: int, b: int|
                0 <= a < nodes.len() && 0 <= b < nodes.len() && a != b && #[trigger] nodes[a].owner_id
                    == #[trigger] nodes[b].owner_id && nodes[a].parent_id == nodes[b].parent_id
                    implies nodes[a].node_name@ != nodes[b].node_name@ by {
                let nm = old_nodes[i as int].node_name@;
                let ow = old_nodes[i as int].owner_id;
                if a == i {
                    assert(is_child(old_nodes[b], ow, dest, nm) ==> sibling_taken(old_nodes, ow, dest, nm, i as int));
                } else if b == i {
                    assert(is_child(old_nodes[a], ow, dest, nm) ==> sibling_taken(old_nodes, ow, dest, nm, i as int));
                } else {
                    assert(old_nodes[a].node_name@ != old_nodes[b].node_name@);
                }
            }
        }
        Ok(row)
    }

    /// Deletes this node's row. A vanished row is `NotFound`; a node that
    /// still has children is `Conflict`: directories are deleted once empty.
    pub fn delete(self, db: &mut Database) -> (r: BackendResult<()>)
        requires
            old(db).wf(),
        ensures
            final(db).wf(),
            same_except_nodes(*final(db), *old(db)),
            final(db).next_node_id == old(db).next_node_id,
            match delete_error(old(db).nodes@, self.node_id) {
                Some(e) => r == Err::<(), BackendError>(e) && *final(db) == *old(db),
                None => r is Ok && final(db).nodes@ == old(db).nodes@.remove(
                    row_of(old(db).nodes@, self.node_id)->Some_0,
                ),
            },
    {
        let i = match find_row(&db.nodes, self.node_id) {
            Some(i) => i,
            None => {
                return Err(BackendError::NotFound);
            },
        };
        if find_child_of(&db.nodes, self.node_id) {
            return Err(BackendError::Conflict);
        }
        let ghost old_nodes = db.nodes@;
        proof {
            lemma_row_from(old_nodes, self.node_id, 0);
            lemma_parents_after_remove(old_nodes, i as int);
            lemma_rooted_after_remove(old_nodes, db.next_node_id, i as int);
        }
        db.nodes.remove(i);
        proof {
            let nodes = db.nodes@;
            assert forall|a: int| 0 <= a < nodes.len() implies #[trigger] nodes[a] == old_nodes[if a < i { a } else { a + 1 }] by {}
            assert forall|a: int, b: int|
                0 <= a < nodes.len() && 0 <= b < nodes.len() && a != b implies #[trigger] nodes[a].node_id
                    != #[trigger] nodes[b].node_id by {
                let oa = if a < i { a } else { a + 1 };
                let ob = if b < i { b } else { b + 1 };
                assert(nodes[a] == old_nodes[oa] && nodes[b] == old_nodes[ob]);
            }
            assert forall|a: int, b: int|
                0 <= a < nodes.len() && 0 <= b < nodes.len() && a != b && #[trigger] nodes[a].owner_id
                    == #[trigger] nodes[b].owner_id && nodes[a].parent_id == nodes[b].parent_id
                    implies nodes[a].node_name@ != nodes[b].node_name@ by {
                let oa = if a < i { a } else { a + 1 };
                let ob = if b < i { b } else { b + 1 };
                assert(nodes[a] == old_nodes[oa] && nodes[b] == old_nodes[ob]);
            }
        }
        Ok(())
    }
}


/// Moving a node under itself, or under a node below it, is refused as
/// `InvalidValue` whatever else holds of the destination.
pub proof fn lemma_move_under_itself_refused(nodes: Seq<Node>, id: NodeId, dest: NodeId)
    requires
        row_of(nodes, id) is Some,
        row_of(nodes, dest) is Some,
        below(nodes, Some(dest), id),
    ensures
        move_error(nodes, id, Some(dest)) == Some(BackendError::InvalidValue),
{
}

/// Once a node is created, creating another with the same name under the
/// same parent path for the same owner is refused as `Conflict`.
pub proof fn lemma_second_sibling_conflicts(
    nodes: Seq<Node>,
    next: i32,
    owner: UserId,
    parent_path: Seq<NodeName>,
    first: NewNodePayload,
    second: NewNodePayload,
)
    requires
        nodes_wf(nodes, next),
        insert_error(nodes, next, owner, parent_path, first) is None,
        payload_valid(second),
        second.name@ == first.name@,
    ensures
        insert_error(
            nodes.push(created_node(next, owner, resolve_scope(nodes, owner, parent_path)->Some_0, first)),
            (next + 1) as i32,
            owner,
            parent_path,
            second,
        ) == Some(BackendError::Conflict),
{
    let parent = resolve_scope(nodes, owner, parent_path)->Some_0;
    let n = created_node(next, owner, parent, first);
    let nodes2 = nodes.push(n);
    lemma_resolve_scope_push(nodes, n, owner, parent_path);
    if let Some(pid) = parent {
        lemma_row_from(nodes, pid, 0);
        lemma_row_from_push(nodes, n, pid, 0);
    }
    assert(nodes2[nodes.len() as int] == n);
    assert(is_child(nodes2[nodes.len() as int], owner, parent, second.name@));
}

/// A content change of a leaf that a path names is never refused, one of a
/// directory always is (`InvalidValue`), and making the same change twice
/// stores the same text as making it once.
pub proof fn lemma_content_change_laws(nodes: Seq<Node>, next: i32, owner: UserId, path: Seq<NodeName>, c1: String, c2: String)
    requires
        nodes_wf(nodes, next),
        node_at_path(nodes, owner, path) is Some,
        c1@ == c2@,
    ensures
        ({
            let n = node_at_path(nodes, owner, path)->Some_0;
            let i = row_of(nodes, n.node_id)->Some_0;
            let once = nodes.update(i, with_content(nodes[i], c1));
            &&& n.is_directory ==> content_error(nodes, n) == Some(BackendError::InvalidValue)
            &&& !n.is_directory ==> content_error(nodes, n) is None
            &&& !n.is_directory ==> content_error(once, with_content(n, c1)) is None
            &&& !n.is_directory ==> row_of(once, n.node_id) == Some(i)
            &&& once.update(i, with_content(once[i], c2)).len() == once.len()
            &&& forall|k: int|
                0 <= k < once.len() && k != i ==> #[trigger] once.update(i, with_content(once[i], c2))[k] == once[k]
            &&& content_text(once.update(i, with_content(once[i], c2))[i]) == content_text(once[i])
            &&& with_content(once.update(i, with_content(once[i], c2))[i], c1) == once[i]
        }),
{
    let n = node_at_path(nodes, owner, path)->Some_0;
    lemma_node_at_path(nodes, owner, path);
    let i = row_of(nodes, n.node_id)->Some_0;
    let once = nodes.update(i, with_content(nodes[i], c1));
    lemma_row_from(nodes, n.node_id, 0);
    lemma_row_from(once, n.node_id, 0);
    assert(once[i].node_id == n.node_id);
    if let Some(j) = row_of(once, n.node_id) {
        if j != i {
            assert(nodes[j].node_id == once[j].node_id);
        }
    }
}


/// Whether resolving `path` passes through the node `id`: some non-empty
/// prefix of it names that node.
pub open spec fn chain_has(nodes: Seq<Node>, owner: UserId, path: Seq<NodeName>, id: NodeId) -> bool
    decreases path.len(),
{
    path.len() > 0 && (chain_has(nodes, owner, path.drop_last(), id) || resolve_scope(nodes, owner, path) == Some(
        Some(id),
    ))
}

/// Replacing a row by one that matches a lookup exactly when the old row
/// did leaves the lookup's answer as it was.
pub proof fn lemma_child_from_update(
    nodes: Seq<Node>,
    i: int,
    x: Node,
    owner: UserId,
    parent: Option<NodeId>,
    name: Seq<char>,
    k: int,
)
    requires
        0 <= i < nodes.len(),
        0 <= k,
        is_child(nodes[i], owner, parent, name) == is_child(x, owner, parent, name),
    ensures
        child_from(nodes.update(i, x), owner, parent, name, k) == child_from(nodes, owner, parent, name, k),
    decreases nodes.len() - k,
{
    if k < nodes.len() {
        lemma_child_from_update(nodes, i, x, owner, parent, name, k + 1);
    }
}

/// Moving row `i` (to `x`, same id and owner) leaves the resolution of a
/// path unchanged where the path does not pass through the node and the
/// node takes no name that a sibling has.
pub proof fn lemma_resolve_after_move(nodes: Seq<Node>, next: i32, i: int, x: Node, owner: UserId, path: Seq<NodeName>)
    requires
        nodes_wf(nodes, next),
        0 <= i < nodes.len(),
        x.node_id == nodes[i].node_id,
        x.owner_id == nodes[i].owner_id,
        x.node_name == nodes[i].node_name,
        resolve_scope(nodes, owner, path) is Some,
        !chain_has(nodes, owner, path, nodes[i].node_id),
        !sibling_taken(nodes, x.owner_id, x.parent_id, x.node_name@, i),
    ensures
        resolve_scope(nodes.update(i, x), owner, path) == resolve_scope(nodes, owner, path),
    decreases path.len(),
{
    if path.len() > 0 {
        let q = path.drop_last();
        let m = path.last()@;
        lemma_resolve_after_move(nodes, next, i, x, owner, q);
        let p = resolve_scope(nodes, owner, q)->Some_0;
        lemma_child_from(nodes, owner, p, m, 0);
        let j = child_from(nodes, owner, p, m, 0)->Some_0;
        assert(j != i);
        assert(!is_child(nodes[i], owner, p, m));
        if is_child(x, owner, p, m) {
            assert(is_child(nodes[j], x.owner_id, x.parent_id, x.node_name@));
            assert(sibling_taken(nodes, x.owner_id, x.parent_id, x.node_name@, i));
        }
        lemma_child_from_update(nodes, i, x, owner, p, m, 0);
        assert(nodes.update(i, x)[j] == nodes[j]);
    }
}

/// Whether resolving `path` passes through the node `id`.
pub fn path_passes_through(nodes: &Vec<Node>, owner: UserId, path: &[NodeName], id: NodeId) -> (r: bool)
    requires
        resolve_scope(nodes@, owner, path@) is Some,
    ensures
        r == chain_has(nodes@, owner, path@, id),
{
    let mut node_id: Option<NodeId> = None;
    let mut found = false;
    let mut i: usize = 0;
    assert(path@.take(0) =~= Seq::<NodeName>::empty());
    while i < path.len()
        invariant
            i <= path@.len(),
            resolve_scope(nodes@, owner, path@) is Some,
            resolve_scope(nodes@, owner, path@.take(i as int)) == Some(node_id),
            found == chain_has(nodes@, owner, path@.take(i as int), id),
        decreases path.len() - i,
    {
        assert(path@.take(i + 1).drop_last() =~= path@.take(i as int));
        match find_child(nodes, owner, node_id, path[i].as_str()) {
            Some(k) => {
                node_id = Some(nodes[k].node_id);
                if nodes[k].node_id == id {
                    found = true;
                }
            },
            None => {
                proof {
                    lemma_resolve_scope_prefix(nodes@, owner, path@, i + 1);
                }
                assert(false);
            },
        }
        i = i + 1;
    }
    assert(path@.take(path@.len() as int) =~= path@);
    found
}


/// The names of a path as text.
pub open spec fn path_text(path: Seq<NodeName>) -> Seq<Seq<char>> {
    path.map_values(|n: NodeName| n@)
}

/// Two paths that name the same scope are the same names.
pub proof fn lemma_path_text_unique(nodes: Seq<Node>, next: i32, owner: UserId, p1: Seq<NodeName>, p2: Seq<NodeName>)
    requires
        nodes_wf(nodes, next),
        resolve_scope(nodes, owner, p1) is Some,
        resolve_scope(nodes, owner, p1) == resolve_scope(nodes, owner, p2),
    ensures
        path_text(p1) == path_text(p2),
    decreases p1.len(),
{
    if p1.len() == 0 || p2.len() == 0 {
        assert(p1.len() == 0 && p2.len() == 0);
        assert(path_text(p1) =~= path_text(p2));
    } else {
        let q1 = p1.drop_last();
        let q2 = p2.drop_last();
        let s1 = resolve_scope(nodes, owner, q1)->Some_0;
        let s2 = resolve_scope(nodes, owner, q2)->Some_0;
        lemma_child_from(nodes, owner, s1, p1.last()@, 0);
        lemma_child_from(nodes, owner, s2, p2.last()@, 0);
        let c1 = child_from(nodes, owner, s1, p1.last()@, 0)->Some_0;
        let c2 = child_from(nodes, owner, s2, p2.last()@, 0)->Some_0;
        assert(nodes[c1].node_id == nodes[c2].node_id);
        assert(c1 == c2);
        lemma_path_text_unique(nodes, next, owner, q1, q2);
        assert(path_text(p1) =~= path_text(q1).push(p1.last()@));
        assert(path_text(p2) =~= path_text(q2).push(p2.last()@));
    }
}

/// After a node is moved under `dest` (a move that no sibling name blocks,
/// to a destination whose path does not pass through the node), the
/// destination's path followed by the node's name resolves to the node; and
/// where its parent changed (as it does whenever the destination path is not
/// the old parent's path), its old path no longer resolves.
pub proof fn lemma_move_resolves_at_new_path_only(
    nodes: Seq<Node>,
    next: i32,
    owner: UserId,
    i: int,
    dest: Option<NodeId>,
    new_parent_path: Seq<NodeName>,
    node_path: Seq<NodeName>,
)
    requires
        nodes_wf(nodes, next),
        0 <= i < nodes.len(),
        nodes[i].owner_id == owner,
        resolve_scope(nodes, owner, new_parent_path) == Some(dest),
        !chain_has(nodes, owner, new_parent_path, nodes[i].node_id),
        !sibling_taken(nodes, owner, dest, nodes[i].node_name@, i),
        resolve_scope(nodes, owner, node_path) == Some(Some(nodes[i].node_id)),
    ensures
        resolve_scope(
            nodes.update(i, with_parent(nodes[i], dest)),
            owner,
            new_parent_path.push(nodes[i].node_name),
        ) == Some(Some(nodes[i].node_id)),
        dest != nodes[i].parent_id ==> resolve_scope(nodes.update(i, with_parent(nodes[i], dest)), owner, node_path)
            is None,
        path_text(new_parent_path) != path_text(node_path.drop_last()) ==> resolve_scope(
            nodes.update(i, with_parent(nodes[i], dest)),
            owner,
            node_path,
        ) is None,
{
    let n = nodes[i];
    let x = with_parent(n, dest);
    let moved = nodes.update(i, x);
    let name = n.node_name@;
    lemma_resolve_after_move(nodes, next, i, x, owner, new_parent_path);
    let np = new_parent_path.push(n.node_name);
    assert(np.drop_last() =~= new_parent_path);
    lemma_child_from(moved, owner, dest, name, 0);
    assert(moved[i] == x);
    if let Some(j) = child_from(moved, owner, dest, name, 0) {
        if j != i {
            assert(moved[j] == nodes[j]);
            assert(is_child(nodes[j], owner, dest, name));
        }
    }
    if node_path.len() > 0 {
        let q = node_path.drop_last();
        let p0 = resolve_scope(nodes, owner, q)->Some_0;
        let m = node_path.last()@;
        lemma_child_from(nodes, owner, p0, m, 0);
        let j = child_from(nodes, owner, p0, m, 0)->Some_0;
        assert(nodes[j].node_id == n.node_id);
        assert(j == i);
        if chain_has(nodes, owner, q, n.node_id) {
            lemma_chain_below(nodes, next, owner, q, n.node_id);
            lemma_no_node_below_itself(nodes, next, i);
        }
        if dest == n.parent_id {
            lemma_path_text_unique(nodes, next, owner, new_parent_path, q);
        }
        if dest != n.parent_id {
            lemma_resolve_after_move(nodes, next, i, x, owner, q);
            lemma_child_from(moved, owner, p0, m, 0);
            if let Some(k) = child_from(moved, owner, p0, m, 0) {
                assert(k != i);
                assert(moved[k] == nodes[k]);
                assert(is_child(nodes[k], owner, p0, m));
            }
        }
    }
}

} // verus!
