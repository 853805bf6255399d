//! Checking a store read from outside: `true` only where every table keeps
//! its invariant.
use vstd::prelude::*;

use crate::database::Database;
use crate::models::nodes::{find_row, lemma_row_from, node_rooted, parent_flag, rooted, row_of, Node, NodeId};
use crate::models::notebooks::{
    find_notebook_row, find_section_row, lemma_notebook_row_from, lemma_section_row_from, Notebook, Page, Section,
};
use crate::models::users::{find_user_by_id, lemma_user_index_from_is_match, str_eq, User};

verus! {

/// Whether no two rows share an id.
fn node_ids_distinct(rows: &Vec<Node>) -> (r: bool)
    ensures
        r ==> forall|a: int, b: int|
            0 <= a < rows@.len() && 0 <= b < rows@.len() && a != b ==> !(rows@[a].node_id == rows@[b].node_id),
{
    let mut i: usize = 0;
    while i < rows.len()
        invariant
            i <= rows@.len(),
            forall|a: int, b: int|
                0 <= a < i && 0 <= b < rows@.len() && a != b ==> !(rows@[a].node_id == rows@[b].node_id),
        decreases rows.len() - i,
    {
        let mut j: usize = 0;
        while j < rows.len()
            invariant
                i < rows@.len(),
                j <= rows@.len(),
                forall|a: int, b: int|
                    0 <= a < i && 0 <= b < rows@.len() && a != b ==> !(rows@[a].node_id == rows@[b].node_id),
                forall|b: int| 0 <= b < j && b != i ==> !(rows@[i as int].node_id == rows@[b].node_id),
            decreases rows.len() - j,
        {
            if j != i && rows[i].node_id == rows[j].node_id {
                return false;
            }
            j = j + 1;
        }
        i = i + 1;
    }
    true
}

/// Whether every id is positive and below the counter.
fn node_ids_in_range(rows: &Vec<Node>, next: i32) -> (r: bool)
    ensures
        r ==> forall|a: int| 0 <= a < rows@.len() ==> 1 <= #[trigger] rows@[a].node_id < next,
{
    let mut i: usize = 0;
    while i < rows.len()
        invariant
            i <= rows@.len(),
            forall|a: int| 0 <= a < i ==> 1 <= #[trigger] rows@[a].node_id < next,
        decreases rows.len() - i,
    {
        if !(1 <= rows[i].node_id && rows[i].node_id < next) {
            return false;
        }
        i = i + 1;
    }
    true
}

/// Whether no two rows share an id.
fn user_ids_distinct(rows: &Vec<User>) -> (r: bool)
    ensures
        r ==> forall|a: int, b: int|
            0 <= a < rows@.len() && 0 <= b < rows@.len() && a != b ==> !(rows@[a].id == rows@[b].id),
{
    let mut i: usize = 0;
    while i < rows.len()
        invariant
            i <= rows@.len(),
            forall|a: int, b: int|
                0 <= a < i && 0 <= b < rows@.len() && a != b ==> !(rows@[a].id == rows@[b].id),
        decreases rows.len() - i,
    {
        let mut j: usize = 0;
        while j < rows.len()
            invariant
                i < rows@.len(),
                j <= rows@.len(),
                forall|a: int, b: int|
                    0 <= a < i && 0 <= b < rows@.len() && a != b ==> !(rows@[a].id == rows@[b].id),
                forall|b: int| 0 <= b < j && b != i ==> !(rows@[i as int].id == rows@[b].id),
            decreases rows.len() - j,
        {
            if j != i && rows[i].id == rows[j].id {
                return false;
            }
            j = j + 1;
        }
        i = i + 1;
    }
    true
}

/// Whether every id is positive and below the counter.
fn user_ids_in_range(rows: &Vec<User>, next: i32) -> (r: bool)
    ensures
        r ==> forall|a: int| 0 <= a < rows@.len() ==> 1 <= #[trigger] rows@[a].id < next,
{
    let mut i: usize = 0;
    while i < rows.len()
        invariant
            i <= rows@.len(),
            forall|a: int| 0 <= a < i ==> 1 <= #[trigger] rows@[a].id < next,
        decreases rows.len() - i,
    {
        if !(1 <= rows[i].id && rows[i].id < next) {
            return false;
        }
        i = i + 1;
    }
    true
}

/// Whether no two rows share an id.
fn notebook_ids_distinct(rows: &Vec<Notebook>) -> (r: bool)
    ensures
        r ==> forall|a: int, b: int|
            0 <= a < rows@.len() && 0 <= b < rows@.len() && a != b ==> !(rows@[a].notebook_id == rows@[b].notebook_id),
{
    let mut i: usize = 0;
    while i < rows.len()
        invariant
            i <= rows@.len(),
            forall|a: int, b: int|
                0 <= a < i && 0 <= b < rows@.len() && a != b ==> !(rows@[a].notebook_id == rows@[b].notebook_id),
        decreases rows.len() - i,
    {
        let mut j: usize = 0;
        while j < rows.len()
            invariant
                i < rows@.len(),
                j <= rows@.len(),
                forall|a: int, b: int|
                    0 <= a < i && 0 <= b < rows@.len() && a != b ==> !(rows@[a].notebook_id == rows@[b].notebook_id),
                forall|b: int| 0 <= b < j && b != i ==> !(rows@[i as int].notebook_id == rows@[b].notebook_id),
            decreases rows.len() - j,
        {
            if j != i && rows[i].notebook_id == rows[j].notebook_id {
                return false;
            }
            j = j + 1;
        }
        i = i + 1;
    }
    true
}

/// Whether no two rows of the same owner share a title.
fn notebook_titles_distinct(rows: &Vec<Notebook>) -> (r: bool)
    ensures
        r ==> forall|a: int, b: int|
            0 <= a < rows@.len() && 0 <= b < rows@.len() && a != b ==> !(rows@[a].user_id == rows@[b].user_id && rows@[a].notebook_title@ == rows@[b].notebook_title@),
{
    let mut i: usize = 0;
    while i < rows.len()
        invariant
            i <= rows@.len(),
            forall|a: int, b: int|
                0 <= a < i && 0 <= b < rows@.len() && a != b ==> !(rows@[a].user_id == rows@[b].user_id && rows@[a].notebook_title@ == rows@[b].notebook_title@),
        decreases rows.len() - i,
    {
        let mut j: usize = 0;
        while j < rows.len()
            invariant
                i < rows@.len(),
                j <= rows@.len(),
                forall|a: int, b: int|
                    0 <= a < i && 0 <= b < rows@.len() && a != b ==> !(rows@[a].user_id == rows@[b].user_id && rows@[a].notebook_title@ == rows@[b].notebook_title@),
                forall|b: int| 0 <= b < j && b != i ==> !(rows@[i as int].user_id == rows@[b].user_id && rows@[i as int].notebook_title@ == rows@[b].notebook_title@),
            decreases rows.len() - j,
        {
            if j != i && rows[i].user_id == rows[j].user_id && str_eq(rows[i].notebook_title.as_str(), rows[j].notebook_title.as_str()) {
                return false;
            }
            j = j + 1;
        }
        i = i + 1;
    }
    true
}

/// Whether every id is positive and below the counter.
fn notebook_ids_in_range(rows: &Vec<Notebook>, next: i32) -> (r: bool)
    ensures
        r ==> forall|a: int| 0 <= a < rows@.len() ==> 1 <= #[trigger] rows@[a].notebook_id < next,
{
    let mut i: usize = 0;
    while i < rows.len()
        invariant
            i <= rows@.len(),
            forall|a: int| 0 <= a < i ==> 1 <= #[trigger] rows@[a].notebook_id < next,
        decreases rows.len() - i,
    {
        if !(1 <= rows[i].notebook_id && rows[i].notebook_id < next) {
            return false;
        }
        i = i + 1;
    }
    true
}

/// Whether no two rows share an id.
fn section_ids_distinct(rows: &Vec<Section>) -> (r: bool)
    ensures
        r ==> forall|a: int, b: int|
            0 <= a < rows@.len() && 0 <= b < rows@.len() && a != b ==> !(rows@[a].section_id == rows@[b].section_id),
{
    let mut i: usize = 0;
    while i < rows.len()
        invariant
            i <= rows@.len(),
            forall|a: int, b: int|
                0 <= a < i && 0 <= b < rows@.len() && a != b ==> !(rows@[a].section_id == rows@[b].section_id),
        decreases rows.len() - i,
    {
        let mut j: usize = 0;
        while j < rows.len()
            invariant
                i < rows@.len(),
                j <= rows@.len(),
                forall|a: int, b: int|
                    0 <= a < i && 0 <= b < rows@.len() && a != b ==> !(rows@[a].section_id == rows@[b].section_id),
                forall|b: int| 0 <= b < j && b != i ==> !(rows@[i as int].section_id == rows@[b].section_id),
            decreases rows.len() - j,
        {
            if j != i && rows[i].section_id == rows[j].section_id {
                return false;
            }
            j = j + 1;
        }
        i = i + 1;
    }
    true
}

/// Whether no two rows of the same owner share a title.
fn section_titles_distinct(rows: &Vec<Section>) -> (r: bool)
    ensures
        r ==> forall|a: int, b: int|
            0 <= a < rows@.len() && 0 <= b < rows@.len() && a != b ==> !(rows@[a].notebook_id == rows@[b].notebook_id && rows@[a].section_title@ == rows@[b].section_title@),
{
    let mut i: usize = 0;
    while i < rows.len()
        invariant
            i <= rows@.len(),
            forall|a: int, b: int|
                0 <= a < i && 0 <= b < rows@.len() && a != b ==> !(rows@[a].notebook_id == rows@[b].notebook_id && rows@[a].section_title@ == rows@[b].section_title@),
        decreases rows.len() - i,
    {
        let mut j: usize = 0;
        while j < rows.len()
            invariant
                i < rows@.len(),
                j <= rows@.len(),
                forall|a: int, b: int|
                    0 <= a < i && 0 <= b < rows@.len() && a != b ==> !(rows@[a].notebook_id == rows@[b].notebook_id && rows@[a].section_title@ == rows@[b].section_title@),
                forall|b: int| 0 <= b < j && b != i ==> !(rows@[i as int].notebook_id == rows@[b].notebook_id && rows@[i as int].section_title@ == rows@[b].section_title@),
            decreases rows.len() - j,
        {
            if j != i && rows[i].notebook_id == rows[j].notebook_id && str_eq(rows[i].section_title.as_str(), rows[j].section_title.as_str()) {
                return false;
            }
            j = j + 1;
        }
        i = i + 1;
    }
    true
}

/// Whether every id is positive and below the counter.
fn section_ids_in_range(rows: &Vec<Section>, next: i32) -> (r: bool)
    ensures
        r ==> forall|a: int| 0 <= a < rows@.len() ==> 1 <= #[trigger] rows@[a].section_id < next,
{
    let mut i: usize = 0;
    while i < rows.len()
        invariant
            i <= rows@.len(),
            forall|a: int| 0 <= a < i ==> 1 <= #[trigger] rows@[a].section_id < next,
        decreases rows.len() - i,
    {
        if !(1 <= rows[i].section_id && rows[i].section_id < next) {
            return false;
        }
        i = i + 1;
    }
    true
}

/// Whether no two rows share an id.
fn page_ids_distinct(rows: &Vec<Page>) -> (r: bool)
    ensures
        r ==> forall|a: int, b: int|
            0 <= a < rows@.len() && 0 <= b < rows@.len() && a != b ==> !(rows@[a].page_id == rows@[b].page_id),
{
    let mut i: usize = 0;
    while i < rows.len()
        invariant
            i <= rows@.len(),
            forall|a: int, b: int|
                0 <= a < i && 0 <= b < rows@.len() && a != b ==> !(rows@[a].page_id == rows@[b].page_id),
        decreases rows.len() - i,
    {
        let mut j: usize = 0;
        while j < rows.len()
            invariant
                i < rows@.len(),
                j <= rows@.len(),
                forall|a: int, b: int|
                    0 <= a < i && 0 <= b < rows@.len() && a != b ==> !(rows@[a].page_id == rows@[b].page_id),
                forall|b: int| 0 <= b < j && b != i ==> !(rows@[i as int].page_id == rows@[b].page_id),
            decreases rows.len() - j,
        {
            if j != i && rows[i].page_id == rows[j].page_id {
                return false;
            }
            j = j + 1;
        }
        i = i + 1;
    }
    true
}

/// Whether no two rows of the same owner share a title.
fn page_titles_distinct(rows: &Vec<Page>) -> (r: bool)
    ensures
        r ==> forall|a: int, b: int|
            0 <= a < rows@.len() && 0 <= b < rows@.len() && a != b ==> !(rows@[a].section_id == rows@[b].section_id && rows@[a].page_title@ == rows@[b].page_title@),
{
    let mut i: usize = 0;
    while i < rows.len()
        invariant
            i <= rows@.len(),
            forall|a: int, b: int|
                0 <= a < i && 0 <= b < rows@.len() && a != b ==> !(rows@[a].section_id == rows@[b].section_id && rows@[a].page_title@ == rows@[b].page_title@),
        decreases rows.len() - i,
    {
        let mut j: usize = 0;
        while j < rows.len()
            invariant
                i < rows@.len(),
                j <= rows@.len(),
                forall|a: int, b: int|
                    0 <= a < i && 0 <= b < rows@.len() && a != b ==> !(rows@[a].section_id == rows@[b].section_id && rows@[a].page_title@ == rows@[b].page_title@),
                forall|b: int| 0 <= b < j && b != i ==> !(rows@[i as int].section_id == rows@[b].section_id && rows@[i as int].page_title@ == rows@[b].page_title@),
            decreases rows.len() - j,
        {
            if j != i && rows[i].section_id == rows[j].section_id && str_eq(rows[i].page_title.as_str(), rows[j].page_title.as_str()) {
                return false;
            }
            j = j + 1;
        }
        i = i + 1;
    }
    true
}

/// Whether every id is positive and below the counter.
fn page_ids_in_range(rows: &Vec<Page>, next: i32) -> (r: bool)
    ensures
        r ==> forall|a: int| 0 <= a < rows@.len() ==> 1 <= #[trigger] rows@[a].page_id < next,
{
    let mut i: usize = 0;
    while i < rows.len()
        invariant
            i <= rows@.len(),
            forall|a: int| 0 <= a < i ==> 1 <= #[trigger] rows@[a].page_id < next,
        decreases rows.len() - i,
    {
        if !(1 <= rows[i].page_id && rows[i].page_id < next) {
            return false;
        }
        i = i + 1;
    }
    true
}

/// Whether no two users share a username.
fn user_names_distinct(rows: &Vec<User>) -> (r: bool)
    ensures
        r ==> forall|a: int, b: int|
            0 <= a < rows@.len() && 0 <= b < rows@.len() && a != b ==> !(rows@[a].username@ == rows@[b].username@),
{
    let mut i: usize = 0;
    while i < rows.len()
        invariant
            i <= rows@.len(),
            forall|a: int, b: int|
                0 <= a < i && 0 <= b < rows@.len() && a != b ==> !(rows@[a].username@ == rows@[b].username@),
        decreases rows.len() - i,
    {
        let mut j: usize = 0;
        while j < rows.len()
            invariant
                i < rows@.len(),
                j <= rows@.len(),
                forall|a: int, b: int|
                    0 <= a < i && 0 <= b < rows@.len() && a != b ==> !(rows@[a].username@ == rows@[b].username@),
                forall|b: int| 0 <= b < j && b != i ==> !(rows@[i as int].username@ == rows@[b].username@),
            decreases rows.len() - j,
        {
            if j != i && str_eq(rows[i].username.as_str(), rows[j].username.as_str()) {
                return false;
            }
            j = j + 1;
        }
        i = i + 1;
    }
    true
}

/// Whether no two siblings share a name.
fn node_siblings_distinct(rows: &Vec<Node>) -> (r: bool)
    ensures
        r ==> forall|a: int, b: int|
            0 <= a < rows@.len() && 0 <= b < rows@.len() && a != b ==> !(rows@[a].owner_id == rows@[b].owner_id && rows@[a].parent_id == rows@[b].parent_id && rows@[a].node_name@ == rows@[b].node_name@),
{
    let mut i: usize = 0;
    while i < rows.len()
        invariant
            i <= rows@.len(),
            forall|a: int, b: int|
                0 <= a < i && 0 <= b < rows@.len() && a != b ==> !(rows@[a].owner_id == rows@[b].owner_id && rows@[a].parent_id == rows@[b].parent_id && rows@[a].node_name@ == rows@[b].node_name@),
        decreases rows.len() - i,
    {
        let mut j: usize = 0;
        while j < rows.len()
            invariant
                i < rows@.len(),
                j <= rows@.len(),
                forall|a: int, b: int|
                    0 <= a < i && 0 <= b < rows@.len() && a != b ==> !(rows@[a].owner_id == rows@[b].owner_id && rows@[a].parent_id == rows@[b].parent_id && rows@[a].node_name@ == rows@[b].node_name@),
                forall|b: int| 0 <= b < j && b != i ==> !(rows@[i as int].owner_id == rows@[b].owner_id && rows@[i as int].parent_id == rows@[b].parent_id && rows@[i as int].node_name@ == rows@[b].node_name@),
            decreases rows.len() - j,
        {
            if j != i && rows[i].owner_id == rows[j].owner_id && rows[i].parent_id == rows[j].parent_id && str_eq(rows[i].node_name.as_str(), rows[j].node_name.as_str()) {
                return false;
            }
            j = j + 1;
        }
        i = i + 1;
    }
    true
}

/// Content is present exactly on a leaf, and the parent column matches the
/// parent.
pub open spec fn kind_consistent(n: Node) -> bool {
    &&& (n.is_directory <==> n.content is None)
    &&& n.parent_is_directory == parent_flag(n.parent_id)
}

/// Whether content is present exactly on leaves and the parent column matches.
fn node_kinds_consistent(rows: &Vec<Node>) -> (r: bool)
    ensures
        r ==> forall|a: int| 0 <= a < rows@.len() ==> kind_consistent(#[trigger] rows@[a]),
{
    let mut i: usize = 0;
    while i < rows.len()
        invariant
            i <= rows@.len(),
            forall|a: int| 0 <= a < i ==> kind_consistent(#[trigger] rows@[a]),
        decreases rows.len() - i,
    {
        let flag_ok = match (rows[i].parent_id, rows[i].parent_is_directory) {
            (Some(_), Some(true)) => true,
            (None, None) => true,
            _ => false,
        };
        if !(rows[i].is_directory == rows[i].content.is_none() && flag_ok) {
            return false;
        }
        assert(kind_consistent(rows@[i as int]));
        i = i + 1;
    }
    true
}

proof fn lemma_rooted_step(nodes: Seq<Node>, c: NodeId, k: int, f: nat)
    requires
        row_of(nodes, c) == Some(k),
        rooted(nodes, nodes[k].parent_id, f),
    ensures
        rooted(nodes, Some(c), f + 1),
{
    assert((f + 1 - 1) as nat == f);
}

/// Whether walking up from the node `id` ends at the root scope within as
/// many steps as there are rows.
fn walks_to_root(nodes: &Vec<Node>, id: NodeId) -> (r: bool)
    ensures
        r ==> node_rooted(nodes@, id),
{
    let mut cur: Option<NodeId> = Some(id);
    let mut left: usize = nodes.len();
    let ghost mut taken: nat = 0;
    loop
        invariant
            forall|f: nat| #[trigger] rooted(nodes@, cur, f) ==> rooted(nodes@, Some(id), f + taken),
        decreases left,
    {
        match cur {
            None => {
                assert(rooted(nodes@, cur, 0));
                assert(rooted(nodes@, Some(id), 0 + taken));
                return true;
            },
            Some(c) => {
                if left == 0 {
                    return false;
                }
                match find_row(nodes, c) {
                    None => {
                        return false;
                    },
                    Some(k) => {
                        let ghost before = cur;
                        let next = nodes[k].parent_id;
                        proof {
                            assert(row_of(nodes@, c) == Some(k as int));
                            assert(next == nodes@[k as int].parent_id);
                            assert forall|f: nat| #[trigger] rooted(nodes@, next, f) implies rooted(
                                nodes@,
                                Some(id),
                                f + (taken + 1),
                            ) by {
                                lemma_rooted_step(nodes@, c, k as int, f);
                                assert(rooted(nodes@, before, f + 1));
                                assert(rooted(nodes@, Some(id), (f + 1) + taken));
                                assert(f + 1 + taken == f + (taken + 1));
                            }
                            taken = taken + 1;
                        }
                        cur = next;
                        left = left - 1;
                    },
                }
            },
        }
    }
}

/// Whether every node's chain of parents ends at the root scope.
fn nodes_rooted(nodes: &Vec<Node>) -> (r: bool)
    ensures
        r ==> forall|a: int| 0 <= a < nodes@.len() ==> node_rooted(nodes@, #[trigger] nodes@[a].node_id),
{
    let mut i: usize = 0;
    while i < nodes.len()
        invariant
            i <= nodes@.len(),
            forall|a: int| 0 <= a < i ==> node_rooted(nodes@, #[trigger] nodes@[a].node_id),
        decreases nodes.len() - i,
    {
        if !walks_to_root(nodes, nodes[i].node_id) {
            return false;
        }
        i = i + 1;
    }
    true
}

/// Whether every node with a parent has it stored: a directory of the same
/// owner.
fn parents_present(nodes: &Vec<Node>) -> (r: bool)
    ensures
        r ==> forall|a: int| 0 <= a < nodes@.len() ==> crate::models::nodes::parent_present(nodes@, #[trigger] nodes@[a]),
{
    let mut i: usize = 0;
    while i < nodes.len()
        invariant
            i <= nodes@.len(),
            forall|a: int| 0 <= a < i ==> crate::models::nodes::parent_present(nodes@, #[trigger] nodes@[a]),
        decreases nodes.len() - i,
    {
        if let Some(p) = nodes[i].parent_id {
            match find_row(nodes, p) {
                None => {
                    return false;
                },
                Some(k) => {
                    if !nodes[k].is_directory || nodes[k].owner_id != nodes[i].owner_id {
                        return false;
                    }
                    proof {
                        lemma_row_from(nodes@, p, 0);
                        assert(nodes@[k as int].node_id == p);
                    }
                },
            }
        }
        i = i + 1;
    }
    true
}

/// Whether every node's owner is a stored user.
fn node_owners_stored(nodes: &Vec<Node>, users: &Vec<User>) -> (r: bool)
    ensures
        r ==> crate::models::nodes::owners_known(users@, nodes@),
{
    let mut i: usize = 0;
    while i < nodes.len()
        invariant
            i <= nodes@.len(),
            forall|a: int| 0 <= a < i ==> crate::models::nodes::owner_known(users@, #[trigger] nodes@[a].owner_id),
        decreases nodes.len() - i,
    {
        match find_user_by_id(users, nodes[i].owner_id) {
            None => {
                return false;
            },
            Some(k) => {
                proof {
                    lemma_user_index_from_is_match(users@, nodes@[i as int].owner_id, 0);
                    assert(users@[k as int].id == nodes@[i as int].owner_id);
                }
            },
        }
        i = i + 1;
    }
    true
}

/// Whether every notebook's user is stored.
fn notebook_owners_stored(nbs: &Vec<Notebook>, users: &Vec<User>) -> (r: bool)
    ensures
        r ==> crate::models::notebooks::notebooks_owned(users@, nbs@),
{
    let mut i: usize = 0;
    while i < nbs.len()
        invariant
            i <= nbs@.len(),
            forall|a: int| 0 <= a < i ==> crate::models::notebooks::user_present(users@, #[trigger] nbs@[a].user_id),
        decreases nbs.len() - i,
    {
        match find_user_by_id(users, nbs[i].user_id) {
            None => {
                return false;
            },
            Some(k) => {
                proof {
                    lemma_user_index_from_is_match(users@, nbs@[i as int].user_id, 0);
                    assert(users@[k as int].id == nbs@[i as int].user_id);
                }
            },
        }
        i = i + 1;
    }
    true
}

/// Whether every section's notebook is stored.
fn section_links_stored(secs: &Vec<Section>, nbs: &Vec<Notebook>) -> (r: bool)
    ensures
        r ==> crate::models::notebooks::sections_linked(nbs@, secs@),
{
    let mut i: usize = 0;
    while i < secs.len()
        invariant
            i <= secs@.len(),
            forall|a: int|
                0 <= a < i ==> crate::models::notebooks::notebook_present(nbs@, #[trigger] secs@[a].notebook_id),
        decreases secs.len() - i,
    {
        match find_notebook_row(nbs, secs[i].notebook_id) {
            None => {
                return false;
            },
            Some(k) => {
                proof {
                    lemma_notebook_row_from(nbs@, secs@[i as int].notebook_id, 0);
                    assert(nbs@[k as int].notebook_id == secs@[i as int].notebook_id);
                }
            },
        }
        i = i + 1;
    }
    true
}

/// Whether every page's section is stored.
fn page_links_stored(pages: &Vec<Page>, secs: &Vec<Section>) -> (r: bool)
    ensures
        r ==> crate::models::notebooks::pages_linked(secs@, pages@),
{
    let mut i: usize = 0;
    while i < pages.len()
        invariant
            i <= pages@.len(),
            forall|a: int|
                0 <= a < i ==> crate::models::notebooks::section_present(secs@, #[trigger] pages@[a].section_id),
        decreases pages.len() - i,
    {
        match find_section_row(secs, pages[i].section_id) {
            None => {
                return false;
            },
            Some(k) => {
                proof {
                    lemma_section_row_from(secs@, pages@[i as int].section_id, 0);
                    assert(secs@[k as int].section_id == pages@[i as int].section_id);
                }
            },
        }
        i = i + 1;
    }
    true
}

impl Database {
    /// Whether this store keeps every invariant, for a store built outside
    /// the library (read back from a file): `true` only where `wf` holds.
    pub fn is_consistent(&self) -> (r: bool)
        ensures
            r ==> self.wf(),
    {
        self.next_user_id >= 1 && self.next_node_id >= 1 && self.next_notebook_id >= 1 && self.next_section_id >= 1
            && self.next_page_id >= 1 && user_ids_in_range(&self.users, self.next_user_id) && user_ids_distinct(
            &self.users,
        ) && user_names_distinct(&self.users) && node_ids_in_range(&self.nodes, self.next_node_id)
            && node_ids_distinct(&self.nodes) && node_siblings_distinct(&self.nodes) && node_kinds_consistent(
            &self.nodes,
        ) && parents_present(&self.nodes) && nodes_rooted(&self.nodes) && notebook_ids_in_range(
            &self.notebooks,
            self.next_notebook_id,
        ) && notebook_ids_distinct(&self.notebooks) && notebook_titles_distinct(&self.notebooks)
            && section_ids_in_range(&self.sections, self.next_section_id) && section_ids_distinct(&self.sections)
            && section_titles_distinct(&self.sections) && page_ids_in_range(&self.pages, self.next_page_id)
            && page_ids_distinct(&self.pages) && page_titles_distinct(&self.pages) && node_owners_stored(
            &self.nodes,
            &self.users,
        ) && notebook_owners_stored(&self.notebooks, &self.users) && section_links_stored(
            &self.sections,
            &self.notebooks,
        ) && page_links_stored(&self.pages, &self.sections)
    }
}

} // verus!
