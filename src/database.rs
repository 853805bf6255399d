use vstd::prelude::*;

use crate::models::nodes::{nodes_wf, owners_known, Node};
use crate::models::notebooks::{
    notebooks_owned, notebooks_wf, pages_linked, pages_wf, sections_linked, sections_wf, Notebook, Page, Section,
};
use crate::models::users::{users_wf, User};

verus! {

/// The store: one table per kind of row, each with the counter that hands out
/// the next identifier. Every operation on it is all-or-nothing: where one
/// fails, the store is left as it was.
pub struct Database {
    pub users: Vec<User>,
    pub nodes: Vec<Node>,
    pub notebooks: Vec<Notebook>,
    pub sections: Vec<Section>,
    pub pages: Vec<Page>,
    pub next_user_id: i32,
    pub next_node_id: i32,
    pub next_notebook_id: i32,
    pub next_section_id: i32,
    pub next_page_id: i32,
}

impl Database {
    /// The constraints every table keeps: unique identifiers below the
    /// table's counter, unique usernames, unique sibling names and titles;
    /// every node and notebook owned by a stored user, and every section and
    /// page held by a stored notebook or section.
    pub open spec fn wf(&self) -> bool {
        &&& users_wf(self.users@, self.next_user_id)
        &&& nodes_wf(self.nodes@, self.next_node_id)
        &&& notebooks_wf(self.notebooks@, self.next_notebook_id)
        &&& sections_wf(self.sections@, self.next_section_id)
        &&& pages_wf(self.pages@, self.next_page_id)
        &&& owners_known(self.users@, self.nodes@)
        &&& notebooks_owned(self.users@, self.notebooks@)
        &&& sections_linked(self.notebooks@, self.sections@)
        &&& pages_linked(self.sections@, self.pages@)
    }

    /// An empty store.
    pub fn new() -> (r: Database)
        ensures
            r.wf(),
            r.users@.len() == 0,
            r.nodes@.len() == 0,
            r.notebooks@.len() == 0,
            r.sections@.len() == 0,
            r.pages@.len() == 0,
            r.next_user_id == 1,
            r.next_node_id == 1,
            r.next_notebook_id == 1,
            r.next_section_id == 1,
            r.next_page_id == 1,
    {
        Database {
            users: Vec::new(),
            nodes: Vec::new(),
            notebooks: Vec::new(),
            sections: Vec::new(),
            pages: Vec::new(),
            next_user_id: 1,
            next_node_id: 1,
            next_notebook_id: 1,
            next_section_id: 1,
            next_page_id: 1,
        }
    }
}

} // verus!
