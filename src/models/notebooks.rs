use vstd::prelude::*;

use crate::database::Database;
use crate::errors::{BackendError, BackendResult};
use crate::models::users::{find_user_by_id, lemma_user_index_from_is_match, str_eq, user_index_from, User, UserId};

verus! {

/// What a caller gives to create a notebook.
pub struct NewNotebook<'a> {
    pub notebook_title: &'a str,
    pub user_id: UserId,
}

/// A stored notebook: its title is unique among its user's notebooks.
#[derive(Debug, PartialEq, Eq)]
pub struct Notebook {
    pub notebook_id: i32,
    pub notebook_title: String,
    pub user_id: UserId,
}

/// What a caller gives to create a section.
pub struct NewSection<'a> {
    pub section_title: &'a str,
    pub notebook_id: i32,
}

/// A stored section: its title is unique within its notebook.
#[derive(Debug, PartialEq, Eq)]
pub struct Section {
    pub section_id: i32,
    pub section_title: String,
    pub notebook_id: i32,
}

/// What a caller gives to create a page.
pub struct NewPage<'a> {
    pub page_title: &'a str,
    pub section_id: i32,
    pub content: &'a str,
}

/// A stored page: its title is unique within its section.
#[derive(Debug, PartialEq, Eq)]
pub struct Page {
    pub page_id: i32,
    pub page_title: String,
    pub content: String,
    pub section_id: i32,
}

/// The titles that name a page in a user's notebooks.
pub struct PagePath<'a> {
    pub notebook_title: &'a str,
    pub section_title: &'a str,
    pub page_title: &'a str,
}

impl Clone for Notebook {
    fn clone(&self) -> (r: Self)
        ensures
            r == *self,
    {
        Notebook { notebook_id: self.notebook_id, notebook_title: self.notebook_title.clone(), user_id: self.user_id }
    }
}

impl Clone for Section {
    fn clone(&self) -> (r: Self)
        ensures
            r == *self,
    {
        Section { section_id: self.section_id, section_title: self.section_title.clone(), notebook_id: self.notebook_id }
    }
}

impl Clone for Page {
    fn clone(&self) -> (r: Self)
        ensures
            r == *self,
    {
        Page {
            page_id: self.page_id,
            page_title: self.page_title.clone(),
            content: self.content.clone(),
            section_id: self.section_id,
        }
    }
}

/// Some notebook has id `id`.
pub open spec fn notebook_present(notebooks: Seq<Notebook>, id: i32) -> bool {
    exists|j: int| 0 <= j < notebooks.len() && #[trigger] notebooks[j].notebook_id == id
}

/// Some section has id `id`.
pub open spec fn section_present(sections: Seq<Section>, id: i32) -> bool {
    exists|j: int| 0 <= j < sections.len() && #[trigger] sections[j].section_id == id
}

/// Some user has id `user`.
pub open spec fn user_present(users: Seq<User>, user: UserId) -> bool {
    exists|j: int| 0 <= j < users.len() && #[trigger] users[j].id == user
}

/// Every notebook belongs to a stored user.
pub open spec fn notebooks_owned(users: Seq<User>, notebooks: Seq<Notebook>) -> bool {
    forall|k: int| 0 <= k < notebooks.len() ==> user_present(users, #[trigger] notebooks[k].user_id)
}

/// Every section belongs to a stored notebook.
pub open spec fn sections_linked(notebooks: Seq<Notebook>, sections: Seq<Section>) -> bool {
    forall|k: int| 0 <= k < sections.len() ==> notebook_present(notebooks, #[trigger] sections[k].notebook_id)
}

/// Every page belongs to a stored section.
pub open spec fn pages_linked(sections: Seq<Section>, pages: Seq<Page>) -> bool {
    forall|k: int| 0 <= k < pages.len() ==> section_present(sections, #[trigger] pages[k].section_id)
}

/// Notebooks that keep their ids at their positions keep every section
/// linked.
pub proof fn lemma_sections_linked_kept(nbs: Seq<Notebook>, nbs2: Seq<Notebook>, secs: Seq<Section>)
    requires
        sections_linked(nbs, secs),
        nbs.len() <= nbs2.len(),
        forall|j: int| 0 <= j < nbs.len() ==> #[trigger] nbs2[j].notebook_id == nbs[j].notebook_id,
    ensures
        sections_linked(nbs2, secs),
{
    assert forall|k: int| 0 <= k < secs.len() implies notebook_present(nbs2, #[trigger] secs[k].notebook_id) by {
        let j = choose|j: int| 0 <= j < nbs.len() && #[trigger] nbs[j].notebook_id == secs[k].notebook_id;
        assert(nbs2[j].notebook_id == nbs[j].notebook_id);
    }
}

/// Removing a notebook that no section belongs to keeps every section linked.
pub proof fn lemma_sections_linked_removed(nbs: Seq<Notebook>, i: int, secs: Seq<Section>)
    requires
        sections_linked(nbs, secs),
        0 <= i < nbs.len(),
        forall|k: int| 0 <= k < secs.len() ==> #[trigger] secs[k].notebook_id != nbs[i].notebook_id,
    ensures
        sections_linked(nbs.remove(i), secs),
{
    let m = nbs.remove(i);
    assert forall|k: int| 0 <= k < secs.len() implies notebook_present(m, #[trigger] secs[k].notebook_id) by {
        let j = choose|j: int| 0 <= j < nbs.len() && #[trigger] nbs[j].notebook_id == secs[k].notebook_id;
        assert(j != i);
        let nj = if j < i { j } else { j - 1 };
        assert(m[nj] == nbs[j]);
    }
}

/// Sections that keep their ids at their positions keep every page linked.
pub proof fn lemma_pages_linked_kept(secs: Seq<Section>, secs2: Seq<Section>, pages: Seq<Page>)
    requires
        pages_linked(secs, pages),
        secs.len() <= secs2.len(),
        forall|j: int| 0 <= j < secs.len() ==> #[trigger] secs2[j].section_id == secs[j].section_id,
    ensures
        pages_linked(secs2, pages),
{
    assert forall|k: int| 0 <= k < pages.len() implies section_present(secs2, #[trigger] pages[k].section_id) by {
        let j = choose|j: int| 0 <= j < secs.len() && #[trigger] secs[j].section_id == pages[k].section_id;
        assert(secs2[j].section_id == secs[j].section_id);
    }
}

/// Removing a section that no page belongs to keeps every page linked.
pub proof fn lemma_pages_linked_removed(secs: Seq<Section>, i: int, pages: Seq<Page>)
    requires
        pages_linked(secs, pages),
        0 <= i < secs.len(),
        forall|k: int| 0 <= k < pages.len() ==> #[trigger] pages[k].section_id != secs[i].section_id,
    ensures
        pages_linked(secs.remove(i), pages),
{
    let m = secs.remove(i);
    assert forall|k: int| 0 <= k < pages.len() implies section_present(m, #[trigger] pages[k].section_id) by {
        let j = choose|j: int| 0 <= j < secs.len() && #[trigger] secs[j].section_id == pages[k].section_id;
        assert(j != i);
        let nj = if j < i { j } else { j - 1 };
        assert(m[nj] == secs[j]);
    }
}

/// A notebook holds no section exactly when no section belongs to it.
pub proof fn lemma_sections_of_empty(secs: Seq<Section>, id: i32)
    ensures
        sections_of(secs, id).len() == 0 ==> forall|k: int| 0 <= k < secs.len() ==> #[trigger] secs[k].notebook_id != id,
    decreases secs.len(),
{
    if secs.len() > 0 {
        lemma_sections_of_empty(secs.drop_last(), id);
        assert forall|k: int| 0 <= k < secs.len() - 1 implies #[trigger] secs[k] == secs.drop_last()[k] by {}
    }
}

/// A section holds no page exactly when no page belongs to it.
pub proof fn lemma_pages_of_empty(pages: Seq<Page>, id: i32)
    ensures
        pages_of(pages, id).len() == 0 ==> forall|k: int| 0 <= k < pages.len() ==> #[trigger] pages[k].section_id != id,
    decreases pages.len(),
{
    if pages.len() > 0 {
        lemma_pages_of_empty(pages.drop_last(), id);
        assert forall|k: int| 0 <= k < pages.len() - 1 implies #[trigger] pages[k] == pages.drop_last()[k] by {}
    }
}

/// The notebook of `user` titled `title`.
pub open spec fn notebook_named(notebooks: Seq<Notebook>, user: UserId, title: Seq<char>) -> Option<Notebook> {
    match notebook_from(notebooks, user, title, 0) {
        Some(i) => Some(notebooks[i]),
        None => None,
    }
}

/// The section of notebook `notebook_id` titled `title`.
pub open spec fn section_named(sections: Seq<Section>, notebook_id: i32, title: Seq<char>) -> Option<Section> {
    match section_from(sections, notebook_id, title, 0) {
        Some(i) => Some(sections[i]),
        None => None,
    }
}

/// The page of section `section_id` titled `title`.
pub open spec fn page_named(pages: Seq<Page>, section_id: i32, title: Seq<char>) -> Option<Page> {
    match page_from(pages, section_id, title, 0) {
        Some(i) => Some(pages[i]),
        None => None,
    }
}

/// The section that a notebook title and a section title name for `user`.
pub open spec fn section_at(db: Database, user: UserId, notebook_title: Seq<char>, section_title: Seq<char>) -> Option<Section> {
    match notebook_named(db.notebooks@, user, notebook_title) {
        Some(nb) => section_named(db.sections@, nb.notebook_id, section_title),
        None => None,
    }
}

/// The page that three titles name for `user`.
pub open spec fn page_at(db: Database, user: UserId, path: (Seq<char>, Seq<char>, Seq<char>)) -> Option<Page> {
    match section_at(db, user, path.0, path.1) {
        Some(s) => page_named(db.pages@, s.section_id, path.2),
        None => None,
    }
}

/// Why creating a notebook is refused: no such user, the title is taken,
/// or no id is left.
pub open spec fn notebook_create_error(db: Database, user: UserId, title: Seq<char>) -> Option<BackendError> {
    if user_index_from(db.users@, user, 0) is None {
        Some(BackendError::NotFound)
    } else if notebook_title_taken(db.notebooks@, user, title, -1) {
        Some(BackendError::Conflict)
    } else if db.next_notebook_id == i32::MAX {
        Some(BackendError::StorageFull)
    } else {
        None
    }
}

/// Why creating a section is refused: no such notebook, the title is taken,
/// or no id is left.
pub open spec fn section_create_error(db: Database, notebook_id: i32, title: Seq<char>) -> Option<BackendError> {
    if notebook_row_from(db.notebooks@, notebook_id, 0) is None {
        Some(BackendError::NotFound)
    } else if section_title_taken(db.sections@, notebook_id, title, -1) {
        Some(BackendError::Conflict)
    } else if db.next_section_id == i32::MAX {
        Some(BackendError::StorageFull)
    } else {
        None
    }
}

/// Why creating a page is refused: no such section, the title is taken, or
/// no id is left.
pub open spec fn page_create_error(db: Database, section_id: i32, title: Seq<char>) -> Option<BackendError> {
    if section_row_from(db.sections@, section_id, 0) is None {
        Some(BackendError::NotFound)
    } else if page_title_taken(db.pages@, section_id, title, -1) {
        Some(BackendError::Conflict)
    } else if db.next_page_id == i32::MAX {
        Some(BackendError::StorageFull)
    } else {
        None
    }
}

impl Notebook {
    /// Loads the notebook of `user_id` titled `title`; `NotFound` where there
    /// is none.
    pub fn load_for_user_by_title(db: &Database, user_id: UserId, title: &str) -> (r: BackendResult<Notebook>)
        ensures
            match notebook_named(db.notebooks@, user_id, title@) {
                Some(n) => r == Ok::<Notebook, BackendError>(n),
                None => r == Err::<Notebook, BackendError>(BackendError::NotFound),
            },
    {
        match find_notebook(&db.notebooks, user_id, title) {
            Some(i) => Ok(db.notebooks[i].clone()),
            None => Err(BackendError::NotFound),
        }
    }

    /// All notebooks of `user_id`, in table order.
    pub fn load_for_user(db: &Database, user_id: UserId) -> (r: BackendResult<Vec<Notebook>>)
        ensures
            r matches Ok(v) && v@ == notebooks_of(db.notebooks@, user_id),
    {
        Ok(select_notebooks(&db.notebooks, user_id))
    }

    /// Stores a notebook and returns it. A title the user already has is
    /// `Conflict`.
    pub fn create<'a>(db: &mut Database, data: &NewNotebook<'a>) -> (r: BackendResult<Notebook>)
        requires
            old(db).wf(),
        ensures
            final(db).wf(),
            same_except_notebooks(*final(db), *old(db)),
            match notebook_create_error(*old(db), data.user_id, data.notebook_title@) {
                Some(e) => r == Err::<Notebook, BackendError>(e) && *final(db) == *old(db),
                None => r matches Ok(n) && n.notebook_id == old(db).next_notebook_id && n.notebook_title@
                    == data.notebook_title@ && n.user_id == data.user_id && final(db).notebooks@
                    == old(db).notebooks@.push(n),
            },
    {
        let u = match find_user_by_id(&db.users, data.user_id) {
            Some(u) => u,
            None => {
                return Err(BackendError::NotFound);
            },
        };
        proof {
            lemma_user_index_from_is_match(db.users@, data.user_id, 0);
            assert(db.users@[u as int].id == data.user_id);
        }
        if notebook_title_exists(&db.notebooks, data.user_id, data.notebook_title, db.notebooks.len()) {
            return Err(BackendError::Conflict);
        }
        if db.next_notebook_id == i32::MAX {
            return Err(BackendError::StorageFull);
        }
        let row = Notebook {
            notebook_id: db.next_notebook_id,
            notebook_title: data.notebook_title.to_string(),
            user_id: data.user_id,
        };
        push_notebook(db, row.clone());
        Ok(row)
    }
}

impl Section {
    /// Loads the section of notebook `notebook_id` titled `section_title`;
    /// `NotFound` where there is none.
    pub fn load_for_notebook_with_title(db: &Database, notebook_id: i32, section_title: &str) -> (r: BackendResult<Section>)
        ensures
            match section_named(db.sections@, notebook_id, section_title@) {
                Some(s) => r == Ok::<Section, BackendError>(s),
                None => r == Err::<Section, BackendError>(BackendError::NotFound),
            },
    {
        match find_section(&db.sections, notebook_id, section_title) {
            Some(i) => Ok(db.sections[i].clone()),
            None => Err(BackendError::NotFound),
        }
    }

    /// Loads the section that the two titles name for `user_id`; `NotFound`
    /// at the first title without a match.
    pub fn load_for_user_by_path(db: &Database, user_id: UserId, notebook_title: &str, section_title: &str) -> (r:
        BackendResult<Section>)
        ensures
            match section_at(*db, user_id, notebook_title@, section_title@) {
                Some(s) => r == Ok::<Section, BackendError>(s),
                None => r == Err::<Section, BackendError>(BackendError::NotFound),
            },
    {
        let notebook = Notebook::load_for_user_by_title(db, user_id, notebook_title)?;
        Self::load_for_notebook_with_title(db, notebook.notebook_id, section_title)
    }

    /// Stores a section in an existing notebook and returns it. No such
    /// notebook is `NotFound`; a title the notebook already has `Conflict`.
    pub fn create<'a>(db: &mut Database, data: &NewSection<'a>) -> (r: BackendResult<Section>)
        requires
            old(db).wf(),
        ensures
            final(db).wf(),
            same_except_sections(*final(db), *old(db)),
            match section_create_error(*old(db), data.notebook_id, data.section_title@) {
                Some(e) => r == Err::<Section, BackendError>(e) && *final(db) == *old(db),
                None => r matches Ok(s) && s.section_id == old(db).next_section_id && s.section_title@
                    == data.section_title@ && s.notebook_id == data.notebook_id && final(db).sections@
                    == old(db).sections@.push(s),
            },
    {
        let k = match find_notebook_row(&db.notebooks, data.notebook_id) {
            Some(k) => k,
            None => {
                return Err(BackendError::NotFound);
            },
        };
        proof {
            lemma_notebook_row_from(db.notebooks@, data.notebook_id, 0);
            assert(db.notebooks@[k as int].notebook_id == data.notebook_id);
        }
        if section_title_exists(&db.sections, data.notebook_id, data.section_title, db.sections.len()) {
            return Err(BackendError::Conflict);
        }
        if db.next_section_id == i32::MAX {
            return Err(BackendError::StorageFull);
        }
        let row = Section {
            section_id: db.next_section_id,
            section_title: data.section_title.to_string(),
            notebook_id: data.notebook_id,
        };
        push_section(db, row.clone());
        Ok(row)
    }
}

impl Page {
    /// Loads the page of section `section_id` titled `page_title`; `NotFound`
    /// where there is none.
    pub fn load_for_section_with_title(db: &Database, section_id: i32, page_title: &str) -> (r: BackendResult<Page>)
        ensures
            match page_named(db.pages@, section_id, page_title@) {
                Some(p) => r == Ok::<Page, BackendError>(p),
                None => r == Err::<Page, BackendError>(BackendError::NotFound),
            },
    {
        match find_page(&db.pages, section_id, page_title) {
            Some(i) => Ok(db.pages[i].clone()),
            None => Err(BackendError::NotFound),
        }
    }

    /// Loads the page that `path` names for `user_id`; `NotFound` at the
    /// first title without a match.
    pub fn load_for_user_by_path<'a>(db: &Database, user_id: UserId, path: &PagePath<'a>) -> (r: BackendResult<Page>)
        ensures
            match page_at(*db, user_id, (path.notebook_title@, path.section_title@, path.page_title@)) {
                Some(p) => r == Ok::<Page, BackendError>(p),
                None => r == Err::<Page, BackendError>(BackendError::NotFound),
            },
    {
        let notebook = Notebook::load_for_user_by_title(db, user_id, path.notebook_title)?;
        let section = Section::load_for_notebook_with_title(db, notebook.notebook_id, path.section_title)?;
        let page = Page::load_for_section_with_title(db, section.section_id, path.page_title)?;
        Ok(page)
    }

    /// Stores a page in an existing section and returns it. No such section
    /// is `NotFound`; a title the section already has `Conflict`.
    pub fn create<'a>(db: &mut Database, data: &NewPage<'a>) -> (r: BackendResult<Page>)
        requires
            old(db).wf(),
        ensures
            final(db).wf(),
            same_except_pages(*final(db), *old(db)),
            match page_create_error(*old(db), data.section_id, data.page_title@) {
                Some(e) => r == Err::<Page, BackendError>(e) && *final(db) == *old(db),
                None => r matches Ok(p) && p.page_id == old(db).next_page_id && p.page_title@ == data.page_title@
                    && p.content@ == data.content@ && p.section_id == data.section_id && final(db).pages@
                    == old(db).pages@.push(p),
            },
    {
        let k = match find_section_row(&db.sections, data.section_id) {
            Some(k) => k,
            None => {
                return Err(BackendError::NotFound);
            },
        };
        proof {
            lemma_section_row_from(db.sections@, data.section_id, 0);
            assert(db.sections@[k as int].section_id == data.section_id);
        }
        if page_title_exists(&db.pages, data.section_id, data.page_title, db.pages.len()) {
            return Err(BackendError::Conflict);
        }
        if db.next_page_id == i32::MAX {
            return Err(BackendError::StorageFull);
        }
        let row = Page {
            page_id: db.next_page_id,
            page_title: data.page_title.to_string(),
            content: data.content.to_string(),
            section_id: data.section_id,
        };
        push_page(db, row.clone());
        Ok(row)
    }

    /// Replaces this page's content and returns the page with the new
    /// content. A vanished row is `NotFound`.
    pub fn set_content(self, db: &mut Database, new_content: &str) -> (r: BackendResult<Page>)
        requires
            old(db).wf(),
        ensures
            final(db).wf(),
            same_except_pages(*final(db), *old(db)),
            final(db).next_page_id == old(db).next_page_id,
            match page_row_from(old(db).pages@, self.page_id, 0) {
                None => r == Err::<Page, BackendError>(BackendError::NotFound) && *final(db) == *old(db),
                Some(i) => r matches Ok(p) && p.content@ == new_content@ && p == (Page { content: p.content, ..self })
                    && final(db).pages@ == old(db).pages@.update(i, Page { content: p.content, ..old(db).pages@[i] }),
            },
    {
        let i = match find_page_row(&db.pages, self.page_id) {
            Some(i) => i,
            None => {
                return Err(BackendError::NotFound);
            },
        };
        let content = new_content.to_string();
        let ghost old_rows = db.pages@;
        let mut row = db.pages[i].clone();
        row.content = content.clone();
        db.pages.set(i, row);
        proof {
            let rows = db.pages@;
            assert forall|a: int, b: int|
                0 <= a < rows.len() && 0 <= b < rows.len() && a != b && #[trigger] rows[a].section_id
                    == #[trigger] rows[b].section_id implies rows[a].page_title@ != rows[b].page_title@ by {
                assert(old_rows[a].page_title@ != old_rows[b].page_title@);
            }
            assert forall|k: int| 0 <= k < rows.len() implies section_present(db.sections@, #[trigger] rows[k].section_id) by {
                assert(rows[k].section_id == old_rows[k].section_id);
            }
        }
        Ok(Page { content, ..self })
    }
}

/// Index of the first notebook of user `owner` titled `title`, scanning from `k`.
pub open spec fn notebook_from(rows: Seq<Notebook>, owner: UserId, title: Seq<char>, k: int) -> Option<int>
    decreases rows.len() - k,
{
    if k < 0 || k >= rows.len() {
        None
    } else if rows[k].user_id == owner && rows[k].notebook_title@ == title {
        Some(k)
    } else {
        notebook_from(rows, owner, title, k + 1)
    }
}

/// Index of the first notebook with id `id`, scanning from `k`.
pub open spec fn notebook_row_from(rows: Seq<Notebook>, id: i32, k: int) -> Option<int>
    decreases rows.len() - k,
{
    if k < 0 || k >= rows.len() {
        None
    } else if rows[k].notebook_id == id {
        Some(k)
    } else {
        notebook_row_from(rows, id, k + 1)
    }
}

/// The notebooks of user `owner`, in table order.
pub open spec fn notebooks_of(rows: Seq<Notebook>, owner: UserId) -> Seq<Notebook>
    decreases rows.len(),
{
    if rows.len() == 0 {
        rows
    } else if rows.last().user_id == owner {
        notebooks_of(rows.drop_last(), owner).push(rows.last())
    } else {
        notebooks_of(rows.drop_last(), owner)
    }
}

/// Whether a notebook other than `except` of user `owner` is titled `title`.
pub open spec fn notebook_title_taken(rows: Seq<Notebook>, owner: UserId, title: Seq<char>, except: int) -> bool {
    exists|j: int| 0 <= j < rows.len() && j != except && #[trigger] rows[j].user_id == owner && rows[j].notebook_title@ == title
}

/// Ids unique, positive and below the counter; titles unique within a user.
pub open spec fn notebooks_wf(rows: Seq<Notebook>, next: i32) -> bool {
    &&& next >= 1
    &&& forall|i: int| 0 <= i < rows.len() ==> 1 <= #[trigger] rows[i].notebook_id < next
    &&& forall|i: int, j: int|
        0 <= i < rows.len() && 0 <= j < rows.len() && i != j ==> #[trigger] rows[i].notebook_id != #[trigger] rows[j].notebook_id
    &&& forall|i: int, j: int|
        0 <= i < rows.len() && 0 <= j < rows.len() && i != j && #[trigger] rows[i].user_id == #[trigger] rows[j].user_id
            ==> rows[i].notebook_title@ != rows[j].notebook_title@
}

/// Only the notebook table and its counter differ between `a` and `b`.
pub open spec fn same_except_notebooks(a: Database, b: Database) -> bool {
    &&& a.users == b.users
    &&& a.next_user_id == b.next_user_id
    &&& a.nodes == b.nodes
    &&& a.next_node_id == b.next_node_id
    &&& a.sections == b.sections
    &&& a.next_section_id == b.next_section_id
    &&& a.pages == b.pages
    &&& a.next_page_id == b.next_page_id
}

pub proof fn lemma_notebook_row_from(rows: Seq<Notebook>, id: i32, k: int)
    requires
        k >= 0,
    ensures
        notebook_row_from(rows, id, k) matches Some(i) ==> k <= i < rows.len() && rows[i].notebook_id == id,
        notebook_row_from(rows, id, k) is None ==> forall|j: int| k <= j < rows.len() ==> #[trigger] rows[j].notebook_id != id,
    decreases rows.len() - k,
{
    if k < rows.len() && rows[k].notebook_id != id {
        lemma_notebook_row_from(rows, id, k + 1);
    }
}

/// Position of the first notebook of user `owner` titled `title`.
pub fn find_notebook(rows: &Vec<Notebook>, owner: UserId, title: &str) -> (r: Option<usize>)
    ensures
        match r {
            Some(i) => i < rows.len() && notebook_from(rows@, owner, title@, 0) == Some(i as int),
            None => notebook_from(rows@, owner, title@, 0) is None,
        },
{
    let mut i: usize = 0;
    while i < rows.len()
        invariant
            i <= rows.len(),
            notebook_from(rows@, owner, title@, 0) == notebook_from(rows@, owner, title@, i as int),
        decreases rows.len() - i,
    {
        if rows[i].user_id == owner && str_eq(rows[i].notebook_title.as_str(), title) {
            return Some(i);
        }
        i = i + 1;
    }
    None
}

/// Position of the notebook with id `id`.
pub fn find_notebook_row(rows: &Vec<Notebook>, id: i32) -> (r: Option<usize>)
    ensures
        match r {
            Some(i) => i < rows.len() && notebook_row_from(rows@, id, 0) == Some(i as int),
            None => notebook_row_from(rows@, id, 0) is None,
        },
{
    let mut i: usize = 0;
    while i < rows.len()
        invariant
            i <= rows.len(),
            notebook_row_from(rows@, id, 0) == notebook_row_from(rows@, id, i as int),
        decreases rows.len() - i,
    {
        if rows[i].notebook_id == id {
            return Some(i);
        }
        i = i + 1;
    }
    None
}

/// Whether a notebook other than `except` of user `owner` is titled `title`.
pub fn notebook_title_exists(rows: &Vec<Notebook>, owner: UserId, title: &str, except: usize) -> (r: bool)
    ensures
        r == notebook_title_taken(rows@, owner, title@, except as int),
{
    let mut i: usize = 0;
    while i < rows.len()
        invariant
            i <= rows.len(),
            forall|j: int| 0 <= j < i && j != except ==> !(#[trigger] rows@[j].user_id == owner && rows@[j].notebook_title@ == title@),
        decreases rows.len() - i,
    {
        if i != except && rows[i].user_id == owner && str_eq(rows[i].notebook_title.as_str(), title) {
            return true;
        }
        i = i + 1;
    }
    false
}

/// The notebooks of user `owner`, in table order.
pub fn select_notebooks(rows: &Vec<Notebook>, owner: UserId) -> (r: Vec<Notebook>)
    ensures
        r@ == notebooks_of(rows@, owner),
{
    let mut out: Vec<Notebook> = Vec::new();
    let mut i: usize = 0;
    assert(rows@.take(0) =~= Seq::<Notebook>::empty());
    while i < rows.len()
        invariant
            i <= rows@.len(),
            out@ == notebooks_of(rows@.take(i as int), owner),
        decreases rows.len() - i,
    {
        assert(rows@.take(i + 1).drop_last() =~= rows@.take(i as int));
        if rows[i].user_id == owner {
            out.push(rows[i].clone());
        }
        i = i + 1;
    }
    assert(rows@.take(rows@.len() as int) =~= rows@);
    out
}

/// Why retitling the notebook of id `id` is refused: no such row, or another notebook
/// of the same user has the title.
pub open spec fn notebook_retitle_error(rows: Seq<Notebook>, id: i32, title: Seq<char>) -> Option<BackendError> {
    match notebook_row_from(rows, id, 0) {
        None => Some(BackendError::NotFound),
        Some(i) => if notebook_title_taken(rows, rows[i].user_id, title, i) {
            Some(BackendError::Conflict)
        } else {
            None
        },
    }
}

impl Notebook {
    /// Retitles this notebook's row and returns the notebook with the new title. Another
    /// notebook of the same user with that title is `Conflict`; a vanished row
    /// `NotFound`.
    pub fn set_title(self, db: &mut Database, new_title: &str) -> (r: BackendResult<Notebook>)
        requires
            old(db).wf(),
        ensures
            final(db).wf(),
            same_except_notebooks(*final(db), *old(db)),
            final(db).next_notebook_id == old(db).next_notebook_id,
            match notebook_retitle_error(old(db).notebooks@, self.notebook_id, new_title@) {
                Some(e) => r == Err::<Notebook, BackendError>(e) && *final(db) == *old(db),
                None => r matches Ok(n) && n.notebook_title@ == new_title@ && n == (Notebook { notebook_title: n.notebook_title, ..self })
                    && final(db).notebooks@ == old(db).notebooks@.update(
                    notebook_row_from(old(db).notebooks@, self.notebook_id, 0)->Some_0,
                    (Notebook { notebook_title: n.notebook_title, ..old(db).notebooks@[notebook_row_from(old(db).notebooks@, self.notebook_id, 0)->Some_0] }),
                ),
            },
    {
        let i = match find_notebook_row(&db.notebooks, self.notebook_id) {
            Some(i) => i,
            None => {
                return Err(BackendError::NotFound);
            },
        };
        if notebook_title_exists(&db.notebooks, db.notebooks[i].user_id, new_title, i) {
            return Err(BackendError::Conflict);
        }
        let title = new_title.to_string();
        let ghost old_rows = db.notebooks@;
        let mut row = db.notebooks[i].clone();
        row.notebook_title = title.clone();
        db.notebooks.set(i, row);
        proof {
            let rows = db.notebooks@;
            assert forall|a: int, b: int|
                0 <= a < rows.len() && 0 <= b < rows.len() && a != b && #[trigger] rows[a].user_id == #[trigger] rows[b].user_id
                    implies rows[a].notebook_title@ != rows[b].notebook_title@ by {
                if a == i {
                    assert(old_rows[b].user_id == old_rows[a].user_id && old_rows[b].notebook_title@ == new_title@ ==> notebook_title_taken(old_rows, old_rows[a].user_id, new_title@, i as int));
                } else if b == i {
                    assert(old_rows[a].user_id == old_rows[b].user_id && old_rows[a].notebook_title@ == new_title@ ==> notebook_title_taken(old_rows, old_rows[b].user_id, new_title@, i as int));
                } else {
                    assert(old_rows[a].notebook_title@ != old_rows[b].notebook_title@);
                }
            }
        }
        proof {
            lemma_sections_linked_kept(old_rows, db.notebooks@, db.sections@);
        }
        Ok(Notebook { notebook_title: title, ..self })
    }

    /// Deletes this notebook's row. A vanished row is `NotFound`; a notebook that still
    /// holds sections is `Conflict`.
    pub fn delete(self, db: &mut Database) -> (r: BackendResult<()>)
        requires
            old(db).wf(),
        ensures
            final(db).wf(),
            same_except_notebooks(*final(db), *old(db)),
            final(db).next_notebook_id == old(db).next_notebook_id,
            match notebook_row_from(old(db).notebooks@, self.notebook_id, 0) {
                None => r == Err::<(), BackendError>(BackendError::NotFound) && *final(db) == *old(db),
                Some(i) => if sections_of(old(db).sections@, self.notebook_id).len() > 0 {
                    r == Err::<(), BackendError>(BackendError::Conflict) && *final(db) == *old(db)
                } else {
                    r is Ok && final(db).notebooks@ == old(db).notebooks@.remove(i)
                },
            },
    {
        let i = match find_notebook_row(&db.notebooks, self.notebook_id) {
            Some(i) => i,
            None => {
                return Err(BackendError::NotFound);
            },
        };
        if select_sections(&db.sections, self.notebook_id).len() > 0 {
            return Err(BackendError::Conflict);
        }
        proof {
            lemma_sections_of_empty(db.sections@, self.notebook_id);
            lemma_notebook_row_from(db.notebooks@, self.notebook_id, 0);
        }
        remove_notebook(db, i);
        Ok(())
    }
}

/// Removes the notebook at position `i`.
fn remove_notebook(db: &mut Database, i: usize)
    requires
        old(db).wf(),
        i < old(db).notebooks@.len(),
        forall|k: int|
            0 <= k < old(db).sections@.len() ==> #[trigger] old(db).sections@[k].notebook_id != old(db).notebooks@[i as int].notebook_id,
    ensures
        final(db).wf(),
        same_except_notebooks(*final(db), *old(db)),
        final(db).next_notebook_id == old(db).next_notebook_id,
        final(db).notebooks@ == old(db).notebooks@.remove(i as int),
{
    let ghost old_rows = db.notebooks@;
    proof {
        lemma_sections_linked_removed(old_rows, i as int, db.sections@);
    }
    db.notebooks.remove(i);
    proof {
        let rows = db.notebooks@;
        assert forall|a: int| 0 <= a < rows.len() implies #[trigger] rows[a] == old_rows[if a < i { a } else { a + 1 }] by {}
        assert forall|a: int, b: int|
            0 <= a < rows.len() && 0 <= b < rows.len() && a != b implies #[trigger] rows[a].notebook_id != #[trigger] rows[b].notebook_id by {
            let oa = if a < i { a } else { a + 1 };
            let ob = if b < i { b } else { b + 1 };
            assert(rows[a] == old_rows[oa] && rows[b] == old_rows[ob]);
        }
        assert forall|a: int, b: int|
            0 <= a < rows.len() && 0 <= b < rows.len() && a != b && #[trigger] rows[a].user_id == #[trigger] rows[b].user_id
                implies rows[a].notebook_title@ != rows[b].notebook_title@ by {
            let oa = if a < i { a } else { a + 1 };
            let ob = if b < i { b } else { b + 1 };
            assert(rows[a] == old_rows[oa] && rows[b] == old_rows[ob]);
        }
    }
}

/// Appends `row` to the notebook table and moves the counter past its id.
fn push_notebook(db: &mut Database, row: Notebook)
    requires
        old(db).wf(),
        row.notebook_id == old(db).next_notebook_id,
        old(db).next_notebook_id < i32::MAX,
        !notebook_title_taken(old(db).notebooks@, row.user_id, row.notebook_title@, -1),
        user_present(old(db).users@, row.user_id),
    ensures
        final(db).wf(),
        same_except_notebooks(*final(db), *old(db)),
        final(db).next_notebook_id == old(db).next_notebook_id + 1,
        final(db).notebooks@ == old(db).notebooks@.push(row),
{
    let ghost old_rows = db.notebooks@;
    db.notebooks.push(row);
    db.next_notebook_id = db.next_notebook_id + 1;
    proof {
        lemma_sections_linked_kept(old_rows, db.notebooks@, db.sections@);
        let rows = db.notebooks@;
        assert forall|k: int| 0 <= k < rows.len() implies user_present(db.users@, #[trigger] rows[k].user_id) by {
            if k < old_rows.len() {
                assert(rows[k] == old_rows[k]);
            }
        }
        assert forall|a: int| 0 <= a < old_rows.len() implies #[trigger] rows[a] == old_rows[a] by {}
        assert(rows[old_rows.len() as int] == row);
        assert forall|a: int, b: int|
            0 <= a < rows.len() && 0 <= b < rows.len() && a != b implies #[trigger] rows[a].notebook_id != #[trigger] rows[b].notebook_id by {
            if a < old_rows.len() && b < old_rows.len() {
                assert(rows[a] == old_rows[a] && rows[b] == old_rows[b]);
            }
        }
        assert forall|a: int, b: int|
            0 <= a < rows.len() && 0 <= b < rows.len() && a != b && #[trigger] rows[a].user_id == #[trigger] rows[b].user_id
                implies rows[a].notebook_title@ != rows[b].notebook_title@ by {
            if a < old_rows.len() && b < old_rows.len() {
                assert(rows[a] == old_rows[a] && rows[b] == old_rows[b]);
            } else if a < old_rows.len() {
                assert(rows[a] == old_rows[a]);
            } else {
                assert(rows[b] == old_rows[b]);
            }
        }
    }
}

/// Index of the first section of notebook `owner` titled `title`, scanning from `k`.
pub open spec fn section_from(rows: Seq<Section>, owner: i32, title: Seq<char>, k: int) -> Option<int>
    decreases rows.len() - k,
{
    if k < 0 || k >= rows.len() {
        None
    } else if rows[k].notebook_id == owner && rows[k].section_title@ == title {
        Some(k)
    } else {
        section_from(rows, owner, title, k + 1)
    }
}

/// Index of the first section with id `id`, scanning from `k`.
pub open spec fn section_row_from(rows: Seq<Section>, id: i32, k: int) -> Option<int>
    decreases rows.len() - k,
{
    if k < 0 || k >= rows.len() {
        None
    } else if rows[k].section_id == id {
        Some(k)
    } else {
        section_row_from(rows, id, k + 1)
    }
}

/// The sections of notebook `owner`, in table order.
pub open spec fn sections_of(rows: Seq<Section>, owner: i32) -> Seq<Section>
    decreases rows.len(),
{
    if rows.len() == 0 {
        rows
    } else if rows.last().notebook_id == owner {
        sections_of(rows.drop_last(), owner).push(rows.last())
    } else {
        sections_of(rows.drop_last(), owner)
    }
}

/// Whether a section other than `except` of notebook `owner` is titled `title`.
pub open spec fn section_title_taken(rows: Seq<Section>, owner: i32, title: Seq<char>, except: int) -> bool {
    exists|j: int| 0 <= j < rows.len() && j != except && #[trigger] rows[j].notebook_id == owner && rows[j].section_title@ == title
}

/// Ids unique, positive and below the counter; titles unique within a notebook.
pub open spec fn sections_wf(rows: Seq<Section>, next: i32) -> bool {
    &&& next >= 1
    &&& forall|i: int| 0 <= i < rows.len() ==> 1 <= #[trigger] rows[i].section_id < next
    &&& forall|i: int, j: int|
        0 <= i < rows.len() && 0 <= j < rows.len() && i != j ==> #[trigger] rows[i].section_id != #[trigger] rows[j].section_id
    &&& forall|i: int, j: int|
        0 <= i < rows.len() && 0 <= j < rows.len() && i != j && #[trigger] rows[i].notebook_id == #[trigger] rows[j].notebook_id
            ==> rows[i].section_title@ != rows[j].section_title@
}

/// Only the section table and its counter differ between `a` and `b`.
pub open spec fn same_except_sections(a: Database, b: Database) -> bool {
    &&& a.users == b.users
    &&& a.next_user_id == b.next_user_id
    &&& a.nodes == b.nodes
    &&& a.next_node_id == b.next_node_id
    &&& a.notebooks == b.notebooks
    &&& a.next_notebook_id == b.next_notebook_id
    &&& a.pages == b.pages
    &&& a.next_page_id == b.next_page_id
}

pub proof fn lemma_section_row_from(rows: Seq<Section>, id: i32, k: int)
    requires
        k >= 0,
    ensures
        section_row_from(rows, id, k) matches Some(i) ==> k <= i < rows.len() && rows[i].section_id == id,
        section_row_from(rows, id, k) is None ==> forall|j: int| k <= j < rows.len() ==> #[trigger] rows[j].section_id != id,
    decreases rows.len() - k,
{
    if k < rows.len() && rows[k].section_id != id {
        lemma_section_row_from(rows, id, k + 1);
    }
}

/// Position of the first section of notebook `owner` titled `title`.
pub fn find_section(rows: &Vec<Section>, owner: i32, title: &str) -> (r: Option<usize>)
    ensures
        match r {
            Some(i) => i < rows.len() && section_from(rows@, owner, title@, 0) == Some(i as int),
            None => section_from(rows@, owner, title@, 0) is None,
        },
{
    let mut i: usize = 0;
    while i < rows.len()
        invariant
            i <= rows.len(),
            section_from(rows@, owner, title@, 0) == section_from(rows@, owner, title@, i as int),
        decreases rows.len() - i,
    {
        if rows[i].notebook_id == owner && str_eq(rows[i].section_title.as_str(), title) {
            return Some(i);
        }
        i = i + 1;
    }
    None
}

/// Position of the section with id `id`.
pub fn find_section_row(rows: &Vec<Section>, id: i32) -> (r: Option<usize>)
    ensures
        match r {
            Some(i) => i < rows.len() && section_row_from(rows@, id, 0) == Some(i as int),
            None => section_row_from(rows@, id, 0) is None,
        },
{
    let mut i: usize = 0;
    while i < rows.len()
        invariant
            i <= rows.len(),
            section_row_from(rows@, id, 0) == section_row_from(rows@, id, i as int),
        decreases rows.len() - i,
    {
        if rows[i].section_id == id {
            return Some(i);
        }
        i = i + 1;
    }
    None
}

/// Whether a section other than `except` of notebook `owner` is titled `title`.
pub fn section_title_exists(rows: &Vec<Section>, owner: i32, title: &str, except: usize) -> (r: bool)
    ensures
        r == section_title_taken(rows@, owner, title@, except as int),
{
    let mut i: usize = 0;
    while i < rows.len()
        invariant
            i <= rows.len(),
            forall|j: int| 0 <= j < i && j != except ==> !(#[trigger] rows@[j].notebook_id == owner && rows@[j].section_title@ == title@),
        decreases rows.len() - i,
    {
        if i != except && rows[i].notebook_id == owner && str_eq(rows[i].section_title.as_str(), title) {
            return true;
        }
        i = i + 1;
    }
    false
}

/// The sections of notebook `owner`, in table order.
pub fn select_sections(rows: &Vec<Section>, owner: i32) -> (r: Vec<Section>)
    ensures
        r@ == sections_of(rows@, owner),
{
    let mut out: Vec<Section> = Vec::new();
    let mut i: usize = 0;
    assert(rows@.take(0) =~= Seq::<Section>::empty());
    while i < rows.len()
        invariant
            i <= rows@.len(),
            out@ == sections_of(rows@.take(i as int), owner),
        decreases rows.len() - i,
    {
        assert(rows@.take(i + 1).drop_last() =~= rows@.take(i as int));
        if rows[i].notebook_id == owner {
            out.push(rows[i].clone());
        }
        i = i + 1;
    }
    assert(rows@.take(rows@.len() as int) =~= rows@);
    out
}

/// Why retitling the section of id `id` is refused: no such row, or another section
/// of the same notebook has the title.
pub open spec fn section_retitle_error(rows: Seq<Section>, id: i32, title: Seq<char>) -> Option<BackendError> {
    match section_row_from(rows, id, 0) {
        None => Some(BackendError::NotFound),
        Some(i) => if section_title_taken(rows, rows[i].notebook_id, title, i) {
            Some(BackendError::Conflict)
        } else {
            None
        },
    }
}

impl Section {
    /// Retitles this section's row and returns the section with the new title. Another
    /// section of the same notebook with that title is `Conflict`; a vanished row
    /// `NotFound`.
    pub fn set_title(self, db: &mut Database, new_title: &str) -> (r: BackendResult<Section>)
        requires
            old(db).wf(),
        ensures
            final(db).wf(),
            same_except_sections(*final(db), *old(db)),
            final(db).next_section_id == old(db).next_section_id,
            match section_retitle_error(old(db).sections@, self.section_id, new_title@) {
                Some(e) => r == Err::<Section, BackendError>(e) && *final(db) == *old(db),
                None => r matches Ok(n) && n.section_title@ == new_title@ && n == (Section { section_title: n.section_title, ..self })
                    && final(db).sections@ == old(db).sections@.update(
                    section_row_from(old(db).sections@, self.section_id, 0)->Some_0,
                    (Section { section_title: n.section_title, ..old(db).sections@[section_row_from(old(db).sections@, self.section_id, 0)->Some_0] }),
                ),
            },
    {
        let i = match find_section_row(&db.sections, self.section_id) {
            Some(i) => i,
            None => {
                return Err(BackendError::NotFound);
            },
        };
        if section_title_exists(&db.sections, db.sections[i].notebook_id, new_title, i) {
            return Err(BackendError::Conflict);
        }
        let title = new_title.to_string();
        let ghost old_rows = db.sections@;
        let mut row = db.sections[i].clone();
        row.section_title = title.clone();
        db.sections.set(i, row);
        proof {
            let rows = db.sections@;
            assert forall|a: int, b: int|
                0 <= a < rows.len() && 0 <= b < rows.len() && a != b && #[trigger] rows[a].notebook_id == #[trigger] rows[b].notebook_id
                    implies rows[a].section_title@ != rows[b].section_title@ by {
                if a == i {
                    assert(old_rows[b].notebook_id == old_rows[a].notebook_id && old_rows[b].section_title@ == new_title@ ==> section_title_taken(old_rows, old_rows[a].notebook_id, new_title@, i as int));
                } else if b == i {
                    assert(old_rows[a].notebook_id == old_rows[b].notebook_id && old_rows[a].section_title@ == new_title@ ==> section_title_taken(old_rows, old_rows[b].notebook_id, new_title@, i as int));
                } else {
                    assert(old_rows[a].section_title@ != old_rows[b].section_title@);
                }
            }
        }
        proof {
            let rows = db.sections@;
            assert forall|k: int| 0 <= k < rows.len() implies notebook_present(db.notebooks@, #[trigger] rows[k].notebook_id) by {
                assert(rows[k].notebook_id == old_rows[k].notebook_id);
            }
            lemma_pages_linked_kept(old_rows, rows, db.pages@);
        }
        Ok(Section { section_title: title, ..self })
    }

    /// Deletes this section's row. A vanished row is `NotFound`; a section that still
    /// holds pages is `Conflict`.
    pub fn delete(self, db: &mut Database) -> (r: BackendResult<()>)
        requires
            old(db).wf(),
        ensures
            final(db).wf(),
            same_except_sections(*final(db), *old(db)),
            final(db).next_section_id == old(db).next_section_id,
            match section_row_from(old(db).sections@, self.section_id, 0) {
                None => r == Err::<(), BackendError>(BackendError::NotFound) && *final(db) == *old(db),
                Some(i) => if pages_of(old(db).pages@, self.section_id).len() > 0 {
                    r == Err::<(), BackendError>(BackendError::Conflict) && *final(db) == *old(db)
                } else {
                    r is Ok && final(db).sections@ == old(db).sections@.remove(i)
                },
            },
    {
        let i = match find_section_row(&db.sections, self.section_id) {
            Some(i) => i,
            None => {
                return Err(BackendError::NotFound);
            },
        };
        if select_pages(&db.pages, self.section_id).len() > 0 {
            return Err(BackendError::Conflict);
        }
        proof {
            lemma_pages_of_empty(db.pages@, self.section_id);
            lemma_section_row_from(db.sections@, self.section_id, 0);
        }
        remove_section(db, i);
        Ok(())
    }
}

/// Removes the section at position `i`.
fn remove_section(db: &mut Database, i: usize)
    requires
        old(db).wf(),
        i < old(db).sections@.len(),
        forall|k: int| 0 <= k < old(db).pages@.len() ==> #[trigger] old(db).pages@[k].section_id != old(db).sections@[i as int].section_id,
    ensures
        final(db).wf(),
        same_except_sections(*final(db), *old(db)),
        final(db).next_section_id == old(db).next_section_id,
        final(db).sections@ == old(db).sections@.remove(i as int),
{
    let ghost old_rows = db.sections@;
    proof {
        lemma_pages_linked_removed(old_rows, i as int, db.pages@);
    }
    db.sections.remove(i);
    proof {
        let rows = db.sections@;
        assert forall|k: int| 0 <= k < rows.len() implies notebook_present(db.notebooks@, #[trigger] rows[k].notebook_id) by {
            assert(rows[k] == old_rows[if k < i { k } else { k + 1 }]);
        }
        assert forall|a: int| 0 <= a < rows.len() implies #[trigger] rows[a] == old_rows[if a < i { a } else { a + 1 }] by {}
        assert forall|a: int, b: int|
            0 <= a < rows.len() && 0 <= b < rows.len() && a != b implies #[trigger] rows[a].section_id != #[trigger] rows[b].section_id by {
            let oa = if a < i { a } else { a + 1 };
            let ob = if b < i { b } else { b + 1 };
            assert(rows[a] == old_rows[oa] && rows[b] == old_rows[ob]);
        }
        assert forall|a: int, b: int|
            0 <= a < rows.len() && 0 <= b < rows.len() && a != b && #[trigger] rows[a].notebook_id == #[trigger] rows[b].notebook_id
                implies rows[a].section_title@ != rows[b].section_title@ by {
            let oa = if a < i { a } else { a + 1 };
            let ob = if b < i { b } else { b + 1 };
            assert(rows[a] == old_rows[oa] && rows[b] == old_rows[ob]);
        }
    }
}

/// Appends `row` to the section table and moves the counter past its id.
fn push_section(db: &mut Database, row: Section)
    requires
        old(db).wf(),
        row.section_id == old(db).next_section_id,
        old(db).next_section_id < i32::MAX,
        !section_title_taken(old(db).sections@, row.notebook_id, row.section_title@, -1),
        notebook_present(old(db).notebooks@, row.notebook_id),
    ensures
        final(db).wf(),
        same_except_sections(*final(db), *old(db)),
        final(db).next_section_id == old(db).next_section_id + 1,
        final(db).sections@ == old(db).sections@.push(row),
{
    let ghost old_rows = db.sections@;
    db.sections.push(row);
    db.next_section_id = db.next_section_id + 1;
    proof {
        lemma_pages_linked_kept(old_rows, db.sections@, db.pages@);
        let secs = db.sections@;
        assert forall|k: int| 0 <= k < secs.len() implies notebook_present(db.notebooks@, #[trigger] secs[k].notebook_id) by {
            if k < old_rows.len() {
                assert(secs[k] == old_rows[k]);
            }
        }
        let rows = db.sections@;
        assert forall|a: int| 0 <= a < old_rows.len() implies #[trigger] rows[a] == old_rows[a] by {}
        assert(rows[old_rows.len() as int] == row);
        assert forall|a: int, b: int|
            0 <= a < rows.len() && 0 <= b < rows.len() && a != b implies #[trigger] rows[a].section_id != #[trigger] rows[b].section_id by {
            if a < old_rows.len() && b < old_rows.len() {
                assert(rows[a] == old_rows[a] && rows[b] == old_rows[b]);
            }
        }
        assert forall|a: int, b: int|
            0 <= a < rows.len() && 0 <= b < rows.len() && a != b && #[trigger] rows[a].notebook_id == #[trigger] rows[b].notebook_id
                implies rows[a].section_title@ != rows[b].section_title@ by {
            if a < old_rows.len() && b < old_rows.len() {
                assert(rows[a] == old_rows[a] && rows[b] == old_rows[b]);
            } else if a < old_rows.len() {
                assert(rows[a] == old_rows[a]);
            } else {
                assert(rows[b] == old_rows[b]);
            }
        }
    }
}

/// Index of the first page of section `owner` titled `title`, scanning from `k`.
pub open spec fn page_from(rows: Seq<Page>, owner: i32, title: Seq<char>, k: int) -> Option<int>
    decreases rows.len() - k,
{
    if k < 0 || k >= rows.len() {
        None
    } else if rows[k].section_id == owner && rows[k].page_title@ == title {
        Some(k)
    } else {
        page_from(rows, owner, title, k + 1)
    }
}

/// Index of the first page with id `id`, scanning from `k`.
pub open spec fn page_row_from(rows: Seq<Page>, id: i32, k: int) -> Option<int>
    decreases rows.len() - k,
{
    if k < 0 || k >= rows.len() {
        None
    } else if rows[k].page_id == id {
        Some(k)
    } else {
        page_row_from(rows, id, k + 1)
    }
}

/// The pages of section `owner`, in table order.
pub open spec fn pages_of(rows: Seq<Page>, owner: i32) -> Seq<Page>
    decreases rows.len(),
{
    if rows.len() == 0 {
        rows
    } else if rows.last().section_id == owner {
        pages_of(rows.drop_last(), owner).push(rows.last())
    } else {
        pages_of(rows.drop_last(), owner)
    }
}

/// Whether a page other than `except` of section `owner` is titled `title`.
pub open spec fn page_title_taken(rows: Seq<Page>, owner: i32, title: Seq<char>, except: int) -> bool {
    exists|j: int| 0 <= j < rows.len() && j != except && #[trigger] rows[j].section_id == owner && rows[j].page_title@ == title
}

/// Ids unique, positive and below the counter; titles unique within a section.
pub open spec fn pages_wf(rows: Seq<Page>, next: i32) -> bool {
    &&& next >= 1
    &&& forall|i: int| 0 <= i < rows.len() ==> 1 <= #[trigger] rows[i].page_id < next
    &&& forall|i: int, j: int|
        0 <= i < rows.len() && 0 <= j < rows.len() && i != j ==> #[trigger] rows[i].page_id != #[trigger] rows[j].page_id
    &&& forall|i: int, j: int|
        0 <= i < rows.len() && 0 <= j < rows.len() && i != j && #[trigger] rows[i].section_id == #[trigger] rows[j].section_id
            ==> rows[i].page_title@ != rows[j].page_title@
}

/// Only the page table and its counter differ between `a` and `b`.
pub open spec fn same_except_pages(a: Database, b: Database) -> bool {
    &&& a.users == b.users
    &&& a.next_user_id == b.next_user_id
    &&& a.nodes == b.nodes
    &&& a.next_node_id == b.next_node_id
    &&& a.notebooks == b.notebooks
    &&& a.next_notebook_id == b.next_notebook_id
    &&& a.sections == b.sections
    &&& a.next_section_id == b.next_section_id
}

pub proof fn lemma_page_from(rows: Seq<Page>, owner: i32, title: Seq<char>, k: int)
    requires
        k >= 0,
    ensures
        page_from(rows, owner, title, k) matches Some(i) ==> k <= i < rows.len() && rows[i].section_id == owner
            && rows[i].page_title@ == title,
    decreases rows.len() - k,
{
    if k < rows.len() && !(rows[k].section_id == owner && rows[k].page_title@ == title) {
        lemma_page_from(rows, owner, title, k + 1);
    }
}

pub proof fn lemma_page_row_from(rows: Seq<Page>, id: i32, k: int)
    requires
        k >= 0,
    ensures
        page_row_from(rows, id, k) matches Some(i) ==> k <= i < rows.len() && rows[i].page_id == id,
        page_row_from(rows, id, k) is None ==> forall|j: int| k <= j < rows.len() ==> #[trigger] rows[j].page_id != id,
    decreases rows.len() - k,
{
    if k < rows.len() && rows[k].page_id != id {
        lemma_page_row_from(rows, id, k + 1);
    }
}

/// Position of the first page of section `owner` titled `title`.
pub fn find_page(rows: &Vec<Page>, owner: i32, title: &str) -> (r: Option<usize>)
    ensures
        match r {
            Some(i) => i < rows.len() && page_from(rows@, owner, title@, 0) == Some(i as int),
            None => page_from(rows@, owner, title@, 0) is None,
        },
{
    let mut i: usize = 0;
    while i < rows.len()
        invariant
            i <= rows.len(),
            page_from(rows@, owner, title@, 0) == page_from(rows@, owner, title@, i as int),
        decreases rows.len() - i,
    {
        if rows[i].section_id == owner && str_eq(rows[i].page_title.as_str(), title) {
            return Some(i);
        }
        i = i + 1;
    }
    None
}

/// Position of the page with id `id`.
pub fn find_page_row(rows: &Vec<Page>, id: i32) -> (r: Option<usize>)
    ensures
        match r {
            Some(i) => i < rows.len() && page_row_from(rows@, id, 0) == Some(i as int),
            None => page_row_from(rows@, id, 0) is None,
        },
{
    let mut i: usize = 0;
    while i < rows.len()
        invariant
            i <= rows.len(),
            page_row_from(rows@, id, 0) == page_row_from(rows@, id, i as int),
        decreases rows.len() - i,
    {
        if rows[i].page_id == id {
            return Some(i);
        }
        i = i + 1;
    }
    None
}

/// Whether a page other than `except` of section `owner` is titled `title`.
pub fn page_title_exists(rows: &Vec<Page>, owner: i32, title: &str, except: usize) -> (r: bool)
    ensures
        r == page_title_taken(rows@, owner, title@, except as int),
{
    let mut i: usize = 0;
    while i < rows.len()
        invariant
            i <= rows.len(),
            forall|j: int| 0 <= j < i && j != except ==> !(#[trigger] rows@[j].section_id == owner && rows@[j].page_title@ == title@),
        decreases rows.len() - i,
    {
        if i != except && rows[i].section_id == owner && str_eq(rows[i].page_title.as_str(), title) {
            return true;
        }
        i = i + 1;
    }
    false
}

/// The pages of section `owner`, in table order.
pub fn select_pages(rows: &Vec<Page>, owner: i32) -> (r: Vec<Page>)
    ensures
        r@ == pages_of(rows@, owner),
{
    let mut out: Vec<Page> = Vec::new();
    let mut i: usize = 0;
    assert(rows@.take(0) =~= Seq::<Page>::empty());
    while i < rows.len()
        invariant
            i <= rows@.len(),
            out@ == pages_of(rows@.take(i as int), owner),
        decreases rows.len() - i,
    {
        assert(rows@.take(i + 1).drop_last() =~= rows@.take(i as int));
        if rows[i].section_id == owner {
            out.push(rows[i].clone());
        }
        i = i + 1;
    }
    assert(rows@.take(rows@.len() as int) =~= rows@);
    out
}

/// Why retitling the page of id `id` is refused: no such row, or another page
/// of the same section has the title.
pub open spec fn page_retitle_error(rows: Seq<Page>, id: i32, title: Seq<char>) -> Option<BackendError> {
    match page_row_from(rows, id, 0) {
        None => Some(BackendError::NotFound),
        Some(i) => if page_title_taken(rows, rows[i].section_id, title, i) {
            Some(BackendError::Conflict)
        } else {
            None
        },
    }
}

impl Page {
    /// Retitles this page's row and returns the page with the new title. Another
    /// page of the same section with that title is `Conflict`; a vanished row
    /// `NotFound`.
    pub fn set_title(self, db: &mut Database, new_title: &str) -> (r: BackendResult<Page>)
        requires
            old(db).wf(),
        ensures
            final(db).wf(),
            same_except_pages(*final(db), *old(db)),
            final(db).next_page_id == old(db).next_page_id,
            match page_retitle_error(old(db).pages@, self.page_id, new_title@) {
                Some(e) => r == Err::<Page, BackendError>(e) && *final(db) == *old(db),
                None => r matches Ok(n) && n.page_title@ == new_title@ && n == (Page { page_title: n.page_title, ..self })
                    && final(db).pages@ == old(db).pages@.update(
                    page_row_from(old(db).pages@, self.page_id, 0)->Some_0,
                    (Page { page_title: n.page_title, ..old(db).pages@[page_row_from(old(db).pages@, self.page_id, 0)->Some_0] }),
                ),
            },
    {
        let i = match find_page_row(&db.pages, self.page_id) {
            Some(i) => i,
            None => {
                return Err(BackendError::NotFound);
            },
        };
        if page_title_exists(&db.pages, db.pages[i].section_id, new_title, i) {
            return Err(BackendError::Conflict);
        }
        let title = new_title.to_string();
        let ghost old_rows = db.pages@;
        let mut row = db.pages[i].clone();
        row.page_title = title.clone();
        db.pages.set(i, row);
        proof {
            let rows = db.pages@;
            assert forall|a: int, b: int|
                0 <= a < rows.len() && 0 <= b < rows.len() && a != b && #[trigger] rows[a].section_id == #[trigger] rows[b].section_id
                    implies rows[a].page_title@ != rows[b].page_title@ by {
                if a == i {
                    assert(old_rows[b].section_id == old_rows[a].section_id && old_rows[b].page_title@ == new_title@ ==> page_title_taken(old_rows, old_rows[a].section_id, new_title@, i as int));
                } else if b == i {
                    assert(old_rows[a].section_id == old_rows[b].section_id && old_rows[a].page_title@ == new_title@ ==> page_title_taken(old_rows, old_rows[b].section_id, new_title@, i as int));
                } else {
                    assert(old_rows[a].page_title@ != old_rows[b].page_title@);
                }
            }
        }
        proof {
            let rows = db.pages@;
            assert forall|k: int| 0 <= k < rows.len() implies section_present(db.sections@, #[trigger] rows[k].section_id) by {
                assert(rows[k].section_id == old_rows[k].section_id);
            }
        }
        Ok(Page { page_title: title, ..self })
    }

    /// Deletes this page's row. A vanished row is `NotFound`.
    pub fn delete(self, db: &mut Database) -> (r: BackendResult<()>)
        requires
            old(db).wf(),
        ensures
            final(db).wf(),
            same_except_pages(*final(db), *old(db)),
            final(db).next_page_id == old(db).next_page_id,
            match page_row_from(old(db).pages@, self.page_id, 0) {
                None => r == Err::<(), BackendError>(BackendError::NotFound) && *final(db) == *old(db),
                Some(i) => r is Ok && final(db).pages@ == old(db).pages@.remove(i),
            },
    {
        let i = match find_page_row(&db.pages, self.page_id) {
            Some(i) => i,
            None => {
                return Err(BackendError::NotFound);
            },
        };
        remove_page(db, i);
        Ok(())
    }
}

/// Removes the page at position `i`.
fn remove_page(db: &mut Database, i: usize)
    requires
        old(db).wf(),
        i < old(db).pages@.len(),
    ensures
        final(db).wf(),
        same_except_pages(*final(db), *old(db)),
        final(db).next_page_id == old(db).next_page_id,
        final(db).pages@ == old(db).pages@.remove(i as int),
{
    let ghost old_rows = db.pages@;
    db.pages.remove(i);
    proof {
        let rows = db.pages@;
        assert forall|k: int| 0 <= k < rows.len() implies section_present(db.sections@, #[trigger] rows[k].section_id) by {
            assert(rows[k] == old_rows[if k < i { k } else { k + 1 }]);
        }
        assert forall|a: int| 0 <= a < rows.len() implies #[trigger] rows[a] == old_rows[if a < i { a } else { a + 1 }] by {}
        assert forall|a: int, b: int|
            0 <= a < rows.len() && 0 <= b < rows.len() && a != b implies #[trigger] rows[a].page_id != #[trigger] rows[b].page_id by {
            let oa = if a < i { a } else { a + 1 };
            let ob = if b < i { b } else { b + 1 };
            assert(rows[a] == old_rows[oa] && rows[b] == old_rows[ob]);
        }
        assert forall|a: int, b: int|
            0 <= a < rows.len() && 0 <= b < rows.len() && a != b && #[trigger] rows[a].section_id == #[trigger] rows[b].section_id
                implies rows[a].page_title@ != rows[b].page_title@ by {
            let oa = if a < i { a } else { a + 1 };
            let ob = if b < i { b } else { b + 1 };
            assert(rows[a] == old_rows[oa] && rows[b] == old_rows[ob]);
        }
    }
}

/// Appends `row` to the page table and moves the counter past its id.
fn push_page(db: &mut Database, row: Page)
    requires
        old(db).wf(),
        row.page_id == old(db).next_page_id,
        old(db).next_page_id < i32::MAX,
        !page_title_taken(old(db).pages@, row.section_id, row.page_title@, -1),
        section_present(old(db).sections@, row.section_id),
    ensures
        final(db).wf(),
        same_except_pages(*final(db), *old(db)),
        final(db).next_page_id == old(db).next_page_id + 1,
        final(db).pages@ == old(db).pages@.push(row),
{
    let ghost old_rows = db.pages@;
    db.pages.push(row);
    db.next_page_id = db.next_page_id + 1;
    proof {
        let pgs = db.pages@;
        assert forall|k: int| 0 <= k < pgs.len() implies section_present(db.sections@, #[trigger] pgs[k].section_id) by {
            if k < old_rows.len() {
                assert(pgs[k] == old_rows[k]);
            }
        }
        let rows = db.pages@;
        assert forall|a: int| 0 <= a < old_rows.len() implies #[trigger] rows[a] == old_rows[a] by {}
        assert(rows[old_rows.len() as int] == row);
        assert forall|a: int, b: int|
            0 <= a < rows.len() && 0 <= b < rows.len() && a != b implies #[trigger] rows[a].page_id != #[trigger] rows[b].page_id by {
            if a < old_rows.len() && b < old_rows.len() {
                assert(rows[a] == old_rows[a] && rows[b] == old_rows[b]);
            }
        }
        assert forall|a: int, b: int|
            0 <= a < rows.len() && 0 <= b < rows.len() && a != b && #[trigger] rows[a].section_id == #[trigger] rows[b].section_id
                implies rows[a].page_title@ != rows[b].page_title@ by {
            if a < old_rows.len() && b < old_rows.len() {
                assert(rows[a] == old_rows[a] && rows[b] == old_rows[b]);
            } else if a < old_rows.len() {
                assert(rows[a] == old_rows[a]);
            } else {
                assert(rows[b] == old_rows[b]);
            }
        }
    }
}


/// A page in the nested view of a user's notebooks.
#[derive(Debug, PartialEq, Eq)]
pub struct PagesTreePage {
    pub title: String,
    pub content: String,
}

/// A section in the nested view, with its pages.
#[derive(Debug, PartialEq, Eq)]
pub struct PagesTreeSection {
    pub title: String,
    pub pages: Vec<PagesTreePage>,
}

/// A notebook in the nested view, with its sections.
#[derive(Debug, PartialEq, Eq)]
pub struct PagesTreeNotebook {
    pub title: String,
    pub sections: Vec<PagesTreeSection>,
}

/// All of a user's notebooks, each with its sections, each with its pages.
#[derive(Debug, PartialEq, Eq)]
pub struct PagesTree(pub Vec<PagesTreeNotebook>);

/// `s` shows the section of `src` with its pages, in order.
pub open spec fn section_matches(s: PagesTreeSection, src: (Section, Vec<Page>)) -> bool {
    &&& s.title@ == src.0.section_title@
    &&& s.pages@.len() == src.1@.len()
    &&& forall|k: int|
        0 <= k < s.pages@.len() ==> #[trigger] s.pages@[k].title@ == src.1@[k].page_title@ && s.pages@[k].content@
            == src.1@[k].content@
}

/// `n` shows the notebook of `src` with its sections, in order.
pub open spec fn notebook_matches(n: PagesTreeNotebook, src: (Notebook, Vec<(Section, Vec<Page>)>)) -> bool {
    &&& n.title@ == src.0.notebook_title@
    &&& n.sections@.len() == src.1@.len()
    &&& forall|j: int| 0 <= j < n.sections@.len() ==> #[trigger] section_matches(n.sections@[j], src.1@[j])
}

/// `t` shows the notebooks of `source`, in order.
pub open spec fn tree_matches(t: Seq<PagesTreeNotebook>, source: Seq<(Notebook, Vec<(Section, Vec<Page>)>)>) -> bool {
    &&& t.len() == source.len()
    &&& forall|i: int| 0 <= i < t.len() ==> #[trigger] notebook_matches(t[i], source[i])
}

/// `src` pairs the section `sec` with its pages in `db`.
pub open spec fn section_grouped(src: (Section, Vec<Page>), sec: Section, db: Database) -> bool {
    src.0 == sec && src.1@ == pages_of(db.pages@, sec.section_id)
}

/// `src` pairs the notebook `nb` with its sections in `db`, each grouped.
pub open spec fn notebook_grouped(src: (Notebook, Vec<(Section, Vec<Page>)>), nb: Notebook, db: Database) -> bool {
    let secs = sections_of(db.sections@, nb.notebook_id);
    &&& src.0 == nb
    &&& src.1@.len() == secs.len()
    &&& forall|j: int| 0 <= j < secs.len() ==> #[trigger] section_grouped(src.1@[j], secs[j], db)
}

/// `source` holds the notebooks of `user` in `db`, each grouped.
pub open spec fn tree_grouped(source: Seq<(Notebook, Vec<(Section, Vec<Page>)>)>, db: Database, user: UserId) -> bool {
    let nbs = notebooks_of(db.notebooks@, user);
    &&& source.len() == nbs.len()
    &&& forall|i: int| 0 <= i < nbs.len() ==> #[trigger] notebook_grouped(source[i], nbs[i], db)
}

/// `s` shows the section `sec` of `db` with its pages: titles and content,
/// in table order.
pub open spec fn section_entry(s: PagesTreeSection, sec: Section, db: Database) -> bool {
    let pgs = pages_of(db.pages@, sec.section_id);
    &&& s.title@ == sec.section_title@
    &&& s.pages@.len() == pgs.len()
    &&& forall|k: int|
        0 <= k < pgs.len() ==> #[trigger] s.pages@[k].title@ == pgs[k].page_title@ && s.pages@[k].content@
            == pgs[k].content@
}

/// `n` shows the notebook `nb` of `db` with its sections, in table order.
pub open spec fn notebook_entry(n: PagesTreeNotebook, nb: Notebook, db: Database) -> bool {
    let secs = sections_of(db.sections@, nb.notebook_id);
    &&& n.title@ == nb.notebook_title@
    &&& n.sections@.len() == secs.len()
    &&& forall|j: int| 0 <= j < secs.len() ==> #[trigger] section_entry(n.sections@[j], secs[j], db)
}

/// `t` shows exactly the notebooks of `user` in `db`, in table order, each
/// with its sections and pages.
pub open spec fn tree_of(t: Seq<PagesTreeNotebook>, db: Database, user: UserId) -> bool {
    let nbs = notebooks_of(db.notebooks@, user);
    &&& t.len() == nbs.len()
    &&& forall|i: int| 0 <= i < t.len() ==> #[trigger] notebook_entry(t[i], nbs[i], db)
}

/// The view of one section with its pages.
fn tree_section(src: &(Section, Vec<Page>)) -> (r: PagesTreeSection)
    ensures
        section_matches(r, *src),
{
    let mut pages: Vec<PagesTreePage> = Vec::new();
    let mut k: usize = 0;
    while k < src.1.len()
        invariant
            k <= src.1@.len(),
            pages@.len() == k,
            forall|a: int| 0 <= a < k ==> #[trigger] pages@[a].title@ == src.1@[a].page_title@ && pages@[a].content@
                == src.1@[a].content@,
        decreases src.1.len() - k,
    {
        pages.push(PagesTreePage { title: src.1[k].page_title.clone(), content: src.1[k].content.clone() });
        k = k + 1;
    }
    PagesTreeSection { title: src.0.section_title.clone(), pages }
}

/// The view of one notebook with its sections.
fn tree_notebook(src: &(Notebook, Vec<(Section, Vec<Page>)>)) -> (r: PagesTreeNotebook)
    ensures
        notebook_matches(r, *src),
{
    let mut sections: Vec<PagesTreeSection> = Vec::new();
    let mut j: usize = 0;
    while j < src.1.len()
        invariant
            j <= src.1@.len(),
            sections@.len() == j,
            forall|a: int| 0 <= a < j ==> #[trigger] section_matches(sections@[a], src.1@[a]),
        decreases src.1.len() - j,
    {
        let s = tree_section(&src.1[j]);
        sections.push(s);
        j = j + 1;
    }
    PagesTreeNotebook { title: src.0.notebook_title.clone(), sections }
}

/// With the grouping and the view of the same source, the view shows the
/// user's notebooks of the store.
proof fn lemma_tree_of(t: Seq<PagesTreeNotebook>, source: Seq<(Notebook, Vec<(Section, Vec<Page>)>)>, db: Database, user: UserId)
    requires
        tree_matches(t, source),
        tree_grouped(source, db, user),
    ensures
        tree_of(t, db, user),
{
    let nbs = notebooks_of(db.notebooks@, user);
    assert forall|i: int| 0 <= i < t.len() implies #[trigger] notebook_entry(t[i], nbs[i], db) by {
        assert(notebook_matches(t[i], source[i]));
        assert(notebook_grouped(source[i], nbs[i], db));
        let secs = sections_of(db.sections@, nbs[i].notebook_id);
        assert forall|j: int| 0 <= j < secs.len() implies #[trigger] section_entry(t[i].sections@[j], secs[j], db) by {
            assert(section_matches(t[i].sections@[j], source[i].1@[j]));
            assert(section_grouped(source[i].1@[j], secs[j], db));
        }
    }
}

/// `db1` and `db2` hold the same notebooks of `user`, the same sections in
/// each of them and the same pages in each of those sections.
pub open spec fn same_rows_of_user(db1: Database, db2: Database, user: UserId) -> bool {
    let nbs = notebooks_of(db1.notebooks@, user);
    &&& nbs == notebooks_of(db2.notebooks@, user)
    &&& forall|i: int|
        0 <= i < nbs.len() ==> sections_of(db1.sections@, #[trigger] nbs[i].notebook_id) == sections_of(
            db2.sections@,
            nbs[i].notebook_id,
        )
    &&& forall|i: int, j: int|
        0 <= i < nbs.len() && 0 <= j < sections_of(db1.sections@, nbs[i].notebook_id).len() ==> pages_of(
            db1.pages@,
            #[trigger] sections_of(db1.sections@, #[trigger] nbs[i].notebook_id)[j].section_id,
        ) == pages_of(db2.pages@, sections_of(db1.sections@, nbs[i].notebook_id)[j].section_id)
}

/// A user's tree depends only on that user's notebooks and the sections and
/// pages under them: rows of other users do not change it.
pub proof fn lemma_tree_of_own_rows(t: Seq<PagesTreeNotebook>, db1: Database, db2: Database, user: UserId)
    requires
        same_rows_of_user(db1, db2, user),
    ensures
        tree_of(t, db1, user) == tree_of(t, db2, user),
{
    let nbs = notebooks_of(db1.notebooks@, user);
    assert forall|i: int| 0 <= i < nbs.len() implies #[trigger] notebook_entry(t[i], nbs[i], db1)
        == notebook_entry(t[i], nbs[i], db2) by {
        let n = t[i];
        let secs = sections_of(db1.sections@, nbs[i].notebook_id);
        assert(secs == sections_of(db2.sections@, nbs[i].notebook_id));
        assert forall|j: int| 0 <= j < secs.len() implies #[trigger] section_entry(n.sections@[j], secs[j], db1)
            == section_entry(n.sections@[j], secs[j], db2) by {
            assert(pages_of(db1.pages@, secs[j].section_id) == pages_of(db2.pages@, secs[j].section_id));
        }
        if notebook_entry(n, nbs[i], db1) {
            assert forall|j: int| 0 <= j < secs.len() implies #[trigger] section_entry(n.sections@[j], secs[j], db2) by {
                assert(section_entry(n.sections@[j], secs[j], db1));
            }
        }
        if notebook_entry(n, nbs[i], db2) {
            assert forall|j: int| 0 <= j < secs.len() implies #[trigger] section_entry(n.sections@[j], secs[j], db1) by {
                assert(section_entry(n.sections@[j], secs[j], db2));
            }
        }
    }
    if tree_of(t, db1, user) {
        assert forall|i: int| 0 <= i < t.len() implies #[trigger] notebook_entry(t[i], nbs[i], db2) by {
            assert(notebook_entry(t[i], nbs[i], db1));
        }
    }
    if tree_of(t, db2, user) {
        assert forall|i: int| 0 <= i < t.len() implies #[trigger] notebook_entry(t[i], nbs[i], db1) by {
            assert(notebook_entry(t[i], nbs[i], db2));
        }
    }
}

impl PagesTree {
    /// The nested view of notebooks already grouped with their sections and
    /// pages: titles and content, in the order given.
    pub fn construct(source: &[(Notebook, Vec<(Section, Vec<Page>)>)]) -> (r: PagesTree)
        ensures
            tree_matches(r.0@, source@),
    {
        let mut result: Vec<PagesTreeNotebook> = Vec::new();
        let mut i: usize = 0;
        while i < source.len()
            invariant
                i <= source@.len(),
                result@.len() == i,
                forall|a: int| 0 <= a < i ==> #[trigger] notebook_matches(result@[a], source@[a]),
            decreases source.len() - i,
        {
            let n = tree_notebook(&source[i]);
            result.push(n);
            i = i + 1;
        }
        PagesTree(result)
    }

    /// Loads the notebooks of `user_id`, the sections of each and the pages
    /// of each section, and nests them: exactly that user's notebooks, in
    /// table order at every level.
    pub fn fetch_for_user(db: &Database, user_id: UserId) -> (r: BackendResult<PagesTree>)
        ensures
            r matches Ok(t) && tree_of(t.0@, *db, user_id),
    {
        let notebooks = Notebook::load_for_user(db, user_id)?;
        let mut source: Vec<(Notebook, Vec<(Section, Vec<Page>)>)> = Vec::new();
        let mut i: usize = 0;
        while i < notebooks.len()
            invariant
                notebooks@ == notebooks_of(db.notebooks@, user_id),
                i <= notebooks@.len(),
                source@.len() == i,
                forall|a: int| 0 <= a < i ==> #[trigger] notebook_grouped(source@[a], notebooks@[a], *db),
            decreases notebooks.len() - i,
        {
            let nb = notebooks[i].clone();
            let sections = select_sections(&db.sections, nb.notebook_id);
            let mut grouped: Vec<(Section, Vec<Page>)> = Vec::new();
            let mut j: usize = 0;
            while j < sections.len()
                invariant
                    sections@ == sections_of(db.sections@, nb.notebook_id),
                    j <= sections@.len(),
                    grouped@.len() == j,
                    forall|a: int| 0 <= a < j ==> #[trigger] section_grouped(grouped@[a], sections@[a], *db),
                decreases sections.len() - j,
            {
                let pages = select_pages(&db.pages, sections[j].section_id);
                grouped.push((sections[j].clone(), pages));
                j = j + 1;
            }
            source.push((nb, grouped));
            i = i + 1;
        }
        let tree = PagesTree::construct(source.as_slice());
        proof {
            lemma_tree_of(tree.0@, source@, *db, user_id);
        }
        Ok(tree)
    }
}

} // verus!
