use vstd::prelude::*;

use crate::database::Database;
use crate::errors::{BackendError, BackendResult};
use crate::jwt::Claims;
use crate::models::notebooks::{
    find_page_row, lemma_page_from, lemma_page_row_from, notebook_create_error, notebook_named,
    notebook_retitle_error, notebook_row_from, page_at, page_create_error, page_from, page_row_from,
    page_title_exists, page_title_taken, pages_of, same_except_notebooks, same_except_pages,
    same_except_sections, section_at, section_create_error, section_retitle_error, section_row_from,
    sections_of, tree_of, NewNotebook, NewPage, NewSection, Notebook, Page, PagePath, PagesTree, Section,
};

verus! {

/// The characters of a text.
pub open spec fn text_of(s: String) -> Seq<char> {
    s@
}

/// The title of a new notebook.
pub struct CreateNotebookPayload<'a> {
    pub notebook_title: &'a str,
}

/// A new title for a notebook, if any.
pub struct ModifyNotebookPayload {
    pub notebook_title: Option<String>,
}

/// The title of a new section.
pub struct CreateSectionPayload<'a> {
    pub section_title: &'a str,
}

/// A new title for a section, if any.
pub struct ModifySectionPayload {
    pub section_title: Option<String>,
}

/// The title and content of a new page.
pub struct CreatePagePayload<'a> {
    pub page_title: &'a str,
    pub content: &'a str,
}

/// A new title and new content for a page, each if any.
pub struct ModifyPagePayload {
    pub page_title: Option<String>,
    pub content: Option<String>,
}

/// Creates a notebook for the caller.
pub fn create_notebook<'a>(claims: &Claims, db: &mut Database, payload: &CreateNotebookPayload<'a>) -> (r: BackendResult<Notebook>)
    requires
        old(db).wf(),
    ensures
        final(db).wf(),
        same_except_notebooks(*final(db), *old(db)),
        match notebook_create_error(*old(db), claims.sub, payload.notebook_title@) {
            Some(e) => r == Err::<Notebook, BackendError>(e) && *final(db) == *old(db),
            None => r matches Ok(n) && n.notebook_title@ == payload.notebook_title@ && n.user_id == claims.sub
                && final(db).notebooks@ == old(db).notebooks@.push(n),
        },
{
    Notebook::create(db, &NewNotebook { notebook_title: payload.notebook_title, user_id: claims.id() })
}

/// Retitles the caller's notebook `notebook_title` where the payload gives a
/// new title, and returns it.
pub fn modify_notebook(claims: &Claims, db: &mut Database, notebook_title: &str, payload: &ModifyNotebookPayload) -> (r:
    BackendResult<Notebook>)
    requires
        old(db).wf(),
    ensures
        final(db).wf(),
        same_except_notebooks(*final(db), *old(db)),
        match notebook_named(old(db).notebooks@, claims.sub, notebook_title@) {
            None => r == Err::<Notebook, BackendError>(BackendError::NotFound) && *final(db) == *old(db),
            Some(nb) => match payload.notebook_title {
                None => r == Ok::<Notebook, BackendError>(nb) && *final(db) == *old(db),
                Some(t) => match notebook_retitle_error(old(db).notebooks@, nb.notebook_id, t@) {
                    Some(e) => r == Err::<Notebook, BackendError>(e) && *final(db) == *old(db),
                    None => r matches Ok(n) && n.notebook_title@ == t@ && n == (Notebook {
                        notebook_title: n.notebook_title,
                        ..nb
                    }) && final(db).notebooks@ == old(db).notebooks@.update(
                        notebook_row_from(old(db).notebooks@, nb.notebook_id, 0)->Some_0,
                        Notebook {
                            notebook_title: n.notebook_title,
                            ..old(db).notebooks@[notebook_row_from(old(db).notebooks@, nb.notebook_id, 0)->Some_0]
                        },
                    ),
                },
            },
        },
{
    let notebook = Notebook::load_for_user_by_title(db, claims.id(), notebook_title)?;
    match &payload.notebook_title {
        Some(t) => notebook.set_title(db, t.as_str()),
        None => Ok(notebook),
    }
}

/// Deletes the caller's notebook `notebook_title`, which must hold no
/// sections.
pub fn delete_notebook(claims: &Claims, db: &mut Database, notebook_title: &str) -> (r: BackendResult<()>)
    requires
        old(db).wf(),
    ensures
        final(db).wf(),
        same_except_notebooks(*final(db), *old(db)),
        match notebook_named(old(db).notebooks@, claims.sub, notebook_title@) {
            None => r == Err::<(), BackendError>(BackendError::NotFound) && *final(db) == *old(db),
            Some(nb) => match notebook_row_from(old(db).notebooks@, nb.notebook_id, 0) {
                None => r == Err::<(), BackendError>(BackendError::NotFound) && *final(db) == *old(db),
                Some(i) => if sections_of(old(db).sections@, nb.notebook_id).len() > 0 {
                    r == Err::<(), BackendError>(BackendError::Conflict) && *final(db) == *old(db)
                } else {
                    r is Ok && final(db).notebooks@ == old(db).notebooks@.remove(i)
                },
            },
        },
{
    let notebook = Notebook::load_for_user_by_title(db, claims.id(), notebook_title)?;
    notebook.delete(db)
}

/// Creates a section in the caller's notebook `notebook_title`.
pub fn create_section<'a>(
    claims: &Claims,
    db: &mut Database,
    notebook_title: &str,
    payload: &CreateSectionPayload<'a>,
) -> (r: BackendResult<Section>)
    requires
        old(db).wf(),
    ensures
        final(db).wf(),
        same_except_sections(*final(db), *old(db)),
        match notebook_named(old(db).notebooks@, claims.sub, notebook_title@) {
            None => r == Err::<Section, BackendError>(BackendError::NotFound) && *final(db) == *old(db),
            Some(nb) => match section_create_error(*old(db), nb.notebook_id, payload.section_title@) {
                Some(e) => r == Err::<Section, BackendError>(e) && *final(db) == *old(db),
                None => r matches Ok(s) && s.section_title@ == payload.section_title@ && s.notebook_id == nb.notebook_id
                    && final(db).sections@ == old(db).sections@.push(s),
            },
        },
{
    let notebook = Notebook::load_for_user_by_title(db, claims.id(), notebook_title)?;
    Section::create(db, &NewSection { notebook_id: notebook.notebook_id, section_title: payload.section_title })
}

/// Retitles the caller's section where the payload gives a new title, and
/// returns it.
pub fn modify_section(
    claims: &Claims,
    db: &mut Database,
    notebook_title: &str,
    section_title: &str,
    payload: &ModifySectionPayload,
) -> (r: BackendResult<Section>)
    requires
        old(db).wf(),
    ensures
        final(db).wf(),
        same_except_sections(*final(db), *old(db)),
        match section_at(*old(db), claims.sub, notebook_title@, section_title@) {
            None => r == Err::<Section, BackendError>(BackendError::NotFound) && *final(db) == *old(db),
            Some(sec) => match payload.section_title {
                None => r == Ok::<Section, BackendError>(sec) && *final(db) == *old(db),
                Some(t) => match section_retitle_error(old(db).sections@, sec.section_id, t@) {
                    Some(e) => r == Err::<Section, BackendError>(e) && *final(db) == *old(db),
                    None => r matches Ok(s) && s.section_title@ == t@ && s == (Section {
                        section_title: s.section_title,
                        ..sec
                    }) && final(db).sections@ == old(db).sections@.update(
                        section_row_from(old(db).sections@, sec.section_id, 0)->Some_0,
                        Section {
                            section_title: s.section_title,
                            ..old(db).sections@[section_row_from(old(db).sections@, sec.section_id, 0)->Some_0]
                        },
                    ),
                },
            },
        },
{
    let section = Section::load_for_user_by_path(db, claims.id(), notebook_title, section_title)?;
    match &payload.section_title {
        Some(t) => section.set_title(db, t.as_str()),
        None => Ok(section),
    }
}

/// Deletes the caller's section, which must hold no pages.
pub fn delete_section(claims: &Claims, db: &mut Database, notebook_title: &str, section_title: &str) -> (r:
    BackendResult<()>)
    requires
        old(db).wf(),
    ensures
        final(db).wf(),
        same_except_sections(*final(db), *old(db)),
        match section_at(*old(db), claims.sub, notebook_title@, section_title@) {
            None => r == Err::<(), BackendError>(BackendError::NotFound) && *final(db) == *old(db),
            Some(sec) => match section_row_from(old(db).sections@, sec.section_id, 0) {
                None => r == Err::<(), BackendError>(BackendError::NotFound) && *final(db) == *old(db),
                Some(i) => if pages_of(old(db).pages@, sec.section_id).len() > 0 {
                    r == Err::<(), BackendError>(BackendError::Conflict) && *final(db) == *old(db)
                } else {
                    r is Ok && final(db).sections@ == old(db).sections@.remove(i)
                },
            },
        },
{
    let section = Section::load_for_user_by_path(db, claims.id(), notebook_title, section_title)?;
    section.delete(db)
}

/// Creates a page in the caller's section.
pub fn create_page<'a>(
    claims: &Claims,
    db: &mut Database,
    notebook_title: &str,
    section_title: &str,
    payload: &CreatePagePayload<'a>,
) -> (r: BackendResult<Page>)
    requires
        old(db).wf(),
    ensures
        final(db).wf(),
        same_except_pages(*final(db), *old(db)),
        match section_at(*old(db), claims.sub, notebook_title@, section_title@) {
            None => r == Err::<Page, BackendError>(BackendError::NotFound) && *final(db) == *old(db),
            Some(sec) => match page_create_error(*old(db), sec.section_id, payload.page_title@) {
                Some(e) => r == Err::<Page, BackendError>(e) && *final(db) == *old(db),
                None => r matches Ok(p) && p.page_title@ == payload.page_title@ && p.content@ == payload.content@
                    && p.section_id == sec.section_id && final(db).pages@ == old(db).pages@.push(p),
            },
        },
{
    let notebook = Notebook::load_for_user_by_title(db, claims.id(), notebook_title)?;
    let section = Section::load_for_notebook_with_title(db, notebook.notebook_id, section_title)?;
    Page::create(
        db,
        &NewPage { section_id: section.section_id, page_title: payload.page_title, content: payload.content },
    )
}

/// The row that `modify_page` stores for `pg`.
pub open spec fn modified_page(pg: Page, title: Option<String>, content: Option<String>) -> Page {
    Page {
        page_title: match title {
            Some(t) => t,
            None => pg.page_title,
        },
        content: match content {
            Some(c) => c,
            None => pg.content,
        },
        ..pg
    }
}

/// Sets the content and the title of the caller's page, each where the
/// payload gives one, and returns the page. A title that another page of
/// the section has is `Conflict`, and then nothing changes.
pub fn modify_page(
    claims: &Claims,
    db: &mut Database,
    notebook_title: &str,
    section_title: &str,
    page_title: &str,
    payload: &ModifyPagePayload,
) -> (r: BackendResult<Page>)
    requires
        old(db).wf(),
    ensures
        final(db).wf(),
        same_except_pages(*final(db), *old(db)),
        match page_at(*old(db), claims.sub, (notebook_title@, section_title@, page_title@)) {
            None => r == Err::<Page, BackendError>(BackendError::NotFound) && *final(db) == *old(db),
            Some(pg) => {
                let i = page_row_from(old(db).pages@, pg.page_id, 0)->Some_0;
                if payload.page_title matches Some(t) && page_title_taken(old(db).pages@, pg.section_id, t@, i) {
                    r == Err::<Page, BackendError>(BackendError::Conflict) && *final(db) == *old(db)
                } else {
                    r matches Ok(p) && text_of(p.page_title) == text_of(
                        modified_page(pg, payload.page_title, payload.content).page_title,
                    ) && text_of(p.content) == text_of(modified_page(pg, payload.page_title, payload.content).content)
                        && p.page_id == pg.page_id && p.section_id == pg.section_id && final(db).pages@
                        == old(db).pages@.update(i, p)
                }
            },
        },
{
    let page = Page::load_for_user_by_path(
        db,
        claims.id(),
        &PagePath { notebook_title, section_title, page_title },
    )?;
    let ghost old_pages = db.pages@;
    let ghost sec = section_at(*db, claims.sub, notebook_title@, section_title@)->Some_0;
    proof {
        let k = page_from(old_pages, sec.section_id, page_title@, 0)->Some_0;
        lemma_page_from(old_pages, sec.section_id, page_title@, 0);
        lemma_page_row_from(old_pages, page.page_id, 0);
        assert(old_pages[k].page_id == page.page_id);
    }
    let i = match find_page_row(&db.pages, page.page_id) {
        Some(i) => i,
        None => {
            return Err(BackendError::NotFound);
        },
    };
    if let Some(t) = &payload.page_title {
        if page_title_exists(&db.pages, db.pages[i].section_id, t.as_str(), i) {
            return Err(BackendError::Conflict);
        }
    }
    let page = match &payload.content {
        Some(c) => page.set_content(db, c.as_str())?,
        None => page,
    };
    proof {
        let pages = db.pages@;
        lemma_page_row_from(pages, page.page_id, 0);
        assert(pages[i as int].page_id == page.page_id);
        if payload.page_title is Some {
            let t = payload.page_title->Some_0;
            assert forall|j: int| 0 <= j < pages.len() implies #[trigger] pages[j].section_id == old_pages[j].section_id
                && pages[j].page_title == old_pages[j].page_title by {}
            assert(page_title_taken(pages, pages[i as int].section_id, t@, i as int) == page_title_taken(
                old_pages,
                old_pages[i as int].section_id,
                t@,
                i as int,
            ));
        }
    }
    match &payload.page_title {
        Some(t) => page.set_title(db, t.as_str()),
        None => Ok(page),
    }
}

/// Deletes the caller's page.
pub fn delete_page(
    claims: &Claims,
    db: &mut Database,
    notebook_title: &str,
    section_title: &str,
    page_title: &str,
) -> (r: BackendResult<()>)
    requires
        old(db).wf(),
    ensures
        final(db).wf(),
        same_except_pages(*final(db), *old(db)),
        match page_at(*old(db), claims.sub, (notebook_title@, section_title@, page_title@)) {
            None => r == Err::<(), BackendError>(BackendError::NotFound) && *final(db) == *old(db),
            Some(pg) => match page_row_from(old(db).pages@, pg.page_id, 0) {
                None => r == Err::<(), BackendError>(BackendError::NotFound) && *final(db) == *old(db),
                Some(i) => r is Ok && final(db).pages@ == old(db).pages@.remove(i),
            },
        },
{
    let page = Page::load_for_user_by_path(
        db,
        claims.id(),
        &PagePath { notebook_title, section_title, page_title },
    )?;
    page.delete(db)
}

/// The caller's notebooks, nested with their sections and pages.
pub fn fetch_notebooks(claims: &Claims, db: &Database) -> (r: BackendResult<PagesTree>)
    ensures
        r matches Ok(t) && tree_of(t.0@, *db, claims.sub),
{
    PagesTree::fetch_for_user(db, claims.id())
}

} // verus!
