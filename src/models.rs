//! The rows of the store: users, nodes, and the notebook hierarchy.
pub mod nodes;
pub mod notebooks;
pub mod users;

pub use nodes::{NewNode, NewNodePayload, Node, NodeId, NodeName, OwnedPath};
pub use notebooks::{
    NewNotebook, NewPage, NewSection, Notebook, Page, PagePath, PagesTree, PagesTreeNotebook,
    PagesTreePage, PagesTreeSection, Section,
};
pub use users::{NewUser, User, UserId};
