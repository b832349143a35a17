//! The logic of a web front end for git repositories.

pub mod archive;
pub mod commits;
pub mod diffs;
pub mod escape;
pub mod filters;
pub mod highlight;
pub mod markup;
pub mod moments;
pub mod objects;
pub mod page_laws;
pub mod paths;
pub mod refs;
pub mod requests;
pub mod scope_laws;
pub mod syntax;
pub mod text;
