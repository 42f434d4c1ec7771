//! Directory browsing logic: which entries of a directory are listed, in
//! which order, how a directory tree is shown and searched, and how the
//! browser state answers the user's actions.

pub mod text;
pub mod listing;
pub mod tree;
pub mod browser;
pub mod args;
