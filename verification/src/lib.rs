//! A digest of a source tree: a drawing of the directory tree followed by the
//! text of the files, with build outputs, lock files, binaries and large
//! files left out.
//!
//! A run goes through these steps, each with a module of its own:
//!
//! - `rules` makes the ordered list of override lines from the built-in and
//!   the user's patterns and compiles it into the matcher for the walk;
//! - `classify` decides for each discovered file whether its content is
//!   taken, and gives the two listings, sorted by `order`;
//! - `tree` builds the hierarchy of names from the tree listing and draws it;
//! - `content` frames the text of each file of the content listing;
//! - `digest` puts the document together.
//!
//! `paths` and `text` hold what the steps share, `settings` what a run is
//! asked to do. Walking the directory, reading the files and writing the
//! digest are the caller's part: the library works on paths, sizes and texts
//! that it is handed.

pub mod classify;
pub mod content;
pub mod digest;
pub mod order;
pub mod paths;
pub mod rules;
pub mod settings;
pub mod text;
pub mod tree;
