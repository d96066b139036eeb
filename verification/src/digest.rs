//! The digest document: the drawing of the tree and the content listing
//! under their labels.

use vstd::prelude::*;
use vstd::string::StringExecFns;
use crate::content::{content_text, content_views, render_contents, ContentModel, FileContent};
use crate::paths::{path_views, RelPath};
use crate::tree::{generate_tree, render_tree, tree_of};

verus! {

/// The digest document: the label of the tree, the tree, a blank line, the
/// label of the content section, and the blocks.
pub open spec fn digest_text(tree: Seq<char>, contents: Seq<char>) -> Seq<char> {
    "Directory structure:\n"@ + tree + "\n"@ + "\n\nFiles Content:\n\n"@ + contents
}

/// The digest of a root directory of the given name: the tree of the given
/// files and the blocks of the given contents.
pub open spec fn digest_of(
    root_name: Seq<char>,
    tree_files: Seq<Seq<Seq<char>>>,
    contents: Seq<ContentModel>,
) -> Seq<char> {
    digest_text(render_tree(tree_of(root_name, tree_files)), content_text(contents))
}

/// Puts the digest document together from the drawing of the tree and the
/// content listing.
pub fn compose_digest(tree: &str, contents: &str) -> (digest: String)
    ensures
        digest@ == digest_text(tree@, contents@),
{
    let mut digest = String::from_str("Directory structure:\n");
    digest.append(tree);
    digest.append("\n");
    digest.append("\n\nFiles Content:\n\n");
    digest.append(contents);
    digest
}

/// Makes the digest of a run, where there is anything to show: without a
/// file for the tree no digest is made.
pub fn render_digest(
    root_name: &str,
    tree_files: &Vec<RelPath>,
    files: &Vec<FileContent>,
) -> (digest: Option<String>)
    ensures
        match digest {
            Some(text) => tree_files@.len() > 0 && text@ == digest_of(
                root_name@,
                path_views(tree_files@),
                content_views(files@),
            ),
            None => tree_files@.len() == 0,
        },
{
    if tree_files.len() == 0 {
        return None;
    }
    let tree = generate_tree(root_name, tree_files.as_slice());
    let contents = render_contents(files);
    Some(compose_digest(tree.as_str(), contents.as_str()))
}

} // verus!
