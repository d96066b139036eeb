//! Relative paths: a file's place below the root, as the sequence of its
//! path components.

use vstd::prelude::*;
use vstd::string::StringExecFns;

verus! {

/// A path relative to the root that a digest is made of: directory names from
/// the root downwards, then the file name.
#[derive(Clone, Debug, PartialEq, Eq)]
pub struct RelPath {
    pub components: Vec<String>,
}

impl View for RelPath {
    type V = Seq<Seq<char>>;

    open spec fn view(&self) -> Seq<Seq<char>> {
        Seq::new(self.components@.len(), |i: int| self.components@[i]@)
    }
}

/// The paths that a list of `RelPath`s stands for, in the same order.
pub open spec fn path_views(paths: Seq<RelPath>) -> Seq<Seq<Seq<char>>> {
    Seq::new(paths.len(), |i: int| paths[i]@)
}

/// The text of a path: its components with a `/` between neighbours.
pub open spec fn path_text(path: Seq<Seq<char>>) -> Seq<char>
    decreases path.len(),
{
    if path.len() == 0 {
        Seq::empty()
    } else if path.len() == 1 {
        path[0]
    } else {
        path_text(path.drop_last()) + seq!['/'] + path.last()
    }
}

impl RelPath {
    /// The path with the given components.
    pub fn new(components: Vec<String>) -> (path: RelPath)
        ensures
            path.components == components,
    {
        RelPath { components }
    }

    /// The number of components.
    pub fn depth(&self) -> (n: usize)
        ensures
            n == self@.len(),
    {
        self.components.len()
    }

    /// The last component, where there is one.
    pub fn file_name(&self) -> (name: Option<&String>)
        ensures
            match name {
                Some(n) => self@.len() > 0 && n@ == self@.last(),
                None => self@.len() == 0,
            },
    {
        let n = self.components.len();
        if n == 0 {
            None
        } else {
            Some(&self.components[n - 1])
        }
    }

    /// The path as text, with `/` between the components.
    pub fn text(&self) -> (text: String)
        ensures
            text@ == path_text(self@),
    {
        let mut text = String::new();
        let n = self.components.len();
        let mut i: usize = 0;
        while i < n
            invariant
                n == self.components.len(),
                i <= n,
                text@ == path_text(self@.take(i as int)),
            decreases n - i,
        {
            proof {
                let next = self@.take(i + 1);
                assert(next.drop_last() =~= self@.take(i as int));
            }
            if i > 0 {
                text.append("/");
                proof {
                    reveal_strlit("/");
                }
            }
            text.append(self.components[i].as_str());
            i = i + 1;
        }
        assert(self@.take(n as int) =~= self@);
        text
    }

    /// A copy of the path.
    pub fn duplicate(&self) -> (copy: RelPath)
        ensures
            copy@ == self@,
    {
        let mut components: Vec<String> = Vec::new();
        let n = self.components.len();
        let mut i: usize = 0;
        while i < n
            invariant
                n == self.components.len(),
                i <= n,
                components@.len() == i,
                forall|j: int| 0 <= j < i ==> components@[j]@ == self.components@[j]@,
            decreases n - i,
        {
            components.push(self.components[i].clone());
            i = i + 1;
        }
        let copy = RelPath { components };
        copy
    }
}

} // verus!
