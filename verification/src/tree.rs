//! The directory tree of a digest: a hierarchy of names built from a flat
//! list of relative paths and drawn with box-drawing connectors.

use vstd::prelude::*;
use vstd::string::StringExecFns;
use crate::paths::{path_views, RelPath};
use crate::text::{
    lemma_lex_irreflexive, lemma_lex_total, lemma_lex_transitive, lex_lt, str_eq, str_lt,
};

verus! {

/// What a tree node stands for: a name and the nodes below it.
pub struct TreeModel {
    pub name: Seq<char>,
    pub children: Seq<TreeModel>,
}

/// A node without children.
pub open spec fn leaf(name: Seq<char>) -> TreeModel {
    TreeModel { name, children: Seq::empty() }
}

/// Each child's name comes strictly before the names of the children after
/// it: the children are in lexical order and no name occurs twice.
pub open spec fn names_ascend(children: Seq<TreeModel>) -> bool {
    forall|i: int, j: int|
        0 <= i < j < children.len() ==> lex_lt(
            (#[trigger] children[i]).name,
            (#[trigger] children[j]).name,
        )
}

/// At every level of the tree the names ascend.
pub open spec fn well_formed(t: TreeModel) -> bool
    decreases t,
{
    &&& names_ascend(t.children)
    &&& forall|i: int| 0 <= i < t.children.len() ==> well_formed(#[trigger] t.children[i])
}

/// The number of leading children whose names come before `name`: the index
/// at which a child of that name stands, or at which it has to be put.
pub open spec fn slot(children: Seq<TreeModel>, name: Seq<char>) -> int
    decreases children.len(),
{
    if children.len() > 0 && lex_lt(children[0].name, name) {
        1 + slot(children.skip(1), name)
    } else {
        0
    }
}

/// The tree `t` with the path added below it: every component of the path
/// that is missing becomes a node at its place in the order, and what is
/// there already stays.
pub open spec fn insert_path(t: TreeModel, path: Seq<Seq<char>>) -> TreeModel
    decreases path.len(),
{
    if path.len() == 0 {
        t
    } else {
        let i = slot(t.children, path[0]);
        if i < t.children.len() && t.children[i].name == path[0] {
            TreeModel {
                name: t.name,
                children: t.children.update(i, insert_path(t.children[i], path.skip(1))),
            }
        } else {
            TreeModel {
                name: t.name,
                children: t.children.insert(i, insert_path(leaf(path[0]), path.skip(1))),
            }
        }
    }
}

/// The tree below a root of the given name that holds the given paths, added
/// one after the other. What comes of it does not depend on their order:
/// `lemma_tree_of_has_path` says which nodes the tree has, and
/// `lemma_paths_determine_tree` that there is one such tree only.
pub open spec fn tree_of(root_name: Seq<char>, paths: Seq<Seq<Seq<char>>>) -> TreeModel
    decreases paths.len(),
{
    if paths.len() == 0 {
        leaf(root_name)
    } else {
        insert_path(tree_of(root_name, paths.drop_last()), paths.last())
    }
}

/// Whether the names of `q` lead from a child of `t` downwards, node by node.
pub open spec fn has_path(t: TreeModel, q: Seq<Seq<char>>) -> bool
    decreases q.len(),
{
    q.len() > 0 && exists|i: int|
        0 <= i < t.children.len() && (#[trigger] t.children[i]).name == q[0] && (q.len() == 1
            || has_path(t.children[i], q.skip(1)))
}

/// Whether the names of `q` lead downwards from the child of `t` at index `i`.
pub open spec fn descends(t: TreeModel, q: Seq<Seq<char>>, i: int) -> bool {
    &&& q.len() > 0
    &&& 0 <= i < t.children.len()
    &&& t.children[i].name == q[0]
    &&& (q.len() == 1 || has_path(t.children[i], q.skip(1)))
}

/// Whether `q` is a beginning of `p` that is not empty.
pub open spec fn leads(q: Seq<Seq<char>>, p: Seq<Seq<char>>) -> bool {
    0 < q.len() <= p.len() && q == p.take(q.len() as int)
}

/// The connector in front of a name: one for the last of its siblings, one
/// for the others.
pub open spec fn connector(last: bool) -> Seq<char> {
    if last {
        "└── "@
    } else {
        "├── "@
    }
}

/// What a node adds to the prefix of the lines below it: blanks below the
/// last of its siblings, a vertical bar below the others.
pub open spec fn continuation(last: bool) -> Seq<char> {
    if last {
        "    "@
    } else {
        "│   "@
    }
}

/// The lines of one node and of all that is below it.
pub open spec fn render_entry(node: TreeModel, prefix: Seq<char>, last: bool) -> Seq<char>
    decreases node, 0int,
{
    prefix + connector(last) + node.name + "\n"@ + render_siblings(
        node.children,
        prefix + continuation(last),
        true,
    )
}

/// The lines of the given nodes in their order. The last of them is drawn as
/// the last of its siblings if `closes` holds, the others never.
pub open spec fn render_siblings(nodes: Seq<TreeModel>, prefix: Seq<char>, closes: bool) -> Seq<
    char,
>
    decreases nodes, 1int,
{
    if nodes.len() == 0 {
        Seq::empty()
    } else {
        render_siblings(nodes.drop_last(), prefix, false) + render_entry(
            nodes.last(),
            prefix,
            closes,
        )
    }
}

/// The whole drawing: a line for the root, marked as a directory, and the
/// lines of what is below it.
pub open spec fn render_tree(t: TreeModel) -> Seq<char> {
    "└── "@ + t.name + "/\n"@ + render_siblings(t.children, "    "@, true)
}

/// What `slot` finds: everything before it comes before `name`, and what
/// stands at it does not.
pub proof fn lemma_slot(children: Seq<TreeModel>, name: Seq<char>)
    ensures
        0 <= slot(children, name) <= children.len(),
        forall|j: int|
            0 <= j < slot(children, name) ==> lex_lt((#[trigger] children[j]).name, name),
        slot(children, name) < children.len() ==> !lex_lt(
            children[slot(children, name)].name,
            name,
        ),
    decreases children.len(),
{
    if children.len() > 0 && lex_lt(children[0].name, name) {
        let rest = children.skip(1);
        lemma_slot(rest, name);
        assert forall|j: int| 0 <= j < slot(children, name) implies lex_lt(
            (#[trigger] children[j]).name,
            name,
        ) by {
            if j > 0 {
                assert(children[j] == rest[j - 1]);
            }
        }
    }
}

/// The index that `slot` finds is the only one of its kind.
pub proof fn lemma_slot_is(children: Seq<TreeModel>, name: Seq<char>, k: int)
    requires
        0 <= k <= children.len(),
        forall|j: int| 0 <= j < k ==> lex_lt((#[trigger] children[j]).name, name),
        k < children.len() ==> !lex_lt(children[k].name, name),
    ensures
        slot(children, name) == k,
    decreases children.len(),
{
    if k > 0 {
        let rest = children.skip(1);
        lemma_slot_is(rest, name, k - 1);
    }
}

/// Adding a path to a well-formed tree gives a well-formed tree.
pub proof fn lemma_insert_well_formed(t: TreeModel, path: Seq<Seq<char>>)
    requires
        well_formed(t),
    ensures
        well_formed(insert_path(t, path)),
    decreases path.len(),
{
    if path.len() > 0 {
        let name = path[0];
        let rest = path.skip(1);
        let i = slot(t.children, name);
        lemma_slot(t.children, name);
        if i < t.children.len() && t.children[i].name == name {
            lemma_insert_well_formed(t.children[i], rest);
        } else {
            lemma_insert_well_formed(leaf(name), rest);
            assert forall|b: int| i <= b < t.children.len() implies lex_lt(
                name,
                (#[trigger] t.children[b]).name,
            ) by {
                lemma_lex_total(name, t.children[i].name);
                if b > i {
                    lemma_lex_transitive(name, t.children[i].name, t.children[b].name);
                }
            }
        }
    }
}

/// A beginning of a path starts with the path's first name and goes on with
/// a beginning of the rest.
pub proof fn lemma_leads_step(q: Seq<Seq<char>>, p: Seq<Seq<char>>)
    requires
        q.len() > 0,
        p.len() > 0,
    ensures
        leads(q, p) <==> (q[0] == p[0] && (q.len() == 1 || leads(q.skip(1), p.skip(1)))),
{
    let n = q.len() as int;
    if leads(q, p) {
        if n > 1 {
            assert(q.skip(1) =~= p.skip(1).take(n - 1));
        }
    }
    if q[0] == p[0] && q.len() <= p.len() && (q.len() == 1 || leads(q.skip(1), p.skip(1))) {
        assert forall|k: int| 0 <= k < n implies q[k] == p.take(n)[k] by {
            if k > 0 {
                assert(q[k] == q.skip(1)[k - 1]);
            }
        }
        assert(q =~= p.take(n));
    }
}

/// A tree has a path where the path descends from one of its children.
pub proof fn lemma_has_path(t: TreeModel, q: Seq<Seq<char>>)
    ensures
        has_path(t, q) <==> exists|i: int| #[trigger] descends(t, q, i),
{
    if has_path(t, q) {
        let i = choose|i: int|
            0 <= i < t.children.len() && (#[trigger] t.children[i]).name == q[0] && (q.len() == 1
                || has_path(t.children[i], q.skip(1)));
        assert(descends(t, q, i));
    }
}

/// After a path is added, the tree holds what it held before and the
/// beginnings of that path, and nothing else.
pub proof fn lemma_insert_has_path(t: TreeModel, path: Seq<Seq<char>>, q: Seq<Seq<char>>)
    ensures
        has_path(insert_path(t, path), q) <==> (has_path(t, q) || leads(q, path)),
    decreases path.len(),
{
    let after = insert_path(t, path);
    if path.len() > 0 && q.len() > 0 {
        let name = path[0];
        let rest = path.skip(1);
        let tail = q.skip(1);
        let i = slot(t.children, name);
        lemma_slot(t.children, name);
        lemma_leads_step(q, path);
        lemma_has_path(t, q);
        if i < t.children.len() && t.children[i].name == name {
            lemma_insert_has_path(t.children[i], rest, tail);
            if has_path(t, q) {
                let j = choose|j: int| #[trigger] descends(t, q, j);
                assert(descends(after, q, j));
            }
            if leads(q, path) {
                assert(descends(after, q, i));
            }
        } else {
            let child = insert_path(leaf(name), rest);
            lemma_insert_has_path(leaf(name), rest, tail);
            if has_path(t, q) {
                let j = choose|j: int| #[trigger] descends(t, q, j);
                if j < i {
                    assert(after.children[j] == t.children[j]);
                } else {
                    assert(after.children[j + 1] == t.children[j]);
                }
            }
            if leads(q, path) {
                assert(after.children[i] == child);
            }
        }
    }
}

/// Whether one of the given nodes has the given name.
pub open spec fn has_child(children: Seq<TreeModel>, name: Seq<char>) -> bool {
    exists|i: int| 0 <= i < children.len() && (#[trigger] children[i]).name == name
}

/// Two rows of nodes whose names ascend and are the same names have the same
/// length and the same name at every index.
pub proof fn lemma_ascending_names_agree(a: Seq<TreeModel>, b: Seq<TreeModel>)
    requires
        names_ascend(a),
        names_ascend(b),
        forall|name: Seq<char>| has_child(a, name) <==> has_child(b, name),
    ensures
        a.len() == b.len(),
        forall|i: int| 0 <= i < a.len() ==> (#[trigger] a[i]).name == b[i].name,
    decreases a.len(),
{
    if a.len() == 0 {
        if b.len() > 0 {
            assert(has_child(b, b[0].name));
        }
    } else if b.len() == 0 {
        assert(has_child(a, a[0].name));
    } else {
        let x = a.last().name;
        let y = b.last().name;
        assert(has_child(a, x));
        assert(has_child(b, y));
        lemma_lex_total(x, y);
        let a0 = a.drop_last();
        let b0 = b.drop_last();
        assert forall|name: Seq<char>| has_child(a0, name) <==> has_child(b0, name) by {
            if has_child(a0, name) {
                assert(has_child(a, name));
                let n = choose|n: int| 0 <= n < b.len() && (#[trigger] b[n]).name == name;
                assert(b0[n] == b[n]);
            }
            if has_child(b0, name) {
                assert(has_child(b, name));
                let n = choose|n: int| 0 <= n < a.len() && (#[trigger] a[n]).name == name;
                assert(a0[n] == a[n]);
            }
        }
        lemma_ascending_names_agree(a0, b0);
        assert forall|i: int| 0 <= i < a.len() implies (#[trigger] a[i]).name == b[i].name by {
            if i < a.len() - 1 {
                assert(a0[i] == a[i] && b0[i] == b[i]);
            }
        }
    }
}

/// A well-formed tree is known by its name and its paths: two such trees
/// with the same name and the same paths are the same tree.
pub proof fn lemma_paths_determine_tree(t1: TreeModel, t2: TreeModel)
    requires
        well_formed(t1),
        well_formed(t2),
        t1.name == t2.name,
        forall|q: Seq<Seq<char>>| has_path(t1, q) <==> has_path(t2, q),
    ensures
        t1 == t2,
    decreases t1,
{
    let a = t1.children;
    let b = t2.children;
    assert forall|name: Seq<char>| has_child(a, name) <==> has_child(b, name) by {
        let q = seq![name];
        lemma_has_path(t1, q);
    }
    lemma_ascending_names_agree(a, b);
    assert forall|i: int| 0 <= i < a.len() implies #[trigger] a[i] == b[i] by {
        let name = a[i].name;
        assert forall|q: Seq<Seq<char>>| has_path(a[i], q) <==> has_path(b[i], q) by {
            let full = seq![name] + q;
            assert(full.skip(1) =~= q);
            lemma_has_path(t1, full);
            lemma_lex_irreflexive(name);
        }
        lemma_paths_determine_tree(a[i], b[i]);
    }
    assert(a =~= b);
}

/// The tree of a list of paths is well formed and has the root's name.
pub proof fn lemma_tree_of_well_formed(root_name: Seq<char>, paths: Seq<Seq<Seq<char>>>)
    ensures
        well_formed(tree_of(root_name, paths)),
        tree_of(root_name, paths).name == root_name,
    decreases paths.len(),
{
    if paths.len() > 0 {
        lemma_tree_of_well_formed(root_name, paths.drop_last());
        lemma_insert_well_formed(tree_of(root_name, paths.drop_last()), paths.last());
    }
}

/// The tree of a list of paths holds exactly the beginnings of those paths:
/// one node for each directory and each file that the list names.
pub proof fn lemma_tree_of_has_path(
    root_name: Seq<char>,
    paths: Seq<Seq<Seq<char>>>,
    q: Seq<Seq<char>>,
)
    ensures
        has_path(tree_of(root_name, paths), q) <==> exists|i: int|
            0 <= i < paths.len() && leads(q, #[trigger] paths[i]),
    decreases paths.len(),
{
    if paths.len() > 0 {
        let before = paths.drop_last();
        lemma_tree_of_has_path(root_name, before, q);
        lemma_insert_has_path(tree_of(root_name, before), paths.last(), q);
        if exists|i: int| 0 <= i < paths.len() && leads(q, #[trigger] paths[i]) {
            let i = choose|i: int| 0 <= i < paths.len() && leads(q, #[trigger] paths[i]);
            if i < paths.len() - 1 {
                assert(before[i] == paths[i]);
            }
        }
    }
}

/// The tree depends on the set of paths alone: lists that hold the same
/// paths, in whatever order and however often, give the same tree.
pub proof fn lemma_tree_ignores_order(
    root_name: Seq<char>,
    a: Seq<Seq<Seq<char>>>,
    b: Seq<Seq<Seq<char>>>,
)
    requires
        a.to_set() == b.to_set(),
    ensures
        tree_of(root_name, a) == tree_of(root_name, b),
{
    let t1 = tree_of(root_name, a);
    let t2 = tree_of(root_name, b);
    lemma_tree_of_well_formed(root_name, a);
    lemma_tree_of_well_formed(root_name, b);
    assert forall|q: Seq<Seq<char>>| has_path(t1, q) <==> has_path(t2, q) by {
        lemma_tree_of_has_path(root_name, a, q);
        lemma_tree_of_has_path(root_name, b, q);
        if has_path(t1, q) {
            let i = choose|i: int| 0 <= i < a.len() && leads(q, #[trigger] a[i]);
            assert(a.to_set().contains(a[i]));
        }
        if has_path(t2, q) {
            let i = choose|i: int| 0 <= i < b.len() && leads(q, #[trigger] b[i]);
            assert(b.to_set().contains(b[i]));
        }
    }
    lemma_paths_determine_tree(t1, t2);
}

/// The drawing of a tree depends on the set of paths alone, not on the order
/// in which the paths were found.
pub proof fn lemma_rendering_ignores_order(
    root_name: Seq<char>,
    a: Seq<Seq<Seq<char>>>,
    b: Seq<Seq<Seq<char>>>,
)
    requires
        a.to_set() == b.to_set(),
    ensures
        render_tree(tree_of(root_name, a)) == render_tree(tree_of(root_name, b)),
{
    lemma_tree_ignores_order(root_name, a, b);
}

/// A node of the directory tree: a directory or a file by its name, with the
/// entries below it in lexical order.
pub struct TreeNode {
    name: String,
    children: Vec<TreeNode>,
}

impl View for TreeNode {
    type V = TreeModel;

    closed spec fn view(&self) -> TreeModel
        decreases self,
    {
        TreeModel {
            name: self.name@,
            children: Seq::new(
                self.children@.len(),
                |i: int|
                    if 0 <= i < self.children@.len() {
                        self.children@[i].view()
                    } else {
                        leaf(Seq::empty())
                    },
            ),
        }
    }
}

impl TreeNode {
    /// What a node stands for, spelled out: its name, and below it what its
    /// children stand for.
    proof fn lemma_view(&self)
        ensures
            self@.name == self.name@,
            self@.children.len() == self.children@.len(),
            forall|k: int|
                0 <= k < self.children@.len() ==> self@.children[k] == (
                #[trigger] self.children@[k])@,
    {
    }

    /// A node of the given name with nothing below it.
    pub fn new(name: &str) -> (node: TreeNode)
        ensures
            node@ == leaf(name@),
            well_formed(node@),
    {
        let node = TreeNode { name: String::from_str(name), children: Vec::new() };
        assert(node@.children =~= Seq::empty());
        node
    }

    /// The node's name.
    pub fn name(&self) -> (name: &String)
        ensures
            name@ == self@.name,
    {
        &self.name
    }

    /// The number of entries directly below the node.
    pub fn child_count(&self) -> (n: usize)
        ensures
            n == self@.children.len(),
    {
        self.children.len()
    }

    /// The entry at index `i` below the node.
    pub fn child(&self, i: usize) -> (child: &TreeNode)
        requires
            i < self@.children.len(),
        ensures
            child@ == self@.children[i as int],
    {
        &self.children[i]
    }

    /// Adds a path below the node: a node for each of its components that is
    /// not there yet, each at its place in the lexical order.
    pub fn insert(&mut self, path: &RelPath)
        requires
            well_formed(old(self)@),
        ensures
            final(self)@ == insert_path(old(self)@, path@),
            well_formed(final(self)@),
    {
        proof {
            assert(path@.skip(0) =~= path@);
        }
        self.insert_from(path, 0);
    }

    /// The index at which a child of the given name stands, or at which it
    /// has to be put.
    fn find_slot(&self, name: &str) -> (i: usize)
        requires
            names_ascend(self@.children),
        ensures
            i == slot(self@.children, name@),
            i <= self@.children.len(),
    {
        let ghost nodes = self@.children;
        let mut low: usize = 0;
        let mut high: usize = self.children.len();
        while low < high
            invariant
                nodes == self@.children,
                names_ascend(nodes),
                low <= high <= nodes.len(),
                forall|k: int| 0 <= k < low ==> lex_lt((#[trigger] nodes[k]).name, name@),
                forall|k: int|
                    high <= k < nodes.len() ==> !lex_lt((#[trigger] nodes[k]).name, name@),
            decreases high - low,
        {
            let middle = low + (high - low) / 2;
            proof {
                self.lemma_view();
            }
            if str_lt(self.children[middle].name.as_str(), name) {
                proof {
                    assert forall|k: int| 0 <= k < middle + 1 implies lex_lt(
                        (#[trigger] nodes[k]).name,
                        name@,
                    ) by {
                        if k < middle {
                            lemma_lex_transitive(nodes[k].name, nodes[middle as int].name, name@);
                        }
                    }
                }
                low = middle + 1;
            } else {
                proof {
                    assert forall|k: int| middle <= k < nodes.len() implies !lex_lt(
                        (#[trigger] nodes[k]).name,
                        name@,
                    ) by {
                        if k > middle && lex_lt(nodes[k].name, name@) {
                            lemma_lex_transitive(nodes[middle as int].name, nodes[k].name, name@);
                        }
                    }
                }
                high = middle;
            }
        }
        proof {
            lemma_slot_is(nodes, name@, low as int);
        }
        low
    }

    /// Adds what is left of a path from the component at `depth` on.
    fn insert_from(&mut self, path: &RelPath, depth: usize)
        requires
            depth <= path.components.len(),
            well_formed(old(self)@),
        ensures
            final(self)@ == insert_path(old(self)@, path@.skip(depth as int)),
            well_formed(final(self)@),
        decreases path.components.len() - depth,
    {
        if depth >= path.components.len() {
            return ;
        }
        let name = path.components[depth].as_str();
        let ghost before = self@;
        let ghost rest = path@.skip(depth as int);
        let i = self.find_slot(name);
        let found = i < self.children.len() && str_eq(self.children[i].name.as_str(), name);
        proof {
            assert(rest.skip(1) =~= path@.skip(depth + 1));
            lemma_insert_well_formed(before, rest);
            self.lemma_view();
        }
        if !found {
            self.children.insert(i, TreeNode::new(name));
        }
        self.children[i].insert_from(path, depth + 1);
        proof {
            let after = insert_path(before, rest);
            assert(self@.children =~= after.children);
        }
    }

    /// Appends to `output` the lines of all that is below the node, each
    /// line beginning with `prefix`.
    pub fn render_children(&self, prefix: &str, output: &mut String)
        ensures
            final(output)@ == old(output)@ + render_siblings(self@.children, prefix@, true),
        decreases self,
    {
        let ghost start = output@;
        let ghost nodes = self@.children;
        let n = self.children.len();
        let mut i: usize = 0;
        while i < n
            invariant
                n == self.children.len(),
                nodes == self@.children,
                i <= n,
                output@ == start + render_siblings(nodes.take(i as int), prefix@, i == n),
            decreases n - i,
        {
            let child = &self.children[i];
            let last = i + 1 == n;
            let ghost so_far = output@;
            output.append(prefix);
            if last {
                output.append("└── ");
            } else {
                output.append("├── ");
            }
            output.append(child.name.as_str());
            output.append("\n");
            if child.children.len() > 0 {
                let mut below = String::from_str(prefix);
                if last {
                    below.append("    ");
                } else {
                    below.append("│   ");
                }
                child.render_children(below.as_str(), output);
            }
            proof {
                let upto = nodes.take(i + 1);
                assert(upto.drop_last() =~= nodes.take(i as int));
                assert(output@ =~= so_far + render_entry(child@, prefix@, last));
            }
            i = i + 1;
        }
        assert(nodes.take(n as int) =~= nodes);
    }
}

/// Draws the directory tree of the given files below a root directory of the
/// given name: one line for the root and one for each directory and file,
/// the entries of each directory in lexical order.
pub fn generate_tree(root_name: &str, included_files: &[RelPath]) -> (tree: String)
    ensures
        tree@ == render_tree(tree_of(root_name@, path_views(included_files@))),
{
    let ghost paths = path_views(included_files@);
    let mut root = TreeNode::new(root_name);
    let n = included_files.len();
    let mut i: usize = 0;
    while i < n
        invariant
            n == included_files.len(),
            paths == path_views(included_files@),
            i <= n,
            root@ == tree_of(root_name@, paths.take(i as int)),
            well_formed(root@),
        decreases n - i,
    {
        root.insert(&included_files[i]);
        proof {
            let upto = paths.take(i + 1);
            assert(upto.drop_last() =~= paths.take(i as int));
        }
        i = i + 1;
    }
    proof {
        assert(paths.take(n as int) =~= paths);
        lemma_tree_of_well_formed(root_name@, paths);
    }
    let mut tree = String::from_str("└── ");
    tree.append(root_name);
    tree.append("/\n");
    root.render_children("    ", &mut tree);
    tree
}

} // verus!
