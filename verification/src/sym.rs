//! The tree of named nodes that carry the native name of their branch, and
//! the aggregate built from a native branch listing.
use vstd::prelude::*;
use vstd::string::StringExecFns;
use crate::display::{drawing, is_plain, tree_draw, tree_new, tree_push, tree_shape, TreeShape};
use crate::node_type::{feature_root_name, product_root_name, NodeType};
use crate::text::{
    join, join_text, remove_all, remove_text, same_text, split, split_text, strip_chars,
    text_starts_with, trim, trim_text, views, without,
};

verus! {

/// What a node is: its name, the native name of its branch if it has one,
/// and its children in the order in which they were added.
pub struct SymView {
    pub name: Seq<char>,
    pub branch: Option<Seq<char>>,
    pub children: Seq<SymView>,
}

impl SymView {
    /// A node without children.
    pub open spec fn leaf(name: Seq<char>, branch: Option<Seq<char>>) -> SymView {
        SymView { name, branch, children: Seq::empty() }
    }

    /// Whether `i` is the index of the first child named `name`.
    pub open spec fn is_first_named(self, i: int, name: Seq<char>) -> bool {
        &&& 0 <= i < self.children.len()
        &&& self.children[i].name == name
        &&& forall|j: int| 0 <= j < i ==> (#[trigger] self.children[j]).name != name
    }

    /// Whether a child is named `name`.
    pub open spec fn has_child(self, name: Seq<char>) -> bool {
        exists|i: int| self.is_first_named(i, name)
    }

    /// The index of the first child named `name`, where there is one.
    pub open spec fn child_index(self, name: Seq<char>) -> int {
        choose|i: int| self.is_first_named(i, name)
    }

    /// The first child named `name`.
    pub open spec fn child(self, name: Seq<char>) -> Option<SymView> {
        if self.has_child(name) {
            Some(self.children[self.child_index(name)])
        } else {
            None
        }
    }

    /// The node reached by following `path` child by child.
    pub open spec fn find(self, path: Seq<Seq<char>>) -> Option<SymView>
        decreases path.len(),
    {
        if path.len() == 0 {
            Some(self)
        } else {
            match self.child(path[0]) {
                Some(c) => c.find(path.skip(1)),
                None => None,
            }
        }
    }

    /// The nodes passed on the way along `path`, this node not among them;
    /// the way ends where a child is missing.
    pub open spec fn trail(self, path: Seq<Seq<char>>) -> Seq<SymView>
        decreases path.len(),
    {
        if path.len() == 0 {
            Seq::empty()
        } else {
            match self.child(path[0]) {
                Some(c) => seq![c] + c.trail(path.skip(1)),
                None => Seq::empty(),
            }
        }
    }

    /// This node with its branch replaced.
    pub open spec fn with_branch(self, branch: Option<Seq<char>>) -> SymView {
        SymView { branch, ..self }
    }

    /// This node after `branch` is recorded at `path`: the nodes along `path`
    /// that are missing are created without a branch, and the node at the end
    /// of `path` gets `branch`. The empty path sets the branch of this node.
    pub open spec fn with_entry(self, path: Seq<Seq<char>>, branch: Option<Seq<char>>) -> SymView
        decreases path.len(),
    {
        if path.len() == 0 {
            self.with_branch(branch)
        } else if self.has_child(path[0]) {
            let i = self.child_index(path[0]);
            SymView {
                children: self.children.update(
                    i,
                    self.children[i].with_entry(path.skip(1), branch),
                ),
                ..self
            }
        } else {
            SymView {
                children: self.children.push(
                    Self::leaf(path[0], None).with_entry(path.skip(1), branch),
                ),
                ..self
            }
        }
    }

    /// The shape of the text tree of this node: its name as the label, and
    /// the text trees of its children in order.
    pub open spec fn shown(self) -> TreeShape
        decreases self, 1int,
    {
        TreeShape { root: self.name, leaves: Self::shown_of(self.children) }
    }

    /// The text trees of the given nodes, in order.
    pub open spec fn shown_of(children: Seq<SymView>) -> Seq<TreeShape>
        decreases children, 0int,
    {
        if children.len() == 0 {
            Seq::empty()
        } else {
            Self::shown_of(children.drop_last()).push(children.last().shown())
        }
    }

    /// The first child named `name` is the child that `child` gives.
    pub proof fn lemma_first_named(self, i: int, name: Seq<char>)
        requires
            self.is_first_named(i, name),
        ensures
            self.has_child(name),
            self.child_index(name) == i,
            self.child(name) == Some(self.children[i]),
    {
        let c = self.child_index(name);
        assert(self.is_first_named(c, name));
        if c < i {
            assert(self.children[c].name != name);
        }
        if i < c {
            assert(self.children[i].name != name);
        }
    }
}

/// The native name of a branch.
#[derive(Clone, Debug)]
pub struct BranchData {
    git_branch: String,
}

impl View for BranchData {
    type V = Seq<char>;

    closed spec fn view(&self) -> Seq<char> {
        self.git_branch@
    }
}

impl BranchData {
    /// The data of the branch named `git_branch`.
    pub fn new(git_branch: &str) -> (r: Self)
        ensures
            r@ == git_branch@,
    {
        Self { git_branch: String::from_str(git_branch) }
    }

    /// The native name of the branch.
    pub fn get_git_branch(&self) -> (r: &String)
        ensures
            r@ == self@,
    {
        &self.git_branch
    }
}

/// The view of optional branch data.
pub open spec fn branch_view(data: Option<BranchData>) -> Option<Seq<char>> {
    match data {
        Some(d) => Some(d@),
        None => None,
    }
}

/// A node of the tree. It owns its children.
#[derive(Debug)]
pub struct SymNode {
    name: String,
    children: Vec<SymNode>,
    branch_data: Option<BranchData>,
}

impl View for SymNode {
    type V = SymView;

    closed spec fn view(&self) -> SymView {
        self.model()
    }
}

impl Clone for SymNode {
    /// A copy of the node with copies of all its descendants.
    fn clone(&self) -> (r: Self)
        ensures
            r@ == self@,
        decreases self,
    {
        proof {
            self.lemma_children();
        }
        let mut children: Vec<SymNode> = Vec::new();
        let mut i: usize = 0;
        while i < self.children.len()
            invariant
                i <= self.children.len(),
                children@.len() == i,
                forall|k: int| 0 <= k < i ==> (#[trigger] children@[k])@ == self.children@[k]@,
            decreases self.children.len() - i,
        {
            let child = &self.children[i];
            children.push(child.clone());
            i += 1;
        }
        let branch_data = match &self.branch_data {
            Some(data) => Some(BranchData::new(data.get_git_branch().as_str())),
            None => None,
        };
        let r = SymNode { name: self.name.clone(), children, branch_data };
        proof {
            r.lemma_children();
            assert(r@.children =~= self@.children);
        }
        r
    }
}

impl SymNode {
    /// What this node is, children included.
    pub closed spec fn model(&self) -> SymView
        decreases self,
    {
        SymView {
            name: self.name@,
            branch: branch_view(self.branch_data),
            children: Self::models(self.children@),
        }
    }

    /// What the nodes are, one by one.
    pub closed spec fn models(nodes: Seq<SymNode>) -> Seq<SymView>
        decreases nodes,
    {
        if nodes.len() == 0 {
            Seq::empty()
        } else {
            Self::models(nodes.drop_last()).push(nodes.last().model())
        }
    }

    proof fn lemma_models(nodes: Seq<SymNode>)
        ensures
            Self::models(nodes).len() == nodes.len(),
            forall|i: int| 0 <= i < nodes.len() ==> (#[trigger] Self::models(nodes)[i]) == nodes[i]@,
        decreases nodes.len(),
    {
        if nodes.len() > 0 {
            Self::lemma_models(nodes.drop_last());
            assert forall|i: int| 0 <= i < nodes.len() implies (#[trigger] Self::models(nodes)[i])
                == nodes[i]@ by {
                if i < nodes.len() - 1 {
                    assert(nodes.drop_last()[i] == nodes[i]);
                }
            }
        }
    }

    proof fn lemma_models_update(nodes: Seq<SymNode>, i: int, node: SymNode)
        requires
            0 <= i < nodes.len(),
        ensures
            Self::models(nodes.update(i, node)) == Self::models(nodes).update(i, node@),
    {
        Self::lemma_models(nodes);
        Self::lemma_models(nodes.update(i, node));
        assert(Self::models(nodes.update(i, node)) =~= Self::models(nodes).update(i, node@));
    }

    proof fn lemma_children(&self)
        ensures
            self@.name == self.name@,
            self@.branch == branch_view(self.branch_data),
            self@.children.len() == self.children@.len(),
            forall|i: int|
                0 <= i < self.children@.len() ==> (#[trigger] self@.children[i])
                    == self.children@[i]@,
    {
        Self::lemma_models(self.children@);
    }

    /// A node without children.
    pub fn new(name: &str, branch_data: Option<BranchData>) -> (r: Self)
        ensures
            r@ == SymView::leaf(name@, branch_view(branch_data)),
    {
        let r = Self { name: String::from_str(name), children: Vec::new(), branch_data };
        proof {
            r.lemma_children();
            assert(r@.children =~= Seq::empty());
        }
        r
    }

    /// The name.
    pub fn get_name(&self) -> (r: &String)
        ensures
            r@ == self@.name,
    {
        proof {
            self.lemma_children();
        }
        &self.name
    }

    /// The data of the branch, if the node has one.
    pub fn get_branch_data(&self) -> (r: Option<&BranchData>)
        ensures
            match r {
                Some(d) => self@.branch == Some(d@),
                None => self@.branch is None,
            },
    {
        proof {
            self.lemma_children();
        }
        match &self.branch_data {
            Some(data) => Some(data),
            None => None,
        }
    }

    /// Replaces the data of the branch.
    pub fn update_branch_data(&mut self, branch_data: Option<BranchData>)
        ensures
            final(self)@ == old(self)@.with_branch(branch_view(branch_data)),
    {
        proof {
            self.lemma_children();
        }
        self.branch_data = branch_data;
        proof {
            self.lemma_children();
            assert(self@.children =~= old(self)@.children);
        }
    }

    /// Adds `node` as the last child, whatever its name.
    pub fn add_child(&mut self, node: SymNode)
        ensures
            final(self)@ == (SymView { children: old(self)@.children.push(node@), ..old(self)@ }),
    {
        proof {
            self.lemma_children();
        }
        self.children.push(node);
        proof {
            self.lemma_children();
            assert(self@.children =~= old(self)@.children.push(node@));
        }
    }

    /// The children in the order in which they were added.
    pub fn iter_children_flat(&self) -> (r: &Vec<SymNode>)
        ensures
            r@.len() == self@.children.len(),
            forall|i: int| 0 <= i < r@.len() ==> (#[trigger] r@[i])@ == self@.children[i],
    {
        proof {
            self.lemma_children();
        }
        &self.children
    }

    fn child_position(&self, name: &str) -> (r: Option<usize>)
        ensures
            match r {
                Some(i) => self@.is_first_named(i as int, name@) && i < self.children.len(),
                None => !self@.has_child(name@),
            },
    {
        proof {
            self.lemma_children();
        }
        let mut i: usize = 0;
        while i < self.children.len()
            invariant
                i <= self.children.len(),
                self@.children.len() == self.children@.len(),
                forall|k: int|
                    0 <= k < self.children@.len() ==> (#[trigger] self@.children[k])
                        == self.children@[k]@,
                forall|j: int| 0 <= j < i ==> (#[trigger] self@.children[j]).name != name@,
            decreases self.children.len() - i,
        {
            proof {
                self.children@[i as int].lemma_children();
            }
            if same_text(self.children[i].name.as_str(), name) {
                return Some(i);
            }
            i += 1;
        }
        assert forall|k: int| !self@.is_first_named(k, name@) by {
            if 0 <= k < self@.children.len() {
                assert(self@.children[k].name != name@);
            }
        }
        None
    }

    /// The first child named `name`.
    pub fn get_child(&self, name: &str) -> (r: Option<&SymNode>)
        ensures
            match r {
                Some(c) => self@.child(name@) == Some(c@),
                None => self@.child(name@) is None,
            },
    {
        match self.child_position(name) {
            Some(i) => {
                proof {
                    self.lemma_children();
                    self@.lemma_first_named(i as int, name@);
                }
                Some(&self.children[i])
            },
            None => None,
        }
    }

    /// The first child named `name`, to be changed in place.
    pub fn get_child_mut(&mut self, name: &str) -> (r: Option<&mut SymNode>)
        ensures
            match r {
                Some(c) => old(self)@.child(name@) == Some(c@) && final(self)@ == (SymView {
                    children: old(self)@.children.update(
                        old(self)@.child_index(name@),
                        final(c)@,
                    ),
                    ..old(self)@
                }),
                None => old(self)@.child(name@) is None && final(self)@ == old(self)@,
            },
    {
        match self.child_position(name) {
            Some(i) => {
                proof {
                    self.lemma_children();
                    self@.lemma_first_named(i as int, name@);
                }
                let ghost kids = self.children@;
                let child = &mut self.children[i];
                proof {
                    Self::lemma_models_update(kids, i as int, *final(child));
                }
                Some(child)
            },
            None => None,
        }
    }

    /// The text tree of this node: its name as the label, and the text
    /// trees of its children in order.
    fn printable(&self) -> (tree: termtree::Tree<String>)
        ensures
            tree_shape(tree) == self@.shown(),
            is_plain(tree),
        decreases self,
    {
        proof {
            self.lemma_children();
            assert(self@.children.take(0) =~= Seq::empty());
        }
        let mut tree = tree_new(self.name.as_str());
        let mut i: usize = 0;
        while i < self.children.len()
            invariant
                i <= self.children.len(),
                self@.children.len() == self.children@.len(),
                self@.name == self.name@,
                forall|k: int|
                    0 <= k < self.children@.len() ==> (#[trigger] self@.children[k])
                        == self.children@[k]@,
                tree_shape(tree) == (TreeShape {
                    root: self@.name,
                    leaves: SymView::shown_of(self@.children.take(i as int)),
                }),
                is_plain(tree),
            decreases self.children.len() - i,
        {
            let child = &self.children[i];
            proof {
                assert(self@.children.take(i + 1).drop_last() =~= self@.children.take(i as int));
                assert(self@.children.take(i + 1).last() == child@);
            }
            let leaf = child.printable();
            tree_push(&mut tree, leaf);
            i += 1;
        }
        assert(self@.children.take(self@.children.len() as int) =~= self@.children);
        tree
    }

    /// Records `branch_data` at `path[from..]`.
    fn insert_from_split_path(&mut self, path: &Vec<String>, from: usize, branch_data: Option<BranchData>)
        requires
            from < path@.len(),
        ensures
            final(self)@ == old(self)@.with_entry(
                views(path@).skip(from as int),
                branch_view(branch_data),
            ),
        decreases path@.len() - from,
    {
        proof {
            reveal_with_fuel(SymView::with_entry, 2);
            self.lemma_children();
            assert(views(path@).skip(from as int)[0] == path@[from as int]@);
            assert(views(path@).skip(from as int).skip(1) =~= views(path@).skip(from + 1));
        }
        let name = path[from].as_str();
        let last = from == path.len() - 1;
        match self.child_position(name) {
            Some(i) => {
                proof {
                    self@.lemma_first_named(i as int, name@);
                }
                let ghost before = self.children@[i as int]@;
                let child = &mut self.children[i];
                if last {
                    child.update_branch_data(branch_data);
                } else {
                    child.insert_from_split_path(path, from + 1, branch_data);
                }
                proof {
                    self.lemma_children();
                    assert(self@.children =~= old(self)@.children.update(
                        i as int,
                        before.with_entry(views(path@).skip(from + 1), branch_view(branch_data)),
                    ));
                }
            },
            None => {
                if last {
                    self.add_child(SymNode::new(name, branch_data));
                } else {
                    let mut node = SymNode::new(name, None);
                    node.insert_from_split_path(path, from + 1, branch_data);
                    self.add_child(node);
                }
            },
        }
    }

    /// Records `branch_data` at the path written as `qualified_path`: the
    /// nodes along the path that are missing are created without a branch.
    pub fn insert_qualified_path(&mut self, qualified_path: &str, branch_data: Option<BranchData>)
        ensures
            final(self)@ == old(self)@.with_entry(
                split(qualified_path@, '/'),
                branch_view(branch_data),
            ),
    {
        let path = split_text(qualified_path, '/');
        proof {
            crate::text::lemma_split_nonempty(qualified_path@, '/');
            assert(views(path@).skip(0) =~= views(path@));
        }
        self.insert_from_split_path(&path, 0, branch_data);
    }

    /// The nodes along the path written as `qualified_path`, if every segment
    /// names a child of the node before it.
    pub fn get_path<'a>(&'a self, qualified_path: &str) -> (r: Option<SymPath<'a>>)
        ensures
            match r {
                Some(p) => self@.find(split(qualified_path@, '/')) == Some(p@.last()) && p@
                    == self@.trail(split(qualified_path@, '/')) && p@.len() == split(
                    qualified_path@,
                    '/',
                ).len(),
                None => self@.find(split(qualified_path@, '/')) is None,
            },
    {
        let path = split_text(qualified_path, '/');
        let ghost segments = views(path@);
        proof {
            crate::text::lemma_split_nonempty(qualified_path@, '/');
            assert(segments.skip(0) =~= segments);
        }
        let mut current: &'a SymNode = self;
        let mut node_vec: Vec<&'a SymNode> = Vec::new();
        let mut i: usize = 0;
        while i < path.len()
            invariant
                i <= path.len(),
                segments == views(path@),
                segments == split(qualified_path@, '/'),
                node_vec@.len() == i,
                i > 0 ==> node_vec@[i - 1] == current,
                self@.find(segments) == current@.find(segments.skip(i as int)),
                self@.trail(segments) == sym_views(node_vec@) + current@.trail(
                    segments.skip(i as int),
                ),
            decreases path.len() - i,
        {
            proof {
                assert(segments.skip(i as int)[0] == path@[i as int]@);
                assert(segments.skip(i as int).skip(1) =~= segments.skip(i + 1));
            }
            match current.get_child(path[i].as_str()) {
                Some(child) => {
                    let ghost before = sym_views(node_vec@);
                    node_vec.push(child);
                    proof {
                        assert(sym_views(node_vec@) =~= before.push(child@));
                        assert(before + (seq![child@] + child@.trail(segments.skip(i + 1)))
                            =~= before.push(child@) + child@.trail(segments.skip(i + 1)));
                    }
                    current = child;
                },
                None => {
                    return None;
                },
            }
            i += 1;
        }
        proof {
            assert(segments.skip(segments.len() as int) =~= Seq::empty());
            assert(sym_views(node_vec@) + Seq::empty() =~= sym_views(node_vec@));
            assert(sym_views(node_vec@).last() == current@);
        }
        Some(SymPath::new(node_vec))
    }
}

/// The drawings of the shapes, one by one.
pub open spec fn drawings(shapes: Seq<TreeShape>) -> Seq<Seq<char>> {
    Seq::new(shapes.len(), |i: int| drawing(shapes[i]))
}

/// The text trees of the children of `root`, drawn one for each child.
pub fn transform_to_printable(root: &SymNode) -> (r: Vec<String>)
    ensures
        views(r@) == drawings(SymView::shown_of(root@.children)),
{
    let children = root.iter_children_flat();
    let mut out: Vec<String> = Vec::new();
    let mut i: usize = 0;
    proof {
        assert(root@.children.take(0) =~= Seq::empty());
        assert(views(out@) =~= Seq::empty());
    }
    while i < children.len()
        invariant
            i <= children.len(),
            children@.len() == root@.children.len(),
            forall|k: int| 0 <= k < children@.len() ==> (#[trigger] children@[k])@ == root@.children[k],
            views(out@) == drawings(SymView::shown_of(root@.children.take(i as int))),
        decreases children.len() - i,
    {
        let child = &children[i];
        proof {
            assert(root@.children.take(i + 1).drop_last() =~= root@.children.take(i as int));
            assert(root@.children.take(i + 1).last() == child@);
        }
        let tree = child.printable();
        let ghost done = views(out@);
        out.push(tree_draw(&tree));
        proof {
            let before = SymView::shown_of(root@.children.take(i as int));
            assert(views(out@) =~= done.push(drawing(child@.shown())));
            assert(drawings(before.push(child@.shown())) =~= drawings(before).push(
                drawing(child@.shown()),
            ));
        }
        i += 1;
    }
    assert(root@.children.take(root@.children.len() as int) =~= root@.children);
    out
}

/// The views of a sequence of node references, element by element.
pub open spec fn sym_views(nodes: Seq<&SymNode>) -> Seq<SymView> {
    Seq::new(nodes.len(), |i: int| nodes[i]@)
}

/// The names of the nodes, in order.
pub open spec fn sym_names(nodes: Seq<SymView>) -> Seq<Seq<char>> {
    Seq::new(nodes.len(), |i: int| nodes[i].name)
}

/// A sequence of nodes, as found along a path.
#[derive(Debug)]
pub struct SymPath<'a> {
    node_path: Vec<&'a SymNode>,
}

impl<'a> View for SymPath<'a> {
    type V = Seq<SymView>;

    closed spec fn view(&self) -> Seq<SymView> {
        sym_views(self.node_path@)
    }
}

impl<'a> SymPath<'a> {
    /// The sequence of the given nodes.
    pub fn new(node_path: Vec<&'a SymNode>) -> (r: Self)
        ensures
            r@ == sym_views(node_path@),
    {
        Self { node_path }
    }

    /// The names of the nodes, joined by `/`.
    pub fn get_qualified_path(&self) -> (r: String)
        ensures
            r@ == join(sym_names(self@), '/'),
    {
        let mut parts: Vec<String> = Vec::new();
        let mut i: usize = 0;
        while i < self.node_path.len()
            invariant
                i <= self.node_path.len(),
                parts@.len() == i,
                forall|j: int| 0 <= j < i ==> (#[trigger] parts@[j])@ == self@[j].name,
            decreases self.node_path.len() - i,
        {
            parts.push(self.node_path[i].get_name().clone());
            i += 1;
        }
        assert(views(parts@) =~= sym_names(self@));
        join_text(&parts, '/')
    }

    /// The last node, if any.
    pub fn get_last(&self) -> (r: Option<&'a SymNode>)
        ensures
            match r {
                Some(n) => self@.len() > 0 && n@ == self@.last(),
                None => self@.len() == 0,
            },
    {
        if self.node_path.len() == 0 {
            None
        } else {
            Some(self.node_path[self.node_path.len() - 1])
        }
    }

    /// The first node, if any.
    pub fn get_first(&self) -> (r: Option<&'a SymNode>)
        ensures
            match r {
                Some(n) => self@.len() > 0 && n@ == self@.first(),
                None => self@.len() == 0,
            },
    {
        if self.node_path.len() == 0 {
            None
        } else {
            Some(self.node_path[0])
        }
    }
}

/// The native name that a line of a branch listing holds: the line without
/// checkout marks and surrounding whitespace.
pub open spec fn native_name(line: Seq<char>) -> Seq<char> {
    trim(without(line, '*', '*'))
}

/// The written qualified path of a native name: the name without surrounding
/// whitespace, and then without checkout and escape marks.
pub open spec fn qualified_text(native: Seq<char>) -> Seq<char> {
    without(trim(native), '*', '_')
}

/// The texts that begin with `prefix`, in order.
pub open spec fn texts_with_prefix(texts: Seq<Seq<char>>, prefix: Seq<char>) -> Seq<Seq<char>>
    decreases texts.len(),
{
    if texts.len() == 0 {
        Seq::empty()
    } else if prefix.is_prefix_of(texts.last()) {
        texts_with_prefix(texts.drop_last(), prefix).push(texts.last())
    } else {
        texts_with_prefix(texts.drop_last(), prefix)
    }
}

/// Whether the written path begins with the feature or the product segment.
pub open spec fn branch_type_of(branch: Seq<char>) -> Option<NodeType> {
    if feature_root_name().push('/').is_prefix_of(branch) {
        Some(NodeType::Feature)
    } else if product_root_name().push('/').is_prefix_of(branch) {
        Some(NodeType::Product)
    } else {
        None
    }
}

/// The last segment of a written path.
pub open spec fn last_segment(written: Seq<char>) -> Seq<char> {
    split(written, '/').last()
}

/// The written paths that begin with the feature segment and end with the
/// segment `short`, in order.
pub open spec fn long_names(paths: Seq<Seq<char>>, short: Seq<char>) -> Seq<Seq<char>>
    decreases paths.len(),
{
    if paths.len() == 0 {
        Seq::empty()
    } else if feature_root_name().is_prefix_of(paths.last()) && last_segment(paths.last())
        == short {
        long_names(paths.drop_last(), short).push(paths.last())
    } else {
        long_names(paths.drop_last(), short)
    }
}

/// The last segments of those of the first `n` written paths that begin
/// with the feature segment and share their last segment with no other
/// such path.
pub open spec fn short_names(paths: Seq<Seq<char>>, n: int) -> Seq<Seq<char>>
    decreases n,
{
    if n <= 0 {
        Seq::empty()
    } else {
        let path = paths[n - 1];
        if feature_root_name().is_prefix_of(path) && long_names(paths, last_segment(path)).len()
            == 1 {
            short_names(paths, n - 1).push(last_segment(path))
        } else {
            short_names(paths, n - 1)
        }
    }
}

/// The written path without any occurrence of the segment, followed by the
/// separator, that it begins with, where that is the feature or the product
/// segment.
pub open spec fn stripped_branch_type(branch: Seq<char>) -> Seq<char> {
    match branch_type_of(branch) {
        Some(NodeType::Feature) => remove_all(branch, feature_root_name().push('/')),
        Some(_) => remove_all(branch, product_root_name().push('/')),
        None => branch,
    }
}

/// What the aggregate is: the tree, and the written qualified paths of the
/// branches seen, in the order in which they were first seen.
pub struct BranchModelView {
    pub root: SymView,
    pub paths: Seq<Seq<char>>,
}

impl BranchModelView {
    /// The aggregate after a line of a native branch listing is recorded:
    /// the written path of the line is listed once, and unless it is the
    /// name of the root, the tree holds the native name at that path.
    pub open spec fn with_line(self, line: Seq<char>) -> BranchModelView {
        let native = native_name(line);
        let written = qualified_text(native);
        BranchModelView {
            root: if written != self.root.name {
                self.root.with_entry(split(written, '/'), Some(native))
            } else {
                self.root
            },
            paths: if self.paths.contains(written) {
                self.paths
            } else {
                self.paths.push(written)
            },
        }
    }

    /// The native name recorded at the written path, if there is one.
    pub open spec fn git_branch(self, written: Seq<char>) -> Option<Seq<char>> {
        match self.root.find(split(written, '/')) {
            Some(n) => n.branch,
            None => None,
        }
    }
}

/// Recording the same line twice lists its path once: the list is as
/// after the first time, and holds the path.
pub proof fn lemma_line_twice(model: BranchModelView, line: Seq<char>)
    ensures
        model.with_line(line).with_line(line).paths == model.with_line(line).paths,
        model.with_line(line).paths.contains(qualified_text(native_name(line))),
        model.paths.no_duplicates() ==> model.with_line(line).paths.no_duplicates(),
{
    let written = qualified_text(native_name(line));
    let once = model.with_line(line).paths;
    if !model.paths.contains(written) {
        assert(once[model.paths.len() as int] == written);
        if model.paths.no_duplicates() {
            assert forall|a: int, b: int|
                0 <= a < once.len() && 0 <= b < once.len() && a != b implies once[a]
                != once[b] by {
                if a < model.paths.len() && b < model.paths.len() {
                    assert(model.paths[a] != model.paths[b]);
                } else if a < model.paths.len() {
                    assert(model.paths.contains(model.paths[a]));
                } else {
                    assert(model.paths.contains(model.paths[b]));
                }
            }
        }
    }
}

/// The tree of all branches seen in a native listing, with the list of their
/// written qualified paths.
#[derive(Debug)]
pub struct BranchDataModel {
    root_node: SymNode,
    qualified_paths_of_existing_branches: Vec<String>,
}

impl View for BranchDataModel {
    type V = BranchModelView;

    closed spec fn view(&self) -> BranchModelView {
        BranchModelView {
            root: self.root_node@,
            paths: views(self.qualified_paths_of_existing_branches@),
        }
    }
}

impl Clone for BranchDataModel {
    /// A copy of the tree and of the list of paths.
    fn clone(&self) -> (r: Self)
        ensures
            r@ == self@,
    {
        Self {
            root_node: self.root_node.clone(),
            qualified_paths_of_existing_branches: crate::text::clone_texts(
                &self.qualified_paths_of_existing_branches,
            ),
        }
    }
}

impl BranchDataModel {
    /// The feature segment followed by the separator.
    pub fn feature_path_prefix() -> (r: String)
        ensures
            r@ == feature_root_name().push('/'),
    {
        crate::node_type::ModelConstants::feature_path_prefix()
    }

    /// The product segment followed by the separator.
    pub fn product_path_prefix() -> (r: String)
        ensures
            r@ == product_root_name().push('/'),
    {
        crate::node_type::ModelConstants::product_path_prefix()
    }

    /// The aggregate of a root of the empty name and no paths.
    pub fn new() -> (r: Self)
        ensures
            r@ == (BranchModelView {
                root: SymView::leaf(Seq::empty(), None),
                paths: Seq::empty(),
            }),
    {
        let r = Self {
            root_node: SymNode::new("", None),
            qualified_paths_of_existing_branches: Vec::new(),
        };
        proof {
            reveal_strlit("");
            assert(""@ =~= Seq::<char>::empty());
            assert(r@.paths =~= Seq::empty());
        }
        r
    }

    /// The written qualified path of a native name.
    pub fn transform_to_qualified_path(&self, path: &str) -> (r: String)
        ensures
            r@ == qualified_text(path@),
    {
        let trimmed = trim_text(path);
        strip_chars(trimmed.as_str(), '*', '_')
    }

    /// `path` without checkout and escape marks.
    pub fn transform_to_qualified_paths(&self, path: &str) -> (r: String)
        ensures
            r@ == without(path@, '*', '_'),
    {
        strip_chars(path, '*', '_')
    }

    /// Whether `qualified_path` is listed.
    pub fn has_qualified_path(&self, qualified_path: &str) -> (r: bool)
        ensures
            r == self@.paths.contains(qualified_path@),
    {
        let mut i: usize = 0;
        while i < self.qualified_paths_of_existing_branches.len()
            invariant
                i <= self.qualified_paths_of_existing_branches.len(),
                forall|j: int| 0 <= j < i ==> self@.paths[j] != qualified_path@,
            decreases self.qualified_paths_of_existing_branches.len() - i,
        {
            if same_text(self.qualified_paths_of_existing_branches[i].as_str(), qualified_path) {
                assert(self@.paths[i as int] == qualified_path@);
                return true;
            }
            i += 1;
        }
        false
    }

    /// Records a line of a native branch listing.
    pub fn insert_from_git_native_branch(&mut self, branch: &str)
        ensures
            final(self)@ == old(self)@.with_line(branch@),
    {
        let no_star = strip_chars(branch, '*', '*');
        let without_star = trim_text(no_star.as_str());
        let converted_branch = self.transform_to_qualified_path(without_star.as_str());
        if !self.has_qualified_path(converted_branch.as_str()) {
            let ghost before = self@.paths;
            self.qualified_paths_of_existing_branches.push(converted_branch.clone());
            assert(self@.paths =~= before.push(converted_branch@));
        }
        if !same_text(converted_branch.as_str(), self.root_node.get_name().as_str()) {
            self.root_node.insert_qualified_path(
                converted_branch.as_str(),
                Some(BranchData::new(without_star.as_str())),
            );
        }
    }

    /// The root of the tree.
    pub fn get_global_root(&self) -> (r: &SymNode)
        ensures
            r@ == self@.root,
    {
        &self.root_node
    }

    /// The child of the root that is named as the feature segment.
    pub fn get_feature_root(&self) -> (r: Option<&SymNode>)
        ensures
            match r {
                Some(n) => self@.root.child(feature_root_name()) == Some(n@),
                None => self@.root.child(feature_root_name()) is None,
            },
    {
        self.root_node.get_child("feature")
    }

    /// The child of the root that is named as the product segment.
    pub fn get_product_root(&self) -> (r: Option<&SymNode>)
        ensures
            match r {
                Some(n) => self@.root.child(product_root_name()) == Some(n@),
                None => self@.root.child(product_root_name()) is None,
            },
    {
        self.root_node.get_child("product")
    }

    /// The feature root of the area named `area`.
    pub fn get_feature_root_of(&self, area: &str) -> (r: Option<&SymNode>)
        ensures
            match r {
                Some(n) => self@.root.find(seq![area@, feature_root_name()]) == Some(n@),
                None => self@.root.find(seq![area@, feature_root_name()]) is None,
            },
    {
        proof {
            reveal_with_fuel(SymView::find, 3);
            let path = seq![area@, feature_root_name()];
            assert(path.skip(1) =~= seq![feature_root_name()]);
            assert(path.skip(1).skip(1) =~= Seq::empty());
        }
        match self.root_node.get_child(area) {
            Some(area_node) => area_node.get_child("feature"),
            None => None,
        }
    }

    /// The product root of the area named `area`.
    pub fn get_product_root_of(&self, area: &str) -> (r: Option<&SymNode>)
        ensures
            match r {
                Some(n) => self@.root.find(seq![area@, product_root_name()]) == Some(n@),
                None => self@.root.find(seq![area@, product_root_name()]) is None,
            },
    {
        proof {
            reveal_with_fuel(SymView::find, 3);
            let path = seq![area@, product_root_name()];
            assert(path.skip(1) =~= seq![product_root_name()]);
            assert(path.skip(1).skip(1) =~= Seq::empty());
        }
        match self.root_node.get_child(area) {
            Some(area_node) => area_node.get_child("product"),
            None => None,
        }
    }

    /// The listed paths that begin with the area, the separator and the
    /// feature segment.
    pub fn iter_all_features_with_branches_of(&self, area: &str) -> (r: Vec<String>)
        ensures
            views(r@) == texts_with_prefix(self@.paths, area@.push('/') + feature_root_name()),
    {
        let mut prefix = String::from_str(area);
        prefix.push('/');
        prefix.append("feature");
        let mut out: Vec<String> = Vec::new();
        let mut i: usize = 0;
        proof {
            assert(self@.paths.take(0) =~= Seq::empty());
            assert(views(out@) =~= Seq::empty());
        }
        while i < self.qualified_paths_of_existing_branches.len()
            invariant
                i <= self.qualified_paths_of_existing_branches.len(),
                prefix@ == area@.push('/') + feature_root_name(),
                views(out@) == texts_with_prefix(self@.paths.take(i as int), prefix@),
            decreases self.qualified_paths_of_existing_branches.len() - i,
        {
            proof {
                assert(self@.paths.take(i + 1).drop_last() =~= self@.paths.take(i as int));
                assert(self@.paths.take(i + 1).last() == self@.paths[i as int]);
            }
            let name = &self.qualified_paths_of_existing_branches[i];
            if text_starts_with(name.as_str(), prefix.as_str()) {
                let ghost before = views(out@);
                out.push(name.clone());
                assert(views(out@) =~= before.push(name@));
            }
            i += 1;
        }
        assert(self@.paths.take(self@.paths.len() as int) =~= self@.paths);
        out
    }

    /// The native name recorded at the written path, if there is one.
    pub fn get_git_branch(&self, qualified_path: &str) -> (r: Option<String>)
        ensures
            match r {
                Some(name) => self@.git_branch(qualified_path@) == Some(name@),
                None => self@.git_branch(qualified_path@) is None,
            },
    {
        match self.root_node.get_path(qualified_path) {
            Some(path) => match path.get_last() {
                Some(node) => match node.get_branch_data() {
                    Some(data) => Some(data.get_git_branch().clone()),
                    None => None,
                },
                None => {
                    proof {
                        crate::text::lemma_split_nonempty(qualified_path@, '/');
                    }
                    None
                },
            },
            None => None,
        }
    }

    /// The listed paths, in the order in which they were first seen.
    pub fn iter_all_qualified_paths(&self) -> (r: &Vec<String>)
        ensures
            views(r@) == self@.paths,
    {
        &self.qualified_paths_of_existing_branches
    }

    /// The listed paths, in the order in which they were first seen.
    pub fn get_all_qualified_paths(&self) -> (r: &Vec<String>)
        ensures
            views(r@) == self@.paths,
    {
        &self.qualified_paths_of_existing_branches
    }

    /// The listed paths that begin with the feature segment and end with
    /// the segment `short`.
    fn long_names_of(&self, short: &str) -> (r: Vec<String>)
        ensures
            views(r@) == long_names(self@.paths, short@),
    {
        let mut out: Vec<String> = Vec::new();
        let mut i: usize = 0;
        proof {
            assert(self@.paths.take(0) =~= Seq::empty());
            assert(views(out@) =~= Seq::empty());
        }
        while i < self.qualified_paths_of_existing_branches.len()
            invariant
                i <= self.qualified_paths_of_existing_branches.len(),
                views(out@) == long_names(self@.paths.take(i as int), short@),
            decreases self.qualified_paths_of_existing_branches.len() - i,
        {
            proof {
                assert(self@.paths.take(i + 1).drop_last() =~= self@.paths.take(i as int));
                assert(self@.paths.take(i + 1).last() == self@.paths[i as int]);
            }
            let path = &self.qualified_paths_of_existing_branches[i];
            if text_starts_with(path.as_str(), "feature") {
                let segments = split_text(path.as_str(), '/');
                proof {
                    crate::text::lemma_split_nonempty(path@, '/');
                    assert(views(segments@).last() == segments@[segments@.len() - 1]@);
                }
                if same_text(segments[segments.len() - 1].as_str(), short) {
                    let ghost before = views(out@);
                    out.push(path.clone());
                    assert(views(out@) =~= before.push(path@));
                }
            }
            i += 1;
        }
        assert(self@.paths.take(self@.paths.len() as int) =~= self@.paths);
        out
    }

    /// The one listed feature path that ends with the segment `name`, if
    /// there is exactly one.
    pub fn get_long_name_from_short(&self, name: &str) -> (r: Option<String>)
        ensures
            match r {
                Some(long) => long_names(self@.paths, name@) == seq![long@],
                None => long_names(self@.paths, name@).len() != 1,
            },
    {
        let mut found = self.long_names_of(name);
        if found.len() == 1 {
            let long = found.pop().unwrap();
            assert(long_names(self@.paths, name@) =~= seq![long@]);
            Some(long)
        } else {
            None
        }
    }

    /// The last segments by which a listed feature path can be named
    /// without doubt, in the order of the paths.
    pub fn get_short_feature_names(&self) -> (r: Vec<String>)
        ensures
            views(r@) == short_names(self@.paths, self@.paths.len() as int),
    {
        let mut unique: Vec<String> = Vec::new();
        let mut i: usize = 0;
        proof {
            assert(views(unique@) =~= Seq::empty());
        }
        while i < self.qualified_paths_of_existing_branches.len()
            invariant
                i <= self.qualified_paths_of_existing_branches.len(),
                views(unique@) == short_names(self@.paths, i as int),
            decreases self.qualified_paths_of_existing_branches.len() - i,
        {
            let path = &self.qualified_paths_of_existing_branches[i];
            proof {
                assert(self@.paths[i as int] == path@);
            }
            if text_starts_with(path.as_str(), "feature") {
                let mut segments = split_text(path.as_str(), '/');
                proof {
                    crate::text::lemma_split_nonempty(path@, '/');
                    assert(views(segments@).last() == segments@[segments@.len() - 1]@);
                }
                let short = segments.pop().unwrap();
                if self.long_names_of(short.as_str()).len() == 1 {
                    let ghost before = views(unique@);
                    unique.push(short);
                    assert(views(unique@) =~= before.push(short@));
                }
            }
            i += 1;
        }
        unique
    }

    /// The listed path that `name` stands for: `name` itself where it is
    /// listed, else the one listed feature path that ends with `name`,
    /// taken without the segment that says whether it is a feature or a
    /// product.
    pub fn expand_from_short(&self, name: &str) -> (r: Option<String>)
        ensures
            match r {
                Some(long) => if self@.paths.contains(name@) {
                    long@ == name@
                } else {
                    long_names(self@.paths, stripped_branch_type(name@)) == seq![long@]
                },
                None => !self@.paths.contains(name@) && long_names(
                    self@.paths,
                    stripped_branch_type(name@),
                ).len() != 1,
            },
    {
        if self.has_qualified_path(name) {
            return Some(String::from_str(name));
        }
        let short = self.strip_branch_type(name);
        self.get_long_name_from_short(short.as_str())
    }

    /// Whether the written path begins with the feature segment or with the
    /// product segment, each followed by the separator.
    pub fn branch_type(&self, branch: &str) -> (r: Option<NodeType>)
        ensures
            r == branch_type_of(branch@),
    {
        let feature_path = BranchDataModel::feature_path_prefix();
        let product_path = BranchDataModel::product_path_prefix();
        if text_starts_with(branch, feature_path.as_str()) {
            Some(NodeType::Feature)
        } else if text_starts_with(branch, product_path.as_str()) {
            Some(NodeType::Product)
        } else {
            None
        }
    }

    /// The written path without any occurrence of the segment, followed by
    /// the separator, that it begins with, where that is the feature or the
    /// product segment.
    pub fn strip_branch_type(&self, branch: &str) -> (r: String)
        ensures
            r@ == stripped_branch_type(branch@),
    {
        match self.branch_type(branch) {
            Some(NodeType::Feature) => remove_text(
                branch,
                BranchDataModel::feature_path_prefix().as_str(),
            ),
            Some(_) => remove_text(branch, BranchDataModel::product_path_prefix().as_str()),
            None => String::from_str(branch),
        }
    }
}

} // verus!
