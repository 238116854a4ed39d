//! The node tree: creation, lookup and insertion of paths.
use vstd::prelude::*;
use vstd::string::StringExecFns;
use crate::node_path::NodePath;
use crate::node_type::{role_violation_message, AnyNodeType, NodeType, WrongNodeTypeError};
use crate::display::{
    all_plain, by_label, drawing, insert_by_label, is_plain, labels_of, tree_draw, tree_of,
    tree_shape, tree_shapes,
};
use crate::text::views;
use crate::qualified_path::{path_views, QualifiedPath};
use crate::text::{same_text, text_less};
use crate::tree_model::{
    by_name, chain, chain_rejection, next_role, place_by_name, without_tags, NodeView,
};

verus! {

/// What is recorded of a node besides its place in the tree.
#[derive(Clone, Copy, Debug)]
pub struct NodeMetadata {
    has_branch: bool,
}

impl View for NodeMetadata {
    type V = bool;

    closed spec fn view(&self) -> bool {
        self.has_branch
    }
}

impl NodeMetadata {
    /// Metadata with the given flag.
    pub fn new(has_branch: bool) -> (r: Self)
        ensures
            r@ == has_branch,
    {
        Self { has_branch }
    }

    /// Metadata of a node for which no branch exists.
    pub fn default() -> (r: Self)
        ensures
            r@ == false,
    {
        Self { has_branch: false }
    }

    /// Whether a branch exists for exactly the path of the node.
    pub fn has_branch(&self) -> (r: bool)
        ensures
            r == self@,
    {
        self.has_branch
    }
}

/// A node of the tree. It owns its children.
#[derive(Debug)]
pub struct Node {
    name: String,
    node_type: NodeType,
    metadata: NodeMetadata,
    children: Vec<Node>,
}

impl View for Node {
    type V = NodeView;

    closed spec fn view(&self) -> NodeView {
        self.model()
    }
}

impl Node {
    /// What this node is, children included.
    pub closed spec fn model(&self) -> NodeView
        decreases self,
    {
        NodeView {
            name: self.name@,
            role: self.node_type,
            has_branch: self.metadata.has_branch,
            children: Self::models(self.children@),
        }
    }

    /// What the nodes are, one by one.
    pub closed spec fn models(nodes: Seq<Node>) -> Seq<NodeView>
        decreases nodes,
    {
        if nodes.len() == 0 {
            Seq::empty()
        } else {
            Self::models(nodes.drop_last()).push(nodes.last().model())
        }
    }

    proof fn lemma_models(nodes: Seq<Node>)
        ensures
            Self::models(nodes).len() == nodes.len(),
            forall|i: int| 0 <= i < nodes.len() ==> (#[trigger] Self::models(nodes)[i]) == nodes[i]@,
        decreases nodes.len(),
    {
        if nodes.len() > 0 {
            Self::lemma_models(nodes.drop_last());
            assert forall|i: int| 0 <= i < nodes.len() implies (#[trigger] Self::models(nodes)[i])
                == nodes[i]@ by {
                if i < nodes.len() - 1 {
                    assert(nodes.drop_last()[i] == nodes[i]);
                }
            }
        }
    }

    /// The children of the model are the models of the children.
    proof fn lemma_children(&self)
        ensures
            self@.name == self.name@,
            self@.role == self.node_type,
            self@.has_branch == self.metadata.has_branch,
            self@.children.len() == self.children@.len(),
            forall|i: int|
                0 <= i < self.children@.len() ==> (#[trigger] self@.children[i])
                    == self.children@[i]@,
    {
        Self::lemma_models(self.children@);
    }
}

impl Clone for Node {
    /// A copy of the node with copies of all its descendants.
    fn clone(&self) -> (r: Self)
        ensures
            r@ == self@,
        decreases self,
    {
        proof {
            self.lemma_children();
        }
        let mut children: Vec<Node> = Vec::new();
        let mut i: usize = 0;
        while i < self.children.len()
            invariant
                i <= self.children.len(),
                children@.len() == i,
                forall|k: int| 0 <= k < i ==> (#[trigger] children@[k])@ == self.children@[k]@,
            decreases self.children.len() - i,
        {
            let child = &self.children[i];
            children.push(child.clone());
            i += 1;
        }
        let r = Node {
            name: self.name.clone(),
            node_type: self.node_type,
            metadata: self.metadata,
            children,
        };
        proof {
            r.lemma_children();
            assert(r@.children =~= self@.children);
        }
        r
    }
}

/// The views of a sequence of node references, element by element.
pub open spec fn node_views(nodes: Seq<&Node>) -> Seq<NodeView> {
    Seq::new(nodes.len(), |i: int| nodes[i]@)
}

/// What can be read from a node of its role.
pub trait NodeTypeInterface {
    /// The role.
    fn get_type(&self) -> &NodeType;
}

impl NodeTypeInterface for Node {
    fn get_type(&self) -> (r: &NodeType)
        ensures
            *r == self@.role,
    {
        self.role()
    }
}

impl Node {
    /// A node without children.
    pub fn new(name: &str, node_type: NodeType, metadata: NodeMetadata) -> (r: Self)
        ensures
            r@ == (NodeView {
                name: name@,
                role: node_type,
                has_branch: metadata@,
                children: Seq::empty(),
            }),
    {
        let r = Self { name: String::from_str(name), node_type, metadata, children: Vec::new() };
        proof {
            r.lemma_children();
            assert(r@.children =~= Seq::empty());
        }
        r
    }

    /// The role.
    pub fn role(&self) -> (r: &NodeType)
        ensures
            *r == self@.role,
    {
        proof {
            self.lemma_children();
        }
        &self.node_type
    }

    /// The chain of this node alone, of which no role is expected.
    pub fn as_node_path(&self) -> (r: NodePath<'_, AnyNodeType>)
        ensures
            r@ == seq![self@],
    {
        NodePath::new(self)
    }

    /// Replaces the metadata.
    pub fn update_metadata(&mut self, metadata: NodeMetadata)
        ensures
            final(self)@ == old(self)@.flagged(metadata@),
    {
        self.metadata = metadata;
        proof {
            self.lemma_children();
            old(self).lemma_children();
            assert(self@.children =~= old(self)@.children);
        }
    }

    /// The name: one path segment.
    pub fn get_name(&self) -> (r: &String)
        ensures
            r@ == self@.name,
    {
        proof {
            self.lemma_children();
        }
        &self.name
    }

    /// The metadata.
    pub fn get_metadata(&self) -> (r: &NodeMetadata)
        ensures
            r@ == self@.has_branch,
    {
        proof {
            self.lemma_children();
        }
        &self.metadata
    }

    /// The children in the order in which they were added.
    pub fn iter_children(&self) -> (r: &Vec<Node>)
        ensures
            r@.len() == self@.children.len(),
            forall|i: int| 0 <= i < r@.len() ==> (#[trigger] r@[i])@ == self@.children[i],
    {
        proof {
            self.lemma_children();
        }
        &self.children
    }

    /// The index of the child named `name`.
    fn child_position(&self, name: &str) -> (r: Option<usize>)
        ensures
            match r {
                Some(i) => self@.is_first_named(i as int, name@) && i < self.children.len(),
                None => !self@.has_child(name@),
            },
    {
        proof {
            self.lemma_children();
        }
        let mut i: usize = 0;
        while i < self.children.len()
            invariant
                i <= self.children.len(),
                self@.children.len() == self.children@.len(),
                forall|k: int|
                    0 <= k < self.children@.len() ==> (#[trigger] self@.children[k])
                        == self.children@[k]@,
                forall|j: int| 0 <= j < i ==> (#[trigger] self@.children[j]).name != name@,
            decreases self.children.len() - i,
        {
            proof {
                self.children@[i as int].lemma_children();
            }
            if same_text(self.children[i].name.as_str(), name) {
                return Some(i);
            }
            i += 1;
        }
        assert forall|k: int| !self@.is_first_named(k, name@) by {
            if 0 <= k < self@.children.len() {
                assert(self@.children[k].name != name@);
            }
        }
        None
    }

    /// The child named `name`.
    pub fn get_child(&self, name: &str) -> (r: Option<&Node>)
        ensures
            match r {
                Some(c) => self@.child(name@) == Some(c@),
                None => self@.child(name@) is None,
            },
    {
        match self.child_position(name) {
            Some(i) => {
                proof {
                    self.lemma_children();
                    self@.lemma_first_named(i as int, name@);
                }
                Some(&self.children[i])
            },
            None => None,
        }
    }

    /// The role of a new child named `name` under a parent of role `role`.
    fn role_of_child(role: NodeType, name: &str, as_tag: bool) -> (r: Result<
        NodeType,
        WrongNodeTypeError,
    >)
        ensures
            match r {
                Ok(t) => next_role(role, name@, as_tag) == Some(t),
                Err(e) => next_role(role, name@, as_tag) is None && e.message()
                    == role_violation_message(role, name@),
            },
    {
        let mut parent = role;
        match parent {
            NodeType::Tag => Err(WrongNodeTypeError::new("Tags cannot have children")),
            _ => {
                if as_tag {
                    Ok(NodeType::Tag)
                } else {
                    parent.build_child_from_name(name)
                }
            },
        }
    }

    /// Adds a child that is not there yet: a tag if `is_tag`, else with the
    /// role that its name has under this node.
    fn add_child(&mut self, name: &str, metadata: NodeMetadata, is_tag: bool) -> (r: Result<
        (),
        WrongNodeTypeError,
    >)
        ensures
            match r {
                Ok(()) => match next_role(old(self)@.role, name@, is_tag) {
                    Some(role) => final(self)@ == (NodeView {
                        children: old(self)@.children.push(
                            NodeView {
                                name: name@,
                                role,
                                has_branch: metadata@,
                                children: Seq::empty(),
                            },
                        ),
                        ..old(self)@
                    }),
                    None => false,
                },
                Err(e) => *final(self) == *old(self) && next_role(old(self)@.role, name@, is_tag)
                    is None && e.message() == role_violation_message(old(self)@.role, name@),
            },
    {
        proof {
            self.lemma_children();
        }
        let new_type = match Self::role_of_child(self.node_type, name, is_tag) {
            Ok(t) => t,
            Err(e) => {
                return Err(e);
            },
        };
        let child = Node::new(name, new_type, metadata);
        self.children.push(child);
        proof {
            self.lemma_children();
            assert(self@.children =~= old(self)@.children.push(child@));
        }
        Ok(())
    }

    /// Whether a chain of new nodes for `path[from..]` can hang under a parent
    /// of role `role`.
    fn check_chain(role: NodeType, path: &QualifiedPath, from: usize, is_tag: bool) -> (r: Result<
        (),
        WrongNodeTypeError,
    >)
        requires
            from <= path@.len(),
        ensures
            match r {
                Ok(()) => chain_rejection(role, path@.skip(from as int), is_tag) is None,
                Err(e) => chain_rejection(role, path@.skip(from as int), is_tag) == Some(
                    e.message(),
                ),
            },
        decreases path@.len() - from,
    {
        let segments = path.iter();
        if from == segments.len() {
            return Ok(());
        }
        proof {
            assert(path@.skip(from as int)[0] == path@[from as int]);
            assert(path@.skip(from as int).skip(1) =~= path@.skip(from + 1));
        }
        let last = from == segments.len() - 1;
        match Self::role_of_child(role, segments[from].as_str(), is_tag && last) {
            Ok(own) => Self::check_chain(own, path, from + 1, is_tag),
            Err(e) => Err(e),
        }
    }

    /// Whether `path[from..]` can be inserted under this node.
    fn check_path(&self, path: &QualifiedPath, from: usize, is_tag: bool) -> (r: Result<
        (),
        WrongNodeTypeError,
    >)
        requires
            from <= path@.len(),
        ensures
            match r {
                Ok(()) => self@.rejection(path@.skip(from as int), is_tag) is None,
                Err(e) => self@.rejection(path@.skip(from as int), is_tag) == Some(e.message()),
            },
        decreases path@.len() - from,
    {
        let segments = path.iter();
        if from == segments.len() {
            return Ok(());
        }
        proof {
            self.lemma_children();
            assert(path@.skip(from as int)[0] == path@[from as int]);
            assert(path@.skip(from as int).skip(1) =~= path@.skip(from + 1));
        }
        match self.child_position(segments[from].as_str()) {
            Some(i) => {
                proof {
                    self@.lemma_first_named(i as int, path@[from as int]);
                }
                self.children[i].check_path(path, from + 1, is_tag)
            },
            None => Self::check_chain(self.node_type, path, from, is_tag),
        }
    }

    /// The chain of new nodes for `path[from..]` under a parent of role `role`.
    fn build_chain(
        role: NodeType,
        path: &QualifiedPath,
        from: usize,
        metadata: NodeMetadata,
        is_tag: bool,
    ) -> (r: Node)
        requires
            from < path@.len(),
            chain_rejection(role, path@.skip(from as int), is_tag) is None,
        ensures
            r@ == chain(role, path@.skip(from as int), metadata@, is_tag),
        decreases path@.len() - from,
    {
        let segments = path.iter();
        proof {
            assert(path@.skip(from as int)[0] == path@[from as int]);
            assert(path@.skip(from as int).skip(1) =~= path@.skip(from + 1));
        }
        let last = from == segments.len() - 1;
        let name = segments[from].as_str();
        let own = match Self::role_of_child(role, name, is_tag && last) {
            Ok(t) => t,
            Err(_) => role,
        };
        if last {
            Node::new(name, own, metadata)
        } else {
            let child = Self::build_chain(own, path, from + 1, metadata, is_tag);
            let mut node = Node::new(name, own, NodeMetadata::default());
            node.children.push(child);
            proof {
                node.lemma_children();
                assert(node@.children =~= seq![child@]);
            }
            node
        }
    }

    /// Inserts `path[from..]`, which this node accepts.
    fn apply_path(&mut self, path: &QualifiedPath, from: usize, metadata: NodeMetadata, is_tag: bool)
        requires
            from <= path@.len(),
            old(self)@.rejection(path@.skip(from as int), is_tag) is None,
        ensures
            final(self)@ == old(self)@.with_path(path@.skip(from as int), metadata@, is_tag),
        decreases path@.len() - from,
    {
        let segments = path.iter();
        if from == segments.len() {
            return ;
        }
        proof {
            self.lemma_children();
            assert(path@.skip(from as int)[0] == path@[from as int]);
            assert(path@.skip(from as int).skip(1) =~= path@.skip(from + 1));
        }
        let last = from == segments.len() - 1;
        match self.child_position(segments[from].as_str()) {
            Some(i) => {
                proof {
                    self@.lemma_first_named(i as int, path@[from as int]);
                }
                let ghost before = self.children@[i as int]@;
                let child = &mut self.children[i];
                if last {
                    child.update_metadata(metadata);
                } else {
                    child.apply_path(path, from + 1, metadata, is_tag);
                }
                proof {
                    self.lemma_children();
                    let after = if last {
                        before.flagged(metadata@)
                    } else {
                        before.with_path(path@.skip(from + 1), metadata@, is_tag)
                    };
                    assert(self@.children =~= old(self)@.children.update(i as int, after));
                }
            },
            None => {
                let node = Self::build_chain(self.node_type, path, from, metadata, is_tag);
                self.children.push(node);
                proof {
                    self.lemma_children();
                    assert(self@.children =~= old(self)@.children.push(node@));
                }
            },
        }
    }

    /// Inserts `path` under this node. The nodes along `path` that are missing
    /// are created without a branch, each with the role that its name has
    /// under its parent; the node at the end of `path` gets `metadata`, and is
    /// a tag if it is new and `is_tag`. Where a node would have to be created
    /// against the role of its parent, nothing is inserted.
    pub fn insert_node_path(&mut self, path: &QualifiedPath, metadata: NodeMetadata, is_tag: bool) -> (r:
        Result<(), WrongNodeTypeError>)
        ensures
            match r {
                Ok(()) => old(self)@.rejection(path@, is_tag) is None && final(self)@ == old(
                    self,
                )@.with_path(path@, metadata@, is_tag),
                Err(e) => old(self)@.rejection(path@, is_tag) == Some(e.message()) && *final(self)
                    == *old(self),
            },
            old(self)@.well_formed() ==> final(self)@.well_formed(),
    {
        assert(path@.skip(0) =~= path@);
        match self.check_path(path, 0, is_tag) {
            Ok(()) => {
                self.apply_path(path, 0, metadata, is_tag);
                proof {
                    if old(self)@.well_formed() {
                        old(self)@.lemma_with_path_well_formed(path@, metadata@, is_tag);
                    }
                }
                Ok(())
            },
            Err(e) => Err(e),
        }
    }

    /// Whether `path` can be inserted under this node, and the error that
    /// inserting it would give if it cannot.
    pub fn check_insert(&self, path: &QualifiedPath, is_tag: bool) -> (r: Result<
        (),
        WrongNodeTypeError,
    >)
        ensures
            match r {
                Ok(()) => self@.rejection(path@, is_tag) is None,
                Err(e) => self@.rejection(path@, is_tag) == Some(e.message()),
            },
    {
        assert(path@.skip(0) =~= path@);
        self.check_path(path, 0, is_tag)
    }

    /// Inserts `path` under this node, as `insert_node_path` does for a node
    /// that is no tag.
    pub fn insert_path(&mut self, path: &QualifiedPath, metadata: NodeMetadata) -> (r: Result<
        (),
        WrongNodeTypeError,
    >)
        ensures
            match r {
                Ok(()) => old(self)@.rejection(path@, false) is None && final(self)@ == old(
                    self,
                )@.with_path(path@, metadata@, false),
                Err(e) => old(self)@.rejection(path@, false) == Some(e.message()) && *final(self)
                    == *old(self),
            },
            old(self)@.well_formed() ==> final(self)@.well_formed(),
    {
        self.insert_node_path(path, metadata, false)
    }

    /// Appends to `out` the paths, each after `initial_path`, of the
    /// descendants whose flag is `has_branch`.
    fn collect_paths(&self, initial_path: &QualifiedPath, has_branch: bool, out: &mut Vec<QualifiedPath>)
        ensures
            path_views(final(out)@) == path_views(old(out)@) + self@.branch_paths(
                initial_path@,
                has_branch,
            ),
        decreases self,
    {
        proof {
            self.lemma_children();
            assert(self@.children.take(0) =~= Seq::empty());
            assert(path_views(out@) + Seq::empty() =~= path_views(out@));
        }
        let mut i: usize = 0;
        while i < self.children.len()
            invariant
                i <= self.children.len(),
                self@.children.len() == self.children@.len(),
                forall|k: int|
                    0 <= k < self.children@.len() ==> (#[trigger] self@.children[k])
                        == self.children@[k]@,
                path_views(out@) == path_views(old(out)@) + NodeView::branch_paths_of(
                    self@.children.take(i as int),
                    initial_path@,
                    has_branch,
                ),
            decreases self.children.len() - i,
        {
            let child = &self.children[i];
            proof {
                child.lemma_children();
                assert(self@.children.take(i + 1).drop_last() =~= self@.children.take(i as int));
                assert(self@.children.take(i + 1).last() == child@);
            }
            let path = initial_path.child(child.name.as_str());
            let ghost before = path_views(out@);
            if child.metadata.has_branch == has_branch {
                out.push(path.clone());
                assert(path_views(out@) =~= before + seq![path@]);
            }
            let ghost middle = path_views(out@);
            child.collect_paths(&path, has_branch, out);
            proof {
                let done = NodeView::branch_paths_of(
                    self@.children.take(i as int),
                    initial_path@,
                    has_branch,
                );
                assert(path_views(out@) =~= path_views(old(out)@) + (done + child@.own_branch_paths(
                    initial_path@,
                    has_branch,
                )));
            }
            i += 1;
        }
        assert(self@.children.take(self@.children.len() as int) =~= self@.children);
    }

    /// The paths, each after `initial_path`, of the descendants whose flag is
    /// `has_branch`: every child before its own descendants, children in the
    /// order in which they were added.
    pub fn get_qualified_paths_by(&self, initial_path: &QualifiedPath, has_branch: bool) -> (r: Vec<
        QualifiedPath,
    >)
        ensures
            path_views(r@) == self@.branch_paths(initial_path@, has_branch),
    {
        let mut out: Vec<QualifiedPath> = Vec::new();
        assert(path_views(out@) =~= Seq::empty());
        self.collect_paths(initial_path, has_branch, &mut out);
        assert(Seq::empty() + self@.branch_paths(initial_path@, has_branch) =~= self@.branch_paths(
            initial_path@,
            has_branch,
        ));
        out
    }

    /// The paths, relative to this node, of the descendants whose flag is
    /// `has_branch`.
    pub fn get_child_paths_by_branch(&self, has_branch: bool) -> (r: Vec<QualifiedPath>)
        ensures
            path_views(r@) == self@.branch_paths(Seq::empty(), has_branch),
    {
        self.get_qualified_paths_by(&QualifiedPath::new(), has_branch)
    }

    /// The children that a text tree of this node shows, in the order in
    /// which it shows them: by name, tags only if `show_tags`.
    pub fn displayed_children(&self, show_tags: bool) -> (r: Vec<&Node>)
        ensures
            node_views(r@) == self@.displayed(show_tags),
    {
        proof {
            self.lemma_children();
            assert(self@.children.take(0) =~= Seq::empty());
        }
        let mut out: Vec<&Node> = Vec::new();
        let mut i: usize = 0;
        proof {
            assert(node_views(out@) =~= Seq::empty());
        }
        while i < self.children.len()
            invariant
                i <= self.children.len(),
                self@.children.len() == self.children@.len(),
                forall|k: int|
                    0 <= k < self.children@.len() ==> (#[trigger] self@.children[k])
                        == self.children@[k]@,
                node_views(out@) == by_name(
                    without_tags(self@.children.take(i as int), show_tags),
                ),
            decreases self.children.len() - i,
        {
            let child = &self.children[i];
            proof {
                child.lemma_children();
                assert(self@.children.take(i + 1).drop_last() =~= self@.children.take(i as int));
                assert(self@.children.take(i + 1).last() == child@);
            }
            let is_tag = match child.node_type {
                NodeType::Tag => true,
                _ => false,
            };
            if !is_tag || show_tags {
                proof {
                    let kept = without_tags(self@.children.take(i + 1), show_tags);
                    assert(kept.drop_last() =~= without_tags(
                        self@.children.take(i as int),
                        show_tags,
                    ));
                }
                let ghost sorted = node_views(out@);
                let mut place: usize = 0;
                proof {
                    assert(sorted.skip(0) =~= sorted);
                }
                while place < out.len() && !text_less(
                    child.name.as_str(),
                    out[place].name.as_str(),
                )
                    invariant
                        place <= out.len(),
                        sorted == node_views(out@),
                        child@.name == child.name@,
                        place_by_name(sorted, child@) == place + place_by_name(
                            sorted.skip(place as int),
                            child@,
                        ),
                    decreases out.len() - place,
                {
                    proof {
                        out@[place as int].lemma_children();
                        assert(sorted[place as int] == out@[place as int]@);
                        assert(sorted.skip(place as int)[0] == sorted[place as int]);
                        assert(sorted.skip(place as int).skip(1) =~= sorted.skip(place + 1));
                    }
                    place += 1;
                }
                proof {
                    if place < out.len() {
                        out@[place as int].lemma_children();
                        assert(sorted[place as int] == out@[place as int]@);
                        assert(sorted.skip(place as int)[0] == sorted[place as int]);
                    }
                    assert(place_by_name(sorted, child@) == place);
                }
                out.insert(place, child);
                assert(node_views(out@) =~= sorted.insert(place as int, child@));
            }
            i += 1;
        }
        assert(self@.children.take(self@.children.len() as int) =~= self@.children);
        out
    }

    /// The text tree of this node: its name as the label, and the text trees
    /// of its children in the order of their names, tags only if `show_tags`.
    fn build_display_tree(&self, show_tags: bool) -> (tree: termtree::Tree<String>)
        ensures
            tree_shape(tree) == self@.shown(show_tags),
            is_plain(tree),
        decreases self,
    {
        proof {
            self.lemma_children();
            assert(self@.children.take(0) =~= Seq::empty());
        }
        let mut leaves: Vec<termtree::Tree<String>> = Vec::new();
        let mut labels: Vec<String> = Vec::new();
        let mut i: usize = 0;
        proof {
            assert(tree_shapes(leaves@) =~= Seq::empty());
            assert(views(labels@) =~= labels_of(tree_shapes(leaves@)));
        }
        while i < self.children.len()
            invariant
                i <= self.children.len(),
                self@.children.len() == self.children@.len(),
                forall|k: int|
                    0 <= k < self.children@.len() ==> (#[trigger] self@.children[k])
                        == self.children@[k]@,
                views(labels@) == labels_of(tree_shapes(leaves@)),
                all_plain(leaves@),
                tree_shapes(leaves@) == by_label(
                    NodeView::shown_of(self@.children.take(i as int), show_tags),
                ),
            decreases self.children.len() - i,
        {
            let child = &self.children[i];
            proof {
                child.lemma_children();
                assert(self@.children.take(i + 1).drop_last() =~= self@.children.take(i as int));
                assert(self@.children.take(i + 1).last() == child@);
            }
            let is_tag = match child.node_type {
                NodeType::Tag => true,
                _ => false,
            };
            if !is_tag || show_tags {
                let leaf = child.build_display_tree(show_tags);
                proof {
                    let shapes = NodeView::shown_of(self@.children.take(i + 1), show_tags);
                    assert(shapes.drop_last() =~= NodeView::shown_of(
                        self@.children.take(i as int),
                        show_tags,
                    ));
                }
                insert_by_label(&mut leaves, &mut labels, leaf, child.name.clone());
            }
            i += 1;
        }
        assert(self@.children.take(self@.children.len() as int) =~= self@.children);
        tree_of(self.name.as_str(), leaves)
    }

    /// The subtree of this node drawn as text.
    pub fn display_tree(&self, show_tags: bool) -> (r: String)
        ensures
            r@ == drawing(self@.shown(show_tags)),
    {
        let tree = self.build_display_tree(show_tags);
        tree_draw(&tree)
    }

    /// Removes the branch at `path[from..]`.
    fn drop_branch(&mut self, path: &QualifiedPath, from: usize)
        requires
            from <= path@.len(),
        ensures
            final(self)@ == old(self)@.without_branch(path@.skip(from as int)),
        decreases path@.len() - from,
    {
        let segments = path.iter();
        if from == segments.len() {
            return ;
        }
        proof {
            self.lemma_children();
            assert(path@.skip(from as int)[0] == path@[from as int]);
            assert(path@.skip(from as int).skip(1) =~= path@.skip(from + 1));
        }
        let last = from == segments.len() - 1;
        match self.child_position(segments[from].as_str()) {
            Some(i) => {
                proof {
                    self@.lemma_first_named(i as int, path@[from as int]);
                    self.children@[i as int].lemma_children();
                }
                let ghost before = self.children@[i as int]@;
                if !last {
                    let child = &mut self.children[i];
                    child.drop_branch(path, from + 1);
                    proof {
                        self.lemma_children();
                        assert(self@.children =~= old(self)@.children.update(
                            i as int,
                            before.without_branch(path@.skip(from + 1)),
                        ));
                    }
                } else if self.children[i].children.len() == 0 {
                    let _ = self.children.remove(i);
                    proof {
                        self.lemma_children();
                        assert(self@.children =~= old(self)@.children.remove(i as int));
                    }
                } else {
                    let child = &mut self.children[i];
                    child.update_metadata(NodeMetadata::default());
                    proof {
                        self.lemma_children();
                        assert(self@.children =~= old(self)@.children.update(
                            i as int,
                            before.flagged(false),
                        ));
                    }
                }
            },
            None => {},
        }
    }

    /// Removes the branch at `path`: the node there is removed if it has no
    /// children, and loses its flag if it has. Where `path` is empty or leads
    /// nowhere, nothing changes.
    pub fn remove_branch(&mut self, path: &QualifiedPath)
        ensures
            final(self)@ == old(self)@.without_branch(path@),
            old(self)@.well_formed() ==> final(self)@.well_formed(),
    {
        assert(path@.skip(0) =~= path@);
        self.drop_branch(path, 0);
        proof {
            if old(self)@.well_formed() {
                crate::tree_laws::lemma_without_branch_well_formed(old(self)@, path@);
            }
        }
    }

    /// The path of the one segment that is the name of this node.
    pub fn as_qualified_path(&self) -> (r: QualifiedPath)
        ensures
            r@ == seq![self@.name],
    {
        proof {
            self.lemma_children();
        }
        QualifiedPath::of_segment(self.name.as_str())
    }
}

impl NodeView {
    /// The first child named `name` is the child that `child` gives.
    pub proof fn lemma_first_named(self, i: int, name: Seq<char>)
        requires
            self.is_first_named(i, name),
        ensures
            self.has_child(name),
            self.child_index(name) == i,
            self.child(name) == Some(self.children[i]),
    {
        let c = self.child_index(name);
        assert(self.is_first_named(c, name));
        if c < i {
            assert(self.children[c].name != name);
        }
        if i < c {
            assert(self.children[i].name != name);
        }
    }

    /// The child that a node has under a name carries that name.
    pub proof fn lemma_child_name(self, name: Seq<char>)
        ensures
            match self.child(name) {
                Some(c) => c.name == name,
                None => true,
            },
    {
        if self.has_child(name) {
            assert(self.is_first_named(self.child_index(name), name));
        }
    }

    /// Where no child is the first of its name, no child has the name.
    pub proof fn lemma_no_child(self, name: Seq<char>)
        requires
            !self.has_child(name),
        ensures
            forall|i: int| 0 <= i < self.children.len() ==> (#[trigger] self.children[i]).name != name,
    {
        assert forall|i: int| 0 <= i < self.children.len() implies (#[trigger] self.children[i]).name
            != name by {
            if self.children[i].name == name {
                self.lemma_least_named(name, i);
            }
        }
    }

    proof fn lemma_least_named(self, name: Seq<char>, k: int)
        requires
            0 <= k < self.children.len(),
            self.children[k].name == name,
        ensures
            self.has_child(name),
        decreases k,
    {
        if forall|j: int| 0 <= j < k ==> (#[trigger] self.children[j]).name != name {
            assert(self.is_first_named(k, name));
        } else {
            let j = choose|j: int| 0 <= j < k && (#[trigger] self.children[j]).name == name;
            self.lemma_least_named(name, j);
        }
    }

    /// A chain of new nodes that is not rejected is well formed, carries the
    /// first name of its path, and is admitted by its parent.
    pub proof fn lemma_chain_well_formed(
        role: NodeType,
        path: Seq<Seq<char>>,
        has_branch: bool,
        is_tag: bool,
    )
        requires
            path.len() > 0,
            chain_rejection(role, path, is_tag) is None,
        ensures
            chain(role, path, has_branch, is_tag).well_formed(),
            chain(role, path, has_branch, is_tag).name == path[0],
            Self::admits(role, chain(role, path, has_branch, is_tag)),
        decreases path.len(),
    {
        let own = next_role(role, path[0], is_tag && path.len() == 1)->0;
        if path.len() > 1 {
            Self::lemma_chain_well_formed(own, path.skip(1), has_branch, is_tag);
            assert(chain(role, path, has_branch, is_tag).children[0] == chain(
                own,
                path.skip(1),
                has_branch,
                is_tag,
            ));
        }
    }

    /// Inserting a path that is not rejected keeps a tree well formed.
    pub proof fn lemma_with_path_well_formed(self, path: Seq<Seq<char>>, has_branch: bool, is_tag: bool)
        requires
            self.well_formed(),
            self.rejection(path, is_tag) is None,
        ensures
            self.with_path(path, has_branch, is_tag).well_formed(),
        decreases path.len(),
    {
        if path.len() == 0 {
        } else if self.has_child(path[0]) {
            let i = self.child_index(path[0]);
            assert(self.is_first_named(i, path[0]));
            let old_child = self.children[i];
            assert(old_child.well_formed());
            assert(Self::admits(self.role, old_child));
            let child = if path.len() == 1 {
                old_child.flagged(has_branch)
            } else {
                old_child.with_path(path.skip(1), has_branch, is_tag)
            };
            if path.len() > 1 {
                old_child.lemma_with_path_well_formed(path.skip(1), has_branch, is_tag);
                old_child.lemma_with_path_keeps(path.skip(1), has_branch, is_tag);
            }
            assert(child.well_formed());
            let after = self.with_path(path, has_branch, is_tag);
            assert(after.children == self.children.update(i, child));
            assert forall|k: int| 0 <= k < after.children.len() implies (
            #[trigger] after.children[k]).name == self.children[k].name && Self::admits(
                after.role,
                after.children[k],
            ) && after.children[k].well_formed() by {
                if k != i {
                    assert(after.children[k] == self.children[k]);
                    assert(Self::admits(self.role, self.children[k]));
                    assert(self.children[k].well_formed());
                }
            }
            assert forall|a: int, b: int| 0 <= a < b < after.children.len() implies (
            #[trigger] after.children[a]).name != (#[trigger] after.children[b]).name by {
                assert(self.children[a].name != self.children[b].name);
            }
        } else {
            self.lemma_no_child(path[0]);
            Self::lemma_chain_well_formed(self.role, path, has_branch, is_tag);
            let fresh = chain(self.role, path, has_branch, is_tag);
            let after = self.with_path(path, has_branch, is_tag);
            assert(after.children == self.children.push(fresh));
            assert forall|k: int| 0 <= k < after.children.len() implies Self::admits(
                after.role,
                #[trigger] after.children[k],
            ) && after.children[k].well_formed() by {
                if k < self.children.len() {
                    assert(after.children[k] == self.children[k]);
                    assert(Self::admits(self.role, self.children[k]));
                    assert(self.children[k].well_formed());
                }
            }
            assert forall|a: int, b: int| 0 <= a < b < after.children.len() implies (
            #[trigger] after.children[a]).name != (#[trigger] after.children[b]).name by {
                assert(after.children[a] == self.children[a]);
                if b < self.children.len() {
                    assert(after.children[b] == self.children[b]);
                    assert(self.children[a].name != self.children[b].name);
                }
            }
        }
    }

    /// Inserting a path changes neither the name nor the role of the node
    /// under which it is inserted.
    pub proof fn lemma_with_path_keeps(self, path: Seq<Seq<char>>, has_branch: bool, is_tag: bool)
        ensures
            self.with_path(path, has_branch, is_tag).name == self.name,
            self.with_path(path, has_branch, is_tag).role == self.role,
            self.with_path(path, has_branch, is_tag).has_branch == self.has_branch,
    {
    }
}

} // verus!
