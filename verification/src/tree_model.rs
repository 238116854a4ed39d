//! The mathematical model of a node tree, over which the contracts of the
//! tree operations are stated.
use vstd::prelude::*;
use crate::display::{by_label, TreeShape};
use crate::text::text_before;
use crate::node_type::{child_role, role_violation_message, NodeType};

verus! {

/// Where `node` goes among nodes in the order of their names: before the
/// first whose name comes after its own.
pub open spec fn place_by_name(nodes: Seq<NodeView>, node: NodeView) -> int
    decreases nodes.len(),
{
    if nodes.len() == 0 {
        0
    } else if text_before(node.name, nodes[0].name) {
        0
    } else {
        1 + place_by_name(nodes.skip(1), node)
    }
}

/// The nodes in the order of their names; nodes of the same name stay in
/// the order in which they stand.
pub open spec fn by_name(nodes: Seq<NodeView>) -> Seq<NodeView>
    decreases nodes.len(),
{
    if nodes.len() == 0 {
        Seq::empty()
    } else {
        let before = by_name(nodes.drop_last());
        before.insert(place_by_name(before, nodes.last()), nodes.last())
    }
}

/// The nodes without the tags, unless `show_tags`.
pub open spec fn without_tags(nodes: Seq<NodeView>, show_tags: bool) -> Seq<NodeView>
    decreases nodes.len(),
{
    if nodes.len() == 0 {
        Seq::empty()
    } else if nodes.last().role == NodeType::Tag && !show_tags {
        without_tags(nodes.drop_last(), show_tags)
    } else {
        without_tags(nodes.drop_last(), show_tags).push(nodes.last())
    }
}

/// What a node is: its name, its role, whether a branch exists for exactly
/// its path, and its children in the order in which they were added.
pub struct NodeView {
    pub name: Seq<char>,
    pub role: NodeType,
    pub has_branch: bool,
    pub children: Seq<NodeView>,
}

/// The role of a new child named `name` under a parent of role `role`. A tag
/// takes no child; any other parent takes a tag; otherwise the name decides.
pub open spec fn next_role(role: NodeType, name: Seq<char>, as_tag: bool) -> Option<NodeType> {
    if role == NodeType::Tag {
        None
    } else if as_tag {
        Some(NodeType::Tag)
    } else {
        child_role(role, name)
    }
}

/// Why a chain of new nodes named by `path` cannot hang under a parent of
/// role `role`, if it cannot. Only the last node of the chain can be a tag.
pub open spec fn chain_rejection(role: NodeType, path: Seq<Seq<char>>, is_tag: bool) -> Option<
    Seq<char>,
>
    decreases path.len(),
{
    if path.len() == 0 {
        None
    } else {
        match next_role(role, path[0], is_tag && path.len() == 1) {
            None => Some(role_violation_message(role, path[0])),
            Some(r) => chain_rejection(r, path.skip(1), is_tag),
        }
    }
}

/// The chain of new nodes named by the non-empty `path` under a parent of
/// role `role`: each node is the only child of the one before, and only the
/// last carries the flag.
pub open spec fn chain(role: NodeType, path: Seq<Seq<char>>, has_branch: bool, is_tag: bool) -> NodeView
    decreases path.len(),
{
    let own = match next_role(role, path[0], is_tag && path.len() == 1) {
        Some(r) => r,
        None => role,
    };
    if path.len() <= 1 {
        NodeView { name: path[0], role: own, has_branch, children: Seq::empty() }
    } else {
        NodeView {
            name: path[0],
            role: own,
            has_branch: false,
            children: seq![chain(own, path.skip(1), has_branch, is_tag)],
        }
    }
}

impl NodeView {
    /// Whether `i` is the index of the first child named `name`.
    pub open spec fn is_first_named(self, i: int, name: Seq<char>) -> bool {
        &&& 0 <= i < self.children.len()
        &&& self.children[i].name == name
        &&& forall|j: int| 0 <= j < i ==> (#[trigger] self.children[j]).name != name
    }

    /// Whether a child is named `name`.
    pub open spec fn has_child(self, name: Seq<char>) -> bool {
        exists|i: int| self.is_first_named(i, name)
    }

    /// The index of the first child named `name`, where there is one.
    pub open spec fn child_index(self, name: Seq<char>) -> int {
        choose|i: int| self.is_first_named(i, name)
    }

    /// The child named `name`.
    pub open spec fn child(self, name: Seq<char>) -> Option<NodeView> {
        if self.has_child(name) {
            Some(self.children[self.child_index(name)])
        } else {
            None
        }
    }

    /// The node reached by following `path` child by child.
    pub open spec fn find(self, path: Seq<Seq<char>>) -> Option<NodeView>
        decreases path.len(),
    {
        if path.len() == 0 {
            Some(self)
        } else {
            match self.child(path[0]) {
                Some(c) => c.find(path.skip(1)),
                None => None,
            }
        }
    }

    /// Whether a parent of role `role` may hold `child`.
    pub open spec fn admits(role: NodeType, child: NodeView) -> bool {
        role != NodeType::Tag && (child.role == NodeType::Tag || child_role(role, child.name)
            == Some(child.role))
    }

    /// No two children of a node share a name, and every child has a role
    /// that the role of its parent admits.
    pub open spec fn well_formed(self) -> bool
        decreases self,
    {
        &&& forall|i: int, j: int|
            0 <= i < j < self.children.len() ==> (#[trigger] self.children[i]).name != (
            #[trigger] self.children[j]).name
        &&& forall|i: int|
            0 <= i < self.children.len() ==> Self::admits(self.role, #[trigger] self.children[i])
        &&& forall|i: int|
            0 <= i < self.children.len() ==> (#[trigger] self.children[i]).well_formed()
    }

    /// Why `path` cannot be inserted under this node, if it cannot: the
    /// message for the first node that would have to be created against the
    /// role of its parent.
    pub open spec fn rejection(self, path: Seq<Seq<char>>, is_tag: bool) -> Option<Seq<char>>
        decreases path.len(),
    {
        if path.len() == 0 {
            None
        } else if self.has_child(path[0]) {
            self.children[self.child_index(path[0])].rejection(path.skip(1), is_tag)
        } else {
            chain_rejection(self.role, path, is_tag)
        }
    }

    /// This node with its flag set.
    pub open spec fn flagged(self, has_branch: bool) -> NodeView {
        NodeView { has_branch, ..self }
    }

    /// This node after `path` is inserted under it: the nodes along `path`
    /// that are missing are created without a branch, and the node at the end
    /// of `path` gets the flag. The empty path changes nothing.
    pub open spec fn with_path(self, path: Seq<Seq<char>>, has_branch: bool, is_tag: bool) -> NodeView
        decreases path.len(),
    {
        if path.len() == 0 {
            self
        } else if self.has_child(path[0]) {
            let i = self.child_index(path[0]);
            let child = if path.len() == 1 {
                self.children[i].flagged(has_branch)
            } else {
                self.children[i].with_path(path.skip(1), has_branch, is_tag)
            };
            NodeView { children: self.children.update(i, child), ..self }
        } else {
            NodeView { children: self.children.push(chain(self.role, path, has_branch, is_tag)), ..self }
        }
    }

    /// The paths, each after `prefix`, of the descendants whose flag is
    /// `has_branch`: every child before its own descendants, children in order.
    pub open spec fn branch_paths(self, prefix: Seq<Seq<char>>, has_branch: bool) -> Seq<
        Seq<Seq<char>>,
    >
        decreases self, 1int,
    {
        Self::branch_paths_of(self.children, prefix, has_branch)
    }

    /// The paths of `branch_paths` for the given children and their descendants.
    pub open spec fn branch_paths_of(
        children: Seq<NodeView>,
        prefix: Seq<Seq<char>>,
        has_branch: bool,
    ) -> Seq<Seq<Seq<char>>>
        decreases children, 0int,
    {
        if children.len() == 0 {
            Seq::empty()
        } else {
            Self::branch_paths_of(children.drop_last(), prefix, has_branch)
                + children.last().own_branch_paths(prefix, has_branch)
        }
    }

    /// The path of this node after `prefix`, if its flag is `has_branch`,
    /// followed by those of its descendants.
    pub open spec fn own_branch_paths(self, prefix: Seq<Seq<char>>, has_branch: bool) -> Seq<
        Seq<Seq<char>>,
    >
        decreases self, 2int,
    {
        let path = prefix.push(self.name);
        if self.has_branch == has_branch {
            seq![path] + self.branch_paths(path, has_branch)
        } else {
            self.branch_paths(path, has_branch)
        }
    }

    /// The shape of the text tree of this node: its name as the label, and
    /// the text trees of its children in the order of their names, tags
    /// only if `show_tags`.
    pub open spec fn shown(self, show_tags: bool) -> TreeShape
        decreases self, 1int,
    {
        TreeShape { root: self.name, leaves: by_label(Self::shown_of(self.children, show_tags)) }
    }

    /// The children that a text tree of this node shows, in the order in
    /// which it shows them: by name, tags only if `show_tags`.
    pub open spec fn displayed(self, show_tags: bool) -> Seq<NodeView> {
        by_name(without_tags(self.children, show_tags))
    }

    /// The text trees of the given children in their own order, tags only
    /// if `show_tags`.
    pub open spec fn shown_of(children: Seq<NodeView>, show_tags: bool) -> Seq<TreeShape>
        decreases children, 0int,
    {
        if children.len() == 0 {
            Seq::empty()
        } else if children.last().role == NodeType::Tag && !show_tags {
            Self::shown_of(children.drop_last(), show_tags)
        } else {
            Self::shown_of(children.drop_last(), show_tags).push(children.last().shown(show_tags))
        }
    }

    /// The nodes passed on the way along `path`, this node not among them;
    /// the way ends where a child is missing.
    pub open spec fn trail(self, path: Seq<Seq<char>>) -> Seq<NodeView>
        decreases path.len(),
    {
        if path.len() == 0 {
            Seq::empty()
        } else {
            match self.child(path[0]) {
                Some(c) => seq![c] + c.trail(path.skip(1)),
                None => Seq::empty(),
            }
        }
    }

    /// Whether a branch exists for exactly the node at `path`. Where there is
    /// no such node, there is no such branch.
    pub open spec fn has_branch_at(self, path: Seq<Seq<char>>) -> bool {
        match self.find(path) {
            Some(n) => n.has_branch,
            None => false,
        }
    }

    /// The one-segment paths of the children that are tags, in order.
    pub open spec fn tag_paths(children: Seq<NodeView>) -> Seq<Seq<Seq<char>>>
        decreases children.len(),
    {
        if children.len() == 0 {
            Seq::empty()
        } else if children.last().role == NodeType::Tag {
            Self::tag_paths(children.drop_last()).push(seq![children.last().name])
        } else {
            Self::tag_paths(children.drop_last())
        }
    }

    /// This node after the branch at `path` is gone: the node at `path` is
    /// removed if it has no children, and loses its flag if it has. Where
    /// `path` is empty or leads nowhere, nothing changes.
    pub open spec fn without_branch(self, path: Seq<Seq<char>>) -> NodeView
        decreases path.len(),
    {
        if path.len() == 0 || !self.has_child(path[0]) {
            self
        } else {
            let i = self.child_index(path[0]);
            if path.len() > 1 {
                NodeView {
                    children: self.children.update(i, self.children[i].without_branch(path.skip(1))),
                    ..self
                }
            } else if self.children[i].children.len() == 0 {
                NodeView { children: self.children.remove(i), ..self }
            } else {
                NodeView { children: self.children.update(i, self.children[i].flagged(false)), ..self }
            }
        }
    }
}

/// A chain of nodes: it is not empty, and every node but the first is the
/// child that the node before it has under that name.
pub open spec fn is_chain(chain: Seq<NodeView>) -> bool {
    &&& chain.len() > 0
    &&& forall|i: int| 0 <= i < chain.len() - 1 ==> #[trigger] linked(chain, i)
}

/// Whether the node after the one at `i` is the child that this one has
/// under that name.
pub open spec fn linked(chain: Seq<NodeView>, i: int) -> bool {
    chain[i].child(chain[i + 1].name) == Some(chain[i + 1])
}

/// The names of the nodes, in order.
pub open spec fn names(chain: Seq<NodeView>) -> Seq<Seq<char>> {
    Seq::new(chain.len(), |i: int| chain[i].name)
}

} // verus!
