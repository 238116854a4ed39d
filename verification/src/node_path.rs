//! Handles on a place in the tree: the chain of nodes from a root down to a
//! node, tagged with the role that the caller expects of that node.
use vstd::prelude::*;
use std::marker::PhantomData;
use crate::node::{Node, NodeTypeInterface};
use crate::node_type::{
    feature_root_name, product_root_name, AnyNodeType, Area, Feature, FeatureRoot, NodeType,
    Product, ProductRoot, Tag, VirtualRoot,
};
use crate::qualified_path::{path_views, QualifiedPath};
use crate::display::drawing;
use crate::tree_model::{is_chain, linked, names, NodeView};

verus! {

/// The chain of nodes from a root down to a node. The root gives the chain
/// its start and no segment of its path. `T` is the role that the caller
/// expects of the last node; nothing checks it but `concretize`.
pub struct NodePath<'a, T> {
    path: Vec<&'a Node>,
    _phantom: PhantomData<T>,
}

impl<'a, T> View for NodePath<'a, T> {
    type V = Seq<NodeView>;

    closed spec fn view(&self) -> Seq<NodeView> {
        Seq::new(self.path@.len(), |i: int| self.path@[i]@)
    }
}

/// A chain together with the role that its last node was found to have.
pub enum NodePathType<'a> {
    Feature(NodePath<'a, Feature>),
    FeatureRoot(NodePath<'a, FeatureRoot>),
    Product(NodePath<'a, Product>),
    ProductRoot(NodePath<'a, ProductRoot>),
    Area(NodePath<'a, Area>),
    VirtualRoot(NodePath<'a, VirtualRoot>),
    Tag(NodePath<'a, Tag>),
}

impl<'a> NodePathType<'a> {
    /// The role that the variant stands for.
    pub open spec fn role(self) -> NodeType {
        match self {
            NodePathType::Feature(_) => NodeType::Feature,
            NodePathType::FeatureRoot(_) => NodeType::FeatureRoot,
            NodePathType::Product(_) => NodeType::Product,
            NodePathType::ProductRoot(_) => NodeType::ProductRoot,
            NodePathType::Area(_) => NodeType::Area,
            NodePathType::VirtualRoot(_) => NodeType::VirtualRoot,
            NodePathType::Tag(_) => NodeType::Tag,
        }
    }

    /// The chain that the variant carries.
    pub open spec fn chain(self) -> Seq<NodeView> {
        match self {
            NodePathType::Feature(p) => p@,
            NodePathType::FeatureRoot(p) => p@,
            NodePathType::Product(p) => p@,
            NodePathType::ProductRoot(p) => p@,
            NodePathType::Area(p) => p@,
            NodePathType::VirtualRoot(p) => p@,
            NodePathType::Tag(p) => p@,
        }
    }
}

impl<'a> NodePath<'a, AnyNodeType> {
    /// The same chain under another expected role.
    fn to_concrete_type<T>(self) -> (r: NodePath<'a, T>)
        ensures
            r@ == self@,
    {
        proof {
            use_type_invariant(&self);
        }
        NodePath::<'a, T>::from_path(self.path)
    }

    /// The chain of `other` with no role expected of it.
    pub fn from_concrete<T>(other: NodePath<'a, T>) -> (r: Self)
        ensures
            r@ == other@,
    {
        proof {
            use_type_invariant(&other);
        }
        Self::from_path(other.path)
    }

    /// The chain under the role that its last node has.
    pub fn concretize(self) -> (r: NodePathType<'a>)
        ensures
            r.role() == self@.last().role,
            r.chain() == self@,
    {
        match self.get_node().get_type() {
            NodeType::Feature => NodePathType::Feature(self.to_concrete_type()),
            NodeType::FeatureRoot => NodePathType::FeatureRoot(self.to_concrete_type()),
            NodeType::Product => NodePathType::Product(self.to_concrete_type()),
            NodeType::ProductRoot => NodePathType::ProductRoot(self.to_concrete_type()),
            NodeType::Area => NodePathType::Area(self.to_concrete_type()),
            NodeType::VirtualRoot => NodePathType::VirtualRoot(self.to_concrete_type()),
            NodeType::Tag => NodePathType::Tag(self.to_concrete_type()),
        }
    }
}

impl<'a> NodePath<'a, Area> {
    /// The path of the feature root of this area.
    pub fn get_path_to_feature_root(&self) -> (r: QualifiedPath)
        ensures
            r@ == names(self@.skip(1)).push(feature_root_name()),
    {
        self.get_qualified_path().child("feature")
    }

    /// The path of the product root of this area.
    pub fn get_path_to_product_root(&self) -> (r: QualifiedPath)
        ensures
            r@ == names(self@.skip(1)).push(product_root_name()),
    {
        self.get_qualified_path().child("product")
    }

    /// The chain down to the feature root of this area, if the area has a
    /// child of that name and role.
    pub fn to_feature_root(self) -> (r: Option<NodePath<'a, FeatureRoot>>)
        ensures
            match r {
                Some(p) => self@.last().child(feature_root_name()) == Some(p@.last()) && p@
                    == self@.push(p@.last()) && p@.last().role == NodeType::FeatureRoot,
                None => match self@.last().child(feature_root_name()) {
                    Some(c) => c.role != NodeType::FeatureRoot,
                    None => true,
                },
            },
    {
        match self.to_child("feature") {
            Some(p) => match p.concretize() {
                NodePathType::FeatureRoot(path) => Some(path),
                _ => None,
            },
            None => None,
        }
    }

    /// The chain down to the product root of this area, if the area has a
    /// child of that name and role.
    pub fn to_product_root(self) -> (r: Option<NodePath<'a, ProductRoot>>)
        ensures
            match r {
                Some(p) => self@.last().child(product_root_name()) == Some(p@.last()) && p@
                    == self@.push(p@.last()) && p@.last().role == NodeType::ProductRoot,
                None => match self@.last().child(product_root_name()) {
                    Some(c) => c.role != NodeType::ProductRoot,
                    None => true,
                },
            },
    {
        match self.to_child("product") {
            Some(p) => match p.concretize() {
                NodePathType::ProductRoot(path) => Some(path),
                _ => None,
            },
            None => None,
        }
    }
}

impl<'a> NodePath<'a, FeatureRoot> {
    /// The paths, relative to the feature root, of the features for which a
    /// branch exists.
    pub fn iter_features_with_branches(&self) -> (r: Vec<QualifiedPath>)
        ensures
            path_views(r@) == self@.last().branch_paths(Seq::empty(), true),
    {
        self.get_child_paths_by_branch(true)
    }
}

impl<'a, T> NodePath<'a, T> {
    #[verifier::type_invariant]
    spec fn chained(&self) -> bool {
        is_chain(self@)
    }

    fn from_path(path: Vec<&'a Node>) -> (r: Self)
        requires
            is_chain(Seq::new(path@.len(), |i: int| path@[i]@)),
        ensures
            r@ == Seq::new(path@.len(), |i: int| path@[i]@),
    {
        Self { path, _phantom: PhantomData }
    }

    /// The chain of the one node `root`.
    pub fn new(root: &'a Node) -> (r: NodePath<'a, T>)
        ensures
            r@ == seq![root@],
    {
        let mut path: Vec<&'a Node> = Vec::new();
        path.push(root);
        assert(Seq::new(path@.len(), |i: int| path@[i]@) =~= seq![root@]);
        Self::from_path(path)
    }

    /// The last node of the chain.
    pub fn get_node(&self) -> (r: &'a Node)
        ensures
            self@.len() > 0,
            is_chain(self@),
            r@ == self@.last(),
    {
        proof {
            use_type_invariant(self);
        }
        self.path[self.path.len() - 1]
    }

    /// The chain extended by the child named `name` of its last node.
    fn to_child(self, name: &str) -> (r: Option<NodePath<'a, AnyNodeType>>)
        ensures
            match r {
                Some(p) => self@.last().child(name@) == Some(p@.last()) && p@ == self@.push(
                    p@.last(),
                ),
                None => self@.last().child(name@) is None,
            },
    {
        proof {
            use_type_invariant(&self);
        }
        let tip = self.get_node();
        match tip.get_child(name) {
            Some(child) => {
                let mut path = self.path;
                path.push(child);
                proof {
                    let chain = Seq::new(path@.len(), |i: int| path@[i]@);
                    assert(chain =~= self@.push(child@));
                    assert forall|i: int| 0 <= i < chain.len() - 1 implies #[trigger] linked(
                        chain,
                        i,
                    ) by {
                        if i < self@.len() - 1 {
                            assert(linked(self@, i));
                            assert(chain[i] == self@[i]);
                            assert(chain[i + 1] == self@[i + 1]);
                        } else {
                            tip@.lemma_child_name(name@);
                        }
                    }
                }
                Some(NodePath::<'a, AnyNodeType>::from_path(path))
            },
            None => None,
        }
    }

    /// The names of the children of the last node that are tags.
    pub fn get_tags(&self) -> (r: Vec<QualifiedPath>)
        ensures
            path_views(r@) == NodeView::tag_paths(self@.last().children),
    {
        let tip = self.get_node();
        let children = tip.iter_children();
        let mut out: Vec<QualifiedPath> = Vec::new();
        let mut i: usize = 0;
        proof {
            assert(tip@.children.take(0) =~= Seq::empty());
            assert(path_views(out@) =~= Seq::empty());
        }
        while i < children.len()
            invariant
                i <= children.len(),
                children@.len() == tip@.children.len(),
                forall|k: int| 0 <= k < children@.len() ==> (#[trigger] children@[k])@ == tip@.children[k],
                path_views(out@) == NodeView::tag_paths(tip@.children.take(i as int)),
            decreases children.len() - i,
        {
            let child = &children[i];
            proof {
                assert(tip@.children.take(i + 1).drop_last() =~= tip@.children.take(i as int));
                assert(tip@.children.take(i + 1).last() == child@);
            }
            let is_tag = match child.get_type() {
                NodeType::Tag => true,
                _ => false,
            };
            if is_tag {
                let ghost before = path_views(out@);
                let path = child.as_qualified_path();
                out.push(path);
                assert(path_views(out@) =~= before.push(seq![child@.name]));
            }
            i += 1;
        }
        assert(tip@.children.take(tip@.children.len() as int) =~= tip@.children);
        out
    }

    /// The same chain with no role expected of it.
    pub fn to_any_type(self) -> (r: NodePath<'a, AnyNodeType>)
        ensures
            r@ == self@,
    {
        NodePath::<'a, AnyNodeType>::from_concrete(self)
    }

    /// The chain extended along `path`, if every segment names a child of
    /// the node before it.
    pub fn to(self, path: &QualifiedPath) -> (r: Option<NodePath<'a, AnyNodeType>>)
        ensures
            match r {
                Some(p) => self@.last().find(path@) == Some(p@.last()) && p@ == self@
                    + self@.last().trail(path@) && p@.len() == self@.len() + path@.len(),
                None => self@.last().find(path@) is None,
            },
    {
        proof {
            use_type_invariant(&self);
        }
        let segments = path.iter();
        let mut current = self.to_any_type();
        let mut i: usize = 0;
        proof {
            assert(path@.skip(0) =~= path@);
            assert(self@ + Seq::empty() =~= self@);
        }
        while i < segments.len()
            invariant
                i <= segments.len(),
                crate::text::views(segments@) == path@,
                current@.len() == self@.len() + i,
                current@.len() > 0,
                self@.last().find(path@) == current@.last().find(path@.skip(i as int)),
                self@ + self@.last().trail(path@) == current@ + current@.last().trail(
                    path@.skip(i as int),
                ),
            decreases segments.len() - i,
        {
            proof {
                assert(path@.skip(i as int)[0] == path@[i as int]);
                assert(path@.skip(i as int).skip(1) =~= path@.skip(i + 1));
                assert(path@[i as int] == segments@[i as int]@);
            }
            let ghost before = current@;
            match current.to_child(segments[i].as_str()) {
                Some(next) => {
                    proof {
                        let c = next@.last();
                        assert(before + (seq![c] + c.trail(path@.skip(i + 1))) =~= next@ + c.trail(
                            path@.skip(i + 1),
                        ));
                    }
                    current = next;
                },
                None => {
                    return None;
                },
            }
            i += 1;
        }
        proof {
            assert(path@.skip(path@.len() as int) =~= Seq::empty());
            assert(current@ + Seq::empty() =~= current@);
        }
        Some(current)
    }

    /// The chain cut after its second node, which under a virtual root is the
    /// area. A chain of the root alone has no area.
    pub fn to_parent_area(self) -> (r: Option<NodePath<'a, Area>>)
        ensures
            match r {
                Some(p) => self@.len() >= 2 && p@ == self@.take(2),
                None => self@.len() < 2,
            },
    {
        proof {
            use_type_invariant(&self);
        }
        if self.path.len() < 2 {
            return None;
        }
        let mut path: Vec<&'a Node> = Vec::new();
        path.push(self.path[0]);
        path.push(self.path[1]);
        proof {
            let chain = Seq::new(path@.len(), |i: int| path@[i]@);
            assert(chain =~= self@.take(2));
            assert forall|i: int| 0 <= i < chain.len() - 1 implies #[trigger] linked(chain, i) by {
                assert(linked(self@, i));
                assert(chain[i] == self@[i]);
                assert(chain[i + 1] == self@[i + 1]);
            }
        }
        Some(NodePath::<'a, Area>::from_path(path))
    }

    /// The path from the root of the chain to its last node: the names of all
    /// nodes but the root.
    pub fn get_qualified_path(&self) -> (r: QualifiedPath)
        ensures
            r@ == names(self@.skip(1)),
    {
        proof {
            use_type_invariant(self);
        }
        let mut r = QualifiedPath::new();
        let mut i: usize = 1;
        proof {
            assert(names(self@.subrange(1, 1)) =~= Seq::empty());
        }
        while i < self.path.len()
            invariant
                1 <= i <= self.path.len(),
                r@ == names(self@.subrange(1, i as int)),
            decreases self.path.len() - i,
        {
            r = r.child(self.path[i].get_name().as_str());
            proof {
                assert(names(self@.subrange(1, i + 1)) =~= names(self@.subrange(1, i as int)).push(
                    self@[i as int].name,
                ));
            }
            i += 1;
        }
        assert(self@.subrange(1, self@.len() as int) =~= self@.skip(1));
        r
    }

    /// The paths, relative to the last node, of its descendants whose flag
    /// is `has_branch`.
    pub fn get_child_paths_by_branch(&self, has_branch: bool) -> (r: Vec<QualifiedPath>)
        ensures
            path_views(r@) == self@.last().branch_paths(Seq::empty(), has_branch),
    {
        self.get_node().get_child_paths_by_branch(has_branch)
    }

    /// The subtree of the last node drawn as text.
    pub fn display_tree(&self, show_tags: bool) -> (r: String)
        ensures
            r@ == drawing(self@.last().shown(show_tags)),
    {
        self.get_node().display_tree(show_tags)
    }
}

} // verus!
