//! The aggregate: the tree under its virtual root, and the index of the
//! paths for which a branch exists.
use vstd::prelude::*;
use crate::node::{Node, NodeMetadata};
use crate::node_path::NodePath;
use crate::node_type::{
    feature_root_name, product_root_name, AnyNodeType, Area, NodeType, WrongNodeTypeError,
};
use crate::qualified_path::{clone_paths, decode, path_views, QualifiedPath};
use crate::text::views;
use crate::tree_laws::{
    lemma_with_path_flags, lemma_without_branch_flags, lemma_without_branch_keeps,
    lemma_without_branch_well_formed,
};
use crate::tree_model::NodeView;

verus! {

/// `index` without every occurrence of `path`.
pub open spec fn without_value(index: Seq<Seq<Seq<char>>>, path: Seq<Seq<char>>) -> Seq<
    Seq<Seq<char>>,
>
    decreases index.len(),
{
    if index.len() == 0 {
        Seq::empty()
    } else if index.last() == path {
        without_value(index.drop_last(), path)
    } else {
        without_value(index.drop_last(), path).push(index.last())
    }
}

/// What the aggregate is: the tree under the virtual root, and the paths
/// indexed as having a branch, in the order in which they were added.
pub struct TreeView {
    pub root: NodeView,
    pub index: Seq<Seq<Seq<char>>>,
}

impl TreeView {
    /// The aggregate of a virtual root without children and an empty index.
    pub open spec fn empty() -> TreeView {
        TreeView {
            root: NodeView {
                name: Seq::empty(),
                role: NodeType::VirtualRoot,
                has_branch: false,
                children: Seq::empty(),
            },
            index: Seq::empty(),
        }
    }

    /// The tree is well formed under a virtual root, no path is indexed
    /// twice, and a path is indexed exactly if it is not empty and the tree
    /// has a node with a branch at it.
    pub open spec fn well_formed(self) -> bool {
        &&& self.root.well_formed()
        &&& self.root.role == NodeType::VirtualRoot
        &&& self.index.no_duplicates()
        &&& forall|q: Seq<Seq<char>>|
            #![trigger self.index.contains(q)]
            #![trigger self.root.has_branch_at(q)]
            self.index.contains(q) <==> (q.len() > 0 && self.root.has_branch_at(q))
    }

    /// The aggregate after a branch at `path` is recorded: the tree holds the
    /// path with its flag set, and the index holds it once. The empty path
    /// changes nothing.
    pub open spec fn with_branch(self, path: Seq<Seq<char>>) -> TreeView {
        if path.len() == 0 {
            self
        } else {
            TreeView {
                root: self.root.with_path(path, true, false),
                index: if self.index.contains(path) {
                    self.index
                } else {
                    self.index.push(path)
                },
            }
        }
    }

    /// The aggregate after the branch at `path` is gone from tree and index.
    pub open spec fn without_branch(self, path: Seq<Seq<char>>) -> TreeView {
        TreeView {
            root: self.root.without_branch(path),
            index: without_value(self.index, path),
        }
    }

    /// The aggregate after the lines of a native branch listing are recorded
    /// one by one, up to the first line that the tree rejects, and the
    /// message of that rejection, if there is one.
    pub open spec fn replay(self, lines: Seq<Seq<char>>) -> (TreeView, Option<Seq<char>>)
        decreases lines.len(),
    {
        if lines.len() == 0 {
            (self, None)
        } else {
            match self.root.rejection(decode(lines[0]), false) {
                Some(message) => (self, Some(message)),
                None => self.with_branch(decode(lines[0])).replay(lines.skip(1)),
            }
        }
    }

    /// Recording a branch that the tree does not reject keeps the aggregate
    /// well formed.
    pub proof fn lemma_with_branch_well_formed(self, path: Seq<Seq<char>>)
        requires
            self.well_formed(),
            self.root.rejection(path, false) is None,
        ensures
            self.with_branch(path).well_formed(),
    {
        let after = self.with_branch(path);
        if path.len() > 0 {
            self.root.lemma_with_path_well_formed(path, true, false);
            self.root.lemma_with_path_keeps(path, true, false);
            assert forall|q: Seq<Seq<char>>|
                #![trigger after.index.contains(q)]
                #![trigger after.root.has_branch_at(q)]
                after.index.contains(q) <==> (q.len() > 0 && after.root.has_branch_at(q)) by {
                lemma_with_path_flags(self.root, path, true, false, q);
                assert(self.index.contains(q) <==> (q.len() > 0 && self.root.has_branch_at(q)));
                if self.index.contains(path) {
                } else {
                    let n = self.index.len() as int;
                    assert(after.index[n] == path);
                    if self.index.contains(q) {
                        let k = choose|k: int| 0 <= k < self.index.len() && self.index[k] == q;
                        assert(after.index[k] == q);
                    }
                    if after.index.contains(q) && q != path {
                        let k = choose|k: int| 0 <= k < after.index.len() && after.index[k] == q;
                        assert(self.index[k] == q);
                    }
                }
            }
            if !self.index.contains(path) {
                assert forall|a: int, b: int|
                    0 <= a < after.index.len() && 0 <= b < after.index.len() && a
                        != b implies after.index[a] != after.index[b] by {
                    if a < self.index.len() && b < self.index.len() {
                        assert(self.index[a] != self.index[b]);
                    } else if a < self.index.len() {
                        assert(self.index.contains(self.index[a]));
                    } else {
                        assert(self.index.contains(self.index[b]));
                    }
                }
            }
        }
    }

    /// Removing a branch keeps the aggregate well formed.
    pub proof fn lemma_without_branch_well_formed(self, path: Seq<Seq<char>>)
        requires
            self.well_formed(),
            path.len() > 0,
        ensures
            self.without_branch(path).well_formed(),
    {
        let after = self.without_branch(path);
        lemma_without_branch_well_formed(self.root, path);
        lemma_without_branch_keeps(self.root, path);
        lemma_without_value(self.index, path);
        assert forall|q: Seq<Seq<char>>|
            #![trigger after.index.contains(q)]
            #![trigger after.root.has_branch_at(q)]
            after.index.contains(q) <==> (q.len() > 0 && after.root.has_branch_at(q)) by {
            lemma_without_branch_flags(self.root, path, q);
            assert(self.index.contains(q) <==> (q.len() > 0 && self.root.has_branch_at(q)));
        }
    }
}

/// What `without_value` keeps: every other path, in order and as often as
/// before.
pub proof fn lemma_without_value(index: Seq<Seq<Seq<char>>>, path: Seq<Seq<char>>)
    ensures
        forall|q: Seq<Seq<char>>|
            #![trigger without_value(index, path).contains(q)]
            without_value(index, path).contains(q) <==> (index.contains(q) && q != path),
        index.no_duplicates() ==> without_value(index, path).no_duplicates(),
        without_value(index, path).len() <= index.len(),
    decreases index.len(),
{
    let after = without_value(index, path);
    if index.len() > 0 {
        let front = index.drop_last();
        let last = index.last();
        lemma_without_value(front, path);
        let kept = without_value(front, path);
        assert forall|q: Seq<Seq<char>>| #![trigger after.contains(q)]
            after.contains(q) <==> (index.contains(q) && q != path) by {
            if after.contains(q) {
                let k = choose|k: int| 0 <= k < after.len() && after[k] == q;
                if last != path && k == kept.len() {
                    assert(index[index.len() - 1] == q);
                } else {
                    assert(kept[k] == q);
                    assert(kept.contains(q));
                    let j = choose|j: int| 0 <= j < front.len() && front[j] == q;
                    assert(index[j] == q);
                }
            }
            if index.contains(q) && q != path {
                let j = choose|j: int| 0 <= j < index.len() && index[j] == q;
                if j < front.len() {
                    assert(front[j] == q);
                    assert(front.contains(q));
                    assert(kept.contains(q));
                    let k = choose|k: int| 0 <= k < kept.len() && kept[k] == q;
                    assert(after[k] == q);
                } else {
                    assert(after[kept.len() as int] == q);
                }
            }
        }
        if index.no_duplicates() {
            assert(front.no_duplicates()) by {
                assert forall|a: int, b: int|
                    0 <= a < front.len() && 0 <= b < front.len() && a != b implies front[a]
                    != front[b] by {
                    assert(index[a] != index[b]);
                }
            }
            if last != path {
                assert forall|a: int, b: int|
                    0 <= a < after.len() && 0 <= b < after.len() && a != b implies after[a]
                    != after[b] by {
                    if a < kept.len() && b < kept.len() {
                        assert(kept[a] != kept[b]);
                    } else {
                        let c = if a < kept.len() {
                            a
                        } else {
                            b
                        };
                        assert(kept.contains(kept[c]));
                        assert(front.contains(kept[c]));
                        let j = choose|j: int| 0 <= j < front.len() && front[j] == kept[c];
                        assert(index[j] != index[index.len() - 1]);
                    }
                }
            }
        }
    }
}

/// The tree of all nodes under a virtual root, with the index of the paths
/// for which a branch exists.
#[derive(Debug)]
pub struct TreeDataModel {
    virtual_root: Node,
    qualified_paths_with_branch: Vec<QualifiedPath>,
}

impl View for TreeDataModel {
    type V = TreeView;

    closed spec fn view(&self) -> TreeView {
        TreeView { root: self.virtual_root@, index: path_views(self.qualified_paths_with_branch@) }
    }
}

impl Clone for TreeDataModel {
    /// A copy of the tree and of the index.
    fn clone(&self) -> (r: Self)
        ensures
            r@ == self@,
    {
        Self {
            virtual_root: self.virtual_root.clone(),
            qualified_paths_with_branch: clone_paths(&self.qualified_paths_with_branch),
        }
    }
}

impl TreeDataModel {
    /// The aggregate of a virtual root without children and an empty index.
    pub fn new() -> (r: Self)
        ensures
            r@ == TreeView::empty(),
            r@.well_formed(),
    {
        let r = Self {
            virtual_root: Node::new("", NodeType::VirtualRoot, NodeMetadata::default()),
            qualified_paths_with_branch: Vec::new(),
        };
        proof {
            reveal_strlit("");
            assert(""@ =~= Seq::<char>::empty());
            assert(r@.index =~= Seq::empty());
            assert forall|q: Seq<Seq<char>>|
                #![trigger r@.index.contains(q)]
                #![trigger r@.root.has_branch_at(q)]
                r@.index.contains(q) <==> (q.len() > 0 && r@.root.has_branch_at(q)) by {
                if q.len() > 0 {
                    assert forall|k: int| !r@.root.is_first_named(k, q[0]) by {}
                }
            }
        }
        r
    }

    /// Whether `path` is indexed as having a branch.
    pub fn has_branch(&self, qualified_path: &QualifiedPath) -> (r: bool)
        ensures
            r == self@.index.contains(qualified_path@),
    {
        let mut i: usize = 0;
        while i < self.qualified_paths_with_branch.len()
            invariant
                i <= self.qualified_paths_with_branch.len(),
                forall|j: int| 0 <= j < i ==> self@.index[j] != qualified_path@,
            decreases self.qualified_paths_with_branch.len() - i,
        {
            if self.qualified_paths_with_branch[i] == *qualified_path {
                assert(self@.index[i as int] == qualified_path@);
                return true;
            }
            i += 1;
        }
        false
    }

    /// Whether the tree takes `path`, and the error that recording a branch
    /// there would give if it does not.
    pub fn check_qualified_path(&self, path: &QualifiedPath) -> (r: Result<(), WrongNodeTypeError>)
        ensures
            match r {
                Ok(()) => self@.root.rejection(path@, false) is None,
                Err(e) => self@.root.rejection(path@, false) == Some(e.message()),
            },
    {
        self.virtual_root.check_insert(path, false)
    }

    /// Records that a branch exists at `path`: the nodes along the path that
    /// are missing are created, the node at its end gets its flag set, and
    /// the path is indexed if it is not yet. Where the tree rejects the path,
    /// nothing changes. The empty path changes nothing.
    pub fn insert_qualified_path(&mut self, path: QualifiedPath) -> (r: Result<
        (),
        WrongNodeTypeError,
    >)
        ensures
            match r {
                Ok(()) => old(self)@.root.rejection(path@, false) is None && final(self)@ == old(
                    self,
                )@.with_branch(path@),
                Err(e) => old(self)@.root.rejection(path@, false) == Some(e.message())
                    && final(self)@ == old(self)@,
            },
            old(self)@.well_formed() ==> final(self)@.well_formed(),
    {
        if path.is_empty() {
            return Ok(());
        }
        match self.virtual_root.insert_path(&path, NodeMetadata::new(true)) {
            Ok(()) => {
                if !self.has_branch(&path) {
                    let ghost before = self@.index;
                    self.qualified_paths_with_branch.push(path);
                    assert(self@.index =~= before.push(path@));
                }
                proof {
                    if old(self)@.well_formed() {
                        old(self)@.lemma_with_branch_well_formed(path@);
                    }
                }
                Ok(())
            },
            Err(e) => Err(e),
        }
    }

    /// Records the lines of a native branch listing one by one, each decoded
    /// to its path, and stops at the first line that the tree rejects.
    pub fn insert_native_branches(&mut self, lines: &Vec<String>) -> (r: Result<
        (),
        WrongNodeTypeError,
    >)
        ensures
            final(self)@ == old(self)@.replay(views(lines@)).0,
            match r {
                Ok(()) => old(self)@.replay(views(lines@)).1 is None,
                Err(e) => old(self)@.replay(views(lines@)).1 == Some(e.message()),
            },
            old(self)@.well_formed() ==> final(self)@.well_formed(),
    {
        let mut i: usize = 0;
        proof {
            assert(views(lines@).skip(0) =~= views(lines@));
        }
        while i < lines.len()
            invariant
                i <= lines.len(),
                old(self)@.replay(views(lines@)) == self@.replay(views(lines@).skip(i as int)),
                old(self)@.well_formed() ==> self@.well_formed(),
            decreases lines.len() - i,
        {
            proof {
                assert(views(lines@).skip(i as int)[0] == lines@[i as int]@);
                assert(views(lines@).skip(i as int).skip(1) =~= views(lines@).skip(i + 1));
            }
            let path = QualifiedPath::from_native(lines[i].as_str());
            match self.insert_qualified_path(path) {
                Ok(()) => {},
                Err(e) => {
                    return Err(e);
                },
            }
            i += 1;
        }
        assert(views(lines@).skip(lines@.len() as int) =~= Seq::empty());
        Ok(())
    }

    /// Removes the branch at `path` from tree and index: the node there is
    /// removed if it has no children, and loses its flag if it has.
    pub fn remove_qualified_path(&mut self, path: &QualifiedPath)
        ensures
            final(self)@ == old(self)@.without_branch(path@),
            old(self)@.well_formed() ==> final(self)@.well_formed(),
    {
        self.virtual_root.remove_branch(path);
        let mut kept: Vec<QualifiedPath> = Vec::new();
        let mut i: usize = 0;
        proof {
            assert(old(self)@.index.take(0) =~= Seq::empty());
            assert(path_views(kept@) =~= Seq::empty());
        }
        while i < self.qualified_paths_with_branch.len()
            invariant
                i <= self.qualified_paths_with_branch.len(),
                self@.index == old(self)@.index,
                path_views(kept@) == without_value(self@.index.take(i as int), path@),
            decreases self.qualified_paths_with_branch.len() - i,
        {
            proof {
                assert(self@.index.take(i + 1).drop_last() =~= self@.index.take(i as int));
                assert(self@.index.take(i + 1).last() == self@.index[i as int]);
            }
            if self.qualified_paths_with_branch[i] != *path {
                let ghost before = path_views(kept@);
                let copy = self.qualified_paths_with_branch[i].clone();
                kept.push(copy);
                assert(path_views(kept@) =~= before.push(self@.index[i as int]));
            }
            i += 1;
        }
        assert(self@.index.take(self@.index.len() as int) =~= self@.index);
        self.qualified_paths_with_branch = kept;
        proof {
            if old(self)@.well_formed() {
                if path@.len() > 0 {
                    old(self)@.lemma_without_branch_well_formed(path@);
                } else {
                    lemma_without_value(old(self)@.index, path@);
                    assert(!old(self)@.index.contains(path@));
                    lemma_without_absent(old(self)@.index, path@);
                }
            }
        }
    }

    /// The chain from the virtual root to the node at `path`, if there is
    /// one. The empty path names no node.
    pub fn get_node_path<'a>(&'a self, path: &QualifiedPath) -> (r: Option<
        NodePath<'a, AnyNodeType>,
    >)
        ensures
            match r {
                Some(p) => path@.len() > 0 && self@.root.find(path@) == Some(p@.last()) && p@
                    == seq![self@.root] + self@.root.trail(path@) && p@.len() == 1 + path@.len(),
                None => path@.len() == 0 || self@.root.find(path@) is None,
            },
    {
        if path.is_empty() {
            return None;
        }
        let root = NodePath::<'a, AnyNodeType>::new(&self.virtual_root);
        assert(seq![self@.root].last() == self@.root);
        root.to(path)
    }

    /// The chain from the virtual root to the area that the first segment of
    /// `path` names, if there is one.
    pub fn get_area<'a>(&'a self, path: &QualifiedPath) -> (r: Option<NodePath<'a, Area>>)
        ensures
            match r {
                Some(p) => path@.len() > 0 && self@.root.child(path@[0]) == Some(p@.last()) && p@
                    == seq![self@.root, p@.last()],
                None => path@.len() == 0 || self@.root.child(path@[0]) is None,
            },
    {
        if path.is_empty() {
            return None;
        }
        let area = path.trim_n(0, 1);
        match self.get_node_path(&area) {
            Some(p) => {
                proof {
                    reveal_with_fuel(NodeView::find, 2);
                    reveal_with_fuel(NodeView::trail, 2);
                    assert(area@ =~= seq![path@[0]]);
                    assert(area@.skip(1) =~= Seq::empty());
                    let c = self@.root.child(path@[0])->0;
                    assert(seq![self@.root] + (seq![c] + Seq::empty()) =~= seq![self@.root, c]);
                }
                match p.to_parent_area() {
                    Some(a) => {
                        assert(a@ =~= seq![self@.root, p@.last()]);
                        Some(a)
                    },
                    None => None,
                }
            },
            None => {
                proof {
                    reveal_with_fuel(NodeView::find, 2);
                    assert(area@ =~= seq![path@[0]]);
                    assert(area@.skip(1) =~= Seq::empty());
                }
                None
            },
        }
    }

    /// The path of the product root of the area at `area`.
    pub fn get_qualified_path_to_product_root(&self, area: &QualifiedPath) -> (r: QualifiedPath)
        ensures
            r@ == area@.push(product_root_name()),
    {
        area.child("product")
    }

    /// The path of the feature root of the area at `area`.
    pub fn get_qualified_path_to_feature_root(&self, area: &QualifiedPath) -> (r: QualifiedPath)
        ensures
            r@ == area@.push(feature_root_name()),
    {
        area.child("feature")
    }

    /// The paths indexed as having a branch, in the order in which they were
    /// added.
    pub fn iter_qualified_paths_with_branches(&self) -> (r: &Vec<QualifiedPath>)
        ensures
            path_views(r@) == self@.index,
    {
        &self.qualified_paths_with_branch
    }

    /// The paths indexed as having a branch, in the order in which they were
    /// added.
    pub fn get_qualified_paths_with_branches(&self) -> (r: &Vec<QualifiedPath>)
        ensures
            path_views(r@) == self@.index,
    {
        &self.qualified_paths_with_branch
    }
}

/// Removing a path that is not there changes nothing.
pub proof fn lemma_without_absent(index: Seq<Seq<Seq<char>>>, path: Seq<Seq<char>>)
    requires
        !index.contains(path),
    ensures
        without_value(index, path) == index,
    decreases index.len(),
{
    if index.len() > 0 {
        let front = index.drop_last();
        assert(index[index.len() - 1] != path);
        assert forall|q: Seq<Seq<char>>| front.contains(q) implies index.contains(q) by {
            let j = choose|j: int| 0 <= j < front.len() && front[j] == q;
            assert(index[j] == q);
        }
        lemma_without_absent(front, path);
        assert(front.push(index.last()) =~= index);
    }
}

} // verus!
