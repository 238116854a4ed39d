//! What holds of the lists of descendant paths, and of inserting a path
//! twice.
use vstd::prelude::*;
use crate::display::{by_label, place_by_label, TreeShape};
use crate::node_type::NodeType;
use crate::text::text_before;
use crate::tree::TreeView;
use crate::tree_laws::{lemma_child_after_push, lemma_child_after_update};
use crate::tree_model::{
    by_name, chain, chain_rejection, place_by_name, without_tags, NodeView,
};

verus! {

proof fn lemma_add_contains<A>(a: Seq<A>, b: Seq<A>, x: A)
    ensures
        (a + b).contains(x) <==> (a.contains(x) || b.contains(x)),
{
    if a.contains(x) {
        let i = choose|i: int| 0 <= i < a.len() && a[i] == x;
        assert((a + b)[i] == x);
    }
    if b.contains(x) {
        let i = choose|i: int| 0 <= i < b.len() && b[i] == x;
        assert((a + b)[a.len() + i] == x);
    }
    if (a + b).contains(x) {
        let i = choose|i: int| 0 <= i < (a + b).len() && (a + b)[i] == x;
        if i < a.len() {
            assert(a[i] == x);
        } else {
            assert(b[i - a.len()] == x);
        }
    }
}

proof fn lemma_own_member(c: NodeView, prefix: Seq<Seq<char>>, flag: bool, x: Seq<Seq<char>>)
    ensures
        c.own_branch_paths(prefix, flag).contains(x) <==> ((c.has_branch == flag && x
            == prefix.push(c.name)) || c.branch_paths(prefix.push(c.name), flag).contains(x)),
{
    let path = prefix.push(c.name);
    let rest = c.branch_paths(path, flag);
    if c.has_branch == flag {
        lemma_add_contains(seq![path], rest, x);
        assert(seq![path].contains(x) <==> x == path) by {
            if x == path {
                assert(seq![path][0] == x);
            }
        }
    }
}

proof fn lemma_paths_of_member(
    cs: Seq<NodeView>,
    prefix: Seq<Seq<char>>,
    flag: bool,
    x: Seq<Seq<char>>,
)
    ensures
        NodeView::branch_paths_of(cs, prefix, flag).contains(x) <==> exists|k: int|
            0 <= k < cs.len() && (#[trigger] cs[k]).own_branch_paths(prefix, flag).contains(x),
    decreases cs.len(),
{
    if cs.len() == 0 {
    } else {
        let front = cs.drop_last();
        lemma_paths_of_member(front, prefix, flag, x);
        lemma_add_contains(
            NodeView::branch_paths_of(front, prefix, flag),
            cs.last().own_branch_paths(prefix, flag),
            x,
        );
        if NodeView::branch_paths_of(cs, prefix, flag).contains(x) {
            if NodeView::branch_paths_of(front, prefix, flag).contains(x) {
                let k = choose|k: int|
                    0 <= k < front.len() && (#[trigger] front[k]).own_branch_paths(
                        prefix,
                        flag,
                    ).contains(x);
                assert(cs[k] == front[k]);
            } else {
                assert(cs[cs.len() - 1] == cs.last());
            }
        }
        if exists|k: int|
            0 <= k < cs.len() && (#[trigger] cs[k]).own_branch_paths(prefix, flag).contains(x) {
            let k = choose|k: int|
                0 <= k < cs.len() && (#[trigger] cs[k]).own_branch_paths(prefix, flag).contains(x);
            if k < cs.len() - 1 {
                assert(front[k] == cs[k]);
            }
        }
    }
}

/// Every path listed for a node and its descendants begins with the prefix
/// followed by the name of the node.
proof fn lemma_own_extends(c: NodeView, prefix: Seq<Seq<char>>, flag: bool, x: Seq<Seq<char>>)
    requires
        c.own_branch_paths(prefix, flag).contains(x),
    ensures
        x.len() > prefix.len(),
        x.take(prefix.len() as int + 1) == prefix.push(c.name),
    decreases c,
{
    let path = prefix.push(c.name);
    lemma_own_member(c, prefix, flag, x);
    if c.has_branch == flag && x == path {
        assert(x.take(prefix.len() as int + 1) =~= path);
    } else {
        lemma_paths_of_member(c.children, path, flag, x);
        let k = choose|k: int|
            0 <= k < c.children.len() && (#[trigger] c.children[k]).own_branch_paths(
                path,
                flag,
            ).contains(x);
        lemma_own_extends(c.children[k], path, flag, x);
        assert(x.take(prefix.len() as int + 1) =~= path) by {
            let longer = x.take(path.len() as int + 1);
            assert(longer == path.push(c.children[k].name));
            assert forall|j: int| 0 <= j < path.len() implies x[j] == path[j] by {
                assert(longer[j] == x[j]);
            }
        }
    }
}

/// A path is listed for a well-formed node exactly if it is the prefix
/// followed by the path of a descendant whose flag is the one asked for.
pub proof fn lemma_listed(m: NodeView, prefix: Seq<Seq<char>>, flag: bool, q: Seq<Seq<char>>)
    requires
        m.well_formed(),
    ensures
        m.branch_paths(prefix, flag).contains(prefix + q) <==> (q.len() > 0 && m.find(q) is Some
            && m.find(q)->0.has_branch == flag),
    decreases m,
{
    reveal_with_fuel(NodeView::find, 2);
    let x = prefix + q;
    let cs = m.children;
    lemma_paths_of_member(cs, prefix, flag, x);
    if m.branch_paths(prefix, flag).contains(x) {
        let k = choose|k: int|
            0 <= k < cs.len() && (#[trigger] cs[k]).own_branch_paths(prefix, flag).contains(x);
        let c = cs[k];
        let path = prefix.push(c.name);
        lemma_own_extends(c, prefix, flag, x);
        assert(q.len() > 0);
        assert(q[0] == c.name) by {
            assert(x.take(prefix.len() as int + 1)[prefix.len() as int] == x[prefix.len() as int]);
            assert(path[prefix.len() as int] == c.name);
        }
        assert(m.is_first_named(k, q[0])) by {
            assert forall|j: int| 0 <= j < k implies (#[trigger] cs[j]).name != q[0] by {
                assert(cs[j].name != cs[k].name);
            }
        }
        m.lemma_first_named(k, q[0]);
        assert(c.well_formed());
        lemma_own_member(c, prefix, flag, x);
        assert(path + q.skip(1) =~= x);
        lemma_listed(c, path, flag, q.skip(1));
        if q.len() == 1 {
            assert(q.skip(1).len() == 0);
        } else {
            assert(x != path);
        }
    }
    if q.len() > 0 && m.find(q) is Some && m.find(q)->0.has_branch == flag {
        assert(m.has_child(q[0]));
        let k = m.child_index(q[0]);
        assert(m.is_first_named(k, q[0]));
        let c = cs[k];
        let path = prefix.push(c.name);
        assert(c.well_formed());
        lemma_own_member(c, prefix, flag, x);
        assert(path + q.skip(1) =~= x);
        lemma_listed(c, path, flag, q.skip(1));
        if q.len() == 1 {
            assert(x =~= path);
        }
        assert(cs[k].own_branch_paths(prefix, flag).contains(x));
    }
}

/// Every descendant of a well-formed node is in exactly one of the two lists
/// of its paths: the one of its own flag.
pub proof fn lemma_branch_paths_partition(m: NodeView, q: Seq<Seq<char>>)
    requires
        m.well_formed(),
        q.len() > 0,
        m.find(q) is Some,
    ensures
        m.branch_paths(Seq::empty(), m.find(q)->0.has_branch).contains(q),
        !m.branch_paths(Seq::empty(), !m.find(q)->0.has_branch).contains(q),
{
    assert(Seq::<Seq<char>>::empty() + q =~= q);
    lemma_listed(m, Seq::empty(), true, q);
    lemma_listed(m, Seq::empty(), false, q);
}

/// Every path in a list of descendant paths of a well-formed node is the
/// path of a descendant with the flag of that list.
pub proof fn lemma_branch_paths_sound(m: NodeView, flag: bool, q: Seq<Seq<char>>)
    requires
        m.well_formed(),
        m.branch_paths(Seq::empty(), flag).contains(q),
    ensures
        q.len() > 0,
        m.find(q) is Some,
        m.find(q)->0.has_branch == flag,
{
    assert(Seq::<Seq<char>>::empty() + q =~= q);
    lemma_listed(m, Seq::empty(), flag, q);
}

/// Inserting into a chain of new nodes the rest of the path that it was made
/// for changes nothing.
proof fn lemma_chain_again(role: NodeType, p: Seq<Seq<char>>, has_branch: bool, is_tag: bool)
    requires
        p.len() > 0,
    ensures
        p.len() > 1 ==> chain(role, p, has_branch, is_tag).with_path(p.skip(1), has_branch, is_tag)
            == chain(role, p, has_branch, is_tag),
        p.len() == 1 ==> chain(role, p, has_branch, is_tag).flagged(has_branch) == chain(
            role,
            p,
            has_branch,
            is_tag,
        ),
    decreases p.len(),
{
    let c = chain(role, p, has_branch, is_tag);
    if p.len() > 1 {
        let rest = p.skip(1);
        let inner = chain(c.role, rest, has_branch, is_tag);
        assert(c.children =~= seq![inner]);
        assert(inner.name == rest[0]);
        assert(c.is_first_named(0, rest[0]));
        c.lemma_first_named(0, rest[0]);
        lemma_chain_again(c.role, rest, has_branch, is_tag);
        let again = c.with_path(rest, has_branch, is_tag);
        assert(again.children =~= c.children);
    }
}

/// Inserting the same path twice gives what inserting it once gives.
pub proof fn lemma_with_path_twice(m: NodeView, p: Seq<Seq<char>>, has_branch: bool, is_tag: bool)
    ensures
        m.with_path(p, has_branch, is_tag).with_path(p, has_branch, is_tag) == m.with_path(
            p,
            has_branch,
            is_tag,
        ),
    decreases p.len(),
{
    let once = m.with_path(p, has_branch, is_tag);
    if p.len() == 0 {
    } else if m.has_child(p[0]) {
        let i = m.child_index(p[0]);
        assert(m.is_first_named(i, p[0]));
        let old_child = m.children[i];
        let child = if p.len() == 1 {
            old_child.flagged(has_branch)
        } else {
            old_child.with_path(p.skip(1), has_branch, is_tag)
        };
        old_child.lemma_with_path_keeps(p.skip(1), has_branch, is_tag);
        lemma_child_after_update(m, i, child, p[0]);
        assert(once.is_first_named(i, p[0])) by {
            assert forall|j: int| 0 <= j < i implies (#[trigger] once.children[j]).name != p[0] by {
                assert(m.children[j].name != p[0]);
            }
        }
        once.lemma_first_named(i, p[0]);
        if p.len() > 1 {
            lemma_with_path_twice(old_child, p.skip(1), has_branch, is_tag);
        }
        let twice = once.with_path(p, has_branch, is_tag);
        assert(twice.children =~= once.children);
    } else {
        let fresh = chain(m.role, p, has_branch, is_tag);
        let n = m.children.len() as int;
        lemma_child_after_push(m, fresh, p[0]);
        m.lemma_no_child(p[0]);
        assert(once.is_first_named(n, p[0])) by {
            assert forall|j: int| 0 <= j < n implies (#[trigger] once.children[j]).name != p[0] by {
                assert(m.children[j].name != p[0]);
            }
        }
        once.lemma_first_named(n, p[0]);
        lemma_chain_again(m.role, p, has_branch, is_tag);
        let twice = once.with_path(p, has_branch, is_tag);
        assert(twice.children =~= once.children);
    }
}

/// A path that was inserted is not rejected when it is inserted again.
pub proof fn lemma_inserted_is_accepted(m: NodeView, p: Seq<Seq<char>>, has_branch: bool, is_tag: bool)
    requires
        m.rejection(p, is_tag) is None,
    ensures
        m.with_path(p, has_branch, is_tag).rejection(p, is_tag) is None,
    decreases p.len(),
{
    reveal_with_fuel(NodeView::rejection, 2);
    let once = m.with_path(p, has_branch, is_tag);
    if p.len() == 0 {
    } else if m.has_child(p[0]) {
        let i = m.child_index(p[0]);
        assert(m.is_first_named(i, p[0]));
        let old_child = m.children[i];
        let child = if p.len() == 1 {
            old_child.flagged(has_branch)
        } else {
            old_child.with_path(p.skip(1), has_branch, is_tag)
        };
        old_child.lemma_with_path_keeps(p.skip(1), has_branch, is_tag);
        assert(once.children == m.children.update(i, child));
        assert(once.is_first_named(i, p[0])) by {
            assert forall|j: int| 0 <= j < i implies (#[trigger] once.children[j]).name != p[0] by {
                assert(m.children[j].name != p[0]);
            }
        }
        once.lemma_first_named(i, p[0]);
        if p.len() > 1 {
            lemma_inserted_is_accepted(old_child, p.skip(1), has_branch, is_tag);
        } else {
            assert(p.skip(1).len() == 0);
        }
    } else {
        let fresh = chain(m.role, p, has_branch, is_tag);
        let n = m.children.len() as int;
        m.lemma_no_child(p[0]);
        assert(once.is_first_named(n, p[0])) by {
            assert forall|j: int| 0 <= j < n implies (#[trigger] once.children[j]).name != p[0] by {
                assert(m.children[j].name != p[0]);
            }
        }
        once.lemma_first_named(n, p[0]);
        lemma_chain_accepts(m.role, p, has_branch, is_tag);
    }
}

proof fn lemma_chain_accepts(role: NodeType, p: Seq<Seq<char>>, has_branch: bool, is_tag: bool)
    requires
        p.len() > 0,
        chain_rejection(role, p, is_tag) is None,
    ensures
        chain(role, p, has_branch, is_tag).rejection(p.skip(1), is_tag) is None,
    decreases p.len(),
{
    let c = chain(role, p, has_branch, is_tag);
    if p.len() > 1 {
        let rest = p.skip(1);
        let inner = chain(c.role, rest, has_branch, is_tag);
        assert(c.children =~= seq![inner]);
        assert(inner.name == rest[0]);
        assert(c.is_first_named(0, rest[0]));
        c.lemma_first_named(0, rest[0]);
        lemma_chain_accepts(c.role, rest, has_branch, is_tag);
    } else {
        assert(p.skip(1).len() == 0);
    }
}

/// Recording the same branch twice leaves the aggregate as recording it once
/// does: the index holds the path once, and the tree is the same.
pub proof fn lemma_record_twice(t: TreeView, path: Seq<Seq<char>>)
    requires
        t.well_formed(),
        path.len() > 0,
        t.root.rejection(path, false) is None,
    ensures
        t.with_branch(path).root.rejection(path, false) is None,
        t.with_branch(path).with_branch(path) == t.with_branch(path),
        t.with_branch(path).index.contains(path),
        t.with_branch(path).index.no_duplicates(),
        t.with_branch(path).root.has_branch_at(path),
{
    let once = t.with_branch(path);
    lemma_inserted_is_accepted(t.root, path, true, false);
    lemma_with_path_twice(t.root, path, true, false);
    t.lemma_with_branch_well_formed(path);
    if !t.index.contains(path) {
        assert(once.index[t.index.len() as int] == path);
    }
}

/// The text trees of the nodes, one by one.
pub open spec fn shapes_of(nodes: Seq<NodeView>, show_tags: bool) -> Seq<TreeShape> {
    Seq::new(nodes.len(), |i: int| nodes[i].shown(show_tags))
}

proof fn lemma_shown_of_kept(children: Seq<NodeView>, show_tags: bool)
    ensures
        NodeView::shown_of(children, show_tags) == shapes_of(
            without_tags(children, show_tags),
            show_tags,
        ),
    decreases children.len(),
{
    if children.len() == 0 {
        assert(shapes_of(without_tags(children, show_tags), show_tags) =~= Seq::empty());
    } else {
        let front = children.drop_last();
        lemma_shown_of_kept(front, show_tags);
        if children.last().role == NodeType::Tag && !show_tags {
        } else {
            let kept = without_tags(front, show_tags);
            assert(shapes_of(kept.push(children.last()), show_tags) =~= shapes_of(
                kept,
                show_tags,
            ).push(children.last().shown(show_tags)));
        }
    }
}

proof fn lemma_same_place(nodes: Seq<NodeView>, node: NodeView, show_tags: bool)
    ensures
        place_by_label(shapes_of(nodes, show_tags), node.shown(show_tags)) == place_by_name(
            nodes,
            node,
        ),
        0 <= place_by_name(nodes, node) <= nodes.len(),
    decreases nodes.len(),
{
    let shapes = shapes_of(nodes, show_tags);
    if nodes.len() > 0 {
        assert(shapes[0].root == nodes[0].name);
        if !text_before(node.name, nodes[0].name) {
            lemma_same_place(nodes.skip(1), node, show_tags);
            assert(shapes.skip(1) =~= shapes_of(nodes.skip(1), show_tags));
        }
    }
}

proof fn lemma_by_label_of_shapes(nodes: Seq<NodeView>, show_tags: bool)
    ensures
        by_label(shapes_of(nodes, show_tags)) == shapes_of(by_name(nodes), show_tags),
    decreases nodes.len(),
{
    let shapes = shapes_of(nodes, show_tags);
    if nodes.len() == 0 {
        assert(shapes_of(by_name(nodes), show_tags) =~= Seq::empty());
    } else {
        let front = nodes.drop_last();
        lemma_by_label_of_shapes(front, show_tags);
        assert(shapes.drop_last() =~= shapes_of(front, show_tags));
        assert(shapes.last() == nodes.last().shown(show_tags));
        let sorted = by_name(front);
        lemma_same_place(sorted, nodes.last(), show_tags);
        let place = place_by_name(sorted, nodes.last());
        assert(shapes_of(sorted.insert(place, nodes.last()), show_tags) =~= shapes_of(
            sorted,
            show_tags,
        ).insert(place, nodes.last().shown(show_tags)));
    }
}

/// The leaves of the text tree of a node are the text trees of the children
/// that it shows, in the order in which it shows them.
pub proof fn lemma_shown_leaves(m: NodeView, show_tags: bool)
    ensures
        m.shown(show_tags).leaves == shapes_of(m.displayed(show_tags), show_tags),
{
    lemma_shown_of_kept(m.children, show_tags);
    lemma_by_label_of_shapes(without_tags(m.children, show_tags), show_tags);
}

} // verus!
