//! Text trees, drawn by the `termtree` crate.
use vstd::prelude::*;
use crate::text::{text_before, text_less, views};

verus! {

/// What a text tree holds: the label of its root and its leaves in order.
pub struct TreeShape {
    pub root: Seq<char>,
    pub leaves: Seq<TreeShape>,
}

/// Where `shape` goes among shapes in the order of their labels: before
/// the first whose label comes after its own.
pub open spec fn place_by_label(shapes: Seq<TreeShape>, shape: TreeShape) -> int
    decreases shapes.len(),
{
    if shapes.len() == 0 {
        0
    } else if text_before(shape.root, shapes[0].root) {
        0
    } else {
        1 + place_by_label(shapes.skip(1), shape)
    }
}

/// The shapes in the order of their labels; shapes of the same label stay
/// in the order in which they stand.
pub open spec fn by_label(shapes: Seq<TreeShape>) -> Seq<TreeShape>
    decreases shapes.len(),
{
    if shapes.len() == 0 {
        Seq::empty()
    } else {
        let before = by_label(shapes.drop_last());
        before.insert(place_by_label(before, shapes.last()), shapes.last())
    }
}

/// The place that `place_by_label` gives lies within the shapes or at
/// their end.
pub proof fn lemma_place_by_label(shapes: Seq<TreeShape>, shape: TreeShape)
    ensures
        0 <= place_by_label(shapes, shape) <= shapes.len(),
    decreases shapes.len(),
{
    if shapes.len() > 0 && !text_before(shape.root, shapes[0].root) {
        lemma_place_by_label(shapes.skip(1), shape);
    }
}

/// The order of texts is transitive.
pub proof fn lemma_text_before_transitive(a: Seq<char>, b: Seq<char>, c: Seq<char>)
    requires
        text_before(a, b),
        text_before(b, c),
    ensures
        text_before(a, c),
    decreases a.len(),
{
    if a.len() > 0 && (a[0] as u32) == (b[0] as u32) && (b[0] as u32) == (c[0] as u32) {
        lemma_text_before_transitive(a.skip(1), b.skip(1), c.skip(1));
    }
}

/// Whether no shape stands before one whose label comes before its own.
pub open spec fn ordered_by_label(shapes: Seq<TreeShape>) -> bool {
    forall|i: int, j: int|
        0 <= i < j < shapes.len() ==> !text_before(
            (#[trigger] shapes[j]).root,
            (#[trigger] shapes[i]).root,
        )
}

proof fn lemma_place_splits(shapes: Seq<TreeShape>, shape: TreeShape)
    ensures
        forall|k: int|
            0 <= k < place_by_label(shapes, shape) ==> !text_before(
                shape.root,
                (#[trigger] shapes[k]).root,
            ),
        place_by_label(shapes, shape) < shapes.len() ==> text_before(
            shape.root,
            shapes[place_by_label(shapes, shape)].root,
        ),
    decreases shapes.len(),
{
    lemma_place_by_label(shapes, shape);
    if shapes.len() > 0 && !text_before(shape.root, shapes[0].root) {
        let rest = shapes.skip(1);
        lemma_place_splits(rest, shape);
        lemma_place_by_label(rest, shape);
        let p = place_by_label(shapes, shape);
        assert forall|k: int| 0 <= k < p implies !text_before(
            shape.root,
            (#[trigger] shapes[k]).root,
        ) by {
            if k > 0 {
                assert(rest[k - 1] == shapes[k]);
            }
        }
        if p < shapes.len() {
            assert(rest[p - 1] == shapes[p]);
        }
    }
}

/// The shapes that `by_label` gives stand in the order of their labels, and
/// are the shapes given, each as often as it was given.
pub proof fn lemma_by_label(shapes: Seq<TreeShape>)
    ensures
        ordered_by_label(by_label(shapes)),
        by_label(shapes).to_multiset() == shapes.to_multiset(),
    decreases shapes.len(),
{
    broadcast use vstd::seq_lib::group_to_multiset_ensures;

    if shapes.len() == 0 {
    } else {
        let front = shapes.drop_last();
        let last = shapes.last();
        lemma_by_label(front);
        let before = by_label(front);
        let p = place_by_label(before, last);
        lemma_place_by_label(before, last);
        lemma_place_splits(before, last);
        let after = before.insert(p, last);
        assert forall|i: int, j: int| 0 <= i < j < after.len() implies !text_before(
            (#[trigger] after[j]).root,
            (#[trigger] after[i]).root,
        ) by {
            if j < p {
                assert(after[i] == before[i] && after[j] == before[j]);
            } else if j == p {
                assert(after[i] == before[i]);
            } else if i == p {
                assert(after[j] == before[j - 1]);
                if text_before(after[j].root, last.root) {
                    lemma_text_before_transitive(before[j - 1].root, last.root, before[p].root);
                    if j - 1 > p {
                        assert(!text_before(before[j - 1].root, before[p].root));
                    }
                    lemma_text_before_irreflexive(before[p].root);
                }
            } else if i < p {
                assert(after[i] == before[i] && after[j] == before[j - 1]);
                if i == j - 1 {
                    lemma_text_before_irreflexive(before[i].root);
                }
            } else {
                assert(after[i] == before[i - 1] && after[j] == before[j - 1]);
            }
        }
        assert(after.remove(p) =~= before);
        assert(after[p] == last);
        assert(after.to_multiset().remove(last) =~= before.to_multiset());
        assert(after.to_multiset().count(last) > 0);
        assert(after.to_multiset() =~= before.to_multiset().insert(last));
        assert(front.push(last) =~= shapes);
    }
}

/// No text comes before itself.
pub proof fn lemma_text_before_irreflexive(a: Seq<char>)
    ensures
        !text_before(a, a),
    decreases a.len(),
{
    if a.len() > 0 {
        lemma_text_before_irreflexive(a.skip(1));
    }
}

/// The tree type of the `termtree` crate.
#[verifier::external_type_specification]
#[verifier::external_body]
#[verifier::reject_recursive_types(D)]
pub struct ExTree<D: std::fmt::Display>(termtree::Tree<D>);

/// What a `termtree::Tree` of strings holds: the label of its root and the
/// shapes of its leaves.
pub uninterp spec fn tree_shape(tree: termtree::Tree<String>) -> TreeShape;

/// Whether a `termtree::Tree` is as `termtree::Tree::new` and
/// `termtree::Tree::push` make it: no node of it has glyphs of its own or
/// is set to be drawn over several lines.
pub uninterp spec fn is_plain(tree: termtree::Tree<String>) -> bool;

/// The text that `termtree` draws for a plain tree of the given shape.
pub uninterp spec fn drawing(shape: TreeShape) -> Seq<char>;

/// `termtree::Tree::new`: a plain tree of the given root label without
/// leaves.
#[verifier::external_body]
pub(crate) fn tree_new(root: &str) -> (tree: termtree::Tree<String>)
    ensures
        tree_shape(tree) == (TreeShape { root: root@, leaves: Seq::empty() }),
        is_plain(tree),
{
    termtree::Tree::new(root.to_string())
}

/// `termtree::Tree::push`: `leaf` becomes the last leaf of `tree`, and a
/// plain tree with a plain leaf more is plain.
#[verifier::external_body]
pub(crate) fn tree_push(tree: &mut termtree::Tree<String>, leaf: termtree::Tree<String>)
    ensures
        tree_shape(*final(tree)) == (TreeShape {
            leaves: tree_shape(*old(tree)).leaves.push(tree_shape(leaf)),
            ..tree_shape(*old(tree))
        }),
        is_plain(*old(tree)) && is_plain(leaf) ==> is_plain(*final(tree)),
{
    tree.push(leaf);
}

/// `Display` of `termtree::Tree`, through `to_string`: the drawing of a
/// plain tree is the drawing of its shape.
#[verifier::external_body]
pub(crate) fn tree_draw(tree: &termtree::Tree<String>) -> (text: String)
    requires
        is_plain(*tree),
    ensures
        text@ == drawing(tree_shape(*tree)),
{
    tree.to_string()
}

/// The shapes of the trees, one by one.
pub open spec fn tree_shapes(trees: Seq<termtree::Tree<String>>) -> Seq<TreeShape> {
    Seq::new(trees.len(), |i: int| tree_shape(trees[i]))
}

/// Whether every one of the trees is plain.
pub open spec fn all_plain(trees: Seq<termtree::Tree<String>>) -> bool {
    forall|i: int| 0 <= i < trees.len() ==> is_plain(#[trigger] trees[i])
}

/// The labels of the shapes, one by one.
pub open spec fn labels_of(shapes: Seq<TreeShape>) -> Seq<Seq<char>> {
    Seq::new(shapes.len(), |i: int| shapes[i].root)
}

/// Puts `tree`, whose root is labelled `label`, among the trees in the
/// order of their labels; `labels` holds the labels of the trees.
pub(crate) fn insert_by_label(
    trees: &mut Vec<termtree::Tree<String>>,
    labels: &mut Vec<String>,
    tree: termtree::Tree<String>,
    label: String,
)
    requires
        views(old(labels)@) == labels_of(tree_shapes(old(trees)@)),
        tree_shape(tree).root == label@,
    ensures
        all_plain(old(trees)@) && is_plain(tree) ==> all_plain(final(trees)@),
        tree_shapes(final(trees)@) == tree_shapes(old(trees)@).insert(
            place_by_label(tree_shapes(old(trees)@), tree_shape(tree)),
            tree_shape(tree),
        ),
        views(final(labels)@) == labels_of(tree_shapes(final(trees)@)),
{
    let ghost shapes = tree_shapes(trees@);
    let ghost shape = tree_shape(tree);
    let mut i: usize = 0;
    assert(trees@.len() == labels@.len()) by {
        assert(views(labels@).len() == labels_of(shapes).len());
    }
    proof {
        assert(shapes.skip(0) =~= shapes);
    }
    while i < labels.len() && !text_less(label.as_str(), labels[i].as_str())
        invariant
            i <= labels.len(),
            labels@.len() == shapes.len(),
            views(labels@) == labels_of(shapes),
            shape.root == label@,
            place_by_label(shapes, shape) == i + place_by_label(shapes.skip(i as int), shape),
        decreases labels.len() - i,
    {
        proof {
            assert(views(labels@)[i as int] == shapes[i as int].root);
            assert(shapes.skip(i as int)[0] == shapes[i as int]);
            assert(shapes.skip(i as int).skip(1) =~= shapes.skip(i + 1));
        }
        i += 1;
    }
    proof {
        if i < labels.len() {
            assert(views(labels@)[i as int] == shapes[i as int].root);
            assert(shapes.skip(i as int)[0] == shapes[i as int]);
        }
        assert(place_by_label(shapes, shape) == i);
    }
    let ghost old_labels = views(labels@);
    let ghost old_trees = trees@;
    trees.insert(i, tree);
    labels.insert(i, label);
    proof {
        assert(trees@ =~= old_trees.insert(i as int, tree));
        if all_plain(old_trees) && is_plain(tree) {
            assert forall|k: int| 0 <= k < trees@.len() implies is_plain(#[trigger] trees@[k]) by {
                if k < i {
                    assert(trees@[k] == old_trees[k]);
                } else if k > i {
                    assert(trees@[k] == old_trees[k - 1]);
                }
            }
        }
        assert(tree_shapes(trees@) =~= shapes.insert(i as int, shape));
        assert(views(labels@) =~= old_labels.insert(i as int, label@));
        assert forall|k: int| 0 <= k < views(labels@).len() implies views(labels@)[k]
            == labels_of(tree_shapes(trees@))[k] by {
            if k < i {
                assert(old_labels[k] == shapes[k].root);
            } else if k > i {
                assert(old_labels[k - 1] == shapes[k - 1].root);
            }
        }
        assert(views(labels@) =~= labels_of(tree_shapes(trees@)));
    }
}

/// The tree of the given root label and leaves.
pub(crate) fn tree_of(root: &str, leaves: Vec<termtree::Tree<String>>) -> (tree: termtree::Tree<
    String,
>)
    ensures
        tree_shape(tree) == (TreeShape { root: root@, leaves: tree_shapes(leaves@) }),
        all_plain(leaves@) ==> is_plain(tree),
{
    let mut tree = tree_new(root);
    let mut rest = leaves;
    let ghost all = tree_shapes(leaves@);
    let ghost mut done: int = 0;
    proof {
        assert(all.skip(0) =~= all);
        assert(all.take(0) =~= Seq::empty());
    }
    while rest.len() > 0
        invariant
            0 <= done <= all.len(),
            tree_shapes(rest@) == all.skip(done),
            tree_shape(tree) == (TreeShape { root: root@, leaves: all.take(done) }),
            all_plain(leaves@) ==> all_plain(rest@) && is_plain(tree),
        decreases rest.len(),
    {
        let ghost before = tree_shapes(rest@);
        proof {
            assert(before.len() == rest@.len());
            assert(all.skip(done).len() == all.len() - done);
            assert(all.skip(done)[0] == all[done]);
        }
        let ghost held = rest@;
        let leaf = rest.remove(0);
        proof {
            assert(tree_shape(leaf) == before[0]);
            assert(before[0] == all[done]);
            assert(rest@ =~= held.remove(0));
            if all_plain(leaves@) {
                assert(is_plain(held[0]));
                assert forall|k: int| 0 <= k < rest@.len() implies is_plain(#[trigger] rest@[k]) by {
                    assert(rest@[k] == held[k + 1]);
                }
            }
            assert forall|k: int| 0 <= k < rest@.len() implies tree_shapes(rest@)[k] == all.skip(
                done + 1,
            )[k] by {
                assert(rest@[k] == held[k + 1]);
                assert(before[k + 1] == tree_shape(held[k + 1]));
                assert(all.skip(done)[k + 1] == all[done + k + 1]);
            }
            assert(tree_shapes(rest@) =~= all.skip(done + 1));
            assert(all.take(done + 1) =~= all.take(done).push(all[done]));
        }
        tree_push(&mut tree, leaf);
        proof {
            done = done + 1;
        }
    }
    proof {
        assert(tree_shapes(rest@).len() == 0);
        assert(all.take(done) =~= all);
    }
    tree
}

} // verus!
