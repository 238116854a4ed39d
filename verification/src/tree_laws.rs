//! What holds of lookups in a tree after a path is inserted or a branch is
//! removed.
use vstd::prelude::*;
use crate::tree_model::{chain, NodeView};

verus! {

/// Replacing a child by one of the same name changes no lookup by name but
/// the one of that name, which now gives the new child.
pub proof fn lemma_child_after_update(m: NodeView, i: int, c: NodeView, name: Seq<char>)
    requires
        0 <= i < m.children.len(),
        c.name == m.children[i].name,
    ensures
        ({
            let after = NodeView { children: m.children.update(i, c), ..m };
            after.child(name) == if m.is_first_named(i, name) {
                Some(c)
            } else {
                m.child(name)
            }
        }),
{
    let after = NodeView { children: m.children.update(i, c), ..m };
    assert forall|k: int| after.is_first_named(k, name) <==> m.is_first_named(k, name) by {
        if after.is_first_named(k, name) {
            assert forall|j: int| 0 <= j < k implies (#[trigger] m.children[j]).name != name by {
                assert(after.children[j].name != name);
            }
        }
        if m.is_first_named(k, name) {
            assert forall|j: int| 0 <= j < k implies (#[trigger] after.children[j]).name != name by {
                assert(m.children[j].name != name);
            }
        }
    }
    if m.has_child(name) {
        let k = m.child_index(name);
        assert(m.is_first_named(k, name));
        assert(after.is_first_named(k, name));
        after.lemma_first_named(k, name);
        m.lemma_first_named(k, name);
        if m.is_first_named(i, name) {
            m.lemma_first_named(i, name);
        }
    } else {
        assert forall|k: int| !after.is_first_named(k, name) by {
            assert(!m.is_first_named(k, name));
        }
    }
}

/// Adding a child of a name that no child has changes no lookup by name but
/// the one of that name, which now gives the new child.
pub proof fn lemma_child_after_push(m: NodeView, c: NodeView, name: Seq<char>)
    requires
        !m.has_child(c.name),
    ensures
        ({
            let after = NodeView { children: m.children.push(c), ..m };
            after.child(name) == if name == c.name {
                Some(c)
            } else {
                m.child(name)
            }
        }),
{
    let after = NodeView { children: m.children.push(c), ..m };
    m.lemma_no_child(c.name);
    if name == c.name {
        let n = m.children.len() as int;
        assert forall|j: int| 0 <= j < n implies (#[trigger] after.children[j]).name != name by {
            assert(m.children[j].name != name);
        }
        assert(after.is_first_named(n, name));
        after.lemma_first_named(n, name);
    } else {
        assert forall|k: int| after.is_first_named(k, name) <==> m.is_first_named(k, name) by {
            if after.is_first_named(k, name) {
                assert forall|j: int| 0 <= j < k implies (#[trigger] m.children[j]).name != name by {
                    assert(after.children[j].name != name);
                }
            }
            if m.is_first_named(k, name) {
                assert forall|j: int| 0 <= j < k implies (#[trigger] after.children[j]).name
                    != name by {
                    assert(m.children[j].name != name);
                }
            }
        }
        if m.has_child(name) {
            let k = m.child_index(name);
            assert(m.is_first_named(k, name));
            assert(after.is_first_named(k, name));
            after.lemma_first_named(k, name);
            m.lemma_first_named(k, name);
        } else {
            assert forall|k: int| !after.is_first_named(k, name) by {
                assert(!m.is_first_named(k, name));
            }
        }
    }
}

/// Removing a child, where no two children share a name, changes no lookup
/// by name but the one of that name, which now gives nothing.
pub proof fn lemma_child_after_remove(m: NodeView, i: int, name: Seq<char>)
    requires
        0 <= i < m.children.len(),
        forall|a: int, b: int|
            0 <= a < b < m.children.len() ==> (#[trigger] m.children[a]).name != (
            #[trigger] m.children[b]).name,
    ensures
        ({
            let after = NodeView { children: m.children.remove(i), ..m };
            after.child(name) == if name == m.children[i].name {
                None
            } else {
                m.child(name)
            }
        }),
{
    let after = NodeView { children: m.children.remove(i), ..m };
    assert(after.children.len() == m.children.len() - 1);
    assert forall|k: int| 0 <= k < after.children.len() implies #[trigger] after.children[k]
        == m.children[if k < i {
        k
    } else {
        k + 1
    }] by {}
    if name == m.children[i].name {
        assert forall|k: int| !after.is_first_named(k, name) by {
            if 0 <= k < after.children.len() {
                let src = if k < i {
                    k
                } else {
                    k + 1
                };
                assert(after.children[k] == m.children[src]);
                if src < i {
                    assert(m.children[src].name != m.children[i].name);
                } else {
                    assert(m.children[i].name != m.children[src].name);
                }
            }
        }
    } else if m.has_child(name) {
        let k = m.child_index(name);
        assert(m.is_first_named(k, name));
        m.lemma_first_named(k, name);
        let dst = if k < i {
            k
        } else {
            k - 1
        };
        assert(after.children[dst] == m.children[k]);
        assert forall|j: int| 0 <= j < dst implies (#[trigger] after.children[j]).name != name by {
            let src = if j < i {
                j
            } else {
                j + 1
            };
            assert(after.children[j] == m.children[src]);
            assert(m.children[src].name != name);
        }
        assert(after.is_first_named(dst, name));
        after.lemma_first_named(dst, name);
    } else {
        m.lemma_no_child(name);
        assert forall|k: int| !after.is_first_named(k, name) by {
            if 0 <= k < after.children.len() {
                let src = if k < i {
                    k
                } else {
                    k + 1
                };
                assert(after.children[k] == m.children[src]);
                assert(m.children[src].name != name);
            }
        }
    }
}

/// Two non-empty paths with the same first segment are equal exactly if
/// they are equal after it.
pub proof fn lemma_same_rest(a: Seq<Seq<char>>, b: Seq<Seq<char>>)
    requires
        a.len() > 0,
        b.len() > 0,
        a[0] == b[0],
    ensures
        (a.skip(1) == b.skip(1)) <==> (a == b),
{
    if a.skip(1) == b.skip(1) {
        assert(a.len() == b.len()) by {
            assert(a.skip(1).len() == a.len() - 1);
            assert(b.skip(1).len() == b.len() - 1);
        }
        assert forall|k: int| 0 <= k < a.len() implies a[k] == b[k] by {
            if k > 0 {
                assert(a[k] == a.skip(1)[k - 1]);
                assert(b[k] == b.skip(1)[k - 1]);
            }
        }
        assert(a =~= b);
    }
}

/// In a chain of new nodes, only the last node can have a branch.
pub proof fn lemma_chain_flags(
    role: crate::node_type::NodeType,
    p: Seq<Seq<char>>,
    has_branch: bool,
    is_tag: bool,
    q: Seq<Seq<char>>,
)
    requires
        p.len() > 0,
    ensures
        chain(role, p, has_branch, is_tag).has_branch_at(q) == (q == p.skip(1) && has_branch),
        chain(role, p, has_branch, is_tag).name == p[0],
    decreases p.len(),
{
    let c = chain(role, p, has_branch, is_tag);
    if p.len() == 1 {
        assert(p.skip(1) =~= Seq::empty());
        if q.len() == 0 {
            assert(q =~= p.skip(1));
        } else {
            assert forall|k: int| !c.is_first_named(k, q[0]) by {}
        }
    } else {
        let own = c.role;
        let inner = chain(own, p.skip(1), has_branch, is_tag);
        lemma_chain_flags(own, p.skip(1), has_branch, is_tag, q.skip(1));
        assert(c.children =~= seq![inner]);
        if q.len() == 0 {
        } else if q[0] == p[1] {
            assert(p.skip(1)[0] == p[1]);
            assert(c.children[0] == inner);
            assert(c.is_first_named(0, q[0]));
            c.lemma_first_named(0, q[0]);
            lemma_same_rest(q, p.skip(1));
        } else {
            assert(p.skip(1)[0] == p[1]);
            assert forall|k: int| !c.is_first_named(k, q[0]) by {
                if k == 0 {
                    assert(c.children[0].name == p[1]);
                }
            }
        }
    }
}

/// After a path is inserted, a branch exists at that path as the flag says,
/// and at every other path as before.
pub proof fn lemma_with_path_flags(
    m: NodeView,
    p: Seq<Seq<char>>,
    has_branch: bool,
    is_tag: bool,
    q: Seq<Seq<char>>,
)
    requires
        p.len() > 0,
    ensures
        m.with_path(p, has_branch, is_tag).has_branch_at(q) == if q == p {
            has_branch
        } else {
            m.has_branch_at(q)
        },
    decreases p.len(),
{
    reveal_with_fuel(NodeView::find, 3);
    let after = m.with_path(p, has_branch, is_tag);
    if q.len() == 0 {
    } else if m.has_child(p[0]) {
        let i = m.child_index(p[0]);
        assert(m.is_first_named(i, p[0]));
        m.lemma_first_named(i, p[0]);
        let old_child = m.children[i];
        let child = if p.len() == 1 {
            old_child.flagged(has_branch)
        } else {
            old_child.with_path(p.skip(1), has_branch, is_tag)
        };
        old_child.lemma_with_path_keeps(p.skip(1), has_branch, is_tag);
        lemma_child_after_update(m, i, child, q[0]);
        assert(after == NodeView { children: m.children.update(i, child), ..m });
        if q[0] == p[0] {
            if p.len() == 1 {
                if q.len() == 1 {
                    assert(q =~= p);
                    assert(q.skip(1).len() == 0);
                } else {
                    assert(q.skip(1).len() > 0);
                    assert(child.child(q.skip(1)[0]) == old_child.child(q.skip(1)[0])) by {
                        assert forall|k: int|
                            child.is_first_named(k, q.skip(1)[0]) <==> old_child.is_first_named(
                                k,
                                q.skip(1)[0],
                            ) by {}
                    }
                }
            } else {
                lemma_with_path_flags(old_child, p.skip(1), has_branch, is_tag, q.skip(1));
                lemma_same_rest(q, p);
            }
        } else {
            assert(m.is_first_named(i, q[0]) ==> false);
        }
    } else {
        let fresh = chain(m.role, p, has_branch, is_tag);
        lemma_chain_flags(m.role, p, has_branch, is_tag, q.skip(1));
        lemma_child_after_push(m, fresh, q[0]);
        assert(after == NodeView { children: m.children.push(fresh), ..m });
        if q[0] == p[0] {
            lemma_same_rest(q, p);
        }
    }
}

/// After a branch is removed from a well-formed tree, no branch exists at its
/// path, and at every other path one exists as before.
pub proof fn lemma_without_branch_flags(m: NodeView, p: Seq<Seq<char>>, q: Seq<Seq<char>>)
    requires
        m.well_formed(),
    ensures
        m.without_branch(p).has_branch_at(q) == if q == p && p.len() > 0 {
            false
        } else {
            m.has_branch_at(q)
        },
    decreases p.len(),
{
    reveal_with_fuel(NodeView::find, 3);
    let after = m.without_branch(p);
    if p.len() == 0 {
    } else if !m.has_child(p[0]) {
        if q == p {
        }
    } else if q.len() == 0 {
    } else {
        let i = m.child_index(p[0]);
        assert(m.is_first_named(i, p[0]));
        m.lemma_first_named(i, p[0]);
        let old_child = m.children[i];
        assert(old_child.well_formed());
        if p.len() > 1 {
            let child = old_child.without_branch(p.skip(1));
            lemma_without_branch_keeps(old_child, p.skip(1));
            lemma_child_after_update(m, i, child, q[0]);
            if q[0] == p[0] {
                lemma_without_branch_flags(old_child, p.skip(1), q.skip(1));
                lemma_same_rest(q, p);
            } else {
                assert(m.is_first_named(i, q[0]) ==> false);
            }
        } else if old_child.children.len() == 0 {
            lemma_child_after_remove(m, i, q[0]);
            if q[0] == p[0] {
                if q.len() == 1 {
                    assert(q =~= p);
                } else {
                    assert forall|k: int| !old_child.is_first_named(k, q.skip(1)[0]) by {}
                }
            }
        } else {
            let child = old_child.flagged(false);
            lemma_child_after_update(m, i, child, q[0]);
            if q[0] == p[0] {
                if q.len() == 1 {
                    assert(q =~= p);
                } else {
                    assert(child.child(q.skip(1)[0]) == old_child.child(q.skip(1)[0])) by {
                        assert forall|k: int|
                            child.is_first_named(k, q.skip(1)[0]) <==> old_child.is_first_named(
                                k,
                                q.skip(1)[0],
                            ) by {}
                    }
                }
            } else {
                assert(m.is_first_named(i, q[0]) ==> false);
            }
        }
    }
}

/// Removing a branch changes neither the name nor the role nor the flag of
/// the node under which it is removed.
pub proof fn lemma_without_branch_keeps(m: NodeView, p: Seq<Seq<char>>)
    ensures
        m.without_branch(p).name == m.name,
        m.without_branch(p).role == m.role,
        m.without_branch(p).has_branch == m.has_branch,
{
}

/// Removing a branch keeps a tree well formed.
pub proof fn lemma_without_branch_well_formed(m: NodeView, p: Seq<Seq<char>>)
    requires
        m.well_formed(),
    ensures
        m.without_branch(p).well_formed(),
    decreases p.len(),
{
    let after = m.without_branch(p);
    if p.len() == 0 || !m.has_child(p[0]) {
    } else {
        let i = m.child_index(p[0]);
        assert(m.is_first_named(i, p[0]));
        let old_child = m.children[i];
        assert(old_child.well_formed());
        assert(NodeView::admits(m.role, old_child));
        if p.len() == 1 && old_child.children.len() == 0 {
            assert(after.children == m.children.remove(i));
            assert forall|k: int| 0 <= k < after.children.len() implies NodeView::admits(
                after.role,
                #[trigger] after.children[k],
            ) && after.children[k].well_formed() by {
                let src = if k < i {
                    k
                } else {
                    k + 1
                };
                assert(after.children[k] == m.children[src]);
                assert(NodeView::admits(m.role, m.children[src]));
                assert(m.children[src].well_formed());
            }
            assert forall|a: int, b: int| 0 <= a < b < after.children.len() implies (
            #[trigger] after.children[a]).name != (#[trigger] after.children[b]).name by {
                let sa = if a < i {
                    a
                } else {
                    a + 1
                };
                let sb = if b < i {
                    b
                } else {
                    b + 1
                };
                assert(after.children[a] == m.children[sa]);
                assert(after.children[b] == m.children[sb]);
                assert(m.children[sa].name != m.children[sb].name);
            }
        } else {
            let child = if p.len() > 1 {
                old_child.without_branch(p.skip(1))
            } else {
                old_child.flagged(false)
            };
            if p.len() > 1 {
                lemma_without_branch_well_formed(old_child, p.skip(1));
                lemma_without_branch_keeps(old_child, p.skip(1));
            } else {
                assert(child.children == old_child.children);
                assert(child.well_formed()) by {
                    assert forall|k: int| 0 <= k < child.children.len() implies NodeView::admits(
                        child.role,
                        #[trigger] child.children[k],
                    ) && child.children[k].well_formed() by {
                        assert(NodeView::admits(old_child.role, old_child.children[k]));
                        assert(old_child.children[k].well_formed());
                    }
                    assert forall|a: int, b: int| 0 <= a < b < child.children.len() implies (
                    #[trigger] child.children[a]).name != (#[trigger] child.children[b]).name by {
                        assert(old_child.children[a].name != old_child.children[b].name);
                    }
                }
            }
            assert(after.children == m.children.update(i, child));
            assert forall|k: int| 0 <= k < after.children.len() implies (
            #[trigger] after.children[k]).name == m.children[k].name && NodeView::admits(
                after.role,
                after.children[k],
            ) && after.children[k].well_formed() by {
                if k != i {
                    assert(after.children[k] == m.children[k]);
                    assert(NodeView::admits(m.role, m.children[k]));
                    assert(m.children[k].well_formed());
                }
            }
            assert forall|a: int, b: int| 0 <= a < b < after.children.len() implies (
            #[trigger] after.children[a]).name != (#[trigger] after.children[b]).name by {
                assert(m.children[a].name != m.children[b].name);
            }
        }
    }
}

} // verus!
