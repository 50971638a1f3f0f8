//! What holds of every well-formed tree, and of the references to entities.

use crate::builder::{Build, enter_entity, Entity, max_depth};
use crate::error::ErrorModel;
use crate::stream::Span;
use crate::textpos::text_pos;
use crate::tree::{EdgeModel, NodeId, Tree};
use vstd::prelude::*;

verus! {

/// The subtree of a node is a range of the arena: the descendants of a
/// node, the node among them, are exactly the nodes from the node up to the
/// start of its next subtree, which is the end of the arena for a node with
/// no next subtree. So the start of the next subtree is one behind the last
/// descendant.
pub proof fn lemma_subtree_is_range(t: Tree, i: int, j: int)
    requires
        t.wf(),
        0 <= i < t.nodes.len(),
        0 <= j < t.nodes.len(),
    ensures
        t.is_ancestor_or_self(i, j) <==> i <= j < t.subtree_end(i),
        i < t.subtree_end(i) <= t.nodes.len(),
        t.is_ancestor_or_self(i, t.subtree_end(i) - 1),
{
    assert(t.links_wf(i));
    assert(t.is_ancestor_or_self(i, i));
    let last = t.subtree_end(i) - 1;
    assert(t.is_ancestor_or_self(i, last) <==> i <= last < t.subtree_end(i));
}

/// A descendant of a node has its parent in the subtree of the node.
pub proof fn lemma_parent_in_subtree(t: Tree, a: int, j: int)
    requires
        t.wf(),
        0 <= a < j < t.subtree_end(a),
        j < t.nodes.len(),
    ensures
        a <= t.parent(j) < j,
        t.nodes[j].parent is Some,
        t.is_ancestor_or_self(a, t.parent(j)),
{
    assert(t.is_ancestor_or_self(a, j) <==> a <= j < t.subtree_end(a));
    t.lemma_ancestor_le(a, t.parent(j));
}

/// A descendant of a descendant of a node is a descendant of the node.
pub proof fn lemma_ancestors_chain(t: Tree, a: int, j: int, k: int)
    requires
        t.is_ancestor_or_self(a, j),
        t.is_ancestor_or_self(j, k),
    ensures
        t.is_ancestor_or_self(a, k),
    decreases k,
{
    t.lemma_ancestor_le(a, j);
    t.lemma_ancestor_le(j, k);
    if k != j && k != a {
        lemma_ancestors_chain(t, a, j, t.parent(k));
    }
}

/// The subtree of a descendant lies in the subtree of the node.
pub proof fn lemma_subtrees_nest(t: Tree, a: int, j: int)
    requires
        t.wf(),
        0 <= a <= j < t.subtree_end(a),
        j < t.nodes.len(),
    ensures
        t.subtree_end(j) <= t.subtree_end(a),
{
    lemma_subtree_is_range(t, a, j);
    lemma_subtree_is_range(t, j, j);
    let last = t.subtree_end(j) - 1;
    lemma_ancestors_chain(t, a, j, last);
    lemma_subtree_is_range(t, a, last);
}

/// Two children of one node have subtrees that do not meet: the one that
/// stands first ends before the other starts.
pub proof fn lemma_siblings_apart(t: Tree, i: int, j: int)
    requires
        t.wf(),
        0 < i < j < t.nodes.len(),
        t.nodes[i].parent == t.nodes[j].parent,
    ensures
        t.subtree_end(i) <= j,
{
    if j < t.subtree_end(i) {
        assert(t.links_wf(i));
        lemma_parent_in_subtree(t, i, j);
    }
}

/// The next sibling of a node is the node whose previous sibling it is,
/// and the two have the same parent.
pub proof fn lemma_siblings(t: Tree, i: int, j: int)
    requires
        t.wf(),
        0 <= i < t.nodes.len(),
        0 <= j < t.nodes.len(),
    ensures
        t.next_sibling(i) == Some(j) <==> t.nodes[j].prev_sibling == Some(NodeId(i as u32)),
        t.next_sibling(i) == Some(j) ==> t.nodes[j].parent == t.nodes[i].parent,
{
    assert(t.links_wf(i));
    assert(t.links_wf(j));
    assert(t.family_wf(j));
}

/// The first child of a node is a child of it, and has no previous sibling.
pub proof fn lemma_first_child(t: Tree, i: int)
    requires
        t.wf(),
        0 <= i < t.nodes.len(),
        t.first_child(i) is Some,
    ensures
        i + 1 < t.subtree_end(i),
        t.parent(i + 1) == i,
        t.nodes[i + 1].parent is Some,
        t.nodes[i + 1].prev_sibling is None,
{
    assert(t.links_wf(i));
    assert(t.family_wf(i));
    let last = t.nodes[i].last_child->0;
    let c = last.0 as int;
    assert(t.links_wf(c));
    lemma_subtree_is_range(t, i, c);
    lemma_subtree_is_range(t, c, c);
    lemma_parent_in_subtree(t, i, i + 1);
    assert(t.links_wf(i + 1));
    assert(t.family_wf(i + 1));
    match t.nodes[i + 1].prev_sibling {
        Some(s) => {
            let s = s.0 as int;
            assert(t.links_wf(s));
            // A previous sibling would be a child of the node before the first one.
            assert(t.nodes[s].parent == t.nodes[i + 1].parent);
        },
        None => {},
    }
}

/// Every node but the root has a parent, which stands before it and is
/// the root or an element.
pub proof fn lemma_parent_kind(t: Tree, i: int)
    requires
        t.wf(),
        0 < i < t.nodes.len(),
    ensures
        t.nodes[i].parent is Some,
        0 <= t.parent(i) < i,
        t.nodes[t.parent(i)].kind is Root || t.nodes[t.parent(i)].kind is Element,
{
    assert(t.links_wf(i));
    assert(t.family_wf(i));
    assert(t.family_wf(t.parent(i)));
}

/// A text, a comment and a processing instruction have no children, and
/// so no descendants.
pub proof fn lemma_childless_kinds(t: Tree, i: int)
    requires
        t.wf(),
        0 <= i < t.nodes.len(),
        t.nodes[i].kind is Text || t.nodes[i].kind is Comment || t.nodes[i].kind is PI,
    ensures
        t.nodes[i].last_child is None,
        t.first_child(i) is None,
        t.subtree_end(i) == i + 1,
{
    assert(t.family_wf(i));
    lemma_leaf(t, i);
}

/// A node without children has no descendants.
pub proof fn lemma_leaf(t: Tree, i: int)
    requires
        t.wf(),
        0 <= i < t.nodes.len(),
        t.first_child(i) is None,
    ensures
        t.subtree_end(i) == i + 1,
{
    lemma_subtree_is_range(t, i, i);
    if i + 1 < t.subtree_end(i) {
        lemma_parent_in_subtree(t, i, i + 1);
        assert(t.family_wf(i + 1));
    }
}

/// A child of a node that is not its last child has a next sibling: the
/// node behind its subtree, which is a child of the same node and stands
/// before the last child or is the last child.
pub proof fn lemma_next_child(t: Tree, i: int, f: int)
    requires
        t.wf(),
        0 <= i < f < t.nodes.len(),
        t.nodes[f].parent == Some(NodeId(i as u32)),
        t.nodes[i].last_child matches Some(l) && l.0 != f,
    ensures
        t.next_sibling(f) == Some(t.subtree_end(f)),
        t.subtree_end(f) <= (t.nodes[i].last_child->0).0,
        t.nodes[t.subtree_end(f)].parent == Some(NodeId(i as u32)),
{
    let last = t.nodes[i].last_child->0;
    let l = last.0 as int;
    let e = t.subtree_end(f);
    assert(t.links_wf(i));
    assert(t.links_wf(f));
    assert(t.family_wf(i));
    assert(t.is_ancestor_or_self(i, i));
    assert(t.is_ancestor_or_self(i, f));
    lemma_subtree_is_range(t, i, f);
    lemma_subtree_is_range(t, f, f);
    if l < f {
        lemma_siblings_apart(t, l, f);
    }
    lemma_siblings_apart(t, f, l);
    lemma_subtree_is_range(t, i, l);
    lemma_parent_in_subtree(t, i, e);
    let q = t.parent(e);
    assert(t.links_wf(e));
    if q != i {
        assert(t.is_ancestor_or_self(q, q));
        assert(t.is_ancestor_or_self(q, e));
        lemma_subtree_is_range(t, q, e);
        if q < f {
            lemma_parent_in_subtree(t, q, f);
        } else if q > f {
            lemma_subtrees_nest(t, f, q);
        }
    }
    assert(t.family_wf(e));
    let s = (t.nodes[e].prev_sibling->0).0 as int;
    assert(t.links_wf(s));
    if s < f {
        lemma_siblings_apart(t, s, f);
    } else if s > f {
        lemma_siblings_apart(t, f, s);
    }
}

/// `c` lists the children of the node `i` that stand at `f` or behind it,
/// each once, in the order of the document.
pub open spec fn lists_children(t: Tree, i: int, f: int, c: Seq<int>) -> bool {
    &&& forall|k: int|
        0 <= k < c.len() ==> f <= #[trigger] c[k] < t.nodes.len() && t.nodes[c[k]].parent == Some(
            NodeId(i as u32),
        )
    &&& forall|k: int, l: int| 0 <= k < l < c.len() ==> c[k] < c[l]
    &&& forall|j: int|
        f <= j < t.nodes.len() && (#[trigger] t.nodes[j]).parent == Some(NodeId(i as u32))
            ==> c.contains(j)
}

/// The siblings from a child of a node up to its last child are the
/// children of the node from that child on.
pub proof fn lemma_children_from(t: Tree, i: int, f: int)
    requires
        t.wf(),
        0 <= i < f < t.nodes.len(),
        t.nodes[f].parent == Some(NodeId(i as u32)),
        t.nodes[i].last_child is Some,
    ensures
        lists_children(
            t,
            i,
            f,
            t.children_between(Some(f), Some((t.nodes[i].last_child->0).0 as int)),
        ),
    decreases t.nodes.len() - f,
{
    let last = t.nodes[i].last_child->0;
    let l = last.0 as int;
    let c = t.children_between(Some(f), Some(l));
    assert(t.links_wf(i));
    assert(t.links_wf(f));
    assert(t.family_wf(i));
    assert(t.is_ancestor_or_self(i, i));
    if f == l {
        assert(c =~= seq![f]);
        assert forall|j: int|
            f <= j < t.nodes.len() && (#[trigger] t.nodes[j]).parent == Some(
                NodeId(i as u32),
            ) implies c.contains(j) by {
            if j != f {
                lemma_siblings_apart(t, f, j);
                assert(t.is_ancestor_or_self(i, j));
                lemma_subtree_is_range(t, i, j);
            }
            assert(c[0] == f);
        }
    } else {
        lemma_next_child(t, i, f);
        let e = t.subtree_end(f);
        lemma_subtree_is_range(t, f, f);
        let rest = t.children_between(Some(e), Some(l));
        lemma_children_from(t, i, e);
        assert(c =~= seq![f] + rest);
        assert forall|k: int| 0 <= k < c.len() implies f <= #[trigger] c[k] < t.nodes.len()
            && t.nodes[c[k]].parent == Some(NodeId(i as u32)) by {
            if k > 0 {
                assert(c[k] == rest[k - 1]);
            }
        }
        assert forall|k: int, l: int| 0 <= k < l < c.len() implies c[k] < c[l] by {
            assert(c[l] == rest[l - 1]);
            if k > 0 {
                assert(c[k] == rest[k - 1]);
            }
        }
        assert forall|j: int|
            f <= j < t.nodes.len() && (#[trigger] t.nodes[j]).parent == Some(
                NodeId(i as u32),
            ) implies c.contains(j) by {
            if j == f {
                assert(c[0] == f);
            } else {
                lemma_siblings_apart(t, f, j);
                assert(rest.contains(j));
                let k = choose|k: int| 0 <= k < rest.len() && rest[k] == j;
                assert(c[k + 1] == j);
            }
        }
    }
}

/// The siblings from a child of a node up to a child of the same node
/// that does not stand before it end with that child; and where the two
/// are not the same child, the child at the end has a previous sibling,
/// which does not stand before the first, and without the child at the
/// end the siblings are those up to that sibling.
pub proof fn lemma_children_back(t: Tree, f: int, l: int)
    requires
        t.wf(),
        0 < f <= l < t.nodes.len(),
        t.nodes[f].parent == t.nodes[l].parent,
    ensures
        t.children_between(Some(f), Some(l)).len() >= 1,
        t.children_between(Some(f), Some(l)).last() == l,
        f != l ==> t.nodes[l].prev_sibling is Some && f <= (t.nodes[l].prev_sibling->0).0 < l
            && t.nodes[(t.nodes[l].prev_sibling->0).0 as int].parent == t.nodes[l].parent
            && t.next_sibling(f) is Some && f < t.next_sibling(f)->0 <= l && t.nodes[t.next_sibling(
            f,
        )->0].parent == t.nodes[l].parent && t.children_between(
            Some(f),
            Some((t.nodes[l].prev_sibling->0).0 as int),
        ) == t.children_between(Some(f), Some(l)).drop_last(),
    decreases l - f,
{
    let c = t.children_between(Some(f), Some(l));
    if f == l {
        assert(c =~= seq![f]);
    } else {
        assert(t.links_wf(f));
        assert(t.links_wf(l));
        assert(t.family_wf(f));
        assert(t.family_wf(l));
        let p = t.parent(f);
        assert(t.family_wf(p));
        let last = t.nodes[p].last_child->0;
        assert(t.links_wf(p));
        // The first of the two is not the last child of the parent.
        if last.0 == f {
            lemma_subtree_is_range(t, p, l);
            assert(t.is_ancestor_or_self(p, p));
            assert(t.is_ancestor_or_self(p, l));
            lemma_subtree_is_range(t, f, l);
            lemma_parent_in_subtree(t, f, l);
        }
        lemma_next_child(t, p, f);
        let e = t.subtree_end(f);
        lemma_siblings_apart(t, f, l);
        lemma_subtree_is_range(t, f, f);
        let rest = t.children_between(Some(e), Some(l));
        lemma_children_back(t, e, l);
        assert(c =~= seq![f] + rest);
        assert(c.last() == rest.last());
        let prev = t.nodes[l].prev_sibling->0;
        let s = prev.0 as int;
        if e == l {
            lemma_siblings(t, f, l);
            assert(rest =~= seq![l]);
            assert(t.children_between(Some(f), Some(f)) =~= seq![f]);
            assert(c.drop_last() =~= seq![f]);
        } else {
            let shorter = t.children_between(Some(e), Some(s));
            assert(shorter == rest.drop_last());
            assert(t.children_between(Some(f), Some(s)) =~= seq![f] + shorter);
            assert(c.drop_last() =~= seq![f] + rest.drop_last());
        }
    }
}

/// The children of a node are the nodes whose parent it is, each once, in
/// the order of the document.
pub proof fn lemma_children(t: Tree, i: int)
    requires
        t.wf(),
        0 <= i < t.nodes.len(),
    ensures
        lists_children(t, i, 0, t.children(i)),
{
    let c = t.children(i);
    assert(t.links_wf(i));
    match t.nodes[i].last_child {
        Some(_) => {
            lemma_first_child(t, i);
            lemma_children_from(t, i, i + 1);
            assert(t.links_wf(i + 1));
            assert forall|j: int|
                0 <= j < t.nodes.len() && (#[trigger] t.nodes[j]).parent == Some(
                    NodeId(i as u32),
                ) implies c.contains(j) by {
                assert(t.links_wf(j));
            }
        },
        None => {
            assert forall|j: int|
                0 <= j < t.nodes.len() && (#[trigger] t.nodes[j]).parent == Some(
                    NodeId(i as u32),
                ) implies c.contains(j) by {
                assert(t.links_wf(j));
                assert(t.family_wf(j));
            }
        },
    }
}

/// A step of a traversal at a node of the subtree that is traversed leads
/// to a node of that subtree, and is one step further than the step
/// before it; the traversal ends behind the step that leaves its root.
pub proof fn lemma_traverse_step(t: Tree, root: int, e: EdgeModel)
    requires
        t.wf(),
        0 <= root <= e.node() < t.subtree_end(root),
        e.node() < t.nodes.len(),
    ensures
        match t.next_edge(root, Some(e)) {
            Some(f) => root <= f.node() < t.subtree_end(root) && f.node() < t.nodes.len()
                && t.edge_rank(root, f) == t.edge_rank(root, e) + 1,
            None => e == EdgeModel::Close(root),
        },
{
    let i = e.node();
    assert(t.links_wf(i));
    assert(t.family_wf(i));
    lemma_subtrees_nest(t, root, i);
    lemma_subtree_is_range(t, i, i);
    match e {
        EdgeModel::Open(_) => {
            if t.first_child(i) is Some {
                lemma_first_child(t, i);
                assert(t.links_wf(i + 1));
            } else {
                lemma_leaf(t, i);
            }
        },
        EdgeModel::Close(_) => {
            if i != root {
                lemma_parent_in_subtree(t, root, i);
                let p = t.parent(i);
                match t.next_sibling(i) {
                    Some(s) => {
                        lemma_siblings(t, i, s);
                        assert(t.links_wf(s));
                        assert(t.is_ancestor_or_self(root, s));
                        lemma_subtree_is_range(t, root, s);
                    },
                    None => {
                        assert(t.links_wf(p));
                        assert(t.family_wf(p));
                        let last = t.nodes[p].last_child->0;
                        if last.0 != i {
                            lemma_next_child(t, p, i);
                        }
                    },
                }
            }
        },
    }
}

/// A node has more ancestors than any of its ancestors has.
pub proof fn lemma_depth_below(t: Tree, a: int, j: int)
    requires
        t.is_ancestor_or_self(a, j),
        0 <= a,
        a != j,
    ensures
        t.depth(a) < t.depth(j),
    decreases j,
{
    let p = t.parent(j);
    if p != a {
        t.lemma_ancestor_le(a, p);
        lemma_depth_below(t, a, p);
    }
}

/// From a node to a node behind it the number of ancestors grows by the
/// distance of the two at most.
pub proof fn lemma_depth_bound(t: Tree, i: int, j: int)
    requires
        t.wf(),
        0 <= i <= j < t.nodes.len(),
    ensures
        t.depth(j) - t.depth(i) <= j - i,
    decreases j,
{
    if i < j {
        assert(t.links_wf(j));
        let q = t.parent(j);
        if q >= i {
            lemma_depth_bound(t, i, q);
        } else {
            assert(t.is_ancestor_or_self(q, q));
            assert(t.is_ancestor_or_self(q, j));
            lemma_subtree_is_range(t, q, j);
            lemma_subtree_is_range(t, q, i);
            lemma_depth_below(t, q, i);
        }
    }
}

/// The steps at the nodes of a subtree are counted from the step that
/// enters its root up to the step that leaves it, and a node is entered
/// before it is left.
pub proof fn lemma_rank_bounds(t: Tree, root: int, e: EdgeModel)
    requires
        t.wf(),
        0 <= root <= e.node() < t.subtree_end(root),
        e.node() < t.nodes.len(),
    ensures
        0 <= t.edge_rank(root, e) < 2 * (t.subtree_end(root) - root),
        t.edge_rank(root, e) == 0 <==> e == EdgeModel::Open(root),
        t.edge_rank(root, EdgeModel::Open(e.node())) < t.edge_rank(
            root,
            EdgeModel::Close(e.node()),
        ),
{
    let i = e.node();
    lemma_depth_bound(t, root, i);
    lemma_subtrees_nest(t, root, i);
    lemma_subtree_is_range(t, i, i);
    lemma_subtree_is_range(t, root, i);
    if i != root {
        lemma_depth_below(t, root, i);
    }
}

/// Of two nodes of a subtree the one that stands first is entered first.
pub proof fn lemma_rank_order(t: Tree, root: int, i: int, j: int)
    requires
        t.wf(),
        0 <= root <= i < j < t.subtree_end(root),
        j < t.nodes.len(),
    ensures
        t.edge_rank(root, EdgeModel::Open(i)) < t.edge_rank(root, EdgeModel::Open(j)),
{
    lemma_depth_bound(t, i, j);
}

/// A node is left behind its descendants, and before every node behind
/// its subtree is entered.
pub proof fn lemma_rank_nested(t: Tree, root: int, i: int, j: int)
    requires
        t.wf(),
        0 <= root <= i < j < t.subtree_end(root),
        j < t.nodes.len(),
    ensures
        j < t.subtree_end(i) ==> t.edge_rank(root, EdgeModel::Close(j)) < t.edge_rank(
            root,
            EdgeModel::Close(i),
        ),
        t.subtree_end(i) <= j ==> t.edge_rank(root, EdgeModel::Close(i)) < t.edge_rank(
            root,
            EdgeModel::Open(j),
        ),
{
    lemma_subtree_is_range(t, i, j);
    if j < t.subtree_end(i) {
        lemma_subtrees_nest(t, i, j);
        lemma_depth_below(t, i, j);
    } else {
        lemma_subtree_is_range(t, i, i);
        lemma_depth_bound(t, t.subtree_end(i), j);
        lemma_depth_behind(t, i);
    }
}

/// The node behind the subtree of a node has no more ancestors than the node.
pub proof fn lemma_depth_behind(t: Tree, i: int)
    requires
        t.wf(),
        0 <= i < t.nodes.len(),
        t.subtree_end(i) < t.nodes.len(),
    ensures
        t.depth(t.subtree_end(i)) <= t.depth(i),
{
    let e = t.subtree_end(i);
    lemma_subtree_is_range(t, i, i);
    assert(t.links_wf(e));
    let q = t.parent(e);
    if q >= i {
        // The parent of the node would stand in the subtree, and the node with it.
        assert(t.is_ancestor_or_self(q, q));
        assert(t.is_ancestor_or_self(q, e));
        lemma_subtree_is_range(t, i, q);
        lemma_ancestors_chain(t, i, q, e);
        lemma_subtree_is_range(t, i, e);
    } else {
        assert(t.is_ancestor_or_self(q, q));
        assert(t.is_ancestor_or_self(q, e));
        lemma_subtree_is_range(t, q, e);
        lemma_subtree_is_range(t, q, i);
        lemma_depth_below(t, q, i);
    }
}

/// The step that a traversal takes after a number of steps is a step at a
/// node of the subtree, and that number of steps stands before it.
pub proof fn lemma_edge_at_rank(t: Tree, root: int, n: nat)
    requires
        t.wf(),
        0 <= root < t.nodes.len(),
    ensures
        t.edge_at(root, n) matches Some(e) ==> root <= e.node() < t.subtree_end(root) && e.node()
            < t.nodes.len() && t.edge_rank(root, e) == n,
    decreases n,
{
    lemma_subtree_is_range(t, root, root);
    if n > 0 {
        lemma_edge_at_rank(t, root, (n - 1) as nat);
        match t.edge_at(root, (n - 1) as nat) {
            Some(e) => {
                lemma_traverse_step(t, root, e);
            },
            None => {},
        }
    }
}

/// A traversal of a subtree takes every step at a node of the subtree: the
/// step is taken after as many steps as stand before it.
pub proof fn lemma_traverse_visits(t: Tree, root: int, e: EdgeModel)
    requires
        t.wf(),
        0 <= root <= e.node() < t.subtree_end(root),
        e.node() < t.nodes.len(),
    ensures
        0 <= t.edge_rank(root, e),
        t.edge_at(root, t.edge_rank(root, e) as nat) == Some(e),
    decreases t.edge_rank(root, e),
{
    lemma_rank_bounds(t, root, e);
    let j = e.node();
    assert(t.links_wf(j));
    assert(t.family_wf(j));
    lemma_subtree_is_range(t, root, root);
    lemma_subtree_is_range(t, j, j);
    lemma_subtrees_nest(t, root, j);
    if e != EdgeModel::Open(root) {
        // The step before this one.
        let before = match e {
            EdgeModel::Open(_) => match t.nodes[j].prev_sibling {
                Some(s) => EdgeModel::Close(s.0 as int),
                None => EdgeModel::Open(t.parent(j)),
            },
            EdgeModel::Close(_) => match t.nodes[j].last_child {
                Some(l) => EdgeModel::Close(l.0 as int),
                None => EdgeModel::Open(j),
            },
        };
        match e {
            EdgeModel::Open(_) => {
                lemma_parent_in_subtree(t, root, j);
                match t.nodes[j].prev_sibling {
                    Some(s) => {
                        let s = s.0 as int;
                        assert(t.links_wf(s));
                        lemma_siblings(t, s, j);
                        assert(t.is_ancestor_or_self(root, s));
                        lemma_subtree_is_range(t, root, s);
                    },
                    None => {},
                }
            },
            EdgeModel::Close(_) => {
                match t.nodes[j].last_child {
                    Some(l) => {
                        let l = l.0 as int;
                        assert(t.links_wf(l));
                        assert(t.is_ancestor_or_self(j, j));
                        assert(t.is_ancestor_or_self(j, l));
                        lemma_subtree_is_range(t, j, l);
                        match t.next_sibling(l) {
                            Some(x) => {
                                lemma_siblings(t, l, x);
                                assert(t.links_wf(x));
                                assert(t.is_ancestor_or_self(j, x));
                                lemma_subtree_is_range(t, j, x);
                            },
                            None => {},
                        }
                    },
                    None => {},
                }
            },
        }
        assert(t.next_edge(root, Some(before)) == Some(e));
        lemma_traverse_step(t, root, before);
        lemma_traverse_visits(t, root, before);
    }
}

/// A traversal of a subtree takes two steps for every node of the
/// subtree: its last step leaves the root, and no step follows.
pub proof fn lemma_traverse_ends(t: Tree, root: int)
    requires
        t.wf(),
        0 <= root < t.nodes.len(),
    ensures
        t.subtree_end(root) > root,
        t.edge_at(root, (2 * (t.subtree_end(root) - root) - 1) as nat) == Some(
            EdgeModel::Close(root),
        ),
        t.edge_at(root, (2 * (t.subtree_end(root) - root)) as nat) is None,
{
    lemma_subtree_is_range(t, root, root);
    lemma_traverse_visits(t, root, EdgeModel::Close(root));
}

/// References to entities nest ten deep at most. A reference inside fewer
/// than ten references is entered, unless it is the 256th inside one
/// reference of the text; a reference inside ten references is the error
/// of a loop, at the position behind the reference.
pub proof fn lemma_entity_depth_cap(b: Seq<u8>, pos: int, depth: nat, references: u8)
    ensures
        depth < max_depth() && (depth == 0 || references < u8::MAX) ==> enter_entity(
            b,
            pos,
            depth,
            references,
        ) is Ok,
        depth >= max_depth() ==> enter_entity(b, pos, depth, references) == Err::<u8, ErrorModel>(
            ErrorModel::EntityReferenceLoop(text_pos(b, pos)),
        ),
{
}

/// No entity is replaced inside ten references: the reference fails, as a
/// loop unless the text before it could not be kept.
pub proof fn lemma_expansion_capped(
    m: Build,
    entity: Entity,
    end: int,
    range: Span,
    buf: Seq<u8>,
    depth: nat,
)
    requires
        depth >= max_depth(),
    ensures
        m.expand_entity(entity, end, range, buf, depth) is Err,
        m.flush_text(buf, range) is Ok ==> m.expand_entity(entity, end, range, buf, depth) == Err::<
            Build,
            ErrorModel,
        >(ErrorModel::EntityReferenceLoop(text_pos(m.text(), end))),
{
    m.lemma_expand_entity_unfold(entity, end, range, buf, depth);
}

/// What `find_attribute` gives is the first attribute with the expanded
/// name in the range.
pub proof fn lemma_find_attribute_first(
    t: Tree,
    uri: Option<Seq<u8>>,
    local: Seq<u8>,
    k: int,
    end: int,
)
    ensures
        match t.find_attribute(uri, local, k, end) {
            Some(x) => k <= x < end && t.attribute_name(x) == (uri, local),
            None => forall|l: int| k <= l < end ==> #[trigger] t.attribute_name(l) != (uri, local),
        },
    decreases end - k,
{
    if k < end && t.attribute_name(k) != (uri, local) {
        lemma_find_attribute_first(t, uri, local, k + 1, end);
    }
}

/// Every attribute of an element is found by its expanded name: no other
/// attribute of the element has that name.
pub proof fn lemma_attribute_found(t: Tree, i: int, k: int)
    requires
        t.wf(),
        0 <= i < t.nodes.len(),
        t.attributes_of(i).start <= k < t.attributes_of(i).end,
    ensures
        t.attribute(i, t.attribute_name(k).0, t.attribute_name(k).1) == Some(k),
{
    let r = t.attributes_of(i);
    let name = t.attribute_name(k);
    lemma_find_attribute_first(t, name.0, name.1, r.start as int, r.end as int);
    assert(t.names_unique(r.start as int, r.end as int));
    let found = t.find_attribute(name.0, name.1, r.start as int, r.end as int);
    if found != Some(k) {
        let x = found->0;
        assert(t.attribute_name(x) == t.attribute_name(k));
    }
}

/// What `find_uri` gives is the first binding to the namespace in the range.
pub proof fn lemma_find_uri_first(t: Tree, uri: Seq<u8>, k: int, end: int)
    ensures
        match t.find_uri(uri, k, end) {
            Some(x) => k <= x < end && t.binding_uri(x) == uri,
            None => forall|l: int| k <= l < end ==> #[trigger] t.binding_uri(l) != uri,
        },
    decreases end - k,
{
    if k < end && t.binding_uri(k) != uri {
        lemma_find_uri_first(t, uri, k + 1, end);
    }
}

/// What `find_prefix` gives is the first binding of the prefix in the range.
pub proof fn lemma_find_prefix_first(t: Tree, name: Option<Seq<u8>>, k: int, end: int)
    ensures
        match t.find_prefix(name, k, end) {
            Some(x) => k <= x < end && t.binding_name(x) == name && forall|l: int|
                k <= l < x ==> #[trigger] t.binding_name(l) != name,
            None => forall|l: int| k <= l < end ==> #[trigger] t.binding_name(l) != name,
        },
    decreases end - k,
{
    if k < end && t.binding_name(k) != name {
        lemma_find_prefix_first(t, name, k + 1, end);
    }
}

/// A prefix that is looked up for a namespace leads back to the namespace:
/// for a namespace that is bound among the bindings that a node sees, the
/// namespace of the prefix that `lookup_prefix` gives is that namespace.
pub proof fn lemma_lookup_round_trip(t: Tree, i: int, uri: Seq<u8>)
    requires
        t.wf(),
        0 <= i < t.nodes.len(),
        t.find_uri(uri, t.visible(i).start as int, t.visible(i).end as int) is Some,
    ensures
        t.lookup_namespace_uri(i, t.lookup_prefix(i, uri)) == Some(uri),
{
    let start = t.visible(i).start as int;
    let end = t.visible(i).end as int;
    lemma_find_uri_first(t, uri, start, end);
    let k0 = t.find_uri(uri, start, end)->0;
    assert(t.bindings_wf_in(t.visible(i)));
    assert(t.binding_uri(k0) != crate::tree::xml_uri());
    let name = t.binding_name(k0);
    assert(t.lookup_prefix(i, uri) == name);
    lemma_find_prefix_first(t, name, start, end);
    let k1 = t.find_prefix(name, start, end)->0;
    if k1 < k0 {
        assert(t.binding_name(k1) != t.binding_name(k0));
    }
}

} // verus!
