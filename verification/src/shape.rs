//! What holds of the tree while it is built: the links between the nodes
//! describe subtrees that are ranges of the arena and agree among
//! relatives, no element sees a prefix bound twice, the table of namespaces
//! holds no pair twice, and no element has two attributes with one
//! expanded name.

use crate::builder::{
    attribute_exists, binding_exists, Build, Entity, find_namespace, initial,
    lemma_line_ends_normalized_valid, line_ends_normalized, mark_awaiting, namespace_name,
    same_expanded_name,
};
use crate::stream::Span;
use crate::tokenizer::SpanEnd;
use crate::tree::{
    AttributeData, ExpandedNameIndexed, NamespaceData, NamespaceIdx, NodeData, NodeId, NodeKind,
    ShortRange, Stored, Tree, xml_uri,
};
use vstd::prelude::*;
use vstd::string::*;
use vstd::utf8::*;

verus! {

impl Tree {
    /// An ancestor stands before its descendants.
    pub proof fn lemma_ancestor_le(self, a: int, j: int)
        requires
            self.is_ancestor_or_self(a, j),
        ensures
            a <= j,
    {
    }

    /// Whether a node is an ancestor of another depends on the parents of
    /// the nodes up to the descendant alone.
    pub proof fn lemma_ancestor_frame(self, other: Tree, a: int, j: int)
        requires
            0 <= j < self.nodes.len() <= other.nodes.len(),
            forall|i: int| 0 <= i <= j ==> (#[trigger] other.nodes[i]).parent == self.nodes[i].parent,
        ensures
            self.is_ancestor_or_self(a, j) == other.is_ancestor_or_self(a, j),
        decreases j,
    {
        if j != a && a < j && 0 < j {
            assert(other.nodes[j].parent == self.nodes[j].parent);
            match self.nodes[j].parent {
                Some(p) => {
                    if p.0 < j {
                        self.lemma_ancestor_frame(other, a, p.0 as int);
                    }
                },
                None => {},
            }
        }
    }

    /// An ancestor of a node other than the node is an ancestor of its parent.
    pub proof fn lemma_ancestor_of_parent(self, a: int, j: int)
        requires
            0 < j < self.nodes.len(),
            self.nodes[j].parent matches Some(p) && p.0 < j,
            a != j,
        ensures
            self.is_ancestor_or_self(a, j) == self.is_ancestor_or_self(a, self.parent(j)),
    {
        let p = self.parent(j);
        if self.is_ancestor_or_self(a, p) {
            self.lemma_ancestor_le(a, p);
        }
    }
}

impl Build {
    /// The links of the nodes describe the tree as far as it is built: the
    /// subtree of a node with a next subtree is the range up to it, and the
    /// subtree of any other node reaches to the end of the arena; such a
    /// node is the current parent, one of its ancestors, or a node that waits.
    pub open spec fn structure(self) -> bool {
        let t = self.tree;
        let parent = self.parent_id.0 as int;
        &&& forall|i: int| 0 <= i < t.nodes.len() ==> #[trigger] t.links_wf(i)
        &&& t.subtrees_wf()
        &&& forall|i: int|
            0 <= i < t.nodes.len() ==> ((#[trigger] t.nodes[i]).next_subtree is None <==> (
            self.awaiting_subtree.contains(NodeId(i as u32)) || t.is_ancestor_or_self(i, parent)))
        &&& forall|k: int|
            0 <= k < self.awaiting_subtree.len() ==> parent < (#[trigger] self.awaiting_subtree[k]).0
                < t.nodes.len()
        &&& (self.awaiting_subtree.len() > 0 ==> t.nodes[parent].last_child is Some)
        &&& parent < t.nodes.len()
        &&& (t.nodes[parent].kind is Root || t.nodes[parent].kind is Element)
        &&& t.families_wf()
    }

    /// What `append_node` makes of the nodes.
    pub open spec fn appended(self, kind: NodeKind, range: Span) -> Seq<NodeData> {
        let nodes = self.tree.nodes;
        let id = NodeId(nodes.len() as u32);
        let parent = self.parent_id.0 as int;
        let node = NodeData {
            parent: Some(self.parent_id),
            prev_sibling: nodes[parent].last_child,
            next_subtree: None,
            last_child: None,
            kind,
            range,
        };
        mark_awaiting(
            nodes.push(node).update(parent, NodeData { last_child: Some(id), ..nodes[parent] }),
            self.awaiting_subtree,
            id,
        )
    }

    /// A state with one more node, which waits or is the new parent, keeps
    /// the structure: `wait` says that the new node waits.
    pub proof fn lemma_appended_structure(self, kind: NodeKind, range: Span, wait: bool)
        requires
            self.safe(),
            self.structure(),
            !(kind is Root),
            !wait ==> kind is Element,
            self.tree.nodes.len() < u32::MAX,
        ensures
            (Build {
                tree: Tree { nodes: self.appended(kind, range), ..self.tree },
                awaiting_subtree: if wait {
                    seq![NodeId(self.tree.nodes.len() as u32)]
                } else {
                    Seq::empty()
                },
                parent_id: if wait {
                    self.parent_id
                } else {
                    NodeId(self.tree.nodes.len() as u32)
                },
                ..self
            }).structure(),
    {
        reveal(Build::safe);
        let t = self.tree;
        let n = t.nodes.len() as int;
        let p = self.parent_id.0 as int;
        let id = NodeId(n as u32);
        let nodes2 = self.appended(kind, range);
        let t2 = Tree { nodes: nodes2, ..t };
        let awaiting2 = if wait {
            seq![id]
        } else {
            Seq::empty()
        };
        let parent2 = if wait {
            self.parent_id
        } else {
            id
        };
        let m = Build { tree: t2, awaiting_subtree: awaiting2, parent_id: parent2, ..self };
        let new_parent = parent2.0 as int;
        assert(t.links_wf(p));
        // Every old node keeps its parent, its previous sibling and its kind.
        assert forall|i: int| 0 <= i < n implies (#[trigger] nodes2[i]).parent == t.nodes[i].parent
            && nodes2[i].prev_sibling == t.nodes[i].prev_sibling && nodes2[i].kind
            == t.nodes[i].kind && nodes2[i].next_subtree == (if self.awaiting_subtree.contains(
            NodeId(i as u32),
        ) {
            Some(id)
        } else {
            t.nodes[i].next_subtree
        }) && nodes2[i].last_child == (if i == p {
            Some(id)
        } else {
            t.nodes[i].last_child
        }) by {}
        assert(!self.awaiting_subtree.contains(id)) by {
            if self.awaiting_subtree.contains(id) {
                let k = choose|k: int|
                    0 <= k < self.awaiting_subtree.len() && self.awaiting_subtree[k] == id;
                assert(self.awaiting_subtree[k].0 < n);
            }
        }
        assert(nodes2[n].parent == Some(self.parent_id));
        assert(nodes2[n].next_subtree is None);
        assert(nodes2[n].prev_sibling == t.nodes[p].last_child);
        // A node that waits stands behind the parent, and is no ancestor of it.
        assert forall|i: int| 0 <= i < n && self.awaiting_subtree.contains(
            NodeId(i as u32),
        ) implies p < i && !t.is_ancestor_or_self(i, p) && t.nodes[i].next_subtree is None by {
            let k = choose|k: int|
                0 <= k < self.awaiting_subtree.len() && self.awaiting_subtree[k] == NodeId(
                    i as u32,
                );
            assert(p < self.awaiting_subtree[k].0);
            if t.is_ancestor_or_self(i, p) {
                t.lemma_ancestor_le(i, p);
            }
            assert(t.nodes[i].next_subtree is None);
        }
        // The ancestors among the old nodes are what they were.
        assert forall|i: int, j: int| 0 <= j < n implies #[trigger] t2.is_ancestor_or_self(i, j)
            == t.is_ancestor_or_self(i, j) by {
            t.lemma_ancestor_frame(t2, i, j);
        }
        // The ancestors of the new node are the node and the ancestors of the parent.
        assert forall|i: int| 0 <= i <= n implies #[trigger] t2.is_ancestor_or_self(i, n) == (i == n
            || t.is_ancestor_or_self(i, p)) by {
            if i != n {
                t2.lemma_ancestor_of_parent(i, n);
                t.lemma_ancestor_frame(t2, i, p);
            }
        }
        assert forall|i: int| 0 <= i < t2.nodes.len() implies #[trigger] t2.links_wf(i) by {
            if i < n {
                assert(t.links_wf(i));
                if self.awaiting_subtree.contains(NodeId(i as u32)) {
                    assert(self.awaiting_subtree.len() > 0);
                    assert(t.nodes[p].last_child is Some);
                } else {
                    match t.nodes[i].next_subtree {
                        Some(x) => {
                            assert(nodes2[x.0 as int].prev_sibling == t.nodes[x.0 as int].prev_sibling);
                        },
                        None => {},
                    }
                }
            } else {
                match t.nodes[p].last_child {
                    Some(c) => {
                        assert(c.0 < n);
                    },
                    None => {},
                }
            }
        }
        assert forall|i: int, j: int|
            0 <= i < t2.nodes.len() && 0 <= j < t2.nodes.len() implies (
        #[trigger] t2.is_ancestor_or_self(i, j) <==> i <= j < t2.subtree_end(i)) by {
            if j < n {
                if i < n {
                    assert(t.is_ancestor_or_self(i, j) <==> i <= j < t.subtree_end(i));
                    assert(t2.is_ancestor_or_self(i, j) == t.is_ancestor_or_self(i, j));
                    if t.nodes[i].next_subtree is None {
                        assert(self.awaiting_subtree.contains(NodeId(i as u32))
                            || t.is_ancestor_or_self(i, p));
                    }
                } else {
                    if t2.is_ancestor_or_self(i, j) {
                        t2.lemma_ancestor_le(i, j);
                    }
                }
            } else {
                assert(t2.is_ancestor_or_self(i, n) == (i == n || t.is_ancestor_or_self(i, p)));
                if i < n {
                    assert(t.links_wf(i));
                    assert(t.nodes[i].next_subtree is None <==> (self.awaiting_subtree.contains(
                        NodeId(i as u32),
                    ) || t.is_ancestor_or_self(i, p)));
                }
            }
        }
        assert forall|i: int| 0 <= i < t2.nodes.len() implies ((
        #[trigger] t2.nodes[i]).next_subtree is None <==> (awaiting2.contains(NodeId(i as u32))
            || t2.is_ancestor_or_self(i, new_parent))) by {
            if wait {
                assert(awaiting2[0] == id);
                if awaiting2.contains(NodeId(i as u32)) {
                    let k = choose|k: int|
                        0 <= k < awaiting2.len() && awaiting2[k] == NodeId(i as u32);
                    assert(i == n);
                }
            } else {
                if awaiting2.contains(NodeId(i as u32)) {
                    let k = choose|k: int|
                        0 <= k < awaiting2.len() && awaiting2[k] == NodeId(i as u32);
                }
            }
            if i < n {
                assert(t.nodes[i].next_subtree is None <==> (self.awaiting_subtree.contains(
                    NodeId(i as u32),
                ) || t.is_ancestor_or_self(i, p)));
                assert(t2.is_ancestor_or_self(i, p) == t.is_ancestor_or_self(i, p));
                assert(t2.is_ancestor_or_self(i, n) == (i == n || t.is_ancestor_or_self(i, p)));
            } else {
                if wait && t2.is_ancestor_or_self(i, p) {
                    t2.lemma_ancestor_le(i, p);
                }
            }
        }
        assert forall|i: int| 0 <= i < t2.nodes.len() implies #[trigger] t2.family_wf(i) by {
            self.lemma_appended_family(kind, range, i);
        }
        if wait {
            assert(awaiting2[0] == id);
        }
    }

    /// In a state with one more node the links of every node agree with
    /// the links of its relatives.
    pub proof fn lemma_appended_family(self, kind: NodeKind, range: Span, i: int)
        requires
            self.safe(),
            self.structure(),
            !(kind is Root),
            self.tree.nodes.len() < u32::MAX,
            0 <= i <= self.tree.nodes.len(),
        ensures
            (Tree { nodes: self.appended(kind, range), ..self.tree }).family_wf(i),
    {
        reveal(Build::safe);
        let t = self.tree;
        let n = t.nodes.len() as int;
        let p = self.parent_id.0 as int;
        let id = NodeId(n as u32);
        let nodes2 = self.appended(kind, range);
        let t2 = Tree { nodes: nodes2, ..t };
        let waits = |k: int| self.awaiting_subtree.contains(NodeId(k as u32));
        assert(t.links_wf(p));
        assert(t.family_wf(p));
        assert forall|k: int| 0 <= k < n implies (#[trigger] nodes2[k]).parent == t.nodes[k].parent
            && nodes2[k].prev_sibling == t.nodes[k].prev_sibling && nodes2[k].next_subtree == (
        if waits(k) {
            Some(id)
        } else {
            t.nodes[k].next_subtree
        }) && nodes2[k].last_child == (if k == p {
            Some(id)
        } else {
            t.nodes[k].last_child
        }) by {}
        // A node that waits stands behind the parent, and has no next subtree.
        assert forall|k: int| 0 <= k < n && waits(k) implies p < k
            && t.nodes[k].next_subtree is None by {
            let x = choose|x: int|
                0 <= x < self.awaiting_subtree.len() && self.awaiting_subtree[x] == NodeId(
                    k as u32,
                );
            assert(p < self.awaiting_subtree[x].0);
            assert(t.nodes[k].next_subtree is None);
        }
        // A node behind the parent without a next subtree waits.
        assert forall|k: int| p < k < n && t.nodes[k].next_subtree is None implies waits(k) by {
            assert(t.nodes[k].next_subtree is None <==> (waits(k) || t.is_ancestor_or_self(k, p)));
            if t.is_ancestor_or_self(k, p) {
                t.lemma_ancestor_le(k, p);
            }
        }
        assert(t.nodes[p].next_subtree is None) by {
            assert(t.is_ancestor_or_self(p, p));
        }
        assert(nodes2[n].parent == Some(self.parent_id));
        assert(nodes2[n].next_subtree is None);
        assert(nodes2[n].last_child is None);
        assert(nodes2[n].prev_sibling == t.nodes[p].last_child);
        if i < n {
            assert(t.links_wf(i));
            assert(t.family_wf(i));
            if i != p {
                match t.nodes[i].last_child {
                    Some(c) => {
                        let c = c.0 as int;
                        assert(t.links_wf(c));
                        assert(t.subtree_end(c) == t.subtree_end(i));
                        if t.nodes[i].next_subtree is None {
                            assert(t.nodes[c].next_subtree is None);
                            assert(waits(i) || t.is_ancestor_or_self(i, p));
                            if waits(i) {
                                assert(waits(c));
                            } else {
                                t.lemma_ancestor_le(i, p);
                                if waits(c) {
                                    // The parent of the child would stand below the current parent.
                                    assert(t.is_ancestor_or_self(p, c) <==> p <= c < t.subtree_end(p));
                                    t.lemma_ancestor_of_parent(p, c);
                                    t.lemma_ancestor_le(p, i);
                                }
                            }
                        } else {
                            assert(t.nodes[c].next_subtree is Some);
                        }
                    },
                    None => {},
                }
            }
            match t.nodes[i].prev_sibling {
                Some(s) => {
                    assert(t.links_wf(s.0 as int));
                    assert(t.nodes[s.0 as int].next_subtree is Some);
                },
                None => {},
            }
            if i > 0 {
                assert(t.nodes[t.parent(i)].last_child is Some);
            }
        } else {
            match t.nodes[p].last_child {
                Some(s) => {
                    let s = s.0 as int;
                    assert(t.links_wf(s));
                    assert(t.subtree_end(s) == t.subtree_end(p));
                    assert(t.nodes[s].next_subtree is None);
                    assert(waits(s));
                },
                None => {
                    if p + 1 < n {
                        // The node behind the parent would be a child of it.
                        assert(t.is_ancestor_or_self(p, p + 1) <==> p <= p + 1 < t.subtree_end(p));
                        assert(t.links_wf(p + 1));
                        assert(t.family_wf(p + 1));
                        t.lemma_ancestor_le(p, t.parent(p + 1));
                    }
                },
            }
        }
    }
}

impl Build {
    /// The structure depends on the links of the nodes, on the kinds that
    /// say which node is the root, on the nodes that wait and on the
    /// current parent alone.
    pub proof fn lemma_structure_frame(self, old: Build)
        requires
            old.structure(),
            self.awaiting_subtree == old.awaiting_subtree,
            self.parent_id == old.parent_id,
            self.tree.nodes.len() == old.tree.nodes.len(),
            forall|i: int|
                0 <= i < old.tree.nodes.len() ==> (#[trigger] self.tree.nodes[i]).parent
                    == old.tree.nodes[i].parent && self.tree.nodes[i].prev_sibling
                    == old.tree.nodes[i].prev_sibling && self.tree.nodes[i].next_subtree
                    == old.tree.nodes[i].next_subtree && self.tree.nodes[i].last_child
                    == old.tree.nodes[i].last_child && (self.tree.nodes[i].kind is Root
                    <==> old.tree.nodes[i].kind is Root) && (self.tree.nodes[i].kind is Element
                    <==> old.tree.nodes[i].kind is Element),
        ensures
            self.structure(),
    {
        let t = self.tree;
        let o = old.tree;
        let p = self.parent_id.0 as int;
        assert forall|i: int, j: int| 0 <= j < t.nodes.len() implies #[trigger] t.is_ancestor_or_self(
            i,
            j,
        ) == o.is_ancestor_or_self(i, j) by {
            o.lemma_ancestor_frame(t, i, j);
        }
        assert forall|i: int| 0 <= i < t.nodes.len() implies #[trigger] t.links_wf(i) by {
            assert(o.links_wf(i));
            match o.nodes[i].next_subtree {
                Some(x) => {
                    assert(t.nodes[x.0 as int].prev_sibling == o.nodes[x.0 as int].prev_sibling);
                },
                None => {},
            }
        }
        assert forall|i: int, j: int|
            0 <= i < t.nodes.len() && 0 <= j < t.nodes.len() implies (
        #[trigger] t.is_ancestor_or_self(i, j) <==> i <= j < t.subtree_end(i)) by {
            assert(o.is_ancestor_or_self(i, j) <==> i <= j < o.subtree_end(i));
            assert(t.nodes[i].next_subtree == o.nodes[i].next_subtree);
        }
        assert forall|i: int| 0 <= i < t.nodes.len() implies ((
        #[trigger] t.nodes[i]).next_subtree is None <==> (self.awaiting_subtree.contains(
            NodeId(i as u32),
        ) || t.is_ancestor_or_self(i, p))) by {
            assert(o.nodes[i].next_subtree is None <==> (old.awaiting_subtree.contains(
                NodeId(i as u32),
            ) || o.is_ancestor_or_self(i, p)));
            if p < t.nodes.len() {
                assert(t.is_ancestor_or_self(i, p) == o.is_ancestor_or_self(i, p));
            } else {
                assert(!o.is_ancestor_or_self(i, p) || i == p);
                assert(!t.is_ancestor_or_self(i, p) || i == p);
            }
        }
        assert forall|i: int| 0 <= i < t.nodes.len() implies #[trigger] t.family_wf(i) by {
            assert(o.links_wf(i));
            assert(o.family_wf(i));
        }
        assert(t.nodes[p].parent == o.nodes[p].parent);
        if self.awaiting_subtree.len() > 0 {
            assert(self.awaiting_subtree[0].0 < t.nodes.len());
        }
    }

    /// A close tag keeps the structure: the parent waits, and its parent
    /// becomes the current one.
    pub proof fn lemma_closed_structure(self, nodes: Seq<NodeData>)
        requires
            self.safe(),
            self.structure(),
            self.tree.nodes[self.parent_id.0 as int].parent is Some,
            nodes.len() == self.tree.nodes.len(),
            forall|i: int|
                0 <= i < nodes.len() ==> (#[trigger] nodes[i]).parent == self.tree.nodes[i].parent
                    && nodes[i].prev_sibling == self.tree.nodes[i].prev_sibling
                    && nodes[i].next_subtree == self.tree.nodes[i].next_subtree
                    && nodes[i].last_child == self.tree.nodes[i].last_child && (nodes[i].kind is Root
                    <==> self.tree.nodes[i].kind is Root) && (nodes[i].kind is Element
                    <==> self.tree.nodes[i].kind is Element),
        ensures
            (Build {
                tree: Tree { nodes, ..self.tree },
                awaiting_subtree: self.awaiting_subtree.push(self.parent_id),
                parent_id: self.tree.nodes[self.parent_id.0 as int].parent->0,
                ..self
            }).structure(),
    {
        reveal(Build::safe);
        let o = self.tree;
        let p = self.parent_id.0 as int;
        let g = o.nodes[p].parent->0;
        let same = Build { tree: Tree { nodes, ..self.tree }, ..self };
        same.lemma_structure_frame(self);
        let t = same.tree;
        let awaiting2 = self.awaiting_subtree.push(self.parent_id);
        let m = Build { awaiting_subtree: awaiting2, parent_id: g, ..same };
        assert(o.links_wf(p));
        assert(g.0 < p);
        assert(t.nodes[p].parent == Some(g));
        assert forall|i: int| 0 <= i < t.nodes.len() implies ((
        #[trigger] t.nodes[i]).next_subtree is None <==> (awaiting2.contains(NodeId(i as u32))
            || t.is_ancestor_or_self(i, g.0 as int))) by {
            assert(t.nodes[i].next_subtree is None <==> (same.awaiting_subtree.contains(
                NodeId(i as u32),
            ) || t.is_ancestor_or_self(i, p)));
            if i != p {
                t.lemma_ancestor_of_parent(i, p);
                assert(t.parent(p) == g.0);
            } else {
                assert(awaiting2[awaiting2.len() - 1] == NodeId(i as u32));
                if t.is_ancestor_or_self(i, g.0 as int) {
                    t.lemma_ancestor_le(i, g.0 as int);
                }
            }
            if same.awaiting_subtree.contains(NodeId(i as u32)) {
                let k = choose|k: int|
                    0 <= k < same.awaiting_subtree.len() && same.awaiting_subtree[k] == NodeId(
                        i as u32,
                    );
                assert(awaiting2[k] == NodeId(i as u32));
            }
            if awaiting2.contains(NodeId(i as u32)) {
                let k = choose|k: int| 0 <= k < awaiting2.len() && awaiting2[k] == NodeId(i as u32);
                if k < same.awaiting_subtree.len() {
                    assert(same.awaiting_subtree[k] == NodeId(i as u32));
                }
            }
        }
        assert forall|k: int| 0 <= k < awaiting2.len() implies g.0 < (#[trigger] awaiting2[k]).0
            < t.nodes.len() by {
            if k < same.awaiting_subtree.len() {
                assert(p < same.awaiting_subtree[k].0);
            }
        }
        assert(t.family_wf(p));
        assert(t.nodes[t.parent(p)].last_child is Some);
        assert(t.links_wf(g.0 as int));
        assert(t.family_wf(g.0 as int));
    }

    /// No prefix is bound twice among the bindings of the start tag that is
    /// being read, and at no element; the table of namespaces holds no pair
    /// twice; the namespace of `xml` is bound at the index 0 of the tree
    /// order alone, which no element sees.
    pub open spec fn bindings(self) -> bool {
        let t = self.tree;
        &&& self.namespace_start_idx >= 1
        &&& t.entries_distinct()
        &&& t.prefixes_unique(self.namespace_start_idx as int, t.tree_order.len() as int)
        &&& forall|k: int| 1 <= k < t.tree_order.len() ==> #[trigger] t.binding_uri(k) != xml_uri()
        &&& forall|i: int|
            0 <= i < t.nodes.len() ==> t.prefixes_unique(
                (#[trigger] t.visible(i)).start as int,
                t.visible(i).end as int,
            ) && (t.visible(i).start >= 1 || t.visible(i).start >= t.visible(i).end)
    }

    /// The tree of a state with well-formed bindings binds no prefix twice.
    pub proof fn lemma_bindings_wf(self)
        requires
            self.safe(),
            self.bindings(),
        ensures
            self.tree.bindings_wf(),
    {
        reveal(Build::safe);
        let t = self.tree;
        assert forall|i: int| 0 <= i < t.nodes.len() implies t.bindings_wf_in(
            #[trigger] t.visible(i),
        ) by {
            let r = t.visible(i);
            assert(t.prefixes_unique(r.start as int, r.end as int));
            assert(t.kind_wf(t.nodes[i].kind));
            assert forall|k: int| r.start <= k < r.end implies #[trigger] t.binding_uri(k)
                != xml_uri() by {
                assert(r.start >= 1);
            }
        }
    }

    /// The bindings depend on the tables of namespaces, on the texts that
    /// the bindings refer to, on the visible ranges of the nodes and on the
    /// start of the new bindings alone.
    pub proof fn lemma_bindings_frame(self, old: Build)
        requires
            old.safe(),
            old.bindings(),
            self.namespace_start_idx == old.namespace_start_idx,
            self.tree.text == old.tree.text,
            self.tree.namespaces == old.tree.namespaces,
            self.tree.tree_order == old.tree.tree_order,
            old.tree.strings.len() <= self.tree.strings.len(),
            forall|k: int|
                0 <= k < old.tree.strings.len() ==> #[trigger] self.tree.strings[k]
                    == old.tree.strings[k],
            forall|i: int|
                0 <= i < self.tree.nodes.len() ==> (i < old.tree.nodes.len() && (
                #[trigger] self.tree.visible(i)) == old.tree.visible(i)) || (
                old.tree.prefixes_unique(
                    self.tree.visible(i).start as int,
                    self.tree.visible(i).end as int,
                ) && self.tree.visible(i).end <= old.tree.tree_order.len() && (self.tree.visible(
                    i,
                ).start >= 1 || self.tree.visible(i).start >= self.tree.visible(i).end)),
        ensures
            self.bindings(),
    {
        reveal(Build::safe);
        let t = self.tree;
        let o = old.tree;
        assert forall|k: int| 0 <= k < t.tree_order.len() implies #[trigger] t.binding_name(k)
            == o.binding_name(k) && #[trigger] t.binding_uri(k) == o.binding_uri(k) by {
            let idx = o.tree_order[k].0 as int;
            assert(o.tree_order[k].0 < o.namespaces.len());
            assert(o.stored_wf(o.namespaces[idx].uri));
        }
        assert(t.prefixes_unique(self.namespace_start_idx as int, t.tree_order.len() as int)) by {
            assert forall|k: int, l: int|
                self.namespace_start_idx <= k < l < t.tree_order.len() implies #[trigger] t.binding_name(k) != #[trigger] t.binding_name(
                l,
            ) by {
                assert(o.binding_name(k) != o.binding_name(l));
            }
        }
        assert forall|i: int| 0 <= i < t.nodes.len() implies t.prefixes_unique(
            (#[trigger] t.visible(i)).start as int,
            t.visible(i).end as int,
        ) && (t.visible(i).start >= 1 || t.visible(i).start >= t.visible(i).end) by {
            let r = t.visible(i);
            if i < o.nodes.len() && t.visible(i) == o.visible(i) {
                assert(o.prefixes_unique(o.visible(i).start as int, o.visible(i).end as int));
                assert(o.kind_wf(o.nodes[i].kind));
            }
            assert forall|k: int, l: int|
                r.start <= k < l < r.end implies #[trigger] t.binding_name(
                k,
            ) != #[trigger] t.binding_name(l) by {
                assert(o.binding_name(k) != o.binding_name(l));
            }
        }
        assert forall|k: int| 1 <= k < t.tree_order.len() implies #[trigger] t.binding_uri(k)
            != xml_uri() by {
            assert(o.binding_uri(k) != xml_uri());
        }
        assert forall|k: int| 0 <= k < t.namespaces.len() implies #[trigger] t.entry_name(k)
            == o.entry_name(k) && #[trigger] t.entry_uri(k) == o.entry_uri(k) by {
            assert(o.stored_wf(o.namespaces[k].uri));
        }
        assert forall|k: int, l: int|
            0 <= k < l < t.namespaces.len() && #[trigger] t.entry_uri(k) == #[trigger] t.entry_uri(
                l,
            ) implies t.entry_name(k) != t.entry_name(l) by {
            assert(o.entry_uri(k) == o.entry_uri(l));
        }
    }
}

impl Tree {
    /// Whether an element has two attributes with one expanded name depends
    /// on the attributes and their ranges, on the namespaces and on the
    /// texts alone: it stays so where these grow, and where the attributes
    /// of a new element have expanded names of their own.
    pub proof fn lemma_attributes_frame(self, old: Tree)
        requires
            old.attributes_wf(),
            old.data_wf(),
            self.text == old.text,
            old.attributes.len() <= self.attributes.len(),
            forall|k: int|
                0 <= k < old.attributes.len() ==> #[trigger] self.attributes[k]
                    == old.attributes[k],
            old.namespaces.len() <= self.namespaces.len(),
            forall|k: int|
                0 <= k < old.namespaces.len() ==> #[trigger] self.namespaces[k]
                    == old.namespaces[k],
            old.strings.len() <= self.strings.len(),
            forall|k: int|
                0 <= k < old.strings.len() ==> #[trigger] self.strings[k] == old.strings[k],
            forall|i: int|
                0 <= i < self.nodes.len() ==> (i < old.nodes.len() && (#[trigger] self.attributes_of(
                    i,
                )) == old.attributes_of(i) && old.kind_wf(old.nodes[i].kind)) || self.names_unique(
                    self.attributes_of(i).start as int,
                    self.attributes_of(i).end as int,
                ),
        ensures
            self.attributes_wf(),
    {
        assert forall|k: int| 0 <= k < old.attributes.len() implies #[trigger] self.attribute_name(k)
            == old.attribute_name(k) by {
            assert(old.name_wf(old.attributes[k].name));
            match old.attributes[k].name.namespace_idx {
                Some(idx) => {
                    assert(old.stored_wf(old.namespaces[idx.0 as int].uri));
                },
                None => {},
            }
        }
        assert forall|i: int| 0 <= i < self.nodes.len() implies self.names_unique(
            (#[trigger] self.attributes_of(i)).start as int,
            self.attributes_of(i).end as int,
        ) by {
            if i < old.nodes.len() && self.attributes_of(i) == old.attributes_of(i) && old.kind_wf(
                old.nodes[i].kind,
            ) {
                let r = old.attributes_of(i);
                assert(old.names_unique(r.start as int, r.end as int));
                assert forall|k: int, l: int| r.start <= k < l < r.end implies #[trigger] self.attribute_name(
                    k,
                ) != #[trigger] self.attribute_name(l) by {
                    assert(old.attribute_name(k) != old.attribute_name(l));
                }
            }
        }
    }
}

impl Build {
    /// What holds of every state of the builder: it refers to what is
    /// there, its links describe the tree, no prefix is bound twice, and
    /// no element has two attributes with one expanded name.
    pub open spec fn inv(self) -> bool {
        self.safe() && self.structure() && self.bindings() && self.tree.attributes_wf()
    }

    /// A state with one more string keeps what holds of it.
    pub proof fn lemma_push_string_inv(self, bytes: Seq<u8>)
        requires
            self.inv(),
            valid_utf8(bytes),
        ensures
            self.with_tree(Tree { strings: self.tree.strings.push(bytes), ..self.tree }).inv(),
    {
        let m = self.with_tree(Tree { strings: self.tree.strings.push(bytes), ..self.tree });
        self.lemma_push_string_safe(bytes);
        m.lemma_structure_frame(self);
        assert forall|i: int| 0 <= i < m.tree.nodes.len() implies (i < self.tree.nodes.len() && (
        #[trigger] m.tree.visible(i)) == self.tree.visible(i)) by {}
        m.lemma_bindings_frame(self);
        assert(m.tree.attributes_wf()) by {
            reveal(Build::safe);
            m.tree.lemma_attributes_frame(self.tree);
        }
    }

    /// A new node that is no element keeps what holds of the state.
    pub proof fn lemma_append_node_inv(self, kind: NodeKind, range: Span)
        requires
            self.inv(),
            self.tree.kind_wf(kind),
            !(kind is Root),
            !(kind is Element),
        ensures
            self.append_node(kind, range) matches Ok((m, id)) ==> m.inv(),
    {
        reveal(Build::append_node);
        self.lemma_append_node_safe(kind, range);
        if self.append_node(kind, range) is Ok {
            let m = self.append_node(kind, range)->Ok_0.0;
            self.lemma_appended_structure(kind, range, true);
            assert(m.tree.nodes =~= self.appended(kind, range));
            let n = self.tree.nodes.len() as int;
            assert forall|i: int| 0 <= i < m.tree.nodes.len() implies (i < self.tree.nodes.len() && (
            #[trigger] m.tree.visible(i)) == self.tree.visible(i)) || (
            self.tree.prefixes_unique(m.tree.visible(i).start as int, m.tree.visible(i).end as int)
                && m.tree.visible(i).end <= self.tree.tree_order.len() && (m.tree.visible(i).start
                >= 1 || m.tree.visible(i).start >= m.tree.visible(i).end)) by {
                if i < n {
                    assert(m.tree.nodes[i].kind == self.tree.nodes[i].kind);
                } else {
                    assert(m.tree.nodes[n].kind == kind);
                }
            }
            m.lemma_bindings_frame(self);
            assert(m.tree.attributes_wf()) by {
                reveal(Build::safe);
                assert forall|i: int| 0 <= i < m.tree.nodes.len() implies (i < self.tree.nodes.len()
                    && (#[trigger] m.tree.attributes_of(i)) == self.tree.attributes_of(i)
                    && self.tree.kind_wf(self.tree.nodes[i].kind)) || m.tree.names_unique(
                    m.tree.attributes_of(i).start as int,
                    m.tree.attributes_of(i).end as int,
                ) by {
                    if i < n {
                        assert(m.tree.nodes[i].kind == self.tree.nodes[i].kind);
                    } else {
                        assert(m.tree.nodes[n].kind == kind);
                    }
                }
                m.tree.lemma_attributes_frame(self.tree);
            }
        }
    }

    /// A piece of text keeps what holds of the state.
    pub proof fn lemma_append_text_inv(self, piece: Stored, range: Span)
        requires
            self.inv(),
            self.tree.stored_wf(piece),
        ensures
            self.append_text(piece, range) matches Ok(m) ==> m.inv(),
    {
        reveal(Build::append_text);
        self.lemma_append_text_safe(piece, range);
        if self.after_text.len() == 0 {
            self.lemma_append_node_inv(NodeKind::Text(piece), range);
            if self.append_node(NodeKind::Text(piece), range) is Ok {
                let m = self.append_node(NodeKind::Text(piece), range)->Ok_0.0;
                let r = Build { after_text: m.after_text.push(piece), ..m };
                r.lemma_structure_frame(m);
                assert forall|i: int| 0 <= i < r.tree.nodes.len() implies (i < m.tree.nodes.len()
                    && (#[trigger] r.tree.visible(i)) == m.tree.visible(i)) by {}
                r.lemma_bindings_frame(m);
            }
        } else {
            let r = Build { after_text: self.after_text.push(piece), ..self };
            r.lemma_structure_frame(self);
            assert forall|i: int| 0 <= i < r.tree.nodes.len() implies (i < self.tree.nodes.len() && (
            #[trigger] r.tree.visible(i)) == self.tree.visible(i)) by {}
            r.lemma_bindings_frame(self);
        }
    }

    /// A piece of text that the document owns keeps what holds of the state.
    pub proof fn lemma_append_owned_text_inv(self, bytes: Seq<u8>, range: Span)
        requires
            self.inv(),
            valid_utf8(bytes),
        ensures
            self.append_owned_text(bytes, range) matches Ok(m) ==> m.inv(),
    {
        reveal(Build::append_owned_text);
        reveal(Build::safe);
        self.lemma_push_string_inv(bytes);
        let m = self.with_tree(Tree { strings: self.tree.strings.push(bytes), ..self.tree });
        m.lemma_append_text_inv(Stored::Owned(self.tree.strings.len() as usize), range);
    }

    /// The end of a run of text keeps what holds of the state.
    pub proof fn lemma_reset_after_text_inv(self)
        requires
            self.inv(),
        ensures
            self.reset_after_text().inv(),
    {
        reveal(Build::reset_after_text);
        reveal(Build::merge_text);
        self.lemma_reset_after_text_safe();
        let m = self.reset_after_text();
        m.lemma_structure_frame(self);
        reveal(Build::safe);
        assert forall|i: int| 0 <= i < m.tree.nodes.len() implies (i < self.tree.nodes.len() && (
        #[trigger] m.tree.visible(i)) == self.tree.visible(i)) by {}
        m.lemma_bindings_frame(self);
        assert forall|i: int| 0 <= i < m.tree.nodes.len() implies (i < self.tree.nodes.len() && (
        #[trigger] m.tree.attributes_of(i)) == self.tree.attributes_of(i) && self.tree.kind_wf(
            self.tree.nodes[i].kind,
        )) by {}
        m.tree.lemma_attributes_frame(self.tree);
    }

    /// A processing instruction keeps what holds of the state.
    pub proof fn lemma_process_pi_inv(self, target: Span, value: Option<Span>, range: Span)
        requires
            self.inv(),
            target.wf(self.tree.text),
            value matches Some(v) ==> v.wf(self.tree.text),
        ensures
            self.process_pi(target, value, range) matches Ok(m) ==> m.inv(),
    {
        reveal(Build::process_pi);
        self.lemma_reset_after_text_inv();
        self.lemma_reset_after_text_safe();
        self.reset_after_text().lemma_append_node_inv(NodeKind::PI { target, value }, range);
    }

    /// A comment keeps what holds of the state.
    pub proof fn lemma_process_comment_inv(self, text: Span, range: Span)
        requires
            self.inv(),
            text.wf(self.tree.text),
        ensures
            self.process_comment(text, range) matches Ok(m) ==> m.inv(),
    {
        reveal(Build::process_comment);
        self.lemma_reset_after_text_inv();
        self.lemma_reset_after_text_safe();
        self.reset_after_text().lemma_append_node_inv(NodeKind::Comment(text), range);
    }

    /// A state that differs from a state in what the links and the bindings
    /// do not depend on keeps the structure and the bindings.
    pub proof fn lemma_same_shape(self, old: Build)
        requires
            old.inv(),
            self.safe(),
            self.tree == old.tree,
            self.awaiting_subtree == old.awaiting_subtree,
            self.parent_id == old.parent_id,
            self.namespace_start_idx == old.namespace_start_idx,
        ensures
            self.inv(),
    {
        self.lemma_structure_frame(old);
        assert forall|i: int| 0 <= i < self.tree.nodes.len() implies (i < old.tree.nodes.len() && (
        #[trigger] self.tree.visible(i)) == old.tree.visible(i)) by {}
        self.lemma_bindings_frame(old);
    }

    /// The name of a start tag keeps what holds of the state.
    pub proof fn lemma_start_element_inv(self, prefix: Span, local: Span, start: usize)
        requires
            self.inv(),
            prefix.wf(self.tree.text),
            local.wf(self.tree.text),
        ensures
            self.start_element(prefix, local, start) matches Ok(m) ==> m.inv() && m.safe(),
    {
        reveal(Build::start_element);
        self.lemma_reset_after_text_inv();
        self.lemma_reset_after_text_safe();
        if self.start_element(prefix, local, start) is Ok {
            let m = self.start_element(prefix, local, start)->Ok_0;
            assert(m.safe()) by {
                reveal(Build::safe);
            }
            m.lemma_same_shape(self.reset_after_text());
        }
    }

    /// A CDATA section keeps what holds of the state.
    pub proof fn lemma_process_cdata_inv(self, text: Span, range: Span)
        requires
            self.inv(),
            text.wf(self.tree.text),
        ensures
            self.process_cdata(text, range) matches Ok(m) ==> m.inv(),
    {
        reveal(Build::process_cdata);
        reveal(Build::safe);
        let b = self.text();
        lemma_line_ends_normalized_valid(b, text.start as int, text.end as int);
        self.lemma_append_text_inv(Stored::Input(text), range);
        self.lemma_append_owned_text_inv(
            line_ends_normalized(b, text.start as int, text.end as int),
            range,
        );
    }
}

/// The index that `find_namespace` gives holds the binding that was looked for.
pub proof fn lemma_find_namespace_found(tree: Tree, name: Option<Seq<u8>>, uri: Seq<u8>, k: int)
    requires
        0 <= k,
    ensures
        find_namespace(tree, name, uri, k) matches Some(i) ==> k <= i < tree.namespaces.len()
            && namespace_name(tree, i) == name && tree.stored(tree.namespaces[i].uri) == uri,
    decreases tree.namespaces.len() - k,
{
    if k < tree.namespaces.len() && !(namespace_name(tree, k) == name && tree.stored(
        tree.namespaces[k].uri,
    ) == uri) {
        lemma_find_namespace_found(tree, name, uri, k + 1);
    }
}

/// Where `find_namespace` finds nothing, the table holds no such binding
/// from `k` on.
pub proof fn lemma_find_namespace_none(tree: Tree, name: Option<Seq<u8>>, uri: Seq<u8>, k: int)
    requires
        0 <= k,
        find_namespace(tree, name, uri, k) is None,
    ensures
        forall|l: int|
            k <= l < tree.namespaces.len() && #[trigger] tree.entry_uri(l) == uri
                ==> tree.entry_name(l) != name,
    decreases tree.namespaces.len() - k,
{
    if k < tree.namespaces.len() {
        lemma_find_namespace_none(tree, name, uri, k + 1);
    }
}

impl Tree {
    /// Whether a prefix is bound twice depends on the tables of namespaces
    /// and on the texts alone.
    pub proof fn lemma_prefixes_unique_frame(self, other: Tree, start: int, end: int)
        requires
            self.prefixes_unique(start, end),
            0 <= start,
            end <= self.tree_order.len(),
            other.text == self.text,
            other.namespaces == self.namespaces,
            other.tree_order == self.tree_order,
            other.strings == self.strings,
        ensures
            other.prefixes_unique(start, end),
    {
        assert forall|k: int, l: int|
            start <= k < l < end implies #[trigger] other.binding_name(
            k,
        ) != #[trigger] other.binding_name(l) by {
            assert(self.binding_name(k) != self.binding_name(l));
        }
    }
}

impl Build {
    /// A state whose tree order has one more binding, of a prefix that is
    /// not bound among the new bindings yet and to a namespace that is not
    /// that of `xml`, keeps the bindings. `table` is the table of
    /// namespaces of the new state, which holds the one of the old state.
    pub proof fn lemma_pushed_binding(self, table: Seq<NamespaceData>, idx: NamespaceIdx)
        requires
            self.safe(),
            self.bindings(),
            self.tree.attributes_wf(),
            self.tree.namespaces.len() <= table.len(),
            forall|k: int|
                0 <= k < self.tree.namespaces.len() ==> #[trigger] table[k]
                    == self.tree.namespaces[k],
            idx.0 < table.len(),
            (Tree { namespaces: table, ..self.tree }).entries_distinct(),
            ({
                let t = Tree { namespaces: table, ..self.tree };
                let name = namespace_name(t, idx.0 as int);
                &&& t.stored(table[idx.0 as int].uri) != xml_uri()
                &&& !binding_exists(self.tree, self.namespace_start_idx as int, name)
            }),
        ensures
            self.with_tree(
                Tree {
                    namespaces: table,
                    tree_order: self.tree.tree_order.push(idx),
                    ..self.tree
                },
            ).bindings(),
            (Tree {
                namespaces: table,
                tree_order: self.tree.tree_order.push(idx),
                ..self.tree
            }).attributes_wf(),
    {
        reveal(Build::safe);
        let o = self.tree;
        let t = Tree { namespaces: table, tree_order: o.tree_order.push(idx), ..o };
        let m = self.with_tree(t);
        let n = o.tree_order.len() as int;
        let name = namespace_name(Tree { namespaces: table, ..o }, idx.0 as int);
        assert forall|k: int| 0 <= k < n implies #[trigger] t.binding_name(k) == o.binding_name(k)
            && #[trigger] t.binding_uri(k) == o.binding_uri(k) && t.binding(k) == o.binding(
            k,
        ) by {
            assert(o.tree_order[k].0 < o.namespaces.len());
            assert(t.tree_order[k] == o.tree_order[k]);
        }
        assert(t.binding_name(n) == name);
        assert forall|k: int, l: int|
            m.namespace_start_idx <= k < l < t.tree_order.len() implies #[trigger] t.binding_name(k) != #[trigger] t.binding_name(l) by {
            if l < n {
                assert(o.binding_name(k) != o.binding_name(l));
            } else {
                assert(o.binding_name(k) != name);
            }
        }
        assert forall|i: int| 0 <= i < t.nodes.len() implies t.prefixes_unique(
            (#[trigger] t.visible(i)).start as int,
            t.visible(i).end as int,
        ) && (t.visible(i).start >= 1 || t.visible(i).start >= t.visible(i).end) by {
            let r = o.visible(i);
            assert(o.prefixes_unique(r.start as int, r.end as int));
            assert(o.kind_wf(o.nodes[i].kind));
            assert forall|k: int, l: int|
                r.start <= k < l < r.end implies #[trigger] t.binding_name(
                k,
            ) != #[trigger] t.binding_name(l) by {
                assert(o.binding_name(k) != o.binding_name(l));
            }
        }
        assert forall|k: int| 1 <= k < t.tree_order.len() implies #[trigger] t.binding_uri(k)
            != xml_uri() by {
            if k < n {
                assert(o.binding_uri(k) != xml_uri());
            }
        }
        let shown = Tree { namespaces: table, ..o };
        assert forall|k: int, l: int|
            0 <= k < l < t.namespaces.len() && #[trigger] t.entry_uri(k) == #[trigger] t.entry_uri(
                l,
            ) implies t.entry_name(k) != t.entry_name(l) by {
            assert(shown.entry_uri(k) == shown.entry_uri(l));
        }
        assert forall|i: int| 0 <= i < t.nodes.len() implies (i < o.nodes.len() && (
        #[trigger] t.attributes_of(i)) == o.attributes_of(i) && o.kind_wf(o.nodes[i].kind)) by {}
        t.lemma_attributes_frame(o);
    }

    /// A binding of a prefix that is not bound among the new bindings yet,
    /// to a namespace that is not that of `xml`, keeps what holds of the state.
    pub proof fn lemma_push_ns_inv(self, name: Option<Stored>, uri: Stored)
        requires
            self.inv(),
            self.tree.stored_wf(uri),
            name matches Some(n) ==> self.tree.stored_wf(n),
            self.tree.stored(uri) != xml_uri(),
            !binding_exists(
                self.tree,
                self.namespace_start_idx as int,
                match name {
                    Some(n) => Some(self.tree.stored(n)),
                    None => None,
                },
            ),
        ensures
            self.push_ns(name, uri) matches Ok(m) ==> m.inv(),
    {
        reveal(Build::safe);
        reveal(Build::push_ns);
        self.lemma_push_ns_safe(name, uri);
        let tree = self.tree;
        let name_bytes = match name {
            Some(n) => Some(tree.stored(n)),
            None => None,
        };
        lemma_find_namespace_found(tree, name_bytes, tree.stored(uri), 0);
        if self.push_ns(name, uri) is Ok {
            let m = self.push_ns(name, uri)->Ok_0;
            m.lemma_structure_frame(self);
            match find_namespace(tree, name_bytes, tree.stored(uri), 0) {
                Some(k) => {
                    self.lemma_pushed_binding(tree.namespaces, NamespaceIdx(k as u16));
                },
                None => {
                    let table = tree.namespaces.push(NamespaceData { name, uri });
                    let shown = Tree { namespaces: table, ..tree };
                    lemma_find_namespace_none(tree, name_bytes, tree.stored(uri), 0);
                    assert forall|k: int, l: int|
                        0 <= k < l < table.len() && #[trigger] shown.entry_uri(k)
                            == #[trigger] shown.entry_uri(l) implies shown.entry_name(k)
                        != shown.entry_name(l) by {
                        assert(shown.entry_uri(k) == tree.entry_uri(k));
                        assert(shown.entry_name(k) == tree.entry_name(k));
                        if l < tree.namespaces.len() {
                            assert(shown.entry_uri(l) == tree.entry_uri(l));
                            assert(shown.entry_name(l) == tree.entry_name(l));
                        }
                    }
                    self.lemma_pushed_binding(table, NamespaceIdx(tree.namespaces.len() as u16));
                },
            }
        }
    }

    /// Inherited bindings keep what holds of the state.
    pub proof fn lemma_inherit_inv(self, i: int, end: int)
        requires
            self.inv(),
            1 <= i,
            end <= self.tree.tree_order.len(),
        ensures
            self.inherit(i, end).inv(),
        decreases end - i,
    {
        reveal(Build::inherit);
        reveal(Build::safe);
        self.lemma_inherit_safe(i, end);
        if i < end {
            if binding_exists(self.tree, self.namespace_start_idx as int, self.tree.binding_name(i)) {
                self.lemma_inherit_inv(i + 1, end);
            } else {
                let idx = self.tree.tree_order[i];
                let m = self.with_tree(
                    Tree { tree_order: self.tree.tree_order.push(idx), ..self.tree },
                );
                assert(idx.0 < self.tree.namespaces.len());
                assert(self.tree.binding_uri(i) != xml_uri());
                self.lemma_pushed_binding(self.tree.namespaces, idx);
                assert(m == self.with_tree(
                    Tree {
                        namespaces: self.tree.namespaces,
                        tree_order: self.tree.tree_order.push(idx),
                        ..self.tree
                    },
                ));
                m.lemma_structure_frame(self);
                self.lemma_visible_within();
                assert forall|k: int| 0 <= k < m.tree.tree_order.len() implies (
                #[trigger] m.tree.tree_order[k]).0 < m.tree.namespaces.len() by {
                    if k < self.tree.tree_order.len() {
                        assert(self.tree.tree_order[k].0 < self.tree.namespaces.len());
                    }
                }
                assert forall|j: int| 0 <= j < m.tree.nodes.len() implies (
                #[trigger] m.tree.visible(j)).within(m.tree.tree_order.len() as int) by {
                    assert(self.tree.visible(j).within(self.tree.tree_order.len() as int));
                }
                m.lemma_tree_order_safe(self);
                m.lemma_inherit_inv(i + 1, end);
            }
        }
    }

    /// The visible bindings of a new element keep what holds of the state,
    /// and bind no prefix twice.
    pub proof fn lemma_resolve_namespaces_inv(self)
        requires
            self.inv(),
        ensures
            self.resolve_namespaces() matches Ok((m, range)) ==> m.inv() && m.tree.prefixes_unique(
                range.start as int,
                range.end as int,
            ) && range.end <= m.tree.tree_order.len() && (range.start >= 1 || range.start
                >= range.end),
    {
        reveal(Build::resolve_namespaces);
        reveal(Build::safe);
        self.lemma_resolve_namespaces_safe();
        let p = self.parent_id.0 as int;
        let parent = self.tree.nodes[p];
        assert(self.tree.kind_wf(parent.kind));
        assert(self.tree.prefixes_unique(
            self.tree.visible(p).start as int,
            self.tree.visible(p).end as int,
        ));
        match parent.kind {
            NodeKind::Element { namespaces, .. } => {
                assert(self.tree.visible(p) == namespaces);
                if self.namespace_start_idx != self.tree.tree_order.len() {
                    if namespaces.start < namespaces.end {
                        self.lemma_inherit_inv(namespaces.start as int, namespaces.end as int);
                    } else {
                        reveal(Build::inherit);
                    }
                }
            },
            _ => {},
        }
    }

    /// The attributes of a start tag that become attributes of the tree
    /// have expanded names of their own: among the attributes from `start`
    /// on no expanded name occurs twice.
    pub proof fn lemma_resolve_from_unique(self, range: ShortRange, start: int, k: int)
        requires
            self.safe(),
            self.tree.attributes_wf(),
            range.within(self.tree.tree_order.len() as int),
            0 <= k <= self.current_attributes.len(),
            self.tree.attributes.len() + (self.current_attributes.len() - k) < u32::MAX,
            0 <= start <= self.tree.attributes.len(),
            self.tree.names_unique(start, self.tree.attributes.len() as int),
        ensures
            self.resolve_from(range, start, k) matches Ok(m) ==> m.tree.attributes_wf()
                && m.tree.names_unique(start, m.tree.attributes.len() as int),
        decreases self.current_attributes.len() - k,
    {
        reveal(Build::safe);
        reveal(Build::attribute_ns_idx);
        reveal(Build::resolve_from);
        if k < self.current_attributes.len() {
            let attr = self.current_attributes[k];
            assert(attr.wf(self.tree));
            self.lemma_ns_idx_in_table(range, attr.range.start, attr.prefix);
            match self.attribute_ns_idx(range, attr) {
                Err(e) => {},
                Ok(namespace_idx) => {
                    let name = ExpandedNameIndexed { namespace_idx, local_name: attr.local };
                    if !attribute_exists(self.tree, start, name) {
                        let pushed = AttributeData {
                            name,
                            value: attr.value,
                            range: attr.range,
                            qname_len: attr.qname_len,
                            eq_len: attr.eq_len,
                        };
                        self.lemma_push_attribute_safe(pushed);
                        let o = self.tree;
                        let t = Tree { attributes: o.attributes.push(pushed), ..o };
                        let n = o.attributes.len() as int;
                        assert forall|i: int| 0 <= i < t.nodes.len() implies (i < o.nodes.len() && (
                        #[trigger] t.attributes_of(i)) == o.attributes_of(i) && o.kind_wf(
                            o.nodes[i].kind,
                        )) by {}
                        t.lemma_attributes_frame(o);
                        assert forall|x: int, y: int| start <= x < y < n + 1 implies #[trigger] t.attribute_name(
                            x,
                        ) != #[trigger] t.attribute_name(y) by {
                            assert(t.attribute_name(x) == o.attribute_name(x));
                            if y < n {
                                assert(o.attribute_name(x) != o.attribute_name(y));
                            } else {
                                assert(!same_expanded_name(o, o.attributes[x].name, name));
                            }
                        }
                        self.with_tree(t).lemma_resolve_from_unique(range, start, k + 1);
                    }
                },
            }
        }
    }

    /// The attributes of an element have expanded names of their own.
    pub proof fn lemma_resolve_attributes_unique(self, range: ShortRange)
        requires
            self.safe(),
            self.tree.attributes_wf(),
            range.within(self.tree.tree_order.len() as int),
        ensures
            self.resolve_attributes(range) matches Ok((m, attrs)) ==> m.tree.attributes_wf()
                && m.tree.names_unique(attrs.start as int, attrs.end as int),
    {
        reveal(Build::safe);
        reveal(Build::resolve_attributes);
        if self.current_attributes.len() > 0 && self.tree.attributes.len()
            + self.current_attributes.len() < u32::MAX {
            self.lemma_resolve_from_unique(range, self.tree.attributes.len() as int, 0);
            self.lemma_resolve_from_safe(range, self.tree.attributes.len() as int, 0);
        }
    }

    /// The element of a start tag keeps what holds of the state: `wait`
    /// says that the tag is empty, so that the element waits.
    pub proof fn lemma_append_element_inv(
        self,
        attributes: ShortRange,
        namespaces: ShortRange,
        end: usize,
        wait: bool,
    )
        requires
            self.inv(),
            attributes.within(self.tree.attributes.len() as int),
            namespaces.within(self.tree.tree_order.len() as int),
            self.tree.prefixes_unique(namespaces.start as int, namespaces.end as int),
            namespaces.start >= 1 || namespaces.start >= namespaces.end,
            self.tree.names_unique(attributes.start as int, attributes.end as int),
        ensures
            self.append_element(attributes, namespaces, end) matches Ok((m, id)) ==> (if wait {
                Build { awaiting_subtree: m.awaiting_subtree.push(id), ..m }
            } else {
                Build {
                    parent_id: id,
                    parent_prefixes: m.parent_prefixes.push(m.tag_name.prefix),
                    ..m
                }
            }).inv(),
    {
        reveal(Build::safe);
        reveal(Build::append_element);
        reveal(Build::append_node);
        self.lemma_append_element_safe(attributes, namespaces, end);
        self.lemma_ns_idx_in_table(namespaces, self.tag_name.prefix_pos, self.tag_name.prefix);
        if self.append_element(attributes, namespaces, end) is Ok {
            let (m, id) = self.append_element(attributes, namespaces, end)->Ok_0;
            let namespace_idx = self.ns_idx_by_prefix(
                namespaces,
                self.tag_name.prefix_pos,
                self.tag_name.prefix,
            )->Ok_0;
            let kind = NodeKind::Element {
                tag_name: ExpandedNameIndexed { namespace_idx, local_name: self.tag_name.name },
                attributes,
                namespaces,
            };
            let range = Span { start: self.tag_name.pos, end };
            self.lemma_append_node_safe(kind, range);
            let r = if wait {
                Build { awaiting_subtree: m.awaiting_subtree.push(id), ..m }
            } else {
                Build {
                    parent_id: id,
                    parent_prefixes: m.parent_prefixes.push(m.tag_name.prefix),
                    ..m
                }
            };
            assert(r.safe()) by {
                reveal(Build::safe);
                assert forall|k: int| 0 <= k < r.parent_prefixes.len() implies (
                #[trigger] r.parent_prefixes[k]).wf(r.tree.text) by {
                    if k < m.parent_prefixes.len() {
                        assert(m.parent_prefixes[k].wf(m.tree.text));
                    }
                }
            }
            self.lemma_appended_structure(kind, range, wait);
            assert(m.tree.nodes =~= self.appended(kind, range));
            let shaped = Build {
                tree: Tree { nodes: self.appended(kind, range), ..self.tree },
                awaiting_subtree: if wait {
                    seq![NodeId(self.tree.nodes.len() as u32)]
                } else {
                    Seq::empty()
                },
                parent_id: if wait {
                    self.parent_id
                } else {
                    NodeId(self.tree.nodes.len() as u32)
                },
                ..self
            };
            assert(r.awaiting_subtree =~= shaped.awaiting_subtree);
            r.lemma_structure_frame(shaped);
            let n = self.tree.nodes.len() as int;
            assert forall|i: int| 0 <= i < r.tree.nodes.len() implies (i < self.tree.nodes.len() && (
            #[trigger] r.tree.visible(i)) == self.tree.visible(i)) || (
            self.tree.prefixes_unique(r.tree.visible(i).start as int, r.tree.visible(i).end as int)
                && r.tree.visible(i).end <= self.tree.tree_order.len() && (r.tree.visible(i).start
                >= 1 || r.tree.visible(i).start >= r.tree.visible(i).end)) by {
                if i < n {
                    assert(r.tree.nodes[i].kind == self.tree.nodes[i].kind);
                } else {
                    assert(r.tree.nodes[n].kind == kind);
                }
            }
            r.lemma_bindings_frame(self);
            assert forall|i: int| 0 <= i < r.tree.nodes.len() implies (i < self.tree.nodes.len() && (
            #[trigger] r.tree.attributes_of(i)) == self.tree.attributes_of(i) && self.tree.kind_wf(
                self.tree.nodes[i].kind,
            )) || r.tree.names_unique(
                r.tree.attributes_of(i).start as int,
                r.tree.attributes_of(i).end as int,
            ) by {
                if i < n {
                    assert(r.tree.nodes[i].kind == self.tree.nodes[i].kind);
                } else {
                    assert(r.tree.nodes[n].kind == kind);
                    assert forall|x: int, y: int|
                        attributes.start <= x < y < attributes.end implies #[trigger] r.tree.attribute_name(
                        x,
                    ) != #[trigger] r.tree.attribute_name(y) by {
                        assert(self.tree.attribute_name(x) != self.tree.attribute_name(y));
                    }
                }
            }
            r.tree.lemma_attributes_frame(self.tree);
        }
    }

    /// A close tag keeps what holds of the state.
    pub proof fn lemma_close_element_inv(self, prefix: Span, local: Span, range: Span)
        requires
            self.inv(),
        ensures
            self.close_element(prefix, local, range) matches Ok(m) ==> m.inv(),
    {
        reveal(Build::safe);
        reveal(Build::close_element);
        self.lemma_close_element_safe(prefix, local, range);
        if self.close_element(prefix, local, range) is Ok {
            let m = self.close_element(prefix, local, range)->Ok_0;
            self.lemma_closed_structure(m.tree.nodes);
            let shaped = Build {
                tree: Tree { nodes: m.tree.nodes, ..self.tree },
                awaiting_subtree: self.awaiting_subtree.push(self.parent_id),
                parent_id: self.tree.nodes[self.parent_id.0 as int].parent->0,
                ..self
            };
            m.lemma_structure_frame(shaped);
            assert forall|i: int| 0 <= i < m.tree.nodes.len() implies (i < self.tree.nodes.len() && (
            #[trigger] m.tree.visible(i)) == self.tree.visible(i)) by {}
            m.lemma_bindings_frame(self);
            assert forall|i: int| 0 <= i < m.tree.nodes.len() implies (i < self.tree.nodes.len() && (
            #[trigger] m.tree.attributes_of(i)) == self.tree.attributes_of(i) && self.tree.kind_wf(
                self.tree.nodes[i].kind,
            )) by {}
            m.tree.lemma_attributes_frame(self.tree);
        }
    }

    /// The end of a tag keeps what holds of the state.
    pub proof fn lemma_process_element_inv(self, end: SpanEnd, range: Span)
        requires
            self.inv(),
            match end {
                SpanEnd::Close(prefix, local) => prefix.wf(self.tree.text) && local.wf(
                    self.tree.text,
                ),
                _ => true,
            },
        ensures
            self.process_element(end, range) matches Ok(m) ==> m.inv(),
    {
        reveal(Build::safe);
        reveal(Build::process_element);
        self.lemma_resolve_namespaces_inv();
        self.lemma_resolve_namespaces_safe();
        if self.resolve_namespaces() is Ok {
            let ns = self.resolve_namespaces()->Ok_0;
            let started = Build {
                namespace_start_idx: ns.0.tree.tree_order.len() as usize,
                ..ns.0
            };
            ns.0.lemma_visible_within();
            started.lemma_tree_order_safe(ns.0);
            started.lemma_structure_frame(ns.0);
            assert(ns.0.tree.tree_order.len() <= usize::MAX) by {
                reveal(Build::resolve_namespaces);
            }
            assert(started.namespace_start_idx == ns.0.tree.tree_order.len());
            assert(started.bindings()) by {
                assert(ns.0.bindings());
                assert(started.tree == ns.0.tree);
            }
            started.lemma_resolve_attributes_safe(ns.1);
            started.lemma_resolve_attributes_unique(ns.1);
            if started.resolve_attributes(ns.1) is Ok {
                let attrs = started.resolve_attributes(ns.1)->Ok_0;
                let m = attrs.0;
                m.lemma_structure_frame(started);
                assert forall|i: int| 0 <= i < m.tree.nodes.len() implies (i
                    < started.tree.nodes.len() && (#[trigger] m.tree.visible(i))
                    == started.tree.visible(i)) by {}
                m.lemma_bindings_frame(started);
                started.tree.lemma_prefixes_unique_frame(m.tree, ns.1.start as int, ns.1.end as int);
                match end {
                    SpanEnd::Empty => {
                        m.lemma_append_element_inv(attrs.1, ns.1, range.end, true);
                    },
                    SpanEnd::Close(prefix, local) => {
                        m.lemma_close_element_inv(prefix, local, range);
                    },
                    SpanEnd::Open => {
                        m.lemma_append_element_inv(attrs.1, ns.1, range.end, false);
                    },
                }
            }
        }
    }

    /// The end of a tag, which ends the run of text, keeps what holds of the state.
    pub proof fn lemma_end_element_inv(self, end: SpanEnd, range: Span)
        requires
            self.inv(),
            match end {
                SpanEnd::Close(prefix, local) => prefix.wf(self.tree.text) && local.wf(
                    self.tree.text,
                ),
                _ => true,
            },
        ensures
            self.end_element(end, range) matches Ok(m) ==> m.inv(),
    {
        reveal(Build::end_element);
        self.lemma_reset_after_text_inv();
        self.lemma_reset_after_text_safe();
        self.reset_after_text().lemma_process_element_inv(end, range);
    }
}

impl Build {
    /// A state that differs from a state in its count of references, in the
    /// start tag that is being read, in its entities and in the attributes
    /// of the start tag at most, and is safe, keeps what holds of it.
    pub proof fn lemma_same_tree_inv(self, old: Build)
        requires
            old.inv(),
            self.safe(),
            self == (Build {
                references: self.references,
                tag_name: self.tag_name,
                entities: self.entities,
                current_attributes: self.current_attributes,
                ..old
            }),
        ensures
            self.inv(),
    {
        self.lemma_same_shape(old);
    }

    /// The stored value of an attribute keeps what holds of the state.
    pub proof fn lemma_attribute_value_inv(self, value: Span, depth: nat)
        requires
            self.inv(),
            value.wf(self.tree.text),
            self.attribute_value(value, depth) matches Ok((m, stored)) ==> m.safe(),
            self.attribute_value(value, depth) matches Ok((m, Stored::Owned(_))) ==> valid_utf8(
                m.tree.strings.last(),
            ),
        ensures
            self.attribute_value(value, depth) matches Ok((m, stored)) ==> m.inv(),
    {
        reveal(Build::attribute_value);
        match self.attribute_value(value, depth) {
            Ok((m, Stored::Owned(_))) => {
                self.lemma_push_string_inv(m.tree.strings.last());
                let pushed = self.with_tree(
                    Tree { strings: self.tree.strings.push(m.tree.strings.last()), ..self.tree },
                );
                assert(m == Build { references: m.references, ..pushed });
                m.lemma_same_tree_inv(pushed);
            },
            Ok((m, Stored::Input(_))) => {
                assert(m == self);
            },
            _ => {},
        }
    }

    /// An attribute of a start tag keeps what holds of the state.
    pub proof fn lemma_process_attribute_inv(
        self,
        range: Span,
        qname_len: u16,
        eq_len: u8,
        prefix: Span,
        local: Span,
        value: Span,
        depth: nat,
    )
        requires
            self.inv(),
            range.wf(self.tree.text),
            prefix.wf(self.tree.text),
            local.wf(self.tree.text),
            value.wf(self.tree.text),
            self.attribute_value(value, depth) matches Ok((m, stored)) ==> m.inv()
                && m.tree.stored_wf(stored) && m.tree.text == self.tree.text,
            self.process_attribute(range, qname_len, eq_len, prefix, local, value, depth) matches Ok(
                r,
            ) ==> r.safe(),
        ensures
            self.process_attribute(range, qname_len, eq_len, prefix, local, value, depth) matches Ok(
                r,
            ) ==> r.inv(),
    {
        reveal(Build::process_attribute);
        let normalized = self.attribute_value(value, depth);
        if normalized is Ok {
            let m = normalized->Ok_0.0;
            let stored = normalized->Ok_0.1;
            if self.process_attribute(range, qname_len, eq_len, prefix, local, value, depth) is Ok {
                let r = self.process_attribute(
                    range,
                    qname_len,
                    eq_len,
                    prefix,
                    local,
                    value,
                    depth,
                )->Ok_0;
                let b = self.text();
                let uri = m.tree.stored(stored);
                if prefix.of(b) == "xmlns".spec_bytes() {
                    if uri != xml_uri() {
                        m.lemma_push_ns_inv(Some(Stored::Input(local)), stored);
                    }
                } else if local.of(b) == "xmlns".spec_bytes() {
                    m.lemma_push_ns_inv(None, stored);
                } else {
                    r.lemma_same_tree_inv(m);
                }
            }
        }
    }

    /// The declaration of an entity keeps what holds of the state.
    pub proof fn lemma_declare_entity_inv(self, name: Span, value: Span)
        requires
            self.inv(),
            (Build { entities: self.entities.push(Entity { name, value }), ..self }).safe(),
        ensures
            (Build { entities: self.entities.push(Entity { name, value }), ..self }).inv(),
    {
        (Build { entities: self.entities.push(Entity { name, value }), ..self }).lemma_same_tree_inv(
            self,
        );
    }
}

/// The state before the first token has what holds of every state.
pub proof fn lemma_initial_inv(b: Seq<u8>, nodes_limit: u32)
    requires
        valid_utf8(b),
        b.len() <= usize::MAX,
    ensures
        initial(b, nodes_limit).inv(),
{
    reveal(Build::safe);
    let m = initial(b, nodes_limit);
    let t = m.tree;
    crate::strings::lemma_start_boundary(b);
    encode_utf8_valid_utf8("xml"@);
    encode_utf8_valid_utf8("http://www.w3.org/XML/1998/namespace"@);
    assert(t.nodes[0].kind is Root);
    assert(t.kind_wf(t.nodes[0].kind));
    assert(t.links_wf(0));
    assert(t.is_ancestor_or_self(0, 0));
    assert(t.visible(0) == ShortRange { start: 0, end: 0 });
    assert forall|k: int| 0 <= k < t.strings.len() implies valid_utf8(#[trigger] t.strings[k]) by {
        if k == 0 {
            assert(t.strings[0] == "xml".spec_bytes());
        } else {
            assert(t.strings[1] == xml_uri());
        }
    }
    assert(m.safe());
    assert(m.structure());
    assert(m.bindings());
}

impl Build {
    /// The tree of a state with no element that is open, and with an element
    /// among the children of the root, is well-formed.
    pub proof fn lemma_built_wf(self)
        requires
            self.inv(),
            self.tree.first_element(self.tree.children(0), 0) is Some,
        ensures
            self.tree.wf(),
    {
        reveal(Build::safe);
        self.lemma_bindings_wf();
    }
}

} // verus!
