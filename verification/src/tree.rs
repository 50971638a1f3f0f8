//! The document as an arena of nodes: the data of the tree, its mathematical
//! model and the conditions under which a tree is well-formed.

use crate::stream::Span;
use vstd::prelude::*;
use vstd::string::*;
use vstd::utf8::*;

verus! {

/// The <http://www.w3.org/XML/1998/namespace> URI.
pub const NS_XML_URI: &'static str = "http://www.w3.org/XML/1998/namespace";

/// The <http://www.w3.org/2000/xmlns/> URI.
pub const NS_XMLNS_URI: &'static str = "http://www.w3.org/2000/xmlns/";

/// A node ID stored as `u32`.
///
/// An index into the arena of nodes of a document.
///
/// Note that this value should be used with care since nothing checks that a
/// `NodeId` actually belongs to a selected `Document`.
#[derive(Clone, Copy, PartialEq, Eq, Hash, Debug, Structural)]
pub struct NodeId(pub u32);

impl NodeId {
    /// Construct a new `NodeId` from a `u32`.
    #[inline]
    pub fn new(id: u32) -> (r: Self)
        ensures
            r == NodeId(id),
    {
        NodeId(id)
    }

    /// Returns the `u32` representation of the `NodeId`.
    #[inline]
    pub fn get(self) -> (r: u32)
        ensures
            r == self.0,
    {
        self.0
    }

    /// Returns the `usize` representation of the `NodeId`.
    #[inline]
    pub fn get_usize(self) -> (r: usize)
        ensures
            r == self.0,
    {
        self.0 as usize
    }
}

impl From<u32> for NodeId {
    #[inline]
    fn from(id: u32) -> (r: Self) {
        NodeId::new(id)
    }
}

impl vstd::std_specs::convert::FromSpecImpl<u32> for NodeId {
    open spec fn obeys_from_spec() -> bool {
        true
    }

    open spec fn from_spec(id: u32) -> Self {
        NodeId(id)
    }
}

/// A list of supported node types.
#[derive(Clone, Copy, PartialEq, Eq, Debug, Structural)]
pub enum NodeType {
    /// The root node of the `Document`.
    Root,
    /// An element node.
    ///
    /// Only an element can have a tag name and attributes.
    Element,
    /// A processing instruction.
    PI,
    /// A comment node.
    Comment,
    /// A text node.
    Text,
}

/// A short range.
///
/// Just like Range, but only for `u32` and copyable.
#[derive(Clone, Copy, PartialEq, Eq, Debug, Structural)]
pub struct ShortRange {
    pub start: u32,
    pub end: u32,
}

impl ShortRange {
    #[inline]
    pub fn new(start: u32, end: u32) -> (r: Self)
        ensures
            r == (ShortRange { start, end }),
    {
        ShortRange { start, end }
    }

    #[inline]
    pub fn to_urange(self) -> (r: core::ops::Range<usize>)
        ensures
            r.start == self.start,
            r.end == self.end,
    {
        (self.start as usize)..(self.end as usize)
    }

    /// The range lies within `len` items.
    pub open spec fn within(self, len: int) -> bool {
        self.start <= self.end <= len
    }
}

/// The index of a namespace in the table of the document.
#[derive(Clone, Copy, PartialEq, Eq, Debug, Structural)]
pub struct NamespaceIdx(pub u16);

/// Where a text of the tree is kept.
#[derive(Clone, Copy, PartialEq, Eq, Debug, Structural)]
pub enum Stored {
    /// A span of the input text.
    Input(Span),
    /// One of the strings that the document owns, by its index.
    Owned(usize),
}

/// A name with the index of its namespace.
#[derive(Clone, Copy, PartialEq, Eq, Debug, Structural)]
pub struct ExpandedNameIndexed {
    pub namespace_idx: Option<NamespaceIdx>,
    pub local_name: Span,
}

/// What a node is, and what it holds.
#[derive(Clone, Copy, PartialEq, Eq, Debug, Structural)]
pub enum NodeKind {
    Root,
    Element { tag_name: ExpandedNameIndexed, attributes: ShortRange, namespaces: ShortRange },
    PI { target: Span, value: Option<Span> },
    Comment(Span),
    Text(Stored),
}

/// A node of the arena, with its links to other nodes.
#[derive(Clone, Copy, PartialEq, Eq, Debug, Structural)]
pub struct NodeData {
    pub parent: Option<NodeId>,
    pub prev_sibling: Option<NodeId>,
    /// The first node behind the subtree of this node, if there is one.
    pub next_subtree: Option<NodeId>,
    pub last_child: Option<NodeId>,
    pub kind: NodeKind,
    /// The bytes of the input that the node was read from.
    pub range: Span,
}

/// An attribute of the arena.
#[derive(Clone, Copy, PartialEq, Eq, Debug, Structural)]
pub struct AttributeData {
    pub name: ExpandedNameIndexed,
    pub value: Stored,
    /// The bytes of the input that the attribute was read from.
    pub range: Span,
    /// The length of the qualified name; the largest `u16` where it does not fit.
    pub qname_len: u16,
    /// The length of `=` and the spaces around it; the largest `u8` where it does not fit.
    pub eq_len: u8,
}

/// A binding of a prefix to a namespace. No prefix stands for the default namespace.
#[derive(Clone, Copy, PartialEq, Eq, Debug, Structural)]
pub struct NamespaceData {
    pub name: Option<Stored>,
    pub uri: Stored,
}

/// The mathematical model of a document: the bytes of its text, its arenas
/// of nodes and attributes, its table of namespaces, the indices into that
/// table in the order of the tree, and the bytes of the strings it owns.
pub struct Tree {
    pub text: Seq<u8>,
    pub nodes: Seq<NodeData>,
    pub attributes: Seq<AttributeData>,
    pub namespaces: Seq<NamespaceData>,
    pub tree_order: Seq<NamespaceIdx>,
    pub strings: Seq<Seq<u8>>,
}

/// A step of a traversal, by the index of its node: the node is entered,
/// or it is left after its descendants.
pub enum EdgeModel {
    Open(int),
    Close(int),
}

impl EdgeModel {
    /// The index of the node of the step.
    pub open spec fn node(self) -> int {
        match self {
            EdgeModel::Open(i) => i,
            EdgeModel::Close(i) => i,
        }
    }
}

impl Tree {
    /// The bytes of a stored text.
    pub open spec fn stored(self, s: Stored) -> Seq<u8> {
        match s {
            Stored::Input(span) => span.of(self.text),
            Stored::Owned(i) => self.strings[i as int],
        }
    }

    /// A stored text refers to bytes that are there.
    pub open spec fn stored_wf(self, s: Stored) -> bool {
        match s {
            Stored::Input(span) => span.wf(self.text),
            Stored::Owned(i) => i < self.strings.len(),
        }
    }

    /// The binding at the index `k` of the tree order.
    pub open spec fn binding(self, k: int) -> NamespaceData {
        self.namespaces[self.tree_order[k].0 as int]
    }

    /// The prefix of a binding, as bytes.
    pub open spec fn binding_name(self, k: int) -> Option<Seq<u8>> {
        match self.binding(k).name {
            Some(n) => Some(self.stored(n)),
            None => None,
        }
    }

    /// The namespace name of a binding, as bytes.
    pub open spec fn binding_uri(self, k: int) -> Seq<u8> {
        self.stored(self.binding(k).uri)
    }

    /// The prefix of the entry `k` of the table of namespaces, as bytes.
    pub open spec fn entry_name(self, k: int) -> Option<Seq<u8>> {
        match self.namespaces[k].name {
            Some(n) => Some(self.stored(n)),
            None => None,
        }
    }

    /// The namespace name of the entry `k` of the table of namespaces, as bytes.
    pub open spec fn entry_uri(self, k: int) -> Seq<u8> {
        self.stored(self.namespaces[k].uri)
    }

    /// The table of namespaces holds no pair of a prefix and a namespace
    /// name twice.
    pub open spec fn entries_distinct(self) -> bool {
        forall|k: int, l: int|
            0 <= k < l < self.namespaces.len() && #[trigger] self.entry_uri(k)
                == #[trigger] self.entry_uri(l) ==> self.entry_name(k) != self.entry_name(l)
    }

    /// The index of the parent of the node `i`; 0 for the root.
    pub open spec fn parent(self, i: int) -> int {
        match self.nodes[i].parent {
            Some(p) => p.0 as int,
            None => 0,
        }
    }

    /// The index of the first node behind the subtree of the node `i`; the
    /// number of nodes where the subtree is the last of the arena.
    pub open spec fn subtree_end(self, i: int) -> int {
        match self.nodes[i].next_subtree {
            Some(t) => t.0 as int,
            None => self.nodes.len() as int,
        }
    }

    /// `j` is the node `a` or one of its descendants, by the parent links.
    pub open spec fn is_ancestor_or_self(self, a: int, j: int) -> bool
        decreases j,
    {
        if j == a {
            true
        } else if a < j && 0 < j < self.nodes.len() {
            match self.nodes[j].parent {
                Some(p) => p.0 < j && self.is_ancestor_or_self(a, p.0 as int),
                None => false,
            }
        } else {
            false
        }
    }

    /// The range of bindings that are visible at the node `i`; empty for a
    /// node that is no element.
    pub open spec fn visible(self, i: int) -> ShortRange {
        match self.nodes[i].kind {
            NodeKind::Element { namespaces, .. } => namespaces,
            _ => ShortRange { start: 0, end: 0 },
        }
    }

    /// The range of attributes of the node `i`; empty for a node that is no element.
    pub open spec fn attributes_of(self, i: int) -> ShortRange {
        match self.nodes[i].kind {
            NodeKind::Element { attributes, .. } => attributes,
            _ => ShortRange { start: 0, end: 0 },
        }
    }

    /// A name refers to a namespace and to bytes that are there.
    pub open spec fn name_wf(self, name: ExpandedNameIndexed) -> bool {
        &&& name.local_name.wf(self.text)
        &&& match name.namespace_idx {
            Some(idx) => idx.0 < self.namespaces.len(),
            None => true,
        }
    }

    /// What a node holds refers to what is there.
    pub open spec fn kind_wf(self, kind: NodeKind) -> bool {
        match kind {
            NodeKind::Root => true,
            NodeKind::Element { tag_name, attributes, namespaces } => {
                &&& self.name_wf(tag_name)
                &&& attributes.within(self.attributes.len() as int)
                &&& namespaces.within(self.tree_order.len() as int)
            },
            NodeKind::PI { target, value } => {
                &&& target.wf(self.text)
                &&& match value {
                    Some(v) => v.wf(self.text),
                    None => true,
                }
            },
            NodeKind::Comment(text) => text.wf(self.text),
            NodeKind::Text(text) => self.stored_wf(text),
        }
    }

    /// The links of the node `i` point where they may: the parent and the
    /// previous sibling before the node, the last child and the next subtree
    /// behind it, and the node that starts the next subtree has a previous sibling.
    pub open spec fn links_wf(self, i: int) -> bool {
        let n = self.nodes[i];
        &&& match n.parent {
            Some(p) => p.0 < i,
            None => i == 0,
        }
        &&& (n.kind is Root <==> i == 0)
        &&& match n.prev_sibling {
            Some(s) => s.0 < i,
            None => true,
        }
        &&& match n.next_subtree {
            Some(t) => i < t.0 < self.nodes.len() && self.nodes[t.0 as int].prev_sibling is Some,
            None => true,
        }
        &&& match n.last_child {
            Some(c) => i < c.0 < self.nodes.len(),
            None => true,
        }
    }

    /// The expanded name of the attribute `k`: its namespace name, if it
    /// has one, and its local name.
    pub open spec fn attribute_name(self, k: int) -> (Option<Seq<u8>>, Seq<u8>) {
        (self.uri_of(self.attributes[k].name), self.attributes[k].name.local_name.of(self.text))
    }

    /// Among the attributes in `[start, end)` no expanded name occurs twice.
    pub open spec fn names_unique(self, start: int, end: int) -> bool {
        forall|k: int, l: int|
            start <= k < l < end ==> #[trigger] self.attribute_name(k)
                != #[trigger] self.attribute_name(l)
    }

    /// No element has two attributes with one expanded name.
    pub open spec fn attributes_wf(self) -> bool {
        forall|i: int|
            0 <= i < self.nodes.len() ==> self.names_unique(
                (#[trigger] self.attributes_of(i)).start as int,
                self.attributes_of(i).end as int,
            )
    }

    /// The links of the node `i` agree with the links of its relatives: its
    /// last child is a child of it whose subtree ends where its own ends;
    /// its previous sibling has the same parent and a subtree that ends at
    /// the node; a node without a previous sibling stands right behind its
    /// parent; the parent of a node has a last child; and a node with
    /// children is the root or an element.
    pub open spec fn family_wf(self, i: int) -> bool {
        let n = self.nodes[i];
        &&& (n.last_child is Some ==> n.kind is Root || n.kind is Element)
        &&& match n.last_child {
            Some(c) => self.nodes[c.0 as int].parent == Some(NodeId(i as u32)) && self.subtree_end(
                c.0 as int,
            ) == self.subtree_end(i),
            None => true,
        }
        &&& match n.prev_sibling {
            Some(s) => self.nodes[s.0 as int].parent == n.parent && self.subtree_end(s.0 as int)
                == i,
            None => i == 0 || self.parent(i) == i - 1,
        }
        &&& (i > 0 ==> self.nodes[self.parent(i)].last_child is Some)
    }

    /// The links of every node agree with the links of its relatives.
    pub open spec fn families_wf(self) -> bool {
        forall|i: int| 0 <= i < self.nodes.len() ==> #[trigger] self.family_wf(i)
    }

    /// The arenas refer to what is there.
    pub open spec fn data_wf(self) -> bool {
        &&& forall|i: int| 0 <= i < self.nodes.len() ==> self.kind_wf(#[trigger] self.nodes[i].kind)
        &&& forall|k: int|
            0 <= k < self.attributes.len() ==> self.name_wf((#[trigger] self.attributes[k]).name)
                && self.stored_wf(self.attributes[k].value)
        &&& forall|k: int|
            0 <= k < self.tree_order.len() ==> (#[trigger] self.tree_order[k]).0
                < self.namespaces.len()
        &&& forall|k: int|
            0 <= k < self.namespaces.len() ==> self.stored_wf((#[trigger] self.namespaces[k]).uri)
                && match self.namespaces[k].name {
                Some(n) => self.stored_wf(n),
                None => true,
            }
        &&& forall|k: int| 0 <= k < self.strings.len() ==> valid_utf8(#[trigger] self.strings[k])
    }

    /// The subtree of every node is the range of indices from the node up to
    /// the start of the next subtree.
    pub open spec fn subtrees_wf(self) -> bool {
        forall|i: int, j: int|
            0 <= i < self.nodes.len() && 0 <= j < self.nodes.len() ==> (
            #[trigger] self.is_ancestor_or_self(i, j) <==> i <= j < self.subtree_end(i))
    }

    /// The table of namespaces holds no pair twice; at every element no
    /// prefix is bound twice, and no prefix is bound to the namespace of `xml`.
    pub open spec fn bindings_wf(self) -> bool {
        &&& self.entries_distinct()
        &&& forall|i: int|
            0 <= i < self.nodes.len() ==> self.bindings_wf_in(#[trigger] self.visible(i))
    }

    /// In a range of bindings no prefix is bound twice, and no prefix is
    /// bound to the namespace of `xml`.
    pub open spec fn bindings_wf_in(self, range: ShortRange) -> bool {
        &&& self.prefixes_unique(range.start as int, range.end as int)
        &&& forall|k: int|
            range.start <= k < range.end ==> #[trigger] self.binding_uri(k)
                != crate::tree::xml_uri()
    }

    /// No prefix is bound twice in `[start, end)` of the tree order, and
    /// the default namespace is bound once at most: a binding has no
    /// binding of the same prefix, or of no prefix as itself, behind it.
    pub open spec fn prefixes_unique(self, start: int, end: int) -> bool {
        forall|k: int, l: int|
            start <= k < l < end ==> #[trigger] self.binding_name(
                k,
            ) != #[trigger] self.binding_name(l)
    }

    /// The node `i` is an element.
    pub open spec fn is_element(self, i: int) -> bool {
        self.nodes[i].kind is Element
    }

    /// The sibling behind the node `i`: the node that starts the next
    /// subtree, if this node is its previous sibling.
    pub open spec fn next_sibling(self, i: int) -> Option<int> {
        match self.nodes[i].next_subtree {
            Some(t) => if i < t.0 < self.nodes.len() && self.nodes[t.0 as int].prev_sibling
                == Some(NodeId(i as u32)) {
                Some(t.0 as int)
            } else {
                None
            },
            None => None,
        }
    }

    /// The first child of the node `i`: the node behind it, if the node has children.
    pub open spec fn first_child(self, i: int) -> Option<int> {
        match self.nodes[i].last_child {
            Some(_) => Some(i + 1),
            None => None,
        }
    }

    /// The step of a traversal of the subtree of `root` that comes behind
    /// the step `edge`. The traversal starts by entering `root`. A node
    /// that is entered is followed by its first child, or left at once
    /// where it has none; a node that is left is followed by its next
    /// sibling, or by leaving its parent where it has none. The traversal
    /// ends when `root` is left.
    pub open spec fn next_edge(self, root: int, edge: Option<EdgeModel>) -> Option<EdgeModel> {
        match edge {
            None => Some(EdgeModel::Open(root)),
            Some(EdgeModel::Open(i)) => match self.first_child(i) {
                Some(c) => Some(EdgeModel::Open(c)),
                None => Some(EdgeModel::Close(i)),
            },
            Some(EdgeModel::Close(i)) => if i == root {
                None
            } else {
                match self.next_sibling(i) {
                    Some(s) => Some(EdgeModel::Open(s)),
                    None => match self.nodes[i].parent {
                        Some(p) => Some(EdgeModel::Close(p.0 as int)),
                        None => None,
                    },
                }
            },
        }
    }

    /// The number of ancestors of the node `i`.
    pub open spec fn depth(self, i: int) -> nat
        decreases i,
    {
        if 0 < i < self.nodes.len() {
            match self.nodes[i].parent {
                Some(p) => if p.0 < i {
                    self.depth(p.0 as int) + 1
                } else {
                    0
                },
                None => 0,
            }
        } else {
            0
        }
    }

    /// The number of steps that a traversal of the subtree of `root` takes
    /// before the step `e`: a step for each node that was entered, and
    /// one for each of them that was left.
    pub open spec fn edge_rank(self, root: int, e: EdgeModel) -> int {
        match e {
            EdgeModel::Open(i) => 2 * (i - root) - (self.depth(i) - self.depth(root)),
            EdgeModel::Close(i) => 2 * (self.subtree_end(i) - root) - (self.depth(i) - self.depth(
                root,
            )) - 1,
        }
    }

    /// The step that a traversal of the subtree of `root` takes after `n`
    /// steps.
    pub open spec fn edge_at(self, root: int, n: nat) -> Option<EdgeModel>
        decreases n,
    {
        if n == 0 {
            Some(EdgeModel::Open(root))
        } else {
            match self.edge_at(root, (n - 1) as nat) {
                Some(e) => self.next_edge(root, Some(e)),
                None => None,
            }
        }
    }

    /// The children from `front` to `back`, in the order of the document:
    /// `front`, and the siblings behind it up to `back`.
    pub open spec fn children_between(self, front: Option<int>, back: Option<int>) -> Seq<int>
        decreases
            (match front {
                Some(f) => if self.nodes.len() > f {
                    self.nodes.len() - f
                } else {
                    0
                },
                None => 0,
            }),
    {
        match front {
            None => Seq::empty(),
            Some(f) => if front == back || !(0 <= f < self.nodes.len()) {
                seq![f]
            } else {
                seq![f] + self.children_between(self.next_sibling(f), back)
            },
        }
    }

    /// The children of the node `i`, in the order of the document.
    pub open spec fn children(self, i: int) -> Seq<int> {
        self.children_between(
            self.first_child(i),
            match self.nodes[i].last_child {
                Some(c) => Some(c.0 as int),
                None => None,
            },
        )
    }

    /// The first element among the nodes `s`, from the index `k` on.
    pub open spec fn first_element(self, s: Seq<int>, k: int) -> Option<int>
        decreases s.len() - k,
    {
        if k < 0 || k >= s.len() {
            None
        } else if self.is_element(s[k]) {
            Some(s[k])
        } else {
            self.first_element(s, k + 1)
        }
    }

    /// The tree is well-formed: a root at the index 0 with an element among
    /// its children, links and data that refer to what is there, subtrees
    /// that are ranges of the arena, links that agree among relatives,
    /// bindings that bind no prefix twice, and attributes with expanded
    /// names of their own at every element.
    pub open spec fn wf(self) -> bool {
        &&& 1 <= self.nodes.len() <= u32::MAX
        &&& valid_utf8(self.text)
        &&& forall|i: int| 0 <= i < self.nodes.len() ==> #[trigger] self.links_wf(i)
        &&& self.data_wf()
        &&& self.subtrees_wf()
        &&& self.families_wf()
        &&& self.bindings_wf()
        &&& self.attributes_wf()
        &&& self.first_element(self.children(0), 0) is Some
    }
}

/// The bytes of the namespace name that the prefix `xml` is bound to.
pub open spec fn xml_uri() -> Seq<u8> {
    "http://www.w3.org/XML/1998/namespace".spec_bytes()
}

/// The bytes of the namespace name that the prefix `xmlns` is bound to.
pub open spec fn xmlns_uri() -> Seq<u8> {
    "http://www.w3.org/2000/xmlns/".spec_bytes()
}

impl Tree {
    /// The first element of a sequence behind its first node is the first
    /// element of the rest.
    pub proof fn lemma_first_element_shift(self, c: int, rest: Seq<int>, k: int)
        requires
            0 <= k,
        ensures
            self.first_element(seq![c] + rest, k + 1) == self.first_element(rest, k),
        decreases rest.len() - k,
    {
        let s = seq![c] + rest;
        if k < rest.len() {
            assert(s[k + 1] == rest[k]);
            if !self.is_element(rest[k]) {
                self.lemma_first_element_shift(c, rest, k + 1);
            }
        }
    }

    /// The first element of a sequence is its first node, if that is an
    /// element, else the first element of the rest.
    pub proof fn lemma_first_element_head(self, c: int, rest: Seq<int>)
        ensures
            self.first_element(seq![c] + rest, 0) == if self.is_element(c) {
                Some(c)
            } else {
                self.first_element(rest, 0)
            },
    {
        let s = seq![c] + rest;
        assert(s[0] == c);
        self.lemma_first_element_shift(c, rest, 0);
    }
}

/// The sibling behind the node `i`.
pub(crate) fn next_sibling_index(nodes: &Vec<NodeData>, i: usize, Ghost(t): Ghost<Tree>) -> (r: Option<
    usize,
>)
    requires
        t.nodes == nodes@,
        i < nodes@.len(),
        nodes@.len() <= u32::MAX,
        t.links_wf(i as int),
    ensures
        match r {
            Some(x) => t.next_sibling(i as int) == Some(x as int) && i < x < nodes@.len(),
            None => t.next_sibling(i as int) is None,
        },
{
    match nodes[i].next_subtree {
        Some(next) => {
            let possibly_self = nodes[next.get_usize()].prev_sibling;
            match possibly_self {
                Some(s) => if s.get_usize() == i {
                    Some(next.get_usize())
                } else {
                    None
                },
                None => None,
            }
        },
        None => None,
    }
}

/// The first element among the children of the node `i`.
pub(crate) fn first_element_child_index(nodes: &Vec<NodeData>, i: usize, Ghost(t): Ghost<Tree>) -> (r:
    Option<usize>)
    requires
        t.nodes == nodes@,
        i < nodes@.len(),
        nodes@.len() <= u32::MAX,
        forall|k: int| 0 <= k < nodes@.len() ==> #[trigger] t.links_wf(k),
    ensures
        match r {
            Some(x) => t.first_element(t.children(i as int), 0) == Some(x as int) && x
                < nodes@.len() && t.is_element(x as int),
            None => t.first_element(t.children(i as int), 0) is None,
        },
{
    let back = match nodes[i].last_child {
        Some(c) => c.get_usize(),
        None => {
            return None;
        },
    };
    proof {
        assert(t.links_wf(i as int));
    }
    let mut cur: usize = i + 1;
    loop
        invariant
            t.nodes == nodes@,
            nodes@.len() <= u32::MAX,
            forall|k: int| 0 <= k < nodes@.len() ==> #[trigger] t.links_wf(k),
            cur < nodes@.len(),
            back < nodes@.len(),
            t.first_element(t.children(i as int), 0) == t.first_element(
                t.children_between(Some(cur as int), Some(back as int)),
                0,
            ),
        decreases nodes@.len() - cur,
    {
        proof {
            assert(t.links_wf(cur as int));
            let rest = t.children_between(t.next_sibling(cur as int), Some(back as int));
            if cur == back {
                t.lemma_first_element_head(cur as int, Seq::empty());
                assert(seq![cur as int] + Seq::<int>::empty() =~= seq![cur as int]);
            } else {
                t.lemma_first_element_head(cur as int, rest);
            }
        }
        if let NodeKind::Element { .. } = nodes[cur].kind {
            return Some(cur);
        }
        if cur == back {
            return None;
        }
        match next_sibling_index(nodes, cur, Ghost(t)) {
            Some(next) => {
                cur = next;
            },
            None => {
                return None;
            },
        }
    }
}

impl Tree {
    /// The type of the node `i`.
    pub open spec fn node_type(self, i: int) -> NodeType {
        match self.nodes[i].kind {
            NodeKind::Root => NodeType::Root,
            NodeKind::Element { .. } => NodeType::Element,
            NodeKind::PI { .. } => NodeType::PI,
            NodeKind::Comment(_) => NodeType::Comment,
            NodeKind::Text(_) => NodeType::Text,
        }
    }

    /// The namespace name of a name, as bytes; `None` for a name in no namespace.
    pub open spec fn uri_of(self, name: ExpandedNameIndexed) -> Option<Seq<u8>> {
        match name.namespace_idx {
            Some(idx) => Some(self.stored(self.namespaces[idx.0 as int].uri)),
            None => None,
        }
    }

    /// The local name of the element `i`; empty for a node that is no element.
    pub open spec fn tag_local(self, i: int) -> Seq<u8> {
        match self.nodes[i].kind {
            NodeKind::Element { tag_name, .. } => tag_name.local_name.of(self.text),
            _ => Seq::empty(),
        }
    }

    /// The namespace name of the element `i`; `None` for an element in no
    /// namespace and for a node that is no element.
    pub open spec fn tag_uri(self, i: int) -> Option<Seq<u8>> {
        match self.nodes[i].kind {
            NodeKind::Element { tag_name, .. } => self.uri_of(tag_name),
            _ => None,
        }
    }

    /// The node `i` is an element with the given local name and, where a
    /// namespace is given, in that namespace. A name without a namespace
    /// stands for the local name in any namespace.
    pub open spec fn has_name(self, i: int, uri: Option<Seq<u8>>, local: Seq<u8>) -> bool {
        self.is_element(i) && self.tag_local(i) == local && (uri is Some ==> self.tag_uri(i) == uri)
    }

    /// Where the text of the node `i` is kept: the text of a text node or
    /// of a comment, and for an element the text of its first child, if
    /// that is a text node.
    pub open spec fn text_storage(self, i: int) -> Option<Stored> {
        match self.nodes[i].kind {
            NodeKind::Element { .. } => match self.first_child(i) {
                Some(c) => match self.nodes[c].kind {
                    NodeKind::Text(text) => Some(text),
                    _ => None,
                },
                None => None,
            },
            NodeKind::Comment(text) => Some(Stored::Input(text)),
            NodeKind::Text(text) => Some(text),
            _ => None,
        }
    }

    /// Where the tail of the element `i` is kept: the text of the sibling
    /// behind it, if that is a text node.
    pub open spec fn tail_storage(self, i: int) -> Option<Stored> {
        if !self.is_element(i) {
            None
        } else {
            match self.next_sibling(i) {
                Some(n) => match self.nodes[n].kind {
                    NodeKind::Text(text) => Some(text),
                    _ => None,
                },
                None => None,
            }
        }
    }

    /// The first index in `[k, end)` of the tree order at which the prefix `name` is bound.
    pub open spec fn find_prefix(self, name: Option<Seq<u8>>, k: int, end: int) -> Option<int>
        decreases end - k,
    {
        if k >= end {
            None
        } else if self.binding_name(k) == name {
            Some(k)
        } else {
            self.find_prefix(name, k + 1, end)
        }
    }

    /// The first index in `[k, end)` of the tree order at which a prefix is
    /// bound to the namespace `uri`.
    pub open spec fn find_uri(self, uri: Seq<u8>, k: int, end: int) -> Option<int>
        decreases end - k,
    {
        if k >= end {
            None
        } else if self.binding_uri(k) == uri {
            Some(k)
        } else {
            self.find_uri(uri, k + 1, end)
        }
    }

    /// The namespace that `prefix` is bound to at the node `i`: that of the
    /// first binding of the prefix that the node sees.
    pub open spec fn lookup_namespace_uri(self, i: int, prefix: Option<Seq<u8>>) -> Option<Seq<u8>> {
        match self.find_prefix(prefix, self.visible(i).start as int, self.visible(i).end as int) {
            Some(k) => Some(self.binding_uri(k)),
            None => None,
        }
    }

    /// A prefix that is bound to the namespace `uri` at the node `i`: `xml`
    /// for the namespace of `xml`, else the prefix of the first binding to
    /// the namespace that the node sees. `None` says that there is no such
    /// binding, or that the binding is that of the default namespace.
    pub open spec fn lookup_prefix(self, i: int, uri: Seq<u8>) -> Option<Seq<u8>> {
        if uri == xml_uri() {
            Some("xml".spec_bytes())
        } else {
            match self.find_uri(uri, self.visible(i).start as int, self.visible(i).end as int) {
                Some(k) => self.binding_name(k),
                None => None,
            }
        }
    }

    /// The first index in `[k, end)` of the attributes with the given expanded name.
    pub open spec fn find_attribute(self, uri: Option<Seq<u8>>, local: Seq<u8>, k: int, end: int)
        -> Option<int>
        decreases end - k,
    {
        if k >= end {
            None
        } else if self.uri_of(self.attributes[k].name) == uri
            && self.attributes[k].name.local_name.of(self.text) == local {
            Some(k)
        } else {
            self.find_attribute(uri, local, k + 1, end)
        }
    }

    /// The attribute of the node `i` with the given expanded name.
    pub open spec fn attribute(self, i: int, uri: Option<Seq<u8>>, local: Seq<u8>) -> Option<int> {
        self.find_attribute(
            uri,
            local,
            self.attributes_of(i).start as int,
            self.attributes_of(i).end as int,
        )
    }
}

/// A way from a node to another, step by step.
#[derive(Clone, Copy, PartialEq, Eq, Debug, Structural)]
pub enum Axis {
    /// From a node to its parent.
    Ancestors,
    /// From a node to the sibling before it.
    PrevSiblings,
    /// From a node to the sibling behind it.
    NextSiblings,
    /// From a node to its first child.
    FirstChildren,
    /// From a node to its last child.
    LastChildren,
}

impl Tree {
    /// The node that one step along the axis leads to from the node `i`.
    pub open spec fn step(self, axis: Axis, i: int) -> Option<int> {
        match axis {
            Axis::Ancestors => match self.nodes[i].parent {
                Some(p) => if p.0 < i {
                    Some(p.0 as int)
                } else {
                    None
                },
                None => None,
            },
            Axis::PrevSiblings => match self.nodes[i].prev_sibling {
                Some(p) => if p.0 < i {
                    Some(p.0 as int)
                } else {
                    None
                },
                None => None,
            },
            Axis::NextSiblings => self.next_sibling(i),
            Axis::FirstChildren => match self.nodes[i].last_child {
                Some(_) => if i + 1 < self.nodes.len() {
                    Some(i + 1)
                } else {
                    None
                },
                None => None,
            },
            Axis::LastChildren => match self.nodes[i].last_child {
                Some(c) => if i < c.0 < self.nodes.len() {
                    Some(c.0 as int)
                } else {
                    None
                },
                None => None,
            },
        }
    }

    /// How many steps along the axis are left at most.
    pub open spec fn steps_left(self, axis: Axis, cur: Option<int>) -> int {
        match cur {
            None => 0,
            Some(i) => if !(0 <= i < self.nodes.len()) {
                0
            } else {
                match axis {
                    Axis::Ancestors => i + 1,
                    Axis::PrevSiblings => i + 1,
                    _ => self.nodes.len() - i,
                }
            },
        }
    }

    /// The first element along the axis, from the node `cur` on.
    pub open spec fn find_element(self, axis: Axis, cur: Option<int>) -> Option<int>
        decreases self.steps_left(axis, cur),
    {
        match cur {
            None => None,
            Some(i) => if !(0 <= i < self.nodes.len()) {
                None
            } else if self.is_element(i) {
                Some(i)
            } else {
                self.find_element(axis, self.step(axis, i))
            },
        }
    }

    /// The last element among the first `n` nodes of `s`.
    pub open spec fn last_element(self, s: Seq<int>, n: int) -> Option<int>
        decreases n,
    {
        if n <= 0 || n > s.len() {
            None
        } else if self.is_element(s[n - 1]) {
            Some(s[n - 1])
        } else {
            self.last_element(s, n - 1)
        }
    }

    /// The last element of a sequence is that of its rest, if there is one,
    /// else the first node, if that is an element.
    pub proof fn lemma_last_element_head(self, c: int, rest: Seq<int>, n: int)
        requires
            0 <= n <= rest.len(),
        ensures
            self.last_element(seq![c] + rest, n + 1) == match self.last_element(rest, n) {
                Some(x) => Some(x),
                None => if self.is_element(c) {
                    Some(c)
                } else {
                    None
                },
            },
        decreases n,
    {
        let s = seq![c] + rest;
        assert(s.len() == rest.len() + 1);
        if n > 0 {
            assert(s[n] == rest[n - 1]);
            if !self.is_element(rest[n - 1]) {
                self.lemma_last_element_head(c, rest, n - 1);
            }
        } else {
            assert(s[0] == c);
            assert(self.last_element(s, 0) is None);
        }
    }
}

/// The last element among the children of the node `i`.
pub(crate) fn last_element_child_index(nodes: &Vec<NodeData>, i: usize, Ghost(t): Ghost<Tree>) -> (r:
    Option<usize>)
    requires
        t.nodes == nodes@,
        i < nodes@.len(),
        nodes@.len() <= u32::MAX,
        forall|k: int| 0 <= k < nodes@.len() ==> #[trigger] t.links_wf(k),
    ensures
        match r {
            Some(x) => t.last_element(t.children(i as int), t.children(i as int).len() as int)
                == Some(x as int) && x < nodes@.len() && t.is_element(x as int),
            None => t.last_element(t.children(i as int), t.children(i as int).len() as int)
                is None,
        },
{
    let back = match nodes[i].last_child {
        Some(c) => c.get_usize(),
        None => {
            return None;
        },
    };
    proof {
        assert(t.links_wf(i as int));
    }
    let ghost whole = t.last_element(t.children(i as int), t.children(i as int).len() as int);
    let mut found: Option<usize> = None;
    let mut cur: usize = i + 1;
    loop
        invariant
            t.nodes == nodes@,
            nodes@.len() <= u32::MAX,
            forall|k: int| 0 <= k < nodes@.len() ==> #[trigger] t.links_wf(k),
            cur < nodes@.len(),
            back < nodes@.len(),
            found matches Some(x) ==> x < nodes@.len() && t.is_element(x as int),
            whole == t.last_element(t.children(i as int), t.children(i as int).len() as int),
            whole == match t.last_element(
                t.children_between(Some(cur as int), Some(back as int)),
                t.children_between(Some(cur as int), Some(back as int)).len() as int,
            ) {
                Some(x) => Some(x),
                None => match found {
                    Some(x) => Some(x as int),
                    None => None,
                },
            },
        decreases nodes@.len() - cur,
    {
        proof {
            assert(t.links_wf(cur as int));
            let rest = t.children_between(t.next_sibling(cur as int), Some(back as int));
            if cur == back {
                t.lemma_last_element_head(cur as int, Seq::empty(), 0);
                assert(seq![cur as int] + Seq::<int>::empty() =~= seq![cur as int]);
            } else {
                t.lemma_last_element_head(cur as int, rest, rest.len() as int);
            }
        }
        if let NodeKind::Element { .. } = nodes[cur].kind {
            found = Some(cur);
        }
        if cur == back {
            return found;
        }
        match next_sibling_index(nodes, cur, Ghost(t)) {
            Some(next) => {
                cur = next;
            },
            None => {
                return found;
            },
        }
    }
}

} // verus!
