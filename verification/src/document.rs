//! The document: the tree that parsing gives, and the nodes to walk it by.


use core::ops::Range;
use crate::stream::{range_eq, Span, StrSpan};
use crate::textpos::{text_pos, text_pos_at, TextPos};
use crate::tree::{
    AttributeData, Axis, EdgeModel, ExpandedNameIndexed, first_element_child_index,
    last_element_child_index, NamespaceData, NamespaceIdx, next_sibling_index, NodeData, NodeId,
    NodeKind, NodeType, ShortRange, Stored, Tree,
};
use vstd::prelude::*;
use vstd::std_specs::convert::IntoSpec;
use vstd::string::*;
use vstd::utf8::*;

verus! {

/// An XML tree container.
///
/// A tree consists of [`Nodes`].
/// There are no separate structs for each node type.
/// So you should check the current node type yourself via [`Node::node_type()`].
/// There are only [5 types](enum.NodeType.html):
/// Root, Element, PI, Comment and Text.
///
/// As you can see there are no XML declaration and CDATA types.
/// The XML declaration is basically skipped, since it doesn't contain any
/// valuable information (we support only UTF-8 anyway).
/// And CDATA will be converted into a Text node as is, without
/// any preprocessing.
///
/// Also, the Text node data can be accessed from the text node itself or from
/// the parent element via [`Node::text()`] or [`Node::tail()`].
///
/// [`Nodes`]: struct.Node.html
/// [`Node::node_type()`]: struct.Node.html#method.node_type
/// [`Node::text()`]: struct.Node.html#method.text
/// [`Node::tail()`]: struct.Node.html#method.tail
pub struct Document<'input> {
    /// The input text.
    ///
    /// Required for `text_pos_at` methods.
    pub(crate) text: &'input str,
    pub(crate) nodes: Vec<NodeData>,
    pub(crate) attributes: Vec<AttributeData>,
    pub(crate) namespaces: Vec<NamespaceData>,
    pub(crate) tree_order: Vec<NamespaceIdx>,
    pub(crate) strings: Vec<String>,
}

/// The bytes of each string.
pub open spec fn bytes_of_strings(v: Seq<String>) -> Seq<Seq<u8>> {
    Seq::new(v.len(), |i: int| encode_utf8(v[i]@))
}

impl<'input> View for Document<'input> {
    type V = Tree;

    closed spec fn view(&self) -> Tree {
        Tree {
            text: self.text.spec_bytes(),
            nodes: self.nodes@,
            attributes: self.attributes@,
            namespaces: self.namespaces@,
            tree_order: self.tree_order@,
            strings: bytes_of_strings(self.strings@),
        }
    }
}

impl<'input> Document<'input> {
    /// The tree of a document is well-formed.
    #[verifier::type_invariant]
    pub closed spec fn well_formed(&self) -> bool {
        self@.wf()
    }

    /// The document of a well-formed tree.
    pub(crate) fn from_parts(
        text: &'input str,
        nodes: Vec<NodeData>,
        attributes: Vec<AttributeData>,
        namespaces: Vec<NamespaceData>,
        tree_order: Vec<NamespaceIdx>,
        strings: Vec<String>,
    ) -> (r: Self)
        requires
            (Tree {
                text: text.spec_bytes(),
                nodes: nodes@,
                attributes: attributes@,
                namespaces: namespaces@,
                tree_order: tree_order@,
                strings: bytes_of_strings(strings@),
            }).wf(),
        ensures
            r@ == (Tree {
                text: text.spec_bytes(),
                nodes: nodes@,
                attributes: attributes@,
                namespaces: namespaces@,
                tree_order: tree_order@,
                strings: bytes_of_strings(strings@),
            }),
            r.input() == text,
    {
        Document { text, nodes, attributes, namespaces, tree_order, strings }
    }

    /// The text that the document was parsed from.
    pub closed spec fn input(&self) -> &'input str {
        self.text
    }

    /// The tree of a document is well-formed, and its text is the input.
    pub proof fn lemma_wf(&self)
        requires
            self.well_formed(),
        ensures
            self@.wf(),
            self@.text == self.input().spec_bytes(),
    {
    }

    /// Calculates `TextPos` in the input document from position in bytes.
    ///
    /// **Note:** this operation is expensive.
    #[inline]
    pub fn text_pos_at(&self, pos: usize) -> (r: TextPos)
        ensures
            r == text_pos(self@.text, pos as int),
    {
        text_pos_at(self.text.as_bytes(), pos)
    }

    /// Returns the input text of the input document.
    #[inline]
    pub fn input_text(&self) -> (r: &'input str)
        ensures
            r == self.input(),
            r.spec_bytes() == self@.text,
    {
        self.text
    }
}

/// A processing instruction.
#[derive(Clone, Copy, PartialEq, Eq, Debug)]
#[allow(missing_docs)]
pub struct PI<'input> {
    pub target: &'input str,
    pub value: Option<&'input str>,
}

/// A string storage.
///
/// Used by text nodes and attributes values.
///
/// We try our best not to allocate strings, referencing the input string as much as possible.
/// But in some cases post-processing is necessary and we have to allocate them.
#[derive(Clone, Debug)]
pub enum StringStorage<'input> {
    /// A raw slice of the input string.
    Borrowed(&'input str),
    /// A string of its own.
    Owned(String),
}

impl<'input> StringStorage<'input> {
    /// The characters of the string.
    pub open spec fn chars(&self) -> Seq<char> {
        match self {
            StringStorage::Borrowed(s) => s@,
            StringStorage::Owned(s) => s@,
        }
    }

    /// Creates a new owned string from a `String`.
    pub fn new_owned(s: String) -> (r: Self)
        ensures
            r.chars() == s@,
    {
        StringStorage::Owned(s)
    }

    /// Returns a string slice.
    pub fn as_str(&self) -> (r: &str)
        ensures
            r@ == self.chars(),
    {
        match self {
            StringStorage::Borrowed(s) => s,
            StringStorage::Owned(s) => s.as_str(),
        }
    }
}

/// An expanded name.
///
/// Contains an namespace URI and name pair.
#[derive(Clone, Copy, PartialEq, Eq, Debug)]
pub struct ExpandedName<'a, 'b> {
    pub(crate) uri: Option<&'a str>,
    pub(crate) name: &'b str,
}

impl<'a, 'b> ExpandedName<'a, 'b> {
    /// The bytes of the namespace name.
    pub closed spec fn uri_bytes(&self) -> Option<Seq<u8>> {
        match self.uri {
            Some(u) => Some(u.spec_bytes()),
            None => None,
        }
    }

    /// The bytes of the local name.
    pub closed spec fn name_bytes(&self) -> Seq<u8> {
        self.name.spec_bytes()
    }

    /// Returns a namespace URI.
    #[inline]
    pub fn namespace(&self) -> (r: Option<&'a str>)
        ensures
            match r {
                Some(u) => Some(u.spec_bytes()),
                None => None,
            } == self.uri_bytes(),
    {
        self.uri
    }

    /// Returns a local name.
    #[inline]
    pub fn name(&self) -> (r: &'b str)
        ensures
            r.spec_bytes() == self.name_bytes(),
    {
        self.name
    }
}

impl ExpandedName<'static, 'static> {
    /// Create a new instance from static data.
    pub fn from_static(uri: &'static str, name: &'static str) -> (r: Self)
        ensures
            r.uri_bytes() == Some(uri.spec_bytes()),
            r.name_bytes() == name.spec_bytes(),
    {
        ExpandedName { uri: Some(uri), name }
    }
}

impl<'a, 'b> From<&'b str> for ExpandedName<'a, 'b> {
    #[inline]
    fn from(v: &'b str) -> (r: Self) {
        ExpandedName { uri: None, name: v }
    }
}

impl<'a, 'b> vstd::std_specs::convert::FromSpecImpl<&'b str> for ExpandedName<'a, 'b> {
    open spec fn obeys_from_spec() -> bool {
        true
    }

    closed spec fn from_spec(v: &'b str) -> Self {
        ExpandedName { uri: None, name: v }
    }
}

impl<'a, 'b> From<(&'a str, &'b str)> for ExpandedName<'a, 'b> {
    #[inline]
    fn from(v: (&'a str, &'b str)) -> (r: Self) {
        ExpandedName { uri: Some(v.0), name: v.1 }
    }
}

impl<'a, 'b> vstd::std_specs::convert::FromSpecImpl<(&'a str, &'b str)> for ExpandedName<'a, 'b> {
    open spec fn obeys_from_spec() -> bool {
        true
    }

    closed spec fn from_spec(v: (&'a str, &'b str)) -> Self {
        ExpandedName { uri: Some(v.0), name: v.1 }
    }
}

/// The name that a local name alone stands for has no namespace.
pub proof fn lemma_name_from_str<'a, 'b>(v: &'b str)
    ensures
        <ExpandedName<'a, 'b> as vstd::std_specs::convert::FromSpec<&'b str>>::from_spec(
            v,
        ).uri_bytes() is None,
        <ExpandedName<'a, 'b> as vstd::std_specs::convert::FromSpec<&'b str>>::from_spec(
            v,
        ).name_bytes() == v.spec_bytes(),
{
}

/// The name that a pair of texts stands for has the first text as its
/// namespace and the second as its local name.
pub proof fn lemma_name_from_pair<'a, 'b>(v: (&'a str, &'b str))
    ensures
        <ExpandedName<'a, 'b> as vstd::std_specs::convert::FromSpec<(&'a str, &'b str)>>::from_spec(
            v,
        ).uri_bytes() == Some(v.0.spec_bytes()),
        <ExpandedName<'a, 'b> as vstd::std_specs::convert::FromSpec<(&'a str, &'b str)>>::from_spec(
            v,
        ).name_bytes() == v.1.spec_bytes(),
{
}

/// A namespace.
///
/// Contains URI and *prefix* pair.
#[derive(Clone, Copy, PartialEq, Eq, Debug)]
pub struct Namespace<'a> {
    pub(crate) name: Option<&'a str>,
    pub(crate) uri: &'a str,
}

impl<'a> Namespace<'a> {
    /// The bytes of the prefix.
    pub closed spec fn name_bytes(&self) -> Option<Seq<u8>> {
        match self.name {
            Some(n) => Some(n.spec_bytes()),
            None => None,
        }
    }

    /// The bytes of the namespace name.
    pub closed spec fn uri_bytes(&self) -> Seq<u8> {
        self.uri.spec_bytes()
    }

    /// Returns namespace name/prefix.
    #[inline]
    pub fn name(&self) -> (r: Option<&'a str>)
        ensures
            match r {
                Some(n) => Some(n.spec_bytes()),
                None => None,
            } == self.name_bytes(),
    {
        self.name
    }

    /// Returns namespace URI.
    #[inline]
    pub fn uri(&self) -> (r: &'a str)
        ensures
            r.spec_bytes() == self.uri_bytes(),
    {
        self.uri
    }
}

/// Whether two texts hold the same bytes.
pub fn str_eq(a: &str, b: &str) -> (r: bool)
    ensures
        r == (a.spec_bytes() == b.spec_bytes()),
{
    let x = a.as_bytes();
    let y = b.as_bytes();
    proof {
        assert(x@.subrange(0, x@.len() as int) =~= x@);
        assert(y@.subrange(0, y@.len() as int) =~= y@);
    }
    range_eq(x, Span::new(0, x.len()), y, Span::new(0, y.len()))
}

/// Whether two optional texts are both absent or hold the same bytes.
pub fn opt_str_eq(a: Option<&str>, b: Option<&str>) -> (r: bool)
    ensures
        r == (match a {
            Some(x) => Some(x.spec_bytes()),
            None => None,
        } == match b {
            Some(y) => Some(y.spec_bytes()),
            None => None,
        }),
{
    match (a, b) {
        (Some(x), Some(y)) => str_eq(x, y),
        (None, None) => true,
        _ => false,
    }
}

impl<'input> Document<'input> {
    /// The text of a span of the input.
    pub(crate) fn span_str(&self, span: Span) -> (r: &'input str)
        requires
            span.wf(self@.text),
        ensures
            r.spec_bytes() == span.of(self@.text),
    {
        StrSpan::from_substr(self.text, span.start, span.end).as_str()
    }

    /// A stored text of the document.
    pub(crate) fn stored_str<'a>(&'a self, s: Stored) -> (r: &'a str)
        requires
            self@.stored_wf(s),
        ensures
            r.spec_bytes() == self@.stored(s),
    {
        match s {
            Stored::Input(span) => self.span_str(span),
            Stored::Owned(i) => self.strings[i].as_str(),
        }
    }

    /// A stored text of the document, as a string storage.
    pub(crate) fn storage<'a>(&'a self, s: Stored) -> (r: StringStorage<'input>)
        requires
            self@.stored_wf(s),
        ensures
            encode_utf8(r.chars()) == self@.stored(s),
    {
        match s {
            Stored::Input(span) => StringStorage::Borrowed(self.span_str(span)),
            Stored::Owned(i) => StringStorage::Owned(self.strings[i].clone()),
        }
    }

    /// The namespace name of a name.
    pub(crate) fn uri_str<'a>(&'a self, name: ExpandedNameIndexed) -> (r: Option<&'a str>)
        requires
            self.well_formed(),
            self@.name_wf(name),
        ensures
            match r {
                Some(u) => Some(u.spec_bytes()),
                None => None,
            } == self@.uri_of(name),
    {
        match name.namespace_idx {
            Some(idx) => {
                proof {
                    assert(self@.stored_wf(self@.namespaces[idx.0 as int].uri));
                }
                Some(self.stored_str(self.namespaces[idx.0 as usize].uri))
            },
            None => None,
        }
    }

    /// Returns the root node.
    #[inline]
    pub fn root<'a>(&'a self) -> (r: Node<'a, 'input>)
        ensures
            r.index() == 0,
            r.tree() == self@,
    {
        proof {
            use_type_invariant(self);
        }
        Node { id: NodeId::new(0), doc: self }
    }

    /// Returns the node of the tree with the given NodeId.
    ///
    /// Note: NodeId::new(0) represents the root node
    #[inline]
    pub fn get_node<'a>(&'a self, id: NodeId) -> (r: Option<Node<'a, 'input>>)
        ensures
            r is Some <==> id.0 < self@.nodes.len(),
            r matches Some(n) ==> n.index() == id.0 && n.tree() == self@,
    {
        proof {
            use_type_invariant(self);
        }
        if id.get_usize() < self.nodes.len() {
            Some(Node { id, doc: self })
        } else {
            None
        }
    }

    /// Returns the root element of the document.
    ///
    /// Unlike `root`, will return a first element node.
    ///
    /// The root element always exists.
    #[inline]
    pub fn root_element<'a>(&'a self) -> (r: Node<'a, 'input>)
        ensures
            r.tree() == self@,
            Some(r.index()) == self@.first_element(self@.children(0), 0),
    {
        proof {
            use_type_invariant(self);
        }
        match first_element_child_index(&self.nodes, 0, Ghost(self@)) {
            Some(i) => Node { id: NodeId::new(i as u32), doc: self },
            None => vstd::pervasive::unreached(),
        }
    }
}

/// A node in a document.
///
/// # Document Order
///
/// The order of the nodes is the *document-order*.
/// In layman's terms, document-order is the order in which one would see each element if
/// one opened a document in a text editor or web browser and scrolled down.
/// Document-order convention is followed in XPath, CSS Counters, and DOM selectors API
/// to ensure consistent results from selection.
///
/// Two nodes are equal, and are ordered, by their IDs alone: nodes of
/// different documents are not told apart.
#[derive(Clone, Copy)]
pub struct Node<'a, 'input: 'a> {
    /// Node's ID.
    pub(crate) id: NodeId,
    /// The tree containing the node.
    pub(crate) doc: &'a Document<'input>,
}

impl<'a, 'input: 'a> Node<'a, 'input> {
    /// The node is a node of its document.
    #[verifier::type_invariant]
    pub closed spec fn in_document(&self) -> bool {
        self.id.0 < self.doc.nodes@.len() && self.doc.well_formed()
    }

    /// The index of the node in the arena.
    pub closed spec fn index(&self) -> int {
        self.id.0 as int
    }

    /// The tree of the document of the node.
    pub closed spec fn tree(&self) -> Tree {
        self.doc@
    }

    /// The node is a node of a well-formed tree.
    pub proof fn lemma_in_tree(&self)
        requires
            self.in_document(),
        ensures
            self.tree().wf(),
            0 <= self.index() < self.tree().nodes.len(),
    {
    }

    /// The node with the index `i`.
    fn at(&self, i: usize) -> (r: Node<'a, 'input>)
        requires
            i < self.tree().nodes.len(),
        ensures
            r.index() == i,
            r.tree() == self.tree(),
    {
        proof {
            use_type_invariant(self);
        }
        Node { id: NodeId::new(i as u32), doc: self.doc }
    }

    /// The data of the node.
    fn data(&self) -> (r: NodeData)
        ensures
            r == self.tree().nodes[self.index()],
            self.tree().wf(),
            0 <= self.index() < self.tree().nodes.len(),
            self.tree().links_wf(self.index()),
            self.tree().kind_wf(r.kind),
    {
        proof {
            use_type_invariant(self);
        }
        self.doc.nodes[self.id.get_usize()]
    }

    /// Returns node's type.
    #[inline]
    pub fn node_type(&self) -> (r: NodeType)
        ensures
            r == self.tree().node_type(self.index()),
    {
        match self.data().kind {
            NodeKind::Root => NodeType::Root,
            NodeKind::Element { .. } => NodeType::Element,
            NodeKind::PI { .. } => NodeType::PI,
            NodeKind::Comment(_) => NodeType::Comment,
            NodeKind::Text(_) => NodeType::Text,
        }
    }

    /// Checks that node is a root node.
    #[inline]
    pub fn is_root(&self) -> (r: bool)
        ensures
            r == (self.tree().node_type(self.index()) == NodeType::Root),
    {
        self.node_type() == NodeType::Root
    }

    /// Checks that node is an element node.
    #[inline]
    pub fn is_element(&self) -> (r: bool)
        ensures
            r == (self.tree().node_type(self.index()) == NodeType::Element),
            r == self.tree().is_element(self.index()),
    {
        self.node_type() == NodeType::Element
    }

    /// Checks that node is a processing instruction node.
    #[inline]
    pub fn is_pi(&self) -> (r: bool)
        ensures
            r == (self.tree().node_type(self.index()) == NodeType::PI),
    {
        self.node_type() == NodeType::PI
    }

    /// Checks that node is a comment node.
    #[inline]
    pub fn is_comment(&self) -> (r: bool)
        ensures
            r == (self.tree().node_type(self.index()) == NodeType::Comment),
    {
        self.node_type() == NodeType::Comment
    }

    /// Checks that node is a text node.
    #[inline]
    pub fn is_text(&self) -> (r: bool)
        ensures
            r == (self.tree().node_type(self.index()) == NodeType::Text),
    {
        self.node_type() == NodeType::Text
    }

    /// Returns node's document.
    #[inline]
    pub fn document(&self) -> (r: &'a Document<'input>)
        ensures
            r@ == self.tree(),
    {
        self.doc
    }

    /// Returns node's NodeId
    #[inline]
    pub fn id(&self) -> (r: NodeId)
        ensures
            r.0 == self.index(),
    {
        self.id
    }

    /// Returns node's range in bytes in the input document.
    #[inline]
    pub fn range(&self) -> (r: Range<usize>)
        ensures
            r.start == self.tree().nodes[self.index()].range.start,
            r.end == self.tree().nodes[self.index()].range.end,
    {
        let range = self.data().range;
        range.start..range.end
    }

    /// Returns the parent of this node.
    #[inline]
    pub fn parent(&self) -> (r: Option<Self>)
        ensures
            match r {
                Some(p) => p.tree() == self.tree() && self.tree().nodes[self.index()].parent
                    == Some(NodeId(p.index() as u32)) && p.index() < self.index(),
                None => self.tree().nodes[self.index()].parent is None,
            },
    {
        match self.data().parent {
            Some(id) => Some(self.at(id.get_usize())),
            None => None,
        }
    }

    /// Returns the previous sibling of this node.
    #[inline]
    pub fn prev_sibling(&self) -> (r: Option<Self>)
        ensures
            match r {
                Some(p) => p.tree() == self.tree() && self.tree().nodes[self.index()].prev_sibling
                    == Some(NodeId(p.index() as u32)) && p.index() < self.index(),
                None => self.tree().nodes[self.index()].prev_sibling is None,
            },
    {
        match self.data().prev_sibling {
            Some(id) => Some(self.at(id.get_usize())),
            None => None,
        }
    }

    /// Returns the next sibling of this node.
    #[inline]
    pub fn next_sibling(&self) -> (r: Option<Self>)
        ensures
            match r {
                Some(n) => n.tree() == self.tree() && self.tree().next_sibling(self.index())
                    == Some(n.index()) && self.index() < n.index(),
                None => self.tree().next_sibling(self.index()) is None,
            },
    {
        let _ = self.data();
        match next_sibling_index(&self.doc.nodes, self.id.get_usize(), Ghost(self.doc@)) {
            Some(i) => Some(self.at(i)),
            None => None,
        }
    }

    /// Returns the first child of this node.
    #[inline]
    pub fn first_child(&self) -> (r: Option<Self>)
        ensures
            match r {
                Some(c) => c.tree() == self.tree() && self.tree().first_child(self.index())
                    == Some(c.index()) && self.index() < c.index(),
                None => self.tree().first_child(self.index()) is None,
            },
    {
        match self.data().last_child {
            Some(_) => Some(self.at(self.id.get_usize() + 1)),
            None => None,
        }
    }

    /// Returns the last child of this node.
    #[inline]
    pub fn last_child(&self) -> (r: Option<Self>)
        ensures
            match r {
                Some(c) => c.tree() == self.tree() && self.tree().nodes[self.index()].last_child
                    == Some(NodeId(c.index() as u32)) && self.index() < c.index(),
                None => self.tree().nodes[self.index()].last_child is None,
            },
    {
        match self.data().last_child {
            Some(id) => Some(self.at(id.get_usize())),
            None => None,
        }
    }

    /// Returns true if this node has siblings.
    #[inline]
    pub fn has_siblings(&self) -> (r: bool)
        ensures
            r == (self.tree().nodes[self.index()].prev_sibling is Some || self.tree().next_sibling(
                self.index(),
            ) is Some),
    {
        self.data().prev_sibling.is_some() || self.next_sibling().is_some()
    }

    /// Returns true if this node has children.
    #[inline]
    pub fn has_children(&self) -> (r: bool)
        ensures
            r == self.tree().nodes[self.index()].last_child is Some,
    {
        self.data().last_child.is_some()
    }

    /// Returns node's tag name.
    ///
    /// Returns an empty name with no namespace if the current node is not an element.
    #[inline]
    pub fn tag_name(&self) -> (r: ExpandedName<'a, 'input>)
        ensures
            r.uri_bytes() == self.tree().tag_uri(self.index()),
            r.name_bytes() == self.tree().tag_local(self.index()),
    {
        match self.data().kind {
            NodeKind::Element { tag_name, .. } => {
                proof {
                    use_type_invariant(self);
                }
                ExpandedName {
                    uri: self.doc.uri_str(tag_name),
                    name: self.doc.span_str(tag_name.local_name),
                }
            },
            _ => {
                proof {
                    reveal_strlit("");
                    is_ascii_spec_bytes("");
                    assert("".spec_bytes() =~= Seq::<u8>::empty());
                }
                ExpandedName { uri: None, name: "" }
            },
        }
    }

    /// Returns node's text storage.
    ///
    /// Useful when you need a more low-level access to an allocated string.
    pub fn text_storage(&self) -> (r: Option<StringStorage<'input>>)
        ensures
            match r {
                Some(s) => self.tree().text_storage(self.index()) matches Some(st) && encode_utf8(
                    s.chars(),
                ) == self.tree().stored(st),
                None => self.tree().text_storage(self.index()) is None,
            },
    {
        match self.stored_text() {
            Some(s) => Some(self.doc.storage(s)),
            None => None,
        }
    }

    /// Where the text of the node is kept.
    fn stored_text(&self) -> (r: Option<Stored>)
        ensures
            r == self.tree().text_storage(self.index()),
            r matches Some(s) ==> self.tree().stored_wf(s),
    {
        match self.data().kind {
            NodeKind::Element { .. } => match self.first_child() {
                Some(child) => match child.data().kind {
                    NodeKind::Text(text) => Some(text),
                    _ => None,
                },
                None => None,
            },
            NodeKind::Comment(text) => Some(Stored::Input(text)),
            NodeKind::Text(text) => Some(text),
            _ => None,
        }
    }

    /// Returns node's text.
    ///
    /// - for an element will return a first text child
    /// - for a comment will return a self text
    /// - for a text node will return a self text
    #[inline]
    pub fn text(&self) -> (r: Option<&'a str>)
        ensures
            match r {
                Some(s) => self.tree().text_storage(self.index()) matches Some(st)
                    && s.spec_bytes() == self.tree().stored(st),
                None => self.tree().text_storage(self.index()) is None,
            },
    {
        match self.stored_text() {
            Some(s) => Some(self.doc.stored_str(s)),
            None => None,
        }
    }

    /// Where the tail of the node is kept.
    fn stored_tail(&self) -> (r: Option<Stored>)
        ensures
            r == self.tree().tail_storage(self.index()),
            r matches Some(s) ==> self.tree().stored_wf(s),
    {
        if !self.is_element() {
            return None;
        }
        match self.next_sibling() {
            Some(n) => match n.data().kind {
                NodeKind::Text(text) => Some(text),
                _ => None,
            },
            None => None,
        }
    }

    /// Returns element's tail text.
    #[inline]
    pub fn tail(&self) -> (r: Option<&'a str>)
        ensures
            match r {
                Some(s) => self.tree().tail_storage(self.index()) matches Some(st)
                    && s.spec_bytes() == self.tree().stored(st),
                None => self.tree().tail_storage(self.index()) is None,
            },
    {
        match self.stored_tail() {
            Some(s) => Some(self.doc.stored_str(s)),
            None => None,
        }
    }

    /// Returns element's tail text storage.
    ///
    /// Useful when you need a more low-level access to an allocated string.
    pub fn tail_storage(&self) -> (r: Option<StringStorage<'input>>)
        ensures
            match r {
                Some(s) => self.tree().tail_storage(self.index()) matches Some(st) && encode_utf8(
                    s.chars(),
                ) == self.tree().stored(st),
                None => self.tree().tail_storage(self.index()) is None,
            },
    {
        match self.stored_tail() {
            Some(s) => Some(self.doc.storage(s)),
            None => None,
        }
    }

    /// Returns node as Processing Instruction.
    #[inline]
    pub fn pi(&self) -> (r: Option<PI<'input>>)
        ensures
            match r {
                Some(pi) => self.tree().nodes[self.index()].kind matches NodeKind::PI {
                    target,
                    value,
                } && pi.target.spec_bytes() == target.of(self.tree().text) && match pi.value {
                    Some(v) => value matches Some(x) && v.spec_bytes() == x.of(self.tree().text),
                    None => value is None,
                },
                None => !(self.tree().nodes[self.index()].kind is PI),
            },
    {
        match self.data().kind {
            NodeKind::PI { target, value } => Some(
                PI {
                    target: self.doc.span_str(target),
                    value: match value {
                        Some(v) => Some(self.doc.span_str(v)),
                        None => None,
                    },
                },
            ),
            _ => None,
        }
    }
}

/// An attribute.
#[derive(Clone, Copy)]
pub struct Attribute<'a, 'input: 'a> {
    pub(crate) doc: &'a Document<'input>,
    pub(crate) idx: usize,
}

impl<'a, 'input> Attribute<'a, 'input> {
    /// The attribute is an attribute of its document.
    #[verifier::type_invariant]
    pub closed spec fn in_document(&self) -> bool {
        self.idx < self.doc.attributes@.len() && self.doc.well_formed()
    }

    /// The index of the attribute in the arena.
    pub closed spec fn index(&self) -> int {
        self.idx as int
    }

    /// The tree of the document of the attribute.
    pub closed spec fn tree(&self) -> Tree {
        self.doc@
    }

    /// The data of the attribute.
    fn data(&self) -> (r: AttributeData)
        ensures
            r == self.tree().attributes[self.index()],
            self.tree().wf(),
            0 <= self.index() < self.tree().attributes.len(),
            self.tree().name_wf(r.name),
            self.tree().stored_wf(r.value),
    {
        proof {
            use_type_invariant(self);
        }
        self.doc.attributes[self.idx]
    }

    /// Returns attribute's namespace URI.
    #[inline]
    pub fn namespace(&self) -> (r: Option<&'a str>)
        ensures
            match r {
                Some(u) => Some(u.spec_bytes()),
                None => None,
            } == self.tree().uri_of(self.tree().attributes[self.index()].name),
    {
        let data = self.data();
        proof {
            use_type_invariant(self);
        }
        self.doc.uri_str(data.name)
    }

    /// Returns attribute's name.
    #[inline]
    pub fn name(&self) -> (r: &'input str)
        ensures
            r.spec_bytes() == self.tree().attributes[self.index()].name.local_name.of(
                self.tree().text,
            ),
    {
        let data = self.data();
        self.doc.span_str(data.name.local_name)
    }

    /// Returns attribute's value.
    #[inline]
    pub fn value(&self) -> (r: &'a str)
        ensures
            r.spec_bytes() == self.tree().stored(self.tree().attributes[self.index()].value),
    {
        let data = self.data();
        self.doc.stored_str(data.value)
    }

    /// Returns attribute's value storage.
    ///
    /// Useful when you need a more low-level access to an allocated string.
    #[inline]
    pub fn value_storage(&self) -> (r: StringStorage<'input>)
        ensures
            encode_utf8(r.chars()) == self.tree().stored(
                self.tree().attributes[self.index()].value,
            ),
    {
        let data = self.data();
        self.doc.storage(data.value)
    }

    /// Returns attribute's position in bytes in the input document.
    ///
    /// You can calculate a human-readable text position via [Document::text_pos_at].
    ///
    /// ```text
    /// <e attr='value'/>
    ///    ^
    /// ```
    ///
    /// [Document::text_pos_at]: struct.Document.html#method.text_pos_at
    #[inline]
    pub fn position(&self) -> (r: usize)
        ensures
            r == self.tree().attributes[self.index()].range.start,
    {
        self.data().range.start
    }

    /// Returns attribute's range in bytes in the input document.
    #[inline]
    pub fn range(&self) -> (r: Range<usize>)
        ensures
            r.start == self.tree().attributes[self.index()].range.start,
            r.end == self.tree().attributes[self.index()].range.end,
    {
        let range = self.data().range;
        range.start..range.end
    }

    /// Returns the range of the attribute's value in bytes in the input
    /// document, without the quotes around it: it starts behind the
    /// qualified name, `=` with the spaces around it and the opening quote,
    /// and ends before the closing quote. An offset that does not fit a
    /// `usize` saturates.
    #[inline]
    pub fn value_range(&self) -> (r: Range<usize>)
        ensures
            ({
                let a = self.tree().attributes[self.index()];
                let start = a.range.start + a.qname_len + a.eq_len + 1;
                &&& r.start == if start > usize::MAX {
                    usize::MAX as int
                } else {
                    start
                }
                &&& r.end == if a.range.end > 0 {
                    a.range.end - 1
                } else {
                    0
                }
            }),
    {
        let data = self.data();
        let start = data.range.start.saturating_add(data.qname_len as usize).saturating_add(
            data.eq_len as usize,
        ).saturating_add(1);
        let end = data.range.end.saturating_sub(1);
        start..end
    }
}

impl<'a, 'input: 'a> Node<'a, 'input> {
    /// The range of bindings that the node sees.
    fn visible(&self) -> (r: ShortRange)
        ensures
            r == self.tree().visible(self.index()),
            r.within(self.tree().tree_order.len() as int),
            self.tree().wf(),
    {
        match self.data().kind {
            NodeKind::Element { namespaces, .. } => namespaces,
            _ => ShortRange::new(0, 0),
        }
    }

    /// The range of attributes of the node.
    fn attribute_range(&self) -> (r: ShortRange)
        ensures
            r == self.tree().attributes_of(self.index()),
            r.within(self.tree().attributes.len() as int),
            self.tree().wf(),
    {
        match self.data().kind {
            NodeKind::Element { attributes, .. } => attributes,
            _ => ShortRange::new(0, 0),
        }
    }

    /// The binding at the index `k` of the tree order.
    fn binding(&self, k: usize) -> (r: Namespace<'a>)
        requires
            k < self.tree().tree_order.len(),
        ensures
            r.name_bytes() == self.tree().binding_name(k as int),
            r.uri_bytes() == self.tree().binding_uri(k as int),
    {
        proof {
            use_type_invariant(self);
            let t = self.doc@;
            assert(t.tree_order[k as int].0 < t.namespaces.len());
            assert(t.stored_wf(t.namespaces[t.tree_order[k as int].0 as int].uri));
        }
        let idx = self.doc.tree_order[k];
        let data = self.doc.namespaces[idx.0 as usize];
        Namespace {
            name: match data.name {
                Some(n) => Some(self.doc.stored_str(n)),
                None => None,
            },
            uri: self.doc.stored_str(data.uri),
        }
    }

    /// Checks that node has a specified tag name.
    ///
    /// A name without a namespace stands for the local name in any namespace.
    pub fn has_tag_name<'n, 'm, N>(&self, name: N) -> (r: bool) where N: Into<ExpandedName<'n, 'm>>
        ensures
            !self.tree().is_element(self.index()) ==> !r,
            N::obeys_into_spec() ==> r == self.tree().has_name(
                self.index(),
                N::into_spec(name).uri_bytes(),
                N::into_spec(name).name_bytes(),
            ),
            exists|e: ExpandedName<'n, 'm>| #[trigger]
                call_ensures(N::into, (name,), e) && r == self.tree().has_name(
                    self.index(),
                    e.uri_bytes(),
                    e.name_bytes(),
                ),
    {
        let name: ExpandedName<'n, 'm> = name.into();
        self.has_expanded_name(name)
    }

    /// Checks that node is an element with the given name. A name without
    /// a namespace stands for the local name in any namespace.
    pub fn has_expanded_name(&self, name: ExpandedName) -> (r: bool)
        ensures
            r == self.tree().has_name(self.index(), name.uri_bytes(), name.name_bytes()),
    {
        match self.data().kind {
            NodeKind::Element { tag_name, .. } => {
                let own = self.tag_name();
                match name.namespace() {
                    Some(_) => opt_str_eq(own.uri, name.uri) && str_eq(own.name, name.name),
                    None => str_eq(own.name, name.name),
                }
            },
            _ => false,
        }
    }

    /// Returns an URI for a given prefix.
    pub fn lookup_namespace_uri(&self, prefix: Option<&str>) -> (r: Option<&'a str>)
        ensures
            match r {
                Some(u) => Some(u.spec_bytes()),
                None => None,
            } == self.tree().lookup_namespace_uri(
                self.index(),
                match prefix {
                    Some(p) => Some(p.spec_bytes()),
                    None => None,
                },
            ),
    {
        let range = self.visible();
        let ghost t = self.tree();
        let ghost wanted = match prefix {
            Some(p) => Some(p.spec_bytes()),
            None => None,
        };
        let end = range.end as usize;
        let mut k: usize = range.start as usize;
        while k < end
            invariant
                range.start <= k <= end,
                end == range.end,
                end <= t.tree_order.len(),
                t == self.tree(),
                range == t.visible(self.index()),
                wanted == match prefix {
                    Some(p) => Some(p.spec_bytes()),
                    None => None,
                },
                t.find_prefix(wanted, range.start as int, range.end as int) == t.find_prefix(
                    wanted,
                    k as int,
                    range.end as int,
                ),
            decreases end - k,
        {
            let ns = self.binding(k);
            if opt_str_eq(ns.name, prefix) {
                return Some(ns.uri);
            }
            k += 1;
        }
        None
    }

    /// Returns node's default namespace URI.
    pub fn default_namespace(&self) -> (r: Option<&'a str>)
        ensures
            match r {
                Some(u) => Some(u.spec_bytes()),
                None => None,
            } == self.tree().lookup_namespace_uri(self.index(), None),
    {
        self.lookup_namespace_uri(None)
    }

    /// Returns a prefix for a given namespace URI.
    pub fn lookup_prefix(&self, uri: &str) -> (r: Option<&'a str>)
        ensures
            match r {
                Some(p) => Some(p.spec_bytes()),
                None => None,
            } == self.tree().lookup_prefix(self.index(), uri.spec_bytes()),
    {
        if str_eq(uri, "http://www.w3.org/XML/1998/namespace") {
            return Some("xml");
        }
        let range = self.visible();
        let ghost t = self.tree();
        let end = range.end as usize;
        let mut k: usize = range.start as usize;
        while k < end
            invariant
                range.start <= k <= end,
                end == range.end,
                end <= t.tree_order.len(),
                t == self.tree(),
                range == t.visible(self.index()),
                uri.spec_bytes() != crate::tree::xml_uri(),
                t.find_uri(uri.spec_bytes(), range.start as int, range.end as int) == t.find_uri(
                    uri.spec_bytes(),
                    k as int,
                    range.end as int,
                ),
            decreases end - k,
        {
            let ns = self.binding(k);
            if str_eq(ns.uri, uri) {
                return ns.name;
            }
            k += 1;
        }
        None
    }

    /// The attribute at the index `k` of the arena.
    fn attribute_at(&self, k: usize) -> (r: Attribute<'a, 'input>)
        requires
            k < self.tree().attributes.len(),
        ensures
            r.index() == k,
            r.tree() == self.tree(),
    {
        proof {
            use_type_invariant(self);
        }
        Attribute { doc: self.doc, idx: k }
    }

    /// Returns element's attribute object with the given expanded name.
    pub fn find_attribute(&self, name: ExpandedName) -> (r: Option<Attribute<'a, 'input>>)
        ensures
            match r {
                Some(a) => a.tree() == self.tree() && self.tree().attribute(
                    self.index(),
                    name.uri_bytes(),
                    name.name_bytes(),
                ) == Some(a.index()),
                None => self.tree().attribute(self.index(), name.uri_bytes(), name.name_bytes())
                    is None,
            },
    {
        let range = self.attribute_range();
        let ghost t = self.tree();
        let end = range.end as usize;
        let mut k: usize = range.start as usize;
        while k < end
            invariant
                range.start <= k <= end,
                end == range.end,
                end <= t.attributes.len(),
                t == self.tree(),
                range == t.attributes_of(self.index()),
                t.find_attribute(
                    name.uri_bytes(),
                    name.name_bytes(),
                    range.start as int,
                    range.end as int,
                ) == t.find_attribute(
                    name.uri_bytes(),
                    name.name_bytes(),
                    k as int,
                    range.end as int,
                ),
            decreases end - k,
        {
            let a = self.attribute_at(k);
            if opt_str_eq(a.namespace(), name.uri) && str_eq(a.name(), name.name) {
                return Some(a);
            }
            k += 1;
        }
        None
    }

    /// Returns element's attribute value.
    pub fn attribute<'n, 'm, N>(&self, name: N) -> (r: Option<&'a str>) where
        N: Into<ExpandedName<'n, 'm>>,

        ensures
            N::obeys_into_spec() ==> match r {
                Some(v) => self.tree().attribute(
                    self.index(),
                    N::into_spec(name).uri_bytes(),
                    N::into_spec(name).name_bytes(),
                ) matches Some(k) && v.spec_bytes() == self.tree().stored(
                    self.tree().attributes[k].value,
                ),
                None => self.tree().attribute(
                    self.index(),
                    N::into_spec(name).uri_bytes(),
                    N::into_spec(name).name_bytes(),
                ) is None,
            },
            exists|e: ExpandedName<'n, 'm>| #[trigger]
                call_ensures(N::into, (name,), e) && match r {
                    Some(v) => self.tree().attribute(self.index(), e.uri_bytes(), e.name_bytes())
                        matches Some(k) && v.spec_bytes() == self.tree().stored(
                        self.tree().attributes[k].value,
                    ),
                    None => self.tree().attribute(self.index(), e.uri_bytes(), e.name_bytes())
                        is None,
                },
    {
        let name: ExpandedName<'n, 'm> = name.into();
        match self.find_attribute(name) {
            Some(a) => Some(a.value()),
            None => None,
        }
    }

    /// Returns element's attribute object.
    ///
    /// The same as [`attribute()`], but returns the `Attribute` itself instead of a value string.
    ///
    /// [`attribute()`]: struct.Node.html#method.attribute
    pub fn attribute_node<'n, 'm, N>(&self, name: N) -> (r: Option<Attribute<'a, 'input>>) where
        N: Into<ExpandedName<'n, 'm>>,

        ensures
            N::obeys_into_spec() ==> match r {
                Some(a) => a.tree() == self.tree() && self.tree().attribute(
                    self.index(),
                    N::into_spec(name).uri_bytes(),
                    N::into_spec(name).name_bytes(),
                ) == Some(a.index()),
                None => self.tree().attribute(
                    self.index(),
                    N::into_spec(name).uri_bytes(),
                    N::into_spec(name).name_bytes(),
                ) is None,
            },
            exists|e: ExpandedName<'n, 'm>| #[trigger]
                call_ensures(N::into, (name,), e) && match r {
                    Some(a) => a.tree() == self.tree() && self.tree().attribute(
                        self.index(),
                        e.uri_bytes(),
                        e.name_bytes(),
                    ) == Some(a.index()),
                    None => self.tree().attribute(self.index(), e.uri_bytes(), e.name_bytes())
                        is None,
                },
    {
        let name: ExpandedName<'n, 'm> = name.into();
        self.find_attribute(name)
    }

    /// Checks that element has a specified attribute.
    pub fn has_attribute<'n, 'm, N>(&self, name: N) -> (r: bool) where
        N: Into<ExpandedName<'n, 'm>>,

        ensures
            N::obeys_into_spec() ==> r == self.tree().attribute(
                self.index(),
                N::into_spec(name).uri_bytes(),
                N::into_spec(name).name_bytes(),
            ) is Some,
            exists|e: ExpandedName<'n, 'm>| #[trigger]
                call_ensures(N::into, (name,), e) && r == self.tree().attribute(
                    self.index(),
                    e.uri_bytes(),
                    e.name_bytes(),
                ) is Some,
    {
        let name: ExpandedName<'n, 'm> = name.into();
        self.find_attribute(name).is_some()
    }

    /// The first element along the axis, from the node that one step leads to on.
    pub fn find_element_along(&self, axis: Axis) -> (r: Option<Self>)
        ensures
            match r {
                Some(n) => n.tree() == self.tree() && self.tree().find_element(
                    axis,
                    self.tree().step(axis, self.index()),
                ) == Some(n.index()),
                None => self.tree().find_element(axis, self.tree().step(axis, self.index()))
                    is None,
            },
    {
        let ghost t = self.tree();
        let mut cur = self.step(axis);
        loop
            invariant
                t == self.tree(),
                t.find_element(axis, t.step(axis, self.index())) == t.find_element(
                    axis,
                    match cur {
                        Some(n) => Some(n.index()),
                        None => None,
                    },
                ),
                cur matches Some(n) ==> n.tree() == t && 0 <= n.index() < t.nodes.len(),
            decreases
                t.steps_left(
                    axis,
                    match cur {
                        Some(n) => Some(n.index()),
                        None => None,
                    },
                ),
        {
            match cur {
                Some(n) => {
                    if n.is_element() {
                        return Some(n);
                    }
                    cur = n.step(axis);
                },
                None => {
                    return None;
                },
            }
        }
    }

    /// The node that one step along the axis leads to.
    pub fn step(&self, axis: Axis) -> (r: Option<Self>)
        ensures
            match r {
                Some(n) => n.tree() == self.tree() && self.tree().step(axis, self.index()) == Some(
                    n.index(),
                ) && 0 <= n.index() < self.tree().nodes.len(),
                None => self.tree().step(axis, self.index()) is None,
            },
            self.tree().steps_left(axis, self.tree().step(axis, self.index()))
                < self.tree().steps_left(axis, Some(self.index())),
    {
        let _ = self.data();
        match axis {
            Axis::Ancestors => self.parent(),
            Axis::PrevSiblings => self.prev_sibling(),
            Axis::NextSiblings => self.next_sibling(),
            Axis::FirstChildren => self.first_child(),
            Axis::LastChildren => self.last_child(),
        }
    }

    /// Returns the parent element of this node.
    pub fn parent_element(&self) -> (r: Option<Self>)
        ensures
            match r {
                Some(n) => n.tree() == self.tree() && self.tree().find_element(
                    Axis::Ancestors,
                    self.tree().step(Axis::Ancestors, self.index()),
                ) == Some(n.index()),
                None => self.tree().find_element(
                    Axis::Ancestors,
                    self.tree().step(Axis::Ancestors, self.index()),
                ) is None,
            },
    {
        self.find_element_along(Axis::Ancestors)
    }

    /// Returns the previous sibling element of this node.
    pub fn prev_sibling_element(&self) -> (r: Option<Self>)
        ensures
            match r {
                Some(n) => n.tree() == self.tree() && self.tree().find_element(
                    Axis::PrevSiblings,
                    self.tree().step(Axis::PrevSiblings, self.index()),
                ) == Some(n.index()),
                None => self.tree().find_element(
                    Axis::PrevSiblings,
                    self.tree().step(Axis::PrevSiblings, self.index()),
                ) is None,
            },
    {
        self.find_element_along(Axis::PrevSiblings)
    }

    /// Returns the next sibling element of this node.
    pub fn next_sibling_element(&self) -> (r: Option<Self>)
        ensures
            match r {
                Some(n) => n.tree() == self.tree() && self.tree().find_element(
                    Axis::NextSiblings,
                    self.tree().step(Axis::NextSiblings, self.index()),
                ) == Some(n.index()),
                None => self.tree().find_element(
                    Axis::NextSiblings,
                    self.tree().step(Axis::NextSiblings, self.index()),
                ) is None,
            },
    {
        self.find_element_along(Axis::NextSiblings)
    }

    /// Returns the first element child of this node.
    pub fn first_element_child(&self) -> (r: Option<Self>)
        ensures
            match r {
                Some(n) => n.tree() == self.tree() && self.tree().first_element(
                    self.tree().children(self.index()),
                    0,
                ) == Some(n.index()),
                None => self.tree().first_element(self.tree().children(self.index()), 0) is None,
            },
    {
        proof {
            use_type_invariant(self);
        }
        match first_element_child_index(&self.doc.nodes, self.id.get_usize(), Ghost(self.doc@)) {
            Some(i) => Some(self.at(i)),
            None => None,
        }
    }
}

/// Iterator over a node's attributes
#[derive(Clone, Copy)]
pub struct Attributes<'a, 'input> {
    pub(crate) doc: &'a Document<'input>,
    pub(crate) front: usize,
    pub(crate) back: usize,
}

impl<'a, 'input> Attributes<'a, 'input> {
    /// The attributes that are left lie in the arena of the document.
    #[verifier::type_invariant]
    pub closed spec fn in_document(&self) -> bool {
        self.front <= self.back <= self.doc.attributes@.len() && self.doc.well_formed()
    }

    /// The tree of the document.
    pub closed spec fn tree(&self) -> Tree {
        self.doc@
    }

    /// The index of the next attribute from the front.
    pub closed spec fn front(&self) -> int {
        self.front as int
    }

    /// The index behind the next attribute from the back.
    pub closed spec fn back(&self) -> int {
        self.back as int
    }

    /// The next attribute, from the front.
    #[inline]
    pub fn next(&mut self) -> (r: Option<Attribute<'a, 'input>>)
        ensures
            final(self).tree() == old(self).tree(),
            final(self).back() == old(self).back(),
            match r {
                Some(a) => a.index() == old(self).front() && a.tree() == old(self).tree()
                    && final(self).front() == old(self).front() + 1 && old(self).front() < old(
                    self,
                ).back(),
                None => final(self).front() == old(self).front() && old(self).front() >= old(
                    self,
                ).back(),
            },
    {
        proof {
            use_type_invariant(&*self);
        }
        if self.front < self.back {
            let a = Attribute { doc: self.doc, idx: self.front };
            self.front += 1;
            Some(a)
        } else {
            None
        }
    }

    /// The next attribute, from the back.
    #[inline]
    pub fn next_back(&mut self) -> (r: Option<Attribute<'a, 'input>>)
        ensures
            final(self).tree() == old(self).tree(),
            final(self).front() == old(self).front(),
            match r {
                Some(a) => a.index() == old(self).back() - 1 && a.tree() == old(self).tree()
                    && final(self).back() == old(self).back() - 1 && old(self).front() < old(
                    self,
                ).back(),
                None => final(self).back() == old(self).back() && old(self).front() >= old(
                    self,
                ).back(),
            },
    {
        proof {
            use_type_invariant(&*self);
        }
        if self.front < self.back {
            self.back -= 1;
            Some(Attribute { doc: self.doc, idx: self.back })
        } else {
            None
        }
    }

    /// The attribute that stands `n` attributes behind the front; the
    /// attributes up to it are passed over.
    #[inline]
    pub fn nth(&mut self, n: usize) -> (r: Option<Attribute<'a, 'input>>)
        ensures
            final(self).tree() == old(self).tree(),
            final(self).back() == old(self).back(),
            match r {
                Some(a) => a.index() == old(self).front() + n && a.tree() == old(self).tree()
                    && final(self).front() == old(self).front() + n + 1,
                None => old(self).front() + n >= old(self).back() && final(self).front() == old(
                    self,
                ).back(),
            },
    {
        proof {
            use_type_invariant(&*self);
        }
        if n < self.back - self.front {
            self.front += n;
            self.next()
        } else {
            self.front = self.back;
            None
        }
    }

    /// The number of attributes that are left.
    #[inline]
    pub fn len(&self) -> (r: usize)
        ensures
            r == self.back() - self.front(),
    {
        proof {
            use_type_invariant(self);
        }
        self.back - self.front
    }
}

/// Iterator over the namespaces attached to a node.
#[derive(Clone, Copy)]
pub struct NamespaceIter<'a, 'input> {
    pub(crate) node: Node<'a, 'input>,
    pub(crate) front: usize,
    pub(crate) back: usize,
}

impl<'a, 'input> NamespaceIter<'a, 'input> {
    /// The bindings that are left lie in the tree order of the document.
    #[verifier::type_invariant]
    pub closed spec fn in_document(&self) -> bool {
        self.front <= self.back <= self.node.doc.tree_order@.len() && self.node.in_document()
    }

    /// The tree of the document.
    pub closed spec fn tree(&self) -> Tree {
        self.node.doc@
    }

    /// The index of the next binding in the tree order.
    pub closed spec fn front(&self) -> int {
        self.front as int
    }

    /// The index behind the last binding in the tree order.
    pub closed spec fn back(&self) -> int {
        self.back as int
    }

    /// The next binding.
    #[inline]
    pub fn next(&mut self) -> (r: Option<Namespace<'a>>)
        ensures
            final(self).tree() == old(self).tree(),
            final(self).back() == old(self).back(),
            match r {
                Some(ns) => ns.name_bytes() == old(self).tree().binding_name(old(self).front())
                    && ns.uri_bytes() == old(self).tree().binding_uri(old(self).front())
                    && final(self).front() == old(self).front() + 1 && old(self).front() < old(
                    self,
                ).back(),
                None => final(self).front() == old(self).front() && old(self).front() >= old(
                    self,
                ).back(),
            },
    {
        proof {
            use_type_invariant(&*self);
        }
        if self.front < self.back {
            let ns = self.node.binding(self.front);
            self.front += 1;
            Some(ns)
        } else {
            None
        }
    }

    /// The next binding from the back.
    #[inline]
    pub fn next_back(&mut self) -> (r: Option<Namespace<'a>>)
        ensures
            final(self).tree() == old(self).tree(),
            final(self).front() == old(self).front(),
            match r {
                Some(ns) => ns.name_bytes() == old(self).tree().binding_name(old(self).back() - 1)
                    && ns.uri_bytes() == old(self).tree().binding_uri(old(self).back() - 1)
                    && final(self).back() == old(self).back() - 1 && old(self).front() < old(
                    self,
                ).back(),
                None => final(self).back() == old(self).back() && old(self).front() >= old(
                    self,
                ).back(),
            },
    {
        proof {
            use_type_invariant(&*self);
        }
        if self.front < self.back {
            self.back -= 1;
            Some(self.node.binding(self.back))
        } else {
            None
        }
    }

    /// The binding that stands `n` bindings behind the front; the bindings
    /// up to it are passed over.
    #[inline]
    pub fn nth(&mut self, n: usize) -> (r: Option<Namespace<'a>>)
        ensures
            final(self).tree() == old(self).tree(),
            final(self).back() == old(self).back(),
            match r {
                Some(ns) => ns.name_bytes() == old(self).tree().binding_name(
                    old(self).front() + n,
                ) && ns.uri_bytes() == old(self).tree().binding_uri(old(self).front() + n)
                    && final(self).front() == old(self).front() + n + 1,
                None => old(self).front() + n >= old(self).back() && final(self).front() == old(
                    self,
                ).back(),
            },
    {
        proof {
            use_type_invariant(&*self);
        }
        if n < self.back - self.front {
            self.front += n;
            self.next()
        } else {
            self.front = self.back;
            None
        }
    }

    /// The number of bindings that are left.
    #[inline]
    pub fn len(&self) -> (r: usize)
        ensures
            r == self.back() - self.front(),
    {
        proof {
            use_type_invariant(self);
        }
        self.back - self.front
    }
}

/// Iterator over a node and its descendants.
#[derive(Clone, Copy)]
pub struct Descendants<'a, 'input> {
    pub(crate) doc: &'a Document<'input>,
    pub(crate) front: usize,
    pub(crate) back: usize,
}

impl<'a, 'input> Descendants<'a, 'input> {
    /// The nodes that are left lie in the arena of the document.
    #[verifier::type_invariant]
    pub closed spec fn in_document(&self) -> bool {
        self.front <= self.back <= self.doc.nodes@.len() && self.doc.well_formed()
    }

    /// The tree of the document.
    pub closed spec fn tree(&self) -> Tree {
        self.doc@
    }

    /// The index of the next node from the front.
    pub closed spec fn front(&self) -> int {
        self.front as int
    }

    /// The index behind the next node from the back.
    pub closed spec fn back(&self) -> int {
        self.back as int
    }

    /// The nodes from `start` up to the start of the next subtree.
    #[inline]
    pub(crate) fn new(start: Node<'a, 'input>) -> (r: Self)
        ensures
            r.tree() == start.tree(),
            r.front() == start.index(),
            r.back() == start.tree().subtree_end(start.index()),
    {
        let data = start.data();
        proof {
            use_type_invariant(start);
        }
        let until = match data.next_subtree {
            Some(id) => id.get_usize(),
            None => start.doc.nodes.len(),
        };
        Descendants { doc: start.doc, front: start.id.get_usize(), back: until }
    }

    /// The next node, from the front.
    #[inline]
    pub fn next(&mut self) -> (r: Option<Node<'a, 'input>>)
        ensures
            final(self).tree() == old(self).tree(),
            final(self).back() == old(self).back(),
            match r {
                Some(n) => n.index() == old(self).front() && n.tree() == old(self).tree()
                    && final(self).front() == old(self).front() + 1 && old(self).front() < old(
                    self,
                ).back(),
                None => final(self).front() == old(self).front() && old(self).front() >= old(
                    self,
                ).back(),
            },
    {
        proof {
            use_type_invariant(&*self);
            use_type_invariant(self.doc);
        }
        if self.front < self.back {
            let n = Node { id: NodeId::new(self.front as u32), doc: self.doc };
            self.front += 1;
            Some(n)
        } else {
            None
        }
    }

    /// The next node, from the back.
    #[inline]
    pub fn next_back(&mut self) -> (r: Option<Node<'a, 'input>>)
        ensures
            final(self).tree() == old(self).tree(),
            final(self).front() == old(self).front(),
            match r {
                Some(n) => n.index() == old(self).back() - 1 && n.tree() == old(self).tree()
                    && final(self).back() == old(self).back() - 1 && old(self).front() < old(
                    self,
                ).back(),
                None => final(self).back() == old(self).back() && old(self).front() >= old(
                    self,
                ).back(),
            },
    {
        proof {
            use_type_invariant(&*self);
            use_type_invariant(self.doc);
        }
        if self.front < self.back {
            self.back -= 1;
            Some(Node { id: NodeId::new(self.back as u32), doc: self.doc })
        } else {
            None
        }
    }

    /// The node that stands `n` nodes behind the front; the nodes up to it
    /// are passed over.
    #[inline]
    pub fn nth(&mut self, n: usize) -> (r: Option<Node<'a, 'input>>)
        ensures
            final(self).tree() == old(self).tree(),
            final(self).back() == old(self).back(),
            match r {
                Some(x) => x.index() == old(self).front() + n && x.tree() == old(self).tree()
                    && final(self).front() == old(self).front() + n + 1,
                None => old(self).front() + n >= old(self).back() && final(self).front() == old(
                    self,
                ).back(),
            },
    {
        proof {
            use_type_invariant(&*self);
        }
        if n < self.back - self.front {
            self.front += n;
            self.next()
        } else {
            self.front = self.back;
            None
        }
    }

    /// The number of nodes that are left.
    #[inline]
    pub fn len(&self) -> (r: usize)
        ensures
            r == self.back() - self.front(),
    {
        proof {
            use_type_invariant(self);
        }
        self.back - self.front
    }
}

/// Iterator over specified axis.
#[derive(Clone, Copy)]
pub struct AxisIter<'a, 'input: 'a> {
    pub(crate) node: Option<Node<'a, 'input>>,
    pub(crate) axis: Axis,
}

impl<'a, 'input: 'a> AxisIter<'a, 'input> {
    /// The node that comes next.
    pub closed spec fn current(&self) -> Option<Node<'a, 'input>> {
        self.node
    }

    /// The axis that the iterator follows.
    pub closed spec fn axis(&self) -> Axis {
        self.axis
    }

    /// The next node: the node that the iterator stands at; the iterator
    /// moves one step along its axis.
    #[inline]
    pub fn next(&mut self) -> (r: Option<Node<'a, 'input>>)
        ensures
            r == old(self).current(),
            final(self).axis() == old(self).axis(),
            match r {
                Some(n) => match final(self).current() {
                    Some(m) => m.tree() == n.tree() && n.tree().step(old(self).axis(), n.index())
                        == Some(m.index()),
                    None => n.tree().step(old(self).axis(), n.index()) is None,
                },
                None => final(self).current() is None,
            },
    {
        let node = self.node;
        self.node = match node {
            Some(n) => n.step(self.axis),
            None => None,
        };
        node
    }
}

/// A step of a traversal: a node is entered, or it is left after its
/// descendants.
#[derive(Clone, Copy)]
pub enum Edge<'a, 'input: 'a> {
    Open(Node<'a, 'input>),
    Close(Node<'a, 'input>),
}

impl<'a, 'input: 'a> Edge<'a, 'input> {
    /// The node of the step.
    pub open spec fn spec_node(&self) -> Node<'a, 'input> {
        match *self {
            Edge::Open(n) => n,
            Edge::Close(n) => n,
        }
    }

    /// The node of the step.
    #[verifier::when_used_as_spec(spec_node)]
    pub fn node(&self) -> (r: Node<'a, 'input>)
        ensures
            r == self.spec_node(),
    {
        match *self {
            Edge::Open(n) => n,
            Edge::Close(n) => n,
        }
    }
}

/// The step by the index of its node, if there is one.
pub open spec fn edge_of(e: Option<Edge>) -> Option<EdgeModel> {
    match e {
        Some(Edge::Open(n)) => Some(EdgeModel::Open(n.index())),
        Some(Edge::Close(n)) => Some(EdgeModel::Close(n.index())),
        None => None,
    }
}

/// A traversal of a subtree in the order of the document, which tells for
/// every node when it is entered and when it is left.
#[derive(Clone, Copy)]
pub struct Traverse<'a, 'input: 'a> {
    pub(crate) root: Node<'a, 'input>,
    pub(crate) edge: Option<Edge<'a, 'input>>,
}

impl<'a, 'input: 'a> Traverse<'a, 'input> {
    /// The node whose subtree is traversed.
    pub closed spec fn root(&self) -> Node<'a, 'input> {
        self.root
    }

    /// The step that was taken last; none before the first step and
    /// behind the last.
    pub closed spec fn edge(&self) -> Option<Edge<'a, 'input>> {
        self.edge
    }

    /// The step that was taken last is a step at a node of the tree that
    /// is traversed.
    #[verifier::type_invariant]
    pub closed spec fn in_tree(&self) -> bool {
        self.edge matches Some(e) ==> e.node().tree() == self.root.tree()
    }

    /// The next step: none once the root of the traversal was left; the
    /// step after that starts the traversal again.
    pub fn next(&mut self) -> (r: Option<Edge<'a, 'input>>)
        ensures
            final(self).root() == old(self).root(),
            r == final(self).edge(),
            r matches Some(e) ==> e.node().tree() == old(self).root().tree(),
            edge_of(r) == old(self).root().tree().next_edge(
                old(self).root().index(),
                edge_of(old(self).edge()),
            ),
    {
        proof {
            use_type_invariant(&*self);
        }
        self.edge = match self.edge {
            Some(Edge::Open(node)) => match node.first_child() {
                Some(first_child) => Some(Edge::Open(first_child)),
                None => Some(Edge::Close(node)),
            },
            Some(Edge::Close(node)) => {
                if node.id.get() == self.root.id.get() {
                    None
                } else {
                    match node.next_sibling() {
                        Some(next_sibling) => Some(Edge::Open(next_sibling)),
                        None => match node.parent() {
                            Some(parent) => Some(Edge::Close(parent)),
                            None => None,
                        },
                    }
                }
            },
            None => Some(Edge::Open(self.root)),
        };
        self.edge
    }
}

/// Iterator over children.
#[derive(Clone, Copy)]
pub struct Children<'a, 'input: 'a> {
    pub(crate) front: Option<Node<'a, 'input>>,
    pub(crate) back: Option<Node<'a, 'input>>,
}

/// The index of a node, if there is one.
pub open spec fn index_of(n: Option<Node>) -> Option<int> {
    match n {
        Some(x) => Some(x.index()),
        None => None,
    }
}

impl<'a, 'input: 'a> Children<'a, 'input> {
    /// The two ends are children of one node, and the front does not stand
    /// behind the back; or the iterator is at its end.
    #[verifier::type_invariant]
    pub closed spec fn in_order(&self) -> bool {
        match (self.front, self.back) {
            (Some(f), Some(b)) => f.tree() == b.tree() && 0 < f.index() <= b.index()
                && f.tree().nodes[f.index()].parent == f.tree().nodes[b.index()].parent,
            (None, None) => true,
            _ => false,
        }
    }

    /// The child that comes next from the front.
    pub closed spec fn front(&self) -> Option<Node<'a, 'input>> {
        self.front
    }

    /// The child that comes next from the back.
    pub closed spec fn back(&self) -> Option<Node<'a, 'input>> {
        self.back
    }

    /// The children that are left, by their indices, in the order of the
    /// document.
    #[verifier::opaque]
    pub open spec fn left(&self) -> Seq<int> {
        match self.front() {
            Some(n) => n.tree().children_between(Some(n.index()), index_of(self.back())),
            None => Seq::empty(),
        }
    }

    /// The next child from the front: where it is the next child from the
    /// back too, the iterator is at its end; else the sibling behind the
    /// child comes next.
    #[inline]
    pub fn next(&mut self) -> (r: Option<Node<'a, 'input>>)
        ensures
            r == old(self).front(),
            r is Some <==> old(self).left().len() > 0,
            r matches Some(n) ==> n.index() == old(self).left()[0] && final(self).left() == old(
                self,
            ).left().drop_first(),
            r is None ==> final(self).left() == Seq::<int>::empty(),
            index_of(old(self).front()) == index_of(old(self).back()) ==> final(self).front()
                is None && final(self).back() is None,
            index_of(old(self).front()) != index_of(old(self).back()) ==> final(self).back() == old(
                self,
            ).back() && match r {
                Some(n) => match final(self).front() {
                    Some(m) => m.tree() == n.tree() && n.tree().next_sibling(n.index()) == Some(
                        m.index(),
                    ),
                    None => n.tree().next_sibling(n.index()) is None,
                },
                None => final(self).front() is None,
            },
    {
        proof {
            use_type_invariant(&*self);
        }
        let node = self.front;
        let back = self.back;
        if same_node(self.front, self.back) {
            *self = Children { front: None, back: None };
        } else {
            proof {
                if let Some(n) = node {
                    if let Some(b) = back {
                        use_type_invariant(n);
                        use_type_invariant(b);
                        n.lemma_in_tree();
                        b.lemma_in_tree();
                        crate::laws::lemma_children_back(n.tree(), n.index(), b.index());
                    }
                }
            }
            let sibling = match node {
                Some(n) => n.next_sibling(),
                None => None,
            };
            *self = match sibling {
                Some(m) => Children { front: Some(m), back },
                None => Children { front: None, back: None },
            };
        }
        proof {
            reveal(Children::left);
            if let Some(n) = node {
                use_type_invariant(n);
                n.lemma_in_tree();
                let t = n.tree();
                let back = index_of(old(self).back());
                let all = t.children_between(Some(n.index()), back);
                if index_of(old(self).front()) == back {
                    assert(all =~= seq![n.index()]);
                } else {
                    let rest = t.children_between(t.next_sibling(n.index()), back);
                    assert(all =~= seq![n.index()] + rest);
                    assert(all.drop_first() =~= rest);
                    assert(self.left() == rest);
                }
                assert(self.left() =~= all.drop_first());
            }
        }
        node
    }

    /// The next child from the back: where it is the next child from the
    /// front too, the iterator is at its end; else the sibling before the
    /// child comes next.
    #[inline]
    pub fn next_back(&mut self) -> (r: Option<Node<'a, 'input>>)
        ensures
            r == old(self).back(),
            r is Some <==> old(self).left().len() > 0,
            r matches Some(n) ==> n.index() == old(self).left().last() && final(self).left() == old(
                self,
            ).left().drop_last(),
            r is None ==> final(self).left() == Seq::<int>::empty(),
            index_of(old(self).front()) == index_of(old(self).back()) ==> final(self).front()
                is None && final(self).back() is None,
            index_of(old(self).front()) != index_of(old(self).back()) ==> final(self).front()
                == old(self).front() && match r {
                Some(n) => match final(self).back() {
                    Some(m) => m.tree() == n.tree() && n.tree().nodes[n.index()].prev_sibling
                        == Some(NodeId(m.index() as u32)),
                    None => n.tree().nodes[n.index()].prev_sibling is None,
                },
                None => final(self).back() is None,
            },
    {
        proof {
            use_type_invariant(&*self);
            reveal(Children::left);
        }
        let node = self.back;
        let front = self.front;
        if same_node(self.back, self.front) {
            proof {
                if let Some(n) = node {
                    use_type_invariant(n);
                    n.lemma_in_tree();
                    assert(n.tree().children_between(Some(n.index()), Some(n.index()))
                        =~= seq![n.index()]);
                    assert(seq![n.index()].drop_last() =~= Seq::<int>::empty());
                }
            }
            *self = Children { front: None, back: None };
        } else {
            proof {
                if let Some(f) = front {
                    if let Some(n) = node {
                        use_type_invariant(f);
                        use_type_invariant(n);
                        f.lemma_in_tree();
                        n.lemma_in_tree();
                        crate::laws::lemma_children_back(f.tree(), f.index(), n.index());
                    }
                }
            }
            let sibling = match node {
                Some(n) => n.prev_sibling(),
                None => None,
            };
            *self = match sibling {
                Some(m) => Children { front, back: Some(m) },
                None => Children { front: None, back: None },
            };
        }
        node
    }

    /// The child that stands `n` children behind the front; the children
    /// up to it are passed over.
    pub fn nth(&mut self, n: usize) -> (r: Option<Node<'a, 'input>>)
        ensures
            match r {
                Some(c) => n < old(self).left().len() && c.index() == old(self).left()[n as int]
                    && final(self).left() == old(self).left().skip(n + 1),
                None => n >= old(self).left().len() && final(self).left() == Seq::<int>::empty(),
            },
    {
        let mut ahead: usize = n;
        while ahead > 0
            invariant
                ahead <= n,
                n - ahead <= old(self).left().len(),
                self.left() == old(self).left().skip(n - ahead),
            decreases ahead,
        {
            if self.next().is_none() {
                return None;
            }
            proof {
                assert(old(self).left().skip(n - ahead).drop_first() =~= old(self).left().skip(
                    n - ahead + 1,
                ));
            }
            ahead -= 1;
        }
        let r = self.next();
        proof {
            if r is Some {
                assert(old(self).left().skip(n as int).drop_first() =~= old(self).left().skip(
                    n + 1,
                ));
            }
        }
        r
    }
}

/// Whether two optional nodes are both absent or have the same ID.
fn same_node(a: Option<Node>, b: Option<Node>) -> (r: bool)
    ensures
        r == (index_of(a) == index_of(b)),
{
    match (a, b) {
        (Some(x), Some(y)) => x.id.get() == y.id.get(),
        (None, None) => true,
        _ => false,
    }
}

impl<'input> Document<'input> {
    /// Returns an iterator over document's descendant nodes.
    ///
    /// Shorthand for `doc.root().descendants()`.
    #[inline]
    pub fn descendants<'a>(&'a self) -> (r: Descendants<'a, 'input>)
        ensures
            r.tree() == self@,
            r.front() == 0,
            r.back() == self@.subtree_end(0),
    {
        self.root().descendants()
    }
}

impl<'a, 'input: 'a> Node<'a, 'input> {
    /// Returns element's attributes.
    #[inline]
    pub fn attributes(&self) -> (r: Attributes<'a, 'input>)
        ensures
            r.tree() == self.tree(),
            r.front() == self.tree().attributes_of(self.index()).start,
            r.back() == self.tree().attributes_of(self.index()).end,
    {
        let range = self.attribute_range();
        proof {
            use_type_invariant(self);
        }
        Attributes { doc: self.doc, front: range.start as usize, back: range.end as usize }
    }

    /// Returns element's namespaces.
    #[inline]
    pub fn namespaces(&self) -> (r: NamespaceIter<'a, 'input>)
        ensures
            r.tree() == self.tree(),
            r.front() == self.tree().visible(self.index()).start,
            r.back() == self.tree().visible(self.index()).end,
    {
        let range = self.visible();
        proof {
            use_type_invariant(self);
        }
        NamespaceIter { node: *self, front: range.start as usize, back: range.end as usize }
    }

    /// Returns the last element child of this node.
    pub fn last_element_child(&self) -> (r: Option<Self>)
        ensures
            match r {
                Some(n) => n.tree() == self.tree() && self.tree().last_element(
                    self.tree().children(self.index()),
                    self.tree().children(self.index()).len() as int,
                ) == Some(n.index()),
                None => self.tree().last_element(
                    self.tree().children(self.index()),
                    self.tree().children(self.index()).len() as int,
                ) is None,
            },
    {
        proof {
            use_type_invariant(self);
        }
        match last_element_child_index(&self.doc.nodes, self.id.get_usize(), Ghost(self.doc@)) {
            Some(i) => Some(self.at(i)),
            None => None,
        }
    }

    /// Returns an iterator over ancestor nodes starting at this node.
    #[inline]
    pub fn ancestors(&self) -> (r: AxisIter<'a, 'input>)
        ensures
            r.current() == Some(*self),
            r.axis() == Axis::Ancestors,
    {
        AxisIter { node: Some(*self), axis: Axis::Ancestors }
    }

    /// Returns an iterator over previous sibling nodes starting at this node.
    #[inline]
    pub fn prev_siblings(&self) -> (r: AxisIter<'a, 'input>)
        ensures
            r.current() == Some(*self),
            r.axis() == Axis::PrevSiblings,
    {
        AxisIter { node: Some(*self), axis: Axis::PrevSiblings }
    }

    /// Returns an iterator over next sibling nodes starting at this node.
    #[inline]
    pub fn next_siblings(&self) -> (r: AxisIter<'a, 'input>)
        ensures
            r.current() == Some(*self),
            r.axis() == Axis::NextSiblings,
    {
        AxisIter { node: Some(*self), axis: Axis::NextSiblings }
    }

    /// Returns an iterator over first children nodes starting at this node.
    #[inline]
    pub fn first_children(&self) -> (r: AxisIter<'a, 'input>)
        ensures
            r.current() == Some(*self),
            r.axis() == Axis::FirstChildren,
    {
        AxisIter { node: Some(*self), axis: Axis::FirstChildren }
    }

    /// Returns an iterator over last children nodes starting at this node.
    #[inline]
    pub fn last_children(&self) -> (r: AxisIter<'a, 'input>)
        ensures
            r.current() == Some(*self),
            r.axis() == Axis::LastChildren,
    {
        AxisIter { node: Some(*self), axis: Axis::LastChildren }
    }

    /// Returns an iterator over children nodes.
    #[inline]
    pub fn children(&self) -> (r: Children<'a, 'input>)
        ensures
            index_of(r.front()) == self.tree().first_child(self.index()),
            index_of(r.back()) == match self.tree().nodes[self.index()].last_child {
                Some(c) => Some(c.0 as int),
                None => None,
            },
            r.front() matches Some(n) ==> n.tree() == self.tree(),
            r.back() matches Some(n) ==> n.tree() == self.tree(),
            r.left() == self.tree().children(self.index()),
    {
        proof {
            reveal(Children::left);
            use_type_invariant(self);
            self.lemma_in_tree();
            let t = self.tree();
            let i = self.index();
            assert(t.links_wf(i));
            assert(t.family_wf(i));
            if t.first_child(i) is Some {
                crate::laws::lemma_first_child(t, i);
            }
        }
        match (self.first_child(), self.last_child()) {
            (Some(front), Some(back)) => Children { front: Some(front), back: Some(back) },
            _ => Children { front: None, back: None },
        }
    }

    /// Returns a traversal of this node and its descendants, which enters
    /// and leaves every node.
    #[inline]
    pub fn traverse(&self) -> (r: Traverse<'a, 'input>)
        ensures
            r.root() == *self,
            r.edge() is None,
    {
        Traverse { root: *self, edge: None }
    }

    /// Returns an iterator over this node and its descendants.
    #[inline]
    pub fn descendants(&self) -> (r: Descendants<'a, 'input>)
        ensures
            r.tree() == self.tree(),
            r.front() == self.index(),
            r.back() == self.tree().subtree_end(self.index()),
    {
        Descendants::new(*self)
    }
}

} // verus!
