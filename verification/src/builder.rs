//! The model of the tree builder: the state it keeps while it consumes
//! tokens, and what each token does to that state.

use crate::error::ErrorModel;
use crate::stream::{
    ByteClass, lemma_reference_progress, reference_at, run_end, Span, SpanReference,
};
use crate::strings::{is_boundary, lemma_char_at, lemma_valid_push_ascii, width_at};
use crate::textpos::text_pos;
use crate::tokenizer::{Lex, lex_content, SpanEnd, SpanToken};
use crate::tree::{
    AttributeData, ExpandedNameIndexed, NamespaceData, NamespaceIdx, NodeData, NodeId, NodeKind,
    ShortRange, Stored, Tree, xml_uri, xmlns_uri,
};
use vstd::prelude::*;
use vstd::string::*;
use vstd::utf8::*;

verus! {

/// An internal general entity: the spans of its name and of its value.
#[derive(Clone, Copy, PartialEq, Eq, Debug, Structural)]
pub struct Entity {
    pub name: Span,
    pub value: Span,
}

/// The name of the start tag that is being read.
#[derive(Clone, Copy, PartialEq, Eq, Debug, Structural)]
pub struct TagNameSpan {
    pub prefix: Span,
    pub name: Span,
    pub pos: usize,
    pub prefix_pos: usize,
}

impl TagNameSpan {
    pub open spec fn spec_new_null() -> TagNameSpan {
        TagNameSpan {
            prefix: Span { start: 0, end: 0 },
            name: Span { start: 0, end: 0 },
            pos: 0,
            prefix_pos: 0,
        }
    }

    #[inline]
    #[verifier::when_used_as_spec(spec_new_null)]
    pub fn new_null() -> (r: Self)
        ensures
            r == Self::spec_new_null(),
    {
        TagNameSpan { prefix: Span::new(0, 0), name: Span::new(0, 0), pos: 0, prefix_pos: 0 }
    }
}

/// An attribute of the start tag that is being read, before its namespace is resolved.
#[derive(Clone, Copy, PartialEq, Eq, Debug, Structural)]
pub struct TempAttributeData {
    pub prefix: Span,
    pub local: Span,
    pub value: Stored,
    pub range: Span,
    pub qname_len: u16,
    pub eq_len: u8,
}

/// The largest depth of references to entities inside references to entities.
pub open spec fn max_depth() -> int {
    10
}

/// The state of the tree builder.
pub struct Build {
    /// The tree as far as it is built.
    pub tree: Tree,
    /// The largest number of nodes that the tree may have.
    pub nodes_limit: u32,
    /// Where the bindings of the start tag that is being read begin.
    pub namespace_start_idx: usize,
    /// The attributes of the start tag that is being read.
    pub current_attributes: Seq<TempAttributeData>,
    /// The nodes whose subtree is complete and has nothing behind it yet.
    pub awaiting_subtree: Seq<NodeId>,
    /// The prefixes of the elements that are open, as they were written;
    /// the empty prefix of the root comes first.
    pub parent_prefixes: Seq<Span>,
    /// The entities that were declared.
    pub entities: Seq<Entity>,
    /// The pieces of the text node that is being read.
    pub after_text: Seq<Stored>,
    /// The node that the next node becomes a child of.
    pub parent_id: NodeId,
    /// The name of the start tag that is being read.
    pub tag_name: TagNameSpan,
    /// The number of references that were replaced inside the outermost one.
    pub references: u8,
}

/// A state, or the error that ended the building.
pub type Built = Result<Build, ErrorModel>;

/// The characters that a text of valid UTF-8 encodes.
pub open spec fn chars_of(bytes: Seq<u8>) -> Seq<char> {
    decode_utf8(bytes)
}

/// A qualified name as it is written: the local name, with the prefix and
/// a colon before it where the prefix is not empty.
pub open spec fn qname_chars(b: Seq<u8>, prefix: Span, local: Span) -> Seq<char> {
    if prefix.spec_is_empty() {
        chars_of(local.of(b))
    } else {
        chars_of(prefix.of(b)) + seq![':'] + chars_of(local.of(b))
    }
}

/// The nodes, with the start of the next subtree set to `next` in each node of `awaiting`.
pub open spec fn mark_awaiting(nodes: Seq<NodeData>, awaiting: Seq<NodeId>, next: NodeId) -> Seq<
    NodeData,
> {
    Seq::new(
        nodes.len(),
        |i: int|
            if awaiting.contains(NodeId(i as u32)) {
                NodeData { next_subtree: Some(next), ..nodes[i] }
            } else {
                nodes[i]
            },
    )
}

/// The bytes of the pieces of a text, one behind another.
pub open spec fn joined(tree: Tree, pieces: Seq<Stored>) -> Seq<u8>
    decreases pieces.len(),
{
    if pieces.len() == 0 {
        Seq::empty()
    } else {
        joined(tree, pieces.drop_last()) + tree.stored(pieces.last())
    }
}

/// The first index from `k` on at which the table holds the binding of `name` to `uri`.
pub open spec fn find_namespace(tree: Tree, name: Option<Seq<u8>>, uri: Seq<u8>, k: int) -> Option<
    int,
>
    decreases tree.namespaces.len() - k,
{
    if k < 0 || k >= tree.namespaces.len() {
        None
    } else if namespace_name(tree, k) == name && tree.stored(tree.namespaces[k].uri) == uri {
        Some(k)
    } else {
        find_namespace(tree, name, uri, k + 1)
    }
}

/// The prefix of the namespace at the index `k` of the table, as bytes.
pub open spec fn namespace_name(tree: Tree, k: int) -> Option<Seq<u8>> {
    match tree.namespaces[k].name {
        Some(n) => Some(tree.stored(n)),
        None => None,
    }
}

/// Whether a binding of `name` stands in the tree order from `start` on.
pub open spec fn binding_exists(tree: Tree, start: int, name: Option<Seq<u8>>) -> bool {
    exists|k: int| start <= k < tree.tree_order.len() && #[trigger] tree.binding_name(k) == name
}

/// The first index in `[k, end)` of the tree order at which `name` is bound.
pub open spec fn find_binding(tree: Tree, name: Option<Seq<u8>>, k: int, end: int) -> Option<int>
    decreases end - k,
{
    if k >= end {
        None
    } else if tree.binding_name(k) == name {
        Some(k)
    } else {
        find_binding(tree, name, k + 1, end)
    }
}

/// The first entity with the given name, from the index `k` on.
pub open spec fn find_entity(entities: Seq<Entity>, b: Seq<u8>, name: Seq<u8>, k: int) -> Option<
    Entity,
>
    decreases entities.len() - k,
{
    if k < 0 || k >= entities.len() {
        None
    } else if entities[k].name.of(b) == name {
        Some(entities[k])
    } else {
        find_entity(entities, b, name, k + 1)
    }
}

/// The namespace name of a name, as bytes; `None` for a name in no namespace.
pub open spec fn name_uri(tree: Tree, name: ExpandedNameIndexed) -> Option<Seq<u8>> {
    match name.namespace_idx {
        Some(idx) => Some(tree.stored(tree.namespaces[idx.0 as int].uri)),
        None => None,
    }
}

/// Two names are the same expanded name: the same local name in the same namespace.
pub open spec fn same_expanded_name(tree: Tree, x: ExpandedNameIndexed, y: ExpandedNameIndexed)
    -> bool {
    name_uri(tree, x) == name_uri(tree, y) && x.local_name.of(tree.text) == y.local_name.of(
        tree.text,
    )
}

/// Whether an attribute with the expanded name of `name` stands in the arena from `start` on.
pub open spec fn attribute_exists(tree: Tree, start: int, name: ExpandedNameIndexed) -> bool {
    exists|k: int|
        start <= k < tree.attributes.len() && same_expanded_name(
            tree,
            (#[trigger] tree.attributes[k]).name,
            name,
        )
}

impl Build {
    /// The bytes of the text.
    pub open spec fn text(self) -> Seq<u8> {
        self.tree.text
    }

    /// The state with another tree.
    pub open spec fn with_tree(self, tree: Tree) -> Build {
        Build { tree, ..self }
    }

    /// A new node of the given kind becomes the last child of the current
    /// parent. Every node that waited for the next subtree gets the new node
    /// as its next subtree. A node that is no element has no children and
    /// waits itself.
    #[verifier::opaque]
    pub open spec fn append_node(self, kind: NodeKind, range: Span) -> Result<
        (Build, NodeId),
        ErrorModel,
    > {
        let nodes = self.tree.nodes;
        let id = NodeId(nodes.len() as u32);
        let parent = self.parent_id.0 as int;
        let node = NodeData {
            parent: Some(self.parent_id),
            prev_sibling: nodes[parent].last_child,
            next_subtree: None,
            last_child: None,
            kind,
            range,
        };
        let linked = nodes.push(node).update(
            parent,
            NodeData { last_child: Some(id), ..nodes[parent] },
        );
        if nodes.len() >= self.nodes_limit {
            Err(ErrorModel::NodesLimitReached)
        } else {
            Ok(
                (
                    Build {
                        tree: Tree {
                            nodes: mark_awaiting(linked, self.awaiting_subtree, id),
                            ..self.tree
                        },
                        awaiting_subtree: if kind is Element {
                            Seq::empty()
                        } else {
                            seq![id]
                        },
                        ..self
                    },
                    id,
                ),
            )
        }
    }

    /// A piece of text: the first piece of a run makes a text node, and
    /// every piece is kept for the merge at the end of the run.
    #[verifier::opaque]
    pub open spec fn append_text(self, piece: Stored, range: Span) -> Built {
        if self.after_text.len() == 0 {
            match self.append_node(NodeKind::Text(piece), range) {
                Ok((m, _)) => Ok(Build { after_text: m.after_text.push(piece), ..m }),
                Err(e) => Err(e),
            }
        } else {
            Ok(Build { after_text: self.after_text.push(piece), ..self })
        }
    }

    /// A piece of text that the document owns.
    #[verifier::opaque]
    pub open spec fn append_owned_text(self, bytes: Seq<u8>, range: Span) -> Built {
        Build {
            tree: Tree { strings: self.tree.strings.push(bytes), ..self.tree },
            ..self
        }.append_text(Stored::Owned(self.tree.strings.len() as usize), range)
    }

    /// The text node that is being read gets the pieces of its run as one text.
    #[verifier::opaque]
    pub open spec fn merge_text(self) -> Build {
        let nodes = self.tree.nodes;
        let last = nodes.len() - 1;
        let text = Stored::Owned(self.tree.strings.len() as usize);
        if nodes.len() > 0 && nodes[last].kind is Text {
            Build {
                tree: Tree {
                    nodes: nodes.update(last, NodeData { kind: NodeKind::Text(text), ..nodes[last] }),
                    strings: self.tree.strings.push(joined(self.tree, self.after_text)),
                    ..self.tree
                },
                ..self
            }
        } else {
            self
        }
    }

    /// The end of a run of text: a run of more than one piece is merged.
    #[verifier::opaque]
    pub open spec fn reset_after_text(self) -> Build {
        if self.after_text.len() > 1 {
            Build { after_text: Seq::empty(), ..self.merge_text() }
        } else {
            Build { after_text: Seq::empty(), ..self }
        }
    }

    /// A binding of `name` to `uri` is appended to the tree order. The table
    /// of namespaces gets the pair unless it holds it already. 65536 pairs fit the table.
    #[verifier::opaque]
    pub open spec fn push_ns(self, name: Option<Stored>, uri: Stored) -> Built {
        let tree = self.tree;
        let name_bytes = match name {
            Some(n) => Some(tree.stored(n)),
            None => None,
        };
        match find_namespace(tree, name_bytes, tree.stored(uri), 0) {
            Some(k) => Ok(
                self.with_tree(
                    Tree { tree_order: tree.tree_order.push(NamespaceIdx(k as u16)), ..tree },
                ),
            ),
            None => if tree.namespaces.len() > u16::MAX {
                Err(ErrorModel::NamespacesLimitReached)
            } else {
                Ok(
                    self.with_tree(
                        Tree {
                            namespaces: tree.namespaces.push(NamespaceData { name, uri }),
                            tree_order: tree.tree_order.push(
                                NamespaceIdx(tree.namespaces.len() as u16),
                            ),
                            ..tree
                        },
                    ),
                )
            },
        }
    }

    /// The bindings of the parent in `[i, end)` are appended to the tree
    /// order, but for those whose prefix is bound from the start of the new
    /// bindings on.
    #[verifier::opaque]
    pub open spec fn inherit(self, i: int, end: int) -> Build
        decreases end - i,
    {
        if i >= end {
            self
        } else if binding_exists(
            self.tree,
            self.namespace_start_idx as int,
            self.tree.binding_name(i),
        ) {
            self.inherit(i + 1, end)
        } else {
            self.with_tree(
                Tree {
                    tree_order: self.tree.tree_order.push(self.tree.tree_order[i]),
                    ..self.tree
                },
            ).inherit(i + 1, end)
        }
    }

    /// The bindings that are visible at the element whose start tag ends:
    /// those of the parent where the tag declares none, else those of the
    /// tag and behind them those of the parent that the tag does not redeclare.
    /// More than 2^32 - 1 entries do not fit the tree order.
    #[verifier::opaque]
    pub open spec fn resolve_namespaces(self) -> Result<(Build, ShortRange), ErrorModel> {
        let parent = self.tree.nodes[self.parent_id.0 as int];
        let own = self.namespace_start_idx == self.tree.tree_order.len();
        let m = match parent.kind {
            NodeKind::Element { namespaces, .. } => self.inherit(
                namespaces.start as int,
                namespaces.end as int,
            ),
            _ => self,
        };
        if parent.kind is Element && own {
            Ok((self, parent.kind->Element_namespaces))
        } else if m.tree.tree_order.len() > u32::MAX {
            Err(ErrorModel::NamespacesLimitReached)
        } else {
            Ok(
                (
                    m,
                    ShortRange {
                        start: self.namespace_start_idx as u32,
                        end: m.tree.tree_order.len() as u32,
                    },
                ),
            )
        }
    }

    /// The index of the namespace that `prefix` is bound to in the range of
    /// bindings; `None` for the empty prefix where no default namespace is bound.
    #[verifier::opaque]
    pub open spec fn ns_idx_by_prefix(self, range: ShortRange, prefix_pos: usize, prefix: Span)
        -> Result<Option<NamespaceIdx>, ErrorModel> {
        let b = self.text();
        let name = if prefix.spec_is_empty() {
            None
        } else {
            Some(prefix.of(b))
        };
        match find_binding(self.tree, name, range.start as int, range.end as int) {
            Some(k) => Ok(Some(self.tree.tree_order[k])),
            None => if prefix.spec_is_empty() {
                Ok(None)
            } else {
                Err(
                    ErrorModel::UnknownNamespace(
                        chars_of(prefix.of(b)),
                        text_pos(b, prefix_pos as int),
                    ),
                )
            },
        }
    }

    /// The index of the namespace of an attribute with the given prefix: the
    /// namespace of `xml` for the prefix `xml`, none for the empty prefix.
    #[verifier::opaque]
    pub open spec fn attribute_ns_idx(self, range: ShortRange, attr: TempAttributeData) -> Result<
        Option<NamespaceIdx>,
        ErrorModel,
    > {
        if attr.prefix.of(self.text()) == "xml".spec_bytes() {
            Ok(Some(NamespaceIdx(0)))
        } else if attr.prefix.spec_is_empty() {
            Ok(None)
        } else {
            self.ns_idx_by_prefix(range, attr.range.start, attr.prefix)
        }
    }

    /// The attributes of the start tag from the index `k` on become
    /// attributes of the tree. Two attributes of one tag with the same
    /// expanded name are an error.
    #[verifier::opaque]
    pub open spec fn resolve_from(self, range: ShortRange, start: int, k: int) -> Built
        decreases self.current_attributes.len() - k,
    {
        if k < 0 || k >= self.current_attributes.len() {
            Ok(Build { current_attributes: Seq::empty(), ..self })
        } else {
            let attr = self.current_attributes[k];
            match self.attribute_ns_idx(range, attr) {
                Err(e) => Err(e),
                Ok(namespace_idx) => {
                    let name = ExpandedNameIndexed { namespace_idx, local_name: attr.local };
                    if attribute_exists(self.tree, start, name) {
                        Err(
                            ErrorModel::DuplicatedAttribute(
                                chars_of(attr.local.of(self.text())),
                                text_pos(self.text(), attr.range.start as int),
                            ),
                        )
                    } else {
                        self.with_tree(
                            Tree {
                                attributes: self.tree.attributes.push(
                                    AttributeData {
                                        name,
                                        value: attr.value,
                                        range: attr.range,
                                        qname_len: attr.qname_len,
                                        eq_len: attr.eq_len,
                                    },
                                ),
                                ..self.tree
                            },
                        ).resolve_from(range, start, k + 1)
                    }
                },
            }
        }
    }

    /// The attributes of the start tag become attributes of the tree: their
    /// range in the arena. Fewer than 2^32 - 1 attributes fit the arena.
    #[verifier::opaque]
    pub open spec fn resolve_attributes(self, range: ShortRange) -> Result<
        (Build, ShortRange),
        ErrorModel,
    > {
        let start = self.tree.attributes.len();
        if self.current_attributes.len() == 0 {
            Ok((self, ShortRange { start: 0, end: 0 }))
        } else if start + self.current_attributes.len() >= u32::MAX {
            Err(ErrorModel::AttributesLimitReached)
        } else {
            match self.resolve_from(range, start as int, 0) {
                Err(e) => Err(e),
                Ok(m) => Ok(
                    (m, ShortRange { start: start as u32, end: m.tree.attributes.len() as u32 }),
                ),
            }
        }
    }

    /// The element of the start tag that is being read, as a node.
    #[verifier::opaque]
    pub open spec fn append_element(self, attributes: ShortRange, namespaces: ShortRange, end: usize)
        -> Result<(Build, NodeId), ErrorModel> {
        match self.ns_idx_by_prefix(namespaces, self.tag_name.prefix_pos, self.tag_name.prefix) {
            Err(e) => Err(e),
            Ok(namespace_idx) => self.append_node(
                NodeKind::Element {
                    tag_name: ExpandedNameIndexed { namespace_idx, local_name: self.tag_name.name },
                    attributes,
                    namespaces,
                },
                Span { start: self.tag_name.pos, end },
            ),
        }
    }

    /// A close tag: it has to name the current parent as its start tag
    /// named it. The parent is complete, and its parent becomes the current one.
    #[verifier::opaque]
    pub open spec fn close_element(self, prefix: Span, local: Span, range: Span) -> Built {
        let b = self.text();
        let nodes = self.tree.nodes;
        let parent = nodes[self.parent_id.0 as int];
        let parent_prefix = self.parent_prefixes.last();
        let closed = nodes.update(
            self.parent_id.0 as int,
            NodeData { range: Span { start: parent.range.start, end: range.end }, ..parent },
        );
        if parent.kind is Element && (prefix.of(b) != parent_prefix.of(b) || local.of(b)
            != parent.kind->Element_tag_name.local_name.of(b)) {
            Err(
                ErrorModel::UnexpectedCloseTag(
                    qname_chars(b, parent_prefix, parent.kind->Element_tag_name.local_name),
                    qname_chars(b, prefix, local),
                    text_pos(b, range.start as int),
                ),
            )
        } else if parent.parent is None || self.parent_prefixes.len() <= 1 {
            Err(ErrorModel::UnexpectedEntityCloseTag(text_pos(b, range.start as int)))
        } else {
            Ok(
                Build {
                    tree: Tree { nodes: closed, ..self.tree },
                    awaiting_subtree: self.awaiting_subtree.push(self.parent_id),
                    parent_id: parent.parent->0,
                    parent_prefixes: self.parent_prefixes.drop_last(),
                    ..self
                },
            )
        }
    }

    /// The end of a tag. The end of a start tag resolves the bindings and
    /// the attributes of the tag and makes the element; `>` makes the
    /// element the current parent.
    #[verifier::opaque]
    pub open spec fn process_element(self, end: SpanEnd, range: Span) -> Built {
        let b = self.text();
        let ns = self.resolve_namespaces();
        let started = Build {
            namespace_start_idx: ns->Ok_0.0.tree.tree_order.len() as usize,
            ..ns->Ok_0.0
        };
        let attrs = started.resolve_attributes(ns->Ok_0.1);
        let m = attrs->Ok_0.0;
        if self.tag_name.name.spec_is_empty() {
            Err(ErrorModel::UnexpectedEntityCloseTag(text_pos(b, range.start as int)))
        } else if ns is Err {
            Err(ns->Err_0)
        } else if attrs is Err {
            Err(attrs->Err_0)
        } else {
            match end {
                SpanEnd::Empty => match m.append_element(attrs->Ok_0.1, ns->Ok_0.1, range.end) {
                    Err(e) => Err(e),
                    Ok((n, id)) => Ok(
                        Build { awaiting_subtree: n.awaiting_subtree.push(id), ..n },
                    ),
                },
                SpanEnd::Close(prefix, local) => m.close_element(prefix, local, range),
                SpanEnd::Open => match m.append_element(attrs->Ok_0.1, ns->Ok_0.1, range.end) {
                    Err(e) => Err(e),
                    Ok((n, id)) => Ok(
                        Build {
                            parent_id: id,
                            parent_prefixes: n.parent_prefixes.push(n.tag_name.prefix),
                            ..n
                        },
                    ),
                },
            }
        }
    }
}

/// Tab, line feed or carriage return: the white space that the
/// normalization of an attribute value turns into a space.
pub open spec fn is_attribute_space(c: u8) -> bool {
    c == 0x09 || c == 0x0a || c == 0x0d
}

/// The bytes in `[pos, end)` with each tab, line feed and carriage return
/// replaced by a space; a carriage return with a line feed behind it gives one space.
pub open spec fn spaces_normalized(b: Seq<u8>, pos: int, end: int) -> Seq<u8>
    decreases end - pos,
{
    if pos >= end {
        Seq::empty()
    } else if b[pos] == 0x0d && pos + 1 < end && b[pos + 1] == 0x0a {
        seq![0x20u8] + spaces_normalized(b, pos + 2, end)
    } else if is_attribute_space(b[pos]) {
        seq![0x20u8] + spaces_normalized(b, pos + 1, end)
    } else {
        seq![b[pos]] + spaces_normalized(b, pos + 1, end)
    }
}

/// The bytes in `[pos, end)` with each end of line as a line feed: a
/// carriage return with a line feed behind it, and a carriage return alone,
/// give a line feed.
pub open spec fn line_ends_normalized(b: Seq<u8>, pos: int, end: int) -> Seq<u8>
    decreases end - pos,
{
    if pos >= end {
        Seq::empty()
    } else if b[pos] == 0x0d && pos + 1 < end && b[pos + 1] == 0x0a {
        seq![0x0au8] + line_ends_normalized(b, pos + 2, end)
    } else if b[pos] == 0x0d {
        seq![0x0au8] + line_ends_normalized(b, pos + 1, end)
    } else {
        seq![b[pos]] + line_ends_normalized(b, pos + 1, end)
    }
}

/// The count of references after one more reference to an entity at the
/// given depth, or the error of a loop: at most 255 references are
/// replaced inside one reference, and at most 10 one inside another.
pub open spec fn enter_entity(b: Seq<u8>, pos: int, depth: nat, references: u8) -> Result<
    u8,
    ErrorModel,
> {
    if depth > 0 && references == u8::MAX {
        Err(ErrorModel::EntityReferenceLoop(text_pos(b, pos)))
    } else if depth >= max_depth() {
        Err(ErrorModel::EntityReferenceLoop(text_pos(b, pos)))
    } else if depth == 0 {
        Ok(references)
    } else {
        Ok((references + 1) as u8)
    }
}

/// The count of references behind a reference to an entity at the given
/// depth: the count starts again where the depth is back at zero.
pub open spec fn leave_entity(depth: nat, references: u8) -> u8 {
    if depth == 0 {
        0
    } else {
        references
    }
}

/// What is left of the depth of references.
pub open spec fn fuel(depth: nat) -> nat {
    if depth < max_depth() {
        (max_depth() - depth) as nat
    } else {
        0
    }
}

/// A normalized attribute value, and the count of references behind it.
pub struct Normalized {
    pub bytes: Seq<u8>,
    pub references: u8,
}

/// The attribute value in `[pos, end)`, normalized and appended to `buf`:
/// white space becomes spaces, a reference to a character becomes the
/// character, and a reference to an entity becomes the normalized value of
/// the entity. Inside the value of an entity a reference to `<` is an
/// error, and a reference to white space gives a space.
pub open spec fn normalize_from(
    b: Seq<u8>,
    entities: Seq<Entity>,
    pos: int,
    end: int,
    depth: nat,
    references: u8,
    buf: Seq<u8>,
) -> Result<Normalized, ErrorModel>
    decreases fuel(depth), (if end > pos {
        end - pos
    } else {
        0
    }),
{
    let amp = run_end(b, pos, end, ByteClass::Not(0x26));
    let plain = buf + spaces_normalized(b, pos, amp);
    if amp >= end {
        Ok(Normalized { bytes: plain, references })
    } else {
        match reference_at(b, amp, end) {
            None => Err(ErrorModel::MalformedEntityReference(text_pos(b, amp))),
            Some((SpanReference::Char(ch), p)) => {
                proof {
                    lemma_reference_progress(b, amp, end);
                    crate::stream::lemma_run_end_ge(b, pos, end, ByteClass::Not(0x26));
                }
                if depth > 0 && ch == '<' {
                    Err(ErrorModel::InvalidAttributeValue(text_pos(b, amp)))
                } else if depth > 0 && (ch == '\t' || ch == '\r' || ch == '\n') {
                    normalize_from(b, entities, p, end, depth, references, plain.push(0x20))
                } else {
                    normalize_from(
                        b,
                        entities,
                        p,
                        end,
                        depth,
                        references,
                        plain + encode_scalar(ch as u32),
                    )
                }
            },
            Some((SpanReference::Entity(name), p)) => {
                proof {
                    lemma_reference_progress(b, amp, end);
                    crate::stream::lemma_run_end_ge(b, pos, end, ByteClass::Not(0x26));
                }
                match find_entity(entities, b, name.of(b), 0) {
                    None => Err(
                        ErrorModel::UnknownEntityReference(
                            chars_of(name.of(b)),
                            text_pos(b, amp),
                        ),
                    ),
                    Some(entity) => match enter_entity(b, p, depth, references) {
                        Err(e) => Err(e),
                        Ok(entered) => match normalize_from(
                            b,
                            entities,
                            entity.value.start as int,
                            entity.value.end as int,
                            depth + 1,
                            entered,
                            plain,
                        ) {
                            Err(e) => Err(e),
                            Ok(inner) => normalize_from(
                                b,
                                entities,
                                p,
                                end,
                                depth,
                                leave_entity(depth, inner.references),
                                inner.bytes,
                            ),
                        },
                    },
                }
            },
        }
    }
}

/// What the normalization of line ends appends for the byte `c`, which
/// comes from the text: a carriage return at the end of the buffer becomes
/// a line feed, and swallows a line feed that follows it; a carriage return
/// that is the last byte of the stream becomes a line feed at once.
pub open spec fn push_from_text(buf: Seq<u8>, c: u8, at_end: bool) -> Seq<u8> {
    if buf.len() > 0 && buf.last() == 0x0d {
        let fixed = buf.drop_last().push(0x0a);
        if at_end && c == 0x0d {
            fixed.push(0x0a)
        } else if c != 0x0a {
            fixed.push(c)
        } else {
            fixed
        }
    } else if at_end && c == 0x0d {
        buf.push(0x0a)
    } else {
        buf.push(c)
    }
}

/// `push_from_text` for each byte of `bytes` in turn.
pub open spec fn push_all_from_text(buf: Seq<u8>, bytes: Seq<u8>, at_end: bool) -> Seq<u8>
    decreases bytes.len(),
{
    if bytes.len() == 0 {
        buf
    } else {
        push_all_from_text(push_from_text(buf, bytes[0], at_end), bytes.drop_first(), at_end)
    }
}

/// The text that is being collected from a text token.
pub struct TextState {
    /// The bytes collected so far.
    pub buf: Seq<u8>,
    /// The next byte of the text is taken as it is.
    pub as_is: bool,
}

impl Build {
    /// The collected text, if there is any, becomes a piece of text.
    #[verifier::opaque]
    pub open spec fn flush_text(self, buf: Seq<u8>, range: Span) -> Built {
        if buf.len() > 0 {
            self.append_owned_text(buf, range)
        } else {
            Ok(self)
        }
    }

    /// The stored value of an attribute: a span of the input where the value
    /// holds no reference and no white space but spaces, else a string of
    /// the document with the normalized value.
    #[verifier::opaque]
    pub open spec fn attribute_value(self, value: Span, depth: nat) -> Result<
        (Build, Stored),
        ErrorModel,
    > {
        let b = self.text();
        let norm = normalize_from(
            b,
            self.entities,
            value.start as int,
            value.end as int,
            depth,
            self.references,
            Seq::empty(),
        );
        if !(exists|k: int|
            value.start <= k < value.end && (#[trigger] b[k] == 0x26 || is_attribute_space(b[k]))) {
            Ok((self, Stored::Input(value)))
        } else if norm is Err {
            Err(norm->Err_0)
        } else {
            Ok(
                (
                    Build {
                        tree: Tree {
                            strings: self.tree.strings.push(norm->Ok_0.bytes),
                            ..self.tree
                        },
                        references: norm->Ok_0.references,
                        ..self
                    },
                    Stored::Owned(self.tree.strings.len() as usize),
                ),
            )
        }
    }

    /// An attribute of a start tag. `xmlns:prefix` binds a prefix and
    /// `xmlns` the default namespace; any other attribute waits for the end
    /// of the tag. The prefix `xml` and the namespaces of `xml` and `xmlns`
    /// are bound to nothing else, and a tag binds no prefix twice, nor the
    /// default namespace.
    #[verifier::opaque]
    pub open spec fn process_attribute(
        self,
        range: Span,
        qname_len: u16,
        eq_len: u8,
        prefix: Span,
        local: Span,
        value: Span,
        depth: nat,
    ) -> Built {
        let b = self.text();
        let pos = text_pos(b, range.start as int);
        let normalized = self.attribute_value(value, depth);
        let m = normalized->Ok_0.0;
        let stored = normalized->Ok_0.1;
        let uri = m.tree.stored(stored);
        if normalized is Err {
            Err(normalized->Err_0)
        } else if prefix.of(b) == "xmlns".spec_bytes() {
            if uri == xmlns_uri() {
                Err(ErrorModel::UnexpectedXmlnsUri(pos))
            } else if local.of(b) == "xml".spec_bytes() && uri != xml_uri() {
                Err(ErrorModel::InvalidXmlPrefixUri(pos))
            } else if local.of(b) != "xml".spec_bytes() && uri == xml_uri() {
                Err(ErrorModel::UnexpectedXmlUri(pos))
            } else if binding_exists(m.tree, m.namespace_start_idx as int, Some(local.of(b))) {
                Err(ErrorModel::DuplicatedNamespace(chars_of(local.of(b)), pos))
            } else if uri == xml_uri() {
                Ok(m)
            } else {
                m.push_ns(Some(Stored::Input(local)), stored)
            }
        } else if local.of(b) == "xmlns".spec_bytes() {
            if uri == xml_uri() {
                Err(ErrorModel::UnexpectedXmlUri(pos))
            } else if uri == xmlns_uri() {
                Err(ErrorModel::UnexpectedXmlnsUri(pos))
            } else if binding_exists(m.tree, m.namespace_start_idx as int, None) {
                Err(ErrorModel::DuplicatedNamespace(Seq::empty(), pos))
            } else {
                m.push_ns(None, stored)
            }
        } else {
            Ok(
                Build {
                    current_attributes: m.current_attributes.push(
                        TempAttributeData { prefix, local, value: stored, range, qname_len, eq_len },
                    ),
                    ..m
                },
            )
        }
    }

    /// A CDATA section is a piece of text as it stands, but that each end
    /// of line becomes a line feed.
    #[verifier::opaque]
    pub open spec fn process_cdata(self, text: Span, range: Span) -> Built {
        let b = self.text();
        if run_end(b, text.start as int, text.end as int, ByteClass::Not(0x0d)) >= text.end {
            self.append_text(Stored::Input(text), range)
        } else {
            self.append_owned_text(
                line_ends_normalized(b, text.start as int, text.end as int),
                range,
            )
        }
    }

    /// A processing instruction ends the run of text and becomes a node.
    #[verifier::opaque]
    pub open spec fn process_pi(self, target: Span, value: Option<Span>, range: Span) -> Built {
        match self.reset_after_text().append_node(NodeKind::PI { target, value }, range) {
            Ok((m, _)) => Ok(m),
            Err(e) => Err(e),
        }
    }

    /// A comment ends the run of text and becomes a node.
    #[verifier::opaque]
    pub open spec fn process_comment(self, text: Span, range: Span) -> Built {
        match self.reset_after_text().append_node(NodeKind::Comment(text), range) {
            Ok((m, _)) => Ok(m),
            Err(e) => Err(e),
        }
    }

    /// The name of a start tag ends the run of text. `xmlns` is no prefix of an element.
    #[verifier::opaque]
    pub open spec fn start_element(self, prefix: Span, local: Span, start: usize) -> Built {
        let b = self.text();
        if prefix.of(b) == "xmlns".spec_bytes() {
            Err(ErrorModel::InvalidElementNamePrefix(text_pos(b, start + 1)))
        } else {
            Ok(
                Build {
                    tag_name: TagNameSpan {
                        prefix,
                        name: local,
                        pos: start,
                        prefix_pos: (start + 1) as usize,
                    },
                    ..self.reset_after_text()
                },
            )
        }
    }

    /// The end of a tag ends the run of text.
    #[verifier::opaque]
    pub open spec fn end_element(self, end: SpanEnd, range: Span) -> Built {
        self.reset_after_text().process_element(end, range)
    }

    /// The state in which the content of an entity is read: one level
    /// deeper, with no start tag that is being read.
    pub open spec fn entered(self, references: u8) -> Build {
        Build { tag_name: TagNameSpan::spec_new_null(), references, ..self }
    }

    /// The state behind the content of an entity: back at the depth and at
    /// the start tag of before.
    pub open spec fn left(self, tag_name: TagNameSpan, depth: nat) -> Build {
        Build { tag_name, references: leave_entity(depth, self.references), ..self }
    }

    /// A reference to an entity in a text, which ends at `end`: the
    /// collected text becomes a piece of text, and the content that the
    /// value of the entity holds is read one level deeper.
    #[verifier::opaque]
    pub open spec fn expand_entity(
        self,
        entity: Entity,
        end: int,
        range: Span,
        buf: Seq<u8>,
        depth: nat,
    ) -> Built
        decreases fuel(depth), 0int, 0int,
    {
        let b = self.text();
        let flushed = self.flush_text(buf, range);
        let entered = enter_entity(b, end, depth, flushed->Ok_0.references);
        let content = lex_content(b, entity.value.start as int, entity.value.end as int, 0);
        if flushed is Err {
            Err(flushed->Err_0)
        } else if entered is Err {
            Err(entered->Err_0)
        } else {
            match flushed->Ok_0.entered(entered->Ok_0).process_tokens(content.tokens, 0, depth + 1) {
                Err(e) => Err(e),
                Ok(inner) => if content.err is Some {
                    Err(content.err->0)
                } else {
                    Ok(inner.left(flushed->Ok_0.tag_name, depth))
                },
            }
        }
    }

    /// The text in `[pos, end)` with its references: character data is
    /// collected with each end of line as a line feed, a reference to a
    /// character gives the character, and a reference to an entity gives
    /// the content of the entity.
    #[verifier::opaque]
    pub open spec fn text_chunks(
        self,
        pos: int,
        end: int,
        range: Span,
        st: TextState,
        depth: nat,
    ) -> Built
        decreases fuel(depth), 1int, (if end > pos {
            end - pos
        } else {
            0
        }),
    {
        let b = self.text();
        if pos >= end {
            self.flush_text(st.buf, range)
        } else if b[pos] == 0x26 {
            match reference_at(b, pos, end) {
                None => Err(ErrorModel::MalformedEntityReference(text_pos(b, pos))),
                Some((SpanReference::Char(ch), p)) => {
                    proof {
                        lemma_reference_progress(b, pos, end);
                    }
                    self.text_chunks(p, end, range, st.with_char(ch, depth, p >= end), depth)
                },
                Some((SpanReference::Entity(name), p)) => {
                    proof {
                        lemma_reference_progress(b, pos, end);
                    }
                    match find_entity(self.entities, b, name.of(b), 0) {
                        None => Err(
                            ErrorModel::UnknownEntityReference(
                                chars_of(name.of(b)),
                                text_pos(b, pos),
                            ),
                        ),
                        Some(entity) => match self.expand_entity(entity, p, range, st.buf, depth) {
                            Err(e) => Err(e),
                            Ok(m) => m.text_chunks(
                                p,
                                end,
                                range,
                                TextState { buf: Seq::empty(), as_is: false },
                                depth,
                            ),
                        },
                    }
                },
            }
        } else {
            self.text_chunks(
                pos + width_at(b, pos),
                end,
                range,
                st.with_plain(
                    b.subrange(pos, pos + width_at(b, pos)),
                    pos + width_at(b, pos) >= end,
                ),
                depth,
            )
        }
    }

    /// A text token: a piece of text as it stands where it holds no
    /// reference and no carriage return.
    #[verifier::opaque]
    pub open spec fn process_text(self, text: Span, range: Span, depth: nat) -> Built
        decreases fuel(depth), 2int, 0int,
    {
        let b = self.text();
        if !(exists|k: int| text.start <= k < text.end && (#[trigger] b[k] == 0x26 || b[k] == 0x0d)) {
            self.append_text(Stored::Input(text), range)
        } else {
            self.text_chunks(
                range.start as int,
                range.end as int,
                range,
                TextState { buf: Seq::empty(), as_is: false },
                depth,
            )
        }
    }

    /// What a token does to the state.
    #[verifier::opaque]
    pub open spec fn process_token(self, token: SpanToken, depth: nat) -> Built
        decreases fuel(depth), 3int, 0int,
    {
        match token {
            SpanToken::ProcessingInstruction(target, value, range) => self.process_pi(
                target,
                value,
                range,
            ),
            SpanToken::Comment(text, range) => self.process_comment(text, range),
            SpanToken::EntityDeclaration(name, value) => Ok(
                Build { entities: self.entities.push(Entity { name, value }), ..self },
            ),
            SpanToken::ElementStart(prefix, local, start) => self.start_element(prefix, local, start),
            SpanToken::Attribute(range, qname_len, eq_len, prefix, local, value) => self.process_attribute(
                range,
                qname_len,
                eq_len,
                prefix,
                local,
                value,
                depth,
            ),
            SpanToken::ElementEnd(end, range) => self.end_element(end, range),
            SpanToken::Text(text, range) => self.process_text(text, range, depth),
            SpanToken::Cdata(text, range) => self.process_cdata(text, range),
        }
    }

    /// What the tokens from the index `k` on do to the state, one after another.
    #[verifier::opaque]
    pub open spec fn process_tokens(self, tokens: Seq<SpanToken>, k: int, depth: nat) -> Built
        decreases fuel(depth), 4int, tokens.len() - k,
    {
        if k < 0 || k >= tokens.len() {
            Ok(self)
        } else {
            match self.process_token(tokens[k], depth) {
                Err(e) => Err(e),
                Ok(m) => m.process_tokens(tokens, k + 1, depth),
            }
        }
    }
}

impl TextState {
    /// The collected text with a character that a reference stands for:
    /// inside the value of an entity it is taken like a character of the
    /// text; else it is taken as it is, and so is the byte behind it.
    pub open spec fn with_char(self, ch: char, depth: nat, at_end: bool) -> TextState {
        if depth > 0 {
            TextState {
                buf: push_all_from_text(self.buf, encode_scalar(ch as u32), at_end),
                as_is: self.as_is,
            }
        } else {
            TextState { buf: self.buf + encode_scalar(ch as u32), as_is: true }
        }
    }

    /// The collected text with the bytes of a character of the text.
    pub open spec fn with_plain(self, bytes: Seq<u8>, at_end: bool) -> TextState {
        TextState {
            buf: if self.as_is {
                push_all_from_text(self.buf.push(bytes[0]), bytes.drop_first(), at_end)
            } else {
                push_all_from_text(self.buf, bytes, at_end)
            },
            as_is: false,
        }
    }
}

/// The state before the first token: a tree of the root node alone, with
/// the prefix `xml` bound to its namespace at the index 0.
pub open spec fn initial(b: Seq<u8>, nodes_limit: u32) -> Build {
    Build {
        tree: Tree {
            text: b,
            nodes: seq![
                NodeData {
                    parent: None,
                    prev_sibling: None,
                    next_subtree: None,
                    last_child: None,
                    kind: NodeKind::Root,
                    range: Span { start: 0, end: b.len() as usize },
                },
            ],
            attributes: Seq::empty(),
            namespaces: seq![
                NamespaceData { name: Some(Stored::Owned(0)), uri: Stored::Owned(1) },
            ],
            tree_order: seq![NamespaceIdx(0)],
            strings: seq!["xml".spec_bytes(), xml_uri()],
        },
        nodes_limit,
        namespace_start_idx: 1,
        current_attributes: Seq::empty(),
        awaiting_subtree: Seq::empty(),
        parent_prefixes: seq![Span { start: 0, end: 0 }],
        entities: Seq::empty(),
        after_text: Seq::empty(),
        parent_id: NodeId(0),
        tag_name: TagNameSpan::spec_new_null(),
        references: 0,
    }
}

/// The tree of a document: the tokens of the text build it, one after
/// another. The first error ends the building, be it an error of a token or
/// the error that ends the tokens. A text of more than 2^32 - 1 bytes, a tree
/// without an element and an element that is not closed are errors.
pub open spec fn build_tree(b: Seq<u8>, allow_dtd: bool, nodes_limit: u32) -> Result<
    Tree,
    ErrorModel,
> {
    let lex = crate::tokenizer::lex_document(b, allow_dtd);
    let built = initial(b, nodes_limit).process_tokens(lex.tokens, 0, 0);
    if b.len() > u32::MAX {
        Err(ErrorModel::SizeLimit)
    } else if built is Err {
        Err(built->Err_0)
    } else if lex.err is Some {
        Err(lex.err->0)
    } else if built->Ok_0.tree.first_element(built->Ok_0.tree.children(0), 0) is None {
        Err(ErrorModel::NoRootNode)
    } else if built->Ok_0.parent_prefixes.len() > 1 {
        Err(ErrorModel::UnclosedRootNode)
    } else {
        Ok(built->Ok_0.tree)
    }
}

impl Build {
    /// The state refers to what is there: every index lies in its arena
    /// and every span in the text.
    #[verifier::opaque]
    pub open spec fn safe(self) -> bool {
        let t = self.tree;
        &&& valid_utf8(t.text)
        &&& 1 <= t.nodes.len() <= u32::MAX
        &&& t.attributes.len() < u32::MAX
        &&& 1 <= t.namespaces.len() <= u16::MAX + 1
        &&& t.tree_order.len() >= 1
        &&& self.parent_id.0 < t.nodes.len()
        &&& self.parent_prefixes.len() >= 1
        &&& self.namespace_start_idx <= t.tree_order.len()
        &&& t.data_wf()
        &&& forall|i: int|
            0 <= i < t.nodes.len() ==> match (#[trigger] t.nodes[i]).parent {
                Some(p) => p.0 < i,
                None => true,
            }
        &&& forall|k: int|
            0 <= k < self.awaiting_subtree.len() ==> (#[trigger] self.awaiting_subtree[k]).0
                < t.nodes.len()
        &&& forall|k: int|
            0 <= k < self.current_attributes.len() ==> (#[trigger] self.current_attributes[k]).wf(t)
        &&& forall|k: int|
            0 <= k < self.entities.len() ==> (#[trigger] self.entities[k]).name.wf(t.text)
                && self.entities[k].value.wf(t.text)
        &&& forall|k: int|
            0 <= k < self.after_text.len() ==> t.stored_wf(#[trigger] self.after_text[k])
        &&& forall|k: int|
            0 <= k < self.parent_prefixes.len() ==> (#[trigger] self.parent_prefixes[k]).wf(t.text)
        &&& self.tag_name.prefix.wf(t.text)
        &&& self.tag_name.name.wf(t.text)
    }
}

impl TempAttributeData {
    /// The attribute refers to what is there.
    pub open spec fn wf(self, t: Tree) -> bool {
        &&& self.prefix.wf(t.text)
        &&& self.local.wf(t.text)
        &&& self.range.wf(t.text)
        &&& t.stored_wf(self.value)
    }
}

impl Tree {
    /// The tree with one more string. What was well-formed stays well-formed,
    /// and every stored text keeps its bytes.
    pub proof fn lemma_push_string(self, bytes: Seq<u8>)
        requires
            self.data_wf(),
            valid_utf8(bytes),
        ensures
            (Tree { strings: self.strings.push(bytes), ..self }).data_wf(),
            forall|s: Stored|
                self.stored_wf(s) ==> #[trigger] (Tree {
                    strings: self.strings.push(bytes),
                    ..self
                }).stored_wf(s) && (Tree { strings: self.strings.push(bytes), ..self }).stored(s)
                    == self.stored(s),
            forall|k: NodeKind|
                self.kind_wf(k) ==> #[trigger] (Tree {
                    strings: self.strings.push(bytes),
                    ..self
                }).kind_wf(k),
    {
        reveal(Build::safe);
        let t = Tree { strings: self.strings.push(bytes), ..self };
        assert forall|i: int| 0 <= i < t.nodes.len() implies t.kind_wf(
            #[trigger] t.nodes[i].kind,
        ) by {
            assert(self.kind_wf(self.nodes[i].kind));
        }
        assert forall|k: int| 0 <= k < t.attributes.len() implies t.name_wf(
            (#[trigger] t.attributes[k]).name,
        ) && t.stored_wf(t.attributes[k].value) by {
            assert(self.name_wf(self.attributes[k].name));
        }
        assert forall|k: int| 0 <= k < t.namespaces.len() implies t.stored_wf(
            (#[trigger] t.namespaces[k]).uri,
        ) && match t.namespaces[k].name {
            Some(n) => t.stored_wf(n),
            None => true,
        } by {
            assert(self.stored_wf(self.namespaces[k].uri));
        }
        assert forall|k: int| 0 <= k < t.strings.len() implies valid_utf8(
            #[trigger] t.strings[k],
        ) by {
            if k < self.strings.len() {
                assert(valid_utf8(self.strings[k]));
            }
        }
    }
}

impl Build {
    /// A new node that refers to what is there leaves the state safe.
    pub proof fn lemma_append_node_safe(self, kind: NodeKind, range: Span)
        requires
            self.safe(),
            self.tree.kind_wf(kind),
            !(kind is Root),
        ensures
            self.append_node(kind, range) matches Ok((m, id)) ==> m.safe() && id.0
                == self.tree.nodes.len() && m.tree.nodes.len() == self.tree.nodes.len() + 1
                && m.tree.nodes[id.0 as int].kind == kind && m.same_but_nodes(self)
                && m.parent_id == self.parent_id && forall|i: int|
                0 <= i < self.tree.nodes.len() ==> (#[trigger] m.tree.nodes[i]).kind
                    == self.tree.nodes[i].kind,
    {
        reveal(Build::safe);
        reveal(Build::append_node);
        if self.append_node(kind, range) is Ok {
            let m = self.append_node(kind, range)->Ok_0.0;
            let t = m.tree;
            assert forall|i: int| 0 <= i < t.nodes.len() implies t.kind_wf(
                #[trigger] t.nodes[i].kind,
            ) by {
                if i < self.tree.nodes.len() {
                    assert(self.tree.kind_wf(self.tree.nodes[i].kind));
                }
            }
            assert forall|k: int| 0 <= k < t.attributes.len() implies t.name_wf(
                (#[trigger] t.attributes[k]).name,
            ) && t.stored_wf(t.attributes[k].value) by {
                assert(self.tree.name_wf(self.tree.attributes[k].name));
            }
            assert forall|k: int| 0 <= k < m.current_attributes.len() implies (
            #[trigger] m.current_attributes[k]).wf(t) by {
                assert(self.current_attributes[k].wf(self.tree));
            }
            assert forall|k: int| 0 <= k < m.after_text.len() implies t.stored_wf(
                #[trigger] m.after_text[k],
            ) by {
                assert(self.tree.stored_wf(self.after_text[k]));
            }
        }
    }

    /// The two states differ in their nodes and in the nodes that wait at most.
    pub open spec fn same_but_nodes(self, other: Build) -> bool {
        &&& self.tree.text == other.tree.text
        &&& self.tree.attributes == other.tree.attributes
        &&& self.tree.namespaces == other.tree.namespaces
        &&& self.tree.tree_order == other.tree.tree_order
        &&& self.tree.strings == other.tree.strings
        &&& self.nodes_limit == other.nodes_limit
        &&& self.namespace_start_idx == other.namespace_start_idx
        &&& self.current_attributes == other.current_attributes
        &&& self.parent_prefixes == other.parent_prefixes
        &&& self.entities == other.entities
        &&& self.after_text == other.after_text
        &&& self.tag_name == other.tag_name
        &&& self.references == other.references
    }
}

impl Build {
    /// The state with one more string is safe, and every stored text keeps its bytes.
    pub proof fn lemma_push_string_safe(self, bytes: Seq<u8>)
        requires
            self.safe(),
            valid_utf8(bytes),
        ensures
            self.with_tree(Tree { strings: self.tree.strings.push(bytes), ..self.tree }).safe(),
    {
        reveal(Build::safe);
        self.tree.lemma_push_string(bytes);
        let m = self.with_tree(Tree { strings: self.tree.strings.push(bytes), ..self.tree });
        assert forall|k: int| 0 <= k < m.current_attributes.len() implies (
        #[trigger] m.current_attributes[k]).wf(m.tree) by {
            assert(self.current_attributes[k].wf(self.tree));
        }
        assert forall|k: int| 0 <= k < m.after_text.len() implies m.tree.stored_wf(
            #[trigger] m.after_text[k],
        ) by {
            assert(self.tree.stored_wf(self.after_text[k]));
        }
    }

    /// A piece of text that refers to what is there leaves the state safe.
    pub proof fn lemma_append_text_safe(self, piece: Stored, range: Span)
        requires
            self.safe(),
            self.tree.stored_wf(piece),
        ensures
            self.append_text(piece, range) matches Ok(m) ==> m.safe() && m.tree.text
                == self.tree.text && m.entities == self.entities && m.tag_name == self.tag_name,
    {
        reveal(Build::safe);
        reveal(Build::append_text);
        if self.after_text.len() == 0 {
            self.lemma_append_node_safe(NodeKind::Text(piece), range);
        }
        if self.append_text(piece, range) is Ok {
            let m = self.append_text(piece, range)->Ok_0;
            assert forall|k: int| 0 <= k < m.after_text.len() implies m.tree.stored_wf(
                #[trigger] m.after_text[k],
            ) by {
                if k < self.after_text.len() {
                    assert(self.tree.stored_wf(self.after_text[k]));
                }
            }
        }
    }

    /// A piece of text of valid UTF-8 that the document owns leaves the state safe.
    pub proof fn lemma_append_owned_text_safe(self, bytes: Seq<u8>, range: Span)
        requires
            self.safe(),
            valid_utf8(bytes),
        ensures
            self.append_owned_text(bytes, range) matches Ok(m) ==> m.safe() && m.tree.text
                == self.tree.text && m.entities == self.entities && m.tag_name == self.tag_name,
    {
        reveal(Build::safe);
        reveal(Build::append_owned_text);
        self.lemma_push_string_safe(bytes);
        let m = self.with_tree(Tree { strings: self.tree.strings.push(bytes), ..self.tree });
        m.lemma_append_text_safe(Stored::Owned(self.tree.strings.len() as usize), range);
    }

    /// The pieces of a text are valid UTF-8 when they are joined.
    pub proof fn lemma_joined_valid(self, pieces: Seq<Stored>)
        requires
            self.safe(),
            forall|k: int| 0 <= k < pieces.len() ==> self.tree.stored_wf(#[trigger] pieces[k]),
        ensures
            valid_utf8(joined(self.tree, pieces)),
        decreases pieces.len(),
    {
        reveal(Build::safe);
        if pieces.len() > 0 {
            let init = pieces.drop_last();
            assert forall|k: int| 0 <= k < init.len() implies self.tree.stored_wf(
                #[trigger] init[k],
            ) by {
                assert(init[k] == pieces[k]);
            }
            self.lemma_joined_valid(init);
            self.tree.lemma_stored_valid(pieces.last());
            valid_utf8_concat(joined(self.tree, init), self.tree.stored(pieces.last()));
        }
    }

    /// The end of a run of text leaves the state safe.
    pub proof fn lemma_reset_after_text_safe(self)
        requires
            self.safe(),
        ensures
            self.reset_after_text().safe(),
            self.reset_after_text().tree.text == self.tree.text,
            self.reset_after_text().parent_id == self.parent_id,
            self.reset_after_text().tag_name == self.tag_name,
            self.reset_after_text().entities == self.entities,
    {
        reveal(Build::merge_text);
        reveal(Build::safe);
        reveal(Build::reset_after_text);
        if self.after_text.len() > 1 {
            let nodes = self.tree.nodes;
            let last = nodes.len() - 1;
            if nodes[last].kind is Text {
                self.lemma_joined_valid(self.after_text);
                let bytes = joined(self.tree, self.after_text);
                self.lemma_push_string_safe(bytes);
                self.tree.lemma_push_string(bytes);
                let pushed = Tree { strings: self.tree.strings.push(bytes), ..self.tree };
                let m = self.reset_after_text();
                let t = m.tree;
                assert forall|i: int| 0 <= i < t.nodes.len() implies t.kind_wf(
                    #[trigger] t.nodes[i].kind,
                ) by {
                    if i != last {
                        assert(pushed.kind_wf(pushed.nodes[i].kind));
                    }
                }
                assert forall|k: int| 0 <= k < t.attributes.len() implies t.name_wf(
                    (#[trigger] t.attributes[k]).name,
                ) && t.stored_wf(t.attributes[k].value) by {
                    assert(pushed.name_wf(pushed.attributes[k].name));
                }
                assert forall|k: int| 0 <= k < t.namespaces.len() implies t.stored_wf(
                    (#[trigger] t.namespaces[k]).uri,
                ) && match t.namespaces[k].name {
                    Some(n) => t.stored_wf(n),
                    None => true,
                } by {
                    assert(pushed.stored_wf(pushed.namespaces[k].uri));
                }
                assert forall|k: int| 0 <= k < t.strings.len() implies valid_utf8(
                    #[trigger] t.strings[k],
                ) by {
                    assert(valid_utf8(pushed.strings[k]));
                }
                assert forall|k: int| 0 <= k < m.current_attributes.len() implies (
                #[trigger] m.current_attributes[k]).wf(t) by {
                    assert(self.current_attributes[k].wf(self.tree));
                }
            }
        }
    }
}

impl Tree {
    /// A stored text that refers to what is there is valid UTF-8.
    pub proof fn lemma_stored_valid(self, s: Stored)
        requires
            valid_utf8(self.text),
            self.data_wf(),
            self.stored_wf(s),
        ensures
            valid_utf8(self.stored(s)),
    {
        match s {
            Stored::Input(span) => {
                crate::strings::lemma_valid_subrange(self.text, span.start as int, span.end as int);
            },
            Stored::Owned(i) => {
                assert(valid_utf8(self.strings[i as int]));
            },
        }
    }
}

/// An index that `find_namespace` gives lies in the table.
pub proof fn lemma_find_namespace_bounds(tree: Tree, name: Option<Seq<u8>>, uri: Seq<u8>, k: int)
    requires
        0 <= k,
    ensures
        find_namespace(tree, name, uri, k) matches Some(i) ==> k <= i < tree.namespaces.len(),
    decreases tree.namespaces.len() - k,
{
    if k < tree.namespaces.len() && !(namespace_name(tree, k) == name && tree.stored(
        tree.namespaces[k].uri,
    ) == uri) {
        lemma_find_namespace_bounds(tree, name, uri, k + 1);
    }
}

/// An index that `find_binding` gives lies in the range it searched.
pub proof fn lemma_find_binding_bounds(tree: Tree, name: Option<Seq<u8>>, k: int, end: int)
    ensures
        find_binding(tree, name, k, end) matches Some(i) ==> k <= i < end && tree.binding_name(i)
            == name,
        find_binding(tree, name, k, end) is None ==> forall|i: int|
            k <= i < end ==> #[trigger] tree.binding_name(i) != name,
    decreases end - k,
{
    if k < end && tree.binding_name(k) != name {
        lemma_find_binding_bounds(tree, name, k + 1, end);
    }
}

impl Build {
    /// A state that differs from a safe state in its tree order and in the
    /// start of the new bindings, which refer to what is there, is safe.
    pub proof fn lemma_tree_order_safe(self, old: Build)
        requires
            old.safe(),
            self == (Build {
                tree: Tree { tree_order: self.tree.tree_order, ..old.tree },
                namespace_start_idx: self.namespace_start_idx,
                ..old
            }),
            self.tree.tree_order.len() >= 1,
            self.namespace_start_idx <= self.tree.tree_order.len(),
            forall|k: int|
                0 <= k < self.tree.tree_order.len() ==> (#[trigger] self.tree.tree_order[k]).0
                    < self.tree.namespaces.len(),
            forall|i: int|
                0 <= i < self.tree.nodes.len() ==> (#[trigger] self.tree.visible(i)).within(
                    self.tree.tree_order.len() as int,
                ),
        ensures
            self.safe(),
    {
        reveal(Build::safe);
        let t = self.tree;
        assert forall|i: int| 0 <= i < t.nodes.len() implies t.kind_wf(
            #[trigger] t.nodes[i].kind,
        ) by {
            assert(old.tree.kind_wf(old.tree.nodes[i].kind));
            assert(t.visible(i).within(t.tree_order.len() as int));
        }
        assert forall|k: int| 0 <= k < t.attributes.len() implies t.name_wf(
            (#[trigger] t.attributes[k]).name,
        ) && t.stored_wf(t.attributes[k].value) by {
            assert(old.tree.name_wf(old.tree.attributes[k].name));
        }
        assert forall|k: int| 0 <= k < t.namespaces.len() implies t.stored_wf(
            (#[trigger] t.namespaces[k]).uri,
        ) && match t.namespaces[k].name {
            Some(n) => t.stored_wf(n),
            None => true,
        } by {
            assert(old.tree.stored_wf(old.tree.namespaces[k].uri));
        }
        assert forall|k: int| 0 <= k < self.current_attributes.len() implies (
        #[trigger] self.current_attributes[k]).wf(t) by {
            assert(old.current_attributes[k].wf(old.tree));
        }
        assert forall|k: int| 0 <= k < self.after_text.len() implies t.stored_wf(
            #[trigger] self.after_text[k],
        ) by {
            assert(old.tree.stored_wf(old.after_text[k]));
        }
    }

    /// Every visible range of a safe state lies in the tree order.
    pub proof fn lemma_visible_within(self)
        requires
            self.safe(),
        ensures
            forall|i: int|
                0 <= i < self.tree.nodes.len() ==> (#[trigger] self.tree.visible(i)).within(
                    self.tree.tree_order.len() as int,
                ),
    {
        reveal(Build::safe);
        assert forall|i: int| 0 <= i < self.tree.nodes.len() implies (
        #[trigger] self.tree.visible(i)).within(self.tree.tree_order.len() as int) by {
            assert(self.tree.kind_wf(self.tree.nodes[i].kind));
        }
    }

    /// A binding to texts that are there leaves the state safe.
    pub proof fn lemma_push_ns_safe(self, name: Option<Stored>, uri: Stored)
        requires
            self.safe(),
            self.tree.stored_wf(uri),
            name matches Some(n) ==> self.tree.stored_wf(n),
        ensures
            self.push_ns(name, uri) matches Ok(m) ==> m.safe() && m.same_but_namespaces(self),
    {
        reveal(Build::safe);
        reveal(Build::push_ns);
        let tree = self.tree;
        let name_bytes = match name {
            Some(n) => Some(tree.stored(n)),
            None => None,
        };
        lemma_find_namespace_bounds(tree, name_bytes, tree.stored(uri), 0);
        if self.push_ns(name, uri) is Ok {
            let m = self.push_ns(name, uri)->Ok_0;
            let t = m.tree;
            assert forall|i: int| 0 <= i < t.nodes.len() implies t.kind_wf(
                #[trigger] t.nodes[i].kind,
            ) by {
                assert(tree.kind_wf(tree.nodes[i].kind));
            }
            assert forall|k: int| 0 <= k < t.attributes.len() implies t.name_wf(
                (#[trigger] t.attributes[k]).name,
            ) && t.stored_wf(t.attributes[k].value) by {
                assert(tree.name_wf(tree.attributes[k].name));
            }
            assert forall|k: int| 0 <= k < t.namespaces.len() implies t.stored_wf(
                (#[trigger] t.namespaces[k]).uri,
            ) && match t.namespaces[k].name {
                Some(n) => t.stored_wf(n),
                None => true,
            } by {
                if k < tree.namespaces.len() {
                    assert(tree.stored_wf(tree.namespaces[k].uri));
                }
            }
            assert forall|k: int| 0 <= k < t.tree_order.len() implies (#[trigger] t.tree_order[k]).0
                < t.namespaces.len() by {
                if k < tree.tree_order.len() {
                    assert(tree.tree_order[k].0 < tree.namespaces.len());
                }
            }
            assert forall|k: int| 0 <= k < m.current_attributes.len() implies (
            #[trigger] m.current_attributes[k]).wf(t) by {
                assert(self.current_attributes[k].wf(tree));
            }
            assert forall|k: int| 0 <= k < m.after_text.len() implies t.stored_wf(
                #[trigger] m.after_text[k],
            ) by {
                assert(tree.stored_wf(self.after_text[k]));
            }
        }
    }

    /// The two states differ in their namespaces and in their tree order at most.
    pub open spec fn same_but_namespaces(self, other: Build) -> bool {
        &&& self.tree.text == other.tree.text
        &&& self.tree.nodes == other.tree.nodes
        &&& self.tree.attributes == other.tree.attributes
        &&& self.tree.strings == other.tree.strings
        &&& self.nodes_limit == other.nodes_limit
        &&& self.namespace_start_idx == other.namespace_start_idx
        &&& self.current_attributes == other.current_attributes
        &&& self.awaiting_subtree == other.awaiting_subtree
        &&& self.parent_prefixes == other.parent_prefixes
        &&& self.entities == other.entities
        &&& self.after_text == other.after_text
        &&& self.parent_id == other.parent_id
        &&& self.tag_name == other.tag_name
        &&& self.references == other.references
    }

    /// Inherited bindings leave the state safe.
    pub proof fn lemma_inherit_safe(self, i: int, end: int)
        requires
            self.safe(),
            0 <= i,
            end <= self.tree.tree_order.len(),
        ensures
            self.inherit(i, end).safe(),
            self.inherit(i, end).same_but_namespaces(self),
            self.inherit(i, end).tree.namespaces == self.tree.namespaces,
            self.inherit(i, end).tree.tree_order.len() >= self.tree.tree_order.len(),
        decreases end - i,
    {
        reveal(Build::safe);
        reveal(Build::inherit);
        if i < end {
            if binding_exists(self.tree, self.namespace_start_idx as int, self.tree.binding_name(i)) {
                self.lemma_inherit_safe(i + 1, end);
            } else {
                let m = self.with_tree(
                    Tree {
                        tree_order: self.tree.tree_order.push(self.tree.tree_order[i]),
                        ..self.tree
                    },
                );
                self.lemma_visible_within();
                assert forall|k: int| 0 <= k < m.tree.tree_order.len() implies (
                #[trigger] m.tree.tree_order[k]).0 < m.tree.namespaces.len() by {
                    if k < self.tree.tree_order.len() {
                        assert(self.tree.tree_order[k].0 < self.tree.namespaces.len());
                    } else {
                        assert(self.tree.tree_order[i].0 < self.tree.namespaces.len());
                    }
                }
                assert forall|j: int| 0 <= j < m.tree.nodes.len() implies (
                #[trigger] m.tree.visible(j)).within(m.tree.tree_order.len() as int) by {
                    assert(self.tree.visible(j).within(self.tree.tree_order.len() as int));
                }
                m.lemma_tree_order_safe(self);
                m.lemma_inherit_safe(i + 1, end);
            }
        }
    }

    /// The visible bindings of a new element leave the state safe, and lie
    /// in the tree order.
    pub proof fn lemma_resolve_namespaces_safe(self)
        requires
            self.safe(),
        ensures
            self.resolve_namespaces() matches Ok((m, range)) ==> m.safe() && range.within(
                m.tree.tree_order.len() as int,
            ) && m.same_but_namespaces(self) && m.tree.namespaces == self.tree.namespaces,
    {
        reveal(Build::safe);
        reveal(Build::resolve_namespaces);
        let parent = self.tree.nodes[self.parent_id.0 as int];
        assert(self.tree.kind_wf(parent.kind));
        match parent.kind {
            NodeKind::Element { namespaces, .. } => {
                self.lemma_inherit_safe(namespaces.start as int, namespaces.end as int);
            },
            _ => {},
        }
    }
}

impl Build {
    /// The two states differ in their attributes, in the attributes of the
    /// start tag and in the start of the new bindings at most.
    pub open spec fn same_but_attributes(self, other: Build) -> bool {
        &&& self.tree.text == other.tree.text
        &&& self.tree.nodes == other.tree.nodes
        &&& self.tree.namespaces == other.tree.namespaces
        &&& self.tree.tree_order == other.tree.tree_order
        &&& self.tree.strings == other.tree.strings
        &&& self.nodes_limit == other.nodes_limit
        &&& self.awaiting_subtree == other.awaiting_subtree
        &&& self.parent_prefixes == other.parent_prefixes
        &&& self.entities == other.entities
        &&& self.after_text == other.after_text
        &&& self.parent_id == other.parent_id
        &&& self.tag_name == other.tag_name
        &&& self.references == other.references
    }

    /// The namespace that a prefix is bound to lies in the table.
    pub proof fn lemma_ns_idx_in_table(self, range: ShortRange, prefix_pos: usize, prefix: Span)
        requires
            self.safe(),
            range.within(self.tree.tree_order.len() as int),
        ensures
            self.ns_idx_by_prefix(range, prefix_pos, prefix) matches Ok(Some(idx)) ==> idx.0
                < self.tree.namespaces.len(),
    {
        reveal(Build::safe);
        reveal(Build::ns_idx_by_prefix);
        let b = self.text();
        let name = if prefix.spec_is_empty() {
            None
        } else {
            Some(prefix.of(b))
        };
        lemma_find_binding_bounds(self.tree, name, range.start as int, range.end as int);
        match find_binding(self.tree, name, range.start as int, range.end as int) {
            Some(k) => {
                assert(self.tree.tree_order[k].0 < self.tree.namespaces.len());
            },
            None => {},
        }
    }

    /// A state that differs from a safe state in one more attribute, which
    /// refers to what is there, is safe.
    pub proof fn lemma_push_attribute_safe(self, attr: AttributeData)
        requires
            self.safe(),
            self.tree.name_wf(attr.name),
            self.tree.stored_wf(attr.value),
            self.tree.attributes.len() + 1 < u32::MAX,
        ensures
            self.with_tree(Tree { attributes: self.tree.attributes.push(attr), ..self.tree }).safe(),
    {
        reveal(Build::safe);
        let m = self.with_tree(Tree { attributes: self.tree.attributes.push(attr), ..self.tree });
        let t = m.tree;
        assert forall|i: int| 0 <= i < t.nodes.len() implies t.kind_wf(
            #[trigger] t.nodes[i].kind,
        ) by {
            assert(self.tree.kind_wf(self.tree.nodes[i].kind));
        }
        assert forall|k: int| 0 <= k < t.attributes.len() implies t.name_wf(
            (#[trigger] t.attributes[k]).name,
        ) && t.stored_wf(t.attributes[k].value) by {
            if k < self.tree.attributes.len() {
                assert(self.tree.name_wf(self.tree.attributes[k].name));
            }
        }
        assert forall|k: int| 0 <= k < t.namespaces.len() implies t.stored_wf(
            (#[trigger] t.namespaces[k]).uri,
        ) && match t.namespaces[k].name {
            Some(n) => t.stored_wf(n),
            None => true,
        } by {
            assert(self.tree.stored_wf(self.tree.namespaces[k].uri));
        }
        assert forall|k: int| 0 <= k < m.current_attributes.len() implies (
        #[trigger] m.current_attributes[k]).wf(t) by {
            assert(self.current_attributes[k].wf(self.tree));
        }
        assert forall|k: int| 0 <= k < m.after_text.len() implies t.stored_wf(
            #[trigger] m.after_text[k],
        ) by {
            assert(self.tree.stored_wf(self.after_text[k]));
        }
    }

    /// The attributes of a start tag leave the state safe.
    pub proof fn lemma_resolve_from_safe(self, range: ShortRange, start: int, k: int)
        requires
            self.safe(),
            range.within(self.tree.tree_order.len() as int),
            0 <= k <= self.current_attributes.len(),
            self.tree.attributes.len() + (self.current_attributes.len() - k) < u32::MAX,
        ensures
            self.resolve_from(range, start, k) matches Ok(m) ==> m.safe() && m.same_but_attributes(
                self,
            ) && m.namespace_start_idx == self.namespace_start_idx && m.tree.attributes.len()
                == self.tree.attributes.len() + (self.current_attributes.len() - k),
        decreases self.current_attributes.len() - k,
    {
        reveal(Build::safe);
        reveal(Build::attribute_ns_idx);
        reveal(Build::resolve_from);
        if k >= self.current_attributes.len() {
            let m = Build { current_attributes: Seq::empty(), ..self };
            assert(m.safe());
        } else {
            let attr = self.current_attributes[k];
            assert(attr.wf(self.tree));
            self.lemma_ns_idx_in_table(range, attr.range.start, attr.prefix);
            match self.attribute_ns_idx(range, attr) {
                Err(e) => {},
                Ok(namespace_idx) => {
                    let name = ExpandedNameIndexed { namespace_idx, local_name: attr.local };
                    if !attribute_exists(self.tree, start, name) {
                        let pushed = AttributeData {
                            name,
                            value: attr.value,
                            range: attr.range,
                            qname_len: attr.qname_len,
                            eq_len: attr.eq_len,
                        };
                        self.lemma_push_attribute_safe(pushed);
                        self.with_tree(
                            Tree { attributes: self.tree.attributes.push(pushed), ..self.tree },
                        ).lemma_resolve_from_safe(range, start, k + 1);
                    }
                },
            }
        }
    }

    /// The attributes of a start tag leave the state safe, and their range
    /// lies in the arena.
    pub proof fn lemma_resolve_attributes_safe(self, range: ShortRange)
        requires
            self.safe(),
            range.within(self.tree.tree_order.len() as int),
        ensures
            self.resolve_attributes(range) matches Ok((m, attrs)) ==> m.safe() && attrs.within(
                m.tree.attributes.len() as int,
            ) && m.same_but_attributes(self) && m.namespace_start_idx == self.namespace_start_idx,
    {
        reveal(Build::safe);
        reveal(Build::resolve_attributes);
        if self.current_attributes.len() > 0 && self.tree.attributes.len()
            + self.current_attributes.len() < u32::MAX {
            self.lemma_resolve_from_safe(range, self.tree.attributes.len() as int, 0);
        }
    }

    /// The element of a start tag leaves the state safe.
    pub proof fn lemma_append_element_safe(
        self,
        attributes: ShortRange,
        namespaces: ShortRange,
        end: usize,
    )
        requires
            self.safe(),
            attributes.within(self.tree.attributes.len() as int),
            namespaces.within(self.tree.tree_order.len() as int),
        ensures
            self.append_element(attributes, namespaces, end) matches Ok((m, id)) ==> m.safe()
                && id.0 < m.tree.nodes.len() && m.same_but_nodes(self),
    {
        reveal(Build::safe);
        reveal(Build::ns_idx_by_prefix);
        reveal(Build::append_element);
        self.lemma_ns_idx_in_table(namespaces, self.tag_name.prefix_pos, self.tag_name.prefix);
        match self.ns_idx_by_prefix(namespaces, self.tag_name.prefix_pos, self.tag_name.prefix) {
            Err(e) => {},
            Ok(namespace_idx) => {
                let kind = NodeKind::Element {
                    tag_name: ExpandedNameIndexed { namespace_idx, local_name: self.tag_name.name },
                    attributes,
                    namespaces,
                };
                self.lemma_append_node_safe(kind, Span { start: self.tag_name.pos, end });
            },
        }
    }

    /// A close tag leaves the state safe.
    pub proof fn lemma_close_element_safe(self, prefix: Span, local: Span, range: Span)
        requires
            self.safe(),
        ensures
            self.close_element(prefix, local, range) matches Ok(m) ==> m.safe() && m.tree.text
                == self.tree.text && m.entities == self.entities && m.tag_name == self.tag_name,
    {
        reveal(Build::safe);
        reveal(Build::close_element);
        if self.close_element(prefix, local, range) is Ok {
            let m = self.close_element(prefix, local, range)->Ok_0;
            let t = m.tree;
            let p = self.parent_id.0 as int;
            assert forall|i: int| 0 <= i < t.nodes.len() implies t.kind_wf(
                #[trigger] t.nodes[i].kind,
            ) by {
                assert(self.tree.kind_wf(self.tree.nodes[i].kind));
            }
            assert forall|k: int| 0 <= k < t.attributes.len() implies t.name_wf(
                (#[trigger] t.attributes[k]).name,
            ) && t.stored_wf(t.attributes[k].value) by {
                assert(self.tree.name_wf(self.tree.attributes[k].name));
            }
            assert forall|k: int| 0 <= k < t.namespaces.len() implies t.stored_wf(
                (#[trigger] t.namespaces[k]).uri,
            ) && match t.namespaces[k].name {
                Some(n) => t.stored_wf(n),
                None => true,
            } by {
                assert(self.tree.stored_wf(self.tree.namespaces[k].uri));
            }
            assert forall|k: int| 0 <= k < m.current_attributes.len() implies (
            #[trigger] m.current_attributes[k]).wf(t) by {
                assert(self.current_attributes[k].wf(self.tree));
            }
            assert forall|k: int| 0 <= k < m.after_text.len() implies t.stored_wf(
                #[trigger] m.after_text[k],
            ) by {
                assert(self.tree.stored_wf(self.after_text[k]));
            }
            assert forall|k: int| 0 <= k < m.awaiting_subtree.len() implies (
            #[trigger] m.awaiting_subtree[k]).0 < t.nodes.len() by {
                if k < self.awaiting_subtree.len() {
                    assert(self.awaiting_subtree[k].0 < self.tree.nodes.len());
                }
            }
            assert forall|k: int| 0 <= k < m.parent_prefixes.len() implies (
            #[trigger] m.parent_prefixes[k]).wf(t.text) by {
                assert(self.parent_prefixes[k].wf(self.tree.text));
            }
            assert(self.tree.nodes[p].parent matches Some(g) && g.0 < p);
            assert forall|i: int| 0 <= i < t.nodes.len() implies match (#[trigger] t.nodes[i]).parent {
                Some(q) => q.0 < i,
                None => true,
            } by {
                assert(match self.tree.nodes[i].parent {
                    Some(q) => q.0 < i,
                    None => true,
                });
            }
        }
    }

    /// The end of a tag leaves the state safe.
    pub proof fn lemma_process_element_safe(self, end: SpanEnd, range: Span)
        requires
            self.safe(),
            match end {
                SpanEnd::Close(prefix, local) => prefix.wf(self.tree.text) && local.wf(
                    self.tree.text,
                ),
                _ => true,
            },
        ensures
            self.process_element(end, range) matches Ok(m) ==> m.safe() && m.tree.text
                == self.tree.text && m.entities == self.entities && m.tag_name == self.tag_name,
    {
        reveal(Build::safe);
        reveal(Build::resolve_namespaces);
        reveal(Build::resolve_attributes);
        reveal(Build::append_element);
        reveal(Build::process_element);
        self.lemma_resolve_namespaces_safe();
        if self.resolve_namespaces() is Ok {
            let ns = self.resolve_namespaces()->Ok_0;
            let started = Build {
                namespace_start_idx: ns.0.tree.tree_order.len() as usize,
                ..ns.0
            };
            ns.0.lemma_visible_within();
            started.lemma_tree_order_safe(ns.0);
            started.lemma_resolve_attributes_safe(ns.1);
            if started.resolve_attributes(ns.1) is Ok {
                let attrs = started.resolve_attributes(ns.1)->Ok_0;
                let m = attrs.0;
                match end {
                    SpanEnd::Empty => {
                        m.lemma_append_element_safe(attrs.1, ns.1, range.end);
                        if m.append_element(attrs.1, ns.1, range.end) is Ok {
                            let (n, id) = m.append_element(attrs.1, ns.1, range.end)->Ok_0;
                            let r = Build { awaiting_subtree: n.awaiting_subtree.push(id), ..n };
                            assert forall|k: int| 0 <= k < r.awaiting_subtree.len() implies (
                            #[trigger] r.awaiting_subtree[k]).0 < r.tree.nodes.len() by {
                                if k < n.awaiting_subtree.len() {
                                    assert(n.awaiting_subtree[k].0 < n.tree.nodes.len());
                                }
                            }
                            assert(r.safe());
                        }
                    },
                    SpanEnd::Close(prefix, local) => {
                        m.lemma_close_element_safe(prefix, local, range);
                    },
                    SpanEnd::Open => {
                        m.lemma_append_element_safe(attrs.1, ns.1, range.end);
                        if m.append_element(attrs.1, ns.1, range.end) is Ok {
                            let (n, id) = m.append_element(attrs.1, ns.1, range.end)->Ok_0;
                            let r = Build {
                                parent_id: id,
                                parent_prefixes: n.parent_prefixes.push(n.tag_name.prefix),
                                ..n
                            };
                            assert forall|k: int| 0 <= k < r.parent_prefixes.len() implies (
                            #[trigger] r.parent_prefixes[k]).wf(r.tree.text) by {
                                if k < n.parent_prefixes.len() {
                                    assert(n.parent_prefixes[k].wf(n.tree.text));
                                }
                            }
                            assert(r.safe());
                        }
                    },
                }
            }
        }
    }
}

/// Bytes that are no white space of attribute values are kept as they are.
pub proof fn lemma_spaces_plain(b: Seq<u8>, pos: int, ws: int, end: int)
    requires
        0 <= pos <= ws <= end <= b.len(),
        forall|k: int| pos <= k < ws ==> !is_attribute_space(#[trigger] b[k]),
    ensures
        spaces_normalized(b, pos, end) == b.subrange(pos, ws) + spaces_normalized(b, ws, end),
    decreases ws - pos,
{
    if pos < ws {
        assert(!is_attribute_space(b[pos]));
        lemma_spaces_plain(b, pos + 1, ws, end);
        assert(seq![b[pos]] + (b.subrange(pos + 1, ws) + spaces_normalized(b, ws, end))
            =~= b.subrange(pos, ws) + spaces_normalized(b, ws, end));
    } else {
        assert(b.subrange(pos, ws) + spaces_normalized(b, ws, end) =~= spaces_normalized(
            b,
            ws,
            end,
        ));
    }
}

/// Bytes that are no carriage return are kept as they are.
pub proof fn lemma_line_ends_plain(b: Seq<u8>, pos: int, cr: int, end: int)
    requires
        0 <= pos <= cr <= end <= b.len(),
        forall|k: int| pos <= k < cr ==> #[trigger] b[k] != 0x0d,
    ensures
        line_ends_normalized(b, pos, end) == b.subrange(pos, cr) + line_ends_normalized(b, cr, end),
    decreases cr - pos,
{
    if pos < cr {
        assert(b[pos] != 0x0d);
        lemma_line_ends_plain(b, pos + 1, cr, end);
        assert(seq![b[pos]] + (b.subrange(pos + 1, cr) + line_ends_normalized(b, cr, end))
            =~= b.subrange(pos, cr) + line_ends_normalized(b, cr, end));
    } else {
        assert(b.subrange(pos, cr) + line_ends_normalized(b, cr, end) =~= line_ends_normalized(
            b,
            cr,
            end,
        ));
    }
}

/// The normalized white space of a part of valid UTF-8 between character
/// boundaries is valid UTF-8.
pub proof fn lemma_spaces_normalized_valid(b: Seq<u8>, pos: int, end: int)
    requires
        valid_utf8(b),
        0 <= pos <= end <= b.len(),
        is_boundary(b, pos),
        is_boundary(b, end),
    ensures
        valid_utf8(spaces_normalized(b, pos, end)),
    decreases end - pos,
{
    if pos < end {
        lemma_char_at(b, pos);
        crate::stream::lemma_char_fits(b, pos, end);
        let w = width_at(b, pos);
        if b[pos] < 0x80 {
            let step = if b[pos] == 0x0d && pos + 1 < end && b[pos + 1] == 0x0a {
                2int
            } else {
                1int
            };
            if step == 2 {
                crate::stream::lemma_ascii_step(b, pos + 1);
            }
            lemma_spaces_normalized_valid(b, pos + step, end);
            let head = if is_attribute_space(b[pos]) {
                0x20u8
            } else {
                b[pos]
            };
            crate::strings::lemma_valid_ascii(head);
            valid_utf8_concat(seq![head], spaces_normalized(b, pos + step, end));
        } else {
            assert forall|k: int| pos <= k < pos + w implies !is_attribute_space(
                #[trigger] b[k],
            ) by {
                if k > pos {
                    assert(is_continuation_byte(b[k]));
                }
            }
            lemma_spaces_plain(b, pos, pos + w, end);
            lemma_spaces_normalized_valid(b, pos + w, end);
            valid_utf8_concat(b.subrange(pos, pos + w), spaces_normalized(b, pos + w, end));
        }
    } else {
        assert(valid_utf8(Seq::<u8>::empty()));
    }
}

/// The normalized line ends of a part of valid UTF-8 between character
/// boundaries are valid UTF-8.
pub proof fn lemma_line_ends_normalized_valid(b: Seq<u8>, pos: int, end: int)
    requires
        valid_utf8(b),
        0 <= pos <= end <= b.len(),
        is_boundary(b, pos),
        is_boundary(b, end),
    ensures
        valid_utf8(line_ends_normalized(b, pos, end)),
    decreases end - pos,
{
    if pos < end {
        lemma_char_at(b, pos);
        crate::stream::lemma_char_fits(b, pos, end);
        let w = width_at(b, pos);
        if b[pos] < 0x80 {
            let step = if b[pos] == 0x0d && pos + 1 < end && b[pos + 1] == 0x0a {
                2int
            } else {
                1int
            };
            if step == 2 {
                crate::stream::lemma_ascii_step(b, pos + 1);
            }
            lemma_line_ends_normalized_valid(b, pos + step, end);
            let head = if b[pos] == 0x0d {
                0x0au8
            } else {
                b[pos]
            };
            crate::strings::lemma_valid_ascii(head);
            valid_utf8_concat(seq![head], line_ends_normalized(b, pos + step, end));
        } else {
            assert forall|k: int| pos <= k < pos + w implies #[trigger] b[k] != 0x0d by {
                if k > pos {
                    assert(is_continuation_byte(b[k]));
                }
            }
            lemma_line_ends_plain(b, pos, pos + w, end);
            lemma_line_ends_normalized_valid(b, pos + w, end);
            valid_utf8_concat(b.subrange(pos, pos + w), line_ends_normalized(b, pos + w, end));
        }
    } else {
        assert(valid_utf8(Seq::<u8>::empty()));
    }
}

/// An entity that `find_entity` gives is one of the entities.
pub proof fn lemma_find_entity_member(entities: Seq<Entity>, b: Seq<u8>, name: Seq<u8>, k: int)
    requires
        0 <= k,
    ensures
        find_entity(entities, b, name, k) matches Some(e) ==> exists|i: int|
            k <= i < entities.len() && #[trigger] entities[i] == e,
    decreases entities.len() - k,
{
    if k < entities.len() && entities[k].name.of(b) != name {
        lemma_find_entity_member(entities, b, name, k + 1);
    }
}

impl Build {
    /// A state that differs from a safe state in its count of references is safe.
    pub proof fn lemma_references_safe(self, references: u8)
        requires
            self.safe(),
        ensures
            (Build { references, ..self }).safe(),
    {
        reveal(Build::safe);
    }

    /// The stored value of an attribute leaves the state safe, and is there.
    pub proof fn lemma_attribute_value_safe(self, value: Span, depth: nat, bytes: Seq<u8>)
        requires
            self.safe(),
            value.wf(self.tree.text),
            self.attribute_value(value, depth) matches Ok((m, Stored::Owned(_))) ==> valid_utf8(
                m.tree.strings.last(),
            ),
        ensures
            self.attribute_value(value, depth) matches Ok((m, stored)) ==> m.safe()
                && m.tree.stored_wf(stored) && m.tree.text == self.tree.text && m.entities
                == self.entities && m.tag_name == self.tag_name,
    {
        reveal(Build::safe);
        reveal(Build::attribute_value);
        match self.attribute_value(value, depth) {
            Ok((m, Stored::Owned(_))) => {
                let r = m.references;
                self.lemma_push_string_safe(m.tree.strings.last());
                let pushed = self.with_tree(
                    Tree { strings: self.tree.strings.push(m.tree.strings.last()), ..self.tree },
                );
                pushed.lemma_references_safe(r);
                assert(m == Build { references: r, ..pushed });
            },
            _ => {},
        }
    }

    /// An attribute of a start tag leaves the state safe.
    pub proof fn lemma_process_attribute_safe(
        self,
        range: Span,
        qname_len: u16,
        eq_len: u8,
        prefix: Span,
        local: Span,
        value: Span,
        depth: nat,
    )
        requires
            self.safe(),
            range.wf(self.tree.text),
            prefix.wf(self.tree.text),
            local.wf(self.tree.text),
            value.wf(self.tree.text),
            self.attribute_value(value, depth) matches Ok((m, stored)) ==> m.safe()
                && m.tree.stored_wf(stored) && m.tree.text == self.tree.text && m.entities
                == self.entities && m.tag_name == self.tag_name,
        ensures
            self.process_attribute(range, qname_len, eq_len, prefix, local, value, depth) matches Ok(
                r,
            ) ==> r.safe() && r.tree.text == self.tree.text && r.entities == self.entities
                && r.tag_name == self.tag_name,
    {
        reveal(Build::safe);
        reveal(Build::attribute_value);
        reveal(Build::process_attribute);
        let normalized = self.attribute_value(value, depth);
        if normalized is Ok {
            let m = normalized->Ok_0.0;
            let stored = normalized->Ok_0.1;
            m.lemma_push_ns_safe(Some(Stored::Input(local)), stored);
            m.lemma_push_ns_safe(None, stored);
            if self.process_attribute(range, qname_len, eq_len, prefix, local, value, depth) is Ok {
                let r = self.process_attribute(
                    range,
                    qname_len,
                    eq_len,
                    prefix,
                    local,
                    value,
                    depth,
                )->Ok_0;
                assert forall|k: int| 0 <= k < r.current_attributes.len() implies (
                #[trigger] r.current_attributes[k]).wf(r.tree) by {
                    if k < m.current_attributes.len() {
                        assert(m.current_attributes[k].wf(m.tree));
                    }
                }
            }
        }
    }

    /// A CDATA section leaves the state safe.
    pub proof fn lemma_process_cdata_safe(self, text: Span, range: Span)
        requires
            self.safe(),
            text.wf(self.tree.text),
        ensures
            self.process_cdata(text, range) matches Ok(m) ==> m.safe() && m.tree.text
                == self.tree.text && m.entities == self.entities && m.tag_name == self.tag_name,
    {
        reveal(Build::safe);
        reveal(Build::process_cdata);
        let b = self.text();
        lemma_line_ends_normalized_valid(b, text.start as int, text.end as int);
        self.lemma_append_text_safe(Stored::Input(text), range);
        self.lemma_append_owned_text_safe(
            line_ends_normalized(b, text.start as int, text.end as int),
            range,
        );
    }
}

/// The bytes of one character: a single ASCII byte, or up to four bytes
/// that are no ASCII bytes.
pub open spec fn is_char_bytes(bytes: Seq<u8>) -> bool {
    &&& valid_utf8(bytes)
    &&& 1 <= bytes.len() <= 4
    &&& (bytes.len() == 1 ==> bytes[0] < 0x80)
    &&& (bytes.len() > 1 ==> forall|k: int| 0 <= k < bytes.len() ==> #[trigger] bytes[k] >= 0x80)
}

/// A byte of the text that is an ASCII character leaves the collected text valid UTF-8.
pub proof fn lemma_push_from_text_valid(buf: Seq<u8>, c: u8, at_end: bool)
    requires
        valid_utf8(buf),
        c < 0x80,
    ensures
        valid_utf8(push_from_text(buf, c, at_end)),
{
    if buf.len() > 0 && buf.last() == 0x0d {
        crate::strings::lemma_valid_drop_last_ascii(buf);
        lemma_valid_push_ascii(buf.drop_last(), 0x0a);
        let fixed = buf.drop_last().push(0x0a);
        lemma_valid_push_ascii(fixed, 0x0a);
        lemma_valid_push_ascii(fixed, c);
    } else {
        lemma_valid_push_ascii(buf, 0x0a);
        lemma_valid_push_ascii(buf, c);
    }
}

/// A byte of the text that is no ASCII character is appended as it is,
/// behind the line feed that a carriage return at the end became.
pub proof fn lemma_push_from_text_high(buf: Seq<u8>, c: u8, at_end: bool)
    requires
        c >= 0x80,
    ensures
        push_from_text(buf, c, at_end) == (if buf.len() > 0 && buf.last() == 0x0d {
            buf.drop_last().push(0x0a)
        } else {
            buf
        }).push(c),
{
}

/// The bytes of a character leave the collected text valid UTF-8, with the
/// first byte taken as it is or not.
pub proof fn lemma_push_all_valid(buf: Seq<u8>, bytes: Seq<u8>, at_end: bool)
    requires
        valid_utf8(buf),
        is_char_bytes(bytes),
    ensures
        valid_utf8(push_all_from_text(buf, bytes, at_end)),
        valid_utf8(push_all_from_text(buf.push(bytes[0]), bytes.drop_first(), at_end)),
{
    reveal_with_fuel(push_all_from_text, 6);
    let fixed = if buf.len() > 0 && buf.last() == 0x0d {
        buf.drop_last().push(0x0a)
    } else {
        buf
    };
    if buf.len() > 0 && buf.last() == 0x0d {
        crate::strings::lemma_valid_drop_last_ascii(buf);
        lemma_valid_push_ascii(buf.drop_last(), 0x0a);
    }
    if bytes.len() == 1 {
        assert(bytes.drop_first() =~= Seq::<u8>::empty());
        lemma_push_from_text_valid(buf, bytes[0], at_end);
        lemma_valid_push_ascii(buf, bytes[0]);
    } else {
        let n = bytes.len();
        let d1 = bytes.drop_first();
        assert(d1[0] == bytes[1]);
        lemma_push_from_text_high(buf, bytes[0], at_end);
        lemma_push_from_text_high(fixed.push(bytes[0]), bytes[1], at_end);
        lemma_push_from_text_high(buf.push(bytes[0]), bytes[1], at_end);
        let two = fixed.push(bytes[0]).push(bytes[1]);
        let raw_two = buf.push(bytes[0]).push(bytes[1]);
        if n == 2 {
            assert(d1.drop_first() =~= Seq::<u8>::empty());
            assert(two =~= fixed + bytes);
            assert(raw_two =~= buf + bytes);
        } else {
            let d2 = d1.drop_first();
            assert(d2[0] == bytes[2]);
            lemma_push_from_text_high(two, bytes[2], at_end);
            lemma_push_from_text_high(raw_two, bytes[2], at_end);
            let three = two.push(bytes[2]);
            let raw_three = raw_two.push(bytes[2]);
            if n == 3 {
                assert(d2.drop_first() =~= Seq::<u8>::empty());
                assert(three =~= fixed + bytes);
                assert(raw_three =~= buf + bytes);
            } else {
                let d3 = d2.drop_first();
                assert(d3[0] == bytes[3]);
                assert(d3.drop_first() =~= Seq::<u8>::empty());
                lemma_push_from_text_high(three, bytes[3], at_end);
                lemma_push_from_text_high(raw_three, bytes[3], at_end);
                assert(three.push(bytes[3]) =~= fixed + bytes);
                assert(raw_three.push(bytes[3]) =~= buf + bytes);
            }
        }
        valid_utf8_concat(fixed, bytes);
        valid_utf8_concat(buf, bytes);
    }
}

/// The character at a boundary of valid UTF-8 has the bytes of one character.
pub proof fn lemma_char_bytes_at(b: Seq<u8>, pos: int)
    requires
        valid_utf8(b),
        is_boundary(b, pos),
        pos < b.len(),
    ensures
        is_char_bytes(b.subrange(pos, pos + width_at(b, pos))),
{
    lemma_char_at(b, pos);
    let w = width_at(b, pos);
    let bytes = b.subrange(pos, pos + w);
    if w > 1 {
        assert forall|k: int| 0 <= k < bytes.len() implies #[trigger] bytes[k] >= 0x80 by {
            if k > 0 {
                assert(is_continuation_byte(b[pos + k]));
            }
        }
    }
}

/// The encoding of a character has the bytes of one character.
pub proof fn lemma_char_bytes_of(c: char)
    ensures
        is_char_bytes(encode_scalar(c as u32)),
{
    crate::strings::lemma_valid_encoding(c);
    char_is_scalar(c);
    let v = c as u32;
    assert(has_width_1_encoding(v) ==> (v & 0x7F) as u8 == v) by (bit_vector);
    assert((0xC0u8 | ((v >> 6) & 0x1F) as u8) >= 0x80) by (bit_vector);
    assert((0xE0u8 | ((v >> 12) & 0x0F) as u8) >= 0x80) by (bit_vector);
    assert((0xF0u8 | ((v >> 18) & 0x7) as u8) >= 0x80) by (bit_vector);
    assert((0x80u8 | (v & 0x3F) as u8) >= 0x80) by (bit_vector);
    assert((0x80u8 | ((v >> 6) & 0x3F) as u8) >= 0x80) by (bit_vector);
    assert((0x80u8 | ((v >> 12) & 0x3F) as u8) >= 0x80) by (bit_vector);
}

impl Build {
    /// What `process_tokens` is, by its definition.
    pub proof fn lemma_process_tokens_unfold(self, tokens: Seq<SpanToken>, k: int, depth: nat)
        ensures
            self.process_tokens(tokens, k, depth) == if k < 0 || k >= tokens.len() {
                Ok::<Build, ErrorModel>(self)
            } else {
                match self.process_token(tokens[k], depth) {
                    Err(e) => Err(e),
                    Ok(m) => m.process_tokens(tokens, k + 1, depth),
                }
            },
    {
        reveal(Build::process_token);
        reveal(Build::process_tokens);
    }

    /// What `process_token` is, by its definition.
    pub proof fn lemma_process_token_unfold(self, token: SpanToken, depth: nat)
        ensures
            self.process_token(token, depth) == match token {
                SpanToken::ProcessingInstruction(target, value, range) => self.process_pi(
                    target,
                    value,
                    range,
                ),
                SpanToken::Comment(text, range) => self.process_comment(text, range),
                SpanToken::EntityDeclaration(name, value) => Ok(
                    Build { entities: self.entities.push(Entity { name, value }), ..self },
                ),
                SpanToken::ElementStart(prefix, local, start) => self.start_element(
                    prefix,
                    local,
                    start,
                ),
                SpanToken::Attribute(
                    range,
                    qname_len,
                    eq_len,
                    prefix,
                    local,
                    value,
                ) => self.process_attribute(range, qname_len, eq_len, prefix, local, value, depth),
                SpanToken::ElementEnd(end, range) => self.end_element(end, range),
                SpanToken::Text(text, range) => self.process_text(text, range, depth),
                SpanToken::Cdata(text, range) => self.process_cdata(text, range),
            },
    {
        reveal(Build::process_text);
        reveal(Build::process_token);
    }

    /// What `process_text` is, by its definition.
    pub proof fn lemma_process_text_unfold(self, text: Span, range: Span, depth: nat)
        ensures
            self.process_text(text, range, depth) == if !(exists|k: int|
                text.start <= k < text.end && (#[trigger] self.text()[k] == 0x26 || self.text()[k]
                    == 0x0d)) {
                self.append_text(Stored::Input(text), range)
            } else {
                self.text_chunks(
                    range.start as int,
                    range.end as int,
                    range,
                    TextState { buf: Seq::empty(), as_is: false },
                    depth,
                )
            },
    {
        reveal(Build::text_chunks);
        reveal(Build::process_text);
    }

    /// What `text_chunks` is, by its definition.
    pub proof fn lemma_text_chunks_unfold(
        self,
        pos: int,
        end: int,
        range: Span,
        st: TextState,
        depth: nat,
    )
        ensures
            self.text_chunks(pos, end, range, st, depth) == (if pos >= end {
                self.flush_text(st.buf, range)
            } else if self.text()[pos] == 0x26 {
                match reference_at(self.text(), pos, end) {
                    None => Err(
                        ErrorModel::MalformedEntityReference(text_pos(self.text(), pos)),
                    ),
                    Some((SpanReference::Char(ch), p)) => self.text_chunks(
                        p,
                        end,
                        range,
                        st.with_char(ch, depth, p >= end),
                        depth,
                    ),
                    Some((SpanReference::Entity(name), p)) => match find_entity(
                        self.entities,
                        self.text(),
                        name.of(self.text()),
                        0,
                    ) {
                        None => Err(
                            ErrorModel::UnknownEntityReference(
                                chars_of(name.of(self.text())),
                                text_pos(self.text(), pos),
                            ),
                        ),
                        Some(entity) => match self.expand_entity(entity, p, range, st.buf, depth) {
                            Err(e) => Err(e),
                            Ok(m) => m.text_chunks(
                                p,
                                end,
                                range,
                                TextState { buf: Seq::empty(), as_is: false },
                                depth,
                            ),
                        },
                    },
                }
            } else {
                self.text_chunks(
                    pos + width_at(self.text(), pos),
                    end,
                    range,
                    st.with_plain(
                        self.text().subrange(pos, pos + width_at(self.text(), pos)),
                        pos + width_at(self.text(), pos) >= end,
                    ),
                    depth,
                )
            }),
    {
        reveal(Build::expand_entity);
        reveal(Build::text_chunks);
    }

    /// What `expand_entity` is, by its definition.
    pub proof fn lemma_expand_entity_unfold(
        self,
        entity: Entity,
        end: int,
        range: Span,
        buf: Seq<u8>,
        depth: nat,
    )
        ensures
            self.expand_entity(entity, end, range, buf, depth) == ({
                let b = self.text();
                let flushed = self.flush_text(buf, range);
                let entered = enter_entity(b, end, depth, flushed->Ok_0.references);
                let content = lex_content(
                    b,
                    entity.value.start as int,
                    entity.value.end as int,
                    0,
                );
                if flushed is Err {
                    Err::<Build, ErrorModel>(flushed->Err_0)
                } else if entered is Err {
                    Err(entered->Err_0)
                } else {
                    match flushed->Ok_0.entered(entered->Ok_0).process_tokens(
                        content.tokens,
                        0,
                        depth + 1,
                    ) {
                        Err(e) => Err(e),
                        Ok(inner) => if content.err is Some {
                            Err(content.err->0)
                        } else {
                            Ok(inner.left(flushed->Ok_0.tag_name, depth))
                        },
                    }
                }
            }),
    {
        reveal(Build::expand_entity);
        reveal(Build::process_tokens);
    }
}

impl Build {
    /// What a production does to the state: its tokens, one after another,
    /// and then the error that ended the production, if there is one.
    pub open spec fn run(self, l: Lex, depth: nat) -> Built {
        match self.process_tokens(l.tokens, 0, depth) {
            Err(e) => Err(e),
            Ok(m) => match l.err {
                Some(e) => Err(e),
                None => Ok(m),
            },
        }
    }

    /// What tokens behind other tokens do, from an index among them on, is
    /// what they do alone.
    pub proof fn lemma_process_tokens_shift(
        self,
        a: Seq<SpanToken>,
        b: Seq<SpanToken>,
        j: int,
        depth: nat,
    )
        requires
            0 <= j,
        ensures
            self.process_tokens(a + b, a.len() + j, depth) == self.process_tokens(b, j, depth),
        decreases b.len() - j,
    {
        self.lemma_process_tokens_unfold(a + b, a.len() + j, depth);
        self.lemma_process_tokens_unfold(b, j, depth);
        if j < b.len() {
            assert((a + b)[a.len() + j] == b[j]);
            match self.process_token(b[j], depth) {
                Ok(m) => {
                    m.lemma_process_tokens_shift(a, b, j + 1, depth);
                },
                Err(_) => {},
            }
        }
    }

    /// What two sequences of tokens do, one behind the other, is what the
    /// first does and then what the second does.
    pub proof fn lemma_process_tokens_concat(
        self,
        a: Seq<SpanToken>,
        b: Seq<SpanToken>,
        k: int,
        depth: nat,
    )
        requires
            0 <= k <= a.len(),
        ensures
            self.process_tokens(a + b, k, depth) == match self.process_tokens(a, k, depth) {
                Err(e) => Err(e),
                Ok(m) => m.process_tokens(b, 0, depth),
            },
        decreases a.len() - k,
    {
        self.lemma_process_tokens_unfold(a + b, k, depth);
        self.lemma_process_tokens_unfold(a, k, depth);
        if k < a.len() {
            assert((a + b)[k] == a[k]);
            match self.process_token(a[k], depth) {
                Ok(m) => {
                    m.lemma_process_tokens_concat(a, b, k + 1, depth);
                },
                Err(_) => {},
            }
        } else {
            self.lemma_process_tokens_shift(a, b, 0, depth);
        }
    }

    /// What two productions do, one behind the other, is what the first
    /// does and then what the second does.
    pub proof fn lemma_run_followed_by(self, a: Lex, b: Lex, depth: nat)
        ensures
            self.run(a.followed_by(b), depth) == match self.run(a, depth) {
                Err(e) => Err(e),
                Ok(m) => m.run(b, depth),
            },
    {
        if a.err is None {
            self.lemma_process_tokens_concat(a.tokens, b.tokens, 0, depth);
        }
    }

    /// A production without tokens and without an error does nothing.
    pub proof fn lemma_run_nothing(self, pos: int, depth: nat)
        ensures
            self.run(Lex::ok(pos, Seq::empty()), depth) == Ok::<Build, ErrorModel>(self),
    {
        self.lemma_process_tokens_unfold(Seq::empty(), 0, depth);
    }
}

} // verus!
