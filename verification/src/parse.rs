//! The tree builder: it consumes the tokens of a document and appends nodes,
//! attributes and namespaces to the arenas of the tree.

use crate::builder::{
    attribute_exists, binding_exists, Build, build_tree, chars_of, enter_entity, Entity,
    find_binding, find_entity, find_namespace, fuel, initial, is_attribute_space, is_char_bytes,
    joined, lemma_char_bytes_at, lemma_char_bytes_of, lemma_find_entity_member,
    lemma_line_ends_normalized_valid, lemma_line_ends_plain, lemma_push_all_valid,
    lemma_spaces_normalized_valid, lemma_spaces_plain, line_ends_normalized, mark_awaiting,
    name_uri, normalize_from, push_all_from_text, push_from_text, qname_chars, same_expanded_name,
    spaces_normalized, TagNameSpan, TempAttributeData, TextState,
};
use crate::document::{bytes_of_strings, Document};
use crate::error::{Error, ErrorModel};
use crate::search::count_byte;
use crate::shape::lemma_initial_inv;
use crate::stream::{
    ByteClass, has_prefix, lemma_ascii_step, lemma_reference_progress, lemma_run_end_bounds, lift,
    range_eq, reference_at, run_end, Span, SpanReference, Stream,
};
use crate::strings::{
    append_bytes, append_char, decode_at, lemma_char_at, lemma_valid_encoding,
    lemma_valid_push_ascii, owned_string, slice_str, width_at,
};
use crate::textpos::{text_pos, text_pos_at, TextPos};
use crate::tokenizer::{
    lemma_comment_progress, lemma_content_item_progress, lemma_doctype_item_progress,
    lemma_literals, lemma_pi_progress, Lex, lex_comment, lex_content, lex_content_item, lex_doctype,
    lex_doctype_and_root, lex_doctype_body, lex_doctype_item, lex_document, lex_element, lex_misc,
    lex_pi, lex_root, lex_start_tag, Nesting, parse_comment, parse_content_item, parse_declaration,
    parse_doctype_item, parse_doctype_start, parse_pi, parse_start_tag, skip_lit, SpanEnd,
    SpanToken, tokens_wf,
};
use crate::tree::{
    AttributeData, ExpandedNameIndexed, first_element_child_index, NamespaceData, NamespaceIdx,
    NodeData, NodeId, NodeKind, ShortRange, Stored, Tree,
};
use vstd::prelude::*;
use vstd::string::*;
use vstd::utf8::*;

verus! {

/// Parsing options.
#[derive(Clone, Copy, PartialEq, Eq, Debug, Structural)]
pub struct ParsingOptions {
    /// Allow DTD parsing.
    ///
    /// When set to `false`, XML with DTD will cause an error.
    /// Empty DTD block is not an error.
    ///
    /// Currently, there is no option to simply skip DTD.
    /// Mainly because you will get `UnknownEntityReference` error later anyway.
    ///
    /// This flag is set to `false` by default for security reasons,
    /// but the depth and the number of entity references are limited in any case,
    /// so this is just an extra security measure.
    ///
    /// Default: false
    pub allow_dtd: bool,
    /// Sets the maximum number of nodes to parse.
    ///
    /// Useful when dealing with random input to limit memory usage.
    ///
    /// Default: u32::MAX (no limit)
    pub nodes_limit: u32,
}

impl Default for ParsingOptions {
    fn default() -> (r: Self)
        ensures
            r == (ParsingOptions { allow_dtd: false, nodes_limit: u32::MAX }),
    {
        ParsingOptions { allow_dtd: false, nodes_limit: u32::MAX }
    }
}

/// An entity loop detector.
///
/// Limits:
/// - Entities depth is 10.
/// - Maximum number of entity references per entity reference is 255.
///
/// Basically, if a text or an attribute has an entity reference and this reference
/// has more than 10 nested references - this is an error.
///
/// This is useful for simple loops like:
///
/// ```text
/// <!ENTITY a '&b;'>
/// <!ENTITY b '&a;'>
/// ```
///
/// And, if a text or an attribute has an entity reference and it references more
/// than 255 references - this is an error.
///
/// This is useful for cases like billion laughs attack, where depth can be pretty small,
/// but the number of references is exponentially increasing:
///
/// ```text
/// <!ENTITY lol "lol">
/// <!ENTITY lol1 "&lol;&lol;&lol;&lol;&lol;&lol;&lol;&lol;&lol;&lol;">
/// <!ENTITY lol2 "&lol1;&lol1;&lol1;&lol1;&lol1;&lol1;&lol1;&lol1;&lol1;&lol1;">
/// <!ENTITY lol3 "&lol2;&lol2;&lol2;&lol2;&lol2;&lol2;&lol2;&lol2;&lol2;&lol2;">
/// <!ENTITY lol4 "&lol3;&lol3;&lol3;&lol3;&lol3;&lol3;&lol3;&lol3;&lol3;&lol3;">
/// ```
#[derive(Clone, Copy, PartialEq, Eq, Debug, Structural)]
pub(crate) struct LoopDetector {
    /// References depth.
    pub depth: u8,
    /// Number of references resolved by the root reference.
    pub references: u8,
}

/// The table of namespaces and the bindings in the order of the tree.
pub(crate) struct Namespaces {
    /// Deduplicated namespace values used throughout the document
    pub values: Vec<NamespaceData>,
    /// Indices into the above in tree order as the document is parsed
    pub tree_order: Vec<NamespaceIdx>,
}

/// The state of the tree builder.
pub(crate) struct Context<'input> {
    pub opt: ParsingOptions,
    pub namespace_start_idx: usize,
    pub current_attributes: Vec<TempAttributeData>,
    pub awaiting_subtree: Vec<NodeId>,
    pub parent_prefixes: Vec<Span>,
    pub entities: Vec<Entity>,
    pub after_text: Vec<Stored>,
    pub parent_id: NodeId,
    pub tag_name: TagNameSpan,
    pub loop_detector: LoopDetector,
    pub text: &'input str,
    pub nodes: Vec<NodeData>,
    pub attributes: Vec<AttributeData>,
    pub namespaces: Namespaces,
    pub strings: Vec<String>,
}

/// The bytes of each string.
pub open spec fn strings_view(v: Seq<String>) -> Seq<Seq<u8>> {
    Seq::new(v.len(), |i: int| encode_utf8(v[i]@))
}

impl<'input> View for Context<'input> {
    type V = Build;

    closed spec fn view(&self) -> Build {
        Build {
            tree: Tree {
                text: self.text.spec_bytes(),
                nodes: self.nodes@,
                attributes: self.attributes@,
                namespaces: self.namespaces.values@,
                tree_order: self.namespaces.tree_order@,
                strings: strings_view(self.strings@),
            },
            nodes_limit: self.opt.nodes_limit,
            namespace_start_idx: self.namespace_start_idx,
            current_attributes: self.current_attributes@,
            awaiting_subtree: self.awaiting_subtree@,
            parent_prefixes: self.parent_prefixes@,
            entities: self.entities@,
            after_text: self.after_text@,
            parent_id: self.parent_id,
            tag_name: self.tag_name,
            references: self.loop_detector.references,
        }
    }
}

/// Every node of `awaiting` gets `next` as the start of its next subtree.
fn set_next_subtree(nodes: &mut Vec<NodeData>, awaiting: &Vec<NodeId>, next: NodeId)
    requires
        forall|k: int| 0 <= k < awaiting@.len() ==> (#[trigger] awaiting@[k]).0 < old(nodes)@.len(),
        old(nodes)@.len() <= u32::MAX,
    ensures
        final(nodes)@ == mark_awaiting(old(nodes)@, awaiting@, next),
{
    let ghost linked = nodes@;
    let n = awaiting.len();
    let mut k: usize = 0;
    while k < n
        invariant
            k <= n,
            n == awaiting@.len(),
            nodes@.len() == linked.len(),
            linked.len() <= u32::MAX,
            forall|k: int| 0 <= k < awaiting@.len() ==> (#[trigger] awaiting@[k]).0 < linked.len(),
            forall|i: int|
                0 <= i < linked.len() ==> #[trigger] nodes@[i] == if awaiting@.take(
                    k as int,
                ).contains(NodeId(i as u32)) {
                    NodeData { next_subtree: Some(next), ..linked[i] }
                } else {
                    linked[i]
                },
        decreases n - k,
    {
        let id = awaiting[k];
        let mut node = nodes[id.get_usize()];
        node.next_subtree = Some(next);
        nodes.set(id.get_usize(), node);
        proof {
            let before = awaiting@.take(k as int);
            let after = awaiting@.take(k + 1);
            assert(after =~= before.push(id));
            assert forall|i: int| 0 <= i < linked.len() implies #[trigger] nodes@[i]
                == if after.contains(NodeId(i as u32)) {
                NodeData { next_subtree: Some(next), ..linked[i] }
            } else {
                linked[i]
            } by {
                let x = NodeId(i as u32);
                if before.contains(x) {
                    let j = choose|j: int| 0 <= j < before.len() && before[j] == x;
                    assert(after[j] == x);
                }
                if x == id {
                    assert(after[k as int] == x);
                }
                if after.contains(x) {
                    let j = choose|j: int| 0 <= j < after.len() && after[j] == x;
                    if j < k {
                        assert(before[j] == x);
                    }
                }
            }
        }
        k += 1;
    }
    proof {
        assert(awaiting@.take(n as int) =~= awaiting@);
        assert(nodes@ =~= mark_awaiting(linked, awaiting@, next));
    }
}

impl<'input> Context<'input> {
    /// The depth of the references to entities that are being replaced.
    pub(crate) open spec fn depth(&self) -> nat {
        self.loop_detector.depth as nat
    }

    /// The text and the limits of the builder stay as they are.
    pub(crate) open spec fn same_input(&self, old: &Context<'input>) -> bool {
        self.text == old.text && self.opt == old.opt
    }

    pub(crate) fn append_node(&mut self, kind: NodeKind, range: Span) -> (r: Result<NodeId, Error>)
        requires
            old(self)@.safe(),
        ensures
            match old(self)@.append_node(kind, range) {
                Ok((m, id)) => r == Ok::<NodeId, Error>(id) && final(self)@ == m,
                Err(e) => r is Err && r->Err_0@ == e,
            },
            r is Err ==> final(self)@ == old(self)@,
            final(self).same_input(old(self)),
            final(self).loop_detector == old(self).loop_detector,
    {
        proof {
            reveal(Build::safe);
            reveal(Build::append_node);
        }
        if self.nodes.len() >= self.opt.nodes_limit as usize {
            return Err(Error::NodesLimitReached);
        }
        let new_child_id = NodeId::new(self.nodes.len() as u32);
        let appending_element = matches!(kind, NodeKind::Element { .. });
        let parent = self.parent_id.get_usize();
        let last_child_id = self.nodes[parent].last_child;
        self.nodes.push(
            NodeData {
                parent: Some(self.parent_id),
                prev_sibling: last_child_id,
                next_subtree: None,
                last_child: None,
                kind,
                range,
            },
        );
        let mut parent_node = self.nodes[parent];
        parent_node.last_child = Some(new_child_id);
        self.nodes.set(parent, parent_node);
        set_next_subtree(&mut self.nodes, &self.awaiting_subtree, new_child_id);
        self.awaiting_subtree.clear();
        if !appending_element {
            self.awaiting_subtree.push(new_child_id);
        }
        proof {
            let m = old(self)@.append_node(kind, range)->Ok_0.0;
            assert(self@.awaiting_subtree =~= m.awaiting_subtree);
            assert(self@.tree.nodes =~= m.tree.nodes);
        }
        Ok(new_child_id)
    }
}

/// One more string has one more view.
pub proof fn lemma_strings_view_push(v: Seq<String>, s: String)
    ensures
        strings_view(v.push(s)) == strings_view(v).push(encode_utf8(s@)),
{
    assert(strings_view(v.push(s)) =~= strings_view(v).push(encode_utf8(s@)));
}

/// The bytes of a stored text.
pub(crate) fn stored_bytes<'a>(text: &'a str, strings: &'a Vec<String>, s: Stored) -> (r: &'a [u8])
    requires
        match s {
            Stored::Input(span) => span.start <= span.end <= text.spec_bytes().len(),
            Stored::Owned(i) => i < strings@.len(),
        },
    ensures
        r@ == match s {
            Stored::Input(span) => span.of(text.spec_bytes()),
            Stored::Owned(i) => strings_view(strings@)[i as int],
        },
{
    match s {
        Stored::Input(span) => {
            let b = text.as_bytes();
            &b[span.start..span.end]
        },
        Stored::Owned(i) => strings[i].as_str().as_bytes(),
    }
}

impl<'input> Context<'input> {
    /// The bytes of a stored text of this state.
    pub(crate) fn bytes_of<'a>(&'a self, s: Stored) -> (r: &'a [u8])
        requires
            self@.tree.stored_wf(s),
        ensures
            r@ == self@.tree.stored(s),
    {
        stored_bytes(self.text, &self.strings, s)
    }

    pub(crate) fn append_text(&mut self, piece: Stored, range: Span) -> (r: Result<(), Error>)
        requires
            old(self)@.safe(),
            old(self)@.tree.stored_wf(piece),
        ensures
            match old(self)@.append_text(piece, range) {
                Ok(m) => r is Ok && final(self)@ == m && m.safe(),
                Err(e) => r is Err && r->Err_0@ == e,
            },
            old(self)@.inv() && r is Ok ==> final(self)@.inv(),
            final(self).same_input(old(self)),
            final(self).loop_detector == old(self).loop_detector,
    {
        proof {
            if old(self)@.inv() {
                old(self)@.lemma_append_text_inv(piece, range);
            }
        }
        proof {
            reveal(Build::safe);
            reveal(Build::append_text);
        }
        proof {
            old(self)@.lemma_append_text_safe(piece, range);
        }
        if self.after_text.len() == 0 {
            self.append_node(NodeKind::Text(piece), range)?;
        }
        self.after_text.push(piece);
        Ok(())
    }

    /// A piece of text with the given bytes, which the document owns from now on.
    pub(crate) fn append_owned_text(&mut self, bytes: Vec<u8>, range: Span) -> (r: Result<(), Error>)
        requires
            old(self)@.safe(),
            valid_utf8(bytes@),
        ensures
            match old(self)@.append_owned_text(bytes@, range) {
                Ok(m) => r is Ok && final(self)@ == m && m.safe(),
                Err(e) => r is Err && r->Err_0@ == e,
            },
            old(self)@.inv() && r is Ok ==> final(self)@.inv(),
            final(self).same_input(old(self)),
            final(self).loop_detector == old(self).loop_detector,
    {
        proof {
            if old(self)@.inv() {
                old(self)@.lemma_append_owned_text_inv(bytes@, range);
            }
        }
        proof {
            reveal(Build::safe);
            reveal(Build::append_owned_text);
        }
        proof {
            old(self)@.lemma_append_owned_text_safe(bytes@, range);
            old(self)@.lemma_push_string_safe(bytes@);
        }
        let idx = self.push_string(bytes);
        self.append_text(Stored::Owned(idx), range)
    }

    /// The document owns one more string with the given bytes: its index.
    pub(crate) fn push_string(&mut self, bytes: Vec<u8>) -> (idx: usize)
        requires
            valid_utf8(bytes@),
        ensures
            final(self)@ == old(self)@.with_tree(
                Tree { strings: old(self)@.tree.strings.push(bytes@), ..old(self)@.tree },
            ),
            idx == old(self)@.tree.strings.len(),
            final(self).same_input(old(self)),
            final(self).loop_detector == old(self).loop_detector,
    {
        let idx = self.strings.len();
        let ghost bytes_view = bytes@;
        let s = owned_string(bytes);
        proof {
            lemma_strings_view_push(self.strings@, s);
        }
        self.strings.push(s);
        idx
    }

    pub(crate) fn merge_text(&mut self)
        requires
            old(self)@.safe(),
        ensures
            final(self)@ == old(self)@.merge_text(),
            final(self).same_input(old(self)),
            final(self).loop_detector == old(self).loop_detector,
    {
        proof {
            reveal(Build::safe);
            reveal(Build::merge_text);
        }
        let last = self.nodes.len() - 1;
        let mut node = self.nodes[last];
        if let NodeKind::Text(_) = node.kind {
            let mut buf: Vec<u8> = Vec::new();
            let n = self.after_text.len();
            let mut k: usize = 0;
            while k < n
                invariant
                    k <= n,
                    n == self.after_text@.len(),
                    self@.safe(),
                    buf@ == joined(self@.tree, self.after_text@.take(k as int)),
                decreases n - k,
            {
                proof {
                    reveal(Build::safe);
                }
                let piece = self.after_text[k];
                proof {
                    assert(self@.tree.stored_wf(self@.after_text[k as int]));
                    assert(self.after_text@.take(k + 1).drop_last() =~= self.after_text@.take(
                        k as int,
                    ));
                }
                append_bytes(&mut buf, self.bytes_of(piece));
                k += 1;
            }
            proof {
                assert(self.after_text@.take(n as int) =~= self.after_text@);
                self@.lemma_joined_valid(self@.after_text);
            }
            let idx = self.push_string(buf);
            node.kind = NodeKind::Text(Stored::Owned(idx));
            self.nodes.set(last, node);
            proof {
                assert(self@.tree.nodes =~= old(self)@.merge_text().tree.nodes);
            }
        }
    }

    #[inline]
    pub(crate) fn reset_after_text(&mut self)
        requires
            old(self)@.safe(),
        ensures
            final(self)@ == old(self)@.reset_after_text(),
            final(self)@.safe(),
            final(self).same_input(old(self)),
            final(self).loop_detector == old(self).loop_detector,
    {
        proof {
            reveal(Build::safe);
            reveal(Build::reset_after_text);
        }
        proof {
            old(self)@.lemma_reset_after_text_safe();
        }
        if self.after_text.len() == 0 {
            proof {
                assert(self@.after_text =~= Seq::empty());
            }
            return ;
        }
        if self.after_text.len() > 1 {
            self.merge_text();
        }
        self.after_text.clear();
    }
}

/// Whether two optional texts are both absent or hold the same bytes.
pub(crate) fn same_bytes(a: Option<&[u8]>, b: Option<&[u8]>) -> (r: bool)
    ensures
        r == (match a {
            Some(x) => Some(x@),
            None => None,
        } == match b {
            Some(y) => Some(y@),
            None => None,
        }),
{
    match (a, b) {
        (Some(x), Some(y)) => {
            proof {
                assert(x@.subrange(0, x@.len() as int) =~= x@);
                assert(y@.subrange(0, y@.len() as int) =~= y@);
            }
            range_eq(x, Span::new(0, x.len()), y, Span::new(0, y.len()))
        },
        (None, None) => true,
        _ => false,
    }
}

impl<'input> Context<'input> {
    /// The bytes of an optional stored text of this state.
    pub(crate) fn name_bytes<'a>(&'a self, name: Option<Stored>) -> (r: Option<&'a [u8]>)
        requires
            name matches Some(n) ==> self@.tree.stored_wf(n),
        ensures
            match r {
                Some(x) => Some(x@),
                None => None,
            } == match name {
                Some(n) => Some(self@.tree.stored(n)),
                None => None,
            },
    {
        match name {
            Some(n) => Some(self.bytes_of(n)),
            None => None,
        }
    }

    /// The prefix of the binding at the index `k` of the tree order.
    pub(crate) fn binding_name<'a>(&'a self, k: usize) -> (r: Option<&'a [u8]>)
        requires
            self@.safe(),
            k < self@.tree.tree_order.len(),
        ensures
            match r {
                Some(x) => Some(x@),
                None => None,
            } == self@.tree.binding_name(k as int),
    {
        proof {
            reveal(Build::safe);
        }
        let idx = self.namespaces.tree_order[k];
        proof {
            assert(self@.tree.tree_order[k as int].0 < self@.tree.namespaces.len());
            assert(self@.tree.stored_wf(self@.tree.namespaces[idx.0 as int].uri));
        }
        let value = self.namespaces.values[idx.0 as usize];
        self.name_bytes(value.name)
    }

    /// Whether a binding of `name` stands in the tree order from `start` on.
    pub(crate) fn has_binding(&self, start: usize, name: Option<&[u8]>) -> (r: bool)
        requires
            self@.safe(),
        ensures
            r == binding_exists(
                self@.tree,
                start as int,
                match name {
                    Some(x) => Some(x@),
                    None => None,
                },
            ),
    {
        proof {
            reveal(Build::safe);
        }
        let ghost wanted = match name {
            Some(x) => Some(x@),
            None => None,
        };
        let n = self.namespaces.tree_order.len();
        let mut k: usize = start;
        while k < n
            invariant
                self@.safe(),
                n == self@.tree.tree_order.len(),
                start <= k,
                wanted == match name {
                    Some(x) => Some(x@),
                    None => None,
                },
                forall|i: int| start <= i < k ==> #[trigger] self@.tree.binding_name(i) != wanted,
            decreases n - k,
        {
            proof {
                reveal(Build::safe);
            }
            if same_bytes(self.binding_name(k), name) {
                return true;
            }
            k += 1;
        }
        false
    }

    /// A binding of `name` to `uri` is appended to the tree order.
    pub(crate) fn push_ns(&mut self, name: Option<Stored>, uri: Stored) -> (r: Result<(), Error>)
        requires
            old(self)@.safe(),
            old(self)@.tree.stored_wf(uri),
            name matches Some(n) ==> old(self)@.tree.stored_wf(n),
        ensures
            match old(self)@.push_ns(name, uri) {
                Ok(m) => r is Ok && final(self)@ == m && m.safe(),
                Err(e) => r is Err && r->Err_0@ == e,
            },
            final(self).same_input(old(self)),
            final(self).loop_detector == old(self).loop_detector,
    {
        proof {
            reveal(Build::safe);
            reveal(Build::push_ns);
        }
        let ghost tree = self@.tree;
        let ghost wanted_name = match name {
            Some(n) => Some(tree.stored(n)),
            None => None,
        };
        let ghost wanted_uri = tree.stored(uri);
        proof {
            old(self)@.lemma_push_ns_safe(name, uri);
        }
        let n = self.namespaces.values.len();
        let mut found: Option<usize> = None;
        let mut k: usize = 0;
        while k < n
            invariant_except_break
                found is None,
                find_namespace(tree, wanted_name, wanted_uri, 0) == find_namespace(
                    tree,
                    wanted_name,
                    wanted_uri,
                    k as int,
                ),
            invariant
                k <= n,
                n == tree.namespaces.len(),
                self@ == old(self)@,
                self@.tree == tree,
                self@.safe(),
                self@.tree.stored_wf(uri),
                name matches Some(n) ==> self@.tree.stored_wf(n),
                wanted_name == match name {
                    Some(n) => Some(tree.stored(n)),
                    None => None,
                },
                wanted_uri == tree.stored(uri),
            ensures
                find_namespace(tree, wanted_name, wanted_uri, 0) == match found {
                    Some(i) => Some(i as int),
                    None => None,
                },
                found matches Some(i) ==> i < n,
            decreases n - k,
        {
            proof {
                reveal(Build::safe);
            }
            let value = self.namespaces.values[k];
            proof {
                assert(tree.stored_wf(tree.namespaces[k as int].uri));
            }
            if same_bytes(self.name_bytes(value.name), self.name_bytes(name)) && same_bytes(
                Some(self.bytes_of(value.uri)),
                Some(self.bytes_of(uri)),
            ) {
                found = Some(k);
                break ;
            }
            k += 1;
        }
        let idx = match found {
            Some(i) => NamespaceIdx(i as u16),
            None => {
                if self.namespaces.values.len() > 0xffff {
                    return Err(Error::NamespacesLimitReached);
                }
                let i = NamespaceIdx(self.namespaces.values.len() as u16);
                self.namespaces.values.push(NamespaceData { name, uri });
                i
            },
        };
        self.namespaces.tree_order.push(idx);
        Ok(())
    }

    /// The visible bindings of the element whose start tag ends.
    pub(crate) fn resolve_namespaces(&mut self) -> (r: Result<ShortRange, Error>)
        requires
            old(self)@.safe(),
        ensures
            match old(self)@.resolve_namespaces() {
                Ok((m, range)) => r == Ok::<ShortRange, Error>(range) && final(self)@ == m
                    && m.safe() && range.within(m.tree.tree_order.len() as int),
                Err(e) => r is Err && r->Err_0@ == e,
            },
            final(self).same_input(old(self)),
            final(self).loop_detector == old(self).loop_detector,
    {
        proof {
            reveal(Build::safe);
            reveal(Build::resolve_namespaces);
            reveal(Build::inherit);
        }
        proof {
            old(self)@.lemma_resolve_namespaces_safe();
            assert(self@.tree.kind_wf(self@.tree.nodes[self.parent_id.0 as int].kind));
        }
        let parent = self.nodes[self.parent_id.get_usize()];
        if let NodeKind::Element { namespaces: parent_ns, .. } = parent.kind {
            if self.namespace_start_idx == self.namespaces.tree_order.len() {
                return Ok(parent_ns);
            }
            let end = parent_ns.end as usize;
            let mut i: usize = parent_ns.start as usize;
            while i < end
                invariant
                    self@.safe(),
                    end <= self@.tree.tree_order.len(),
                    end == parent_ns.end,
                    old(self)@.inherit(parent_ns.start as int, parent_ns.end as int)
                        == self@.inherit(i as int, end as int),
                    self.same_input(old(self)),
                    self.loop_detector == old(self).loop_detector,
                decreases end - i,
            {
                proof {
                    reveal(Build::safe);
                    reveal(Build::inherit);
                }
                proof {
                    self@.lemma_inherit_safe(i as int, end as int);
                    self@.lemma_inherit_safe(i + 1, end as int);
                }
                let idx = self.namespaces.tree_order[i];
                let ghost before = self@;
                if !self.has_binding(self.namespace_start_idx, self.binding_name(i)) {
                    self.namespaces.tree_order.push(idx);
                    proof {
                        let pushed = before.with_tree(
                            Tree { tree_order: before.tree.tree_order.push(idx), ..before.tree },
                        );
                        assert(self@ == pushed);
                        before.lemma_visible_within();
                        assert forall|k: int| 0 <= k < pushed.tree.tree_order.len() implies (
                        #[trigger] pushed.tree.tree_order[k]).0
                            < pushed.tree.namespaces.len() by {
                            if k < before.tree.tree_order.len() {
                                assert(before.tree.tree_order[k].0 < before.tree.namespaces.len());
                            } else {
                                assert(before.tree.tree_order[i as int].0
                                    < before.tree.namespaces.len());
                            }
                        }
                        assert forall|j: int| 0 <= j < pushed.tree.nodes.len() implies (
                        #[trigger] pushed.tree.visible(j)).within(
                            pushed.tree.tree_order.len() as int,
                        ) by {
                            assert(before.tree.visible(j).within(
                                before.tree.tree_order.len() as int,
                            ));
                        }
                        pushed.lemma_tree_order_safe(before);
                    }
                }
                i += 1;
            }
        }
        if self.namespaces.tree_order.len() > 0xffff_ffff {
            return Err(Error::NamespacesLimitReached);
        }
        Ok(
            ShortRange::new(
                self.namespace_start_idx as u32,
                self.namespaces.tree_order.len() as u32,
            ),
        )
    }
}

/// The characters of a text are what its bytes decode to.
pub proof fn lemma_chars_of_str(s: &str)
    ensures
        s@ == chars_of(s.spec_bytes()),
{
    encode_utf8_decode_utf8(s@);
}

/// The text of a span as a string of its own.
pub(crate) fn span_string(text: &str, span: Span) -> (r: String)
    requires
        span.wf(text.spec_bytes()),
    ensures
        r@ == chars_of(span.of(text.spec_bytes())),
{
    let piece = slice_str(text, span.start, span.end);
    proof {
        lemma_chars_of_str(piece);
    }
    piece.to_owned()
}

/// A qualified name as it is written, as a string of its own.
pub(crate) fn gen_qname_string(text: &str, prefix: Span, local: Span) -> (r: String)
    requires
        prefix.wf(text.spec_bytes()),
        local.wf(text.spec_bytes()),
    ensures
        r@ == qname_chars(text.spec_bytes(), prefix, local),
{
    if prefix.is_empty() {
        span_string(text, local)
    } else {
        let mut name = span_string(text, prefix);
        name.append(":");
        let local_piece = slice_str(text, local.start, local.end);
        proof {
            reveal_strlit(":");
            lemma_chars_of_str(local_piece);
            assert(":"@ =~= seq![':']);
        }
        name.append(local_piece);
        name
    }
}

impl<'input> Context<'input> {
    /// Row and column of a byte offset of the text.
    pub(crate) fn text_pos_at(&self, pos: usize) -> (r: TextPos)
        ensures
            r == text_pos(self@.tree.text, pos as int),
    {
        text_pos_at(self.text.as_bytes(), pos)
    }

    /// The bytes of a span of the text.
    pub(crate) fn span_bytes<'a>(&'a self, span: Span) -> (r: &'a [u8])
        requires
            span.start <= span.end <= self@.tree.text.len(),
        ensures
            r@ == span.of(self@.tree.text),
    {
        let b = self.text.as_bytes();
        &b[span.start..span.end]
    }

    /// Whether the bytes of a span are those of `lit`.
    pub(crate) fn span_is(&self, span: Span, lit: &str) -> (r: bool)
        requires
            span.start <= span.end <= self@.tree.text.len(),
        ensures
            r == (span.of(self@.tree.text) == lit.spec_bytes()),
    {
        crate::stream::span_is(self.text.as_bytes(), span, lit)
    }

    /// The index of the namespace that `prefix` is bound to in the range of bindings.
    pub(crate) fn get_ns_idx_by_prefix(&self, namespaces: ShortRange, prefix_pos: usize, prefix: Span) -> (r:
        Result<Option<NamespaceIdx>, Error>)
        requires
            self@.safe(),
            namespaces.within(self@.tree.tree_order.len() as int),
            prefix.wf(self@.tree.text),
        ensures
            lift(r) == self@.ns_idx_by_prefix(namespaces, prefix_pos, prefix),
    {
        proof {
            reveal(Build::safe);
            reveal(Build::ns_idx_by_prefix);
        }
        // Prefix CAN be empty when the default namespace was defined.
        //
        // Example:
        // <e xmlns='http://www.w3.org'/>
        let prefix_opt = if prefix.is_empty() {
            None
        } else {
            Some(self.span_bytes(prefix))
        };
        let ghost wanted = if prefix.spec_is_empty() {
            None
        } else {
            Some(prefix.of(self@.tree.text))
        };
        let end = namespaces.end as usize;
        let mut k: usize = namespaces.start as usize;
        while k < end
            invariant
                self@.safe(),
                namespaces.start <= k <= end,
                end == namespaces.end,
                end <= self@.tree.tree_order.len(),
                wanted == match prefix_opt {
                    Some(x) => Some(x@),
                    None => None,
                },
                wanted == if prefix.spec_is_empty() {
                    None
                } else {
                    Some(prefix.of(self@.tree.text))
                },
                find_binding(
                    self@.tree,
                    wanted,
                    namespaces.start as int,
                    namespaces.end as int,
                ) == find_binding(self@.tree, wanted, k as int, namespaces.end as int),
            decreases end - k,
        {
            proof {
                reveal(Build::safe);
                reveal(Build::ns_idx_by_prefix);
            }
            if same_bytes(self.binding_name(k), prefix_opt) {
                return Ok(Some(self.namespaces.tree_order[k]));
            }
            k += 1;
        }
        if !prefix.is_empty() {
            // If an URI was not found and prefix IS NOT empty than
            // we have an unknown namespace.
            //
            // Example:
            // <e random:a='b'/>
            let pos = self.text_pos_at(prefix_pos);
            Err(Error::UnknownNamespace(span_string(self.text, prefix), pos))
        } else {
            // If an URI was not found and prefix IS empty than
            // an element or an attribute doesn't have a namespace.
            //
            // Example:
            // <e a='b'/>
            Ok(None)
        }
    }

    /// The bytes of the namespace name of a name.
    pub(crate) fn name_uri<'a>(&'a self, name: ExpandedNameIndexed) -> (r: Option<&'a [u8]>)
        requires
            self@.safe(),
            self@.tree.name_wf(name),
        ensures
            match r {
                Some(x) => Some(x@),
                None => None,
            } == name_uri(self@.tree, name),
    {
        proof {
            reveal(Build::safe);
        }
        match name.namespace_idx {
            Some(idx) => {
                proof {
                    assert(self@.tree.stored_wf(self@.tree.namespaces[idx.0 as int].uri));
                }
                Some(self.bytes_of(self.namespaces.values[idx.0 as usize].uri))
            },
            None => None,
        }
    }

    /// Whether two names are the same expanded name.
    pub(crate) fn same_expanded_name(&self, x: ExpandedNameIndexed, y: ExpandedNameIndexed) -> (r: bool)
        requires
            self@.safe(),
            self@.tree.name_wf(x),
            self@.tree.name_wf(y),
        ensures
            r == same_expanded_name(self@.tree, x, y),
    {
        proof {
            reveal(Build::safe);
        }
        same_bytes(self.name_uri(x), self.name_uri(y)) && same_bytes(
            Some(self.span_bytes(x.local_name)),
            Some(self.span_bytes(y.local_name)),
        )
    }

    /// Whether an attribute with the expanded name of `name` stands in the
    /// arena from `start` on.
    pub(crate) fn has_attribute(&self, start: usize, name: ExpandedNameIndexed) -> (r: bool)
        requires
            self@.safe(),
            self@.tree.name_wf(name),
        ensures
            r == attribute_exists(self@.tree, start as int, name),
    {
        proof {
            reveal(Build::safe);
        }
        let n = self.attributes.len();
        let mut k: usize = start;
        while k < n
            invariant
                self@.safe(),
                self@.tree.name_wf(name),
                n == self@.tree.attributes.len(),
                start <= k,
                forall|i: int|
                    start <= i < k ==> !same_expanded_name(
                        self@.tree,
                        (#[trigger] self@.tree.attributes[i]).name,
                        name,
                    ),
            decreases n - k,
        {
            proof {
                reveal(Build::safe);
            }
            proof {
                assert(self@.tree.name_wf(self@.tree.attributes[k as int].name));
            }
            if self.same_expanded_name(self.attributes[k].name, name) {
                return true;
            }
            k += 1;
        }
        false
    }

    /// The attributes of the start tag become attributes of the tree.
    pub(crate) fn resolve_attributes(&mut self, namespaces: ShortRange) -> (r: Result<ShortRange, Error>)
        requires
            old(self)@.safe(),
            namespaces.within(old(self)@.tree.tree_order.len() as int),
        ensures
            match old(self)@.resolve_attributes(namespaces) {
                Ok((m, range)) => r == Ok::<ShortRange, Error>(range) && final(self)@ == m
                    && m.safe() && range.within(m.tree.attributes.len() as int)
                    && m.same_but_attributes(old(self)@),
                Err(e) => r is Err && r->Err_0@ == e,
            },
            final(self).same_input(old(self)),
            final(self).loop_detector == old(self).loop_detector,
    {
        proof {
            reveal(Build::safe);
            reveal(Build::resolve_attributes);
            reveal(Build::resolve_from);
            reveal(Build::attribute_ns_idx);
        }
        proof {
            old(self)@.lemma_resolve_attributes_safe(namespaces);
        }
        if self.current_attributes.len() == 0 {
            return Ok(ShortRange::new(0, 0));
        }
        if self.current_attributes.len() >= 0xffff_ffff - self.attributes.len() {
            return Err(Error::AttributesLimitReached);
        }
        let start_idx = self.attributes.len();
        let n = self.current_attributes.len();
        let mut k: usize = 0;
        while k < n
            invariant
                k <= n,
                n == self@.current_attributes.len(),
                self@.safe(),
                namespaces.within(self@.tree.tree_order.len() as int),
                self@.tree.attributes.len() + (n - k) < u32::MAX,
                start_idx == old(self)@.tree.attributes.len(),
                old(self)@.current_attributes.len() > 0,
                old(self)@.tree.attributes.len() + old(self)@.current_attributes.len() < u32::MAX,
                old(self)@.resolve_from(namespaces, start_idx as int, 0) == self@.resolve_from(
                    namespaces,
                    start_idx as int,
                    k as int,
                ),
                self.same_input(old(self)),
                self.loop_detector == old(self).loop_detector,
            decreases n - k,
        {
            proof {
                reveal(Build::safe);
                reveal(Build::resolve_from);
                reveal(Build::resolve_attributes);
                reveal(Build::attribute_ns_idx);
            }
            let attr = self.current_attributes[k];
            proof {
                assert(self@.current_attributes[k as int].wf(self@.tree));
                self@.lemma_ns_idx_in_table(namespaces, attr.range.start, attr.prefix);
            }
            let namespace_idx = if self.span_is(attr.prefix, "xml") {
                // The prefix 'xml' is by definition bound to the namespace name
                // http://www.w3.org/XML/1998/namespace. This namespace is added
                // to the document on creation and is always element 0.
                Some(NamespaceIdx(0))
            } else if attr.prefix.is_empty() {
                // 'The namespace name for an unprefixed attribute name
                // always has no value.'
                None
            } else {
                self.get_ns_idx_by_prefix(namespaces, attr.range.start, attr.prefix)?
            };
            let attr_name = ExpandedNameIndexed { namespace_idx, local_name: attr.local };
            // Check for duplicated attributes.
            if self.has_attribute(start_idx, attr_name) {
                let pos = self.text_pos_at(attr.range.start);
                return Err(Error::DuplicatedAttribute(span_string(self.text, attr.local), pos));
            }
            let data = AttributeData {
                name: attr_name,
                value: attr.value,
                range: attr.range,
                qname_len: attr.qname_len,
                eq_len: attr.eq_len,
            };
            proof {
                self@.lemma_push_attribute_safe(data);
            }
            self.attributes.push(data);
            k += 1;
        }
        self.current_attributes.clear();
        proof {
            assert(self@.current_attributes =~= Seq::empty());
        }
        Ok(ShortRange::new(start_idx as u32, self.attributes.len() as u32))
    }

    /// The element of the start tag that is being read becomes a node.
    pub(crate) fn append_element(&mut self, attributes: ShortRange, namespaces: ShortRange, end: usize) -> (r:
        Result<NodeId, Error>)
        requires
            old(self)@.safe(),
            attributes.within(old(self)@.tree.attributes.len() as int),
            namespaces.within(old(self)@.tree.tree_order.len() as int),
        ensures
            match old(self)@.append_element(attributes, namespaces, end) {
                Ok((m, id)) => r == Ok::<NodeId, Error>(id) && final(self)@ == m && m.safe(),
                Err(e) => r is Err && r->Err_0@ == e,
            },
            final(self).same_input(old(self)),
            final(self).loop_detector == old(self).loop_detector,
    {
        proof {
            reveal(Build::safe);
            reveal(Build::append_element);
        }
        proof {
            old(self)@.lemma_append_element_safe(attributes, namespaces, end);
        }
        let tag_ns_idx = self.get_ns_idx_by_prefix(
            namespaces,
            self.tag_name.prefix_pos,
            self.tag_name.prefix,
        )?;
        self.append_node(
            NodeKind::Element {
                tag_name: ExpandedNameIndexed {
                    namespace_idx: tag_ns_idx,
                    local_name: self.tag_name.name,
                },
                attributes,
                namespaces,
            },
            Span::new(self.tag_name.pos, end),
        )
    }

    /// A close tag.
    pub(crate) fn close_element(&mut self, prefix: Span, local: Span, range: Span) -> (r: Result<(), Error>)
        requires
            old(self)@.safe(),
            prefix.wf(old(self)@.tree.text),
            local.wf(old(self)@.tree.text),
        ensures
            match old(self)@.close_element(prefix, local, range) {
                Ok(m) => r is Ok && final(self)@ == m && m.safe(),
                Err(e) => r is Err && r->Err_0@ == e,
            },
            final(self).same_input(old(self)),
            final(self).loop_detector == old(self).loop_detector,
    {
        proof {
            reveal(Build::safe);
            reveal(Build::close_element);
        }
        proof {
            old(self)@.lemma_close_element_safe(prefix, local, range);
            assert(self@.tree.kind_wf(self@.tree.nodes[self.parent_id.0 as int].kind));
            assert(self@.parent_prefixes[self@.parent_prefixes.len() - 1].wf(self@.tree.text));
        }
        let parent = self.parent_id.get_usize();
        let mut parent_node = self.nodes[parent];
        // should never panic as we start with the single prefix of the
        // root node and always push another one when changing the parent
        let parent_prefix = self.parent_prefixes[self.parent_prefixes.len() - 1];
        parent_node.range = Span::new(parent_node.range.start, range.end);
        if let NodeKind::Element { tag_name, .. } = parent_node.kind {
            if !same_bytes(Some(self.span_bytes(prefix)), Some(self.span_bytes(parent_prefix)))
                || !same_bytes(
                Some(self.span_bytes(local)),
                Some(self.span_bytes(tag_name.local_name)),
            ) {
                return Err(
                    Error::UnexpectedCloseTag(
                        gen_qname_string(self.text, parent_prefix, tag_name.local_name),
                        gen_qname_string(self.text, prefix, local),
                        self.text_pos_at(range.start),
                    ),
                );
            }
        }
        match parent_node.parent {
            Some(id) => {
                if self.parent_prefixes.len() <= 1 {
                    return Err(Error::UnexpectedEntityCloseTag(self.text_pos_at(range.start)));
                }
                self.nodes.set(parent, parent_node);
                self.awaiting_subtree.push(self.parent_id);
                self.parent_id = id;
                self.parent_prefixes.pop();
                proof {
                    assert(self@.parent_prefixes =~= old(self)@.parent_prefixes.drop_last());
                }
                Ok(())
            },
            None => {
                // May occur in XML like this:
                // <!DOCTYPE test [ <!ENTITY p '<p></p></p>'> ]>
                // <p>&p;&p;
                Err(Error::UnexpectedEntityCloseTag(self.text_pos_at(range.start)))
            },
        }
    }

    /// The end of a tag.
    pub(crate) fn process_element(&mut self, end_token: SpanEnd, token_range: Span) -> (r: Result<
        (),
        Error,
    >)
        requires
            old(self)@.safe(),
            match end_token {
                SpanEnd::Close(prefix, local) => prefix.wf(old(self)@.tree.text) && local.wf(
                    old(self)@.tree.text,
                ),
                _ => true,
            },
        ensures
            match old(self)@.process_element(end_token, token_range) {
                Ok(m) => r is Ok && final(self)@ == m && m.safe(),
                Err(e) => r is Err && r->Err_0@ == e,
            },
            final(self).same_input(old(self)),
            final(self).loop_detector == old(self).loop_detector,
    {
        proof {
            reveal(Build::safe);
            reveal(Build::process_element);
        }
        proof {
            old(self)@.lemma_process_element_safe(end_token, token_range);
        }
        if self.tag_name.name.is_empty() {
            // May occur in XML like this:
            // <!DOCTYPE test [ <!ENTITY p '</p>'> ]>
            // <root>&p;</root>
            return Err(Error::UnexpectedEntityCloseTag(self.text_pos_at(token_range.start)));
        }
        let namespaces = self.resolve_namespaces()?;
        proof {
            self@.lemma_visible_within();
            let started = Build {
                namespace_start_idx: self@.tree.tree_order.len() as usize,
                ..self@
            };
            started.lemma_tree_order_safe(self@);
        }
        self.namespace_start_idx = self.namespaces.tree_order.len();
        let attributes = self.resolve_attributes(namespaces)?;
        match end_token {
            SpanEnd::Empty => {
                let new_element_id = self.append_element(attributes, namespaces, token_range.end)?;
                self.awaiting_subtree.push(new_element_id);
            },
            SpanEnd::Close(prefix, local) => {
                self.close_element(prefix, local, token_range)?;
            },
            SpanEnd::Open => {
                let id = self.append_element(attributes, namespaces, token_range.end)?;
                self.parent_id = id;
                self.parent_prefixes.push(self.tag_name.prefix);
            },
        }
        Ok(())
    }
}

impl LoopDetector {
    #[inline]
    pub(crate) fn inc_depth(&mut self, stream: &Stream) -> (r: Result<(), Error>)
        ensures
            old(self).depth < 10 ==> r is Ok && final(self).depth == old(self).depth + 1
                && final(self).references == old(self).references,
            old(self).depth >= 10 ==> r is Err && r->Err_0@ == ErrorModel::EntityReferenceLoop(
                text_pos(stream.bytes(), stream.pos as int),
            ) && *final(self) == *old(self),
    {
        if self.depth < 10 {
            self.depth += 1;
            Ok(())
        } else {
            Err(Error::EntityReferenceLoop(stream.gen_text_pos()))
        }
    }

    #[inline]
    pub(crate) fn dec_depth(&mut self)
        ensures
            final(self).depth == if old(self).depth > 0 {
                old(self).depth - 1
            } else {
                0
            },
            final(self).references == if final(self).depth == 0 {
                0
            } else {
                old(self).references
            },
    {
        if self.depth > 0 {
            self.depth -= 1;
        }
        // Reset references count after reaching zero depth.
        if self.depth == 0 {
            self.references = 0;
        }
    }

    #[inline]
    pub(crate) fn inc_references(&mut self, stream: &Stream) -> (r: Result<(), Error>)
        ensures
            old(self).depth == 0 ==> r is Ok && *final(self) == *old(self),
            old(self).depth > 0 && old(self).references == u8::MAX ==> r is Err && r->Err_0@
                == ErrorModel::EntityReferenceLoop(text_pos(stream.bytes(), stream.pos as int))
                && *final(self) == *old(self),
            old(self).depth > 0 && old(self).references < u8::MAX ==> r is Ok
                && final(self).depth == old(self).depth && final(self).references == old(
                self,
            ).references + 1,
    {
        if self.depth == 0 {
            // Allow infinite amount of references at zero depth.
            Ok(())
        } else {
            if self.references == u8::MAX {
                return Err(Error::EntityReferenceLoop(stream.gen_text_pos()));
            }
            self.references += 1;
            Ok(())
        }
    }

    /// One more reference to an entity, one level deeper.
    pub(crate) fn enter(&mut self, stream: &Stream) -> (r: Result<(), Error>)
        ensures
            match enter_entity(
                stream.bytes(),
                stream.pos as int,
                old(self).depth as nat,
                old(self).references,
            ) {
                Ok(references) => r is Ok && final(self).references == references
                    && final(self).depth == old(self).depth + 1 && old(self).depth < 10,
                Err(e) => r is Err && r->Err_0@ == e,
            },
    {
        self.inc_references(stream)?;
        self.inc_depth(stream)?;
        Ok(())
    }
}

/// Appends the bytes in `[start, end)` with their white space normalized.
pub(crate) fn append_spaces_normalized(b: &[u8], start: usize, end: usize, buf: &mut Vec<u8>)
    requires
        start <= end <= b@.len(),
    ensures
        final(buf)@ == old(buf)@ + spaces_normalized(b@, start as int, end as int),
{
    let mut pos: usize = start;
    let ghost whole = old(buf)@ + spaces_normalized(b@, start as int, end as int);
    while pos < end
        invariant
            start <= pos <= end <= b@.len(),
            whole == old(buf)@ + spaces_normalized(b@, start as int, end as int),
            whole == buf@ + spaces_normalized(b@, pos as int, end as int),
        decreases end - pos,
    {
        let rest = &b[pos..end];
        let ghost before = buf@;
        match memchr::memchr3(0x09, 0x0d, 0x0a, rest) {
            None => {
                proof {
                    assert forall|k: int| pos <= k < end implies !is_attribute_space(
                        #[trigger] b@[k],
                    ) by {
                        assert(rest@[k - pos] == b@[k]);
                    }
                    lemma_spaces_plain(b@, pos as int, end as int, end as int);
                    assert(before + (rest@ + Seq::<u8>::empty()) =~= before + rest@);
                }
                append_bytes(buf, rest);
                pos = end;
            },
            Some(i) => {
                let ws = pos + i;
                proof {
                    assert forall|k: int| pos <= k < ws implies !is_attribute_space(
                        #[trigger] b@[k],
                    ) by {
                        assert(rest@[k - pos] == b@[k]);
                    }
                    assert(rest@[i as int] == b@[ws as int]);
                    lemma_spaces_plain(b@, pos as int, ws as int, end as int);
                }
                append_bytes(buf, &b[pos..ws]);
                buf.push(0x20);
                let skip: usize = if b[ws] == 0x0d && end - ws > 1 && b[ws + 1] == 0x0a {
                    2
                } else {
                    1
                };
                proof {
                    assert(before + (b@.subrange(pos as int, ws as int) + (seq![0x20u8]
                        + spaces_normalized(b@, ws + skip, end as int))) =~= before + b@.subrange(
                        pos as int,
                        ws as int,
                    ).push(0x20) + spaces_normalized(b@, ws + skip, end as int));
                    assert(buf@ =~= before + b@.subrange(pos as int, ws as int).push(0x20));
                }
                pos = ws + skip;
            },
        }
    }
    proof {
        assert(buf@ + Seq::<u8>::empty() =~= buf@);
    }
}

impl<'input> Context<'input> {
    /// The first entity with the given name.
    pub(crate) fn find_entity(&self, name: Span) -> (r: Option<Entity>)
        requires
            self@.safe(),
            name.wf(self@.tree.text),
        ensures
            r == find_entity(self@.entities, self@.tree.text, name.of(self@.tree.text), 0),
            r matches Some(e) ==> e.value.wf(self@.tree.text),
    {
        proof {
            reveal(Build::safe);
        }
        let n = self.entities.len();
        let mut k: usize = 0;
        proof {
            lemma_find_entity_member(self@.entities, self@.tree.text, name.of(self@.tree.text), 0);
        }
        while k < n
            invariant
                k <= n,
                n == self@.entities.len(),
                self@.safe(),
                name.wf(self@.tree.text),
                find_entity(self@.entities, self@.tree.text, name.of(self@.tree.text), 0)
                    == find_entity(
                    self@.entities,
                    self@.tree.text,
                    name.of(self@.tree.text),
                    k as int,
                ),
            decreases n - k,
        {
            proof {
                reveal(Build::safe);
            }
            let e = self.entities[k];
            proof {
                assert(self@.entities[k as int].name.wf(self@.tree.text));
            }
            if same_bytes(Some(self.span_bytes(e.name)), Some(self.span_bytes(name))) {
                return Some(e);
            }
            k += 1;
        }
        None
    }

    /// The attribute value in `span`, normalized and appended to `buf`.
    pub(crate) fn normalize_into(&mut self, span: Span, buf: &mut Vec<u8>) -> (r: Result<(), Error>)
        requires
            old(self)@.safe(),
            span.wf(old(self)@.tree.text),
            valid_utf8(old(buf)@),
        ensures
            match normalize_from(
                old(self)@.tree.text,
                old(self)@.entities,
                span.start as int,
                span.end as int,
                old(self).depth(),
                old(self)@.references,
                old(buf)@,
            ) {
                Ok(n) => r is Ok && final(buf)@ == n.bytes && final(self)@ == (Build {
                    references: n.references,
                    ..old(self)@
                }) && final(self).depth() == old(self).depth() && valid_utf8(final(buf)@),
                Err(e) => r is Err && r->Err_0@ == e,
            },
            final(self).same_input(old(self)),
        decreases fuel(old(self).depth()),
    {
        proof {
            reveal(Build::safe);
        }
        let ghost b = self@.tree.text;
        let ghost entities = self@.entities;
        let ghost depth = self.depth();
        let ghost whole = normalize_from(
            b,
            entities,
            span.start as int,
            span.end as int,
            depth,
            self@.references,
            buf@,
        );
        let bytes = self.text.as_bytes();
        let mut stream = Stream::from_substr(self.text, span.start..span.end);
        loop
            invariant
                stream.inv(),
                stream.text == self.text,
                stream.end == span.end,
                span.start <= stream.pos,
                bytes@ == b,
                self@ == (Build { references: self@.references, ..old(self)@ }),
                self.depth() == depth,
                depth == old(self).depth(),
                self.same_input(old(self)),
                old(self)@.safe(),
                b == old(self)@.tree.text,
                entities == old(self)@.entities,
                valid_utf8(buf@),
                whole == normalize_from(
                    b,
                    entities,
                    stream.pos as int,
                    stream.end as int,
                    depth,
                    self@.references,
                    buf@,
                ),
                whole == normalize_from(
                    b,
                    entities,
                    span.start as int,
                    span.end as int,
                    depth,
                    old(self)@.references,
                    old(buf)@,
                ),
            decreases stream.end - stream.pos,
        {
            proof {
                reveal(Build::safe);
            }
            let rest = &bytes[stream.pos..stream.end];
            let ghost amp = run_end(b, stream.pos as int, stream.end as int, ByteClass::Not(0x26));
            proof {
                stream.lemma_valid();
                lemma_run_end_bounds(b, stream.pos as int, stream.end as int, ByteClass::Not(0x26));
                crate::stream::lemma_run_end_boundary(
                    b,
                    stream.pos as int,
                    stream.end as int,
                    ByteClass::Not(0x26),
                );
                lemma_spaces_normalized_valid(b, stream.pos as int, amp);
                valid_utf8_concat(buf@, spaces_normalized(b, stream.pos as int, amp));
            }
            let found = memchr::memchr(0x26, rest);
            let pos = match found {
                Some(pos) => pos,
                None => {
                    proof {
                        if amp < stream.end {
                            assert(rest@[amp - stream.pos] == b[amp]);
                        }
                    }
                    append_spaces_normalized(bytes, stream.pos, stream.end, buf);
                    return Ok(());
                },
            };
            proof {
                assert(rest@[pos as int] == b[stream.pos + pos]);
                if amp < stream.pos + pos {
                    assert(rest@[amp - stream.pos] == b[amp]);
                }
                if amp > stream.pos + pos {
                    assert(ByteClass::Not(0x26).spec_has(b[stream.pos + pos]));
                }
                assert(amp == stream.pos + pos);
                lemma_reference_progress(b, amp, stream.end as int);
            }
            append_spaces_normalized(bytes, stream.pos, stream.pos + pos, buf);
            stream.advance(pos);
            // Check for character/entity references.
            let start = stream.pos();
            match stream.consume_reference() {
                Some(SpanReference::Char(ch)) => {
                    proof {
                        lemma_valid_encoding(ch);
                        valid_utf8_concat(buf@, encode_scalar(ch as u32));
                        lemma_valid_push_ascii(buf@, 0x20);
                    }
                    if self.loop_detector.depth > 0 {
                        // Escaped `<` inside an ENTITY is an error.
                        // Escaped `<` outside an ENTITY is ok.
                        if ch == '<' {
                            return Err(
                                Error::InvalidAttributeValue(stream.gen_text_pos_from(start)),
                            );
                        }
                        if ch == '\t' || ch == '\r' || ch == '\n' {
                            buf.push(0x20);
                        } else {
                            append_char(buf, ch);
                        }
                    } else {
                        // Characters not from entity should be added as is.
                        append_char(buf, ch);
                    }
                },
                Some(SpanReference::Entity(name)) => match self.find_entity(name) {
                    Some(entity) => {
                        self.loop_detector.enter(&stream)?;
                        self.normalize_into(entity.value, buf)?;
                        self.loop_detector.dec_depth();
                    },
                    None => {
                        let pos = stream.gen_text_pos_from(start);
                        return Err(
                            Error::UnknownEntityReference(span_string(self.text, name), pos),
                        );
                    },
                },
                None => {
                    let pos = stream.gen_text_pos_from(start);
                    return Err(Error::MalformedEntityReference(pos));
                },
            }
        }
    }
}

/// Appends the bytes in `[start, end)` with each end of line as a line feed.
pub(crate) fn append_line_ends_normalized(b: &[u8], start: usize, end: usize, buf: &mut Vec<u8>)
    requires
        start <= end <= b@.len(),
    ensures
        final(buf)@ == old(buf)@ + line_ends_normalized(b@, start as int, end as int),
{
    let mut pos: usize = start;
    let ghost whole = old(buf)@ + line_ends_normalized(b@, start as int, end as int);
    while pos < end
        invariant
            start <= pos <= end <= b@.len(),
            whole == old(buf)@ + line_ends_normalized(b@, start as int, end as int),
            whole == buf@ + line_ends_normalized(b@, pos as int, end as int),
        decreases end - pos,
    {
        let rest = &b[pos..end];
        let ghost before = buf@;
        match memchr::memchr(0x0d, rest) {
            None => {
                proof {
                    assert forall|k: int| pos <= k < end implies #[trigger] b@[k] != 0x0d by {
                        assert(rest@[k - pos] == b@[k]);
                    }
                    lemma_line_ends_plain(b@, pos as int, end as int, end as int);
                    assert(before + (rest@ + Seq::<u8>::empty()) =~= before + rest@);
                }
                append_bytes(buf, rest);
                pos = end;
            },
            Some(i) => {
                let cr = pos + i;
                proof {
                    assert forall|k: int| pos <= k < cr implies #[trigger] b@[k] != 0x0d by {
                        assert(rest@[k - pos] == b@[k]);
                    }
                    assert(rest@[i as int] == b@[cr as int]);
                    lemma_line_ends_plain(b@, pos as int, cr as int, end as int);
                }
                append_bytes(buf, &b[pos..cr]);
                buf.push(0x0a);
                let skip: usize = if end - cr > 1 && b[cr + 1] == 0x0a {
                    2
                } else {
                    1
                };
                proof {
                    assert(before + (b@.subrange(pos as int, cr as int) + (seq![0x0au8]
                        + line_ends_normalized(b@, cr + skip, end as int))) =~= before
                        + b@.subrange(pos as int, cr as int).push(0x0a) + line_ends_normalized(
                        b@,
                        cr + skip,
                        end as int,
                    ));
                    assert(buf@ =~= before + b@.subrange(pos as int, cr as int).push(0x0a));
                }
                pos = cr + skip;
            },
        }
    }
    proof {
        assert(buf@ + Seq::<u8>::empty() =~= buf@);
    }
}

impl<'input> Context<'input> {
    /// The stored value of an attribute.
    ///
    /// <https://www.w3.org/TR/REC-xml/#AVNormalize>
    pub(crate) fn normalize_attribute(&mut self, value: Span) -> (r: Result<Stored, Error>)
        requires
            old(self)@.safe(),
            value.wf(old(self)@.tree.text),
        ensures
            match old(self)@.attribute_value(value, old(self).depth()) {
                Ok((m, stored)) => r == Ok::<Stored, Error>(stored) && final(self)@ == m
                    && m.safe() && m.tree.stored_wf(stored) && m.tree.text == old(
                    self,
                )@.tree.text && m.entities == old(self)@.entities && m.tag_name == old(
                    self,
                )@.tag_name,
                Err(e) => r is Err && r->Err_0@ == e,
            },
            final(self).same_input(old(self)),
            r is Ok ==> final(self).depth() == old(self).depth(),
    {
        proof {
            reveal(Build::safe);
            reveal(Build::attribute_value);
        }
        let ghost b = self@.tree.text;
        let bytes = self.span_bytes(value);
        // We assume that `&` indicates an entity or a character reference.
        // But in rare cases it can be just an another character.
        let amp = memchr::memchr(0x26, bytes);
        let space = memchr::memchr3(0x09, 0x0d, 0x0a, bytes);
        proof {
            let needs = exists|k: int|
                value.start <= k < value.end && (#[trigger] b[k] == 0x26 || is_attribute_space(
                    b[k],
                ));
            if amp is Some {
                assert(bytes@[amp->0 as int] == b[value.start + amp->0]);
            }
            if space is Some {
                assert(bytes@[space->0 as int] == b[value.start + space->0]);
            }
            if needs {
                let k = choose|k: int|
                    value.start <= k < value.end && (#[trigger] b[k] == 0x26
                        || is_attribute_space(b[k]));
                assert(bytes@[k - value.start] == b[k]);
            }
        }
        if amp.is_some() || space.is_some() {
            let mut buf: Vec<u8> = Vec::new();
            proof {
                assert(valid_utf8(buf@));
            }
            self.normalize_into(value, &mut buf)?;
            proof {
                old(self)@.lemma_attribute_value_safe(value, old(self).depth(), buf@);
            }
            let idx = self.push_string(buf);
            Ok(Stored::Owned(idx))
        } else {
            proof {
                old(self)@.lemma_attribute_value_safe(value, old(self).depth(), Seq::empty());
            }
            Ok(Stored::Input(value))
        }
    }

    /// An attribute of a start tag.
    pub(crate) fn process_attribute(
        &mut self,
        range: Span,
        qname_len: u16,
        eq_len: u8,
        prefix: Span,
        local: Span,
        value: Span,
    ) -> (r: Result<(), Error>)
        requires
            old(self)@.safe(),
            range.wf(old(self)@.tree.text),
            prefix.wf(old(self)@.tree.text),
            local.wf(old(self)@.tree.text),
            value.wf(old(self)@.tree.text),
        ensures
            match old(self)@.process_attribute(
                range,
                qname_len,
                eq_len,
                prefix,
                local,
                value,
                old(self).depth(),
            ) {
                Ok(m) => r is Ok && final(self)@ == m && m.safe() && m.tree.text == old(
                    self,
                )@.tree.text && m.entities == old(self)@.entities && m.tag_name == old(
                    self,
                )@.tag_name,
                Err(e) => r is Err && r->Err_0@ == e,
            },
            old(self)@.inv() && r is Ok ==> final(self)@.inv(),
            final(self).same_input(old(self)),
            r is Ok ==> final(self).depth() == old(self).depth(),
    {
        proof {
            reveal(Build::safe);
            reveal(Build::process_attribute);
        }
        let stored = self.normalize_attribute(value)?;
        proof {
            if old(self)@.inv() {
                assert(self@.safe());
                assert(stored is Owned ==> valid_utf8(self@.tree.strings.last())) by {
                    reveal(Build::safe);
                    reveal(Build::attribute_value);
                }
                old(self)@.lemma_attribute_value_inv(value, old(self).depth());
            }
            old(self)@.lemma_process_attribute_safe(
                range,
                qname_len,
                eq_len,
                prefix,
                local,
                value,
                old(self).depth(),
            );
            if old(self)@.inv() {
                old(self)@.lemma_process_attribute_inv(
                    range,
                    qname_len,
                    eq_len,
                    prefix,
                    local,
                    value,
                    old(self).depth(),
                );
            }
        }
        let uri_is_xmlns = same_bytes(
            Some(self.bytes_of(stored)),
            Some("http://www.w3.org/2000/xmlns/".as_bytes()),
        );
        let is_xml_ns_uri = same_bytes(
            Some(self.bytes_of(stored)),
            Some("http://www.w3.org/XML/1998/namespace".as_bytes()),
        );
        if self.span_is(prefix, "xmlns") {
            // The xmlns namespace MUST NOT be declared as the default namespace.
            if uri_is_xmlns {
                let pos = self.text_pos_at(range.start);
                return Err(Error::UnexpectedXmlnsUri(pos));
            }
            // The prefix 'xml' is by definition bound to the namespace name
            // http://www.w3.org/XML/1998/namespace.
            // It MUST NOT be bound to any other namespace name.
            if self.span_is(local, "xml") {
                if !is_xml_ns_uri {
                    let pos = self.text_pos_at(range.start);
                    return Err(Error::InvalidXmlPrefixUri(pos));
                }
            } else {
                // The xml namespace MUST NOT be bound to a non-xml prefix.
                if is_xml_ns_uri {
                    let pos = self.text_pos_at(range.start);
                    return Err(Error::UnexpectedXmlUri(pos));
                }
            }
            // Check for duplicated namespaces.
            if self.has_binding(self.namespace_start_idx, Some(self.span_bytes(local))) {
                let pos = self.text_pos_at(range.start);
                return Err(Error::DuplicatedNamespace(span_string(self.text, local), pos));
            }
            // Xml namespace should not be added to the namespaces.
            if !is_xml_ns_uri {
                self.push_ns(Some(Stored::Input(local)), stored)?;
            }
        } else if self.span_is(local, "xmlns") {
            // The xml namespace MUST NOT be declared as the default namespace.
            if is_xml_ns_uri {
                let pos = self.text_pos_at(range.start);
                return Err(Error::UnexpectedXmlUri(pos));
            }
            // The xmlns namespace MUST NOT be declared as the default namespace.
            if uri_is_xmlns {
                let pos = self.text_pos_at(range.start);
                return Err(Error::UnexpectedXmlnsUri(pos));
            }
            // The default namespace is declared once in a tag at most.
            if self.has_binding(self.namespace_start_idx, None) {
                let pos = self.text_pos_at(range.start);
                return Err(Error::DuplicatedNamespace(String::new(), pos));
            }
            self.push_ns(None, stored)?;
        } else {
            self.current_attributes.push(
                TempAttributeData { prefix, local, value: stored, range, qname_len, eq_len },
            );
        }
        Ok(())
    }

    /// A CDATA section.
    ///
    /// While the whole purpose of CDATA is to indicate that this text has to
    /// be stored as is, carriage return (`\r`) is still has to be replaced with `\n`.
    pub(crate) fn process_cdata(&mut self, text: Span, range: Span) -> (r: Result<(), Error>)
        requires
            old(self)@.safe(),
            text.wf(old(self)@.tree.text),
        ensures
            match old(self)@.process_cdata(text, range) {
                Ok(m) => r is Ok && final(self)@ == m && m.safe() && m.tree.text == old(
                    self,
                )@.tree.text && m.entities == old(self)@.entities && m.tag_name == old(
                    self,
                )@.tag_name,
                Err(e) => r is Err && r->Err_0@ == e,
            },
            old(self)@.inv() && r is Ok ==> final(self)@.inv(),
            final(self).same_input(old(self)),
            final(self).loop_detector == old(self).loop_detector,
    {
        proof {
            if old(self)@.inv() {
                old(self)@.lemma_process_cdata_inv(text, range);
            }
        }
        proof {
            reveal(Build::safe);
            reveal(Build::process_cdata);
        }
        let ghost b = self@.tree.text;
        let bytes = self.span_bytes(text);
        let pos = memchr::memchr(0x0d, bytes);
        proof {
            old(self)@.lemma_process_cdata_safe(text, range);
            lemma_run_end_bounds(b, text.start as int, text.end as int, ByteClass::Not(0x0d));
            let stop = run_end(b, text.start as int, text.end as int, ByteClass::Not(0x0d));
            if stop < text.end {
                assert(bytes@[stop - text.start] == b[stop]);
            }
            if pos is Some {
                assert(bytes@[pos->0 as int] == b[text.start + pos->0]);
                assert(!ByteClass::Not(0x0d).spec_has(b[text.start + pos->0]));
            }
            lemma_line_ends_normalized_valid(b, text.start as int, text.end as int);
        }
        // Add text as is if it has only valid characters.
        if pos.is_none() {
            return self.append_text(Stored::Input(text), range);
        }
        let mut buf: Vec<u8> = Vec::new();
        append_line_ends_normalized(self.text.as_bytes(), text.start, text.end, &mut buf);
        proof {
            assert(Seq::<u8>::empty() + line_ends_normalized(b, text.start as int, text.end as int)
                =~= line_ends_normalized(b, text.start as int, text.end as int));
        }
        self.append_owned_text(buf, range)
    }
}

/// The text that is being collected from a text token.
pub(crate) struct TextBuffer {
    pub buffer: Vec<u8>,
}

impl TextBuffer {
    #[inline]
    pub(crate) fn new() -> (r: Self)
        ensures
            r.buffer@ == Seq::<u8>::empty(),
    {
        TextBuffer { buffer: Vec::with_capacity(32) }
    }

    #[inline]
    pub(crate) fn push_raw(&mut self, c: u8)
        ensures
            final(self).buffer@ == old(self).buffer@.push(c),
    {
        self.buffer.push(c);
    }

    /// Turn \r\n and any \r that is not followed by \n into a single \n character.
    ///
    /// <https://www.w3.org/TR/xml/#sec-line-ends>
    pub(crate) fn push_from_text(&mut self, c: u8, at_end: bool)
        ensures
            final(self).buffer@ == push_from_text(old(self).buffer@, c, at_end),
    {
        let n = self.buffer.len();
        if n > 0 && self.buffer[n - 1] == 0x0d {
            self.buffer.set(n - 1, 0x0a);
            proof {
                assert(self.buffer@ =~= old(self).buffer@.drop_last().push(0x0a));
            }
            if at_end && c == 0x0d {
                self.buffer.push(0x0a);
            } else if c != 0x0a {
                self.buffer.push(c);
            }
        } else if at_end && c == 0x0d {
            self.buffer.push(0x0a);
        } else {
            self.buffer.push(c);
        }
    }

    /// The bytes of one character of the text.
    pub(crate) fn push_all_from_text(&mut self, bytes: &[u8], at_end: bool)
        ensures
            final(self).buffer@ == push_all_from_text(old(self).buffer@, bytes@, at_end),
    {
        let mut i: usize = 0;
        proof {
            assert(bytes@.subrange(0, bytes@.len() as int) =~= bytes@);
        }
        while i < bytes.len()
            invariant
                i <= bytes@.len(),
                push_all_from_text(old(self).buffer@, bytes@, at_end) == push_all_from_text(
                    self.buffer@,
                    bytes@.subrange(i as int, bytes@.len() as int),
                    at_end,
                ),
            decreases bytes@.len() - i,
        {
            proof {
                let rest = bytes@.subrange(i as int, bytes@.len() as int);
                assert(rest[0] == bytes@[i as int]);
                assert(rest.drop_first() =~= bytes@.subrange(i + 1, bytes@.len() as int));
            }
            self.push_from_text(bytes[i], at_end);
            i += 1;
        }
    }

    /// The bytes of one character of the text; the first byte is taken as
    /// it is where `as_is` is set.
    pub(crate) fn push_plain(&mut self, bytes: &[u8], as_is: bool, at_end: bool)
        requires
            is_char_bytes(bytes@),
            valid_utf8(old(self).buffer@),
        ensures
            (TextState { buf: final(self).buffer@, as_is: false }) == (TextState {
                buf: old(self).buffer@,
                as_is,
            }).with_plain(bytes@, at_end),
            valid_utf8(final(self).buffer@),
    {
        proof {
            lemma_push_all_valid(self.buffer@, bytes@, at_end);
        }
        if as_is {
            self.push_raw(bytes[0]);
            let rest = &bytes[1..bytes.len()];
            proof {
                assert(rest@ =~= bytes@.drop_first());
            }
            self.push_all_from_text(rest, at_end);
        } else {
            self.push_all_from_text(bytes, at_end);
        }
    }

    /// A character that a reference stands for; `nested` says that the
    /// reference stands inside the value of an entity. Returns whether the
    /// byte behind the reference is taken as it is.
    pub(crate) fn push_char(&mut self, c: char, nested: bool, as_is: bool, at_end: bool) -> (r: bool)
        requires
            valid_utf8(old(self).buffer@),
        ensures
            (TextState { buf: final(self).buffer@, as_is: r }) == (TextState {
                buf: old(self).buffer@,
                as_is,
            }).with_char(
                c,
                if nested {
                    1nat
                } else {
                    0nat
                },
                at_end,
            ),
            valid_utf8(final(self).buffer@),
    {
        let mut encoded: Vec<u8> = Vec::new();
        append_char(&mut encoded, c);
        proof {
            assert(encoded@ =~= encode_scalar(c as u32));
            lemma_char_bytes_of(c);
            lemma_valid_encoding(c);
            lemma_push_all_valid(self.buffer@, encoded@, at_end);
            valid_utf8_concat(self.buffer@, encoded@);
        }
        if nested {
            self.push_all_from_text(encoded.as_slice(), at_end);
            as_is
        } else {
            // Characters not from entity should be added as is.
            append_bytes(&mut self.buffer, encoded.as_slice());
            true
        }
    }

    #[inline]
    pub(crate) fn clear(&mut self)
        ensures
            final(self).buffer@ == Seq::<u8>::empty(),
    {
        self.buffer.clear();
    }

    #[inline]
    pub(crate) fn is_empty(&self) -> (r: bool)
        ensures
            r == (self.buffer@.len() == 0),
    {
        self.buffer.len() == 0
    }

    /// Hands out the collected bytes and starts again with none.
    #[inline]
    pub(crate) fn finish(&mut self) -> (r: Vec<u8>)
        ensures
            r@ == old(self).buffer@,
            final(self).buffer@ == Seq::<u8>::empty(),
    {
        let mut out: Vec<u8> = Vec::new();
        core::mem::swap(&mut out, &mut self.buffer);
        out
    }
}

/// The next piece of a text.
pub(crate) enum NextChunk {
    /// The bytes of one character of the text.
    Plain(Span),
    /// A character that a reference stands for.
    Char(char),
    /// An entity, whose value is content.
    Text(Entity),
}

impl<'input> Context<'input> {
    /// The next piece of the text at the stream, which is not at its end.
    pub(crate) fn parse_next_chunk(&self, stream: &mut Stream) -> (r: Result<NextChunk, Error>)
        requires
            self@.safe(),
            old(stream).inv(),
            old(stream).pos < old(stream).end,
            old(stream).text == self.text,
        ensures
            final(stream).text == old(stream).text,
            final(stream).end == old(stream).end,
            ({
                let b = self@.tree.text;
                let pos = old(stream).pos as int;
                let end = old(stream).end as int;
                if b[pos] == 0x26 {
                    match reference_at(b, pos, end) {
                        None => r is Err && r->Err_0@ == ErrorModel::MalformedEntityReference(
                            text_pos(b, pos),
                        ),
                        Some((SpanReference::Char(ch), p)) => r matches Ok(NextChunk::Char(c)) && c
                            == ch && final(stream).pos == p && final(stream).inv(),
                        Some((SpanReference::Entity(name), p)) => match find_entity(
                            self@.entities,
                            b,
                            name.of(b),
                            0,
                        ) {
                            None => r is Err && r->Err_0@ == ErrorModel::UnknownEntityReference(
                                chars_of(name.of(b)),
                                text_pos(b, pos),
                            ),
                            Some(entity) => r matches Ok(NextChunk::Text(found)) && found
                                == entity && found.value.wf(b) && final(stream).pos == p
                                && final(stream).inv(),
                        },
                    }
                } else {
                    r matches Ok(NextChunk::Plain(span)) && span == (Span {
                        start: old(stream).pos,
                        end: (pos + width_at(b, pos)) as usize,
                    }) && final(stream).pos == pos + width_at(b, pos) && final(stream).inv()
                        && is_char_bytes(span.of(b))
                }
            }),
    {
        proof {
            reveal(Build::safe);
        }
        let bytes = self.text.as_bytes();
        let c = stream.curr_byte_unchecked();
        // Check for character/entity references.
        if c == 0x26 {
            let start = stream.pos();
            match stream.consume_reference() {
                Some(SpanReference::Char(ch)) => Ok(NextChunk::Char(ch)),
                Some(SpanReference::Entity(name)) => match self.find_entity(name) {
                    Some(entity) => Ok(NextChunk::Text(entity)),
                    None => {
                        let pos = stream.gen_text_pos_from(start);
                        Err(Error::UnknownEntityReference(span_string(self.text, name), pos))
                    },
                },
                None => {
                    let pos = stream.gen_text_pos_from(start);
                    Err(Error::MalformedEntityReference(pos))
                },
            }
        } else {
            proof {
                stream.lemma_valid();
                lemma_char_at(stream.bytes(), stream.pos as int);
                crate::stream::lemma_char_fits(stream.bytes(), stream.pos as int, stream.end as int);
                lemma_char_bytes_at(stream.bytes(), stream.pos as int);
            }
            let start = stream.pos();
            let (_, w) = decode_at(bytes, start);
            stream.advance(w);
            Ok(NextChunk::Plain(Span::new(start, start + w)))
        }
    }
}

impl<'input> Context<'input> {
    /// A processing instruction.
    pub(crate) fn process_pi(&mut self, target: Span, value: Option<Span>, range: Span) -> (r: Result<
        (),
        Error,
    >)
        requires
            old(self)@.safe(),
            (SpanToken::ProcessingInstruction(target, value, range)).wf(old(self)@.tree.text),
        ensures
            match old(self)@.process_pi(target, value, range) {
                Ok(m) => r is Ok && final(self)@ == m && m.safe(),
                Err(e) => r is Err && r->Err_0@ == e,
            },
            old(self)@.inv() && r is Ok ==> final(self)@.inv(),
            final(self).same_input(old(self)),
            final(self).loop_detector == old(self).loop_detector,
    {
        proof {
            if old(self)@.inv() {
                old(self)@.lemma_process_pi_inv(target, value, range);
            }
        }
        proof {
            reveal(Build::process_pi);
        }
        self.reset_after_text();
        let pi = NodeKind::PI { target, value };
        proof {
            self@.lemma_append_node_safe(pi, range);
        }
        self.append_node(pi, range)?;
        Ok(())
    }

    /// A comment.
    pub(crate) fn process_comment(&mut self, text: Span, range: Span) -> (r: Result<(), Error>)
        requires
            old(self)@.safe(),
            text.wf(old(self)@.tree.text),
        ensures
            match old(self)@.process_comment(text, range) {
                Ok(m) => r is Ok && final(self)@ == m && m.safe(),
                Err(e) => r is Err && r->Err_0@ == e,
            },
            old(self)@.inv() && r is Ok ==> final(self)@.inv(),
            final(self).same_input(old(self)),
            final(self).loop_detector == old(self).loop_detector,
    {
        proof {
            if old(self)@.inv() {
                old(self)@.lemma_process_comment_inv(text, range);
            }
        }
        proof {
            reveal(Build::process_comment);
        }
        self.reset_after_text();
        proof {
            self@.lemma_append_node_safe(NodeKind::Comment(text), range);
        }
        self.append_node(NodeKind::Comment(text), range)?;
        Ok(())
    }

    /// The declaration of an entity.
    pub(crate) fn declare_entity(&mut self, name: Span, value: Span)
        requires
            old(self)@.safe(),
            name.wf(old(self)@.tree.text),
            value.wf(old(self)@.tree.text),
        ensures
            final(self)@ == (Build {
                entities: old(self)@.entities.push(Entity { name, value }),
                ..old(self)@
            }),
            final(self)@.safe(),
            old(self)@.inv() ==> final(self)@.inv(),
            final(self).same_input(old(self)),
            final(self).loop_detector == old(self).loop_detector,
    {
        proof {
            reveal(Build::safe);
        }
        self.entities.push(Entity { name, value });
        proof {
            let m = self@;
            assert forall|k: int| 0 <= k < m.entities.len() implies (#[trigger] m.entities[k]).name.wf(
                m.tree.text,
            ) && m.entities[k].value.wf(m.tree.text) by {
                if k < old(self)@.entities.len() {
                    assert(old(self)@.entities[k].name.wf(m.tree.text));
                }
            }
            if old(self)@.inv() {
                old(self)@.lemma_declare_entity_inv(name, value);
            }
        }
    }

    /// The name of a start tag.
    pub(crate) fn start_element(&mut self, prefix: Span, local: Span, start: usize) -> (r: Result<
        (),
        Error,
    >)
        requires
            old(self)@.safe(),
            (SpanToken::ElementStart(prefix, local, start)).wf(old(self)@.tree.text),
        ensures
            match old(self)@.start_element(prefix, local, start) {
                Ok(m) => r is Ok && final(self)@ == m && m.safe(),
                Err(e) => r is Err && r->Err_0@ == e,
            },
            old(self)@.inv() && r is Ok ==> final(self)@.inv(),
            final(self).same_input(old(self)),
            final(self).loop_detector == old(self).loop_detector,
    {
        proof {
            if old(self)@.inv() {
                old(self)@.lemma_start_element_inv(prefix, local, start);
            }
        }
        proof {
            reveal(Build::start_element);
            old(self)@.lemma_reset_after_text_safe();
        }
        let limit = self.text.as_bytes().len();
        if self.span_is(prefix, "xmlns") {
            let pos = self.text_pos_at(start + 1);
            return Err(Error::InvalidElementNamePrefix(pos));
        }
        self.reset_after_text();
        self.tag_name = TagNameSpan { prefix, name: local, pos: start, prefix_pos: start + 1 };
        proof {
            reveal(Build::safe);
        }
        Ok(())
    }

    /// The end of a tag.
    pub(crate) fn end_element(&mut self, end: SpanEnd, range: Span) -> (r: Result<(), Error>)
        requires
            old(self)@.safe(),
            (SpanToken::ElementEnd(end, range)).wf(old(self)@.tree.text),
        ensures
            match old(self)@.end_element(end, range) {
                Ok(m) => r is Ok && final(self)@ == m && m.safe(),
                Err(e) => r is Err && r->Err_0@ == e,
            },
            old(self)@.inv() && r is Ok ==> final(self)@.inv(),
            final(self).same_input(old(self)),
            final(self).loop_detector == old(self).loop_detector,
    {
        proof {
            if old(self)@.inv() {
                old(self)@.lemma_end_element_inv(end, range);
            }
        }
        proof {
            reveal(Build::end_element);
            old(self)@.lemma_reset_after_text_safe();
        }
        self.reset_after_text();
        self.process_element(end, range)
    }

    /// A reference to an entity in a text: the content of the entity is
    /// read one level deeper. `stream` stands behind the reference, which
    /// starts at `start`.
    pub(crate) fn expand_entity(
        &mut self,
        entity: Entity,
        stream: &Stream,
        range: Span,
        buf: &mut TextBuffer,
    ) -> (r: Result<(), Error>)
        requires
            old(self)@.safe(),
            entity.value.wf(old(self)@.tree.text),
            stream.text == old(self).text,
            valid_utf8(old(buf).buffer@),
        ensures
            match old(self)@.expand_entity(
                entity,
                stream.pos as int,
                range,
                old(buf).buffer@,
                old(self).depth(),
            ) {
                Ok(m) => r is Ok && final(self)@ == m && m.safe() && final(self).depth() == old(
                    self,
                ).depth(),
                Err(e) => r is Err && r->Err_0@ == e,
            },
            old(self)@.inv() && r is Ok ==> final(self)@.inv(),
            final(self).same_input(old(self)),
            r is Ok ==> final(buf).buffer@ == Seq::<u8>::empty(),
        decreases fuel(old(self).depth()), 0int,
    {
        let ghost b = self@.tree.text;
        let ghost before = self@;
        proof {
            reveal(Build::flush_text);
            before.lemma_expand_entity_unfold(
                entity,
                stream.pos as int,
                range,
                buf.buffer@,
                self.depth(),
            );
        }
        if !buf.is_empty() {
            proof {
                before.lemma_append_owned_text_safe(buf.buffer@, range);
            }
            self.append_owned_text(buf.finish(), range)?;
        }
        let ghost flushed = self@;
        self.loop_detector.enter(stream)?;
        let prev_tag_name = self.tag_name;
        self.tag_name = TagNameSpan::new_null();
        proof {
            assert(self@.safe()) by {
                reveal(Build::safe);
                crate::strings::lemma_start_boundary(b);
            }
            assert(self@ == flushed.entered(self@.references));
            if old(self)@.inv() {
                self@.lemma_same_tree_inv(flushed);
            }
        }
        let mut inner = Stream::from_substr(self.text, entity.value.start..entity.value.end);
        let mut tokens: Vec<SpanToken> = Vec::new();
        let ghost content = lex_content(b, entity.value.start as int, entity.value.end as int, 0);
        self.run_content(&mut inner, &mut tokens)?;
        let ghost inner_state = self@;
        self.tag_name = prev_tag_name;
        buf.clear();
        self.loop_detector.dec_depth();
        proof {
            assert(flushed.tag_name == before.tag_name);
            assert(self@.safe()) by {
                reveal(Build::safe);
            }
            if old(self)@.inv() {
                self@.lemma_same_tree_inv(inner_state);
            }
        }
        Ok(())
    }

    /// A text token.
    pub(crate) fn process_text(&mut self, text: Span, range: Span) -> (r: Result<(), Error>)
        requires
            old(self)@.safe(),
            text.wf(old(self)@.tree.text),
            range.wf(old(self)@.tree.text),
        ensures
            match old(self)@.process_text(text, range, old(self).depth()) {
                Ok(m) => r is Ok && final(self)@ == m && m.safe() && final(self).depth() == old(
                    self,
                ).depth(),
                Err(e) => r is Err && r->Err_0@ == e,
            },
            old(self)@.inv() && r is Ok ==> final(self)@.inv(),
            final(self).same_input(old(self)),
        decreases fuel(old(self).depth()), 2int,
    {
        let ghost b = self@.tree.text;
        let ghost depth = self.depth();
        let bytes = self.text.as_bytes();
        let found = memchr::memchr2(0x26, 0x0d, self.span_bytes(text));
        proof {
            let needs = exists|k: int|
                text.start <= k < text.end && (#[trigger] b[k] == 0x26 || b[k] == 0x0d);
            let hay = text.of(b);
            if found is Some {
                let k0 = text.start + found->0;
                assert(hay[found->0 as int] == b[k0]);
                assert(text.start <= k0 < text.end && (b[k0] == 0x26 || b[k0] == 0x0d));
                assert(needs);
            }
            if needs {
                let k = choose|k: int|
                    text.start <= k < text.end && (#[trigger] b[k] == 0x26 || b[k] == 0x0d);
                assert(hay[k - text.start] == b[k]);
            }
            old(self)@.lemma_append_text_safe(Stored::Input(text), range);
            old(self)@.lemma_process_text_unfold(text, range, depth);
        }
        // Add text as is if it has only valid characters.
        if found.is_none() {
            return self.append_text(Stored::Input(text), range);
        }
        let mut buf = TextBuffer::new();
        let mut is_as_is = false;
        let mut stream = Stream::from_substr(self.text, range.start..range.end);
        let ghost whole = self@.text_chunks(
            range.start as int,
            range.end as int,
            range,
            TextState { buf: Seq::empty(), as_is: false },
            depth,
        );
        proof {
            assert(exists|k: int|
                text.start <= k < text.end && (#[trigger] b[k] == 0x26 || b[k] == 0x0d));
            assert(b == old(self)@.text());
        }
        while !stream.at_end()
            invariant
                stream.inv(),
                stream.text == self.text,
                stream.end == range.end,
                bytes@ == b,
                b == self@.tree.text,
                self@.safe(),
                self.depth() == depth,
                depth == old(self).depth(),
                self.same_input(old(self)),
                valid_utf8(buf.buffer@),
                old(self)@.inv() ==> self@.inv(),
                whole == old(self)@.process_text(text, range, depth),
                whole == self@.text_chunks(
                    stream.pos as int,
                    stream.end as int,
                    range,
                    TextState { buf: buf.buffer@, as_is: is_as_is },
                    depth,
                ),
            decreases stream.end - stream.pos,
        {
            let ghost pos0 = stream.pos as int;
            let ghost st = TextState { buf: buf.buffer@, as_is: is_as_is };
            proof {
                lemma_reference_progress(b, pos0, stream.end as int);
                self@.lemma_text_chunks_unfold(pos0, stream.end as int, range, st, depth);
            }
            match self.parse_next_chunk(&mut stream)? {
                NextChunk::Plain(span) => {
                    buf.push_plain(&bytes[span.start..span.end], is_as_is, stream.at_end());
                    is_as_is = false;
                },
                NextChunk::Char(c) => {
                    is_as_is = buf.push_char(
                        c,
                        self.loop_detector.depth > 0,
                        is_as_is,
                        stream.at_end(),
                    );
                },
                NextChunk::Text(entity) => {
                    is_as_is = false;
                    self.expand_entity(entity, &stream, range, &mut buf)?;
                },
            }
        }
        proof {
            reveal(Build::flush_text);
            self@.lemma_text_chunks_unfold(
                stream.pos as int,
                stream.end as int,
                range,
                TextState { buf: buf.buffer@, as_is: is_as_is },
                depth,
            );
        }
        if !buf.is_empty() {
            proof {
                self@.lemma_append_owned_text_safe(buf.buffer@, range);
            }
            self.append_owned_text(buf.finish(), range)?;
        }
        Ok(())
    }

    /// What a token does to the tree.
    pub(crate) fn process_token(&mut self, token: SpanToken) -> (r: Result<(), Error>)
        requires
            old(self)@.safe(),
            token.wf(old(self)@.tree.text),
        ensures
            match old(self)@.process_token(token, old(self).depth()) {
                Ok(m) => r is Ok && final(self)@ == m && m.safe() && final(self).depth() == old(
                    self,
                ).depth(),
                Err(e) => r is Err && r->Err_0@ == e,
            },
            old(self)@.inv() && r is Ok ==> final(self)@.inv(),
            final(self).same_input(old(self)),
        decreases fuel(old(self).depth()), 3int,
    {
        proof {
            old(self)@.lemma_process_token_unfold(token, old(self).depth());
        }
        match token {
            SpanToken::ProcessingInstruction(target, value, range) => self.process_pi(
                target,
                value,
                range,
            ),
            SpanToken::Comment(text, range) => self.process_comment(text, range),
            SpanToken::EntityDeclaration(name, definition) => {
                self.declare_entity(name, definition);
                Ok(())
            },
            SpanToken::ElementStart(prefix, local, start) => self.start_element(prefix, local, start),
            SpanToken::Attribute(range, qname_len, eq_len, prefix, local, value) => self.process_attribute(
                range,
                qname_len,
                eq_len,
                prefix,
                local,
                value,
            ),
            SpanToken::ElementEnd(end, range) => self.end_element(end, range),
            SpanToken::Text(text, range) => self.process_text(text, range),
            SpanToken::Cdata(text, range) => self.process_cdata(text, range),
        }
    }

    /// What the tokens do to the tree, one after another.
    pub(crate) fn process_tokens(&mut self, tokens: &Vec<SpanToken>) -> (r: Result<(), Error>)
        requires
            old(self)@.safe(),
            tokens_wf(tokens@, old(self)@.tree.text),
        ensures
            match old(self)@.process_tokens(tokens@, 0, old(self).depth()) {
                Ok(m) => r is Ok && final(self)@ == m && m.safe() && final(self).depth() == old(
                    self,
                ).depth(),
                Err(e) => r is Err && r->Err_0@ == e,
            },
            old(self)@.inv() && r is Ok ==> final(self)@.inv(),
            final(self).same_input(old(self)),
        decreases fuel(old(self).depth()), 4int,
    {
        let ghost depth = self.depth();
        let n = tokens.len();
        let mut k: usize = 0;
        while k < n
            invariant
                k <= n,
                n == tokens@.len(),
                self@.safe(),
                tokens_wf(tokens@, self@.tree.text),
                self.depth() == depth,
                depth == old(self).depth(),
                self.same_input(old(self)),
                old(self)@.inv() ==> self@.inv(),
                old(self)@.process_tokens(tokens@, 0, depth) == self@.process_tokens(
                    tokens@,
                    k as int,
                    depth,
                ),
            decreases n - k,
        {
            proof {
                assert(tokens@[k as int].wf(self@.tree.text));
                self@.lemma_process_tokens_unfold(tokens@, k as int, depth);
            }
            self.process_token(tokens[k])?;
            k += 1;
        }
        proof {
            self@.lemma_process_tokens_unfold(tokens@, k as int, depth);
        }
        Ok(())
    }
}

impl<'input> Document<'input> {
    /// Parses the input XML string.
    ///
    /// We do not support `&[u8]` or `Reader` because the input must be an already allocated
    /// UTF-8 string.
    ///
    /// This is a shorthand for `Document::parse_with_options(data, ParsingOptions::default())`.
    #[inline]
    pub fn parse(text: &'input str) -> (r: Result<Document<'input>, Error>)
        ensures
            match build_tree(text.spec_bytes(), false, u32::MAX) {
                Ok(t) => r is Ok && r->Ok_0@ == t && t.wf() && r->Ok_0.input() == text,
                Err(e) => r is Err && r->Err_0@ == e,
            },
    {
        Self::parse_with_options(text, ParsingOptions::default())
    }

    /// Parses the input XML string using to selected options.
    ///
    /// We do not support `&[u8]` or `Reader` because the input must be an already allocated
    /// UTF-8 string.
    #[inline]
    pub fn parse_with_options(text: &'input str, opt: ParsingOptions) -> (r: Result<
        Document<'input>,
        Error,
    >)
        ensures
            match build_tree(text.spec_bytes(), opt.allow_dtd, opt.nodes_limit) {
                Ok(t) => r is Ok && r->Ok_0@ == t && t.wf() && r->Ok_0.input() == text,
                Err(e) => r is Err && r->Err_0@ == e,
            },
    {
        parse(text, opt)
    }
}

/// The result of a production as a value of the model.
pub open spec fn outcome(r: Result<(), Error>) -> Option<ErrorModel> {
    match r {
        Ok(_) => None,
        Err(e) => Some(e@),
    }
}

impl<'input> Context<'input> {
    /// The state and the stream are what the production `l` makes of them:
    /// the tokens of `l` were processed one after another, and either the
    /// stream stands where `l` ends, or the first error is returned, be it
    /// an error of a token or the error that ended the production.
    pub(crate) open spec fn ran(
        &self,
        before: &Context<'input>,
        s0: Stream,
        s1: Stream,
        r: Result<(), Error>,
        l: Lex,
    ) -> bool {
        &&& match before@.run(l, before.depth()) {
            Ok(m) => r is Ok && self@ == m && m.safe() && self.depth() == before.depth()
                && s1.moved(s0, l.pos) && s1.inv(),
            Err(e) => r is Err && r->Err_0@ == e,
        }
        &&& before@.inv() && r is Ok ==> self@.inv()
        &&& self.same_input(before)
    }

    /// Processes the tokens of a production, and returns its error behind them.
    pub(crate) fn run_tokens(
        &mut self,
        tokens: &Vec<SpanToken>,
        lexed: Result<(), Error>,
        Ghost(l): Ghost<Lex>,
    ) -> (r: Result<(), Error>)
        requires
            old(self)@.safe(),
            tokens@ =~= l.tokens,
            tokens_wf(l.tokens, old(self)@.tree.text),
            outcome(lexed) == l.err,
        ensures
            match old(self)@.run(l, old(self).depth()) {
                Ok(m) => r is Ok && final(self)@ == m && m.safe() && final(self).depth() == old(
                    self,
                ).depth() && lexed is Ok,
                Err(e) => r is Err && r->Err_0@ == e,
            },
            old(self)@.inv() && r is Ok ==> final(self)@.inv(),
            final(self).same_input(old(self)),
        decreases fuel(old(self).depth()), 5int,
    {
        self.process_tokens(tokens)?;
        lexed
    }

    /// `Misc*`: comments, processing instructions and spaces, as many as there are.
    pub(crate) fn run_misc(&mut self, s: &mut Stream, tokens: &mut Vec<SpanToken>) -> (r: Result<
        (),
        Error,
    >)
        requires
            old(self)@.safe(),
            old(s).inv(),
            old(s).text == old(self).text,
        ensures
            final(self).ran(
                old(self),
                *old(s),
                *final(s),
                r,
                lex_misc(old(s).bytes(), old(s).pos as int, old(s).end as int),
            ),
        decreases fuel(old(self).depth()), 6int,
    {
        let ghost b = s.bytes();
        let ghost depth = self.depth();
        let ghost whole = self@.run(lex_misc(b, s.pos as int, s.end as int), depth);
        proof {
            reveal(lex_misc);
            self@.lemma_run_nothing(s.pos as int, depth);
        }
        while !s.at_end()
            invariant_except_break
                whole == self@.run(lex_misc(b, s.pos as int, s.end as int), depth),
                lex_misc(b, old(s).pos as int, old(s).end as int).pos == lex_misc(
                    b,
                    s.pos as int,
                    s.end as int,
                ).pos,
                s.pos >= s.end ==> whole == Ok::<Build, ErrorModel>(self@) && lex_misc(
                    b,
                    s.pos as int,
                    s.end as int,
                ).pos == s.pos,
            invariant
                s.inv(),
                s.text == old(s).text,
                s.end == old(s).end,
                s.text == self.text,
                b == s.bytes(),
                self@.safe(),
                self.depth() == depth,
                depth == old(self).depth(),
                self.same_input(old(self)),
                old(self)@.inv() ==> self@.inv(),
                whole == old(self)@.run(
                    lex_misc(b, old(s).pos as int, old(s).end as int),
                    depth,
                ),
            ensures
                whole == Ok::<Build, ErrorModel>(self@),
                s.pos == lex_misc(b, old(s).pos as int, old(s).end as int).pos,
            decreases s.end - s.pos,
        {
            proof {
                reveal(lex_misc);
            }
            let ghost here = lex_misc(b, s.pos as int, s.end as int);
            s.skip_spaces();
            if s.starts_with("<!--".as_bytes()) {
                let ghost c = lex_comment(b, s.pos as int, s.end as int);
                proof {
                    lemma_comment_progress(b, s.pos as int, s.end as int);
                    self@.lemma_run_followed_by(c, lex_misc(b, c.pos, s.end as int), depth);
                }
                tokens.clear();
                let lexed = parse_comment(s, tokens);
                self.run_tokens(tokens, lexed, Ghost(c))?;
                proof {
                    self@.lemma_run_nothing(s.pos as int, depth);
                }
            } else if s.starts_with("<?".as_bytes()) {
                let ghost c = lex_pi(b, s.pos as int, s.end as int);
                proof {
                    lemma_pi_progress(b, s.pos as int, s.end as int);
                    self@.lemma_run_followed_by(c, lex_misc(b, c.pos, s.end as int), depth);
                }
                tokens.clear();
                let lexed = parse_pi(s, tokens);
                self.run_tokens(tokens, lexed, Ghost(c))?;
                proof {
                    self@.lemma_run_nothing(s.pos as int, depth);
                }
            } else {
                proof {
                    self@.lemma_run_nothing(s.pos as int, depth);
                }
                break ;
            }
        }
        Ok(())
    }
}

impl<'input> Context<'input> {
    /// The content of an element, or a piece of content that stands for an
    /// entity: items up to the end of the stream, or up to the close tag of
    /// the element that the content belongs to.
    pub(crate) fn run_content(&mut self, s: &mut Stream, tokens: &mut Vec<SpanToken>) -> (r: Result<
        (),
        Error,
    >)
        requires
            old(self)@.safe(),
            old(s).inv(),
            old(s).text == old(self).text,
        ensures
            final(self).ran(
                old(self),
                *old(s),
                *final(s),
                r,
                lex_content(old(s).bytes(), old(s).pos as int, old(s).end as int, 0),
            ),
        decreases fuel(old(self).depth()), 6int,
    {
        let ghost b = s.bytes();
        let ghost depth = self.depth();
        let ghost whole = self@.run(lex_content(b, s.pos as int, s.end as int, 0), depth);
        let mut nesting: usize = 0;
        proof {
            reveal(lex_content);
            self@.lemma_run_nothing(s.pos as int, depth);
        }
        while !s.at_end()
            invariant_except_break
                whole == self@.run(lex_content(b, s.pos as int, s.end as int, nesting as nat), depth),
                lex_content(b, old(s).pos as int, old(s).end as int, 0).pos == lex_content(
                    b,
                    s.pos as int,
                    s.end as int,
                    nesting as nat,
                ).pos,
                s.pos >= s.end ==> whole == Ok::<Build, ErrorModel>(self@) && lex_content(
                    b,
                    s.pos as int,
                    s.end as int,
                    nesting as nat,
                ).pos == s.pos,
            invariant
                s.inv(),
                s.text == old(s).text,
                s.end == old(s).end,
                s.text == self.text,
                old(s).pos <= s.pos,
                nesting <= s.pos - old(s).pos,
                b == s.bytes(),
                self@.safe(),
                self.depth() == depth,
                depth == old(self).depth(),
                self.same_input(old(self)),
                old(self)@.inv() ==> self@.inv(),
                whole == old(self)@.run(
                    lex_content(b, old(s).pos as int, old(s).end as int, 0),
                    depth,
                ),
            ensures
                whole == Ok::<Build, ErrorModel>(self@),
                s.pos == lex_content(b, old(s).pos as int, old(s).end as int, 0).pos,
            decreases s.end - s.pos,
        {
            let ghost item = lex_content_item(b, s.pos as int, s.end as int);
            let ghost next = match item.nesting {
                Nesting::Same => nesting as nat,
                Nesting::Deeper => (nesting + 1) as nat,
                Nesting::Shallower => (nesting - 1) as nat,
            };
            proof {
                reveal(lex_content);
                lemma_content_item_progress(b, s.pos as int, s.end as int);
                self@.lemma_run_followed_by(
                    item.lex,
                    lex_content(b, item.lex.pos, s.end as int, next),
                    depth,
                );
            }
            tokens.clear();
            let step = match parse_content_item(s, tokens) {
                Ok(step) => {
                    self.run_tokens(tokens, Ok(()), Ghost(item.lex))?;
                    step
                },
                Err(e) => {
                    return self.run_tokens(tokens, Err(e), Ghost(item.lex));
                },
            };
            proof {
                self@.lemma_run_nothing(s.pos as int, depth);
            }
            match step {
                Nesting::Same => {},
                Nesting::Deeper => {
                    nesting += 1;
                },
                Nesting::Shallower => {
                    if nesting == 0 {
                        break ;
                    }
                    nesting -= 1;
                },
            }
        }
        Ok(())
    }

    /// `element ::= EmptyElemTag | STag content ETag`
    pub(crate) fn run_element(&mut self, s: &mut Stream, tokens: &mut Vec<SpanToken>) -> (r: Result<
        (),
        Error,
    >)
        requires
            old(self)@.safe(),
            old(s).inv(),
            old(s).text == old(self).text,
            old(s).pos < old(s).end,
            old(s).bytes()[old(s).pos as int] == 0x3c,
        ensures
            final(self).ran(
                old(self),
                *old(s),
                *final(s),
                r,
                lex_element(old(s).bytes(), old(s).pos as int, old(s).end as int),
            ),
        decreases fuel(old(self).depth()), 7int,
    {
        let ghost b = s.bytes();
        let ghost tag = lex_start_tag(b, s.pos as int, s.end as int);
        proof {
            reveal(lex_element);
            self@.lemma_run_followed_by(
                tag.lex,
                lex_content(b, tag.lex.pos, s.end as int, 0),
                self.depth(),
            );
        }
        tokens.clear();
        let open = match parse_start_tag(s, tokens) {
            Ok(open) => {
                self.run_tokens(tokens, Ok(()), Ghost(tag.lex))?;
                open
            },
            Err(e) => {
                return self.run_tokens(tokens, Err(e), Ghost(tag.lex));
            },
        };
        if open {
            self.run_content(s, tokens)?;
        }
        Ok(())
    }

    /// A document type declaration, from `<!DOCTYPE` on.
    pub(crate) fn run_doctype(&mut self, s: &mut Stream, tokens: &mut Vec<SpanToken>) -> (r: Result<
        (),
        Error,
    >)
        requires
            old(self)@.safe(),
            old(s).inv(),
            old(s).text == old(self).text,
            has_prefix(
                old(s).bytes(),
                old(s).pos as int,
                old(s).end as int,
                "<!DOCTYPE".spec_bytes(),
            ),
        ensures
            final(self).ran(
                old(self),
                *old(s),
                *final(s),
                r,
                lex_doctype(old(s).bytes(), old(s).pos as int, old(s).end as int),
            ),
        decreases fuel(old(self).depth()), 7int,
    {
        let ghost b = s.bytes();
        let ghost depth = self.depth();
        let ghost all = lex_doctype(b, s.pos as int, s.end as int);
        let start = s.pos();
        proof {
            reveal(lex_doctype);
            s.lemma_valid();
            self@.lemma_run_nothing(0, depth);
            self@.lemma_process_tokens_unfold(Seq::empty(), 0, depth);
        }
        parse_doctype_start(s)?;
        s.skip_spaces();
        let c = s.curr_byte_unchecked();
        proof {
            lemma_ascii_step(b, s.pos as int);
            self@.lemma_run_nothing(s.pos + 1, depth);
        }
        s.advance(1);
        if c == 0x3e {
            return Ok(());
        }
        let ghost whole = self@.run(
            lex_doctype_body(b, start as int, s.pos as int, s.end as int),
            depth,
        );
        proof {
            reveal(lex_doctype_body);
            self@.lemma_run_nothing(s.pos as int, depth);
        }
        while !s.at_end()
            invariant_except_break
                whole == self@.run(
                    lex_doctype_body(b, start as int, s.pos as int, s.end as int),
                    depth,
                ),
                all.pos == lex_doctype_body(b, start as int, s.pos as int, s.end as int).pos,
                s.pos >= s.end ==> whole == Ok::<Build, ErrorModel>(self@) && lex_doctype_body(
                    b,
                    start as int,
                    s.pos as int,
                    s.end as int,
                ).pos == s.pos,
            invariant
                s.inv(),
                s.text == old(s).text,
                s.end == old(s).end,
                s.text == self.text,
                start == old(s).pos,
                b == s.bytes(),
                self@.safe(),
                self.depth() == depth,
                depth == old(self).depth(),
                self.same_input(old(self)),
                old(self)@.inv() ==> self@.inv(),
                all == lex_doctype(b, old(s).pos as int, old(s).end as int),
                whole == old(self)@.run(all, depth),
            ensures
                whole == Ok::<Build, ErrorModel>(self@),
                s.pos == all.pos,
            decreases s.end - s.pos,
        {
            proof {
                reveal(lex_doctype_body);
            }
            s.skip_spaces();
            let ghost item = lex_doctype_item(b, start as int, s.pos as int, s.end as int);
            proof {
                lemma_doctype_item_progress(b, start as int, s.pos as int, s.end as int);
                self@.lemma_run_followed_by(
                    item.lex,
                    lex_doctype_body(b, start as int, item.lex.pos, s.end as int),
                    depth,
                );
            }
            tokens.clear();
            let last = match parse_doctype_item(s, tokens, start) {
                Ok(last) => {
                    self.run_tokens(tokens, Ok(()), Ghost(item.lex))?;
                    last
                },
                Err(e) => {
                    return self.run_tokens(tokens, Err(e), Ghost(item.lex));
                },
            };
            proof {
                self@.lemma_run_nothing(s.pos as int, depth);
            }
            if last {
                break ;
            }
        }
        Ok(())
    }

    /// The root element and what may stand behind it.
    pub(crate) fn run_root(&mut self, s: &mut Stream, tokens: &mut Vec<SpanToken>) -> (r: Result<
        (),
        Error,
    >)
        requires
            old(self)@.safe(),
            old(s).inv(),
            old(s).text == old(self).text,
        ensures
            final(self).ran(
                old(self),
                *old(s),
                *final(s),
                r,
                lex_root(old(s).bytes(), old(s).pos as int, old(s).end as int),
            ),
        decreases fuel(old(self).depth()), 8int,
    {
        let ghost b = s.bytes();
        let ghost depth = self.depth();
        proof {
            reveal(lex_root);
        }
        s.skip_spaces();
        let ghost root = if s.pos < s.end && b[s.pos as int] == 0x3c {
            lex_element(b, s.pos as int, s.end as int)
        } else {
            Lex::ok(s.pos as int, Seq::empty())
        };
        let ghost misc = lex_misc(b, root.pos, s.end as int);
        let ghost rest = if misc.pos < s.end {
            Lex::fail(ErrorModel::UnknownToken(text_pos(b, misc.pos)))
        } else {
            Lex::ok(misc.pos, Seq::empty())
        };
        proof {
            self@.lemma_run_followed_by(root.followed_by(misc), rest, depth);
            self@.lemma_run_followed_by(root, misc, depth);
            self@.lemma_run_nothing(s.pos as int, depth);
        }
        if !s.at_end() && s.curr_byte_unchecked() == 0x3c {
            self.run_element(s, tokens)?;
        }
        self.run_misc(s, tokens)?;
        proof {
            self@.lemma_run_nothing(misc.pos, depth);
            self@.lemma_process_tokens_unfold(Seq::empty(), 0, depth);
        }
        if !s.at_end() {
            return Err(Error::UnknownToken(s.gen_text_pos()));
        }
        Ok(())
    }

    /// What stands behind the first comments and processing instructions.
    pub(crate) fn run_doctype_and_root(
        &mut self,
        s: &mut Stream,
        tokens: &mut Vec<SpanToken>,
        allow_dtd: bool,
    ) -> (r: Result<(), Error>)
        requires
            old(self)@.safe(),
            old(s).inv(),
            old(s).text == old(self).text,
        ensures
            final(self).ran(
                old(self),
                *old(s),
                *final(s),
                r,
                lex_doctype_and_root(
                    old(s).bytes(),
                    old(s).pos as int,
                    old(s).end as int,
                    allow_dtd,
                ),
            ),
        decreases fuel(old(self).depth()), 9int,
    {
        let ghost b = s.bytes();
        let ghost depth = self.depth();
        proof {
            reveal(lex_doctype_and_root);
            self@.lemma_process_tokens_unfold(Seq::empty(), 0, depth);
        }
        s.skip_spaces();
        if s.starts_with("<!DOCTYPE".as_bytes()) {
            if !allow_dtd {
                return Err(Error::DtdDetected);
            }
            let ghost dtd = lex_doctype(b, s.pos as int, s.end as int);
            let ghost misc = lex_misc(b, dtd.pos, s.end as int);
            proof {
                self@.lemma_run_followed_by(
                    dtd.followed_by(misc),
                    lex_root(b, misc.pos, s.end as int),
                    depth,
                );
                self@.lemma_run_followed_by(dtd, misc, depth);
            }
            self.run_doctype(s, tokens)?;
            self.run_misc(s, tokens)?;
        }
        self.run_root(s, tokens)
    }

    /// `document ::= prolog element Misc*`
    pub(crate) fn run_document(&mut self, tokens: &mut Vec<SpanToken>, allow_dtd: bool) -> (r: Result<
        (),
        Error,
    >)
        requires
            old(self)@.safe(),
        ensures
            match old(self)@.run(
                lex_document(old(self)@.tree.text, allow_dtd),
                old(self).depth(),
            ) {
                Ok(m) => r is Ok && final(self)@ == m && m.safe(),
                Err(e) => r is Err && r->Err_0@ == e,
            },
            old(self)@.inv() && r is Ok ==> final(self)@.inv(),
            final(self).same_input(old(self)),
        decreases fuel(old(self).depth()), 10int,
    {
        let ghost b = self@.tree.text;
        let ghost depth = self.depth();
        let mut stream = Stream::new(self.text);
        let s = &mut stream;
        proof {
            lemma_literals();
            self@.lemma_process_tokens_unfold(Seq::empty(), 0, depth);
        }
        // Skip UTF-8 BOM.
        if s.starts_with("\u{feff}".as_bytes()) {
            skip_lit(s, "\u{feff}");
        }
        if s.starts_with("<?xml ".as_bytes()) {
            parse_declaration(s)?;
        }
        let ghost misc = lex_misc(b, s.pos as int, s.end as int);
        proof {
            self@.lemma_run_followed_by(
                misc,
                lex_doctype_and_root(b, misc.pos, s.end as int, allow_dtd),
                depth,
            );
        }
        self.run_misc(s, tokens)?;
        self.run_doctype_and_root(s, tokens, allow_dtd)
    }
}

/// The tree of a document.
pub(crate) fn parse<'input>(text: &'input str, opt: ParsingOptions) -> (r: Result<
    Document<'input>,
    Error,
>)
    ensures
        match build_tree(text.spec_bytes(), opt.allow_dtd, opt.nodes_limit) {
            Ok(t) => r is Ok && r->Ok_0@ == t && t.wf() && r->Ok_0.input() == text,
            Err(e) => r is Err && r->Err_0@ == e,
        },
{
    let bytes = text.as_bytes();
    let ghost b = text.spec_bytes();
    if bytes.len() > 0xffff_ffff {
        return Err(Error::SizeLimit);
    }
    // Trying to guess rough nodes and attributes amount.
    let nodes_capacity = count_byte(0x3c, bytes);
    let attributes_capacity = count_byte(0x3d, bytes);
    let mut nodes: Vec<NodeData> = Vec::with_capacity(nodes_capacity);
    // Add a root node.
    nodes.push(
        NodeData {
            parent: None,
            prev_sibling: None,
            next_subtree: None,
            last_child: None,
            kind: NodeKind::Root,
            range: Span::new(0, bytes.len()),
        },
    );
    let mut strings: Vec<String> = Vec::new();
    strings.push("xml".to_owned());
    strings.push("http://www.w3.org/XML/1998/namespace".to_owned());
    let mut values: Vec<NamespaceData> = Vec::new();
    values.push(NamespaceData { name: Some(Stored::Owned(0)), uri: Stored::Owned(1) });
    let mut tree_order: Vec<NamespaceIdx> = Vec::new();
    tree_order.push(NamespaceIdx(0));
    let mut parent_prefixes: Vec<Span> = Vec::new();
    parent_prefixes.push(Span::new(0, 0));
    let mut ctx = Context {
        opt,
        namespace_start_idx: 1,
        current_attributes: Vec::with_capacity(16),
        entities: Vec::new(),
        awaiting_subtree: Vec::new(),
        parent_prefixes,
        after_text: Vec::with_capacity(1),
        parent_id: NodeId::new(0),
        tag_name: TagNameSpan::new_null(),
        loop_detector: LoopDetector { depth: 0, references: 0 },
        text,
        nodes,
        attributes: Vec::with_capacity(attributes_capacity),
        namespaces: Namespaces { values, tree_order },
        strings,
    };
    proof {
        encode_utf8_valid_utf8(text@);
        lemma_initial_inv(b, opt.nodes_limit);
        let m = initial(b, opt.nodes_limit);
        assert(ctx@.tree.strings =~= m.tree.strings);
        assert(ctx@.tree.nodes =~= m.tree.nodes);
        assert(ctx@.tree.attributes =~= m.tree.attributes);
        assert(ctx@.tree.namespaces =~= m.tree.namespaces);
        assert(ctx@.tree.tree_order =~= m.tree.tree_order);
        assert(ctx@.parent_prefixes =~= m.parent_prefixes);
        assert(ctx@.current_attributes =~= m.current_attributes);
        assert(ctx@.awaiting_subtree =~= m.awaiting_subtree);
        assert(ctx@.entities =~= m.entities);
        assert(ctx@.after_text =~= m.after_text);
        assert(ctx@ == m);
    }
    let mut tokens: Vec<SpanToken> = Vec::new();
    ctx.run_document(&mut tokens, opt.allow_dtd)?;
    proof {
        reveal(Build::safe);
        assert(ctx@.structure());
    }
    if first_element_child_index(&ctx.nodes, 0, Ghost(ctx@.tree)).is_none() {
        return Err(Error::NoRootNode);
    }
    if ctx.parent_prefixes.len() > 1 {
        return Err(Error::UnclosedRootNode);
    }
    proof {
        ctx@.lemma_built_wf();
        assert(bytes_of_strings(ctx.strings@) =~= strings_view(ctx.strings@));
    }
    Ok(
        Document::from_parts(
            ctx.text,
            ctx.nodes,
            ctx.attributes,
            ctx.namespaces.values,
            ctx.namespaces.tree_order,
            ctx.strings,
        ),
    )
}


} // verus!
