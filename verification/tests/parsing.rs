use roxmltree::{
    Document, Edge, Error, Node, NodeId, NodeType, ParsingOptions, StringStorage, TextPos,
};

fn with_dtd(text: &str) -> Result<Document<'_>, Error> {
    Document::parse_with_options(text, ParsingOptions { allow_dtd: true, nodes_limit: u32::MAX })
}

fn err_of(text: &str) -> Error {
    match with_dtd(text) {
        Ok(_) => panic!("the document was accepted"),
        Err(e) => e,
    }
}

fn all_nodes<'a, 'input>(doc: &'a Document<'input>) -> Vec<Node<'a, 'input>> {
    let mut out = Vec::new();
    let mut it = doc.descendants();
    while let Some(n) = it.next() {
        out.push(n);
    }
    out
}

#[test]
fn attributes_with_and_without_namespace() {
    let doc = Document::parse("<e xmlns:n='http://www.w3.org' a='b' n:a='c'/>").unwrap();
    let e = doc.root_element();
    assert!(e.has_tag_name("e"));
    let mut attrs = e.attributes();
    assert_eq!(attrs.len(), 2);
    let first = attrs.next().unwrap();
    assert_eq!(first.name(), "a");
    assert_eq!(first.namespace(), None);
    assert_eq!(first.value(), "b");
    let second = attrs.next().unwrap();
    assert_eq!(second.name(), "a");
    assert_eq!(second.namespace(), Some("http://www.w3.org"));
    assert_eq!(second.value(), "c");
    assert!(attrs.next().is_none());
}

#[test]
fn text_and_tail() {
    let doc = Document::parse("<root>text1<p/>text2</root>").unwrap();
    let root = doc.root_element();
    assert_eq!(root.first_child().unwrap().text(), Some("text1"));
    let p = root.first_element_child().unwrap();
    assert!(p.has_tag_name("p"));
    assert_eq!(p.tail(), Some("text2"));
    assert_eq!(root.text(), Some("text1"));
}

#[test]
fn references_merge_into_one_text() {
    let doc = Document::parse("<p>&#x41;&amp;B</p>").unwrap();
    let p = doc.root_element();
    let mut children = p.children();
    let text = children.next().unwrap();
    assert_eq!(text.node_type(), NodeType::Text);
    assert_eq!(text.text(), Some("A&B"));
    assert!(children.next().is_none());
    assert_eq!(all_nodes(&doc).len(), 3);
}

#[test]
fn second_close_tag_is_unknown_token() {
    assert_eq!(err_of("<a></a></a>"), Error::UnknownToken(TextPos::new(1, 8)));
}

#[test]
fn no_root_node() {
    assert_eq!(err_of(""), Error::NoRootNode);
    assert_eq!(err_of("<!-- comment --><?pi value?>"), Error::NoRootNode);
    assert_eq!(err_of("   \n"), Error::NoRootNode);
    assert_eq!(Error::NoRootNode.pos(), TextPos::new(1, 1));
}

fn entity_chain(levels: usize, twice: bool) -> String {
    let mut text = String::from("<!DOCTYPE d [\n<!ENTITY e0 'x'>\n");
    for k in 1..levels {
        if twice {
            text.push_str(&format!("<!ENTITY e{} '&e{};&e{};'>\n", k, k - 1, k - 1));
        } else {
            text.push_str(&format!("<!ENTITY e{} '&e{};'>\n", k, k - 1));
        }
    }
    text.push_str(&format!("]>\n<r>&e{};</r>", levels - 1));
    text
}

#[test]
fn entity_depth_at_the_cap() {
    let text = entity_chain(10, false);
    let doc = with_dtd(&text).unwrap();
    assert_eq!(doc.root_element().text(), Some("x"));
}

#[test]
fn entity_depth_over_the_cap() {
    let text = entity_chain(11, false);
    assert!(matches!(with_dtd(&text), Err(Error::EntityReferenceLoop(_))));
    let text = entity_chain(11, true);
    assert!(matches!(with_dtd(&text), Err(Error::EntityReferenceLoop(_))));
}

#[test]
fn entity_depth_in_attribute() {
    let mut text = entity_chain(10, false);
    text = text.replace("<r>&e9;</r>", "<r a='&e9;'/>");
    let doc = with_dtd(&text).unwrap();
    assert_eq!(doc.root_element().attribute("a"), Some("x"));
    let mut text = entity_chain(11, false);
    text = text.replace("<r>&e10;</r>", "<r a='&e10;'/>");
    assert!(matches!(with_dtd(&text), Err(Error::EntityReferenceLoop(_))));
}

#[test]
fn entity_loop() {
    let text = "<!DOCTYPE d [<!ENTITY a '&b;'><!ENTITY b '&a;'>]><r>&a;</r>";
    assert!(matches!(with_dtd(text), Err(Error::EntityReferenceLoop(_))));
}

#[test]
fn references_inside_one_reference_are_limited() {
    let mut many = String::new();
    for _ in 0..255 {
        many.push_str("&x;");
    }
    let ok = format!("<!DOCTYPE d [<!ENTITY x 'y'><!ENTITY m '{}'>]><r>&m;</r>", many);
    let doc = with_dtd(&ok).unwrap();
    assert_eq!(doc.root_element().text().unwrap().len(), 255);
    many.push_str("&x;");
    let bad = format!("<!DOCTYPE d [<!ENTITY x 'y'><!ENTITY m '{}'>]><r>&m;</r>", many);
    assert!(matches!(with_dtd(&bad), Err(Error::EntityReferenceLoop(_))));
    // At the top level any number of references is accepted.
    let top = format!("<!DOCTYPE d [<!ENTITY x 'y'>]><r>{}</r>", many);
    let doc = with_dtd(&top).unwrap();
    assert_eq!(doc.root_element().text().unwrap().len(), 256);
}

#[test]
fn entity_holds_elements() {
    let text = "<!DOCTYPE d [<!ENTITY p '<p>in</p>'>]><r>a&p;b</r>";
    let doc = with_dtd(text).unwrap();
    let r = doc.root_element();
    let mut kinds = Vec::new();
    let mut it = r.children();
    while let Some(n) = it.next() {
        kinds.push((n.node_type(), n.text().map(|s| s.to_string())));
    }
    assert_eq!(
        kinds,
        vec![
            (NodeType::Text, Some("a".to_string())),
            (NodeType::Element, Some("in".to_string())),
            (NodeType::Text, Some("b".to_string())),
        ]
    );
}

#[test]
fn text_across_an_entity_is_merged() {
    let text = "<!DOCTYPE d [<!ENTITY t 'mid'>]><r>a&t;b</r>";
    let doc = with_dtd(text).unwrap();
    let r = doc.root_element();
    let mut it = r.children();
    assert_eq!(it.next().unwrap().text(), Some("amidb"));
    assert!(it.next().is_none());
}

#[test]
fn subtrees_are_ranges() {
    let text = "<a><b><c/>t<d><e/></d></b><!--x--><f>u</f></a>";
    let doc = Document::parse(text).unwrap();
    let nodes = all_nodes(&doc);
    assert_eq!(nodes.len(), 10);
    for n in &nodes {
        let mut it = n.descendants();
        let mut ids = Vec::new();
        while let Some(d) = it.next() {
            ids.push(d.id().get());
        }
        // The descendants are a range that starts at the node.
        for (k, id) in ids.iter().enumerate() {
            assert_eq!(*id, n.id().get() + k as u32);
        }
        // Every node of the range has the node among its ancestors, and no other node has.
        for m in &nodes {
            let mut up = m.ancestors();
            let mut below = false;
            while let Some(x) = up.next() {
                if x == *n {
                    below = true;
                }
            }
            assert_eq!(below, ids.contains(&m.id().get()));
        }
    }
    let b = doc.get_node(NodeId::new(2)).unwrap();
    assert!(b.has_tag_name("b"));
    assert_eq!(b.descendants().len(), 5);
    assert_eq!(b.next_sibling().unwrap().id().get(), 7);
}

#[test]
fn prefix_and_namespace_round_trip() {
    let text = "<a xmlns='http://d' xmlns:x='http://x'><b xmlns:y='http://y' xmlns:x='http://x2'/></a>";
    let doc = Document::parse(text).unwrap();
    for n in all_nodes(&doc) {
        let mut it = n.namespaces();
        while let Some(ns) = it.next() {
            let prefix = n.lookup_prefix(ns.uri());
            assert_eq!(n.lookup_namespace_uri(prefix), Some(ns.uri()));
        }
    }
    let b = doc.root_element().first_element_child().unwrap();
    assert_eq!(b.namespaces().len(), 3);
    assert_eq!(b.lookup_namespace_uri(Some("x")), Some("http://x2"));
    assert_eq!(b.lookup_namespace_uri(Some("y")), Some("http://y"));
    assert_eq!(b.default_namespace(), Some("http://d"));
    assert_eq!(doc.root_element().lookup_namespace_uri(Some("x")), Some("http://x"));
    assert_eq!(b.tag_name().namespace(), Some("http://d"));
}

#[test]
fn default_namespace_declared_twice() {
    assert_eq!(
        err_of("<e xmlns='a' xmlns='b'/>"),
        Error::DuplicatedNamespace(String::new(), TextPos::new(1, 14))
    );
    assert_eq!(
        err_of("<e xmlns='a' xmlns='a'/>"),
        Error::DuplicatedNamespace(String::new(), TextPos::new(1, 14))
    );
    assert!(Document::parse("<e xmlns='a' xmlns='b'/>").is_err());
    // An element inside may declare the default namespace anew.
    let doc = Document::parse("<e xmlns='a'><f xmlns='b'/></e>").unwrap();
    let f = doc.root_element().first_element_child().unwrap();
    assert_eq!(f.namespaces().len(), 1);
    assert_eq!(f.lookup_prefix("b"), None);
    assert_eq!(f.lookup_namespace_uri(None), Some("b"));
    assert_eq!(doc.root_element().lookup_namespace_uri(None), Some("a"));
}

#[test]
fn namespace_errors() {
    assert_eq!(
        err_of("<e xmlns:xml='http://www.w3.org'/>"),
        Error::InvalidXmlPrefixUri(TextPos::new(1, 4))
    );
    assert_eq!(
        err_of("<e xmlns:n='http://www.w3.org/XML/1998/namespace'/>"),
        Error::UnexpectedXmlUri(TextPos::new(1, 4))
    );
    assert_eq!(
        err_of("<e xmlns='http://www.w3.org/XML/1998/namespace'/>"),
        Error::UnexpectedXmlUri(TextPos::new(1, 4))
    );
    assert_eq!(
        err_of("<e xmlns:n='http://www.w3.org/2000/xmlns/'/>"),
        Error::UnexpectedXmlnsUri(TextPos::new(1, 4))
    );
    assert_eq!(
        err_of("<e xmlns='http://www.w3.org/2000/xmlns/'/>"),
        Error::UnexpectedXmlnsUri(TextPos::new(1, 4))
    );
    assert_eq!(err_of("<xmlns:e/>"), Error::InvalidElementNamePrefix(TextPos::new(1, 2)));
    assert_eq!(
        err_of("<e xmlns:n='a' xmlns:n='b'/>"),
        Error::DuplicatedNamespace("n".to_string(), TextPos::new(1, 16))
    );
    assert_eq!(err_of("<n:e/>"), Error::UnknownNamespace("n".to_string(), TextPos::new(1, 2)));
    assert_eq!(
        err_of("<e q:a='b'/>"),
        Error::UnknownNamespace("q".to_string(), TextPos::new(1, 4))
    );
    let doc = Document::parse("<e xmlns:xml='http://www.w3.org/XML/1998/namespace' xml:a='b'/>").unwrap();
    assert_eq!(doc.root_element().namespaces().len(), 0);
    assert_eq!(
        doc.root_element().attribute(("http://www.w3.org/XML/1998/namespace", "a")),
        Some("b")
    );
}

#[test]
fn structure_errors() {
    assert_eq!(
        err_of("<a></b>"),
        Error::UnexpectedCloseTag("a".to_string(), "b".to_string(), TextPos::new(1, 4))
    );
    assert_eq!(
        err_of("<n:a xmlns:n='u' xmlns:m='u'></m:a>"),
        Error::UnexpectedCloseTag("n:a".to_string(), "m:a".to_string(), TextPos::new(1, 30))
    );
    assert_eq!(
        err_of("<!DOCTYPE test [ <!ENTITY p '</p>'> ]>\n<root>&p;</root>"),
        Error::UnexpectedEntityCloseTag(TextPos::new(1, 30))
    );
    assert_eq!(
        err_of("<!DOCTYPE test [ <!ENTITY p '<p></p></p>'> ]>\n<p>&p;&p;"),
        Error::UnexpectedEntityCloseTag(TextPos::new(1, 37))
    );
    assert_eq!(err_of("<a>"), Error::UnclosedRootNode);
    assert_eq!(err_of("<a><b></b>"), Error::UnclosedRootNode);
    assert_eq!(
        err_of("<e a='1' a='2'/>"),
        Error::DuplicatedAttribute("a".to_string(), TextPos::new(1, 10))
    );
    assert_eq!(
        err_of("<e xmlns:n1='http://www.w3.org' xmlns:n2='http://www.w3.org' n1:a='b1' n2:a='b2'/>"),
        Error::DuplicatedAttribute("a".to_string(), TextPos::new(1, 72))
    );
}

#[test]
fn reference_errors() {
    assert_eq!(
        err_of("<e>&x;</e>"),
        Error::UnknownEntityReference("x".to_string(), TextPos::new(1, 4))
    );
    assert_eq!(err_of("<e>&;</e>"), Error::MalformedEntityReference(TextPos::new(1, 4)));
    assert_eq!(err_of("<e>a & b</e>"), Error::MalformedEntityReference(TextPos::new(1, 6)));
    assert_eq!(err_of("<e>&#x0;</e>"), Error::MalformedEntityReference(TextPos::new(1, 4)));
    assert_eq!(
        err_of("<e a='&x;'/>"),
        Error::UnknownEntityReference("x".to_string(), TextPos::new(1, 7))
    );
    assert_eq!(err_of("<e a='&#;'/>"), Error::MalformedEntityReference(TextPos::new(1, 7)));
    assert_eq!(
        err_of("<!DOCTYPE d [<!ENTITY lt2 '&#60;'>]><e a='&lt2;'/>"),
        Error::InvalidAttributeValue(TextPos::new(1, 28))
    );
    // At the top level a reference to `<` in an attribute value is accepted.
    let doc = Document::parse("<e a='&#60;&lt;'/>").unwrap();
    assert_eq!(doc.root_element().attribute("a"), Some("<<"));
}

#[test]
fn resource_errors() {
    assert_eq!(
        Document::parse("<!DOCTYPE d [<!ENTITY x 'y'>]><e/>").err(),
        Some(Error::DtdDetected)
    );
    let opt = ParsingOptions { allow_dtd: false, nodes_limit: 3 };
    assert!(Document::parse_with_options("<a><b/></a>", opt).is_ok());
    assert_eq!(
        Document::parse_with_options("<a><b/><c/></a>", opt).err(),
        Some(Error::NodesLimitReached)
    );
    assert_eq!(ParsingOptions::default(), ParsingOptions { allow_dtd: false, nodes_limit: u32::MAX });
}

#[test]
fn grammar_errors() {
    assert_eq!(err_of("<a b:c:d='1'/>"), Error::InvalidName(TextPos::new(1, 4)));
    assert_eq!(err_of("<a>\u{1}</a>"), Error::NonXmlChar('\u{1}', TextPos::new(1, 4)));
    assert_eq!(err_of("<a>\u{ffff}</a>"), Error::NonXmlChar('\u{ffff}', TextPos::new(1, 4)));
    assert_eq!(err_of("<a x='1\"/>"), Error::UnexpectedEndOfStream);
    assert_eq!(err_of("<a x y='1'/>"), Error::InvalidChar(b'=', b'y', TextPos::new(1, 6)));
    assert_eq!(err_of("<a x=1/>"), Error::InvalidChar2("a quote", b'1', TextPos::new(1, 6)));
    assert_eq!(err_of("<!--a"), Error::InvalidString("-->", TextPos::new(1, 6)));
    assert_eq!(
        err_of("<!DOCTYPE s [<!ENTITY % name S YSTEM"),
        Error::InvalidExternalID(TextPos::new(1, 30))
    );
    assert_eq!(err_of("<!--a--b-->"), Error::InvalidComment(TextPos::new(1, 1)));
    assert_eq!(err_of("<!--a--->"), Error::InvalidComment(TextPos::new(1, 1)));
    assert_eq!(err_of("<p>]]></p>"), Error::InvalidCharacterData(TextPos::new(1, 7)));
    assert_eq!(err_of("<a/>b"), Error::UnknownToken(TextPos::new(1, 5)));
    assert_eq!(
        err_of("<a/><?xml version='1.0'?>"),
        Error::UnexpectedDeclaration(TextPos::new(1, 5))
    );
}

#[test]
fn error_positions() {
    assert_eq!(Error::UnknownToken(TextPos::new(3, 4)).pos(), TextPos::new(3, 4));
    assert_eq!(
        Error::UnexpectedCloseTag("a".into(), "b".into(), TextPos::new(2, 1)).pos(),
        TextPos::new(2, 1)
    );
    assert_eq!(Error::DtdDetected.pos(), TextPos::new(1, 1));
    assert_eq!(Error::NonXmlChar('a', TextPos::new(7, 9)).pos(), TextPos::new(7, 9));
}

#[test]
fn text_positions() {
    let doc = Document::parse("<!-- comment -->\n<e/>").unwrap();
    assert_eq!(doc.text_pos_at(0), TextPos::new(1, 1));
    assert_eq!(doc.text_pos_at(10), TextPos::new(1, 11));
    assert_eq!(doc.text_pos_at(16), TextPos::new(1, 17));
    assert_eq!(doc.text_pos_at(17), TextPos::new(2, 1));
    assert_eq!(doc.text_pos_at(9999), TextPos::new(2, 5));
    assert_eq!(doc.input_text(), "<!-- comment -->\n<e/>");
    // A column counts characters, not bytes.
    let doc = Document::parse("<e a='жж'>я</e>").unwrap();
    assert_eq!(doc.text_pos_at(doc.root_element().first_child().unwrap().range().start), TextPos::new(1, 11));
}

#[test]
fn attribute_values_are_normalized() {
    let doc = Document::parse("<e a='x\ty\r\nz\nw\rv' b=' keep  spaces ' c='&#9;&#13;&#10;'/>").unwrap();
    let e = doc.root_element();
    assert_eq!(e.attribute("a"), Some("x y z w v"));
    assert_eq!(e.attribute("b"), Some(" keep  spaces "));
    assert_eq!(e.attribute("c"), Some("\t\r\n"));
    let text = "<!DOCTYPE d [<!ENTITY ws 'a&#9;b&#10;c'><!ENTITY v 'q&quot;&ws;'>]><e a='[&v;]' b='&#x416;&amp;'/>";
    let doc = with_dtd(text).unwrap();
    assert_eq!(doc.root_element().attribute("a"), Some("[q\"a b c]"));
    assert_eq!(doc.root_element().attribute("b"), Some("Ж&"));
}

#[test]
fn line_ends_in_text_are_normalized() {
    let doc = Document::parse("<e>a\r\nb\rc\nd\r</e>").unwrap();
    assert_eq!(doc.root_element().text(), Some("a\nb\nc\nd\n"));
    let doc = Document::parse("<e>a\r\n&amp;\r</e>").unwrap();
    assert_eq!(doc.root_element().text(), Some("a\n&\r"));
    // A carriage return that a reference stands for is kept, with the byte behind it.
    let doc = Document::parse("<e>&#13;\n&#13;&#10;x</e>").unwrap();
    assert_eq!(doc.root_element().text(), Some("\r\n\r\nx"));
    let doc = Document::parse("<e>я\rю&#x44F;</e>").unwrap();
    assert_eq!(doc.root_element().text(), Some("я\nюя"));
    let doc = Document::parse("<e>plain text</e>").unwrap();
    assert_eq!(doc.root_element().text(), Some("plain text"));
}

#[test]
fn line_ends_in_cdata_are_normalized() {
    let doc = Document::parse("<e><![CDATA[a\r\nb\rc&amp;\r]]></e>").unwrap();
    assert_eq!(doc.root_element().text(), Some("a\nb\nc&amp;\n"));
    let doc = Document::parse("<e>x<![CDATA[<y>]]>z</e>").unwrap();
    assert_eq!(doc.root_element().text(), Some("x<y>z"));
    assert_eq!(all_nodes(&doc).len(), 3);
}

#[test]
fn character_references() {
    let doc = Document::parse("<e>&#65;&#x42;&#x10FFFF;&#xD800;&quot;&apos;&lt;&gt;</e>").unwrap();
    assert_eq!(doc.root_element().text(), Some("AB\u{10FFFF}\u{FFFD}\"'<>"));
    assert_eq!(err_of("<e>&#99999999999;</e>"), Error::MalformedEntityReference(TextPos::new(1, 4)));
    assert_eq!(err_of("<e>&#xFFFE;</e>"), Error::MalformedEntityReference(TextPos::new(1, 4)));
}

#[test]
fn navigation() {
    let doc = Document::parse("<?pi v?><a><b/><!--c-->t<d><e/></d></a><!--end-->").unwrap();
    let root = doc.root();
    assert!(root.is_root());
    assert!(root.parent().is_none());
    assert_eq!(root.tag_name().name(), "");
    let pi = root.first_child().unwrap();
    assert!(pi.is_pi());
    assert_eq!(pi.pi().unwrap().target, "pi");
    assert_eq!(pi.pi().unwrap().value, Some("v"));
    let a = doc.root_element();
    assert!(pi.next_sibling().unwrap() == a);
    assert!(a.prev_sibling().unwrap() == pi);
    assert!(a.has_siblings());
    assert!(a.has_children());
    let b = a.first_child().unwrap();
    assert!(!b.has_children());
    assert!(b.parent().unwrap() == a);
    assert!(b.parent_element().unwrap() == a);
    assert!(a.parent_element().is_none());
    let c = b.next_sibling().unwrap();
    assert!(c.is_comment());
    assert_eq!(c.text(), Some("c"));
    let t = c.next_sibling().unwrap();
    assert!(t.is_text());
    assert_eq!(t.tail(), None);
    assert_eq!(b.tail(), None);
    let d = a.last_child().unwrap();
    assert!(d.has_tag_name("d"));
    assert!(d.prev_sibling_element().unwrap() == b);
    assert!(b.next_sibling_element().unwrap() == d);
    assert!(a.last_element_child().unwrap() == d);
    assert!(a.first_element_child().unwrap() == b);
    let e = d.first_child().unwrap();
    let mut up = e.ancestors();
    let mut names = Vec::new();
    while let Some(n) = up.next() {
        names.push(n.tag_name().name().to_string());
    }
    assert_eq!(names, vec!["e", "d", "a", ""]);
    let mut back = a.children();
    assert!(back.next_back().unwrap() == d);
    assert!(back.next_back().unwrap() == t);
    assert!(back.next().unwrap() == b);
    assert!(back.next().unwrap() == c);
    assert!(back.next().is_none());
    let mut down = root.last_children();
    down.next();
    assert!(down.next().unwrap().is_comment());
    assert!(down.next().is_none());
    let mut first = root.first_children();
    first.next();
    assert!(first.next().unwrap().is_pi());
    let mut next = b.next_siblings();
    let mut count = 0;
    while next.next().is_some() {
        count += 1;
    }
    assert_eq!(count, 4);
    let mut prev = d.prev_siblings();
    let mut count = 0;
    while prev.next().is_some() {
        count += 1;
    }
    assert_eq!(count, 4);
    assert!(doc.get_node(NodeId::new(0)).unwrap() == root);
    assert!(doc.get_node(NodeId::new(100)).is_none());
    assert_eq!(NodeId::from(3u32).get_usize(), 3);
    let mut rev = doc.descendants();
    assert!(rev.next_back().unwrap().is_comment());
    assert!(rev.nth(2).unwrap() == a);
}

#[test]
fn storages() {
    let doc = Document::parse("<e a='x&amp;y' b='z'>t&lt;u</e>").unwrap();
    let e = doc.root_element();
    let a = e.attribute_node("a").unwrap();
    assert_eq!(a.value_storage().as_str(), "x&y");
    assert!(matches!(a.value_storage(), roxmltree::StringStorage::Owned(_)));
    let b = e.attribute_node("b").unwrap();
    assert!(matches!(b.value_storage(), roxmltree::StringStorage::Borrowed("z")));
    assert_eq!(b.position(), 15);
    assert_eq!(b.range(), 15..20);
    assert_eq!(b.value_range(), 18..19);
    assert_eq!(e.text_storage().unwrap().as_str(), "t<u");
    assert_eq!(e.tail_storage().map(|s| s.as_str().to_string()), None);
    assert_eq!(roxmltree::StringStorage::new_owned("s".to_string()).as_str(), "s");
    assert_eq!(
        roxmltree::ExpandedName::from_static("urn:x", "n").namespace(),
        Some("urn:x")
    );
}

#[test]
fn declaration_and_doctype() {
    let text = "\u{feff}<?xml version='1.0' encoding='UTF-8' standalone='yes'?>\n\
<!DOCTYPE svg PUBLIC '-//W3C//DTD SVG 1.1//EN' 'http://www.w3.org/Graphics/SVG/1.1/DTD/svg11.dtd' [\n\
<!ELEMENT svg ANY>\n<!ENTITY ns 'http://ns'>\n<!-- c -->\n]>\n<svg xmlns='&ns;'/>";
    let doc = with_dtd(text).unwrap();
    assert_eq!(doc.root_element().tag_name().namespace(), Some("http://ns"));
    assert_eq!(doc.root().first_child().unwrap().text(), Some(" c "));
}

#[test]
fn traversal_enters_and_leaves_every_node() {
    let doc = Document::parse("<a><b><c/>t</b><!--x--><d/></a>").unwrap();
    let a = doc.root_element();
    let mut steps = Vec::new();
    let mut it = a.traverse();
    while let Some(edge) = it.next() {
        match edge {
            Edge::Open(n) => steps.push((true, n.id().get())),
            Edge::Close(n) => steps.push((false, n.id().get())),
        }
    }
    assert_eq!(
        steps,
        vec![
            (true, 1),
            (true, 2),
            (true, 3),
            (false, 3),
            (true, 4),
            (false, 4),
            (false, 2),
            (true, 5),
            (false, 5),
            (true, 6),
            (false, 6),
            (false, 1),
        ]
    );
    // The step behind the end starts the traversal again.
    match it.next() {
        Some(Edge::Open(n)) => assert!(n == a),
        _ => panic!("the traversal does not start again"),
    }
}

#[test]
fn traversal_of_a_leaf() {
    let doc = Document::parse("<a><b/><c/></a>").unwrap();
    let b = doc.root_element().first_child().unwrap();
    let mut it = b.traverse();
    assert!(matches!(it.next(), Some(Edge::Open(n)) if n == b));
    assert!(matches!(it.next(), Some(Edge::Close(n)) if n == b));
    assert!(it.next().is_none());
}

#[test]
fn children_by_position() {
    let doc = Document::parse("<a><b/>t<c/><!--x--></a>").unwrap();
    let a = doc.root_element();
    assert!(a.children().nth(0).unwrap().has_tag_name("b"));
    assert!(a.children().nth(1).unwrap().is_text());
    assert!(a.children().nth(2).unwrap().has_tag_name("c"));
    assert!(a.children().nth(3).unwrap().is_comment());
    assert!(a.children().nth(4).is_none());
    let mut it = a.children();
    assert!(it.nth(1).unwrap().is_text());
    assert!(it.next().unwrap().has_tag_name("c"));
}

#[test]
fn start_tag_left_open_by_an_entity() {
    // The name of a start tag ends the run of text, and the tag makes no
    // element where the text of the entity ends before the tag does.
    let doc = with_dtd("<!DOCTYPE r [<!ENTITY e '<a'>]><r>x&e;y</r>").unwrap();
    let r = doc.root_element();
    let mut texts = Vec::new();
    let mut it = r.children();
    while let Some(n) = it.next() {
        assert!(n.is_text());
        texts.push(n.text().unwrap().to_string());
    }
    assert_eq!(texts, vec!["x".to_string(), "y".to_string()]);
}

#[test]
fn namespaces_from_both_ends() {
    let doc = Document::parse("<a xmlns='u' xmlns:p='v' xmlns:q='w'/>").unwrap();
    let mut it = doc.root_element().namespaces();
    assert_eq!(it.len(), 3);
    let last = it.next_back().unwrap();
    assert_eq!(last.name(), Some("q"));
    assert_eq!(last.uri(), "w");
    let first = it.next().unwrap();
    assert_eq!(first.name(), None);
    assert_eq!(first.uri(), "u");
    assert_eq!(it.len(), 1);
    let middle = it.next_back().unwrap();
    assert_eq!(middle.name(), Some("p"));
    assert!(it.next().is_none());
    assert!(it.next_back().is_none());
}

#[test]
fn texts_are_equal_by_their_characters() {
    let borrowed = StringStorage::Borrowed("text");
    let owned = StringStorage::new_owned("text".to_string());
    assert_eq!(borrowed.as_str(), "text");
    assert_eq!(owned.as_str(), "text");
    assert!(borrowed == owned);
    assert!(owned == borrowed);
    assert!(borrowed != StringStorage::Borrowed("texts"));
    assert!(owned != StringStorage::new_owned(String::new()));
}

#[test]
fn attributes_are_equal_by_name_and_value() {
    let doc = Document::parse(
        "<r xmlns:n='u' xmlns:m='u'><a x='1' n:x='1'/><b x='1' m:x='1' y='1'/><c x='&#x31;'/></r>",
    )
    .unwrap();
    let r = doc.root_element();
    let a = r.first_element_child().unwrap();
    let b = a.next_sibling_element().unwrap();
    let c = b.next_sibling_element().unwrap();
    let ax = a.attribute_node("x").unwrap();
    let anx = a.attribute_node(("u", "x")).unwrap();
    let bx = b.attribute_node("x").unwrap();
    let bmx = b.attribute_node(("u", "x")).unwrap();
    let by = b.attribute_node("y").unwrap();
    let cx = c.attribute_node("x").unwrap();
    assert!(ax == bx);
    // The prefix is no part of the name, and a value that the document owns is a value.
    assert!(anx == bmx);
    assert!(ax == cx);
    assert!(ax != anx);
    assert!(bx != by);
}

#[test]
fn parents_are_the_root_or_elements() {
    let doc = with_dtd("<!--c--><?p v?><a>t<b><!--d--><?q?></b><![CDATA[u]]></a><!--e-->").unwrap();
    for n in all_nodes(&doc) {
        match n.parent() {
            Some(p) => assert!(p.is_root() || p.is_element()),
            None => assert!(n.is_root()),
        }
        if n.is_text() || n.is_comment() || n.is_pi() {
            assert!(!n.has_children());
            assert!(n.first_child().is_none());
            assert_eq!(n.descendants().len(), 1);
        }
    }
}
