use roxmltree::tokenizer;
use roxmltree::{Error, Reference, Stream, StrSpan, TextPos, XmlEvents};

#[test]
fn text_pos_1() {
    let mut s = Stream::new("text");
    s.advance(2);
    assert_eq!(s.gen_text_pos(), TextPos::new(1, 3));
}

#[test]
fn text_pos_2() {
    let mut s = Stream::new("text\ntext");
    s.advance(6);
    assert_eq!(s.gen_text_pos(), TextPos::new(2, 2));
}

#[test]
fn text_pos_3() {
    let mut s = Stream::new("текст\nтекст");
    s.advance(15);
    assert_eq!(s.gen_text_pos(), TextPos::new(2, 3));
}

#[test]
fn token_size() {
    assert!(::std::mem::size_of::<Token>() <= 196);
}

#[test]
fn span_size() {
    assert!(::std::mem::size_of::<StrSpan>() <= 48);
}

type Range = ::std::ops::Range<usize>;

#[derive(PartialEq, Debug)]
pub enum Token<'a> {
    PI(&'a str, Option<&'a str>, Range),
    Comment(&'a str, Range),
    EntityDecl(&'a str, &'a str),
    ElementStart(&'a str, &'a str, usize),
    Attribute(&'a str, &'a str, &'a str),
    ElementEnd(ElementEnd<'a>, Range),
    Text(&'a str, Range),
    Cdata(&'a str, Range),
    Error(String),
}

#[derive(PartialEq, Debug)]
pub enum ElementEnd<'a> {
    Open,
    Close(&'a str, &'a str),
    Empty,
}

struct EventsCollector<'a> {
    tokens: Vec<Token<'a>>,
}

impl<'a> XmlEvents<'a> for EventsCollector<'a> {
    fn token(&mut self, token: tokenizer::Token<'a>) -> Result<(), Error> {
        let t = match token {
            tokenizer::Token::ProcessingInstruction(target, content, range) => {
                Token::PI(target, content, range)
            }
            tokenizer::Token::Comment(text, range) => Token::Comment(text, range),
            tokenizer::Token::EntityDeclaration(name, definition) => {
                Token::EntityDecl(name, definition.as_str())
            }
            tokenizer::Token::ElementStart(prefix, local, start) => {
                Token::ElementStart(prefix, local, start)
            }
            tokenizer::Token::Attribute(_, _, _, prefix, local, value) => {
                Token::Attribute(prefix, local, value.as_str())
            }
            tokenizer::Token::ElementEnd(end, range) => Token::ElementEnd(
                match end {
                    tokenizer::ElementEnd::Open => ElementEnd::Open,
                    tokenizer::ElementEnd::Close(prefix, local) => {
                        ElementEnd::Close(prefix, local)
                    }
                    tokenizer::ElementEnd::Empty => ElementEnd::Empty,
                },
                range,
            ),
            tokenizer::Token::Text(text, range) => Token::Text(text, range),
            tokenizer::Token::Cdata(text, range) => Token::Cdata(text, range),
        };
        self.tokens.push(t);
        Ok(())
    }
}

fn message(e: &Error) -> String {
    let pos = |p: &TextPos| format!("{}:{}", p.row, p.col);
    match e {
        Error::InvalidName(p) => format!("invalid name token at {}", pos(p)),
        Error::NonXmlChar(c, p) => format!("a non-XML character {:?} found at {}", c, pos(p)),
        Error::InvalidChar(expected, actual, p) => format!(
            "expected '{}' not '{}' at {}",
            *expected as char,
            *actual as char,
            pos(p)
        ),
        Error::InvalidChar2(expected, actual, p) => {
            format!("expected {} not '{}' at {}", expected, *actual as char, pos(p))
        }
        Error::InvalidString(expected, p) => format!("expected '{}' at {}", expected, pos(p)),
        Error::InvalidExternalID(p) => format!("invalid ExternalID at {}", pos(p)),
        Error::InvalidComment(p) => format!("comment at {} contains '--'", pos(p)),
        Error::InvalidCharacterData(p) => {
            format!("']]>' at {} is not allowed inside a character data", pos(p))
        }
        Error::UnknownToken(p) => format!("unknown token at {}", pos(p)),
        Error::UnexpectedEndOfStream => format!("unexpected end of stream"),
        Error::UnexpectedDeclaration(p) => format!("unexpected XML declaration at {}", pos(p)),
        other => format!("{:?}", other),
    }
}

fn collect_tokens(text: &str) -> Vec<Token> {
    let mut collector = EventsCollector { tokens: Vec::new() };
    if let Err(e) = tokenizer::parse(text, true, &mut collector) {
        collector.tokens.push(Token::Error(message(&e)));
    }
    collector.tokens
}

// We do not support !ELEMENT DTD token and it will be skipped.
// This tests checks that many sequential unsupported tokens do not crash the tokenizer.
#[test]
fn dtd_entity_07() {
    let mut text = "<!DOCTYPE svg [\n".to_string();
    for _ in 0..500 {
        text.push_str("<!ELEMENT sgml ANY>\n");
    }
    text.push_str("]>\n");

    let mut collector = EventsCollector { tokens: Vec::new() };
    tokenizer::parse(&text, true, &mut collector).unwrap();
}

#[test]
fn cdata_01() {
    let tokens = collect_tokens("<p><![CDATA[content]]></p>");
    let mut iter = tokens.iter();
    assert_eq!(*iter.next().unwrap(), Token::ElementStart("", "p", 0));
    assert_eq!(*iter.next().unwrap(), Token::ElementEnd(ElementEnd::Open, 2..3));
    assert_eq!(*iter.next().unwrap(), Token::Cdata("content", 3..22));
    assert_eq!(*iter.next().unwrap(), Token::ElementEnd(ElementEnd::Close("", "p"), 22..26));
    assert!(iter.next().is_none());
}

#[test]
fn cdata_02() {
    let tokens = collect_tokens("<p><![CDATA[&amping]]></p>");
    let mut iter = tokens.iter();
    assert_eq!(*iter.next().unwrap(), Token::ElementStart("", "p", 0));
    assert_eq!(*iter.next().unwrap(), Token::ElementEnd(ElementEnd::Open, 2..3));
    assert_eq!(*iter.next().unwrap(), Token::Cdata("&amping", 3..22));
    assert_eq!(*iter.next().unwrap(), Token::ElementEnd(ElementEnd::Close("", "p"), 22..26));
    assert!(iter.next().is_none());
}

#[test]
fn cdata_03() {
    let tokens = collect_tokens("<p><![CDATA[&amping ]]]></p>");
    let mut iter = tokens.iter();
    assert_eq!(*iter.next().unwrap(), Token::ElementStart("", "p", 0));
    assert_eq!(*iter.next().unwrap(), Token::ElementEnd(ElementEnd::Open, 2..3));
    assert_eq!(*iter.next().unwrap(), Token::Cdata("&amping ]", 3..24));
    assert_eq!(*iter.next().unwrap(), Token::ElementEnd(ElementEnd::Close("", "p"), 24..28));
    assert!(iter.next().is_none());
}

#[test]
fn cdata_04() {
    let tokens = collect_tokens("<p><![CDATA[&amping]] ]]></p>");
    let mut iter = tokens.iter();
    assert_eq!(*iter.next().unwrap(), Token::ElementStart("", "p", 0));
    assert_eq!(*iter.next().unwrap(), Token::ElementEnd(ElementEnd::Open, 2..3));
    assert_eq!(*iter.next().unwrap(), Token::Cdata("&amping]] ", 3..25));
    assert_eq!(*iter.next().unwrap(), Token::ElementEnd(ElementEnd::Close("", "p"), 25..29));
    assert!(iter.next().is_none());
}

#[test]
fn cdata_05() {
    let tokens = collect_tokens("<p><![CDATA[<message>text</message>]]></p>");
    let mut iter = tokens.iter();
    assert_eq!(*iter.next().unwrap(), Token::ElementStart("", "p", 0));
    assert_eq!(*iter.next().unwrap(), Token::ElementEnd(ElementEnd::Open, 2..3));
    assert_eq!(*iter.next().unwrap(), Token::Cdata("<message>text</message>", 3..38));
    assert_eq!(*iter.next().unwrap(), Token::ElementEnd(ElementEnd::Close("", "p"), 38..42));
    assert!(iter.next().is_none());
}

#[test]
fn cdata_06() {
    let tokens = collect_tokens("<p><![CDATA[</this is malformed!</malformed</malformed & worse>]]></p>");
    let mut iter = tokens.iter();
    assert_eq!(*iter.next().unwrap(), Token::ElementStart("", "p", 0));
    assert_eq!(*iter.next().unwrap(), Token::ElementEnd(ElementEnd::Open, 2..3));
    assert_eq!(*iter.next().unwrap(), Token::Cdata("</this is malformed!</malformed</malformed & worse>", 3..66));
    assert_eq!(*iter.next().unwrap(), Token::ElementEnd(ElementEnd::Close("", "p"), 66..70));
    assert!(iter.next().is_none());
}

#[test]
fn cdata_07() {
    let tokens = collect_tokens("<p><![CDATA[1]]><![CDATA[2]]></p>");
    let mut iter = tokens.iter();
    assert_eq!(*iter.next().unwrap(), Token::ElementStart("", "p", 0));
    assert_eq!(*iter.next().unwrap(), Token::ElementEnd(ElementEnd::Open, 2..3));
    assert_eq!(*iter.next().unwrap(), Token::Cdata("1", 3..16));
    assert_eq!(*iter.next().unwrap(), Token::Cdata("2", 16..29));
    assert_eq!(*iter.next().unwrap(), Token::ElementEnd(ElementEnd::Close("", "p"), 29..33));
    assert!(iter.next().is_none());
}

#[test]
fn cdata_08() {
    let tokens = collect_tokens("<p> \n <![CDATA[data]]> \t </p>");
    let mut iter = tokens.iter();
    assert_eq!(*iter.next().unwrap(), Token::ElementStart("", "p", 0));
    assert_eq!(*iter.next().unwrap(), Token::ElementEnd(ElementEnd::Open, 2..3));
    assert_eq!(*iter.next().unwrap(), Token::Text(" \n ", 3..6));
    assert_eq!(*iter.next().unwrap(), Token::Cdata("data", 6..22));
    assert_eq!(*iter.next().unwrap(), Token::Text(" \t ", 22..25));
    assert_eq!(*iter.next().unwrap(), Token::ElementEnd(ElementEnd::Close("", "p"), 25..29));
    assert!(iter.next().is_none());
}

#[test]
fn cdata_09() {
    let tokens = collect_tokens("<p><![CDATA[bracket ]after]]></p>");
    let mut iter = tokens.iter();
    assert_eq!(*iter.next().unwrap(), Token::ElementStart("", "p", 0));
    assert_eq!(*iter.next().unwrap(), Token::ElementEnd(ElementEnd::Open, 2..3));
    assert_eq!(*iter.next().unwrap(), Token::Cdata("bracket ]after", 3..29));
    assert_eq!(*iter.next().unwrap(), Token::ElementEnd(ElementEnd::Close("", "p"), 29..33));
    assert!(iter.next().is_none());
}

#[test]
fn cdata_err_01() {
    let tokens = collect_tokens("<p><![CDATA[\u{1}]]></p>");
    let mut iter = tokens.iter();
    assert_eq!(*iter.next().unwrap(), Token::ElementStart("", "p", 0));
    assert_eq!(*iter.next().unwrap(), Token::ElementEnd(ElementEnd::Open, 2..3));
    assert_eq!(*iter.next().unwrap(), Token::Error("a non-XML character '\\u{1}' found at 1:13".to_string()));
    assert!(iter.next().is_none());
}

#[test]
fn comment_01() {
    let tokens = collect_tokens("<!--comment-->");
    let mut iter = tokens.iter();
    assert_eq!(*iter.next().unwrap(), Token::Comment("comment", 0..14));
    assert!(iter.next().is_none());
}

#[test]
fn comment_02() {
    let tokens = collect_tokens("<!--<head>-->");
    let mut iter = tokens.iter();
    assert_eq!(*iter.next().unwrap(), Token::Comment("<head>", 0..13));
    assert!(iter.next().is_none());
}

#[test]
fn comment_03() {
    let tokens = collect_tokens("<!--<!-x-->");
    let mut iter = tokens.iter();
    assert_eq!(*iter.next().unwrap(), Token::Comment("<!-x", 0..11));
    assert!(iter.next().is_none());
}

#[test]
fn comment_04() {
    let tokens = collect_tokens("<!--<!x-->");
    let mut iter = tokens.iter();
    assert_eq!(*iter.next().unwrap(), Token::Comment("<!x", 0..10));
    assert!(iter.next().is_none());
}

#[test]
fn comment_05() {
    let tokens = collect_tokens("<!--<<!x-->");
    let mut iter = tokens.iter();
    assert_eq!(*iter.next().unwrap(), Token::Comment("<<!x", 0..11));
    assert!(iter.next().is_none());
}

#[test]
fn comment_06() {
    let tokens = collect_tokens("<!--<<!-x-->");
    let mut iter = tokens.iter();
    assert_eq!(*iter.next().unwrap(), Token::Comment("<<!-x", 0..12));
    assert!(iter.next().is_none());
}

#[test]
fn comment_07() {
    let tokens = collect_tokens("<!--<x-->");
    let mut iter = tokens.iter();
    assert_eq!(*iter.next().unwrap(), Token::Comment("<x", 0..9));
    assert!(iter.next().is_none());
}

#[test]
fn comment_08() {
    let tokens = collect_tokens("<!--<>-->");
    let mut iter = tokens.iter();
    assert_eq!(*iter.next().unwrap(), Token::Comment("<>", 0..9));
    assert!(iter.next().is_none());
}

#[test]
fn comment_09() {
    let tokens = collect_tokens("<!--<-->");
    let mut iter = tokens.iter();
    assert_eq!(*iter.next().unwrap(), Token::Comment("<", 0..8));
    assert!(iter.next().is_none());
}

#[test]
fn comment_10() {
    let tokens = collect_tokens("<!--<!-->");
    let mut iter = tokens.iter();
    assert_eq!(*iter.next().unwrap(), Token::Comment("<!", 0..9));
    assert!(iter.next().is_none());
}

#[test]
fn comment_11() {
    let tokens = collect_tokens("<!---->");
    let mut iter = tokens.iter();
    assert_eq!(*iter.next().unwrap(), Token::Comment("", 0..7));
    assert!(iter.next().is_none());
}

#[test]
fn dtd_01() {
    let tokens = collect_tokens("<!DOCTYPE greeting SYSTEM \"hello.dtd\">");
    let mut iter = tokens.iter();
    assert!(iter.next().is_none());
}

#[test]
fn dtd_02() {
    let tokens = collect_tokens("<!DOCTYPE greeting PUBLIC \"hello.dtd\" \"goodbye.dtd\">");
    let mut iter = tokens.iter();
    assert!(iter.next().is_none());
}

#[test]
fn dtd_03() {
    let tokens = collect_tokens("<!DOCTYPE greeting SYSTEM 'hello.dtd'>");
    let mut iter = tokens.iter();
    assert!(iter.next().is_none());
}

#[test]
fn dtd_04() {
    let tokens = collect_tokens("<!DOCTYPE greeting>");
    let mut iter = tokens.iter();
    assert!(iter.next().is_none());
}

#[test]
fn dtd_05() {
    let tokens = collect_tokens("<!DOCTYPE greeting []>");
    let mut iter = tokens.iter();
    assert!(iter.next().is_none());
}

#[test]
fn dtd_06() {
    let tokens = collect_tokens("<!DOCTYPE greeting><a/>");
    let mut iter = tokens.iter();
    assert_eq!(*iter.next().unwrap(), Token::ElementStart("", "a", 19));
    assert_eq!(*iter.next().unwrap(), Token::ElementEnd(ElementEnd::Empty, 21..23));
    assert!(iter.next().is_none());
}

#[test]
fn dtd_07() {
    let tokens = collect_tokens("<!DOCTYPE greeting [] >");
    let mut iter = tokens.iter();
    assert!(iter.next().is_none());
}

#[test]
fn dtd_08() {
    let tokens = collect_tokens("<!DOCTYPE greeting [ ] >");
    let mut iter = tokens.iter();
    assert!(iter.next().is_none());
}

#[test]
fn dtd_entity_01() {
    let tokens = collect_tokens("<!DOCTYPE svg [
    <!ENTITY ns_extend \"http://ns.adobe.com/Extensibility/1.0/\">
]>");
    let mut iter = tokens.iter();
    assert_eq!(*iter.next().unwrap(), Token::EntityDecl("ns_extend", "http://ns.adobe.com/Extensibility/1.0/"));
    assert!(iter.next().is_none());
}

#[test]
fn dtd_entity_02() {
    let tokens = collect_tokens("<!DOCTYPE svg [
    <!ENTITY Pub-Status \"This is a pre-release of the
specification.\">
]>");
    let mut iter = tokens.iter();
    assert_eq!(*iter.next().unwrap(), Token::EntityDecl("Pub-Status", "This is a pre-release of the\nspecification."));
    assert!(iter.next().is_none());
}

#[test]
fn dtd_entity_03() {
    let tokens = collect_tokens("<!DOCTYPE svg [
    <!ENTITY open-hatch SYSTEM \"http://www.textuality.com/boilerplate/OpenHatch.xml\">
]>");
    let mut iter = tokens.iter();
    assert!(iter.next().is_none());
}

#[test]
fn dtd_entity_04() {
    let tokens = collect_tokens("<!DOCTYPE svg [
    <!ENTITY open-hatch
             PUBLIC \"-//Textuality//TEXT Standard open-hatch boilerplate//EN\"
             \"http://www.textuality.com/boilerplate/OpenHatch.xml\">
]>");
    let mut iter = tokens.iter();
    assert!(iter.next().is_none());
}

#[test]
fn dtd_entity_05() {
    let tokens = collect_tokens("<!DOCTYPE svg [
    <!ENTITY hatch-pic SYSTEM \"../grafix/OpenHatch.gif\" NDATA gif >
]>");
    let mut iter = tokens.iter();
    assert!(iter.next().is_none());
}

#[test]
fn dtd_entity_06() {
    let tokens = collect_tokens("<!DOCTYPE svg [
    <!ELEMENT sgml ANY>
    <!ENTITY ns_extend \"http://ns.adobe.com/Extensibility/1.0/\">
    <!NOTATION example1SVG-rdf SYSTEM \"example1.svg.rdf\">
    <!ATTLIST img data ENTITY #IMPLIED>
]>");
    let mut iter = tokens.iter();
    assert_eq!(*iter.next().unwrap(), Token::EntityDecl("ns_extend", "http://ns.adobe.com/Extensibility/1.0/"));
    assert!(iter.next().is_none());
}

#[test]
fn dtd_err_01() {
    let tokens = collect_tokens("<!DOCTYPEEG[<!ENTITY%ETT\u{000a}SSSSSSSS<D_IDYT;->\u{000a}<");
    let mut iter = tokens.iter();
    assert_eq!(*iter.next().unwrap(), Token::Error("expected a whitespace not 'E' at 1:10".to_string()));
    assert!(iter.next().is_none());
}

#[test]
fn dtd_err_02() {
    let tokens = collect_tokens("<!DOCTYPE s [<!ENTITY % name S YSTEM");
    let mut iter = tokens.iter();
    assert_eq!(*iter.next().unwrap(), Token::Error("invalid ExternalID at 1:30".to_string()));
    assert!(iter.next().is_none());
}

#[test]
fn dtd_err_03() {
    let tokens = collect_tokens("<!DOCTYPE s [<!ENTITY % name B");
    let mut iter = tokens.iter();
    assert_eq!(*iter.next().unwrap(), Token::Error("expected a quote, SYSTEM or PUBLIC not 'B' at 1:30".to_string()));
    assert!(iter.next().is_none());
}

#[test]
fn dtd_err_04() {
    let tokens = collect_tokens("<!DOCTYPE s []");
    let mut iter = tokens.iter();
    assert_eq!(*iter.next().unwrap(), Token::Error("unexpected end of stream".to_string()));
    assert!(iter.next().is_none());
}

#[test]
fn dtd_err_05() {
    let tokens = collect_tokens("<!DOCTYPE s [] !");
    let mut iter = tokens.iter();
    assert_eq!(*iter.next().unwrap(), Token::Error("expected '>' not '!' at 1:16".to_string()));
    assert!(iter.next().is_none());
}

#[test]
fn document_01() {
    let tokens = collect_tokens("");
    let mut iter = tokens.iter();
    assert!(iter.next().is_none());
}

#[test]
fn document_02() {
    let tokens = collect_tokens("    ");
    let mut iter = tokens.iter();
    assert!(iter.next().is_none());
}

#[test]
fn document_03() {
    let tokens = collect_tokens(" \n\t\r ");
    let mut iter = tokens.iter();
    assert!(iter.next().is_none());
}

#[test]
fn document_05() {
    let tokens = collect_tokens(std::str::from_utf8(b"\xEF\xBB\xBF<a/>").unwrap());
    let mut iter = tokens.iter();
    assert_eq!(*iter.next().unwrap(), Token::ElementStart("", "a", 3));
    assert_eq!(*iter.next().unwrap(), Token::ElementEnd(ElementEnd::Empty, 5..7));
    assert!(iter.next().is_none());
}

#[test]
fn document_06() {
    let tokens = collect_tokens(std::str::from_utf8(b"\xEF\xBB\xBF<?xml version='1.0'?>").unwrap());
    let mut iter = tokens.iter();
    assert!(iter.next().is_none());
}

#[test]
fn document_07() {
    let tokens = collect_tokens("<?xml version='1.0' encoding='utf-8'?>\n<!-- comment -->\n\
<!DOCTYPE svg PUBLIC '-//W3C//DTD SVG 1.1//EN' 'http://www.w3.org/Graphics/SVG/1.1/DTD/svg11.dtd'>");
    let mut iter = tokens.iter();
    assert_eq!(*iter.next().unwrap(), Token::Comment(" comment ", 39..55));
    assert!(iter.next().is_none());
}

#[test]
fn document_08() {
    let tokens = collect_tokens("<?xml-stylesheet?>\n\
<!DOCTYPE svg PUBLIC '-//W3C//DTD SVG 1.1//EN' 'http://www.w3.org/Graphics/SVG/1.1/DTD/svg11.dtd'>");
    let mut iter = tokens.iter();
    assert_eq!(*iter.next().unwrap(), Token::PI("xml-stylesheet", None, 0..18));
    assert!(iter.next().is_none());
}

#[test]
fn document_09() {
    let tokens = collect_tokens("<?xml version='1.0' encoding='utf-8'?>\n<?xml-stylesheet?>\n\
<!DOCTYPE svg PUBLIC '-//W3C//DTD SVG 1.1//EN' 'http://www.w3.org/Graphics/SVG/1.1/DTD/svg11.dtd'>");
    let mut iter = tokens.iter();
    assert_eq!(*iter.next().unwrap(), Token::PI("xml-stylesheet", None, 39..57));
    assert!(iter.next().is_none());
}

#[test]
fn document_err_01() {
    let tokens = collect_tokens("<![CDATA[text]]>");
    let mut iter = tokens.iter();
    assert_eq!(*iter.next().unwrap(), Token::Error("invalid name token at 1:2".to_string()));
    assert!(iter.next().is_none());
}

#[test]
fn document_err_02() {
    let tokens = collect_tokens(" &www---------Ӥ+----------w-----www_");
    let mut iter = tokens.iter();
    assert_eq!(*iter.next().unwrap(), Token::Error("unknown token at 1:2".to_string()));
    assert!(iter.next().is_none());
}

#[test]
fn document_err_03() {
    let tokens = collect_tokens("q");
    let mut iter = tokens.iter();
    assert_eq!(*iter.next().unwrap(), Token::Error("unknown token at 1:1".to_string()));
    assert!(iter.next().is_none());
}

#[test]
fn document_err_04() {
    let tokens = collect_tokens("<!>");
    let mut iter = tokens.iter();
    assert_eq!(*iter.next().unwrap(), Token::Error("invalid name token at 1:2".to_string()));
    assert!(iter.next().is_none());
}

#[test]
fn document_err_05() {
    let tokens = collect_tokens("<!DOCTYPE greeting1><!DOCTYPE greeting2>");
    let mut iter = tokens.iter();
    assert_eq!(*iter.next().unwrap(), Token::Error("invalid name token at 1:22".to_string()));
    assert!(iter.next().is_none());
}

#[test]
fn document_err_06() {
    let tokens = collect_tokens("&#x20;");
    let mut iter = tokens.iter();
    assert_eq!(*iter.next().unwrap(), Token::Error("unknown token at 1:1".to_string()));
    assert!(iter.next().is_none());
}

#[test]
fn element_01() {
    let tokens = collect_tokens("<a/>");
    let mut iter = tokens.iter();
    assert_eq!(*iter.next().unwrap(), Token::ElementStart("", "a", 0));
    assert_eq!(*iter.next().unwrap(), Token::ElementEnd(ElementEnd::Empty, 2..4));
    assert!(iter.next().is_none());
}

#[test]
fn element_02() {
    let tokens = collect_tokens("<a></a>");
    let mut iter = tokens.iter();
    assert_eq!(*iter.next().unwrap(), Token::ElementStart("", "a", 0));
    assert_eq!(*iter.next().unwrap(), Token::ElementEnd(ElementEnd::Open, 2..3));
    assert_eq!(*iter.next().unwrap(), Token::ElementEnd(ElementEnd::Close("", "a"), 3..7));
    assert!(iter.next().is_none());
}

#[test]
fn element_03() {
    let tokens = collect_tokens("  \t  <a/>   \n ");
    let mut iter = tokens.iter();
    assert_eq!(*iter.next().unwrap(), Token::ElementStart("", "a", 5));
    assert_eq!(*iter.next().unwrap(), Token::ElementEnd(ElementEnd::Empty, 7..9));
    assert!(iter.next().is_none());
}

#[test]
fn element_04() {
    let tokens = collect_tokens("  \t  <b><a/></b>   \n ");
    let mut iter = tokens.iter();
    assert_eq!(*iter.next().unwrap(), Token::ElementStart("", "b", 5));
    assert_eq!(*iter.next().unwrap(), Token::ElementEnd(ElementEnd::Open, 7..8));
    assert_eq!(*iter.next().unwrap(), Token::ElementStart("", "a", 8));
    assert_eq!(*iter.next().unwrap(), Token::ElementEnd(ElementEnd::Empty, 10..12));
    assert_eq!(*iter.next().unwrap(), Token::ElementEnd(ElementEnd::Close("", "b"), 12..16));
    assert!(iter.next().is_none());
}

#[test]
fn element_06() {
    let tokens = collect_tokens("<俄语 լեզու=\"ռուսերեն\">данные</俄语>");
    let mut iter = tokens.iter();
    assert_eq!(*iter.next().unwrap(), Token::ElementStart("", "俄语", 0));
    assert_eq!(*iter.next().unwrap(), Token::Attribute("", "լեզու", "ռուսերեն"));
    assert_eq!(*iter.next().unwrap(), Token::ElementEnd(ElementEnd::Open, 37..38));
    assert_eq!(*iter.next().unwrap(), Token::Text("данные", 38..50));
    assert_eq!(*iter.next().unwrap(), Token::ElementEnd(ElementEnd::Close("", "俄语"), 50..59));
    assert!(iter.next().is_none());
}

#[test]
fn element_07() {
    let tokens = collect_tokens("<svg:circle></svg:circle>");
    let mut iter = tokens.iter();
    assert_eq!(*iter.next().unwrap(), Token::ElementStart("svg", "circle", 0));
    assert_eq!(*iter.next().unwrap(), Token::ElementEnd(ElementEnd::Open, 11..12));
    assert_eq!(*iter.next().unwrap(), Token::ElementEnd(ElementEnd::Close("svg", "circle"), 12..25));
    assert!(iter.next().is_none());
}

#[test]
fn element_08() {
    let tokens = collect_tokens("<:circle/>");
    let mut iter = tokens.iter();
    assert_eq!(*iter.next().unwrap(), Token::ElementStart("", "circle", 0));
    assert_eq!(*iter.next().unwrap(), Token::ElementEnd(ElementEnd::Empty, 8..10));
    assert!(iter.next().is_none());
}

#[test]
fn element_err_01() {
    let tokens = collect_tokens("<>");
    let mut iter = tokens.iter();
    assert_eq!(*iter.next().unwrap(), Token::Error("invalid name token at 1:2".to_string()));
    assert!(iter.next().is_none());
}

#[test]
fn element_err_02() {
    let tokens = collect_tokens("</");
    let mut iter = tokens.iter();
    assert_eq!(*iter.next().unwrap(), Token::Error("invalid name token at 1:2".to_string()));
    assert!(iter.next().is_none());
}

#[test]
fn element_err_03() {
    let tokens = collect_tokens("</a");
    let mut iter = tokens.iter();
    assert_eq!(*iter.next().unwrap(), Token::Error("invalid name token at 1:2".to_string()));
    assert!(iter.next().is_none());
}

#[test]
fn element_err_04() {
    let tokens = collect_tokens("<a x='test' /");
    let mut iter = tokens.iter();
    assert_eq!(*iter.next().unwrap(), Token::ElementStart("", "a", 0));
    assert_eq!(*iter.next().unwrap(), Token::Attribute("", "x", "test"));
    assert_eq!(*iter.next().unwrap(), Token::Error("unexpected end of stream".to_string()));
    assert!(iter.next().is_none());
}

#[test]
fn element_err_05() {
    let tokens = collect_tokens("<<");
    let mut iter = tokens.iter();
    assert_eq!(*iter.next().unwrap(), Token::Error("invalid name token at 1:2".to_string()));
    assert!(iter.next().is_none());
}

#[test]
fn element_err_06() {
    let tokens = collect_tokens("< a");
    let mut iter = tokens.iter();
    assert_eq!(*iter.next().unwrap(), Token::Error("invalid name token at 1:2".to_string()));
    assert!(iter.next().is_none());
}

#[test]
fn element_err_07() {
    let tokens = collect_tokens("< ");
    let mut iter = tokens.iter();
    assert_eq!(*iter.next().unwrap(), Token::Error("invalid name token at 1:2".to_string()));
    assert!(iter.next().is_none());
}

#[test]
fn element_err_08() {
    let tokens = collect_tokens("<&#x9;");
    let mut iter = tokens.iter();
    assert_eq!(*iter.next().unwrap(), Token::Error("invalid name token at 1:2".to_string()));
    assert!(iter.next().is_none());
}

#[test]
fn element_err_09() {
    let tokens = collect_tokens("<a></a></a>");
    let mut iter = tokens.iter();
    assert_eq!(*iter.next().unwrap(), Token::ElementStart("", "a", 0));
    assert_eq!(*iter.next().unwrap(), Token::ElementEnd(ElementEnd::Open, 2..3));
    assert_eq!(*iter.next().unwrap(), Token::ElementEnd(ElementEnd::Close("", "a"), 3..7));
    assert_eq!(*iter.next().unwrap(), Token::Error("unknown token at 1:8".to_string()));
    assert!(iter.next().is_none());
}

#[test]
fn element_err_10() {
    let tokens = collect_tokens("<a/><a/>");
    let mut iter = tokens.iter();
    assert_eq!(*iter.next().unwrap(), Token::ElementStart("", "a", 0));
    assert_eq!(*iter.next().unwrap(), Token::ElementEnd(ElementEnd::Empty, 2..4));
    assert_eq!(*iter.next().unwrap(), Token::Error("unknown token at 1:5".to_string()));
    assert!(iter.next().is_none());
}

#[test]
fn element_err_11() {
    let tokens = collect_tokens("<a></br/></a>");
    let mut iter = tokens.iter();
    assert_eq!(*iter.next().unwrap(), Token::ElementStart("", "a", 0));
    assert_eq!(*iter.next().unwrap(), Token::ElementEnd(ElementEnd::Open, 2..3));
    assert_eq!(*iter.next().unwrap(), Token::Error("expected '>' not '/' at 1:8".to_string()));
    assert!(iter.next().is_none());
}

#[test]
fn element_err_12() {
    let tokens = collect_tokens("<svg:/>");
    let mut iter = tokens.iter();
    assert_eq!(*iter.next().unwrap(), Token::Error("invalid name token at 1:2".to_string()));
    assert!(iter.next().is_none());
}

#[test]
fn element_err_13() {
    let tokens = collect_tokens("\
<root>
</root>
</root>");
    let mut iter = tokens.iter();
    assert_eq!(*iter.next().unwrap(), Token::ElementStart("", "root", 0));
    assert_eq!(*iter.next().unwrap(), Token::ElementEnd(ElementEnd::Open, 5..6));
    assert_eq!(*iter.next().unwrap(), Token::Text("\n", 6..7));
    assert_eq!(*iter.next().unwrap(), Token::ElementEnd(ElementEnd::Close("", "root"), 7..14));
    assert_eq!(*iter.next().unwrap(), Token::Error("unknown token at 3:1".to_string()));
    assert!(iter.next().is_none());
}

#[test]
fn element_err_14() {
    let tokens = collect_tokens("<-svg/>");
    let mut iter = tokens.iter();
    assert_eq!(*iter.next().unwrap(), Token::Error("invalid name token at 1:2".to_string()));
    assert!(iter.next().is_none());
}

#[test]
fn element_err_15() {
    let tokens = collect_tokens("<svg:-svg/>");
    let mut iter = tokens.iter();
    assert_eq!(*iter.next().unwrap(), Token::Error("invalid name token at 1:2".to_string()));
    assert!(iter.next().is_none());
}

#[test]
fn element_err_16() {
    let tokens = collect_tokens("<svg::svg/>");
    let mut iter = tokens.iter();
    assert_eq!(*iter.next().unwrap(), Token::Error("invalid name token at 1:2".to_string()));
    assert!(iter.next().is_none());
}

#[test]
fn element_err_17() {
    let tokens = collect_tokens("<svg:s:vg/>");
    let mut iter = tokens.iter();
    assert_eq!(*iter.next().unwrap(), Token::Error("invalid name token at 1:2".to_string()));
    assert!(iter.next().is_none());
}

#[test]
fn element_err_18() {
    let tokens = collect_tokens("<::svg/>");
    let mut iter = tokens.iter();
    assert_eq!(*iter.next().unwrap(), Token::Error("invalid name token at 1:2".to_string()));
    assert!(iter.next().is_none());
}

#[test]
fn element_err_19() {
    let tokens = collect_tokens("<a><");
    let mut iter = tokens.iter();
    assert_eq!(*iter.next().unwrap(), Token::ElementStart("", "a", 0));
    assert_eq!(*iter.next().unwrap(), Token::ElementEnd(ElementEnd::Open, 2..3));
    assert_eq!(*iter.next().unwrap(), Token::Error("unknown token at 1:4".to_string()));
    assert!(iter.next().is_none());
}

#[test]
fn attribute_01() {
    let tokens = collect_tokens("<a ax=\"test\"/>");
    let mut iter = tokens.iter();
    assert_eq!(*iter.next().unwrap(), Token::ElementStart("", "a", 0));
    assert_eq!(*iter.next().unwrap(), Token::Attribute("", "ax", "test"));
    assert_eq!(*iter.next().unwrap(), Token::ElementEnd(ElementEnd::Empty, 12..14));
    assert!(iter.next().is_none());
}

#[test]
fn attribute_02() {
    let tokens = collect_tokens("<a ax='test'/>");
    let mut iter = tokens.iter();
    assert_eq!(*iter.next().unwrap(), Token::ElementStart("", "a", 0));
    assert_eq!(*iter.next().unwrap(), Token::Attribute("", "ax", "test"));
    assert_eq!(*iter.next().unwrap(), Token::ElementEnd(ElementEnd::Empty, 12..14));
    assert!(iter.next().is_none());
}

#[test]
fn attribute_03() {
    let tokens = collect_tokens("<a b='test1' c=\"test2\"/>");
    let mut iter = tokens.iter();
    assert_eq!(*iter.next().unwrap(), Token::ElementStart("", "a", 0));
    assert_eq!(*iter.next().unwrap(), Token::Attribute("", "b", "test1"));
    assert_eq!(*iter.next().unwrap(), Token::Attribute("", "c", "test2"));
    assert_eq!(*iter.next().unwrap(), Token::ElementEnd(ElementEnd::Empty, 22..24));
    assert!(iter.next().is_none());
}

#[test]
fn attribute_04() {
    let tokens = collect_tokens("<a b='\"test1\"' c=\"'test2'\"/>");
    let mut iter = tokens.iter();
    assert_eq!(*iter.next().unwrap(), Token::ElementStart("", "a", 0));
    assert_eq!(*iter.next().unwrap(), Token::Attribute("", "b", "\"test1\""));
    assert_eq!(*iter.next().unwrap(), Token::Attribute("", "c", "'test2'"));
    assert_eq!(*iter.next().unwrap(), Token::ElementEnd(ElementEnd::Empty, 26..28));
    assert!(iter.next().is_none());
}

#[test]
fn attribute_05() {
    let tokens = collect_tokens("<c a=\"test1' c='test2\" b='test1\" c=\"test2'/>");
    let mut iter = tokens.iter();
    assert_eq!(*iter.next().unwrap(), Token::ElementStart("", "c", 0));
    assert_eq!(*iter.next().unwrap(), Token::Attribute("", "a", "test1' c='test2"));
    assert_eq!(*iter.next().unwrap(), Token::Attribute("", "b", "test1\" c=\"test2"));
    assert_eq!(*iter.next().unwrap(), Token::ElementEnd(ElementEnd::Empty, 42..44));
    assert!(iter.next().is_none());
}

#[test]
fn attribute_06() {
    let tokens = collect_tokens("<c   a   =    'test1'     />");
    let mut iter = tokens.iter();
    assert_eq!(*iter.next().unwrap(), Token::ElementStart("", "c", 0));
    assert_eq!(*iter.next().unwrap(), Token::Attribute("", "a", "test1"));
    assert_eq!(*iter.next().unwrap(), Token::ElementEnd(ElementEnd::Empty, 26..28));
    assert!(iter.next().is_none());
}

#[test]
fn attribute_07() {
    let tokens = collect_tokens("<c q:a='b'/>");
    let mut iter = tokens.iter();
    assert_eq!(*iter.next().unwrap(), Token::ElementStart("", "c", 0));
    assert_eq!(*iter.next().unwrap(), Token::Attribute("q", "a", "b"));
    assert_eq!(*iter.next().unwrap(), Token::ElementEnd(ElementEnd::Empty, 10..12));
    assert!(iter.next().is_none());
}

#[test]
fn attribute_err_01() {
    let tokens = collect_tokens("<c az=test>");
    let mut iter = tokens.iter();
    assert_eq!(*iter.next().unwrap(), Token::ElementStart("", "c", 0));
    assert_eq!(*iter.next().unwrap(), Token::Error("expected a quote not 't' at 1:7".to_string()));
    assert!(iter.next().is_none());
}

#[test]
fn attribute_err_02() {
    let tokens = collect_tokens("<c a>");
    let mut iter = tokens.iter();
    assert_eq!(*iter.next().unwrap(), Token::ElementStart("", "c", 0));
    assert_eq!(*iter.next().unwrap(), Token::Error("expected \'=\' not \'>\' at 1:5".to_string()));
    assert!(iter.next().is_none());
}

#[test]
fn attribute_err_03() {
    let tokens = collect_tokens("<c a/>");
    let mut iter = tokens.iter();
    assert_eq!(*iter.next().unwrap(), Token::ElementStart("", "c", 0));
    assert_eq!(*iter.next().unwrap(), Token::Error("expected '=' not '/' at 1:5".to_string()));
    assert!(iter.next().is_none());
}

#[test]
fn attribute_err_04() {
    let tokens = collect_tokens("<c a='b' q/>");
    let mut iter = tokens.iter();
    assert_eq!(*iter.next().unwrap(), Token::ElementStart("", "c", 0));
    assert_eq!(*iter.next().unwrap(), Token::Attribute("", "a", "b"));
    assert_eq!(*iter.next().unwrap(), Token::Error("expected '=' not '/' at 1:11".to_string()));
    assert!(iter.next().is_none());
}

#[test]
fn attribute_err_05() {
    let tokens = collect_tokens("<c a='<'/>");
    let mut iter = tokens.iter();
    assert_eq!(*iter.next().unwrap(), Token::ElementStart("", "c", 0));
    assert_eq!(*iter.next().unwrap(), Token::Error("expected ''' not '<' at 1:7".to_string()));
    assert!(iter.next().is_none());
}

#[test]
fn attribute_err_06() {
    let tokens = collect_tokens("<c a='\u{1}'/>");
    let mut iter = tokens.iter();
    assert_eq!(*iter.next().unwrap(), Token::ElementStart("", "c", 0));
    assert_eq!(*iter.next().unwrap(), Token::Error("a non-XML character '\\u{1}' found at 1:7".to_string()));
    assert!(iter.next().is_none());
}

#[test]
fn attribute_err_07() {
    let tokens = collect_tokens("<c a='v'b='v'/>");
    let mut iter = tokens.iter();
    assert_eq!(*iter.next().unwrap(), Token::ElementStart("", "c", 0));
    assert_eq!(*iter.next().unwrap(), Token::Attribute("", "a", "v"));
    assert_eq!(*iter.next().unwrap(), Token::Error("expected a whitespace not 'b' at 1:9".to_string()));
    assert!(iter.next().is_none());
}

#[test]
fn pi_01() {
    let tokens = collect_tokens("<?xslt ma?>");
    let mut iter = tokens.iter();
    assert_eq!(*iter.next().unwrap(), Token::PI("xslt", Some("ma"), 0..11));
    assert!(iter.next().is_none());
}

#[test]
fn pi_02() {
    let tokens = collect_tokens("<?xslt \t\n m?>");
    let mut iter = tokens.iter();
    assert_eq!(*iter.next().unwrap(), Token::PI("xslt", Some("m"), 0..13));
    assert!(iter.next().is_none());
}

#[test]
fn pi_03() {
    let tokens = collect_tokens("<?xslt?>");
    let mut iter = tokens.iter();
    assert_eq!(*iter.next().unwrap(), Token::PI("xslt", None, 0..8));
    assert!(iter.next().is_none());
}

#[test]
fn pi_04() {
    let tokens = collect_tokens("<?xslt ?>");
    let mut iter = tokens.iter();
    assert_eq!(*iter.next().unwrap(), Token::PI("xslt", None, 0..9));
    assert!(iter.next().is_none());
}

#[test]
fn pi_05() {
    let tokens = collect_tokens("<?xml-stylesheet?>");
    let mut iter = tokens.iter();
    assert_eq!(*iter.next().unwrap(), Token::PI("xml-stylesheet", None, 0..18));
    assert!(iter.next().is_none());
}

#[test]
fn pi_err_01() {
    let tokens = collect_tokens("<??xml \t\n m?>");
    let mut iter = tokens.iter();
    assert_eq!(*iter.next().unwrap(), Token::Error("invalid name token at 1:3".to_string()));
    assert!(iter.next().is_none());
}

#[test]
fn declaration_01() {
    let tokens = collect_tokens("<?xml version=\"1.0\"?>");
    let mut iter = tokens.iter();
    assert!(iter.next().is_none());
}

#[test]
fn declaration_02() {
    let tokens = collect_tokens("<?xml version='1.0'?>");
    let mut iter = tokens.iter();
    assert!(iter.next().is_none());
}

#[test]
fn declaration_03() {
    let tokens = collect_tokens("<?xml version='1.0' encoding=\"UTF-8\"?>");
    let mut iter = tokens.iter();
    assert!(iter.next().is_none());
}

#[test]
fn declaration_04() {
    let tokens = collect_tokens("<?xml version='1.0' encoding='UTF-8'?>");
    let mut iter = tokens.iter();
    assert!(iter.next().is_none());
}

#[test]
fn declaration_05() {
    let tokens = collect_tokens("<?xml version='1.0' encoding='utf-8'?>");
    let mut iter = tokens.iter();
    assert!(iter.next().is_none());
}

#[test]
fn declaration_06() {
    let tokens = collect_tokens("<?xml version='1.0' encoding='EUC-JP'?>");
    let mut iter = tokens.iter();
    assert!(iter.next().is_none());
}

#[test]
fn declaration_07() {
    let tokens = collect_tokens("<?xml version='1.0' encoding='UTF-8' standalone='yes'?>");
    let mut iter = tokens.iter();
    assert!(iter.next().is_none());
}

#[test]
fn declaration_08() {
    let tokens = collect_tokens("<?xml version='1.0' encoding='UTF-8' standalone='no'?>");
    let mut iter = tokens.iter();
    assert!(iter.next().is_none());
}

#[test]
fn declaration_09() {
    let tokens = collect_tokens("<?xml version='1.0' standalone='no'?>");
    let mut iter = tokens.iter();
    assert!(iter.next().is_none());
}

#[test]
fn declaration_10() {
    let tokens = collect_tokens("<?xml version='1.0' standalone='no' ?>");
    let mut iter = tokens.iter();
    assert!(iter.next().is_none());
}

#[test]
fn declaration_err_01() {
    let tokens = collect_tokens("<?xml encoding='UTF-8' version='1.0'?>");
    let mut iter = tokens.iter();
    assert_eq!(*iter.next().unwrap(), Token::Error("expected 'version' at 1:7".to_string()));
    assert!(iter.next().is_none());
}

#[test]
fn declaration_err_05() {
    let tokens = collect_tokens("<?xml version='1.0' yes='true'?>");
    let mut iter = tokens.iter();
    assert_eq!(*iter.next().unwrap(), Token::Error("expected '?>' at 1:21".to_string()));
    assert!(iter.next().is_none());
}

#[test]
fn declaration_err_06() {
    let tokens = collect_tokens("<?xml version='1.0' encoding='UTF-8' standalone='yes' yes='true'?>");
    let mut iter = tokens.iter();
    assert_eq!(*iter.next().unwrap(), Token::Error("expected '?>' at 1:55".to_string()));
    assert!(iter.next().is_none());
}

#[test]
fn declaration_err_07() {
    let tokens = collect_tokens("\u{000a}<?xml\u{000a}&jg'];");
    let mut iter = tokens.iter();
    assert_eq!(*iter.next().unwrap(), Token::Error("expected '?>' at 3:7".to_string()));
    assert!(iter.next().is_none());
}

#[test]
fn declaration_err_08() {
    let tokens = collect_tokens("<?xml \t\n ?m?>");
    let mut iter = tokens.iter();
    assert_eq!(*iter.next().unwrap(), Token::Error("expected 'version' at 2:2".to_string()));
    assert!(iter.next().is_none());
}

#[test]
fn declaration_err_09() {
    let tokens = collect_tokens("<?xml \t\n m?>");
    let mut iter = tokens.iter();
    assert_eq!(*iter.next().unwrap(), Token::Error("expected 'version' at 2:2".to_string()));
    assert!(iter.next().is_none());
}

#[test]
fn declaration_err_10() {
    let tokens = collect_tokens(" <?xml version='1.0'?>");
    let mut iter = tokens.iter();
    assert_eq!(*iter.next().unwrap(), Token::Error("unexpected XML declaration at 1:2".to_string()));
    assert!(iter.next().is_none());
}

#[test]
fn declaration_err_11() {
    let tokens = collect_tokens("<!-- comment --><?xml version='1.0'?>");
    let mut iter = tokens.iter();
    assert_eq!(*iter.next().unwrap(), Token::Comment(" comment ", 0..16));
    assert_eq!(*iter.next().unwrap(), Token::Error("unexpected XML declaration at 1:17".to_string()));
    assert!(iter.next().is_none());
}

#[test]
fn declaration_err_12() {
    let tokens = collect_tokens("<?xml version='1.0'?><?xml version='1.0'?>");
    let mut iter = tokens.iter();
    assert_eq!(*iter.next().unwrap(), Token::Error("unexpected XML declaration at 1:22".to_string()));
    assert!(iter.next().is_none());
}

#[test]
fn declaration_err_13() {
    let tokens = collect_tokens("<?target \u{1}content>");
    let mut iter = tokens.iter();
    assert_eq!(*iter.next().unwrap(), Token::Error("a non-XML character '\\u{1}' found at 1:10".to_string()));
    assert!(iter.next().is_none());
}

#[test]
fn declaration_err_14() {
    let tokens = collect_tokens("<?xml version='1.0'encoding='UTF-8'?>");
    let mut iter = tokens.iter();
    assert_eq!(*iter.next().unwrap(), Token::Error("expected a whitespace not 'e' at 1:20".to_string()));
    assert!(iter.next().is_none());
}

#[test]
fn declaration_err_15() {
    let tokens = collect_tokens("<?xml version='1.0' encoding='UTF-8'standalone='yes'?>");
    let mut iter = tokens.iter();
    assert_eq!(*iter.next().unwrap(), Token::Error("expected a whitespace not 's' at 1:37".to_string()));
    assert!(iter.next().is_none());
}

#[test]
fn declaration_err_16() {
    let tokens = collect_tokens("<?xml version='1.0'");
    let mut iter = tokens.iter();
    assert_eq!(*iter.next().unwrap(), Token::Error("expected '?>' at 1:20".to_string()));
    assert!(iter.next().is_none());
}

#[test]
fn text_01() {
    let tokens = collect_tokens("<p>text</p>");
    let mut iter = tokens.iter();
    assert_eq!(*iter.next().unwrap(), Token::ElementStart("", "p", 0));
    assert_eq!(*iter.next().unwrap(), Token::ElementEnd(ElementEnd::Open, 2..3));
    assert_eq!(*iter.next().unwrap(), Token::Text("text", 3..7));
    assert_eq!(*iter.next().unwrap(), Token::ElementEnd(ElementEnd::Close("", "p"), 7..11));
    assert!(iter.next().is_none());
}

#[test]
fn text_02() {
    let tokens = collect_tokens("<p> text </p>");
    let mut iter = tokens.iter();
    assert_eq!(*iter.next().unwrap(), Token::ElementStart("", "p", 0));
    assert_eq!(*iter.next().unwrap(), Token::ElementEnd(ElementEnd::Open, 2..3));
    assert_eq!(*iter.next().unwrap(), Token::Text(" text ", 3..9));
    assert_eq!(*iter.next().unwrap(), Token::ElementEnd(ElementEnd::Close("", "p"), 9..13));
    assert!(iter.next().is_none());
}

#[test]
fn text_03() {
    let tokens = collect_tokens("<p>欄</p>");
    let mut iter = tokens.iter();
    assert_eq!(*iter.next().unwrap(), Token::ElementStart("", "p", 0));
    assert_eq!(*iter.next().unwrap(), Token::ElementEnd(ElementEnd::Open, 2..3));
    assert_eq!(*iter.next().unwrap(), Token::Text("欄", 3..6));
    assert_eq!(*iter.next().unwrap(), Token::ElementEnd(ElementEnd::Close("", "p"), 6..10));
    assert!(iter.next().is_none());
}

#[test]
fn text_04() {
    let tokens = collect_tokens("<p> </p>");
    let mut iter = tokens.iter();
    assert_eq!(*iter.next().unwrap(), Token::ElementStart("", "p", 0));
    assert_eq!(*iter.next().unwrap(), Token::ElementEnd(ElementEnd::Open, 2..3));
    assert_eq!(*iter.next().unwrap(), Token::Text(" ", 3..4));
    assert_eq!(*iter.next().unwrap(), Token::ElementEnd(ElementEnd::Close("", "p"), 4..8));
    assert!(iter.next().is_none());
}

#[test]
fn text_05() {
    let tokens = collect_tokens("<p> \r\n\t </p>");
    let mut iter = tokens.iter();
    assert_eq!(*iter.next().unwrap(), Token::ElementStart("", "p", 0));
    assert_eq!(*iter.next().unwrap(), Token::ElementEnd(ElementEnd::Open, 2..3));
    assert_eq!(*iter.next().unwrap(), Token::Text(" \r\n\t ", 3..8));
    assert_eq!(*iter.next().unwrap(), Token::ElementEnd(ElementEnd::Close("", "p"), 8..12));
    assert!(iter.next().is_none());
}

#[test]
fn text_06() {
    let tokens = collect_tokens("<p>&#x20;</p>");
    let mut iter = tokens.iter();
    assert_eq!(*iter.next().unwrap(), Token::ElementStart("", "p", 0));
    assert_eq!(*iter.next().unwrap(), Token::ElementEnd(ElementEnd::Open, 2..3));
    assert_eq!(*iter.next().unwrap(), Token::Text("&#x20;", 3..9));
    assert_eq!(*iter.next().unwrap(), Token::ElementEnd(ElementEnd::Close("", "p"), 9..13));
    assert!(iter.next().is_none());
}

#[test]
fn text_07() {
    let tokens = collect_tokens("<p>]></p>");
    let mut iter = tokens.iter();
    assert_eq!(*iter.next().unwrap(), Token::ElementStart("", "p", 0));
    assert_eq!(*iter.next().unwrap(), Token::ElementEnd(ElementEnd::Open, 2..3));
    assert_eq!(*iter.next().unwrap(), Token::Text("]>", 3..5));
    assert_eq!(*iter.next().unwrap(), Token::ElementEnd(ElementEnd::Close("", "p"), 5..9));
    assert!(iter.next().is_none());
}

#[test]
fn text_err_01() {
    let tokens = collect_tokens("<p>]]></p>");
    let mut iter = tokens.iter();
    assert_eq!(*iter.next().unwrap(), Token::ElementStart("", "p", 0));
    assert_eq!(*iter.next().unwrap(), Token::ElementEnd(ElementEnd::Open, 2..3));
    assert_eq!(*iter.next().unwrap(), Token::Error("']]>' at 1:7 is not allowed inside a character data".to_string()));
    assert!(iter.next().is_none());
}

#[test]
fn text_err_02() {
    let tokens = collect_tokens("<p>\u{0c}</p>");
    let mut iter = tokens.iter();
    assert_eq!(*iter.next().unwrap(), Token::ElementStart("", "p", 0));
    assert_eq!(*iter.next().unwrap(), Token::ElementEnd(ElementEnd::Open, 2..3));
    assert_eq!(*iter.next().unwrap(), Token::Error("a non-XML character '\\u{c}' found at 1:4".to_string()));
    assert!(iter.next().is_none());
}

#[test]
fn comment_err_01() {
    let text = "<!----!>";
    let mut collector = EventsCollector { tokens: Vec::new() };
    assert!(tokenizer::parse(text, true, &mut collector).is_err());
}

#[test]
fn comment_err_02() {
    let text = "<!----!";
    let mut collector = EventsCollector { tokens: Vec::new() };
    assert!(tokenizer::parse(text, true, &mut collector).is_err());
}

#[test]
fn comment_err_03() {
    let text = "<!----";
    let mut collector = EventsCollector { tokens: Vec::new() };
    assert!(tokenizer::parse(text, true, &mut collector).is_err());
}

#[test]
fn comment_err_04() {
    let text = "<!--->";
    let mut collector = EventsCollector { tokens: Vec::new() };
    assert!(tokenizer::parse(text, true, &mut collector).is_err());
}

#[test]
fn comment_err_05() {
    let text = "<!-----";
    let mut collector = EventsCollector { tokens: Vec::new() };
    assert!(tokenizer::parse(text, true, &mut collector).is_err());
}

#[test]
fn comment_err_06() {
    let text = "<!-->";
    let mut collector = EventsCollector { tokens: Vec::new() };
    assert!(tokenizer::parse(text, true, &mut collector).is_err());
}

#[test]
fn comment_err_07() {
    let text = "<!--";
    let mut collector = EventsCollector { tokens: Vec::new() };
    assert!(tokenizer::parse(text, true, &mut collector).is_err());
}

#[test]
fn comment_err_08() {
    let text = "<!--x";
    let mut collector = EventsCollector { tokens: Vec::new() };
    assert!(tokenizer::parse(text, true, &mut collector).is_err());
}

#[test]
fn comment_err_09() {
    let text = "<!--<";
    let mut collector = EventsCollector { tokens: Vec::new() };
    assert!(tokenizer::parse(text, true, &mut collector).is_err());
}

#[test]
fn comment_err_10() {
    let text = "<!--<!";
    let mut collector = EventsCollector { tokens: Vec::new() };
    assert!(tokenizer::parse(text, true, &mut collector).is_err());
}

#[test]
fn comment_err_11() {
    let text = "<!--<!-";
    let mut collector = EventsCollector { tokens: Vec::new() };
    assert!(tokenizer::parse(text, true, &mut collector).is_err());
}

#[test]
fn comment_err_12() {
    let text = "<!--<!--";
    let mut collector = EventsCollector { tokens: Vec::new() };
    assert!(tokenizer::parse(text, true, &mut collector).is_err());
}

#[test]
fn comment_err_13() {
    let text = "<!--<!--!";
    let mut collector = EventsCollector { tokens: Vec::new() };
    assert!(tokenizer::parse(text, true, &mut collector).is_err());
}

#[test]
fn comment_err_14() {
    let text = "<!--<!--!>";
    let mut collector = EventsCollector { tokens: Vec::new() };
    assert!(tokenizer::parse(text, true, &mut collector).is_err());
}

#[test]
fn comment_err_15() {
    let text = "<!--<!---";
    let mut collector = EventsCollector { tokens: Vec::new() };
    assert!(tokenizer::parse(text, true, &mut collector).is_err());
}

#[test]
fn comment_err_16() {
    let text = "<!--<!--x";
    let mut collector = EventsCollector { tokens: Vec::new() };
    assert!(tokenizer::parse(text, true, &mut collector).is_err());
}

#[test]
fn comment_err_17() {
    let text = "<!--<!--x-";
    let mut collector = EventsCollector { tokens: Vec::new() };
    assert!(tokenizer::parse(text, true, &mut collector).is_err());
}

#[test]
fn comment_err_18() {
    let text = "<!--<!--x--";
    let mut collector = EventsCollector { tokens: Vec::new() };
    assert!(tokenizer::parse(text, true, &mut collector).is_err());
}

#[test]
fn comment_err_19() {
    let text = "<!--<!--x-->";
    let mut collector = EventsCollector { tokens: Vec::new() };
    assert!(tokenizer::parse(text, true, &mut collector).is_err());
}

#[test]
fn comment_err_20() {
    let text = "<!--<!-x";
    let mut collector = EventsCollector { tokens: Vec::new() };
    assert!(tokenizer::parse(text, true, &mut collector).is_err());
}

#[test]
fn comment_err_21() {
    let text = "<!--<!-x-";
    let mut collector = EventsCollector { tokens: Vec::new() };
    assert!(tokenizer::parse(text, true, &mut collector).is_err());
}

#[test]
fn comment_err_22() {
    let text = "<!--<!-x--";
    let mut collector = EventsCollector { tokens: Vec::new() };
    assert!(tokenizer::parse(text, true, &mut collector).is_err());
}

#[test]
fn comment_err_23() {
    let text = "<!--<!x";
    let mut collector = EventsCollector { tokens: Vec::new() };
    assert!(tokenizer::parse(text, true, &mut collector).is_err());
}

#[test]
fn comment_err_24() {
    let text = "<!--<!x-";
    let mut collector = EventsCollector { tokens: Vec::new() };
    assert!(tokenizer::parse(text, true, &mut collector).is_err());
}

#[test]
fn comment_err_25() {
    let text = "<!--<!x--";
    let mut collector = EventsCollector { tokens: Vec::new() };
    assert!(tokenizer::parse(text, true, &mut collector).is_err());
}

#[test]
fn comment_err_26() {
    let text = "<!--<<!--x-->";
    let mut collector = EventsCollector { tokens: Vec::new() };
    assert!(tokenizer::parse(text, true, &mut collector).is_err());
}

#[test]
fn comment_err_27() {
    let text = "<!--<!<!--x-->";
    let mut collector = EventsCollector { tokens: Vec::new() };
    assert!(tokenizer::parse(text, true, &mut collector).is_err());
}

#[test]
fn comment_err_28() {
    let text = "<!--<!-<!--x-->";
    let mut collector = EventsCollector { tokens: Vec::new() };
    assert!(tokenizer::parse(text, true, &mut collector).is_err());
}

#[test]
fn comment_err_29() {
    let text = "<!----!->";
    let mut collector = EventsCollector { tokens: Vec::new() };
    assert!(tokenizer::parse(text, true, &mut collector).is_err());
}

#[test]
fn comment_err_30() {
    let text = "<!----!x>";
    let mut collector = EventsCollector { tokens: Vec::new() };
    assert!(tokenizer::parse(text, true, &mut collector).is_err());
}

#[test]
fn comment_err_31() {
    let text = "<!-----x>";
    let mut collector = EventsCollector { tokens: Vec::new() };
    assert!(tokenizer::parse(text, true, &mut collector).is_err());
}

#[test]
fn comment_err_32() {
    let text = "<!----->";
    let mut collector = EventsCollector { tokens: Vec::new() };
    assert!(tokenizer::parse(text, true, &mut collector).is_err());
}

#[test]
fn comment_err_33() {
    let text = "<!------>";
    let mut collector = EventsCollector { tokens: Vec::new() };
    assert!(tokenizer::parse(text, true, &mut collector).is_err());
}

#[test]
fn comment_err_34() {
    let text = "<!-- --->";
    let mut collector = EventsCollector { tokens: Vec::new() };
    assert!(tokenizer::parse(text, true, &mut collector).is_err());
}

#[test]
fn comment_err_35() {
    let text = "<!--a--->";
    let mut collector = EventsCollector { tokens: Vec::new() };
    assert!(tokenizer::parse(text, true, &mut collector).is_err());
}

#[test]
fn content_ends_behind_the_close_tag() {
    let mut s = Stream::new("a</p>rest");
    let mut collector = EventsCollector { tokens: Vec::new() };
    assert!(tokenizer::parse_content(&mut s, &mut collector).is_ok());
    assert_eq!(
        collector.tokens,
        vec![Token::Text("a", 0..1), Token::ElementEnd(ElementEnd::Close("", "p"), 1..5)]
    );
    assert_eq!(s.pos(), 5);
}

struct Refusing {
    taken: usize,
    limit: usize,
}

impl<'a> XmlEvents<'a> for Refusing {
    fn token(&mut self, _: tokenizer::Token<'a>) -> Result<(), Error> {
        self.taken += 1;
        if self.taken > self.limit {
            Err(Error::NoRootNode)
        } else {
            Ok(())
        }
    }
}

#[test]
fn the_error_of_the_consumer_ends_the_parsing() {
    // The consumer is handed the tokens up to the one that it refuses.
    let mut refusing = Refusing { taken: 0, limit: 1 };
    assert_eq!(tokenizer::parse("<a></a></a>", true, &mut refusing), Err(Error::NoRootNode));
    assert_eq!(refusing.taken, 2);
    // A consumer that takes every token gets them all, and the error of the tokens.
    let mut taking = Refusing { taken: 0, limit: 100 };
    assert_eq!(
        tokenizer::parse("<a></a></a>", true, &mut taking),
        Err(Error::UnknownToken(TextPos::new(1, 8)))
    );
    assert_eq!(taking.taken, 3);
    let mut none = Refusing { taken: 0, limit: 0 };
    assert_eq!(tokenizer::parse("", true, &mut none), Ok(()));
    assert_eq!(none.taken, 0);
}

#[test]
fn references_at_the_stream() {
    let mut s = Stream::new("&name;&#x41;&lt;x&;");
    assert!(matches!(s.try_consume_reference(), Some(Reference::Entity("name"))));
    assert_eq!(s.pos(), 6);
    assert!(matches!(s.try_consume_reference(), Some(Reference::Char('A'))));
    assert_eq!(s.pos(), 12);
    assert!(matches!(s.try_consume_reference(), Some(Reference::Char('<'))));
    assert_eq!(s.pos(), 16);
    // No reference stands here, and the stream stays where it is.
    assert!(s.try_consume_reference().is_none());
    assert_eq!(s.pos(), 16);
    s.advance(1);
    assert!(s.try_consume_reference().is_none());
    assert_eq!(s.pos(), 17);
}

#[test]
fn tokens_by_spans_and_by_texts() {
    let text = "<n:a b='c'>t</n:a>";
    let mut tokens = Vec::new();
    assert!(tokenizer::tokenize(text, false, &mut tokens).is_ok());
    assert_eq!(tokens.len(), 5);
    match tokens[0] {
        tokenizer::SpanToken::ElementStart(prefix, local, start) => {
            assert_eq!((prefix.start, prefix.end), (1, 2));
            assert_eq!((local.start, local.end), (3, 4));
            assert_eq!(start, 0);
            assert_eq!(prefix.str_in(text), "n");
            assert_eq!(local.slice_in(text).as_str(), "a");
            assert_eq!(local.slice_in(text).range(), 3..4);
            assert_eq!(local.to_range(), 3..4);
        }
        _ => panic!("no start of an element"),
    }
    match tokens[1].in_text(text) {
        tokenizer::Token::Attribute(range, qname_len, eq_len, prefix, local, value) => {
            assert_eq!(range, 5..10);
            assert_eq!((qname_len, eq_len), (1, 1));
            assert_eq!((prefix, local, value.as_str()), ("", "b", "c"));
            assert_eq!(value.range(), 8..9);
        }
        _ => panic!("no attribute"),
    }
    match tokens[4].in_text(text) {
        tokenizer::Token::ElementEnd(tokenizer::ElementEnd::Close(prefix, local), range) => {
            assert_eq!((prefix, local), ("n", "a"));
            assert_eq!(range, 12..18);
        }
        _ => panic!("no close tag"),
    }
}
