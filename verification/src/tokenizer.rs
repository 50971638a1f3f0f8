//! The tokenizer: the productions of the XML 1.0 grammar, from a stream of
//! bytes to a sequence of tokens.

use core::ops::Range;
use crate::error::{Error, ErrorModel};
use crate::stream::{
    ByteClass, char_run, CharRun, eq_at, expect_byte, expect_spaces, expect_string, has_prefix,
    lemma_ascii_step, lemma_char_run_ge, lemma_name_chars_ge, lemma_prefix_boundary,
    lemma_qname_progress, lemma_run_end_bounds, lemma_run_end_ge, lift, name_at, name_end, qname_at,
    quote_at, run_end, Span, Stop, Stream, StrSpan,
};
use crate::strings::{lemma_char_at, slice_str, width_at};
use crate::textpos::text_pos;
use crate::xmlchar::spec_is_xml_space;
use vstd::prelude::*;
use vstd::string::*;
use vstd::utf8::*;

verus! {

/// The end of a tag, with the texts of a close tag by their spans.
#[derive(Clone, Copy, Debug, PartialEq, Eq)]
pub enum SpanEnd {
    /// Indicates `>`
    Open,
    /// Indicates `</ns:name>`, with the spans of prefix and local name.
    Close(Span, Span),
    /// Indicates `/>`
    Empty,
}

/// A lexical token by its place in the input: each text is given by its span.
#[derive(Clone, Copy, Debug, PartialEq, Eq)]
pub enum SpanToken {
    /// `<?target content?>`: target, content, range of the whole.
    ProcessingInstruction(Span, Option<Span>, Span),
    /// `<!-- text -->`: text, range of the whole.
    Comment(Span, Span),
    /// `<!ENTITY ns_extend "http://test.com">`: name, value.
    EntityDeclaration(Span, Span),
    /// `<ns:elem`: prefix, local name, position of `<`.
    ElementStart(Span, Span, usize),
    /// `ns:attr="value"`: range of the whole, length of the qualified name,
    /// length of `=` with the spaces around it, prefix, local name, value.
    Attribute(Span, u16, u8, Span, Span, Span),
    /// The end of a tag, and its range.
    ElementEnd(SpanEnd, Span),
    /// Contains text between elements including whitespaces.
    /// Basically everything between `>` and `<`.
    /// Except `]]>`, which is not allowed and will lead to an error.
    Text(Span, Span),
    /// `<![CDATA[text]]>`: text, range of the whole.
    Cdata(Span, Span),
}

impl SpanToken {
    /// Every span of the token lies in `b`, between character boundaries.
    pub open spec fn wf(self, b: Seq<u8>) -> bool {
        match self {
            SpanToken::ProcessingInstruction(target, value, range) => {
                &&& target.wf(b)
                &&& range.wf(b)
                &&& match value {
                    Some(v) => v.wf(b),
                    None => true,
                }
            },
            SpanToken::Comment(text, range) => text.wf(b) && range.wf(b),
            SpanToken::EntityDeclaration(name, value) => name.wf(b) && value.wf(b),
            SpanToken::ElementStart(prefix, local, start) => {
                &&& prefix.wf(b)
                &&& local.wf(b)
                &&& start < b.len()
                &&& local.start < local.end
            },
            SpanToken::Attribute(range, _, _, prefix, local, value) => {
                &&& range.wf(b)
                &&& prefix.wf(b)
                &&& local.wf(b)
                &&& value.wf(b)
                &&& local.start < local.end
            },
            SpanToken::ElementEnd(end, range) => {
                &&& range.wf(b)
                &&& match end {
                    SpanEnd::Close(prefix, local) => prefix.wf(b) && local.wf(b),
                    _ => true,
                }
            },
            SpanToken::Text(text, range) => text.wf(b) && range.wf(b),
            SpanToken::Cdata(text, range) => text.wf(b) && range.wf(b),
        }
    }
}

/// `ElementEnd` token.
#[derive(Clone, Copy)]
pub enum ElementEnd<'input> {
    /// Indicates `>`
    Open,
    /// Indicates `</ns:name>`
    Close(&'input str, &'input str),
    /// Indicates `/>`
    Empty,
}

/// A lexical token, with its texts as slices of the input.
pub enum Token<'input> {
    /// `<?target content?>`
    ProcessingInstruction(&'input str, Option<&'input str>, Range<usize>),
    /// `<!-- text -->`
    Comment(&'input str, Range<usize>),
    /// `<!ENTITY ns_extend "http://test.com">`
    EntityDeclaration(&'input str, StrSpan<'input>),
    /// `<ns:elem`
    ElementStart(&'input str, &'input str, usize),
    /// `ns:attr="value"`
    Attribute(Range<usize>, u16, u8, &'input str, &'input str, StrSpan<'input>),
    ElementEnd(ElementEnd<'input>, Range<usize>),
    /// Contains text between elements including whitespaces.
    /// Basically everything between `>` and `<`.
    /// Except `]]>`, which is not allowed and will lead to an error.
    Text(&'input str, Range<usize>),
    /// `<![CDATA[text]]>`
    Cdata(&'input str, Range<usize>),
}

/// The text `x` is the part of `b` that the span covers.
pub open spec fn text_is(x: &str, s: Span, b: Seq<u8>) -> bool {
    x.spec_bytes() == s.of(b)
}

/// The range `r` is the span.
pub open spec fn range_is(r: Range<usize>, s: Span) -> bool {
    r.start == s.start && r.end == s.end
}

/// The slice `x` is the part of `b` that the span covers, with its place.
pub open spec fn slice_is(x: StrSpan, s: Span, b: Seq<u8>) -> bool {
    x.text.spec_bytes() == s.of(b) && x.start == s.start
}

impl<'input> ElementEnd<'input> {
    /// The end of a tag is the end `e` of a tag of the text `b`.
    pub open spec fn shows(self, e: SpanEnd, b: Seq<u8>) -> bool {
        match self {
            ElementEnd::Open => e is Open,
            ElementEnd::Close(prefix, local) => e matches SpanEnd::Close(p, l) && text_is(
                prefix,
                p,
                b,
            ) && text_is(local, l, b),
            ElementEnd::Empty => e is Empty,
        }
    }
}

impl<'input> Token<'input> {
    /// The token is the token `t` of the text `b`: it is of the same kind,
    /// its texts are the bytes that the spans of `t` cover, and its ranges
    /// and numbers are those of `t`.
    pub open spec fn shows(self, t: SpanToken, b: Seq<u8>) -> bool {
        match self {
            Token::ProcessingInstruction(target, content, range) => t matches SpanToken::ProcessingInstruction(
                a,
                c,
                r,
            ) && text_is(target, a, b) && range_is(range, r) && match content {
                Some(x) => c matches Some(y) && text_is(x, y, b),
                None => c is None,
            },
            Token::Comment(text, range) => t matches SpanToken::Comment(a, r) && text_is(text, a, b)
                && range_is(range, r),
            Token::EntityDeclaration(name, definition) => t matches SpanToken::EntityDeclaration(
                a,
                d,
            ) && text_is(name, a, b) && slice_is(definition, d, b),
            Token::ElementStart(prefix, local, start) => t matches SpanToken::ElementStart(p, l, at)
                && text_is(prefix, p, b) && text_is(local, l, b) && start == at,
            Token::Attribute(range, qname_len, eq_len, prefix, local, value) => t matches SpanToken::Attribute(
                r,
                q,
                e,
                p,
                l,
                v,
            ) && range_is(range, r) && qname_len == q && eq_len == e && text_is(prefix, p, b)
                && text_is(local, l, b) && slice_is(value, v, b),
            Token::ElementEnd(end, range) => t matches SpanToken::ElementEnd(e, r) && end.shows(e, b)
                && range_is(range, r),
            Token::Text(text, range) => t matches SpanToken::Text(a, r) && text_is(text, a, b)
                && range_is(range, r),
            Token::Cdata(text, range) => t matches SpanToken::Cdata(a, r) && text_is(text, a, b)
                && range_is(range, r),
        }
    }
}

impl Span {
    /// The part of `text` that the span covers.
    pub fn str_in<'input>(self, text: &'input str) -> (r: &'input str)
        requires
            self.wf(text.spec_bytes()),
        ensures
            text_is(r, self, text.spec_bytes()),
    {
        slice_str(text, self.start, self.end)
    }

    /// The span as a range.
    pub fn to_range(self) -> (r: Range<usize>)
        ensures
            range_is(r, self),
    {
        self.start..self.end
    }

    /// The part of `text` that the span covers, with its place.
    pub fn slice_in<'input>(self, text: &'input str) -> (r: StrSpan<'input>)
        requires
            self.wf(text.spec_bytes()),
        ensures
            slice_is(r, self, text.spec_bytes()),
    {
        StrSpan::from_substr(text, self.start, self.end)
    }
}

impl SpanEnd {
    /// The end of a tag with the texts of a close tag as slices of `text`.
    pub fn in_text<'input>(self, text: &'input str) -> (r: ElementEnd<'input>)
        requires
            self matches SpanEnd::Close(prefix, local) ==> prefix.wf(text.spec_bytes()) && local.wf(
                text.spec_bytes(),
            ),
        ensures
            r.shows(self, text.spec_bytes()),
    {
        match self {
            SpanEnd::Open => ElementEnd::Open,
            SpanEnd::Close(prefix, local) => ElementEnd::Close(
                prefix.str_in(text),
                local.str_in(text),
            ),
            SpanEnd::Empty => ElementEnd::Empty,
        }
    }
}

impl SpanToken {
    /// The token with its texts as slices of `text`.
    pub fn in_text<'input>(self, text: &'input str) -> (r: Token<'input>)
        requires
            self.wf(text.spec_bytes()),
        ensures
            r.shows(self, text.spec_bytes()),
    {
        match self {
            SpanToken::ProcessingInstruction(target, content, range) => Token::ProcessingInstruction(
                target.str_in(text),
                match content {
                    Some(c) => Some(c.str_in(text)),
                    None => None,
                },
                range.to_range(),
            ),
            SpanToken::Comment(t, range) => Token::Comment(t.str_in(text), range.to_range()),
            SpanToken::EntityDeclaration(name, definition) => Token::EntityDeclaration(
                name.str_in(text),
                definition.slice_in(text),
            ),
            SpanToken::ElementStart(prefix, local, start) => Token::ElementStart(
                prefix.str_in(text),
                local.str_in(text),
                start,
            ),
            SpanToken::Attribute(range, qname_len, eq_len, prefix, local, value) => Token::Attribute(
                range.to_range(),
                qname_len,
                eq_len,
                prefix.str_in(text),
                local.str_in(text),
                value.slice_in(text),
            ),
            SpanToken::ElementEnd(end, range) => Token::ElementEnd(
                end.in_text(text),
                range.to_range(),
            ),
            SpanToken::Text(t, range) => Token::Text(t.str_in(text), range.to_range()),
            SpanToken::Cdata(t, range) => Token::Cdata(t.str_in(text), range.to_range()),
        }
    }
}

/// The span from `start` to `end`.
pub open spec fn span(start: int, end: int) -> Span {
    Span { start: start as usize, end: end as usize }
}

/// What a production of the grammar gives on a part of the text.
pub struct Lex {
    /// Where the production ends. It has no meaning where `err` is set.
    pub pos: int,
    /// The tokens of the production, up to the error if there is one.
    pub tokens: Seq<SpanToken>,
    /// The error that ended the production.
    pub err: Option<ErrorModel>,
}

impl Lex {
    /// A production that ends at `pos` with the given tokens.
    pub open spec fn ok(pos: int, tokens: Seq<SpanToken>) -> Lex {
        Lex { pos, tokens, err: None }
    }

    /// A production that fails with no token.
    pub open spec fn fail(e: ErrorModel) -> Lex {
        Lex { pos: 0, tokens: Seq::empty(), err: Some(e) }
    }

    /// This production, and `next` behind it unless this one failed.
    pub open spec fn followed_by(self, next: Lex) -> Lex {
        if self.err is Some {
            self
        } else {
            Lex { pos: next.pos, tokens: self.tokens + next.tokens, err: next.err }
        }
    }

    /// This production behind the tokens `acc`.
    pub open spec fn after(self, acc: Seq<SpanToken>) -> Lex {
        Lex { pos: self.pos, tokens: acc + self.tokens, err: self.err }
    }

    /// The two are the same production.
    pub open spec fn same(self, other: Lex) -> bool {
        self.pos == other.pos && self.err == other.err && self.tokens =~= other.tokens
    }

    /// Every token is well-formed in `b`.
    pub open spec fn wf(self, b: Seq<u8>) -> bool {
        tokens_wf(self.tokens, b)
    }
}

/// Every token is well-formed in `b`.
pub open spec fn tokens_wf(tokens: Seq<SpanToken>, b: Seq<u8>) -> bool {
    forall|i: int| 0 <= i < tokens.len() ==> (#[trigger] tokens[i]).wf(b)
}

/// Well-formed tokens behind well-formed tokens are well-formed.
pub proof fn lemma_wf_concat(b: Seq<u8>, acc: Seq<SpanToken>, more: Seq<SpanToken>)
    requires
        tokens_wf(acc, b),
        tokens_wf(more, b),
    ensures
        tokens_wf(acc + more, b),
{
    assert forall|i: int| 0 <= i < (acc + more).len() implies (#[trigger] (acc + more)[i]).wf(
        b,
    ) by {
        if i < acc.len() {
            assert((acc + more)[i] == acc[i]);
        } else {
            assert((acc + more)[i] == more[i - acc.len()]);
        }
    }
}

/// The error of a run of characters that ended at one that XML does not allow.
pub open spec fn non_xml_char(b: Seq<u8>, run: CharRun) -> ErrorModel {
    ErrorModel::NonXmlChar(run.bad->0 as char, text_pos(b, run.pos))
}

/// A stream and a list of tokens are what the production `l` makes of them:
/// the tokens of `l` are appended, and either the stream stands where `l`
/// ends, or the error of `l` is returned.
pub open spec fn produced(
    s0: Stream,
    s1: Stream,
    t0: Seq<SpanToken>,
    t1: Seq<SpanToken>,
    r: Result<(), Error>,
    l: Lex,
) -> bool {
    &&& t1 =~= t0 + l.tokens
    &&& l.wf(s0.bytes())
    &&& lift(r) == match l.err {
        None => Ok::<(), ErrorModel>(()),
        Some(e) => Err(e),
    }
    &&& r is Ok ==> s1.moved(s0, l.pos) && s1.inv() && s0.pos <= s1.pos
}

/// Whether `needle` occurs in `hay`.
pub open spec fn contains(hay: Seq<u8>, needle: Seq<u8>) -> bool {
    exists|i: int| 0 <= i && i + needle.len() <= hay.len() && #[trigger] hay.subrange(
        i,
        i + needle.len(),
    ) == needle
}

/// A comment, from `<!--` on: the text up to the next `-->`. The text holds
/// no `--` and does not end in `-`.
#[verifier::opaque]
pub open spec fn lex_comment(b: Seq<u8>, pos: int, end: int) -> Lex {
    let run = char_run(b, pos + 4, end, Stop::Before("-->"));
    let text = span(pos + 4, run.pos);
    if run.bad is Some {
        Lex::fail(non_xml_char(b, run))
    } else if expect_string(b, run.pos, end, "-->") is Err {
        Lex::fail(expect_string(b, run.pos, end, "-->")->Err_0)
    } else if contains(text.of(b), "--".spec_bytes()) || (text.start < text.end && b[text.end - 1]
        == 0x2d) {
        Lex::fail(ErrorModel::InvalidComment(text_pos(b, pos)))
    } else {
        Lex::ok(run.pos + 3, seq![SpanToken::Comment(text, span(pos, run.pos + 3))])
    }
}

/// A processing instruction, from `<?` on: a name, and behind spaces the
/// content up to the next `?>`. One that starts like an XML declaration is an error.
#[verifier::opaque]
pub open spec fn lex_pi(b: Seq<u8>, pos: int, end: int) -> Lex {
    let target = name_at(b, pos + 2, end);
    let content_start = run_end(b, target->0, end, ByteClass::Space);
    let run = char_run(b, content_start, end, Stop::Before("?>"));
    let content = span(content_start, run.pos);
    if has_prefix(b, pos, end, "<?xml ".spec_bytes()) {
        Lex::fail(ErrorModel::UnexpectedDeclaration(text_pos(b, pos)))
    } else if target is None {
        Lex::fail(ErrorModel::InvalidName(text_pos(b, pos + 2)))
    } else if run.bad is Some {
        Lex::fail(non_xml_char(b, run))
    } else if expect_string(b, run.pos, end, "?>") is Err {
        Lex::fail(expect_string(b, run.pos, end, "?>")->Err_0)
    } else {
        Lex::ok(
            run.pos + 2,
            seq![
                SpanToken::ProcessingInstruction(
                    span(pos + 2, target->0),
                    if content.spec_is_empty() {
                        None
                    } else {
                        Some(content)
                    },
                    span(pos, run.pos + 2),
                ),
            ],
        )
    }
}

/// The lengths of the literals of the grammar.
pub proof fn lemma_literals()
    ensures
        "<!--".spec_bytes().len() == 4,
        "-->".spec_bytes().len() == 3,
        "<?".spec_bytes().len() == 2,
        "?>".spec_bytes().len() == 2,
        "<?xml ".spec_bytes().len() == 6,
        "<![CDATA[".spec_bytes().len() == 9,
        "]]>".spec_bytes().len() == 3,
        "<!DOCTYPE".spec_bytes().len() == 9,
        "<!ENTITY".spec_bytes().len() == 8,
        "]".spec_bytes().len() == 1,
        "SYSTEM".spec_bytes().len() == 6,
        "PUBLIC".spec_bytes().len() == 6,
        "NDATA".spec_bytes().len() == 5,
        "\u{feff}".spec_bytes().len() == 3,
{
    reveal_strlit("<!--");
    reveal_strlit("-->");
    reveal_strlit("<?");
    reveal_strlit("?>");
    reveal_strlit("<?xml ");
    reveal_strlit("<![CDATA[");
    reveal_strlit("]]>");
    reveal_strlit("<!DOCTYPE");
    reveal_strlit("<!ENTITY");
    reveal_strlit("]");
    reveal_strlit("SYSTEM");
    reveal_strlit("PUBLIC");
    reveal_strlit("NDATA");
    reveal_strlit("\u{feff}");
    is_ascii_spec_bytes("<!--");
    is_ascii_spec_bytes("-->");
    is_ascii_spec_bytes("<?");
    is_ascii_spec_bytes("?>");
    is_ascii_spec_bytes("<?xml ");
    is_ascii_spec_bytes("<![CDATA[");
    is_ascii_spec_bytes("]]>");
    is_ascii_spec_bytes("<!DOCTYPE");
    is_ascii_spec_bytes("<!ENTITY");
    is_ascii_spec_bytes("]");
    is_ascii_spec_bytes("SYSTEM");
    is_ascii_spec_bytes("PUBLIC");
    is_ascii_spec_bytes("NDATA");
    assert("\u{feff}".spec_bytes().len() == 3) by {
        let cs = "\u{feff}"@;
        assert(cs.len() == 1);
        assert(cs[0] == '\u{feff}');
        assert(encode_utf8(cs.drop_first()) =~= Seq::<u8>::empty());
        assert(encode_utf8(cs) =~= encode_scalar(cs[0] as u32) + encode_utf8(cs.drop_first()));
    }
}

/// The length of `]`.
pub proof fn lemma_lit_bracket()
    ensures
        "]".spec_bytes().len() == 1,
{
    reveal_strlit("]");
    is_ascii_spec_bytes("]");
}

/// The bytes of `--` and of `]]>`.
pub proof fn lemma_literal_bytes()
    ensures
        "--".spec_bytes() =~= seq![0x2du8, 0x2d],
        "]]>".spec_bytes() =~= seq![0x5du8, 0x5d, 0x3e],
{
    reveal_strlit("--");
    reveal_strlit("]]>");
    is_ascii_spec_bytes("--");
    is_ascii_spec_bytes("]]>");
}

/// Whether the bytes of a span hold `--`.
fn has_double_dash(b: &[u8], text: Span) -> (r: bool)
    requires
        text.start <= text.end <= b@.len(),
    ensures
        r == contains(text.of(b@), "--".spec_bytes()),
{
    proof {
        lemma_literal_bytes();
    }
    let ghost hay = text.of(b@);
    let ghost needle = "--".spec_bytes();
    if text.end - text.start < 2 {
        return false;
    }
    let mut i: usize = text.start;
    while i + 1 < text.end
        invariant
            text.start <= i,
            i + 1 <= text.end <= b@.len(),
            hay == text.of(b@),
            needle == "--".spec_bytes(),
            needle =~= seq![0x2du8, 0x2d],
            forall|k: int| 0 <= k < i - text.start ==> #[trigger] hay.subrange(k, k + 2) != needle,
        decreases text.end - i,
    {
        if b[i] == 0x2d && b[i + 1] == 0x2d {
            proof {
                let k = i - text.start;
                assert(hay.subrange(k, k + 2) =~= needle);
                assert(0 <= k && k + needle.len() <= hay.len() && hay.subrange(
                    k,
                    k + needle.len(),
                ) == needle);
            }
            return true;
        }
        proof {
            let k = i - text.start;
            let sub = hay.subrange(k, k + 2);
            assert(sub[0] == b@[i as int]);
            assert(sub[1] == b@[i + 1]);
        }
        i += 1;
    }
    false
}

/// `<!--` comment `-->`
pub(crate) fn parse_comment(s: &mut Stream, tokens: &mut Vec<SpanToken>) -> (r: Result<(), Error>)
    requires
        old(s).inv(),
        has_prefix(old(s).bytes(), old(s).pos as int, old(s).end as int, "<!--".spec_bytes()),
    ensures
        produced(
            *old(s),
            *final(s),
            old(tokens)@,
            final(tokens)@,
            r,
            lex_comment(old(s).bytes(), old(s).pos as int, old(s).end as int),
        ),
        r is Ok ==> old(s).pos < final(s).pos,
{
    proof {
        reveal(lex_comment);
    }
    let b = s.text.as_bytes();
    let start = s.pos();
    proof {
        lemma_literals();
        s.lemma_valid();
        encode_utf8_valid_utf8("<!--"@);
        lemma_prefix_boundary(b@, s.pos as int, "<!--".spec_bytes());
        assert(old(tokens)@ + Seq::<SpanToken>::empty() =~= old(tokens)@);
    }
    s.advance(4);
    let text = s.consume_chars(Stop::Before("-->"))?;
    s.skip_string("-->")?;
    if has_double_dash(b, text) {
        return Err(Error::InvalidComment(s.gen_text_pos_from(start)));
    }
    if !text.is_empty() && b[text.end - 1] == 0x2d {
        return Err(Error::InvalidComment(s.gen_text_pos_from(start)));
    }
    let range = s.slice_back(start);
    tokens.push(SpanToken::Comment(text, range));
    Ok(())
}

/// `<?` target content `?>`
pub(crate) fn parse_pi(s: &mut Stream, tokens: &mut Vec<SpanToken>) -> (r: Result<(), Error>)
    requires
        old(s).inv(),
        has_prefix(old(s).bytes(), old(s).pos as int, old(s).end as int, "<?".spec_bytes()),
    ensures
        produced(
            *old(s),
            *final(s),
            old(tokens)@,
            final(tokens)@,
            r,
            lex_pi(old(s).bytes(), old(s).pos as int, old(s).end as int),
        ),
        r is Ok ==> old(s).pos < final(s).pos,
{
    proof {
        reveal(lex_pi);
    }
    let b = s.text.as_bytes();
    proof {
        lemma_literals();
        s.lemma_valid();
        encode_utf8_valid_utf8("<?"@);
        lemma_prefix_boundary(b@, s.pos as int, "<?".spec_bytes());
        assert(old(tokens)@ + Seq::<SpanToken>::empty() =~= old(tokens)@);
    }
    if s.starts_with("<?xml ".as_bytes()) {
        return Err(Error::UnexpectedDeclaration(s.gen_text_pos()));
    }
    let start = s.pos();
    s.advance(2);
    let target = s.consume_name()?;
    s.skip_spaces();
    let content = s.consume_chars(Stop::Before("?>"))?;
    let content = if !content.is_empty() {
        Some(content)
    } else {
        None
    };
    s.skip_string("?>")?;
    let range = s.slice_back(start);
    tokens.push(SpanToken::ProcessingInstruction(target, content, range));
    Ok(())
}

/// A comment that does not fail ends behind its start.
pub proof fn lemma_comment_progress(b: Seq<u8>, pos: int, end: int)
    ensures
        lex_comment(b, pos, end).err is None ==> lex_comment(b, pos, end).pos > pos,
{
    reveal(lex_comment);
    lemma_char_run_ge(b, pos + 4, end, Stop::Before("-->"));
}

/// A processing instruction that does not fail ends behind its start.
pub proof fn lemma_pi_progress(b: Seq<u8>, pos: int, end: int)
    ensures
        lex_pi(b, pos, end).err is None ==> lex_pi(b, pos, end).pos > pos,
{
    reveal(lex_pi);
    let target = name_at(b, pos + 2, end);
    let content_start = run_end(b, target->0, end, ByteClass::Space);
    lemma_run_end_ge(b, target->0, end, ByteClass::Space);
    lemma_char_run_ge(b, content_start, end, Stop::Before("?>"));
}

/// `Misc*`: comments, processing instructions and spaces, as many as there are.
#[verifier::opaque]
pub open spec fn lex_misc(b: Seq<u8>, pos: int, end: int) -> Lex
    decreases (if end > pos {
        end - pos
    } else {
        0
    }),
{
    let p = run_end(b, pos, end, ByteClass::Space);
    if pos >= end {
        Lex::ok(pos, Seq::empty())
    } else if has_prefix(b, p, end, "<!--".spec_bytes()) {
        let c = lex_comment(b, p, end);
        if c.err is Some {
            c
        } else {
            proof {
                lemma_run_end_ge(b, pos, end, ByteClass::Space);
                lemma_comment_progress(b, p, end);
            }
            c.followed_by(lex_misc(b, c.pos, end))
        }
    } else if has_prefix(b, p, end, "<?".spec_bytes()) {
        let c = lex_pi(b, p, end);
        if c.err is Some {
            c
        } else {
            proof {
                lemma_run_end_ge(b, pos, end, ByteClass::Space);
                lemma_pi_progress(b, p, end);
            }
            c.followed_by(lex_misc(b, c.pos, end))
        }
    } else {
        Lex::ok(p, Seq::empty())
    }
}

/// `Misc ::= Comment | PI | S`
fn parse_misc(s: &mut Stream, tokens: &mut Vec<SpanToken>) -> (r: Result<(), Error>)
    requires
        old(s).inv(),
    ensures
        produced(
            *old(s),
            *final(s),
            old(tokens)@,
            final(tokens)@,
            r,
            lex_misc(old(s).bytes(), old(s).pos as int, old(s).end as int),
        ),
{
    proof {
        reveal(lex_misc);
    }
    let ghost b = s.bytes();
    let ghost whole = lex_misc(b, s.pos as int, s.end as int);
    let ghost acc = Seq::<SpanToken>::empty();
    while !s.at_end()
        invariant_except_break
            s.pos >= s.end ==> lex_misc(b, s.pos as int, s.end as int).same(
                Lex::ok(s.pos as int, Seq::empty()),
            ),
            whole.same(lex_misc(b, s.pos as int, s.end as int).after(acc)),
        invariant
            s.inv(),
            s.text == old(s).text,
            s.end == old(s).end,
            old(s).pos <= s.pos,
            b == s.bytes(),
            whole == lex_misc(b, old(s).pos as int, old(s).end as int),
            tokens@ =~= old(tokens)@ + acc,
            tokens_wf(acc, b),
        ensures
            whole.same(Lex::ok(s.pos as int, acc)),
        decreases s.end - s.pos,
    {
        proof {
            reveal(lex_misc);
        }
        let ghost here = lex_misc(b, s.pos as int, s.end as int);
        s.skip_spaces();
        if s.starts_with("<!--".as_bytes()) {
            let ghost c = lex_comment(b, s.pos as int, s.end as int);
            proof {
                lemma_comment_progress(b, s.pos as int, s.end as int);
            }
            match parse_comment(s, tokens) {
                Ok(_) => {},
                Err(e) => {
                    proof {
                        lemma_wf_concat(b, acc, c.tokens);
                    }
                    return Err(e);
                },
            }
            proof {
                lemma_wf_concat(b, acc, c.tokens);
                acc = acc + c.tokens;
            }
        } else if s.starts_with("<?".as_bytes()) {
            let ghost c = lex_pi(b, s.pos as int, s.end as int);
            proof {
                lemma_pi_progress(b, s.pos as int, s.end as int);
            }
            match parse_pi(s, tokens) {
                Ok(_) => {},
                Err(e) => {
                    proof {
                        lemma_wf_concat(b, acc, c.tokens);
                    }
                    return Err(e);
                },
            }
            proof {
                lemma_wf_concat(b, acc, c.tokens);
                acc = acc + c.tokens;
            }
        } else {
            break ;
        }
    }
    Ok(())
}

/// The parts of an attribute.
pub struct AttrLex {
    pub prefix: Span,
    pub local: Span,
    pub value: Span,
    /// Where the qualified name ends.
    pub qname_end: int,
    /// Where the opening quote stands.
    pub eq_end: int,
    /// Where the attribute ends, behind the closing quote.
    pub end: int,
}

/// `Attribute ::= Name Eq AttValue`: a qualified name, `=`, and a value in
/// single or double quotes that holds no `<`.
#[verifier::opaque]
pub open spec fn attribute_at(b: Seq<u8>, pos: int, end: int) -> Result<AttrLex, ErrorModel> {
    let q = qname_at(b, pos, end);
    let e = eq_at(b, q->0.end, end);
    let quote = quote_at(b, e->Ok_0, end);
    let run = char_run(b, e->Ok_0 + 1, end, Stop::Either(quote->Ok_0, 0x3c));
    let close = expect_byte(b, run.pos, end, quote->Ok_0);
    if q is None {
        Err(ErrorModel::InvalidName(text_pos(b, pos)))
    } else if e is Err {
        Err(e->Err_0)
    } else if quote is Err {
        Err(quote->Err_0)
    } else if run.bad is Some {
        Err(non_xml_char(b, run))
    } else if close is Err {
        Err(close->Err_0)
    } else {
        Ok(
            AttrLex {
                prefix: q->0.prefix,
                local: q->0.local,
                value: span(e->Ok_0 + 1, run.pos),
                qname_end: q->0.end,
                eq_end: e->Ok_0,
                end: run.pos + 1,
            },
        )
    }
}

/// An attribute ends behind its start.
pub proof fn lemma_attribute_progress(b: Seq<u8>, pos: int, end: int)
    ensures
        attribute_at(b, pos, end) is Ok ==> pos < attribute_at(b, pos, end)->Ok_0.qname_end
            <= attribute_at(b, pos, end)->Ok_0.eq_end < attribute_at(b, pos, end)->Ok_0.end,
{
    reveal(attribute_at);
    lemma_qname_progress(b, pos, end);
    let q = qname_at(b, pos, end);
    let p = run_end(b, q->0.end, end, ByteClass::Space);
    lemma_run_end_ge(b, q->0.end, end, ByteClass::Space);
    lemma_run_end_ge(b, p + 1, end, ByteClass::Space);
    let e = eq_at(b, q->0.end, end);
    let quote = quote_at(b, e->Ok_0, end);
    lemma_char_run_ge(b, e->Ok_0 + 1, end, Stop::Either(quote->Ok_0, 0x3c));
}

/// The spans of an attribute, and the positions between its parts.
pub(crate) struct AttributeSpans {
    pub prefix: Span,
    pub local: Span,
    pub value: Span,
    pub qname_end: usize,
    pub eq_end: usize,
}

/// `Attribute ::= Name Eq AttValue`
fn parse_attribute(s: &mut Stream) -> (r: Result<AttributeSpans, Error>)
    requires
        old(s).inv(),
    ensures
        match attribute_at(old(s).bytes(), old(s).pos as int, old(s).end as int) {
            Ok(a) => r is Ok && r->Ok_0.prefix == a.prefix && r->Ok_0.local == a.local
                && r->Ok_0.value == a.value && r->Ok_0.qname_end == a.qname_end && r->Ok_0.eq_end
                == a.eq_end && final(s).moved(*old(s), a.end) && final(s).inv(),
            Err(e) => r is Err && r->Err_0@ == e,
        },
        r is Ok ==> r->Ok_0.prefix.wf(old(s).bytes()) && r->Ok_0.local.wf(old(s).bytes())
            && r->Ok_0.value.wf(old(s).bytes()) && r->Ok_0.local.start < r->Ok_0.local.end,
        r is Ok ==> old(s).pos < r->Ok_0.qname_end <= r->Ok_0.eq_end < final(s).pos,
{
    proof {
        reveal(attribute_at);
    }
    proof {
        lemma_attribute_progress(s.bytes(), s.pos as int, s.end as int);
    }
    let (prefix, local) = s.consume_qname()?;
    let qname_end = s.pos();
    s.consume_eq()?;
    let eq_end = s.pos();
    let quote = s.consume_quote()?;
    // The attribute value must not contain the < character.
    let value = s.consume_chars(Stop::Either(quote, 0x3c))?;
    s.consume_byte(quote)?;
    Ok(AttributeSpans { prefix, local, value, qname_end, eq_end })
}

/// The spaces of an XML declaration: there, or not there before `?>` and at
/// the end of the stream.
pub open spec fn decl_spaces(b: Seq<u8>, pos: int, end: int) -> Result<int, ErrorModel> {
    if pos < end && spec_is_xml_space(b[pos]) {
        Ok(run_end(b, pos, end, ByteClass::Space))
    } else if !has_prefix(b, pos, end, "?>".spec_bytes()) && pos < end {
        Err(ErrorModel::InvalidChar2("a whitespace", b[pos], text_pos(b, pos)))
    } else {
        Ok(pos)
    }
}

/// `XMLDecl ::= '<?xml' VersionInfo EncodingDecl? SDDecl? S? '?>'`, from
/// `<?xml` on: where the declaration ends.
#[verifier::opaque]
pub open spec fn lex_declaration(b: Seq<u8>, pos: int, end: int) -> Result<int, ErrorModel> {
    let s1 = decl_spaces(b, pos + 5, end);
    let version = attribute_at(b, s1->Ok_0, end);
    let s2 = decl_spaces(b, version->Ok_0.end, end);
    let has_encoding = has_prefix(b, s2->Ok_0, end, "encoding".spec_bytes());
    let encoding = attribute_at(b, s2->Ok_0, end);
    let s3 = if has_encoding {
        decl_spaces(b, encoding->Ok_0.end, end)
    } else {
        s2
    };
    let has_standalone = has_prefix(b, s3->Ok_0, end, "standalone".spec_bytes());
    let standalone = attribute_at(b, s3->Ok_0, end);
    let at4 = if has_standalone {
        standalone->Ok_0.end
    } else {
        s3->Ok_0
    };
    let at5 = run_end(b, at4, end, ByteClass::Space);
    if s1 is Err {
        Err(s1->Err_0)
    } else if !has_prefix(b, s1->Ok_0, end, "version".spec_bytes()) {
        Err(ErrorModel::InvalidString("version", text_pos(b, s1->Ok_0)))
    } else if version is Err {
        Err(version->Err_0)
    } else if s2 is Err {
        Err(s2->Err_0)
    } else if has_encoding && encoding is Err {
        Err(encoding->Err_0)
    } else if s3 is Err {
        Err(s3->Err_0)
    } else if has_standalone && standalone is Err {
        Err(standalone->Err_0)
    } else if expect_string(b, at5, end, "?>") is Err {
        Err(expect_string(b, at5, end, "?>")->Err_0)
    } else {
        Ok(at5 + 2)
    }
}

fn consume_decl_spaces(s: &mut Stream) -> (r: Result<(), Error>)
    requires
        old(s).inv(),
    ensures
        match decl_spaces(old(s).bytes(), old(s).pos as int, old(s).end as int) {
            Ok(p) => r is Ok && final(s).moved(*old(s), p),
            Err(e) => r is Err && r->Err_0@ == e,
        },
        final(s).inv(),
        old(s).pos <= final(s).pos,
{
    if s.starts_with_space() {
        s.skip_spaces();
    } else if !s.starts_with("?>".as_bytes()) && !s.at_end() {
        return Err(Error::InvalidChar2("a whitespace", s.curr_byte_unchecked(), s.gen_text_pos()));
    }
    Ok(())
}

/// `XMLDecl ::= '<?xml' VersionInfo EncodingDecl? SDDecl? S? '?>'`
///
/// We don't actually return a token for the XML declaration and only validate it.
pub(crate) fn parse_declaration(s: &mut Stream) -> (r: Result<(), Error>)
    requires
        old(s).inv(),
        has_prefix(old(s).bytes(), old(s).pos as int, old(s).end as int, "<?xml ".spec_bytes()),
    ensures
        match lex_declaration(old(s).bytes(), old(s).pos as int, old(s).end as int) {
            Ok(p) => r is Ok && final(s).moved(*old(s), p) && final(s).inv() && old(s).pos
                < final(s).pos,
            Err(e) => r is Err && r->Err_0@ == e,
        },
{
    proof {
        reveal(lex_declaration);
    }
    proof {
        lemma_literals();
        s.lemma_valid();
        let b = s.bytes();
        let pos = s.pos as int;
        let lit = "<?xml ".spec_bytes();
        assert forall|k: int| pos <= k < pos + 5 implies b[k] < 0x80 by {
            reveal_strlit("<?xml ");
            is_ascii_spec_bytes("<?xml ");
            assert(b.subrange(pos, pos + 6)[k - pos] == lit[k - pos]);
        }
        lemma_ascii_step(b, pos);
        lemma_ascii_step(b, pos + 1);
        lemma_ascii_step(b, pos + 2);
        lemma_ascii_step(b, pos + 3);
        lemma_ascii_step(b, pos + 4);
    }
    s.advance(5);  // <?xml
    consume_decl_spaces(s)?;
    // The `version` "attribute" is mandatory.
    if !s.starts_with("version".as_bytes()) {
        // Will trigger the InvalidString error, which is what we want.
        return s.skip_string("version");
    }
    let _ = parse_attribute(s)?;
    consume_decl_spaces(s)?;
    if s.starts_with("encoding".as_bytes()) {
        let _ = parse_attribute(s)?;
        consume_decl_spaces(s)?;
    }
    if s.starts_with("standalone".as_bytes()) {
        let _ = parse_attribute(s)?;
    }
    s.skip_spaces();
    s.skip_string("?>")?;
    Ok(())
}

/// Moves over `lit`, which stands here.
pub(crate) fn skip_lit(s: &mut Stream, lit: &str)
    requires
        old(s).inv(),
        has_prefix(old(s).bytes(), old(s).pos as int, old(s).end as int, lit.spec_bytes()),
    ensures
        final(s).moved(*old(s), old(s).pos + lit.spec_bytes().len()),
        final(s).inv(),
{
    proof {
        s.lemma_valid();
        encode_utf8_valid_utf8(lit@);
        lemma_prefix_boundary(s.bytes(), s.pos as int, lit.spec_bytes());
    }
    s.advance(lit.as_bytes().len());
}

/// A literal in quotes behind at least one space: where it ends.
#[verifier::opaque]
pub open spec fn quoted_at(b: Seq<u8>, pos: int, end: int) -> Result<int, ErrorModel> {
    let spaces = expect_spaces(b, pos, end);
    let p = run_end(b, pos, end, ByteClass::Space);
    let quote = quote_at(b, p, end);
    let stop = run_end(b, p + 1, end, ByteClass::Not(quote->Ok_0));
    let close = expect_byte(b, stop, end, quote->Ok_0);
    if spaces is Err {
        Err(spaces->Err_0)
    } else if quote is Err {
        Err(quote->Err_0)
    } else if close is Err {
        Err(close->Err_0)
    } else {
        Ok(stop + 1)
    }
}

/// `ExternalID ::= 'SYSTEM' S SystemLiteral | 'PUBLIC' S PubidLiteral S SystemLiteral`:
/// where it ends, or `None` where there is none.
#[verifier::opaque]
pub open spec fn external_id_at(b: Seq<u8>, pos: int, end: int) -> Result<
    Option<int>,
    ErrorModel,
> {
    let system = has_prefix(b, pos, end, "SYSTEM".spec_bytes());
    let public = has_prefix(b, pos, end, "PUBLIC".spec_bytes());
    let first = quoted_at(b, pos + 6, end);
    let second = quoted_at(b, first->Ok_0, end);
    if !system && !public {
        Ok(None)
    } else if first is Err {
        Err(first->Err_0)
    } else if system {
        Ok(Some(first->Ok_0))
    } else if second is Err {
        Err(second->Err_0)
    } else {
        Ok(Some(second->Ok_0))
    }
}

fn consume_quoted(s: &mut Stream) -> (r: Result<(), Error>)
    requires
        old(s).inv(),
    ensures
        match quoted_at(old(s).bytes(), old(s).pos as int, old(s).end as int) {
            Ok(p) => r is Ok && final(s).moved(*old(s), p) && old(s).pos < final(s).pos,
            Err(e) => r is Err && r->Err_0@ == e,
        },
        final(s).inv(),
{
    proof {
        reveal(quoted_at);
    }
    s.consume_spaces()?;
    let quote = s.consume_quote()?;
    let _ = s.consume_bytes(ByteClass::Not(quote));
    s.consume_byte(quote)?;
    Ok(())
}

/// `ExternalID ::= 'SYSTEM' S SystemLiteral | 'PUBLIC' S PubidLiteral S SystemLiteral`
fn parse_external_id(s: &mut Stream) -> (r: Result<bool, Error>)
    requires
        old(s).inv(),
    ensures
        match external_id_at(old(s).bytes(), old(s).pos as int, old(s).end as int) {
            Ok(Some(p)) => r == Ok::<bool, Error>(true) && final(s).moved(*old(s), p) && old(s).pos
                < final(s).pos,
            Ok(None) => r == Ok::<bool, Error>(false) && *final(s) == *old(s),
            Err(e) => r is Err && r->Err_0@ == e,
        },
        final(s).inv(),
{
    proof {
        reveal(external_id_at);
    }
    proof {
        lemma_literals();
    }
    let system = s.starts_with("SYSTEM".as_bytes());
    let v = if system || s.starts_with("PUBLIC".as_bytes()) {
        if system {
            skip_lit(s, "SYSTEM");
        } else {
            skip_lit(s, "PUBLIC");
        }
        consume_quoted(s)?;
        if system {
            // Ok
        } else {
            consume_quoted(s)?;
        }
        true
    } else {
        false
    };
    Ok(v)
}

/// `doctypedecl ::= '<!DOCTYPE' S Name (S ExternalID)? S? ('[' intSubset ']' S?)? '>'`,
/// up to `[` or `>`: the position of that character.
#[verifier::opaque]
pub open spec fn doctype_start_at(b: Seq<u8>, pos: int, end: int) -> Result<int, ErrorModel> {
    let spaces = expect_spaces(b, pos + 9, end);
    let at1 = run_end(b, pos + 9, end, ByteClass::Space);
    let name = name_end(b, at1, end);
    let at2 = run_end(b, name->0, end, ByteClass::Space);
    let id = external_id_at(b, at2, end);
    let at3 = match id {
        Ok(Some(p)) => p,
        _ => at2,
    };
    let at4 = run_end(b, at3, end, ByteClass::Space);
    if spaces is Err {
        Err(spaces->Err_0)
    } else if name is None {
        Err(ErrorModel::InvalidName(text_pos(b, at1)))
    } else if id is Err {
        Err(id->Err_0)
    } else if at4 >= end {
        Err(ErrorModel::UnexpectedEndOfStream)
    } else if b[at4] != 0x5b && b[at4] != 0x3e {
        Err(ErrorModel::InvalidChar2("'[' or '>'", b[at4], text_pos(b, at4)))
    } else {
        Ok(at4)
    }
}

/// `doctypedecl ::= '<!DOCTYPE' S Name (S ExternalID)? S? ('[' intSubset ']' S?)? '>'`
pub(crate) fn parse_doctype_start(s: &mut Stream) -> (r: Result<(), Error>)
    requires
        old(s).inv(),
        has_prefix(old(s).bytes(), old(s).pos as int, old(s).end as int, "<!DOCTYPE".spec_bytes()),
    ensures
        match doctype_start_at(old(s).bytes(), old(s).pos as int, old(s).end as int) {
            Ok(p) => r is Ok && final(s).moved(*old(s), p) && old(s).pos < final(s).pos
                && final(s).pos < final(s).end && (old(s).bytes()[p] == 0x5b || old(s).bytes()[p]
                == 0x3e),
            Err(e) => r is Err && r->Err_0@ == e,
        },
        final(s).inv(),
{
    proof {
        reveal(doctype_start_at);
    }
    proof {
        lemma_literals();
    }
    skip_lit(s, "<!DOCTYPE");
    s.consume_spaces()?;
    s.skip_name()?;
    s.skip_spaces();
    let _ = parse_external_id(s)?;
    s.skip_spaces();
    let c = s.curr_byte()?;
    if c != 0x5b && c != 0x3e {
        return Err(Error::InvalidChar2("'[' or '>'", c, s.gen_text_pos()));
    }
    Ok(())
}

/// What the definition of an entity gives.
pub struct EntityDef {
    /// The value, where the definition is a literal.
    pub value: Option<Span>,
    /// Where the definition ends.
    pub end: int,
}

/// `EntityDef ::= EntityValue | (ExternalID NDataDecl?)` and
/// `PEDef ::= EntityValue | ExternalID`: a literal in quotes, or an external
/// identifier, which for a general entity an `NDATA` declaration may follow.
#[verifier::opaque]
pub open spec fn entity_def_at(b: Seq<u8>, pos: int, end: int, is_ge: bool) -> Result<
    EntityDef,
    ErrorModel,
> {
    let stop = run_end(b, pos + 1, end, ByteClass::Not(b[pos]));
    let id = external_id_at(b, pos, end);
    let at2 = run_end(b, id->Ok_0->0, end, ByteClass::Space);
    let spaces = expect_spaces(b, at2 + 5, end);
    let at3 = run_end(b, at2 + 5, end, ByteClass::Space);
    let notation = name_end(b, at3, end);
    if pos >= end {
        Err(ErrorModel::UnexpectedEndOfStream)
    } else if b[pos] == 0x22 || b[pos] == 0x27 {
        if expect_byte(b, stop, end, b[pos]) is Err {
            Err(expect_byte(b, stop, end, b[pos])->Err_0)
        } else {
            Ok(EntityDef { value: Some(span(pos + 1, stop)), end: stop + 1 })
        }
    } else if b[pos] == 0x53 || b[pos] == 0x50 {
        if id is Err {
            Err(id->Err_0)
        } else if id->Ok_0 is None {
            Err(ErrorModel::InvalidExternalID(text_pos(b, pos)))
        } else if !is_ge {
            Ok(EntityDef { value: None, end: id->Ok_0->0 })
        } else if !has_prefix(b, at2, end, "NDATA".spec_bytes()) {
            Ok(EntityDef { value: None, end: at2 })
        } else if spaces is Err {
            Err(spaces->Err_0)
        } else if notation is None {
            Err(ErrorModel::InvalidName(text_pos(b, at3)))
        } else {
            Ok(EntityDef { value: None, end: notation->0 })
        }
    } else {
        Err(ErrorModel::InvalidChar2("a quote, SYSTEM or PUBLIC", b[pos], text_pos(b, pos)))
    }
}

fn parse_entity_def(s: &mut Stream, is_ge: bool) -> (r: Result<Option<Span>, Error>)
    requires
        old(s).inv(),
    ensures
        match entity_def_at(old(s).bytes(), old(s).pos as int, old(s).end as int, is_ge) {
            Ok(d) => r is Ok && r->Ok_0 == d.value && final(s).moved(*old(s), d.end) && old(s).pos
                < final(s).pos,
            Err(e) => r is Err && r->Err_0@ == e,
        },
        r matches Ok(Some(v)) ==> v.wf(old(s).bytes()),
        final(s).inv(),
{
    proof {
        reveal(entity_def_at);
    }
    proof {
        lemma_literals();
    }
    let c = s.curr_byte()?;
    if c == 0x22 || c == 0x27 {
        let quote = s.consume_quote()?;
        let value = s.consume_bytes(ByteClass::Not(quote));
        s.consume_byte(quote)?;
        Ok(Some(value))
    } else if c == 0x53 || c == 0x50 {
        if parse_external_id(s)? {
            if is_ge {
                s.skip_spaces();
                if s.starts_with("NDATA".as_bytes()) {
                    skip_lit(s, "NDATA");
                    s.consume_spaces()?;
                    s.skip_name()?;
                }
            }
            Ok(None)
        } else {
            Err(Error::InvalidExternalID(s.gen_text_pos()))
        }
    } else {
        let pos = s.gen_text_pos();
        Err(Error::InvalidChar2("a quote, SYSTEM or PUBLIC", c, pos))
    }
}

/// `EntityDecl ::= GEDecl | PEDecl`, from `<!ENTITY` on. A declaration with
/// a literal value gives a token, whichever kind of entity it declares.
#[verifier::opaque]
pub open spec fn lex_entity_decl(b: Seq<u8>, pos: int, end: int) -> Lex {
    let spaces1 = expect_spaces(b, pos + 8, end);
    let at1 = run_end(b, pos + 8, end, ByteClass::Space);
    let is_pe = at1 < end && b[at1] == 0x25;
    let spaces2 = expect_spaces(b, at1 + 1, end);
    let at2 = if is_pe {
        run_end(b, at1 + 1, end, ByteClass::Space)
    } else {
        at1
    };
    let name = name_at(b, at2, end);
    let spaces3 = expect_spaces(b, name->0, end);
    let at3 = run_end(b, name->0, end, ByteClass::Space);
    let def = entity_def_at(b, at3, end, !is_pe);
    let at4 = run_end(b, def->Ok_0.end, end, ByteClass::Space);
    let close = expect_byte(b, at4, end, 0x3e);
    let tokens = match def->Ok_0.value {
        Some(v) => seq![SpanToken::EntityDeclaration(span(at2, name->0), v)],
        None => Seq::empty(),
    };
    if spaces1 is Err {
        Lex::fail(spaces1->Err_0)
    } else if is_pe && spaces2 is Err {
        Lex::fail(spaces2->Err_0)
    } else if name is None {
        Lex::fail(ErrorModel::InvalidName(text_pos(b, at2)))
    } else if spaces3 is Err {
        Lex::fail(spaces3->Err_0)
    } else if def is Err {
        Lex::fail(def->Err_0)
    } else if close is Err {
        Lex { pos: 0, tokens, err: Some(close->Err_0) }
    } else {
        Lex::ok(at4 + 1, tokens)
    }
}

/// `EntityDecl ::= GEDecl | PEDecl`
fn parse_entity_decl(s: &mut Stream, tokens: &mut Vec<SpanToken>) -> (r: Result<(), Error>)
    requires
        old(s).inv(),
        has_prefix(old(s).bytes(), old(s).pos as int, old(s).end as int, "<!ENTITY".spec_bytes()),
    ensures
        produced(
            *old(s),
            *final(s),
            old(tokens)@,
            final(tokens)@,
            r,
            lex_entity_decl(old(s).bytes(), old(s).pos as int, old(s).end as int),
        ),
        r is Ok ==> old(s).pos < final(s).pos,
{
    proof {
        reveal(lex_entity_decl);
    }
    proof {
        lemma_literals();
    }
    skip_lit(s, "<!ENTITY");
    s.consume_spaces()?;
    let is_ge = if s.try_consume_byte(0x25) {
        s.consume_spaces()?;
        false
    } else {
        true
    };
    let name = s.consume_name()?;
    s.consume_spaces()?;
    if let Some(definition) = parse_entity_def(s, is_ge)? {
        tokens.push(SpanToken::EntityDeclaration(name, definition));
    }
    s.skip_spaces();
    s.consume_byte(0x3e)?;
    Ok(())
}

/// An entity declaration that does not fail ends behind its start.
pub proof fn lemma_entity_decl_progress(b: Seq<u8>, pos: int, end: int)
    ensures
        lex_entity_decl(b, pos, end).err is None ==> lex_entity_decl(b, pos, end).pos > pos,
{
    reveal(lex_entity_decl);
    let at1 = run_end(b, pos + 8, end, ByteClass::Space);
    lemma_run_end_ge(b, pos + 8, end, ByteClass::Space);
    lemma_run_end_ge(b, at1 + 1, end, ByteClass::Space);
    let is_pe = at1 < end && b[at1] == 0x25;
    let at2 = if is_pe {
        run_end(b, at1 + 1, end, ByteClass::Space)
    } else {
        at1
    };
    let name = name_at(b, at2, end);
    let at3 = run_end(b, name->0, end, ByteClass::Space);
    lemma_run_end_ge(b, name->0, end, ByteClass::Space);
    lemma_entity_def_progress(b, at3, end, !is_pe);
    let def = entity_def_at(b, at3, end, !is_pe);
    lemma_run_end_ge(b, def->Ok_0.end, end, ByteClass::Space);
}

/// A literal in quotes ends behind its start.
pub proof fn lemma_quoted_progress(b: Seq<u8>, pos: int, end: int)
    ensures
        quoted_at(b, pos, end) is Ok ==> quoted_at(b, pos, end)->Ok_0 > pos,
{
    reveal(quoted_at);
    let p = run_end(b, pos, end, ByteClass::Space);
    lemma_run_end_ge(b, pos, end, ByteClass::Space);
    let quote = quote_at(b, p, end);
    lemma_run_end_ge(b, p + 1, end, ByteClass::Not(quote->Ok_0));
}

/// An external identifier ends behind its start.
pub proof fn lemma_external_id_progress(b: Seq<u8>, pos: int, end: int)
    ensures
        external_id_at(b, pos, end) matches Ok(Some(p)) ==> p > pos,
{
    reveal(external_id_at);
    lemma_quoted_progress(b, pos + 6, end);
    let first = quoted_at(b, pos + 6, end);
    lemma_quoted_progress(b, first->Ok_0, end);
}

/// The definition of an entity ends behind its start.
pub proof fn lemma_entity_def_progress(b: Seq<u8>, pos: int, end: int, is_ge: bool)
    ensures
        entity_def_at(b, pos, end, is_ge) is Ok ==> entity_def_at(b, pos, end, is_ge)->Ok_0.end
            > pos,
{
    reveal(entity_def_at);
    lemma_run_end_ge(b, pos + 1, end, ByteClass::Not(b[pos]));
    lemma_external_id_progress(b, pos, end);
    let id = external_id_at(b, pos, end);
    let at2 = run_end(b, id->Ok_0->0, end, ByteClass::Space);
    lemma_run_end_ge(b, id->Ok_0->0, end, ByteClass::Space);
    let at3 = run_end(b, at2 + 5, end, ByteClass::Space);
    lemma_run_end_ge(b, at2 + 5, end, ByteClass::Space);
    let notation = name_end(b, at3, end);
    if at3 < end && notation is Some {
        lemma_name_chars_ge(b, at3 + width_at(b, at3), end);
    }
}

/// What one item of a sequence gives.
pub struct Item {
    pub lex: Lex,
    /// The item ends the sequence.
    pub last: bool,
}

/// One item of the internal subset of a document type declaration: an entity
/// declaration, a comment, a processing instruction, a markup declaration
/// that is passed over (`<!ELEMENT`, `<!ATTLIST`, `<!NOTATION`), or `]` and
/// `>`, which end the subset. `start` is where the declaration began.
#[verifier::opaque]
pub open spec fn lex_doctype_item(b: Seq<u8>, start: int, pos: int, end: int) -> Item {
    let close = run_end(b, pos + 1, end, ByteClass::Space);
    let skipped = run_end(b, pos, end, ByteClass::Not(0x3e));
    if has_prefix(b, pos, end, "<!ENTITY".spec_bytes()) {
        Item { lex: lex_entity_decl(b, pos, end), last: false }
    } else if has_prefix(b, pos, end, "<!--".spec_bytes()) {
        Item { lex: lex_comment(b, pos, end), last: false }
    } else if has_prefix(b, pos, end, "<?".spec_bytes()) {
        Item { lex: lex_pi(b, pos, end), last: false }
    } else if has_prefix(b, pos, end, "]".spec_bytes()) {
        if close >= end {
            Item { lex: Lex::fail(ErrorModel::UnexpectedEndOfStream), last: true }
        } else if b[close] == 0x3e {
            Item { lex: Lex::ok(close + 1, Seq::empty()), last: true }
        } else {
            Item {
                lex: Lex::fail(ErrorModel::InvalidChar2("'>'", b[close], text_pos(b, close))),
                last: true,
            }
        }
    } else if has_prefix(b, pos, end, "<!ELEMENT".spec_bytes()) || has_prefix(
        b,
        pos,
        end,
        "<!ATTLIST".spec_bytes(),
    ) || has_prefix(b, pos, end, "<!NOTATION".spec_bytes()) {
        if skipped >= end {
            Item { lex: Lex::fail(ErrorModel::UnknownToken(text_pos(b, start))), last: false }
        } else {
            Item { lex: Lex::ok(skipped + 1, Seq::empty()), last: false }
        }
    } else {
        Item { lex: Lex::fail(ErrorModel::UnknownToken(text_pos(b, pos))), last: false }
    }
}

/// An item of the internal subset that does not fail ends behind its start.
pub proof fn lemma_doctype_item_progress(b: Seq<u8>, start: int, pos: int, end: int)
    ensures
        lex_doctype_item(b, start, pos, end).lex.err is None ==> lex_doctype_item(
            b,
            start,
            pos,
            end,
        ).lex.pos > pos,
{
    reveal(lex_doctype_item);
    lemma_entity_decl_progress(b, pos, end);
    lemma_comment_progress(b, pos, end);
    lemma_pi_progress(b, pos, end);
    lemma_run_end_ge(b, pos + 1, end, ByteClass::Space);
    lemma_run_end_ge(b, pos, end, ByteClass::Not(0x3e));
}

/// The internal subset of a document type declaration, from behind `[` on:
/// items with optional spaces before each, up to the item that ends the
/// subset or to the end of the stream.
#[verifier::opaque]
pub open spec fn lex_doctype_body(b: Seq<u8>, start: int, pos: int, end: int) -> Lex
    decreases (if end > pos {
        end - pos
    } else {
        0
    }),
{
    let p = run_end(b, pos, end, ByteClass::Space);
    let item = lex_doctype_item(b, start, p, end);
    if pos >= end {
        Lex::ok(pos, Seq::empty())
    } else if item.lex.err is Some || item.last {
        item.lex
    } else {
        proof {
            lemma_run_end_ge(b, pos, end, ByteClass::Space);
            lemma_doctype_item_progress(b, start, p, end);
        }
        item.lex.followed_by(lex_doctype_body(b, start, item.lex.pos, end))
    }
}

/// A document type declaration, from `<!DOCTYPE` on.
#[verifier::opaque]
pub open spec fn lex_doctype(b: Seq<u8>, pos: int, end: int) -> Lex {
    let start = doctype_start_at(b, pos, end);
    if start is Err {
        Lex::fail(start->Err_0)
    } else if b[start->Ok_0] == 0x3e {
        Lex::ok(start->Ok_0 + 1, Seq::empty())
    } else {
        lex_doctype_body(b, pos, start->Ok_0 + 1, end)
    }
}

fn consume_decl(s: &mut Stream) -> (r: Result<(), Error>)
    requires
        old(s).inv(),
    ensures
        r is Ok <==> run_end(
            old(s).bytes(),
            old(s).pos as int,
            old(s).end as int,
            ByteClass::Not(0x3e),
        ) < old(s).end,
        r is Ok ==> final(s).moved(
            *old(s),
            run_end(old(s).bytes(), old(s).pos as int, old(s).end as int, ByteClass::Not(0x3e))
                + 1,
        ),
        final(s).text == old(s).text,
        final(s).inv(),
{
    proof {
        lemma_run_end_bounds(s.bytes(), s.pos as int, s.end as int, ByteClass::Not(0x3e));
    }
    s.skip_bytes(ByteClass::Not(0x3e));
    s.consume_byte(0x3e)?;
    Ok(())
}

/// One item of the internal subset of a document type declaration. Returns
/// whether the item ends the subset.
pub(crate) fn parse_doctype_item(s: &mut Stream, tokens: &mut Vec<SpanToken>, start: usize) -> (r: Result<
    bool,
    Error,
>)
    requires
        old(s).inv(),
    ensures
        produced(
            *old(s),
            *final(s),
            old(tokens)@,
            final(tokens)@,
            match r {
                Ok(_) => Ok(()),
                Err(e) => Err(e),
            },
            lex_doctype_item(old(s).bytes(), start as int, old(s).pos as int, old(s).end as int).lex,
        ),
        r matches Ok(last) ==> last == lex_doctype_item(
            old(s).bytes(),
            start as int,
            old(s).pos as int,
            old(s).end as int,
        ).last,
{
    proof {
        reveal(lex_doctype_item);
    }
    let ghost b = s.bytes();
    proof {
        lemma_lit_bracket();
        s.lemma_valid();
        assert(old(tokens)@ + Seq::<SpanToken>::empty() =~= old(tokens)@);
    }
    if s.starts_with("<!ENTITY".as_bytes()) {
        parse_entity_decl(s, tokens)?;
        Ok(false)
    } else if s.starts_with("<!--".as_bytes()) {
        parse_comment(s, tokens)?;
        Ok(false)
    } else if s.starts_with("<?".as_bytes()) {
        parse_pi(s, tokens)?;
        Ok(false)
    } else if s.starts_with("]".as_bytes()) {
        // DTD ends with ']' S? '>', therefore we have to skip possible spaces.
        skip_lit(s, "]");
        s.skip_spaces();
        match s.curr_byte() {
            Ok(c) => {
                if c == 0x3e {
                    proof {
                        lemma_ascii_step(b, s.pos as int);
                    }
                    s.advance(1);
                    Ok(true)
                } else {
                    Err(Error::InvalidChar2("'>'", c, s.gen_text_pos()))
                }
            },
            Err(_) => Err(Error::UnexpectedEndOfStream),
        }
    } else if s.starts_with("<!ELEMENT".as_bytes()) || s.starts_with("<!ATTLIST".as_bytes())
        || s.starts_with("<!NOTATION".as_bytes()) {
        proof {
            lemma_run_end_ge(b, s.pos as int, s.end as int, ByteClass::Not(0x3e));
        }
        if consume_decl(s).is_err() {
            let pos = s.gen_text_pos_from(start);
            return Err(Error::UnknownToken(pos));
        }
        Ok(false)
    } else {
        Err(Error::UnknownToken(s.gen_text_pos()))
    }
}

fn parse_doctype(s: &mut Stream, tokens: &mut Vec<SpanToken>) -> (r: Result<(), Error>)
    requires
        old(s).inv(),
        has_prefix(old(s).bytes(), old(s).pos as int, old(s).end as int, "<!DOCTYPE".spec_bytes()),
    ensures
        produced(
            *old(s),
            *final(s),
            old(tokens)@,
            final(tokens)@,
            r,
            lex_doctype(old(s).bytes(), old(s).pos as int, old(s).end as int),
        ),
{
    proof {
        reveal(lex_doctype);
        reveal(lex_doctype_body);
    }
    let ghost b = s.bytes();
    let start = s.pos();
    proof {
        s.lemma_valid();
        assert(old(tokens)@ + Seq::<SpanToken>::empty() =~= old(tokens)@);
    }
    parse_doctype_start(s)?;
    s.skip_spaces();
    let c = s.curr_byte_unchecked();
    proof {
        lemma_ascii_step(b, s.pos as int);
    }
    s.advance(1);
    if c == 0x3e {
        return Ok(());
    }
    let ghost whole = lex_doctype_body(b, start as int, s.pos as int, s.end as int);
    let ghost acc = Seq::<SpanToken>::empty();
    while !s.at_end()
        invariant_except_break
            s.pos >= s.end ==> lex_doctype_body(b, start as int, s.pos as int, s.end as int).same(
                Lex::ok(s.pos as int, Seq::empty()),
            ),
            whole.same(lex_doctype_body(b, start as int, s.pos as int, s.end as int).after(acc)),
        invariant
            s.inv(),
            s.text == old(s).text,
            s.end == old(s).end,
            old(s).pos <= s.pos,
            start == old(s).pos,
            b == s.bytes(),
            whole == lex_doctype(b, old(s).pos as int, old(s).end as int),
            tokens@ =~= old(tokens)@ + acc,
            tokens_wf(acc, b),
        ensures
            whole.same(Lex::ok(s.pos as int, acc)),
        decreases s.end - s.pos,
    {
        proof {
            reveal(lex_doctype_body);
        }
        s.skip_spaces();
        let ghost item = lex_doctype_item(b, start as int, s.pos as int, s.end as int);
        proof {
            lemma_doctype_item_progress(b, start as int, s.pos as int, s.end as int);
        }
        match parse_doctype_item(s, tokens, start) {
            Ok(last) => {
                proof {
                    lemma_wf_concat(b, acc, item.lex.tokens);
                    acc = acc + item.lex.tokens;
                }
                if last {
                    break ;
                }
            },
            Err(e) => {
                proof {
                    lemma_wf_concat(b, acc, item.lex.tokens);
                }
                return Err(e);
            },
        }
    }
    Ok(())
}

/// Whether the bytes of a span hold `]]>`.
fn has_cdata_end(b: &[u8], text: Span) -> (r: bool)
    requires
        text.start <= text.end <= b@.len(),
    ensures
        r == contains(text.of(b@), "]]>".spec_bytes()),
{
    proof {
        lemma_literal_bytes();
    }
    let ghost hay = text.of(b@);
    let ghost needle = "]]>".spec_bytes();
    if text.end - text.start < 3 {
        return false;
    }
    let mut i: usize = text.start;
    while i + 2 < text.end
        invariant
            text.start <= i,
            i + 2 <= text.end <= b@.len(),
            hay == text.of(b@),
            needle == "]]>".spec_bytes(),
            needle =~= seq![0x5du8, 0x5d, 0x3e],
            forall|k: int| 0 <= k < i - text.start ==> #[trigger] hay.subrange(k, k + 3) != needle,
        decreases text.end - i,
    {
        if b[i] == 0x5d && b[i + 1] == 0x5d && b[i + 2] == 0x3e {
            proof {
                let k = i - text.start;
                assert(hay.subrange(k, k + 3) =~= needle);
                assert(0 <= k && k + needle.len() <= hay.len() && hay.subrange(
                    k,
                    k + needle.len(),
                ) == needle);
            }
            return true;
        }
        proof {
            let k = i - text.start;
            let sub = hay.subrange(k, k + 3);
            assert(sub[0] == b@[i as int]);
            assert(sub[1] == b@[i + 1]);
            assert(sub[2] == b@[i + 2]);
        }
        i += 1;
    }
    false
}

/// A CDATA section, from `<![CDATA[` on: the text up to the next `]]>`.
#[verifier::opaque]
pub open spec fn lex_cdata(b: Seq<u8>, pos: int, end: int) -> Lex {
    let run = char_run(b, pos + 9, end, Stop::Before("]]>"));
    if run.bad is Some {
        Lex::fail(non_xml_char(b, run))
    } else if expect_string(b, run.pos, end, "]]>") is Err {
        Lex::fail(expect_string(b, run.pos, end, "]]>")->Err_0)
    } else {
        Lex::ok(run.pos + 3, seq![SpanToken::Cdata(span(pos + 9, run.pos), span(pos, run.pos + 3))])
    }
}

/// `CDSect ::= CDStart CData CDEnd`
fn parse_cdata(s: &mut Stream, tokens: &mut Vec<SpanToken>) -> (r: Result<(), Error>)
    requires
        old(s).inv(),
        has_prefix(old(s).bytes(), old(s).pos as int, old(s).end as int, "<![CDATA[".spec_bytes()),
    ensures
        produced(
            *old(s),
            *final(s),
            old(tokens)@,
            final(tokens)@,
            r,
            lex_cdata(old(s).bytes(), old(s).pos as int, old(s).end as int),
        ),
        r is Ok ==> old(s).pos < final(s).pos,
{
    proof {
        reveal(lex_cdata);
        lemma_literals();
        assert(old(tokens)@ + Seq::<SpanToken>::empty() =~= old(tokens)@);
    }
    let start = s.pos();
    skip_lit(s, "<![CDATA[");
    let text = s.consume_chars(Stop::Before("]]>"))?;
    s.skip_string("]]>")?;
    let range = s.slice_back(start);
    tokens.push(SpanToken::Cdata(text, range));
    Ok(())
}

/// A close tag, from `</` on: a qualified name, optional spaces and `>`.
#[verifier::opaque]
pub open spec fn lex_close_element(b: Seq<u8>, pos: int, end: int) -> Lex {
    let q = qname_at(b, pos + 2, end);
    let p = run_end(b, q->0.end, end, ByteClass::Space);
    let close = expect_byte(b, p, end, 0x3e);
    if q is None {
        Lex::fail(ErrorModel::InvalidName(text_pos(b, pos + 2)))
    } else if close is Err {
        Lex::fail(close->Err_0)
    } else {
        Lex::ok(
            p + 1,
            seq![SpanToken::ElementEnd(SpanEnd::Close(q->0.prefix, q->0.local), span(pos, p + 1))],
        )
    }
}

/// `'</' Name S? '>'`
fn parse_close_element(s: &mut Stream, tokens: &mut Vec<SpanToken>) -> (r: Result<(), Error>)
    requires
        old(s).inv(),
        old(s).pos + 2 <= old(s).end,
        old(s).bytes()[old(s).pos as int] == 0x3c,
        old(s).bytes()[old(s).pos + 1] == 0x2f,
    ensures
        produced(
            *old(s),
            *final(s),
            old(tokens)@,
            final(tokens)@,
            r,
            lex_close_element(old(s).bytes(), old(s).pos as int, old(s).end as int),
        ),
        r is Ok ==> old(s).pos < final(s).pos,
{
    proof {
        reveal(lex_close_element);
        s.lemma_valid();
        lemma_ascii_step(s.bytes(), s.pos as int);
        lemma_ascii_step(s.bytes(), s.pos + 1);
        assert(old(tokens)@ + Seq::<SpanToken>::empty() =~= old(tokens)@);
    }
    let start = s.pos();
    s.advance(2);  // </
    let (prefix, tag_name) = s.consume_qname()?;
    s.skip_spaces();
    s.consume_byte(0x3e)?;
    let range = s.slice_back(start);
    tokens.push(SpanToken::ElementEnd(SpanEnd::Close(prefix, tag_name), range));
    Ok(())
}

/// Character data: the characters up to the next `<`. They hold no `]]>`.
#[verifier::opaque]
pub open spec fn lex_text(b: Seq<u8>, pos: int, end: int) -> Lex {
    let run = char_run(b, pos, end, Stop::Either(0x3c, 0x3c));
    if run.bad is Some {
        Lex::fail(non_xml_char(b, run))
    } else if contains(span(pos, run.pos).of(b), "]]>".spec_bytes()) {
        Lex::fail(ErrorModel::InvalidCharacterData(text_pos(b, run.pos)))
    } else {
        Lex::ok(run.pos, seq![SpanToken::Text(span(pos, run.pos), span(pos, run.pos))])
    }
}

fn parse_text(s: &mut Stream, tokens: &mut Vec<SpanToken>) -> (r: Result<(), Error>)
    requires
        old(s).inv(),
        old(s).pos < old(s).end,
        old(s).bytes()[old(s).pos as int] != 0x3c,
    ensures
        produced(
            *old(s),
            *final(s),
            old(tokens)@,
            final(tokens)@,
            r,
            lex_text(old(s).bytes(), old(s).pos as int, old(s).end as int),
        ),
        r is Ok ==> old(s).pos < final(s).pos,
{
    proof {
        reveal(lex_text);
        s.lemma_valid();
        lemma_char_at(s.bytes(), s.pos as int);
        lemma_char_run_ge(
            s.bytes(),
            s.pos + width_at(s.bytes(), s.pos as int),
            s.end as int,
            Stop::Either(0x3c, 0x3c),
        );
        assert(old(tokens)@ + Seq::<SpanToken>::empty() =~= old(tokens)@);
    }
    let start = s.pos();
    let text = s.consume_chars(Stop::Either(0x3c, 0x3c))?;
    // According to the spec, `]]>` must not appear inside a Text node.
    // https://www.w3.org/TR/xml/#syntax
    if has_cdata_end(s.text.as_bytes(), text) {
        return Err(Error::InvalidCharacterData(s.gen_text_pos()));
    }
    let range = s.slice_back(start);
    tokens.push(SpanToken::Text(text, range));
    Ok(())
}

/// `n` as a `u16`, or the largest `u16` where it does not fit.
pub open spec fn saturate16(n: int) -> u16 {
    if n > u16::MAX {
        u16::MAX
    } else {
        n as u16
    }
}

/// `n` as a `u8`, or the largest `u8` where it does not fit.
pub open spec fn saturate8(n: int) -> u8 {
    if n > u8::MAX {
        u8::MAX
    } else {
        n as u8
    }
}

/// What stands in a start tag behind its name.
#[derive(Clone, Copy, PartialEq, Eq, Debug, Structural)]
pub enum TagStep {
    /// An attribute.
    Attribute,
    /// `>`, which opens the element.
    Open,
    /// `/>`, which ends the element.
    Empty,
}

/// What one item of a start tag gives.
pub struct TagItem {
    pub lex: Lex,
    pub step: TagStep,
}

/// One item of a start tag, behind the spaces before it: `/>`, `>`, or an
/// attribute, which has to have a space before it.
#[verifier::opaque]
pub open spec fn lex_tag_item(b: Seq<u8>, pos: int, end: int, has_space: bool) -> TagItem {
    let a = attribute_at(b, pos, end);
    if pos >= end {
        TagItem { lex: Lex::fail(ErrorModel::UnexpectedEndOfStream), step: TagStep::Attribute }
    } else if b[pos] == 0x2f {
        if expect_byte(b, pos + 1, end, 0x3e) is Err {
            TagItem {
                lex: Lex::fail(expect_byte(b, pos + 1, end, 0x3e)->Err_0),
                step: TagStep::Empty,
            }
        } else {
            TagItem {
                lex: Lex::ok(
                    pos + 2,
                    seq![SpanToken::ElementEnd(SpanEnd::Empty, span(pos, pos + 2))],
                ),
                step: TagStep::Empty,
            }
        }
    } else if b[pos] == 0x3e {
        TagItem {
            lex: Lex::ok(pos + 1, seq![SpanToken::ElementEnd(SpanEnd::Open, span(pos, pos + 1))]),
            step: TagStep::Open,
        }
    } else if !has_space {
        TagItem {
            lex: Lex::fail(ErrorModel::InvalidChar2("a whitespace", b[pos], text_pos(b, pos))),
            step: TagStep::Attribute,
        }
    } else if a is Err {
        TagItem { lex: Lex::fail(a->Err_0), step: TagStep::Attribute }
    } else {
        TagItem {
            lex: Lex::ok(
                a->Ok_0.end,
                seq![
                    SpanToken::Attribute(
                        span(pos, a->Ok_0.end),
                        saturate16(a->Ok_0.qname_end - pos),
                        saturate8(a->Ok_0.eq_end - a->Ok_0.qname_end),
                        a->Ok_0.prefix,
                        a->Ok_0.local,
                        a->Ok_0.value,
                    ),
                ],
            ),
            step: TagStep::Attribute,
        }
    }
}

/// An item of a start tag that does not fail ends behind its start.
pub proof fn lemma_tag_item_progress(b: Seq<u8>, pos: int, end: int, has_space: bool)
    ensures
        lex_tag_item(b, pos, end, has_space).lex.err is None ==> lex_tag_item(
            b,
            pos,
            end,
            has_space,
        ).lex.pos > pos,
{
    reveal(lex_tag_item);
    lemma_attribute_progress(b, pos, end);
}

fn parse_tag_item(s: &mut Stream, tokens: &mut Vec<SpanToken>, has_space: bool) -> (r: Result<
    TagStep,
    Error,
>)
    requires
        old(s).inv(),
        old(s).pos < old(s).end ==> !spec_is_xml_space(old(s).bytes()[old(s).pos as int]),
    ensures
        produced(
            *old(s),
            *final(s),
            old(tokens)@,
            final(tokens)@,
            match r {
                Ok(_) => Ok(()),
                Err(e) => Err(e),
            },
            lex_tag_item(old(s).bytes(), old(s).pos as int, old(s).end as int, has_space).lex,
        ),
        r matches Ok(step) ==> step == lex_tag_item(
            old(s).bytes(),
            old(s).pos as int,
            old(s).end as int,
            has_space,
        ).step,
{
    proof {
        reveal(lex_tag_item);
        s.lemma_valid();
        lemma_attribute_progress(s.bytes(), s.pos as int, s.end as int);
        assert(old(tokens)@ + Seq::<SpanToken>::empty() =~= old(tokens)@);
    }
    let start = s.pos();
    let c = s.curr_byte()?;
    if c == 0x2f {
        proof {
            lemma_ascii_step(s.bytes(), s.pos as int);
        }
        s.advance(1);
        s.consume_byte(0x3e)?;
        let range = s.slice_back(start);
        tokens.push(SpanToken::ElementEnd(SpanEnd::Empty, range));
        Ok(TagStep::Empty)
    } else if c == 0x3e {
        proof {
            lemma_ascii_step(s.bytes(), s.pos as int);
        }
        s.advance(1);
        let range = s.slice_back(start);
        tokens.push(SpanToken::ElementEnd(SpanEnd::Open, range));
        Ok(TagStep::Open)
    } else {
        // An attribute must be preceded with a whitespace.
        if !has_space {
            // Will always trigger an error. Which is what we want.
            s.consume_spaces()?;
        }
        let a = parse_attribute(s)?;
        let qname_len: u16 = if a.qname_end - start > 0xffff {
            0xffff
        } else {
            (a.qname_end - start) as u16
        };
        let eq_len: u8 = if a.eq_end - a.qname_end > 0xff {
            0xff
        } else {
            (a.eq_end - a.qname_end) as u8
        };
        let range = s.slice_back(start);
        tokens.push(SpanToken::Attribute(range, qname_len, eq_len, a.prefix, a.local, a.value));
        Ok(TagStep::Attribute)
    }
}

/// What a start tag gives.
pub struct TagEnd {
    pub lex: Lex,
    /// The tag opens an element, whose content follows.
    pub open: bool,
}

/// The items of a start tag, with optional spaces before each, up to `>` or
/// `/>` or to the end of the stream.
#[verifier::opaque]
pub open spec fn lex_attributes(b: Seq<u8>, pos: int, end: int) -> TagEnd
    decreases (if end > pos {
        end - pos
    } else {
        0
    }),
{
    let p = run_end(b, pos, end, ByteClass::Space);
    let item = lex_tag_item(b, p, end, spec_is_xml_space(b[pos]));
    if pos >= end {
        TagEnd { lex: Lex::ok(pos, Seq::empty()), open: false }
    } else if item.lex.err is Some || item.step != TagStep::Attribute {
        TagEnd { lex: item.lex, open: item.step == TagStep::Open }
    } else {
        proof {
            lemma_run_end_ge(b, pos, end, ByteClass::Space);
            lemma_tag_item_progress(b, p, end, spec_is_xml_space(b[pos]));
        }
        TagEnd {
            lex: item.lex.followed_by(lex_attributes(b, item.lex.pos, end).lex),
            open: lex_attributes(b, item.lex.pos, end).open,
        }
    }
}

/// A start tag, from `<` on: `'<' Name (S Attribute)* S? ('>' | '/>')`.
#[verifier::opaque]
pub open spec fn lex_start_tag(b: Seq<u8>, pos: int, end: int) -> TagEnd {
    let q = qname_at(b, pos + 1, end);
    let rest = lex_attributes(b, q->0.end, end);
    if q is None {
        TagEnd { lex: Lex::fail(ErrorModel::InvalidName(text_pos(b, pos + 1))), open: false }
    } else {
        TagEnd {
            lex: Lex::ok(
                q->0.end,
                seq![SpanToken::ElementStart(q->0.prefix, q->0.local, pos as usize)],
            ).followed_by(rest.lex),
            open: rest.open,
        }
    }
}

/// The items of a start tag end at or behind their start.
pub proof fn lemma_attributes_ge(b: Seq<u8>, pos: int, end: int)
    ensures
        lex_attributes(b, pos, end).lex.err is None ==> lex_attributes(b, pos, end).lex.pos >= pos,
    decreases (if end > pos {
        end - pos
    } else {
        0
    }),
{
    reveal(lex_attributes);
    let p = run_end(b, pos, end, ByteClass::Space);
    let item = lex_tag_item(b, p, end, spec_is_xml_space(b[pos]));
    lemma_run_end_ge(b, pos, end, ByteClass::Space);
    lemma_tag_item_progress(b, p, end, spec_is_xml_space(b[pos]));
    if pos >= end {
    } else if item.lex.err is Some || item.step != TagStep::Attribute {
    } else {
        lemma_attributes_ge(b, item.lex.pos, end);
    }
}

/// A start tag that does not fail ends behind its start.
pub proof fn lemma_start_tag_progress(b: Seq<u8>, pos: int, end: int)
    ensures
        lex_start_tag(b, pos, end).lex.err is None ==> lex_start_tag(b, pos, end).lex.pos > pos,
{
    reveal(lex_start_tag);
    lemma_qname_progress(b, pos + 1, end);
    let q = qname_at(b, pos + 1, end);
    lemma_attributes_ge(b, q->0.end, end);
}

/// `'<' Name (S Attribute)* S? ('>' | '/>')`. Returns whether the tag opens
/// an element.
pub(crate) fn parse_start_tag(s: &mut Stream, tokens: &mut Vec<SpanToken>) -> (r: Result<bool, Error>)
    requires
        old(s).inv(),
        old(s).pos < old(s).end,
        old(s).bytes()[old(s).pos as int] == 0x3c,
    ensures
        produced(
            *old(s),
            *final(s),
            old(tokens)@,
            final(tokens)@,
            match r {
                Ok(_) => Ok(()),
                Err(e) => Err(e),
            },
            lex_start_tag(old(s).bytes(), old(s).pos as int, old(s).end as int).lex,
        ),
        r matches Ok(open) ==> open == lex_start_tag(
            old(s).bytes(),
            old(s).pos as int,
            old(s).end as int,
        ).open,
        r is Ok ==> old(s).pos < final(s).pos,
{
    proof {
        reveal(lex_start_tag);
        reveal(lex_attributes);
    }
    let ghost b = s.bytes();
    proof {
        s.lemma_valid();
        lemma_ascii_step(b, s.pos as int);
        assert(old(tokens)@ + Seq::<SpanToken>::empty() =~= old(tokens)@);
    }
    let start = s.pos();
    s.advance(1);  // <
    let (prefix, local) = s.consume_qname()?;
    tokens.push(SpanToken::ElementStart(prefix, local, start));
    let ghost first = seq![SpanToken::ElementStart(prefix, local, start)];
    let ghost rest = lex_attributes(b, s.pos as int, s.end as int);
    let ghost acc = Seq::<SpanToken>::empty();
    let ghost name_end = s.pos;
    let mut open = false;
    while !s.at_end()
        invariant_except_break
            s.pos >= s.end ==> lex_attributes(b, s.pos as int, s.end as int).lex.same(
                Lex::ok(s.pos as int, Seq::empty()),
            ) && !lex_attributes(b, s.pos as int, s.end as int).open,
            rest.lex.same(lex_attributes(b, s.pos as int, s.end as int).lex.after(acc)),
            rest.open == lex_attributes(b, s.pos as int, s.end as int).open,
            !open,
        invariant
            s.inv(),
            s.text == old(s).text,
            s.end == old(s).end,
            old(s).pos < name_end <= s.pos,
            b == s.bytes(),
            b == old(s).bytes(),
            tokens@ =~= old(tokens)@ + first + acc,
            tokens_wf(acc, b),
            tokens_wf(first, b),
            lex_start_tag(b, old(s).pos as int, old(s).end as int).lex.same(rest.lex.after(first)),
            lex_start_tag(b, old(s).pos as int, old(s).end as int).open == rest.open,
        ensures
            rest.lex.same(Lex::ok(s.pos as int, acc)),
            rest.open == open,
        decreases s.end - s.pos,
    {
        proof {
            reveal(lex_attributes);
        }
        let has_space = s.starts_with_space();
        proof {
            lemma_run_end_bounds(b, s.pos as int, s.end as int, ByteClass::Space);
        }
        s.skip_spaces();
        let ghost item = lex_tag_item(b, s.pos as int, s.end as int, has_space);
        proof {
            lemma_tag_item_progress(b, s.pos as int, s.end as int, has_space);
        }
        match parse_tag_item(s, tokens, has_space) {
            Ok(step) => {
                proof {
                    lemma_wf_concat(b, acc, item.lex.tokens);
                    acc = acc + item.lex.tokens;
                }
                match step {
                    TagStep::Attribute => {},
                    TagStep::Open => {
                        open = true;
                        break ;
                    },
                    TagStep::Empty => {
                        break ;
                    },
                }
            },
            Err(e) => {
                proof {
                    lemma_wf_concat(b, acc, item.lex.tokens);
                    lemma_wf_concat(b, first, acc + item.lex.tokens);
                    assert(first + (acc + item.lex.tokens) =~= first + acc + item.lex.tokens);
                }
                return Err(e);
            },
        }
    }
    proof {
        lemma_wf_concat(b, first, acc);
    }
    Ok(open)
}

/// How an item of content changes the depth of nesting.
#[derive(Clone, Copy, PartialEq, Eq, Debug, Structural)]
pub enum Nesting {
    /// The item leaves the depth as it is.
    Same,
    /// The item is a start tag that opens an element.
    Deeper,
    /// The item is a close tag.
    Shallower,
}

/// What one item of content gives.
pub struct ContentItem {
    pub lex: Lex,
    pub nesting: Nesting,
}

/// One item of content, at a position before the end of the stream: a
/// comment, a CDATA section, a processing instruction, a close tag, a start
/// tag, or character data up to the next `<`.
#[verifier::opaque]
pub open spec fn lex_content_item(b: Seq<u8>, pos: int, end: int) -> ContentItem {
    if b[pos] != 0x3c {
        ContentItem { lex: lex_text(b, pos, end), nesting: Nesting::Same }
    } else if pos + 1 >= end {
        ContentItem {
            lex: Lex::fail(ErrorModel::UnknownToken(text_pos(b, pos))),
            nesting: Nesting::Same,
        }
    } else if b[pos + 1] == 0x21 {
        if has_prefix(b, pos, end, "<!--".spec_bytes()) {
            ContentItem { lex: lex_comment(b, pos, end), nesting: Nesting::Same }
        } else if has_prefix(b, pos, end, "<![CDATA[".spec_bytes()) {
            ContentItem { lex: lex_cdata(b, pos, end), nesting: Nesting::Same }
        } else {
            ContentItem {
                lex: Lex::fail(ErrorModel::UnknownToken(text_pos(b, pos))),
                nesting: Nesting::Same,
            }
        }
    } else if b[pos + 1] == 0x3f {
        ContentItem { lex: lex_pi(b, pos, end), nesting: Nesting::Same }
    } else if b[pos + 1] == 0x2f {
        ContentItem { lex: lex_close_element(b, pos, end), nesting: Nesting::Shallower }
    } else {
        ContentItem {
            lex: lex_start_tag(b, pos, end).lex,
            nesting: if lex_start_tag(b, pos, end).open {
                Nesting::Deeper
            } else {
                Nesting::Same
            },
        }
    }
}

/// A CDATA section that does not fail ends behind its start.
pub proof fn lemma_cdata_progress(b: Seq<u8>, pos: int, end: int)
    ensures
        lex_cdata(b, pos, end).err is None ==> lex_cdata(b, pos, end).pos > pos,
{
    reveal(lex_cdata);
    lemma_char_run_ge(b, pos + 9, end, Stop::Before("]]>"));
}

/// A close tag that does not fail ends behind its start.
pub proof fn lemma_close_element_progress(b: Seq<u8>, pos: int, end: int)
    ensures
        lex_close_element(b, pos, end).err is None ==> lex_close_element(b, pos, end).pos > pos,
{
    reveal(lex_close_element);
    lemma_qname_progress(b, pos + 2, end);
    let q = qname_at(b, pos + 2, end);
    lemma_run_end_ge(b, q->0.end, end, ByteClass::Space);
}

/// Character data that does not start with `<` and does not fail ends behind its start.
pub proof fn lemma_text_progress(b: Seq<u8>, pos: int, end: int)
    requires
        pos < end,
        b[pos] != 0x3c,
    ensures
        lex_text(b, pos, end).err is None ==> lex_text(b, pos, end).pos > pos,
{
    reveal(lex_text);
    lemma_char_run_ge(b, pos + width_at(b, pos), end, Stop::Either(0x3c, 0x3c));
}

/// An item of content that does not fail ends behind its start.
pub proof fn lemma_content_item_progress(b: Seq<u8>, pos: int, end: int)
    requires
        pos < end,
    ensures
        lex_content_item(b, pos, end).lex.err is None ==> lex_content_item(b, pos, end).lex.pos
            > pos,
{
    reveal(lex_content_item);
    if b[pos] != 0x3c {
        lemma_text_progress(b, pos, end);
    }
    lemma_comment_progress(b, pos, end);
    lemma_cdata_progress(b, pos, end);
    lemma_pi_progress(b, pos, end);
    lemma_close_element_progress(b, pos, end);
    lemma_start_tag_progress(b, pos, end);
}

/// `content ::= CharData? ((element | SpanReference | CDSect | PI | Comment) CharData?)*`:
/// items up to the end of the stream, or up to the close tag that has no
/// start tag in this content. `depth` is the number of elements that were
/// opened in this content and are not closed yet.
#[verifier::opaque]
pub open spec fn lex_content(b: Seq<u8>, pos: int, end: int, depth: nat) -> Lex
    decreases (if end > pos {
        end - pos
    } else {
        0
    }),
{
    let item = lex_content_item(b, pos, end);
    if pos >= end {
        Lex::ok(pos, Seq::empty())
    } else if item.lex.err is Some || (item.nesting == Nesting::Shallower && depth == 0) {
        item.lex
    } else {
        proof {
            lemma_content_item_progress(b, pos, end);
        }
        item.lex.followed_by(
            lex_content(
                b,
                item.lex.pos,
                end,
                match item.nesting {
                    Nesting::Same => depth,
                    Nesting::Deeper => depth + 1,
                    Nesting::Shallower => (depth - 1) as nat,
                },
            ),
        )
    }
}

/// `element ::= EmptyElemTag | STag content ETag`, from `<` on: a start tag,
/// and the content behind it where the tag opens an element.
#[verifier::opaque]
pub open spec fn lex_element(b: Seq<u8>, pos: int, end: int) -> Lex {
    let tag = lex_start_tag(b, pos, end);
    if tag.lex.err is Some || !tag.open {
        tag.lex
    } else {
        tag.lex.followed_by(lex_content(b, tag.lex.pos, end, 0))
    }
}

/// One item of content.
pub(crate) fn parse_content_item(s: &mut Stream, tokens: &mut Vec<SpanToken>) -> (r: Result<Nesting, Error>)
    requires
        old(s).inv(),
        old(s).pos < old(s).end,
    ensures
        produced(
            *old(s),
            *final(s),
            old(tokens)@,
            final(tokens)@,
            match r {
                Ok(_) => Ok(()),
                Err(e) => Err(e),
            },
            lex_content_item(old(s).bytes(), old(s).pos as int, old(s).end as int).lex,
        ),
        r matches Ok(n) ==> n == lex_content_item(
            old(s).bytes(),
            old(s).pos as int,
            old(s).end as int,
        ).nesting,
        r is Ok ==> old(s).pos < final(s).pos,
{
    proof {
        reveal(lex_start_tag);
    }
    proof {
        reveal(lex_content_item);
        assert(old(tokens)@ + Seq::<SpanToken>::empty() =~= old(tokens)@);
    }
    let c = s.curr_byte_unchecked();
    if c != 0x3c {
        parse_text(s, tokens)?;
        return Ok(Nesting::Same);
    }
    match s.next_byte() {
        Ok(n) => {
            if n == 0x21 {
                if s.starts_with("<!--".as_bytes()) {
                    parse_comment(s, tokens)?;
                    Ok(Nesting::Same)
                } else if s.starts_with("<![CDATA[".as_bytes()) {
                    parse_cdata(s, tokens)?;
                    Ok(Nesting::Same)
                } else {
                    Err(Error::UnknownToken(s.gen_text_pos()))
                }
            } else if n == 0x3f {
                proof {
                    lemma_starts_with_pi(s.bytes(), s.pos as int, s.end as int);
                }
                parse_pi(s, tokens)?;
                Ok(Nesting::Same)
            } else if n == 0x2f {
                parse_close_element(s, tokens)?;
                Ok(Nesting::Shallower)
            } else {
                if parse_start_tag(s, tokens)? {
                    Ok(Nesting::Deeper)
                } else {
                    Ok(Nesting::Same)
                }
            }
        },
        Err(_) => Err(Error::UnknownToken(s.gen_text_pos())),
    }
}

/// `<` and `?` are the two bytes of `<?`.
proof fn lemma_starts_with_pi(b: Seq<u8>, pos: int, end: int)
    requires
        0 <= pos,
        pos + 1 < end <= b.len(),
        b[pos] == 0x3c,
        b[pos + 1] == 0x3f,
    ensures
        has_prefix(b, pos, end, "<?".spec_bytes()),
{
    reveal_strlit("<?");
    is_ascii_spec_bytes("<?");
    assert(b.subrange(pos, pos + 2) =~= "<?".spec_bytes());
}

/// The content of an element, or a piece of content that stands for an
/// entity: items up to the end of the stream, or up to the close tag of the
/// element that the content belongs to.
pub fn tokenize_content(s: &mut Stream, tokens: &mut Vec<SpanToken>) -> (r: Result<(), Error>)
    requires
        old(s).inv(),
    ensures
        produced(
            *old(s),
            *final(s),
            old(tokens)@,
            final(tokens)@,
            r,
            lex_content(old(s).bytes(), old(s).pos as int, old(s).end as int, 0),
        ),
{
    proof {
        reveal(lex_content);
    }
    let ghost b = s.bytes();
    let ghost whole = lex_content(b, s.pos as int, s.end as int, 0);
    let ghost acc = Seq::<SpanToken>::empty();
    let mut depth: usize = 0;
    while !s.at_end()
        invariant_except_break
            s.pos >= s.end ==> lex_content(b, s.pos as int, s.end as int, depth as nat).same(
                Lex::ok(s.pos as int, Seq::empty()),
            ),
            whole.same(lex_content(b, s.pos as int, s.end as int, depth as nat).after(acc)),
        invariant
            s.inv(),
            s.text == old(s).text,
            s.end == old(s).end,
            old(s).pos <= s.pos,
            depth <= s.pos - old(s).pos,
            b == s.bytes(),
            whole == lex_content(b, old(s).pos as int, old(s).end as int, 0),
            tokens@ =~= old(tokens)@ + acc,
            tokens_wf(acc, b),
        ensures
            whole.same(Lex::ok(s.pos as int, acc)),
        decreases s.end - s.pos,
    {
        proof {
            reveal(lex_content);
        }
        let ghost item = lex_content_item(b, s.pos as int, s.end as int);
        proof {
            lemma_content_item_progress(b, s.pos as int, s.end as int);
        }
        match parse_content_item(s, tokens) {
            Ok(nesting) => {
                proof {
                    lemma_wf_concat(b, acc, item.lex.tokens);
                    acc = acc + item.lex.tokens;
                }
                match nesting {
                    Nesting::Same => {},
                    Nesting::Deeper => {
                        depth += 1;
                    },
                    Nesting::Shallower => {
                        if depth == 0 {
                            break ;
                        }
                        depth -= 1;
                    },
                }
            },
            Err(e) => {
                proof {
                    lemma_wf_concat(b, acc, item.lex.tokens);
                }
                return Err(e);
            },
        }
    }
    Ok(())
}

/// `element ::= EmptyElemTag | STag content ETag`
fn parse_element(s: &mut Stream, tokens: &mut Vec<SpanToken>) -> (r: Result<(), Error>)
    requires
        old(s).inv(),
        old(s).pos < old(s).end,
        old(s).bytes()[old(s).pos as int] == 0x3c,
    ensures
        produced(
            *old(s),
            *final(s),
            old(tokens)@,
            final(tokens)@,
            r,
            lex_element(old(s).bytes(), old(s).pos as int, old(s).end as int),
        ),
{
    proof {
        reveal(lex_element);
    }
    let ghost b = s.bytes();
    let ghost tag = lex_start_tag(b, s.pos as int, s.end as int);
    let ghost content = lex_content(b, tag.lex.pos, s.end as int, 0);
    let open = parse_start_tag(s, tokens)?;
    if open {
        match tokenize_content(s, tokens) {
            Ok(_) => {
                proof {
                    lemma_wf_concat(b, tag.lex.tokens, content.tokens);
                }
            },
            Err(e) => {
                proof {
                    lemma_wf_concat(b, tag.lex.tokens, content.tokens);
                }
                return Err(e);
            },
        }
    }
    Ok(())
}

/// The root element and what may stand behind it: optional spaces, an
/// optional element, comments and processing instructions, and nothing
/// behind them.
#[verifier::opaque]
pub open spec fn lex_root(b: Seq<u8>, pos: int, end: int) -> Lex {
    let p = run_end(b, pos, end, ByteClass::Space);
    let root = if p < end && b[p] == 0x3c {
        lex_element(b, p, end)
    } else {
        Lex::ok(p, Seq::empty())
    };
    let misc = lex_misc(b, root.pos, end);
    let rest = if misc.pos < end {
        Lex::fail(ErrorModel::UnknownToken(text_pos(b, misc.pos)))
    } else {
        Lex::ok(misc.pos, Seq::empty())
    };
    root.followed_by(misc).followed_by(rest)
}

/// What stands behind the first comments and processing instructions:
/// optional spaces, an optional document type declaration, which is an error
/// unless `allow_dtd` is set, with comments and processing instructions
/// behind it, and the root element with what follows it.
#[verifier::opaque]
pub open spec fn lex_doctype_and_root(b: Seq<u8>, pos: int, end: int, allow_dtd: bool) -> Lex {
    let p = run_end(b, pos, end, ByteClass::Space);
    let dtd = lex_doctype(b, p, end);
    let misc = lex_misc(b, dtd.pos, end);
    if !has_prefix(b, p, end, "<!DOCTYPE".spec_bytes()) {
        lex_root(b, p, end)
    } else if !allow_dtd {
        Lex::fail(ErrorModel::DtdDetected)
    } else {
        dtd.followed_by(misc).followed_by(lex_root(b, misc.pos, end))
    }
}

/// `document ::= prolog element Misc*`: an optional byte order mark, an
/// optional XML declaration, comments and processing instructions, an
/// optional document type declaration, and the root element with the
/// comments and processing instructions behind it.
pub open spec fn lex_document(b: Seq<u8>, allow_dtd: bool) -> Lex {
    let end = b.len() as int;
    let after_bom = if has_prefix(b, 0, end, "\u{feff}".spec_bytes()) {
        3int
    } else {
        0int
    };
    let has_decl = has_prefix(b, after_bom, end, "<?xml ".spec_bytes());
    let decl = lex_declaration(b, after_bom, end);
    let at1 = if has_decl {
        decl->Ok_0
    } else {
        after_bom
    };
    let misc = lex_misc(b, at1, end);
    if has_decl && decl is Err {
        Lex::fail(decl->Err_0)
    } else {
        misc.followed_by(lex_doctype_and_root(b, misc.pos, end, allow_dtd))
    }
}

fn tokenize_root(s: &mut Stream, tokens: &mut Vec<SpanToken>) -> (r: Result<(), Error>)
    requires
        old(s).inv(),
    ensures
        produced(
            *old(s),
            *final(s),
            old(tokens)@,
            final(tokens)@,
            r,
            lex_root(old(s).bytes(), old(s).pos as int, old(s).end as int),
        ),
{
    let ghost b = s.bytes();
    proof {
        reveal(lex_root);
        assert(old(tokens)@ + Seq::<SpanToken>::empty() =~= old(tokens)@);
    }
    s.skip_spaces();
    let ghost mut a = Seq::<SpanToken>::empty();
    if !s.at_end() && s.curr_byte_unchecked() == 0x3c {
        let ghost root = lex_element(b, s.pos as int, s.end as int);
        parse_element(s, tokens)?;
        proof {
            a = root.tokens;
        }
    }
    let ghost misc = lex_misc(b, s.pos as int, s.end as int);
    let r = parse_misc(s, tokens);
    proof {
        lemma_wf_concat(b, a, misc.tokens);
        assert(a + misc.tokens + Seq::<SpanToken>::empty() =~= a + misc.tokens);
        assert(Seq::<SpanToken>::empty() + misc.tokens =~= misc.tokens);
    }
    match r {
        Ok(_) => {},
        Err(e) => {
            return Err(e);
        },
    }
    if !s.at_end() {
        return Err(Error::UnknownToken(s.gen_text_pos()));
    }
    Ok(())
}

fn tokenize_doctype_and_root(s: &mut Stream, tokens: &mut Vec<SpanToken>, allow_dtd: bool) -> (r:
    Result<(), Error>)
    requires
        old(s).inv(),
    ensures
        produced(
            *old(s),
            *final(s),
            old(tokens)@,
            final(tokens)@,
            r,
            lex_doctype_and_root(old(s).bytes(), old(s).pos as int, old(s).end as int, allow_dtd),
        ),
{
    let ghost b = s.bytes();
    proof {
        reveal(lex_doctype_and_root);
        assert(old(tokens)@ + Seq::<SpanToken>::empty() =~= old(tokens)@);
    }
    s.skip_spaces();
    if s.starts_with("<!DOCTYPE".as_bytes()) {
        if !allow_dtd {
            return Err(Error::DtdDetected);
        }
        let ghost dtd = lex_doctype(b, s.pos as int, s.end as int);
        parse_doctype(s, tokens)?;
        let ghost misc = lex_misc(b, s.pos as int, s.end as int);
        let r = parse_misc(s, tokens);
        proof {
            lemma_wf_concat(b, dtd.tokens, misc.tokens);
        }
        match r {
            Ok(_) => {},
            Err(e) => {
                return Err(e);
            },
        }
        let ghost root = lex_root(b, s.pos as int, s.end as int);
        let r = tokenize_root(s, tokens);
        proof {
            lemma_wf_concat(b, dtd.tokens + misc.tokens, root.tokens);
        }
        r
    } else {
        tokenize_root(s, tokens)
    }
}

/// The tokens of a document, appended to `tokens` up to the first error.
pub fn tokenize(text: &str, allow_dtd: bool, tokens: &mut Vec<SpanToken>) -> (r: Result<(), Error>)
    ensures
        final(tokens)@ =~= old(tokens)@ + lex_document(text.spec_bytes(), allow_dtd).tokens,
        tokens_wf(lex_document(text.spec_bytes(), allow_dtd).tokens, text.spec_bytes()),
        lift(r) == match lex_document(text.spec_bytes(), allow_dtd).err {
            None => Ok::<(), ErrorModel>(()),
            Some(e) => Err(e),
        },
{
    let ghost b = text.spec_bytes();
    let ghost t0 = tokens@;
    let mut stream = Stream::new(text);
    let s = &mut stream;
    proof {
        lemma_literals();
        assert(t0 + Seq::<SpanToken>::empty() =~= t0);
    }
    // Skip UTF-8 BOM.
    if s.starts_with("\u{feff}".as_bytes()) {
        skip_lit(s, "\u{feff}");
    }
    if s.starts_with("<?xml ".as_bytes()) {
        parse_declaration(s)?;
    }
    let ghost misc = lex_misc(b, s.pos as int, s.end as int);
    parse_misc(s, tokens)?;
    let ghost rest = lex_doctype_and_root(b, s.pos as int, s.end as int, allow_dtd);
    let r = tokenize_doctype_and_root(s, tokens, allow_dtd);
    proof {
        lemma_wf_concat(b, misc.tokens, rest.tokens);
    }
    r
}

/// A consumer of tokens.
pub trait XmlEvents<'input> {
    /// Takes the next token of a document. An error ends the parsing.
    fn token(&mut self, token: Token<'input>) -> Result<(), Error>;
}

/// What parsing returns: the error of the consumer of the tokens, if it
/// gave one, else the error that ended the tokens, if there is one.
pub fn first_error(handled: Result<(), Error>, lexed: Result<(), Error>) -> (r: Result<(), Error>)
    ensures
        r == match handled {
            Err(e) => Err::<(), Error>(e),
            Ok(_) => lexed,
        },
{
    match handled {
        Err(e) => Err(e),
        Ok(_) => lexed,
    }
}

/// What the consumer returned for the token `i` of the `n` tokens that it
/// was handed, where `r` is what came of handing them: an error is the
/// result for the last of them, and the result for every other is `Ok`.
pub open spec fn returned_for(r: Result<(), Error>, i: int, n: int) -> Result<(), Error> {
    if r is Err && i == n - 1 {
        r
    } else {
        Ok(())
    }
}

/// The consumer was handed `n` of `total` tokens with the result `handled`:
/// without an error it was handed them all, and an error is the result
/// for a token that it was handed.
pub open spec fn handed(n: int, total: int, handled: Result<(), Error>) -> bool {
    &&& 0 <= n <= total
    &&& handled is Ok ==> n == total
    &&& handled is Err ==> n >= 1
}

/// What parsing returns, where `handled` is what came of handing the
/// tokens to their consumer and `err` is the error that ended the tokens,
/// if there is one: the error of the consumer, else the error of the tokens.
pub open spec fn settled(
    handled: Result<(), Error>,
    err: Option<ErrorModel>,
    r: Result<(), Error>,
) -> bool {
    match handled {
        Err(_) => r == handled,
        Ok(_) => lift(r) == match err {
            None => Ok::<(), ErrorModel>(()),
            Some(e) => Err(e),
        },
    }
}

/// The tokens `shown` are the first `n` of the tokens `tokens` of the text
/// `b`, each with its texts as slices of the text.
pub open spec fn lined_up(n: int, shown: Seq<Token>, tokens: Seq<SpanToken>, b: Seq<u8>) -> bool {
    &&& shown.len() == n
    &&& n <= tokens.len()
    &&& forall|i: int| 0 <= i < n ==> (#[trigger] shown[i]).shows(tokens[i], b)
}

/// Hands the tokens of `text` to their consumer, one after another and each
/// with its texts as slices of `text`, up to the first error of the
/// consumer. `calls` are the calls that were made, each by the reference
/// to the consumer that it was made with, and `shown` are the tokens that
/// they took: the call `i` took the token `i`, and each call found the
/// consumer as the call before it left it. Without an error every token
/// was handed, and an error is what the consumer returned for the last
/// token that it was handed.
pub fn feed<'input, E: XmlEvents<'input>>(
    text: &'input str,
    tokens: &Vec<SpanToken>,
    events: &mut E,
) -> (r: Result<(), Error>)
    requires
        tokens_wf(tokens@, text.spec_bytes()),
    ensures
        exists|calls: Seq<&mut E>, shown: Seq<Token<'input>>|
            {
                &&& #[trigger] lined_up(calls.len() as int, shown, tokens@, text.spec_bytes())
                &&& *final(events) == if calls.len() == 0 {
                    *old(events)
                } else {
                    *final(calls[calls.len() - 1])
                }
                &&& forall|i: int|
                    0 <= i < calls.len() ==> *(#[trigger] calls[i]) == if i == 0 {
                        *old(events)
                    } else {
                        *final(calls[i - 1])
                    }
                &&& forall|i: int|
                    0 <= i < calls.len() ==> call_ensures(
                        E::token,
                        (#[trigger] calls[i], shown[i]),
                        returned_for(r, i, calls.len() as int),
                    )
                &&& handed(calls.len() as int, tokens@.len() as int, r)
            },
{
    let ghost b = text.spec_bytes();
    let ghost mut shown: Seq<Token<'input>> = Seq::empty();
    let mut k: usize = 0;
    proof {
        // No call was made yet.
        assert(Seq::<&mut E>::empty().len() == 0);
    }
    while k < tokens.len()
        invariant
            k <= tokens@.len(),
            b == text.spec_bytes(),
            tokens_wf(tokens@, b),
            lined_up(k as int, shown, tokens@, b),
            exists|calls: Seq<&mut E>|
                {
                    &&& #[trigger] calls.len() == k
                    &&& *events == if k == 0 {
                        *old(events)
                    } else {
                        *final(calls[k - 1])
                    }
                    &&& forall|i: int|
                        0 <= i < k ==> *(#[trigger] calls[i]) == if i == 0 {
                            *old(events)
                        } else {
                            *final(calls[i - 1])
                        }
                    &&& forall|i: int|
                        0 <= i < k ==> call_ensures(
                            E::token,
                            (#[trigger] calls[i], shown[i]),
                            Ok::<(), Error>(()),
                        )
                },
        decreases tokens@.len() - k,
    {
        let ghost state = *events;
        let ghost earlier = choose|calls: Seq<&mut E>|
            {
                &&& #[trigger] calls.len() == k
                &&& state == if k == 0 {
                    *old(events)
                } else {
                    *final(calls[k - 1])
                }
                &&& forall|i: int|
                    0 <= i < k ==> *(#[trigger] calls[i]) == if i == 0 {
                        *old(events)
                    } else {
                        *final(calls[i - 1])
                    }
                &&& forall|i: int|
                    0 <= i < k ==> call_ensures(
                        E::token,
                        (#[trigger] calls[i], shown[i]),
                        Ok::<(), Error>(()),
                    )
            };
        let ghost shown_earlier = shown;
        proof {
            assert(tokens@[k as int].wf(b));
        }
        let token = tokens[k].in_text(text);
        let ghost taken = token;
        let handled = events.token(token);
        proof {
            assert(exists|m: &mut E|
                *m == state && *final(m) == *events && #[trigger] call_ensures(
                    E::token,
                    (m, taken),
                    handled,
                ));
            shown = shown.push(taken);
        }
        let ghost call = choose|m: &mut E|
            *m == state && *final(m) == *events && #[trigger] call_ensures(
                E::token,
                (m, taken),
                handled,
            );
        let ghost calls = earlier.push(call);
        proof {
            assert(calls.len() == k + 1);
            assert forall|i: int| 0 <= i < k + 1 implies (#[trigger] shown[i]).shows(
                tokens@[i],
                b,
            ) by {
                if i < k {
                    assert(shown[i] == shown_earlier[i]);
                }
            }
            assert(lined_up(k + 1, shown, tokens@, b));
            assert forall|i: int| 0 <= i < k + 1 implies *(#[trigger] calls[i]) == if i == 0 {
                *old(events)
            } else {
                *final(calls[i - 1])
            } by {
                if i < k {
                    assert(calls[i] == earlier[i]);
                }
                if 0 < i {
                    assert(calls[i - 1] == earlier[i - 1]);
                }
            }
            assert forall|i: int| 0 <= i < k + 1 implies call_ensures(
                E::token,
                (#[trigger] calls[i], shown[i]),
                returned_for(handled, i, k + 1),
            ) by {
                if i < k {
                    assert(calls[i] == earlier[i]);
                    assert(shown[i] == shown_earlier[i]);
                }
                match handled {
                    Ok(u) => {
                        assert(u == ());
                    },
                    Err(_) => {},
                }
            }
        }
        match handled {
            Ok(u) => {
                proof {
                    assert(u == ());
                    assert forall|i: int| 0 <= i < k + 1 implies call_ensures(
                        E::token,
                        (#[trigger] calls[i], shown[i]),
                        Ok::<(), Error>(()),
                    ) by {
                        assert(returned_for(handled, i, k + 1) == Ok::<(), Error>(()));
                    }
                }
            },
            Err(e) => {
                proof {
                    assert(handed(calls.len() as int, tokens@.len() as int, Err(e)));
                }
                return Err(e);
            },
        }
        k += 1;
    }
    proof {
        let calls = choose|calls: Seq<&mut E>|
            {
                &&& #[trigger] calls.len() == k
                &&& *events == if k == 0 {
                    *old(events)
                } else {
                    *final(calls[k - 1])
                }
                &&& forall|i: int|
                    0 <= i < k ==> *(#[trigger] calls[i]) == if i == 0 {
                        *old(events)
                    } else {
                        *final(calls[i - 1])
                    }
                &&& forall|i: int|
                    0 <= i < k ==> call_ensures(
                        E::token,
                        (#[trigger] calls[i], shown[i]),
                        Ok::<(), Error>(()),
                    )
            };
        assert(calls.len() == tokens@.len());
        assert(lined_up(calls.len() as int, shown, tokens@, b));
        assert(handed(calls.len() as int, tokens@.len() as int, Ok(())));
        assert forall|i: int| 0 <= i < calls.len() implies call_ensures(
            E::token,
            (#[trigger] calls[i], shown[i]),
            returned_for(Ok(()), i, calls.len() as int),
        ) by {
            assert(returned_for(Ok(()), i, calls.len() as int) == Ok::<(), Error>(()));
        }
    }
    Ok(())
}

/// Parses a document and hands its tokens to `events`: the tokens up to
/// the first error, be it an error of `events` or the error that ends the tokens.
///
/// `calls` are the calls of `events` that were made and `shown` the tokens
/// that they took, as in [`feed`], and `handled` is what came of them:
/// the call `i` took the token `i` of the document, and the result is the
/// error of `events`, else that of the tokens.
///
/// `document ::= prolog element Misc*`
pub fn parse<'input, E: XmlEvents<'input>>(text: &'input str, allow_dtd: bool, events: &mut E) -> (r:
    Result<(), Error>)
    ensures
        r is Ok ==> lex_document(text.spec_bytes(), allow_dtd).err is None,
        exists|calls: Seq<&mut E>, shown: Seq<Token<'input>>, handled: Result<(), Error>|
            {
                &&& #[trigger] lined_up(
                    calls.len() as int,
                    shown,
                    lex_document(text.spec_bytes(), allow_dtd).tokens,
                    text.spec_bytes(),
                )
                &&& #[trigger] handed(
                    calls.len() as int,
                    lex_document(text.spec_bytes(), allow_dtd).tokens.len() as int,
                    handled,
                )
                &&& settled(handled, lex_document(text.spec_bytes(), allow_dtd).err, r)
                &&& *final(events) == if calls.len() == 0 {
                    *old(events)
                } else {
                    *final(calls[calls.len() - 1])
                }
                &&& forall|i: int|
                    0 <= i < calls.len() ==> *(#[trigger] calls[i]) == if i == 0 {
                        *old(events)
                    } else {
                        *final(calls[i - 1])
                    }
                &&& forall|i: int|
                    0 <= i < calls.len() ==> call_ensures(
                        E::token,
                        (#[trigger] calls[i], shown[i]),
                        returned_for(handled, i, calls.len() as int),
                    )
            },
{
    let mut tokens: Vec<SpanToken> = Vec::new();
    let lexed = tokenize(text, allow_dtd, &mut tokens);
    let ghost l = lex_document(text.spec_bytes(), allow_dtd);
    proof {
        assert(tokens@ =~= l.tokens);
    }
    let handled = feed(text, &tokens, events);
    let r = first_error(handled, lexed);
    proof {
        let (calls, shown) = choose|calls: Seq<&mut E>, shown: Seq<Token<'input>>|
            {
                &&& #[trigger] lined_up(calls.len() as int, shown, tokens@, text.spec_bytes())
                &&& handed(calls.len() as int, tokens@.len() as int, handled)
                &&& *events == if calls.len() == 0 {
                    *old(events)
                } else {
                    *final(calls[calls.len() - 1])
                }
                &&& forall|i: int|
                    0 <= i < calls.len() ==> *(#[trigger] calls[i]) == if i == 0 {
                        *old(events)
                    } else {
                        *final(calls[i - 1])
                    }
                &&& forall|i: int|
                    0 <= i < calls.len() ==> call_ensures(
                        E::token,
                        (#[trigger] calls[i], shown[i]),
                        returned_for(handled, i, calls.len() as int),
                    )
            };
        assert(lined_up(calls.len() as int, shown, l.tokens, text.spec_bytes()));
        assert(handed(calls.len() as int, l.tokens.len() as int, handled));
        assert(settled(handled, l.err, r));
    }
    r
}

/// Parses the content that stands at the stream and hands its tokens to
/// `events`: the tokens up to the first error, be it an error of `events`
/// or the error that ends the tokens. `calls`, `shown` and `handled` are
/// as in [`parse`].
///
/// `content ::= CharData? ((element | SpanReference | CDSect | PI | Comment) CharData?)*`
pub fn parse_content<'input, E: XmlEvents<'input>>(s: &mut Stream<'input>, events: &mut E) -> (r:
    Result<(), Error>)
    requires
        old(s).inv(),
    ensures
        r is Ok ==> lex_content(old(s).bytes(), old(s).pos as int, old(s).end as int, 0).err
            is None && final(s).moved(
            *old(s),
            lex_content(old(s).bytes(), old(s).pos as int, old(s).end as int, 0).pos,
        ),
        exists|calls: Seq<&mut E>, shown: Seq<Token<'input>>, handled: Result<(), Error>|
            {
                &&& #[trigger] lined_up(
                    calls.len() as int,
                    shown,
                    lex_content(old(s).bytes(), old(s).pos as int, old(s).end as int, 0).tokens,
                    old(s).bytes(),
                )
                &&& #[trigger] handed(
                    calls.len() as int,
                    lex_content(
                        old(s).bytes(),
                        old(s).pos as int,
                        old(s).end as int,
                        0,
                    ).tokens.len() as int,
                    handled,
                )
                &&& settled(
                    handled,
                    lex_content(old(s).bytes(), old(s).pos as int, old(s).end as int, 0).err,
                    r,
                )
                &&& *final(events) == if calls.len() == 0 {
                    *old(events)
                } else {
                    *final(calls[calls.len() - 1])
                }
                &&& forall|i: int|
                    0 <= i < calls.len() ==> *(#[trigger] calls[i]) == if i == 0 {
                        *old(events)
                    } else {
                        *final(calls[i - 1])
                    }
                &&& forall|i: int|
                    0 <= i < calls.len() ==> call_ensures(
                        E::token,
                        (#[trigger] calls[i], shown[i]),
                        returned_for(handled, i, calls.len() as int),
                    )
            },
{
    let text = s.text;
    let mut tokens: Vec<SpanToken> = Vec::new();
    let lexed = tokenize_content(s, &mut tokens);
    let ghost l = lex_content(old(s).bytes(), old(s).pos as int, old(s).end as int, 0);
    proof {
        assert(tokens@ =~= l.tokens);
    }
    let handled = feed(text, &tokens, events);
    let r = first_error(handled, lexed);
    proof {
        let (calls, shown) = choose|calls: Seq<&mut E>, shown: Seq<Token<'input>>|
            {
                &&& #[trigger] lined_up(calls.len() as int, shown, tokens@, text.spec_bytes())
                &&& handed(calls.len() as int, tokens@.len() as int, handled)
                &&& *events == if calls.len() == 0 {
                    *old(events)
                } else {
                    *final(calls[calls.len() - 1])
                }
                &&& forall|i: int|
                    0 <= i < calls.len() ==> *(#[trigger] calls[i]) == if i == 0 {
                        *old(events)
                    } else {
                        *final(calls[i - 1])
                    }
                &&& forall|i: int|
                    0 <= i < calls.len() ==> call_ensures(
                        E::token,
                        (#[trigger] calls[i], shown[i]),
                        returned_for(handled, i, calls.len() as int),
                    )
            };
        assert(lined_up(calls.len() as int, shown, l.tokens, old(s).bytes()));
        assert(handed(calls.len() as int, l.tokens.len() as int, handled));
        assert(settled(handled, l.err, r));
    }
    r
}

} // verus!
