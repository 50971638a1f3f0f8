//! A cursor over the text, with the lexical primitives of the XML grammar.

use core::ops::Range;
use crate::error::{Error, ErrorModel};
use crate::strings::{decode_at, is_boundary, lemma_char_at, scalar_at, slice_str, width_at};
use crate::textpos::{text_pos, text_pos_at, TextPos};
use crate::xmlchar::{
    is_xml_char, is_xml_name, is_xml_name_byte, is_xml_name_start, is_xml_space, spec_is_xml_char,
    spec_is_xml_name, spec_is_xml_name_byte, spec_is_xml_name_start, spec_is_xml_space,
};
use vstd::prelude::*;
use vstd::string::*;
use vstd::utf8::*;

verus! {

/// A half-open range of bytes of the text.
#[derive(Clone, Copy, PartialEq, Eq, Debug, Structural)]
pub struct Span {
    pub start: usize,
    pub end: usize,
}

impl Span {
    pub fn new(start: usize, end: usize) -> (r: Span)
        ensures
            r == (Span { start, end }),
    {
        Span { start, end }
    }

    /// The bytes of `b` that the span covers.
    pub open spec fn of(self, b: Seq<u8>) -> Seq<u8> {
        b.subrange(self.start as int, self.end as int)
    }

    /// The span lies in `b` and both its ends are character boundaries.
    pub open spec fn wf(self, b: Seq<u8>) -> bool {
        self.start <= self.end <= b.len() && is_boundary(b, self.start as int) && is_boundary(
            b,
            self.end as int,
        )
    }

    pub open spec fn spec_is_empty(self) -> bool {
        self.start >= self.end
    }

    #[verifier::when_used_as_spec(spec_is_empty)]
    pub fn is_empty(self) -> (r: bool)
        ensures
            r == self.spec_is_empty(),
    {
        self.start >= self.end
    }

    pub fn len(self) -> (r: usize)
        ensures
            r == if self.start <= self.end {
                self.end - self.start
            } else {
                0
            },
    {
        if self.start <= self.end {
            self.end - self.start
        } else {
            0
        }
    }
}

/// A string slice.
///
/// Like `&str`, but also contains the position in the input XML
/// from which it was parsed.
#[must_use]
#[derive(Clone, Copy)]
pub struct StrSpan<'input> {
    pub text: &'input str,
    pub start: usize,
}

impl<'input> StrSpan<'input> {
    /// The part of `text` from `start` to `end`, which are character boundaries.
    pub fn from_substr(text: &'input str, start: usize, end: usize) -> (r: StrSpan<'input>)
        requires
            (Span { start, end }).wf(text.spec_bytes()),
        ensures
            r.text.spec_bytes() == text.spec_bytes().subrange(start as int, end as int),
            r.start == start,
    {
        StrSpan { text: slice_str(text, start, end), start }
    }

    /// The byte range of the slice in the text it was taken from.
    pub fn range(&self) -> (r: Range<usize>)
        requires
            self.start + self.text.spec_bytes().len() <= usize::MAX,
        ensures
            r.start == self.start,
            r.end == self.start + self.text.spec_bytes().len(),
    {
        self.start..(self.start + self.text.as_bytes().len())
    }

    pub fn as_str(&self) -> (r: &'input str)
        ensures
            r == self.text,
    {
        self.text
    }
}

/// Representation of the [Reference](https://www.w3.org/TR/xml/#NT-Reference) value.
#[derive(Clone, Copy)]
pub enum Reference<'input> {
    /// An entity reference.
    ///
    /// <https://www.w3.org/TR/xml/#NT-EntityRef>
    Entity(&'input str),
    /// A character reference.
    ///
    /// <https://www.w3.org/TR/xml/#NT-CharRef>
    Char(char),
}

impl<'input> Reference<'input> {
    /// The reference is the reference `r` of the text `b`: the name of an
    /// entity is the bytes that the span covers.
    pub open spec fn shows(self, r: SpanReference, b: Seq<u8>) -> bool {
        match self {
            Reference::Entity(name) => r matches SpanReference::Entity(s) && name.spec_bytes()
                == s.of(b),
            Reference::Char(c) => r == SpanReference::Char(c),
        }
    }
}

/// A reference by its place in the input: the name of an entity is given
/// by its span.
#[derive(Clone, Copy)]
pub enum SpanReference {
    /// An entity reference, by the span of its name.
    ///
    /// <https://www.w3.org/TR/xml/#NT-EntityRef>
    Entity(Span),
    /// A character reference.
    ///
    /// <https://www.w3.org/TR/xml/#NT-CharRef>
    Char(char),
}

/// A set of bytes that a run is made of.
#[derive(Clone, Copy)]
pub enum ByteClass {
    /// Space, tab, line feed, carriage return.
    Space,
    /// `0` to `9`.
    Digit,
    /// `0` to `9`, `a` to `f`, `A` to `F`.
    HexDigit,
    /// Every byte but the given one.
    Not(u8),
}

impl ByteClass {
    pub open spec fn spec_has(self, b: u8) -> bool {
        match self {
            ByteClass::Space => spec_is_xml_space(b),
            ByteClass::Digit => 0x30 <= b <= 0x39,
            ByteClass::HexDigit => (0x30 <= b <= 0x39) || (0x41 <= b <= 0x46) || (0x61 <= b
                <= 0x66),
            ByteClass::Not(c) => b != c,
        }
    }

    /// A run of the class ends at a character boundary.
    pub open spec fn ends_at_boundary(self) -> bool {
        match self {
            ByteClass::Not(c) => c < 0x80,
            _ => true,
        }
    }

    #[verifier::when_used_as_spec(spec_has)]
    pub fn has(self, b: u8) -> (r: bool)
        ensures
            r == self.spec_has(b),
    {
        match self {
            ByteClass::Space => is_xml_space(b),
            ByteClass::Digit => 0x30 <= b && b <= 0x39,
            ByteClass::HexDigit => (0x30 <= b && b <= 0x39) || (0x41 <= b && b <= 0x46) || (0x61
                <= b && b <= 0x66),
            ByteClass::Not(c) => b != c,
        }
    }
}

/// Where a run of characters stops.
#[derive(Clone, Copy)]
pub enum Stop<'a> {
    /// Before either of two ASCII characters.
    Either(u8, u8),
    /// Before the given text.
    Before(&'a str),
}

impl<'a> Stop<'a> {
    pub open spec fn at(self, b: Seq<u8>, pos: int, end: int) -> bool {
        match self {
            Stop::Either(x, y) => b[pos] == x || b[pos] == y,
            Stop::Before(lit) => has_prefix(b, pos, end, lit.spec_bytes()),
        }
    }
}

/// `lit` stands at `pos` and ends no later than `end`.
pub open spec fn has_prefix(b: Seq<u8>, pos: int, end: int, lit: Seq<u8>) -> bool {
    pos + lit.len() <= end && b.subrange(pos, pos + lit.len()) == lit
}

/// Where the run of bytes of `class` that starts at `pos` ends: the first
/// position from `pos` on whose byte is not of the class, or `end`.
pub open spec fn run_end(b: Seq<u8>, pos: int, end: int, class: ByteClass) -> int
    decreases end - pos,
{
    if pos < end && class.spec_has(b[pos]) {
        run_end(b, pos + 1, end, class)
    } else {
        pos
    }
}

/// What a run of characters ends in.
pub struct CharRun {
    /// Where the run ends.
    pub pos: int,
    /// The code point that is no XML character, where the run ends at one.
    pub bad: Option<u32>,
}

/// The run of XML characters from `pos` up to where `stop` holds, or to `end`.
/// A character that XML does not allow ends the run with an error, also where
/// `stop` would hold there.
pub open spec fn char_run(b: Seq<u8>, pos: int, end: int, stop: Stop) -> CharRun
    decreases (if end > pos {
        end - pos
    } else {
        0
    }),
{
    if pos >= end {
        CharRun { pos, bad: None }
    } else if !spec_is_xml_char(scalar_at(b, pos)) {
        CharRun { pos, bad: Some(scalar_at(b, pos)) }
    } else if stop.at(b, pos, end) {
        CharRun { pos, bad: None }
    } else {
        char_run(b, pos + width_at(b, pos), end, stop)
    }
}

/// Where the run of name characters that starts at `pos` ends.
pub open spec fn name_chars_end(b: Seq<u8>, pos: int, end: int) -> int
    decreases (if end > pos {
        end - pos
    } else {
        0
    }),
{
    if pos < end && spec_is_xml_name(scalar_at(b, pos)) {
        name_chars_end(b, pos + width_at(b, pos), end)
    } else {
        pos
    }
}

/// Where the name that starts at `pos` ends, or `None` where the first
/// character cannot start a name. At the end of the stream the name is empty.
pub open spec fn name_end(b: Seq<u8>, pos: int, end: int) -> Option<int> {
    if pos >= end {
        Some(pos)
    } else if spec_is_xml_name_start(scalar_at(b, pos)) {
        Some(name_chars_end(b, pos + width_at(b, pos), end))
    } else {
        None
    }
}

/// How far the characters of a qualified name reach.
pub struct QNameScan {
    /// Where the scan stopped.
    pub pos: int,
    /// The position of the first colon.
    pub colon: Option<int>,
    /// The scan stopped at a second colon.
    pub second_colon: bool,
}

pub open spec fn qname_scan(b: Seq<u8>, pos: int, end: int, colon: Option<int>) -> QNameScan
    decreases (if end > pos {
        end - pos
    } else {
        0
    }),
{
    if pos >= end {
        QNameScan { pos, colon, second_colon: false }
    } else if b[pos] < 128 {
        if b[pos] == 0x3a {
            if colon is None {
                qname_scan(b, pos + 1, end, Some(pos))
            } else {
                QNameScan { pos, colon, second_colon: true }
            }
        } else if spec_is_xml_name_byte(b[pos]) {
            qname_scan(b, pos + 1, end, colon)
        } else {
            QNameScan { pos, colon, second_colon: false }
        }
    } else if spec_is_xml_name(scalar_at(b, pos)) {
        qname_scan(b, pos + width_at(b, pos), end, colon)
    } else {
        QNameScan { pos, colon, second_colon: false }
    }
}

/// A qualified name: prefix, local name and where it ends.
pub struct QName {
    pub prefix: Span,
    pub local: Span,
    pub end: int,
}

/// The qualified name at `pos`: name characters with at most one colon, where
/// prefix and local name each start with a name start character and the local
/// name is not empty.
pub open spec fn qname_at(b: Seq<u8>, pos: int, end: int) -> Option<QName> {
    let scan = qname_scan(b, pos, end, None);
    let prefix_end = match scan.colon {
        Some(k) => k,
        None => pos,
    };
    let local_start = match scan.colon {
        Some(k) => k + 1,
        None => pos,
    };
    if scan.second_colon {
        None
    } else if pos < prefix_end && !spec_is_xml_name_start(scalar_at(b, pos)) {
        None
    } else if local_start >= scan.pos || !spec_is_xml_name_start(scalar_at(b, local_start)) {
        None
    } else {
        Some(
            QName {
                prefix: Span { start: pos as usize, end: prefix_end as usize },
                local: Span { start: local_start as usize, end: scan.pos as usize },
                end: scan.pos,
            },
        )
    }
}

/// A scan for a qualified name moves forward, and its colon lies in what it moved over.
pub proof fn lemma_qname_scan_bounds(b: Seq<u8>, pos: int, end: int, colon: Option<int>)
    ensures
        pos <= qname_scan(b, pos, end, colon).pos,
        colon is Some ==> qname_scan(b, pos, end, colon).colon == colon,
        colon is None ==> match qname_scan(b, pos, end, colon).colon {
            Some(k) => pos <= k < qname_scan(b, pos, end, colon).pos,
            None => true,
        },
    decreases (if end > pos {
        end - pos
    } else {
        0
    }),
{
    if pos >= end {
    } else if b[pos] < 128 {
        if b[pos] == 0x3a {
            if colon is None {
                lemma_qname_scan_bounds(b, pos + 1, end, Some(pos));
            }
        } else if spec_is_xml_name_byte(b[pos]) {
            lemma_qname_scan_bounds(b, pos + 1, end, colon);
        }
    } else if spec_is_xml_name(scalar_at(b, pos)) {
        lemma_qname_scan_bounds(b, pos + width_at(b, pos), end, colon);
    }
}

/// A qualified name is not empty.
pub proof fn lemma_qname_progress(b: Seq<u8>, pos: int, end: int)
    ensures
        qname_at(b, pos, end) is Some ==> qname_at(b, pos, end)->0.end > pos,
{
    lemma_qname_scan_bounds(b, pos, end, None);
}

/// A reference ends behind its start.
pub proof fn lemma_reference_progress(b: Seq<u8>, pos: int, end: int)
    ensures
        reference_at(b, pos, end) matches Some((_, p)) ==> p > pos,
{
    let hex = pos + 2 < end && b[pos + 2] == 0x78;
    lemma_run_end_ge(b, pos + 3, end, ByteClass::HexDigit);
    lemma_run_end_ge(b, pos + 2, end, ByteClass::Digit);
    if pos + 1 < end && name_end(b, pos + 1, end) is Some {
        lemma_name_chars_ge(b, pos + 1 + width_at(b, pos + 1), end);
    }
}

/// A run of characters ends at or behind its start.
pub proof fn lemma_char_run_ge(b: Seq<u8>, pos: int, end: int, stop: Stop)
    ensures
        char_run(b, pos, end, stop).pos >= pos,
    decreases (if end > pos {
        end - pos
    } else {
        0
    }),
{
    if pos >= end {
    } else if !spec_is_xml_char(scalar_at(b, pos)) {
    } else if stop.at(b, pos, end) {
    } else {
        lemma_char_run_ge(b, pos + width_at(b, pos), end, stop);
    }
}

/// A run of bytes ends at or behind its start.
pub proof fn lemma_run_end_ge(b: Seq<u8>, pos: int, end: int, class: ByteClass)
    ensures
        run_end(b, pos, end, class) >= pos,
    decreases end - pos,
{
    if pos < end && class.spec_has(b[pos]) {
        lemma_run_end_ge(b, pos + 1, end, class);
    }
}

/// The characters of a name end at or behind their start.
pub proof fn lemma_name_chars_ge(b: Seq<u8>, pos: int, end: int)
    ensures
        name_chars_end(b, pos, end) >= pos,
    decreases (if end > pos {
        end - pos
    } else {
        0
    }),
{
    if pos < end && spec_is_xml_name(scalar_at(b, pos)) {
        lemma_name_chars_ge(b, pos + width_at(b, pos), end);
    }
}

/// The number that the digits in `[start, end)` write in the given radix.
pub open spec fn digits_value(b: Seq<u8>, start: int, end: int, radix: int) -> int
    decreases end - start,
{
    if end <= start {
        0
    } else {
        digits_value(b, start, end - 1, radix) * radix + digit_value(b[end - 1])
    }
}

pub open spec fn digit_value(d: u8) -> int {
    if 0x30 <= d <= 0x39 {
        d - 0x30
    } else if 0x41 <= d <= 0x46 {
        d - 0x41 + 10
    } else {
        d - 0x61 + 10
    }
}

/// Where the name at `pos` ends: a name start character and the name
/// characters behind it. `None` where no name stands at `pos`.
pub open spec fn name_at(b: Seq<u8>, pos: int, end: int) -> Option<int> {
    match name_end(b, pos, end) {
        Some(p) => if p > pos {
            Some(p)
        } else {
            None
        },
        None => None,
    }
}

/// What `=` with optional spaces around it gives: the position behind them.
pub open spec fn eq_at(b: Seq<u8>, pos: int, end: int) -> Result<int, ErrorModel> {
    let p = run_end(b, pos, end, ByteClass::Space);
    match expect_byte(b, p, end, 0x3d) {
        Err(e) => Err(e),
        Ok(_) => Ok(run_end(b, p + 1, end, ByteClass::Space)),
    }
}

/// What an opening quote gives: the quote character.
pub open spec fn quote_at(b: Seq<u8>, pos: int, end: int) -> Result<u8, ErrorModel> {
    if pos >= end {
        Err(ErrorModel::UnexpectedEndOfStream)
    } else if b[pos] == 0x27 || b[pos] == 0x22 {
        Ok(b[pos])
    } else {
        Err(ErrorModel::InvalidChar2("a quote", b[pos], text_pos(b, pos)))
    }
}

/// The reference that a name stands for: one of the five predefined
/// characters, or an entity.
pub open spec fn named_reference(b: Seq<u8>, name: Span) -> SpanReference {
    let n = name.of(b);
    if n == "quot".spec_bytes() {
        SpanReference::Char('"')
    } else if n == "amp".spec_bytes() {
        SpanReference::Char('&')
    } else if n == "apos".spec_bytes() {
        SpanReference::Char('\'')
    } else if n == "lt".spec_bytes() {
        SpanReference::Char('<')
    } else if n == "gt".spec_bytes() {
        SpanReference::Char('>')
    } else {
        SpanReference::Entity(name)
    }
}

/// The character that a numeric reference to `n` stands for: the replacement
/// character where `n` is no Unicode scalar value.
pub open spec fn referenced_scalar(n: int) -> u32 {
    if 0 <= n <= u32::MAX && is_scalar(n as u32) {
        n as u32
    } else {
        0xFFFD
    }
}

/// The reference at `pos` and the position behind it:
/// `&#` digits `;`, `&#x` hex digits `;` or `&` name `;`.
/// `None` where no reference stands there, where the number does not fit 32
/// bits, and where the character is none that XML allows.
pub open spec fn reference_at(b: Seq<u8>, pos: int, end: int) -> Option<(SpanReference, int)> {
    if !(pos < end && b[pos] == 0x26) {
        None
    } else if pos + 1 < end && b[pos + 1] == 0x23 {
        let hex = pos + 2 < end && b[pos + 2] == 0x78;
        let start = if hex {
            pos + 3
        } else {
            pos + 2
        };
        let class = if hex {
            ByteClass::HexDigit
        } else {
            ByteClass::Digit
        };
        let radix = if hex {
            16int
        } else {
            10int
        };
        let stop = run_end(b, start, end, class);
        let value = digits_value(b, start, stop, radix);
        if stop == start || value > u32::MAX {
            None
        } else if !spec_is_xml_char(referenced_scalar(value)) {
            None
        } else if !(stop < end && b[stop] == 0x3b) {
            None
        } else {
            Some((SpanReference::Char(referenced_scalar(value) as char), stop + 1))
        }
    } else {
        match name_at(b, pos + 1, end) {
            None => None,
            Some(p) => if !(p < end && b[p] == 0x3b) {
                None
            } else {
                Some((named_reference(b, Span { start: (pos + 1) as usize, end: p as usize }), p + 1))
            },
        }
    }
}

/// The result of an operation that may fail, with the error as its model.
pub open spec fn lift<T>(r: Result<T, Error>) -> Result<T, ErrorModel> {
    match r {
        Ok(v) => Ok(v),
        Err(e) => Err(e@),
    }
}

/// A position behind a character that is a single byte is a character boundary.
pub proof fn lemma_ascii_step(b: Seq<u8>, pos: int)
    requires
        valid_utf8(b),
        0 <= pos < b.len(),
        b[pos] < 0x80,
    ensures
        is_boundary(b, pos),
        is_boundary(b, pos + 1),
{
    lemma_char_at(b, pos);
}

/// A character that starts before a character boundary ends no later than it.
pub proof fn lemma_char_fits(b: Seq<u8>, pos: int, end: int)
    requires
        valid_utf8(b),
        is_boundary(b, pos),
        is_boundary(b, end),
        pos < end,
    ensures
        pos + width_at(b, pos) <= end,
{
    lemma_char_at(b, pos);
}

/// Where a piece of valid UTF-8 stands at a character boundary, it ends at one.
pub proof fn lemma_prefix_boundary(b: Seq<u8>, pos: int, lit: Seq<u8>)
    requires
        valid_utf8(b),
        valid_utf8(lit),
        is_boundary(b, pos),
        pos + lit.len() <= b.len(),
        b.subrange(pos, pos + lit.len()) == lit,
    ensures
        is_boundary(b, pos + lit.len()),
    decreases lit.len(),
{
    if lit.len() > 0 {
        let w = length_of_first_scalar(lit);
        assert(valid_first_scalar(lit));
        assert(lit[0] == b[pos]);
        lemma_char_at(b, pos);
        assert(w == width_at(b, pos));
        let rest = pop_first_scalar(lit);
        assert(b.subrange(pos + w, pos + w + rest.len()) =~= rest);
        lemma_prefix_boundary(b, pos + w, rest);
    }
}

/// A run of bytes ends between its start and the end of the stream.
pub proof fn lemma_run_end_bounds(b: Seq<u8>, pos: int, end: int, class: ByteClass)
    requires
        pos <= end,
    ensures
        pos <= run_end(b, pos, end, class) <= end,
        run_end(b, pos, end, class) < end ==> !class.spec_has(b[run_end(b, pos, end, class)]),
        forall|k: int| pos <= k < run_end(b, pos, end, class) ==> class.spec_has(#[trigger] b[k]),
    decreases end - pos,
{
    if pos < end && class.spec_has(b[pos]) {
        lemma_run_end_bounds(b, pos + 1, end, class);
    }
}

/// A run of bytes that starts at a character boundary ends at one.
pub proof fn lemma_run_end_boundary(b: Seq<u8>, pos: int, end: int, class: ByteClass)
    requires
        valid_utf8(b),
        0 <= pos <= end <= b.len(),
        is_boundary(b, pos),
        is_boundary(b, end),
        class.ends_at_boundary(),
    ensures
        is_boundary(b, run_end(b, pos, end, class)),
    decreases end - pos,
{
    lemma_run_end_bounds(b, pos, end, class);
    if pos < end && class.spec_has(b[pos]) {
        match class {
            ByteClass::Not(c) => {
                let p = run_end(b, pos, end, class);
                if p < end {
                    assert(b[p] == c);
                }
            },
            _ => {
                lemma_ascii_step(b, pos);
                lemma_run_end_boundary(b, pos + 1, end, class);
            },
        }
    }
}

/// `char::from_u32` gives the character of a code point that is a Unicode
/// scalar value, and nothing for any other number.
pub assume_specification[ char::from_u32 ](i: u32) -> (r: Option<char>)
    ensures
        r == if is_scalar(i) {
            Some(i as char)
        } else {
            None::<char>
        },
;

/// The character of a code point; the replacement character where the number
/// is no Unicode scalar value.
pub(crate) fn scalar_to_char(c: u32) -> (r: char)
    ensures
        r == referenced_scalar(c as int) as char,
        r as u32 == referenced_scalar(c as int),
{
    match char::from_u32(c) {
        Some(ch) => ch,
        None => '\u{FFFD}',
    }
}

/// Whether two ranges of bytes hold the same bytes.
pub(crate) fn range_eq(a: &[u8], x: Span, c: &[u8], y: Span) -> (r: bool)
    requires
        x.start <= x.end <= a@.len(),
        y.start <= y.end <= c@.len(),
    ensures
        r == (x.of(a@) == y.of(c@)),
{
    let n = x.end - x.start;
    if y.end - y.start != n {
        proof {
            assert(x.of(a@).len() != y.of(c@).len());
        }
        return false;
    }
    let mut i: usize = 0;
    while i < n
        invariant
            x.start <= x.end <= a@.len(),
            y.start <= y.end <= c@.len(),
            n == x.end - x.start,
            n == y.end - y.start,
            i <= n,
            a@.subrange(x.start as int, x.start + i) == c@.subrange(y.start as int, y.start + i),
        decreases n - i,
    {
        if a[x.start + i] != c[y.start + i] {
            proof {
                assert(x.of(a@)[i as int] != y.of(c@)[i as int]);
            }
            return false;
        }
        proof {
            assert(a@.subrange(x.start as int, x.start + i + 1) =~= a@.subrange(
                x.start as int,
                x.start + i,
            ).push(a@[x.start + i]));
            assert(c@.subrange(y.start as int, y.start + i + 1) =~= c@.subrange(
                y.start as int,
                y.start + i,
            ).push(c@[y.start + i]));
        }
        i += 1;
    }
    true
}

/// Whether a range of bytes holds exactly the bytes of `lit`.
pub(crate) fn span_is(a: &[u8], x: Span, lit: &str) -> (r: bool)
    requires
        x.start <= x.end <= a@.len(),
    ensures
        r == (x.of(a@) == lit.spec_bytes()),
{
    let l = lit.as_bytes();
    proof {
        assert(l@.subrange(0, l@.len() as int) =~= l@);
    }
    range_eq(a, x, l, Span::new(0, l.len()))
}

/// The digits of a run write a number that is not negative and grows with the run.
pub proof fn lemma_digits_grow(b: Seq<u8>, start: int, i: int, j: int, radix: int)
    requires
        radix >= 1,
        start <= i <= j,
        forall|k: int| start <= k < j ==> ByteClass::HexDigit.spec_has(#[trigger] b[k]),
    ensures
        0 <= digits_value(b, start, i, radix) <= digits_value(b, start, j, radix),
    decreases j - start,
{
    if start < j {
        if i < j {
            lemma_digits_grow(b, start, i, j - 1, radix);
        } else {
            lemma_digits_grow(b, start, i - 1, j - 1, radix);
        }
        let v = digits_value(b, start, j - 1, radix);
        assert(v * radix >= v) by (nonlinear_arith)
            requires
                v >= 0,
                radix >= 1,
        ;
        assert(ByteClass::HexDigit.spec_has(b[j - 1]));
    }
}

/// The number that a run of digits writes, where it fits 32 bits.
pub(crate) fn parse_digits(b: &[u8], digits: Span, radix: u32) -> (r: Option<u32>)
    requires
        digits.start <= digits.end <= b@.len(),
        radix == 10 || radix == 16,
        forall|k: int| digits.start <= k < digits.end ==> ByteClass::HexDigit.spec_has(#[trigger] b@[k]),
    ensures
        r == if digits.start == digits.end || digits_value(
            b@,
            digits.start as int,
            digits.end as int,
            radix as int,
        ) > u32::MAX {
            None::<u32>
        } else {
            Some(digits_value(b@, digits.start as int, digits.end as int, radix as int) as u32)
        },
        r matches Some(n) ==> n == digits_value(
            b@,
            digits.start as int,
            digits.end as int,
            radix as int,
        ),
{
    if digits.start == digits.end {
        return None;
    }
    let mut n: u32 = 0;
    let mut i: usize = digits.start;
    while i < digits.end
        invariant
            digits.start <= i <= digits.end <= b@.len(),
            radix == 10 || radix == 16,
            forall|k: int|
                digits.start <= k < digits.end ==> ByteClass::HexDigit.spec_has(#[trigger] b@[k]),
            n == digits_value(b@, digits.start as int, i as int, radix as int),
        decreases digits.end - i,
    {
        let d = b[i];
        assert(ByteClass::HexDigit.spec_has(b@[i as int]));
        let v: u32 = if d <= 0x39 {
            (d - 0x30) as u32
        } else if d <= 0x46 {
            (d - 0x41 + 10) as u32
        } else {
            (d - 0x61 + 10) as u32
        };
        proof {
            lemma_digits_grow(
                b@,
                digits.start as int,
                i + 1,
                digits.end as int,
                radix as int,
            );
        }
        let m = match n.checked_mul(radix) {
            Some(m) => m,
            None => {
                return None;
            },
        };
        n = match m.checked_add(v) {
            Some(m) => m,
            None => {
                return None;
            },
        };
        i += 1;
    }
    Some(n)
}

/// A cursor over a part of the text.
#[derive(Clone, Copy)]
pub struct Stream<'input> {
    pub pos: usize,
    pub end: usize,
    pub text: &'input str,
}

impl<'input> Stream<'input> {
    /// The bytes of the whole text.
    pub open spec fn bytes(&self) -> Seq<u8> {
        self.text.spec_bytes()
    }

    /// The position lies in the stream, and the stream in the text.
    pub open spec fn wf(&self) -> bool {
        self.pos <= self.end <= self.bytes().len()
    }

    /// The stream is well-formed, and its position and its end are character boundaries.
    pub open spec fn inv(&self) -> bool {
        &&& self.wf()
        &&& is_boundary(self.bytes(), self.pos as int)
        &&& is_boundary(self.bytes(), self.end as int)
    }

    /// The same stream as `old`, at the position `p`.
    pub open spec fn moved(self, old: Stream<'input>, p: int) -> bool {
        self.pos == p && self.end == old.end && self.text == old.text
    }

    /// The text of a stream is valid UTF-8.
    pub proof fn lemma_valid(&self)
        ensures
            valid_utf8(self.bytes()),
    {
        encode_utf8_valid_utf8(self.text@);
    }

    #[inline]
    pub fn new(text: &'input str) -> (s: Self)
        ensures
            s.pos == 0,
            s.end == text.spec_bytes().len(),
            s.text == text,
            s.inv(),
    {
        proof {
            encode_utf8_valid_utf8(text@);
            crate::strings::lemma_boundary_is_char_boundary(text.spec_bytes(), 0);
        }
        Stream { pos: 0, end: text.as_bytes().len(), text }
    }

    #[inline]
    pub fn from_substr(text: &'input str, fragment: Range<usize>) -> (s: Self)
        ensures
            s.pos == fragment.start,
            s.end == fragment.end,
            s.text == text,
    {
        Stream { pos: fragment.start, end: fragment.end, text }
    }

    #[inline]
    pub fn pos(&self) -> (r: usize)
        ensures
            r == self.pos,
    {
        self.pos
    }

    #[inline]
    pub fn at_end(&self) -> (r: bool)
        ensures
            r == (self.pos >= self.end),
    {
        self.pos >= self.end
    }

    #[inline]
    pub fn curr_byte(&self) -> (r: Result<u8, Error>)
        requires
            self.wf(),
        ensures
            lift(r) == if self.pos >= self.end {
                Err::<u8, ErrorModel>(ErrorModel::UnexpectedEndOfStream)
            } else {
                Ok(self.bytes()[self.pos as int])
            },
    {
        if self.at_end() {
            return Err(Error::UnexpectedEndOfStream);
        }
        Ok(self.curr_byte_unchecked())
    }

    #[inline]
    pub fn curr_byte_unchecked(&self) -> (r: u8)
        requires
            self.pos < self.bytes().len(),
        ensures
            r == self.bytes()[self.pos as int],
    {
        self.text.as_bytes()[self.pos]
    }

    #[inline]
    pub(crate) fn next_byte(&self) -> (r: Result<u8, Error>)
        requires
            self.wf(),
        ensures
            lift(r) == if self.pos + 1 >= self.end {
                Err::<u8, ErrorModel>(ErrorModel::UnexpectedEndOfStream)
            } else {
                Ok(self.bytes()[self.pos + 1])
            },
    {
        if self.end - self.pos <= 1 {
            return Err(Error::UnexpectedEndOfStream);
        }
        Ok(self.text.as_bytes()[self.pos + 1])
    }

    #[inline]
    pub fn advance(&mut self, n: usize)
        requires
            old(self).pos + n <= old(self).end,
        ensures
            final(self).moved(*old(self), old(self).pos + n),
    {
        self.pos += n;
    }

    /// Whether the rest of the stream starts with `text`.
    #[inline]
    pub(crate) fn starts_with(&self, text: &[u8]) -> (r: bool)
        requires
            self.wf(),
        ensures
            r == has_prefix(self.bytes(), self.pos as int, self.end as int, text@),
    {
        let b = self.text.as_bytes();
        if text.len() > self.end - self.pos {
            return false;
        }
        let mut i: usize = 0;
        while i < text.len()
            invariant
                self.wf(),
                b@ == self.bytes(),
                text@.len() <= self.end - self.pos,
                i <= text@.len(),
                b@.subrange(self.pos as int, self.pos + i) == text@.subrange(0, i as int),
            decreases text@.len() - i,
        {
            if b[self.pos + i] != text[i] {
                proof {
                    assert(b@.subrange(self.pos as int, self.pos + text@.len())[i as int]
                        != text@[i as int]);
                }
                return false;
            }
            proof {
                assert(b@.subrange(self.pos as int, self.pos + i + 1) =~= b@.subrange(
                    self.pos as int,
                    self.pos + i,
                ).push(b@[self.pos + i]));
                assert(text@.subrange(0, i + 1) =~= text@.subrange(0, i as int).push(
                    text@[i as int],
                ));
            }
            i += 1;
        }
        proof {
            assert(text@.subrange(0, text@.len() as int) =~= text@);
        }
        true
    }

    /// Moves over `c`, which is an ASCII character, or fails where another
    /// byte or the end of the stream stands.
    pub(crate) fn consume_byte(&mut self, c: u8) -> (r: Result<(), Error>)
        requires
            old(self).inv(),
            c < 0x80,
        ensures
            lift(r) == expect_byte(old(self).bytes(), old(self).pos as int, old(self).end as int, c),
            r is Ok ==> final(self).moved(*old(self), old(self).pos + 1),
            r is Err ==> *final(self) == *old(self),
            final(self).inv(),
    {
        let curr = self.curr_byte()?;
        if curr != c {
            return Err(Error::InvalidChar(c, curr, self.gen_text_pos()));
        }
        proof {
            self.lemma_valid();
            lemma_ascii_step(self.bytes(), self.pos as int);
        }
        self.advance(1);
        Ok(())
    }

    /// Moves over `c`, which is an ASCII character, if it stands here.
    pub(crate) fn try_consume_byte(&mut self, c: u8) -> (r: bool)
        requires
            old(self).inv(),
            c < 0x80,
        ensures
            r == (old(self).pos < old(self).end && old(self).bytes()[old(self).pos as int] == c),
            r ==> final(self).moved(*old(self), old(self).pos + 1),
            !r ==> *final(self) == *old(self),
            final(self).inv(),
    {
        if !self.at_end() && self.curr_byte_unchecked() == c {
            proof {
                self.lemma_valid();
                lemma_ascii_step(self.bytes(), self.pos as int);
            }
            self.advance(1);
            true
        } else {
            false
        }
    }

    /// Moves over `text`, or fails where it does not stand here.
    pub(crate) fn skip_string(&mut self, text: &'static str) -> (r: Result<(), Error>)
        requires
            old(self).inv(),
        ensures
            lift(r) == expect_string(
                old(self).bytes(),
                old(self).pos as int,
                old(self).end as int,
                text,
            ),
            r is Ok ==> final(self).moved(*old(self), old(self).pos + text.spec_bytes().len()),
            r is Err ==> *final(self) == *old(self),
            final(self).inv(),
    {
        if !self.starts_with(text.as_bytes()) {
            let pos = self.gen_text_pos();
            return Err(Error::InvalidString(text, pos));
        }
        proof {
            self.lemma_valid();
            encode_utf8_valid_utf8(text@);
            lemma_prefix_boundary(self.bytes(), self.pos as int, text.spec_bytes());
        }
        self.advance(text.as_bytes().len());
        Ok(())
    }

    /// Moves over the bytes of `class` that stand here.
    pub(crate) fn skip_bytes(&mut self, class: ByteClass)
        requires
            old(self).inv(),
            class.ends_at_boundary(),
        ensures
            final(self).moved(*old(self), 
                run_end(old(self).bytes(), old(self).pos as int, old(self).end as int, class),
            ),
            old(self).pos <= final(self).pos,
            final(self).inv(),
    {
        let b = self.text.as_bytes();
        let ghost start = self.pos as int;
        proof {
            self.lemma_valid();
            lemma_run_end_boundary(self.bytes(), start, self.end as int, class);
            lemma_run_end_bounds(self.bytes(), start, self.end as int, class);
        }
        while self.pos < self.end && class.has(b[self.pos])
            invariant
                self.wf(),
                self.text == old(self).text,
                self.end == old(self).end,
                b@ == self.bytes(),
                start <= self.pos,
                run_end(b@, start, self.end as int, class) == run_end(
                    b@,
                    self.pos as int,
                    self.end as int,
                    class,
                ),
            decreases self.end - self.pos,
        {
            self.pos += 1;
        }
    }

    /// Moves over the bytes of `class` that stand here, and hands them out.
    #[inline]
    pub(crate) fn consume_bytes(&mut self, class: ByteClass) -> (r: Span)
        requires
            old(self).inv(),
            class.ends_at_boundary(),
        ensures
            final(self).moved(*old(self), 
                run_end(old(self).bytes(), old(self).pos as int, old(self).end as int, class),
            ),
            r == (Span { start: old(self).pos, end: final(self).pos }),
            r.wf(old(self).bytes()),
            final(self).inv(),
    {
        let start = self.pos;
        self.skip_bytes(class);
        self.slice_back(start)
    }

    /// The span from `pos` to the position of the stream.
    #[inline]
    pub(crate) fn slice_back(&self, pos: usize) -> (r: Span)
        ensures
            r == (Span { start: pos, end: self.pos }),
    {
        Span::new(pos, self.pos)
    }

    #[inline]
    pub(crate) fn skip_spaces(&mut self)
        requires
            old(self).inv(),
        ensures
            final(self).moved(*old(self), 
                run_end(
                    old(self).bytes(),
                    old(self).pos as int,
                    old(self).end as int,
                    ByteClass::Space,
                ),
            ),
            old(self).pos <= final(self).pos,
            final(self).inv(),
    {
        self.skip_bytes(ByteClass::Space);
    }

    #[inline]
    pub(crate) fn starts_with_space(&self) -> (r: bool)
        requires
            self.wf(),
        ensures
            r == (self.pos < self.end && spec_is_xml_space(self.bytes()[self.pos as int])),
    {
        !self.at_end() && is_xml_space(self.curr_byte_unchecked())
    }

    /// Like `skip_spaces()`, but checks that first char is actually a space.
    pub(crate) fn consume_spaces(&mut self) -> (r: Result<(), Error>)
        requires
            old(self).inv(),
        ensures
            lift(r) == expect_spaces(old(self).bytes(), old(self).pos as int, old(self).end as int),
            r is Ok ==> final(self).moved(*old(self), 
                run_end(
                    old(self).bytes(),
                    old(self).pos as int,
                    old(self).end as int,
                    ByteClass::Space,
                ),
            ),
            r is Err ==> *final(self) == *old(self),
            r is Ok ==> old(self).pos < final(self).pos,
            final(self).inv(),
    {
        if self.at_end() {
            return Err(Error::UnexpectedEndOfStream);
        }
        if !self.starts_with_space() {
            return Err(
                Error::InvalidChar2("a whitespace", self.curr_byte_unchecked(), self.gen_text_pos()),
            );
        }
        proof {
            lemma_run_end_ge(self.bytes(), self.pos + 1, self.end as int, ByteClass::Space);
        }
        self.skip_spaces();
        Ok(())
    }

    /// Moves over the XML characters that stand here, up to where `stop` holds.
    pub(crate) fn skip_chars(&mut self, stop: Stop) -> (r: Result<(), Error>)
        requires
            old(self).inv(),
        ensures
            lift(r) == match char_run(
                old(self).bytes(),
                old(self).pos as int,
                old(self).end as int,
                stop,
            ).bad {
                None => Ok::<(), ErrorModel>(()),
                Some(c) => Err(
                    ErrorModel::NonXmlChar(
                        c as char,
                        text_pos(
                            old(self).bytes(),
                            char_run(
                                old(self).bytes(),
                                old(self).pos as int,
                                old(self).end as int,
                                stop,
                            ).pos,
                        ),
                    ),
                ),
            },
            r is Ok ==> final(self).moved(*old(self), 
                char_run(old(self).bytes(), old(self).pos as int, old(self).end as int, stop).pos,
            ),
            r is Ok ==> old(self).pos <= final(self).pos,
            r is Ok ==> final(self).inv(),
    {
        let b = self.text.as_bytes();
        let ghost start = self.pos as int;
        proof {
            self.lemma_valid();
        }
        while self.pos < self.end
            invariant
                self.inv(),
                valid_utf8(b@),
                self.text == old(self).text,
                self.end == old(self).end,
                b@ == self.bytes(),
                start == old(self).pos,
                start <= self.pos,
                char_run(b@, start, self.end as int, stop) == char_run(
                    b@,
                    self.pos as int,
                    self.end as int,
                    stop,
                ),
            ensures
                char_run(b@, start, self.end as int, stop) == (CharRun {
                    pos: self.pos as int,
                    bad: None,
                }),
            decreases self.end - self.pos,
        {
            proof {
                lemma_char_at(b@, self.pos as int);
            }
            let (c, w) = decode_at(b, self.pos);
            if !is_xml_char(c) {
                let ch = scalar_to_char(c);
                assert(char_run(b@, self.pos as int, self.end as int, stop) == (CharRun {
                    pos: self.pos as int,
                    bad: Some(c),
                }));
                return Err(Error::NonXmlChar(ch, self.gen_text_pos()));
            }
            let stop_here = match stop {
                Stop::Either(x, y) => b[self.pos] == x || b[self.pos] == y,
                Stop::Before(lit) => self.starts_with(lit.as_bytes()),
            };
            if stop_here {
                break ;
            }
            proof {
                lemma_char_fits(b@, self.pos as int, self.end as int);
            }
            self.pos += w;
        }
        Ok(())
    }

    /// Moves over the XML characters that stand here, up to where `stop`
    /// holds, and hands them out.
    #[inline]
    pub(crate) fn consume_chars(&mut self, stop: Stop) -> (r: Result<Span, Error>)
        requires
            old(self).inv(),
        ensures
            lift(r) == match char_run(
                old(self).bytes(),
                old(self).pos as int,
                old(self).end as int,
                stop,
            ).bad {
                None => Ok::<Span, ErrorModel>(
                    Span {
                        start: old(self).pos,
                        end: char_run(
                            old(self).bytes(),
                            old(self).pos as int,
                            old(self).end as int,
                            stop,
                        ).pos as usize,
                    },
                ),
                Some(c) => Err(
                    ErrorModel::NonXmlChar(
                        c as char,
                        text_pos(
                            old(self).bytes(),
                            char_run(
                                old(self).bytes(),
                                old(self).pos as int,
                                old(self).end as int,
                                stop,
                            ).pos,
                        ),
                    ),
                ),
            },
            r is Ok ==> final(self).moved(*old(self), 
                char_run(old(self).bytes(), old(self).pos as int, old(self).end as int, stop).pos,
            ),
            r is Ok ==> r->Ok_0.wf(old(self).bytes()),
            r is Ok ==> final(self).inv(),
    {
        let start = self.pos;
        self.skip_chars(stop)?;
        Ok(self.slice_back(start))
    }

    /// The same as `consume_name()`, but does not return a consumed name.
    pub(crate) fn skip_name(&mut self) -> (r: Result<(), Error>)
        requires
            old(self).inv(),
        ensures
            lift(r) == match name_end(old(self).bytes(), old(self).pos as int, old(self).end as int) {
                Some(_) => Ok::<(), ErrorModel>(()),
                None => Err(
                    ErrorModel::InvalidName(text_pos(old(self).bytes(), old(self).pos as int)),
                ),
            },
            r is Ok ==> final(self).moved(*old(self), 
                name_end(old(self).bytes(), old(self).pos as int, old(self).end as int)->0,
            ),
            r is Ok ==> old(self).pos <= final(self).pos,
            r is Err ==> *final(self) == *old(self),
            final(self).inv(),
    {
        let b = self.text.as_bytes();
        let start = self.pos;
        proof {
            self.lemma_valid();
        }
        if self.pos < self.end {
            proof {
                lemma_char_at(b@, self.pos as int);
            }
            let (c, w) = decode_at(b, self.pos);
            if is_xml_name_start(c) {
                proof {
                    lemma_char_fits(b@, self.pos as int, self.end as int);
                }
                self.pos += w;
            } else {
                return Err(Error::InvalidName(self.gen_text_pos_from(start)));
            }
        }
        let ghost first = self.pos as int;
        while self.pos < self.end
            invariant
                self.inv(),
                valid_utf8(b@),
                self.text == old(self).text,
                self.end == old(self).end,
                b@ == self.bytes(),
                first <= self.pos,
                name_chars_end(b@, first, self.end as int) == name_chars_end(
                    b@,
                    self.pos as int,
                    self.end as int,
                ),
            ensures
                name_chars_end(b@, first, self.end as int) == self.pos,
            decreases self.end - self.pos,
        {
            proof {
                lemma_char_at(b@, self.pos as int);
            }
            let (c, w) = decode_at(b, self.pos);
            if is_xml_name(c) {
                proof {
                    lemma_char_fits(b@, self.pos as int, self.end as int);
                }
                self.pos += w;
            } else {
                break ;
            }
        }
        Ok(())
    }

    /// Consumes according to: <https://www.w3.org/TR/xml/#NT-Name>
    pub(crate) fn consume_name(&mut self) -> (r: Result<Span, Error>)
        requires
            old(self).inv(),
        ensures
            lift(r) == match name_at(old(self).bytes(), old(self).pos as int, old(self).end as int) {
                Some(p) => Ok::<Span, ErrorModel>(Span { start: old(self).pos, end: p as usize }),
                None => Err(
                    ErrorModel::InvalidName(text_pos(old(self).bytes(), old(self).pos as int)),
                ),
            },
            r is Ok ==> final(self).moved(*old(self), r->Ok_0.end as int),
            r is Ok ==> name_at(old(self).bytes(), old(self).pos as int, old(self).end as int)
                == Some(r->Ok_0.end as int),
            r is Ok ==> r->Ok_0.wf(old(self).bytes()),
            r is Ok ==> r->Ok_0.start < r->Ok_0.end,
            r is Err ==> *final(self) == *old(self),
            final(self).inv(),
    {
        let start = self.pos;
        let saved = *self;
        self.skip_name()?;
        let name = self.slice_back(start);
        if name.is_empty() {
            *self = saved;
            return Err(Error::InvalidName(self.gen_text_pos_from(start)));
        }
        Ok(name)
    }

    /// Consumes a qualified XML name and returns it.
    ///
    /// Consumes according to: <https://www.w3.org/TR/xml-names/#ns-qualnames>
    pub(crate) fn consume_qname(&mut self) -> (r: Result<(Span, Span), Error>)
        requires
            old(self).inv(),
        ensures
            lift(r) == match qname_at(old(self).bytes(), old(self).pos as int, old(self).end as int) {
                Some(q) => Ok::<(Span, Span), ErrorModel>((q.prefix, q.local)),
                None => Err(
                    ErrorModel::InvalidName(text_pos(old(self).bytes(), old(self).pos as int)),
                ),
            },
            r is Ok ==> final(self).moved(*old(self), 
                qname_at(old(self).bytes(), old(self).pos as int, old(self).end as int)->0.end,
            ),
            r is Ok ==> r->Ok_0.0.wf(old(self).bytes()) && r->Ok_0.1.wf(old(self).bytes()),
            r is Ok ==> r->Ok_0.1.start < r->Ok_0.1.end,
            r is Ok ==> old(self).pos < final(self).pos,
            r is Ok ==> final(self).inv(),
    {
        let b = self.text.as_bytes();
        let start = self.pos;
        let mut splitter: Option<usize> = None;
        proof {
            self.lemma_valid();
        }
        while self.pos < self.end
            invariant
                self.inv(),
                valid_utf8(b@),
                self.text == old(self).text,
                self.end == old(self).end,
                b@ == self.bytes(),
                start == old(self).pos,
                start <= self.pos,
                match splitter {
                    Some(k) => start <= k < self.pos && b@[k as int] == 0x3a,
                    None => true,
                },
                qname_scan(b@, start as int, self.end as int, None) == qname_scan(
                    b@,
                    self.pos as int,
                    self.end as int,
                    match splitter {
                        Some(k) => Some(k as int),
                        None => None,
                    },
                ),
            ensures
                qname_scan(b@, start as int, self.end as int, None) == (QNameScan {
                    pos: self.pos as int,
                    colon: match splitter {
                        Some(k) => Some(k as int),
                        None => None,
                    },
                    second_colon: false,
                }),
            decreases self.end - self.pos,
        {
            // Check for ASCII first for performance reasons.
            let c = b[self.pos];
            proof {
                lemma_char_at(b@, self.pos as int);
            }
            if c < 128 {
                if c == 0x3a {
                    if splitter.is_none() {
                        splitter = Some(self.pos);
                        self.pos += 1;
                    } else {
                        // Multiple `:` is an error.
                        return Err(Error::InvalidName(self.gen_text_pos_from(start)));
                    }
                } else if is_xml_name_byte(c) {
                    self.pos += 1;
                } else {
                    break ;
                }
            } else {
                // Fallback to Unicode code point.
                let (ch, w) = decode_at(b, self.pos);
                if is_xml_name(ch) {
                    proof {
                        lemma_char_fits(b@, self.pos as int, self.end as int);
                    }
                    self.pos += w;
                } else {
                    break ;
                }
            }
        }
        let (prefix, local) = match splitter {
            Some(k) => {
                proof {
                    lemma_ascii_step(b@, k as int);
                }
                (Span::new(start, k), Span::new(k + 1, self.pos))
            },
            None => (Span::new(start, start), Span::new(start, self.pos)),
        };
        // Prefix must start with a `NameStartChar`.
        if !prefix.is_empty() {
            let (ch, _) = decode_at(b, prefix.start);
            if !is_xml_name_start(ch) {
                return Err(Error::InvalidName(self.gen_text_pos_from(start)));
            }
        }
        // Local name must start with a `NameStartChar`.
        if !local.is_empty() {
            let (ch, _) = decode_at(b, local.start);
            if !is_xml_name_start(ch) {
                return Err(Error::InvalidName(self.gen_text_pos_from(start)));
            }
        } else {
            // If empty - error.
            return Err(Error::InvalidName(self.gen_text_pos_from(start)));
        }
        Ok((prefix, local))
    }

    pub(crate) fn consume_eq(&mut self) -> (r: Result<(), Error>)
        requires
            old(self).inv(),
        ensures
            lift(r) == match eq_at(old(self).bytes(), old(self).pos as int, old(self).end as int) {
                Ok(_) => Ok::<(), ErrorModel>(()),
                Err(e) => Err(e),
            },
            r is Ok ==> final(self).moved(*old(self), 
                eq_at(old(self).bytes(), old(self).pos as int, old(self).end as int)->Ok_0,
            ),
            r is Ok ==> old(self).pos < final(self).pos,
            final(self).inv(),
    {
        self.skip_spaces();
        self.consume_byte(0x3d)?;
        self.skip_spaces();
        Ok(())
    }

    pub(crate) fn consume_quote(&mut self) -> (r: Result<u8, Error>)
        requires
            old(self).inv(),
        ensures
            lift(r) == quote_at(old(self).bytes(), old(self).pos as int, old(self).end as int),
            r is Ok ==> final(self).moved(*old(self), old(self).pos + 1),
            r is Ok ==> (r->Ok_0 == 0x27 || r->Ok_0 == 0x22),
            r is Err ==> *final(self) == *old(self),
            final(self).inv(),
    {
        let c = self.curr_byte()?;
        if c == 0x27 || c == 0x22 {
            proof {
                self.lemma_valid();
                lemma_ascii_step(self.bytes(), self.pos as int);
            }
            self.advance(1);
            Ok(c)
        } else {
            Err(Error::InvalidChar2("a quote", c, self.gen_text_pos()))
        }
    }

    /// Consumes according to: <https://www.w3.org/TR/xml/#NT-Reference>
    ///
    /// Where no reference stands here, the stream stays where it is.
    pub fn try_consume_reference(&mut self) -> (r: Option<Reference<'input>>)
        requires
            old(self).wf(),
            is_boundary(old(self).bytes(), old(self).end as int),
        ensures
            match reference_at(old(self).bytes(), old(self).pos as int, old(self).end as int) {
                Some((rf, p)) => r matches Some(x) && x.shows(rf, old(self).bytes())
                    && final(self).moved(*old(self), p),
                None => r is None && *final(self) == *old(self),
            },
    {
        if self.at_end() || self.curr_byte_unchecked() != 0x26 {
            return None;
        }
        match self.consume_reference() {
            Some(SpanReference::Entity(name)) => Some(
                Reference::Entity(slice_str(self.text, name.start, name.end)),
            ),
            Some(SpanReference::Char(c)) => Some(Reference::Char(c)),
            None => None,
        }
    }

    /// The reference that stands here. Where none does, the stream stays where it is.
    pub(crate) fn consume_reference(&mut self) -> (r: Option<SpanReference>)
        requires
            old(self).inv(),
        ensures
            match reference_at(old(self).bytes(), old(self).pos as int, old(self).end as int) {
                Some((rf, p)) => r == Some(rf) && final(self).moved(*old(self), p),
                None => r is None && *final(self) == *old(self),
            },
            final(self).inv(),
            r matches Some(SpanReference::Entity(name)) ==> name.wf(old(self).bytes()),
    {
        let b = self.text.as_bytes();
        let mut s = *self;
        if !s.try_consume_byte(0x26) {
            return None;
        }
        let reference = if s.try_consume_byte(0x23) {
            let hex = s.try_consume_byte(0x78);
            let class = if hex {
                ByteClass::HexDigit
            } else {
                ByteClass::Digit
            };
            let radix: u32 = if hex {
                16
            } else {
                10
            };
            proof {
                lemma_run_end_bounds(b@, s.pos as int, s.end as int, class);
            }
            let value = s.consume_bytes(class);
            let n = match parse_digits(b, value, radix) {
                Some(n) => n,
                None => {
                    return None;
                },
            };
            let c = scalar_to_char(n);
            if !is_xml_char(c as u32) {
                return None;
            }
            SpanReference::Char(c)
        } else {
            let name = match s.consume_name() {
                Ok(name) => name,
                Err(_) => {
                    return None;
                },
            };
            if span_is(b, name, "quot") {
                SpanReference::Char('"')
            } else if span_is(b, name, "amp") {
                SpanReference::Char('&')
            } else if span_is(b, name, "apos") {
                SpanReference::Char('\'')
            } else if span_is(b, name, "lt") {
                SpanReference::Char('<')
            } else if span_is(b, name, "gt") {
                SpanReference::Char('>')
            } else {
                SpanReference::Entity(name)
            }
        };
        match s.consume_byte(0x3b) {
            Ok(_) => {},
            Err(_) => {
                return None;
            },
        }
        *self = s;
        Some(reference)
    }

    /// Calculates a current absolute position.
    ///
    /// This operation is very expensive. Use only for errors.
    pub fn gen_text_pos(&self) -> (r: TextPos)
        ensures
            r == text_pos(self.bytes(), self.pos as int),
    {
        text_pos_at(self.text.as_bytes(), self.pos)
    }

    /// Calculates an absolute position at `pos`.
    ///
    /// This operation is very expensive. Use only for errors.
    pub fn gen_text_pos_from(&self, pos: usize) -> (r: TextPos)
        ensures
            r == text_pos(self.bytes(), pos as int),
    {
        text_pos_at(self.text.as_bytes(), pos)
    }
}

/// What moving over the byte `c` gives.
pub open spec fn expect_byte(b: Seq<u8>, pos: int, end: int, c: u8) -> Result<(), ErrorModel> {
    if pos >= end {
        Err(ErrorModel::UnexpectedEndOfStream)
    } else if b[pos] != c {
        Err(ErrorModel::InvalidChar(c, b[pos], text_pos(b, pos)))
    } else {
        Ok(())
    }
}

/// What moving over `text` gives.
pub open spec fn expect_string(b: Seq<u8>, pos: int, end: int, text: &'static str) -> Result<
    (),
    ErrorModel,
> {
    if has_prefix(b, pos, end, text.spec_bytes()) {
        Ok(())
    } else {
        Err(ErrorModel::InvalidString(text, text_pos(b, pos)))
    }
}

/// What moving over at least one space gives.
pub open spec fn expect_spaces(b: Seq<u8>, pos: int, end: int) -> Result<(), ErrorModel> {
    if pos >= end {
        Err(ErrorModel::UnexpectedEndOfStream)
    } else if !spec_is_xml_space(b[pos]) {
        Err(ErrorModel::InvalidChar2("a whitespace", b[pos], text_pos(b, pos)))
    } else {
        Ok(())
    }
}

} // verus!
