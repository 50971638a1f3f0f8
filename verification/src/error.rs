//! The errors of parsing, each with the position it was found at.

use crate::textpos::TextPos;
use vstd::prelude::*;

verus! {

/// A list of all possible errors.
#[derive(Clone, PartialEq, Eq, Hash, Debug)]
pub enum Error {
    /// The `xmlns:xml` attribute must have an <http://www.w3.org/XML/1998/namespace> URI.
    InvalidXmlPrefixUri(TextPos),

    /// Only the `xmlns:xml` attribute can have the <http://www.w3.org/XML/1998/namespace> URI.
    UnexpectedXmlUri(TextPos),

    /// The <http://www.w3.org/2000/xmlns/> URI must not be declared.
    UnexpectedXmlnsUri(TextPos),

    /// `xmlns` can't be used as an element prefix.
    InvalidElementNamePrefix(TextPos),

    /// A namespace was already defined on this element.
    DuplicatedNamespace(String, TextPos),

    /// An unknown namespace.
///
/// Indicates that an element or an attribute has an unknown qualified name prefix.
///
/// The first value is a prefix.
    UnknownNamespace(String, TextPos),

    /// Incorrect tree structure.
///
/// expected, actual, position
    UnexpectedCloseTag(String, String, TextPos),

    /// Entity value starts with a close tag.
///
/// Example:
/// ```xml
/// <!DOCTYPE test [ <!ENTITY p '</p>'> ]>
/// <root>&p;</root>
/// ```
    UnexpectedEntityCloseTag(TextPos),

    /// A reference to an entity that was not defined in the DTD.
    UnknownEntityReference(String, TextPos),

    /// A malformed entity reference.
///
/// A `&` character inside an attribute value or text indicates an entity reference.
/// Otherwise, the document is not well-formed.
    MalformedEntityReference(TextPos),

    /// A possible entity reference loop.
///
/// The current depth limit is 10. The max number of references per reference is 255.
    EntityReferenceLoop(TextPos),

    /// Attribute value cannot have a `<` character.
    InvalidAttributeValue(TextPos),

    /// An element has a duplicated attributes.
///
/// This also includes namespaces resolving.
/// So an element like this will lead to an error.
/// ```xml
/// <e xmlns:n1='http://www.w3.org' xmlns:n2='http://www.w3.org' n1:a='b1' n2:a='b2'/>
/// ```
    DuplicatedAttribute(String, TextPos),

    /// The XML document must have at least one element.
    NoRootNode,

    /// The root node was opened but never closed.
    UnclosedRootNode,

    /// An XML document can have only one XML declaration
/// and it must be at the start of the document.
    UnexpectedDeclaration(TextPos),

    /// An XML with DTD detected.
///
/// This error will be emitted only when `ParsingOptions::allow_dtd` is set to `false`.
    DtdDetected,

    /// Indicates that the [`ParsingOptions::nodes_limit`] was reached.
    NodesLimitReached,

    /// Indicates that too many attributes were parsed.
    AttributesLimitReached,

    /// Indicates that too many namespaces were parsed.
    NamespacesLimitReached,

    /// The input text does not fit the 32-bit indices of the tree.
    SizeLimit,

    /// An invalid name.
    InvalidName(TextPos),

    /// A non-XML character has occurred.
///
/// Valid characters are: <https://www.w3.org/TR/xml/#char32>
    NonXmlChar(char, TextPos),

    /// An invalid/unexpected character.
///
/// expected, actual, position
    InvalidChar(u8, u8, TextPos),

    /// An invalid/unexpected character.
///
/// expected, actual, position
    InvalidChar2(&'static str, u8, TextPos),

    /// An unexpected string.
///
/// Contains what string was expected.
    InvalidString(&'static str, TextPos),

    /// An invalid ExternalID in the DTD.
    InvalidExternalID(TextPos),

    /// A comment cannot contain `--` or end with `-`.
    InvalidComment(TextPos),

    /// A Character Data node contains an invalid data.
///
/// Currently, only `]]>` is not allowed.
    InvalidCharacterData(TextPos),

    /// An unknown token.
    UnknownToken(TextPos),

    /// The stream ended earlier than expected.
///
/// Should only appear on invalid input data.
    UnexpectedEndOfStream,
}

/// What an [`Error`] holds, with each text as the sequence of its characters.
pub enum ErrorModel {
    InvalidXmlPrefixUri(TextPos),
    UnexpectedXmlUri(TextPos),
    UnexpectedXmlnsUri(TextPos),
    InvalidElementNamePrefix(TextPos),
    DuplicatedNamespace(Seq<char>, TextPos),
    UnknownNamespace(Seq<char>, TextPos),
    UnexpectedCloseTag(Seq<char>, Seq<char>, TextPos),
    UnexpectedEntityCloseTag(TextPos),
    UnknownEntityReference(Seq<char>, TextPos),
    MalformedEntityReference(TextPos),
    EntityReferenceLoop(TextPos),
    InvalidAttributeValue(TextPos),
    DuplicatedAttribute(Seq<char>, TextPos),
    NoRootNode,
    UnclosedRootNode,
    UnexpectedDeclaration(TextPos),
    DtdDetected,
    NodesLimitReached,
    AttributesLimitReached,
    NamespacesLimitReached,
    SizeLimit,
    InvalidName(TextPos),
    NonXmlChar(char, TextPos),
    InvalidChar(u8, u8, TextPos),
    InvalidChar2(&'static str, u8, TextPos),
    InvalidString(&'static str, TextPos),
    InvalidExternalID(TextPos),
    InvalidComment(TextPos),
    InvalidCharacterData(TextPos),
    UnknownToken(TextPos),
    UnexpectedEndOfStream,
}

impl ErrorModel {
    /// The position that the error carries; 1:1 for an error that carries none.
    pub open spec fn pos(self) -> TextPos {
        match self {
            ErrorModel::InvalidXmlPrefixUri(pos) => pos,
            ErrorModel::UnexpectedXmlUri(pos) => pos,
            ErrorModel::UnexpectedXmlnsUri(pos) => pos,
            ErrorModel::InvalidElementNamePrefix(pos) => pos,
            ErrorModel::DuplicatedNamespace(_, pos) => pos,
            ErrorModel::UnknownNamespace(_, pos) => pos,
            ErrorModel::UnexpectedCloseTag(_, _, pos) => pos,
            ErrorModel::UnexpectedEntityCloseTag(pos) => pos,
            ErrorModel::UnknownEntityReference(_, pos) => pos,
            ErrorModel::MalformedEntityReference(pos) => pos,
            ErrorModel::EntityReferenceLoop(pos) => pos,
            ErrorModel::InvalidAttributeValue(pos) => pos,
            ErrorModel::DuplicatedAttribute(_, pos) => pos,
            ErrorModel::NoRootNode => TextPos { row: 1, col: 1 },
            ErrorModel::UnclosedRootNode => TextPos { row: 1, col: 1 },
            ErrorModel::UnexpectedDeclaration(pos) => pos,
            ErrorModel::DtdDetected => TextPos { row: 1, col: 1 },
            ErrorModel::NodesLimitReached => TextPos { row: 1, col: 1 },
            ErrorModel::AttributesLimitReached => TextPos { row: 1, col: 1 },
            ErrorModel::NamespacesLimitReached => TextPos { row: 1, col: 1 },
            ErrorModel::SizeLimit => TextPos { row: 1, col: 1 },
            ErrorModel::InvalidName(pos) => pos,
            ErrorModel::NonXmlChar(_, pos) => pos,
            ErrorModel::InvalidChar(_, _, pos) => pos,
            ErrorModel::InvalidChar2(_, _, pos) => pos,
            ErrorModel::InvalidString(_, pos) => pos,
            ErrorModel::InvalidExternalID(pos) => pos,
            ErrorModel::InvalidComment(pos) => pos,
            ErrorModel::InvalidCharacterData(pos) => pos,
            ErrorModel::UnknownToken(pos) => pos,
            ErrorModel::UnexpectedEndOfStream => TextPos { row: 1, col: 1 },
        }
    }
}

impl View for Error {
    type V = ErrorModel;

    open spec fn view(&self) -> ErrorModel {
        match *self {
            Error::InvalidXmlPrefixUri(a) => ErrorModel::InvalidXmlPrefixUri(a),
            Error::UnexpectedXmlUri(a) => ErrorModel::UnexpectedXmlUri(a),
            Error::UnexpectedXmlnsUri(a) => ErrorModel::UnexpectedXmlnsUri(a),
            Error::InvalidElementNamePrefix(a) => ErrorModel::InvalidElementNamePrefix(a),
            Error::DuplicatedNamespace(a, b) => ErrorModel::DuplicatedNamespace(a@, b),
            Error::UnknownNamespace(a, b) => ErrorModel::UnknownNamespace(a@, b),
            Error::UnexpectedCloseTag(a, b, c) => ErrorModel::UnexpectedCloseTag(a@, b@, c),
            Error::UnexpectedEntityCloseTag(a) => ErrorModel::UnexpectedEntityCloseTag(a),
            Error::UnknownEntityReference(a, b) => ErrorModel::UnknownEntityReference(a@, b),
            Error::MalformedEntityReference(a) => ErrorModel::MalformedEntityReference(a),
            Error::EntityReferenceLoop(a) => ErrorModel::EntityReferenceLoop(a),
            Error::InvalidAttributeValue(a) => ErrorModel::InvalidAttributeValue(a),
            Error::DuplicatedAttribute(a, b) => ErrorModel::DuplicatedAttribute(a@, b),
            Error::NoRootNode => ErrorModel::NoRootNode,
            Error::UnclosedRootNode => ErrorModel::UnclosedRootNode,
            Error::UnexpectedDeclaration(a) => ErrorModel::UnexpectedDeclaration(a),
            Error::DtdDetected => ErrorModel::DtdDetected,
            Error::NodesLimitReached => ErrorModel::NodesLimitReached,
            Error::AttributesLimitReached => ErrorModel::AttributesLimitReached,
            Error::NamespacesLimitReached => ErrorModel::NamespacesLimitReached,
            Error::SizeLimit => ErrorModel::SizeLimit,
            Error::InvalidName(a) => ErrorModel::InvalidName(a),
            Error::NonXmlChar(a, b) => ErrorModel::NonXmlChar(a, b),
            Error::InvalidChar(a, b, c) => ErrorModel::InvalidChar(a, b, c),
            Error::InvalidChar2(a, b, c) => ErrorModel::InvalidChar2(a, b, c),
            Error::InvalidString(a, b) => ErrorModel::InvalidString(a, b),
            Error::InvalidExternalID(a) => ErrorModel::InvalidExternalID(a),
            Error::InvalidComment(a) => ErrorModel::InvalidComment(a),
            Error::InvalidCharacterData(a) => ErrorModel::InvalidCharacterData(a),
            Error::UnknownToken(a) => ErrorModel::UnknownToken(a),
            Error::UnexpectedEndOfStream => ErrorModel::UnexpectedEndOfStream,
        }
    }
}

impl Error {
    /// Returns the error position.
    pub fn pos(&self) -> (r: TextPos)
        ensures
            r == self@.pos(),
    {
        match *self {
            Error::InvalidXmlPrefixUri(pos) => pos,
            Error::UnexpectedXmlUri(pos) => pos,
            Error::UnexpectedXmlnsUri(pos) => pos,
            Error::InvalidElementNamePrefix(pos) => pos,
            Error::DuplicatedNamespace(_, pos) => pos,
            Error::UnknownNamespace(_, pos) => pos,
            Error::UnexpectedCloseTag(_, _, pos) => pos,
            Error::UnexpectedEntityCloseTag(pos) => pos,
            Error::UnknownEntityReference(_, pos) => pos,
            Error::MalformedEntityReference(pos) => pos,
            Error::EntityReferenceLoop(pos) => pos,
            Error::InvalidAttributeValue(pos) => pos,
            Error::DuplicatedAttribute(_, pos) => pos,
            Error::NoRootNode => TextPos::new(1, 1),
            Error::UnclosedRootNode => TextPos::new(1, 1),
            Error::UnexpectedDeclaration(pos) => pos,
            Error::DtdDetected => TextPos::new(1, 1),
            Error::NodesLimitReached => TextPos::new(1, 1),
            Error::AttributesLimitReached => TextPos::new(1, 1),
            Error::NamespacesLimitReached => TextPos::new(1, 1),
            Error::SizeLimit => TextPos::new(1, 1),
            Error::InvalidName(pos) => pos,
            Error::NonXmlChar(_, pos) => pos,
            Error::InvalidChar(_, _, pos) => pos,
            Error::InvalidChar2(_, _, pos) => pos,
            Error::InvalidString(_, pos) => pos,
            Error::InvalidExternalID(pos) => pos,
            Error::InvalidComment(pos) => pos,
            Error::InvalidCharacterData(pos) => pos,
            Error::UnknownToken(pos) => pos,
            Error::UnexpectedEndOfStream => TextPos::new(1, 1),
        }
    }
}

} // verus!
