//! Errors of the lexer and the parser.
//!
//! A read either hands out an item, ends, asks to be tried again later, or
//! fails for good. Only the last is a [`Fatal`]: it says what was wrong with
//! the document, and the component that met it keeps returning it.
use vstd::prelude::*;

verus! {

/// A construct of XML 1.0 that this library refuses on purpose.
#[derive(Clone, Copy, Debug, PartialEq, Eq, Structural)]
pub enum Restriction {
    /// `<?`, anywhere but as the XML declaration at the very start.
    ProcessingInstruction,
    /// `<!`: a comment, a document type declaration or a CDATA section.
    Declaration,
    /// A reference to an entity other than `amp`, `lt`, `gt`, `apos`, `quot`.
    Entity,
    /// An XML declaration whose version is not `1.0`.
    Version,
    /// An XML declaration whose encoding is not UTF-8.
    Encoding,
    /// An XML declaration whose `standalone` is not `yes`.
    Standalone,
}

/// A violation of the well-formedness rules of XML 1.0.
#[derive(Clone, Copy, Debug, PartialEq, Eq, Structural)]
pub enum WFError {
    /// A character that the grammar does not allow where it stands.
    UnexpectedChar,
    /// A token that cannot follow the tokens before it.
    UnexpectedToken,
    /// The input ended inside a token, inside an element or before any element.
    UnexpectedEof,
    /// An XML declaration whose fields are not `version`, `encoding`,
    /// `standalone`, in this order.
    InvalidDeclaration,
    /// An end tag whose name is not that of the element it closes.
    ElementMismatch,
    /// A character reference to what is no character of XML.
    InvalidCharRef,
    /// Two attributes of one start tag with the same name.
    DuplicateAttribute,
    /// Text other than white space outside the root element.
    TextOutsideRoot,
    /// A second element after the root element was closed.
    MultipleRoots,
}

/// A violation of the rules of Namespaces in XML 1.0.
#[derive(Clone, Copy, Debug, PartialEq, Eq, Structural)]
pub enum NWFError {
    /// A name with an empty part or more than one colon.
    InvalidName,
    /// A prefix with no declaration in scope.
    UndeclaredPrefix,
    /// Two attributes of one start tag with the same namespace and local name.
    DuplicateAttribute,
    /// A declaration of the prefix `xmlns`, or of `xml` to another namespace.
    ReservedPrefix,
    /// A declaration that binds a prefix to one of the two reserved namespaces.
    ReservedNamespace,
    /// A prefix declared with an empty namespace name.
    EmptyNamespace,
}

/// What was wrong with the document. No read gets past one of these.
#[derive(Clone, Copy, Debug, PartialEq, Eq, Structural)]
pub enum Fatal {
    /// A byte that cannot stand where it does in UTF-8.
    InvalidUtf8Byte(u8),
    /// A code point that XML does not allow in a document.
    InvalidChar(u32),
    RestrictedXml(Restriction),
    NotWellFormed(WFError),
    NotNamespaceWellFormed(NWFError),
    /// A name or an attribute value longer than the lexer was set up to hold.
    LimitExceeded,
}

/// Why a read handed out nothing.
#[derive(Debug)]
pub enum Error {
    /// A condition of the byte source. Where [`io_error_would_block`] holds of
    /// it, the same read succeeds once more input is there.
    IO(std::io::Error),
    /// The document is at fault; every later read returns the same.
    Fatal(Fatal),
}

#[verifier::external_type_specification]
#[verifier::external_body]
pub struct ExIoError(std::io::Error);

/// Whether `std::io::Error::kind` of `e` is `std::io::ErrorKind::WouldBlock`.
pub uninterp spec fn io_error_would_block(e: std::io::Error) -> bool;

/// `std::io::Error::kind`, compared with `ErrorKind::WouldBlock`: nothing is
/// proved of it, the result is what [`io_error_would_block`] names.
#[verifier::external_body]
fn io_is_would_block(e: &std::io::Error) -> (r: bool)
    ensures
        r == io_error_would_block(*e),
{
    e.kind() == std::io::ErrorKind::WouldBlock
}

/// `From<std::io::ErrorKind> for std::io::Error`, applied to `WouldBlock`.
/// Trusted: the error made has the kind it was made from.
#[verifier::external_body]
fn io_would_block() -> (e: std::io::Error)
    ensures
        io_error_would_block(e),
{
    std::io::Error::from(std::io::ErrorKind::WouldBlock)
}

impl Error {
    /// True of the one condition that is no failure: the source has no byte
    /// yet, and has not ended.
    pub open spec fn would_block(&self) -> bool {
        match *self {
            Error::IO(e) => io_error_would_block(e),
            Error::Fatal(_) => false,
        }
    }

    /// The error that a read returns when it has to wait for input.
    pub fn new_would_block() -> (e: Error)
        ensures
            e.would_block(),
            e is IO,
    {
        Error::IO(io_would_block())
    }

    #[verifier::when_used_as_spec(would_block)]
    pub fn is_would_block(&self) -> (r: bool)
        ensures
            r == self.would_block(),
    {
        match self {
            Error::IO(e) => io_is_would_block(e),
            Error::Fatal(_) => false,
        }
    }

    /// The fatal error inside, if this is one.
    pub fn fatal(&self) -> (r: Option<Fatal>)
        ensures
            r == (match *self {
                Error::IO(_) => None::<Fatal>,
                Error::Fatal(f) => Some(f),
            }),
    {
        match self {
            Error::IO(_) => None,
            Error::Fatal(f) => Some(*f),
        }
    }
}

impl Fatal {
    pub open spec fn spec_description(self) -> Seq<char> {
        match self {
            Fatal::InvalidUtf8Byte(_) => "invalid utf-8 byte"@,
            Fatal::InvalidChar(_) => "character not allowed in xml"@,
            Fatal::RestrictedXml(_) => "construct not allowed in restricted xml"@,
            Fatal::NotWellFormed(_) => "document is not well-formed"@,
            Fatal::NotNamespaceWellFormed(_) => "document is not namespace-well-formed"@,
            Fatal::LimitExceeded => "token longer than the configured limit"@,
        }
    }

    /// A short text for a person to read; the kind is in the value itself.
    pub fn description(&self) -> (s: &'static str)
        ensures
            s@ == self.spec_description(),
    {
        match self {
            Fatal::InvalidUtf8Byte(_) => "invalid utf-8 byte",
            Fatal::InvalidChar(_) => "character not allowed in xml",
            Fatal::RestrictedXml(_) => "construct not allowed in restricted xml",
            Fatal::NotWellFormed(_) => "document is not well-formed",
            Fatal::NotNamespaceWellFormed(_) => "document is not namespace-well-formed",
            Fatal::LimitExceeded => "token longer than the configured limit",
        }
    }
}

} // verus!
