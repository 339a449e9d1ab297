//! The lexer: bytes in, tokens out.
//!
//! The lexer is an automaton over characters. Everything it knows of the
//! input read so far is in its state ([`LexState`]): the mode it is in, the
//! characters of the token under way, and what the UTF-8 decoder holds of a
//! character that is not complete. So it can stop after any byte and go on
//! when the next one is there, and the tokens depend on the bytes alone, not
//! on the chunks they came in.
//!
//! [`lex_char`] is the automaton's step and [`lex_next`] says what one call
//! of [`Lexer::lex`] does with the bytes that a queue holds.
use vstd::prelude::*;
use crate::bufq::{BufferQueue, Fetch};
use crate::chars::{
    char_from_u32,
    chars_are,
    dec_value,
    hex_value,
    is_name_char,
    is_name_start,
    is_scalar_value,
    is_space,
    is_xml_char,
    spec_dec_value,
    spec_hex_value,
    spec_is_name_char,
    spec_is_name_start,
    spec_is_space,
    spec_is_xml_char,
};
use crate::error::{Error, Fatal, Restriction, WFError};
use crate::utf8::{utf8_start, utf8_step, Decoded, Utf8Decoder};

verus! {

/// Limits that the lexer keeps.
#[derive(Clone, Copy, Debug, PartialEq, Eq, Structural)]
pub struct LexerOptions {
    /// The greatest number of characters in a name or an attribute value. A
    /// longer one is a fatal error; a longer run of text comes in pieces of
    /// this length.
    pub max_token_length: usize,
}

impl Default for LexerOptions {
    fn default() -> (o: LexerOptions)
        ensures
            o.max_token_length == 8192,
    {
        LexerOptions { max_token_length: 8192 }
    }
}

impl LexerOptions {
    /// The same options with another limit on the length of a token.
    pub fn max_token_length(self, limit: usize) -> (o: LexerOptions)
        ensures
            o.max_token_length == limit,
    {
        LexerOptions { max_token_length: limit }
    }
}

/// A lexical token.
#[derive(Clone, Debug, PartialEq, Eq)]
pub enum Token {
    /// `<?xml` and the white space after it.
    XmlDeclStart,
    /// `?>`
    XmlDeclEnd,
    /// `<` and the name of the element that opens.
    ElementHeadStart(Vec<char>),
    /// `</` and the name of the element that closes.
    ElementFootStart(Vec<char>),
    /// `/>`
    ElementHeadClose,
    /// `>` at the end of a start tag or an end tag.
    ElementHFEnd,
    /// The name of an attribute.
    Name(Vec<char>),
    /// The value of an attribute, its references resolved and its white
    /// space normalised.
    AttributeValue(Vec<char>),
    /// A run of text, its references resolved.
    Text(Vec<char>),
}

/// A token as a mathematical value.
pub enum TokenView {
    XmlDeclStart,
    XmlDeclEnd,
    ElementHeadStart(Seq<char>),
    ElementFootStart(Seq<char>),
    ElementHeadClose,
    ElementHFEnd,
    Name(Seq<char>),
    AttributeValue(Seq<char>),
    Text(Seq<char>),
}

impl View for Token {
    type V = TokenView;

    open spec fn view(&self) -> TokenView {
        match *self {
            Token::XmlDeclStart => TokenView::XmlDeclStart,
            Token::XmlDeclEnd => TokenView::XmlDeclEnd,
            Token::ElementHeadStart(v) => TokenView::ElementHeadStart(v@),
            Token::ElementFootStart(v) => TokenView::ElementFootStart(v@),
            Token::ElementHeadClose => TokenView::ElementHeadClose,
            Token::ElementHFEnd => TokenView::ElementHFEnd,
            Token::Name(v) => TokenView::Name(v@),
            Token::AttributeValue(v) => TokenView::AttributeValue(v@),
            Token::Text(v) => TokenView::Text(v@),
        }
    }
}

/// The kinds of token that carry characters.
#[derive(Clone, Copy, Debug, PartialEq, Eq, Structural)]
pub enum Kind {
    HeadStart,
    FootStart,
    Name,
    Value,
    Text,
}

/// The kinds of markup that attributes, or what looks like them, stand in.
#[derive(Clone, Copy, Debug, PartialEq, Eq, Structural)]
pub enum Tag {
    /// The XML declaration.
    Decl,
    /// A start tag.
    Head,
    /// An end tag.
    Foot,
}

/// Where a reference stands.
#[derive(Clone, Copy, Debug, PartialEq, Eq, Structural)]
pub enum Within {
    /// In text.
    Text,
    /// In the value of an attribute; true where `"` delimits the value.
    Value(bool),
}

/// The modes of the lexer.
#[derive(Clone, Copy, Debug, PartialEq, Eq, Structural)]
pub enum Mode {
    /// Nothing was read. An XML declaration can begin here and nowhere else.
    Start,
    /// `<` was the first character of the input.
    StartOpen,
    /// `<?` began the input, and so many characters of `xml` followed.
    DeclTarget(u8),
    /// Between markup: the buffer holds text.
    Content,
    /// After `<`.
    Open,
    /// After `</`.
    CloseOpen,
    /// In the name of an element: the buffer holds it.
    ElementName(Tag),
    /// In a tag, after white space: an attribute or the tag's end is due.
    Blank(Tag),
    /// In the name of an attribute: the buffer holds it.
    AttrName(Tag),
    /// After the name of an attribute and white space: `=` is due.
    AttrEq(Tag),
    /// After `=`: the opening quote is due.
    AttrQuote(Tag),
    /// In the value of an attribute: the buffer holds it. True where `"`
    /// delimits it.
    AttrValue(Tag, bool),
    /// After the closing quote: white space or the tag's end is due.
    AttrDone(Tag),
    /// After `/` in a start tag: `>` is due.
    Slash,
    /// After `?` in the XML declaration: `>` is due.
    Question,
    /// After `&`.
    Ref(Within),
    /// In the name of an entity: the second buffer holds it.
    RefName(Within),
    /// After `&#`.
    RefHash(Within),
    /// In the decimal digits of a character reference.
    RefDec(Within),
    /// After `&#x`.
    RefHexStart(Within),
    /// In the hexadecimal digits of a character reference.
    RefHex(Within),
    /// The end of the input was reached in good order.
    End,
}

/// The state of the lexer.
pub struct LexState {
    /// The limit on the length of a token.
    pub max: nat,
    pub dec: Utf8Decoder,
    pub mode: Mode,
    /// The characters of the token under way.
    pub buf: Seq<char>,
    /// The name of the entity under way.
    pub aux: Seq<char>,
    /// The value of the character reference under way.
    pub num: u32,
    /// A `>` closed a name and the tag at once: the token for the name went
    /// out, the token for `>` is owed.
    pub owed: bool,
    /// The error that stopped the lexer, if one did.
    pub error: Option<Fatal>,
}

/// The result of a step: the next state and the token that the step
/// completed, if it completed one. A step that fails sets `state.error`.
pub struct LexStep {
    pub state: LexState,
    pub token: Option<TokenView>,
}

/// What a read hands out, as a mathematical value.
pub enum Reply<T> {
    /// The next item.
    Item(T),
    /// The input ended in good order; there are no more items.
    End,
    /// There is no item yet; there may be one when more input has come.
    WouldBlock,
    /// The document is at fault.
    Failed(Fatal),
}

/// The lexer before the first byte.
pub open spec fn lex_start(max: nat) -> LexState {
    LexState {
        max,
        dec: utf8_start(),
        mode: Mode::Start,
        buf: Seq::empty(),
        aux: Seq::empty(),
        num: 0,
        owed: false,
        error: None,
    }
}

pub open spec fn token_of(kind: Kind, data: Seq<char>) -> TokenView {
    match kind {
        Kind::HeadStart => TokenView::ElementHeadStart(data),
        Kind::FootStart => TokenView::ElementFootStart(data),
        Kind::Name => TokenView::Name(data),
        Kind::Value => TokenView::AttributeValue(data),
        Kind::Text => TokenView::Text(data),
    }
}

pub open spec fn name_kind(tag: Tag) -> Kind {
    if tag == Tag::Foot {
        Kind::FootStart
    } else {
        Kind::HeadStart
    }
}

/// A step that only changes the mode.
pub open spec fn stay(s: LexState, mode: Mode) -> LexStep {
    LexStep { state: LexState { mode, ..s }, token: None }
}

/// A step that fails.
pub open spec fn fail(s: LexState, f: Fatal) -> LexStep {
    LexStep { state: LexState { error: Some(f), ..s }, token: None }
}

pub open spec fn unexpected(s: LexState) -> LexStep {
    fail(s, Fatal::NotWellFormed(WFError::UnexpectedChar))
}

/// A step that adds a character to a name or a value, which may not grow
/// beyond the limit.
pub open spec fn grow(s: LexState, mode: Mode, c: char) -> LexStep {
    if s.buf.len() >= s.max {
        fail(s, Fatal::LimitExceeded)
    } else {
        LexStep { state: LexState { mode, buf: s.buf.push(c), ..s }, token: None }
    }
}

/// A step that adds a character to the text. Text that has reached the
/// limit goes out as a token, and the character begins the next run.
pub open spec fn text(s: LexState, c: char) -> LexStep {
    if s.buf.len() >= s.max && s.buf.len() > 0 {
        LexStep {
            state: LexState { mode: Mode::Content, buf: seq![c], ..s },
            token: Some(TokenView::Text(s.buf)),
        }
    } else {
        LexStep { state: LexState { mode: Mode::Content, buf: s.buf.push(c), ..s }, token: None }
    }
}

/// A step that completes the token whose characters the buffer holds.
pub open spec fn emit_buf(s: LexState, mode: Mode, kind: Kind) -> LexStep {
    LexStep {
        state: LexState { mode, buf: Seq::empty(), ..s },
        token: Some(token_of(kind, s.buf)),
    }
}

/// A step that completes a token without characters.
pub open spec fn emit_mark(s: LexState, mode: Mode, t: TokenView) -> LexStep {
    LexStep { state: LexState { mode, ..s }, token: Some(t) }
}

/// The step with the token for `>` owed on top.
pub open spec fn owing(st: LexStep) -> LexStep {
    LexStep { state: LexState { owed: true, ..st.state }, token: st.token }
}

/// The step in text, and at the very start of the input.
pub open spec fn lex_content(s: LexState, c: char) -> LexStep {
    if c == '<' {
        let next = if s.mode == Mode::Start {
            Mode::StartOpen
        } else {
            Mode::Open
        };
        if s.buf.len() > 0 {
            emit_buf(s, next, Kind::Text)
        } else {
            stay(s, next)
        }
    } else if c == '&' {
        stay(s, Mode::Ref(Within::Text))
    } else if !spec_is_xml_char(c) {
        fail(s, Fatal::InvalidChar(c as u32))
    } else {
        text(s, c)
    }
}

/// The step after `<`, after `</` and in `<?xml`.
pub open spec fn lex_markup(s: LexState, c: char) -> LexStep {
    match s.mode {
        Mode::StartOpen | Mode::Open => {
            if c == '?' {
                if s.mode == Mode::StartOpen {
                    stay(s, Mode::DeclTarget(0))
                } else {
                    fail(s, Fatal::RestrictedXml(Restriction::ProcessingInstruction))
                }
            } else if c == '!' {
                fail(s, Fatal::RestrictedXml(Restriction::Declaration))
            } else if c == '/' {
                stay(s, Mode::CloseOpen)
            } else if spec_is_name_start(c) {
                grow(s, Mode::ElementName(Tag::Head), c)
            } else {
                unexpected(s)
            }
        },
        Mode::CloseOpen => {
            if spec_is_name_start(c) {
                grow(s, Mode::ElementName(Tag::Foot), c)
            } else {
                unexpected(s)
            }
        },
        Mode::DeclTarget(n) => {
            if n == 0 && c == 'x' {
                stay(s, Mode::DeclTarget(1))
            } else if n == 1 && c == 'm' {
                stay(s, Mode::DeclTarget(2))
            } else if n == 2 && c == 'l' {
                stay(s, Mode::DeclTarget(3))
            } else if n == 3 && spec_is_space(c) {
                emit_mark(s, Mode::Blank(Tag::Decl), TokenView::XmlDeclStart)
            } else {
                fail(s, Fatal::RestrictedXml(Restriction::ProcessingInstruction))
            }
        },
        _ => unexpected(s),
    }
}

/// The step where a tag may end.
pub open spec fn tag_end(s: LexState, tag: Tag, c: char) -> LexStep {
    if c == '>' && tag != Tag::Decl {
        emit_mark(s, Mode::Content, TokenView::ElementHFEnd)
    } else if c == '/' && tag == Tag::Head {
        stay(s, Mode::Slash)
    } else if c == '?' && tag == Tag::Decl {
        stay(s, Mode::Question)
    } else {
        unexpected(s)
    }
}

/// The step inside a tag, outside the values of its attributes.
pub open spec fn lex_tag(s: LexState, c: char) -> LexStep {
    match s.mode {
        Mode::ElementName(tag) => {
            if spec_is_name_char(c) {
                grow(s, s.mode, c)
            } else if spec_is_space(c) {
                emit_buf(s, Mode::Blank(tag), name_kind(tag))
            } else if c == '>' {
                owing(emit_buf(s, Mode::Content, name_kind(tag)))
            } else if c == '/' && tag == Tag::Head {
                emit_buf(s, Mode::Slash, name_kind(tag))
            } else {
                unexpected(s)
            }
        },
        Mode::Blank(tag) => {
            if spec_is_space(c) {
                stay(s, s.mode)
            } else if spec_is_name_start(c) && tag != Tag::Foot {
                grow(s, Mode::AttrName(tag), c)
            } else {
                tag_end(s, tag, c)
            }
        },
        Mode::AttrName(tag) => {
            if spec_is_name_char(c) {
                grow(s, s.mode, c)
            } else if c == '=' {
                emit_buf(s, Mode::AttrQuote(tag), Kind::Name)
            } else if spec_is_space(c) {
                emit_buf(s, Mode::AttrEq(tag), Kind::Name)
            } else {
                unexpected(s)
            }
        },
        Mode::AttrEq(tag) => {
            if spec_is_space(c) {
                stay(s, s.mode)
            } else if c == '=' {
                stay(s, Mode::AttrQuote(tag))
            } else {
                unexpected(s)
            }
        },
        Mode::AttrQuote(tag) => {
            if spec_is_space(c) {
                stay(s, s.mode)
            } else if c == '"' {
                stay(s, Mode::AttrValue(tag, true))
            } else if c == '\'' {
                stay(s, Mode::AttrValue(tag, false))
            } else {
                unexpected(s)
            }
        },
        Mode::AttrDone(tag) => {
            if spec_is_space(c) {
                stay(s, Mode::Blank(tag))
            } else {
                tag_end(s, tag, c)
            }
        },
        Mode::Slash => {
            if c == '>' {
                emit_mark(s, Mode::Content, TokenView::ElementHeadClose)
            } else {
                unexpected(s)
            }
        },
        Mode::Question => {
            if c == '>' {
                emit_mark(s, Mode::Content, TokenView::XmlDeclEnd)
            } else {
                unexpected(s)
            }
        },
        _ => unexpected(s),
    }
}

/// The step in the value of an attribute. Tab, line feed and carriage
/// return become a space each.
pub open spec fn lex_value(s: LexState, tag: Tag, double: bool, c: char) -> LexStep {
    if (double && c == '"') || (!double && c == '\'') {
        emit_buf(s, Mode::AttrDone(tag), Kind::Value)
    } else if c == '<' {
        unexpected(s)
    } else if c == '&' {
        if tag == Tag::Head {
            stay(s, Mode::Ref(Within::Value(double)))
        } else {
            unexpected(s)
        }
    } else if c == '\t' || c == '\n' || c == '\r' {
        grow(s, s.mode, ' ')
    } else if !spec_is_xml_char(c) {
        fail(s, Fatal::InvalidChar(c as u32))
    } else {
        grow(s, s.mode, c)
    }
}

/// The character that a predefined entity stands for.
pub open spec fn entity(name: Seq<char>) -> Option<char> {
    if name == "amp"@ {
        Some('&')
    } else if name == "lt"@ {
        Some('<')
    } else if name == "gt"@ {
        Some('>')
    } else if name == "apos"@ {
        Some('\'')
    } else if name == "quot"@ {
        Some('"')
    } else {
        None
    }
}

/// The step that puts the character of a reference where the reference
/// stood.
pub open spec fn resolved(s: LexState, w: Within, c: char) -> LexStep {
    let s1 = LexState { aux: Seq::empty(), num: 0, ..s };
    match w {
        Within::Text => text(s1, c),
        Within::Value(double) => grow(s1, Mode::AttrValue(Tag::Head, double), c),
    }
}

/// The step on a digit that makes the value of a character reference `n`.
pub open spec fn digit(s: LexState, mode: Mode, n: int) -> LexStep {
    if n > 0x10FFFF {
        fail(s, Fatal::NotWellFormed(WFError::InvalidCharRef))
    } else {
        LexStep { state: LexState { mode, num: n as u32, ..s }, token: None }
    }
}

/// The step on the `;` of a character reference.
pub open spec fn charref(s: LexState, w: Within) -> LexStep {
    if is_scalar_value(s.num) && spec_is_xml_char(s.num as char) {
        resolved(s, w, s.num as char)
    } else {
        fail(s, Fatal::NotWellFormed(WFError::InvalidCharRef))
    }
}

/// The step inside a reference.
pub open spec fn lex_reference(s: LexState, c: char) -> LexStep {
    match s.mode {
        Mode::Ref(w) => {
            if c == '#' {
                stay(s, Mode::RefHash(w))
            } else if spec_is_name_start(c) {
                LexStep { state: LexState { mode: Mode::RefName(w), aux: seq![c], ..s }, token: None }
            } else {
                unexpected(s)
            }
        },
        Mode::RefName(w) => {
            if c == ';' {
                match entity(s.aux) {
                    Some(e) => resolved(s, w, e),
                    None => fail(s, Fatal::RestrictedXml(Restriction::Entity)),
                }
            } else if spec_is_name_char(c) {
                if s.aux.len() >= 4 {
                    fail(s, Fatal::RestrictedXml(Restriction::Entity))
                } else {
                    LexStep { state: LexState { aux: s.aux.push(c), ..s }, token: None }
                }
            } else {
                unexpected(s)
            }
        },
        Mode::RefHash(w) => {
            if c == 'x' {
                digit(s, Mode::RefHexStart(w), 0)
            } else {
                match spec_dec_value(c) {
                    Some(d) => digit(s, Mode::RefDec(w), d as int),
                    None => unexpected(s),
                }
            }
        },
        Mode::RefDec(w) => {
            if c == ';' {
                charref(s, w)
            } else {
                match spec_dec_value(c) {
                    Some(d) => digit(s, Mode::RefDec(w), s.num * 10 + d),
                    None => unexpected(s),
                }
            }
        },
        Mode::RefHexStart(w) => {
            match spec_hex_value(c) {
                Some(d) => digit(s, Mode::RefHex(w), d as int),
                None => unexpected(s),
            }
        },
        Mode::RefHex(w) => {
            if c == ';' {
                charref(s, w)
            } else {
                match spec_hex_value(c) {
                    Some(d) => digit(s, Mode::RefHex(w), s.num * 16 + d),
                    None => unexpected(s),
                }
            }
        },
        _ => unexpected(s),
    }
}

/// The step of the automaton on one character.
#[verifier::opaque]
pub open spec fn lex_char(s: LexState, c: char) -> LexStep {
    match s.mode {
        Mode::Start | Mode::Content => lex_content(s, c),
        Mode::StartOpen | Mode::Open | Mode::CloseOpen | Mode::DeclTarget(_) => lex_markup(s, c),
        Mode::ElementName(_) | Mode::Blank(_) | Mode::AttrName(_) | Mode::AttrEq(_)
        | Mode::AttrQuote(_) | Mode::AttrDone(_) | Mode::Slash | Mode::Question => lex_tag(s, c),
        Mode::AttrValue(tag, double) => lex_value(s, tag, double, c),
        Mode::Ref(_) | Mode::RefName(_) | Mode::RefHash(_) | Mode::RefDec(_) | Mode::RefHexStart(_)
        | Mode::RefHex(_) => lex_reference(s, c),
        Mode::End => unexpected(s),
    }
}

/// The step on one byte: the decoder's step and, where the byte completes a
/// character, the automaton's.
#[verifier::opaque]
pub open spec fn lex_byte(s: LexState, b: u8) -> LexStep {
    let (dec, out) = utf8_step(s.dec, b);
    let s1 = LexState { dec, ..s };
    match out {
        Decoded::Pending => LexStep { state: s1, token: None },
        Decoded::Invalid => fail(s1, Fatal::InvalidUtf8Byte(b)),
        Decoded::Scalar(c) => lex_char(s1, c),
    }
}

/// The step at the end of the input. The input may end in text, and at its
/// start; text that was held back goes out.
#[verifier::opaque]
pub open spec fn lex_end(s: LexState) -> LexStep {
    if s.mode == Mode::End {
        LexStep { state: s, token: None }
    } else if s.dec.need != 0 {
        fail(s, Fatal::NotWellFormed(WFError::UnexpectedEof))
    } else if s.mode == Mode::Start || s.mode == Mode::Content {
        if s.buf.len() > 0 {
            emit_buf(s, Mode::End, Kind::Text)
        } else {
            stay(s, Mode::End)
        }
    } else {
        fail(s, Fatal::NotWellFormed(WFError::UnexpectedEof))
    }
}

/// What a step hands out where it is the last of a read.
pub open spec fn reply_of(st: LexStep) -> Reply<TokenView> {
    match st.state.error {
        Some(f) => Reply::Failed(f),
        None => match st.token {
            Some(t) => Reply::Item(t),
            None => Reply::End,
        },
    }
}

/// The result of a read: the state after it, the number of bytes it took
/// from the input and what it hands out.
pub struct LexNext {
    pub state: LexState,
    pub consumed: nat,
    pub reply: Reply<TokenView>,
}

/// One read of the lexer in state `s` from the bytes `bytes`, after which
/// the input has ended if `eof`, and not ended yet if not.
///
/// A lexer that failed fails again. A lexer that owes the token for `>`
/// hands it out and takes no byte. Otherwise the lexer takes bytes up to the
/// first that completes a token or is at fault. Where the bytes run out
/// before that, the read blocks, or, at the end of the input, ends.
pub open spec fn lex_next(s: LexState, bytes: Seq<u8>, eof: bool) -> LexNext
    decreases bytes.len(),
{
    if s.error is Some {
        LexNext { state: s, consumed: 0, reply: Reply::Failed(s.error->0) }
    } else if s.owed {
        LexNext {
            state: LexState { owed: false, ..s },
            consumed: 0,
            reply: Reply::Item(TokenView::ElementHFEnd),
        }
    } else if bytes.len() == 0 {
        if eof {
            let st = lex_end(s);
            LexNext { state: st.state, consumed: 0, reply: reply_of(st) }
        } else {
            LexNext { state: s, consumed: 0, reply: Reply::WouldBlock }
        }
    } else {
        let st = lex_byte(s, bytes[0]);
        if st.state.error is Some || st.token is Some {
            LexNext { state: st.state, consumed: 1, reply: reply_of(st) }
        } else {
            let n = lex_next(st.state, bytes.skip(1), eof);
            LexNext { state: n.state, consumed: n.consumed + 1, reply: n.reply }
        }
    }
}

/// What a lexer still has to hand out without a byte of input: the token it
/// owes, and the text it holds back until the input ends.
pub open spec fn lex_weight(s: LexState) -> nat {
    (if s.owed {
        1nat
    } else {
        0nat
    }) + (if s.mode == Mode::End {
        0nat
    } else {
        1nat
    })
}

/// A read takes no more bytes than there are, and one that hands out a token
/// has taken a byte or used up something of what the lexer held.
pub proof fn lemma_lex_progress(s: LexState, bytes: Seq<u8>, eof: bool)
    ensures
        lex_next(s, bytes, eof).consumed <= bytes.len(),
        lex_next(s, bytes, eof).reply is Item ==> lex_next(s, bytes, eof).consumed > 0
            || lex_weight(lex_next(s, bytes, eof).state) < lex_weight(s),
    decreases bytes.len(),
{
    reveal(lex_end);
    if s.error is None && !s.owed && bytes.len() > 0 {
        let st = lex_byte(s, bytes[0]);
        if !(st.state.error is Some || st.token is Some) {
            lemma_lex_progress(st.state, bytes.skip(1), eof);
        }
    }
}

/// What a step of the [`Lexer`] returned is what the automaton's step says.
pub open spec fn stepped(r: Result<Option<Token>, Fatal>, after: LexState, st: LexStep) -> bool {
    &&& after == st.state
    &&& match st.state.error {
        Some(f) => r == Err::<Option<Token>, Fatal>(f),
        None => match st.token {
            Some(t) => r matches Ok(Some(tok)) && tok@ == t,
            None => r == Ok::<Option<Token>, Fatal>(None),
        },
    }
}

/// What a read returned is what the reply of the model says.
pub open spec fn replied(r: Result<Option<Token>, Error>, reply: Reply<TokenView>) -> bool {
    match reply {
        Reply::Item(t) => r matches Ok(Some(tok)) && tok@ == t,
        Reply::End => r matches Ok(None),
        Reply::WouldBlock => r matches Err(e) && e.would_block(),
        Reply::Failed(f) => r matches Err(Error::Fatal(g)) && g == f,
    }
}

/// A buffer for the characters of what the lexer is reading. It is made
/// when the first character comes, and can be given up when it holds none.
struct Scratch {
    chars: Option<Vec<char>>,
}

impl View for Scratch {
    type V = Seq<char>;

    closed spec fn view(&self) -> Seq<char> {
        match self.chars {
            Some(v) => v@,
            None => Seq::empty(),
        }
    }
}

impl Scratch {
    /// Whether there is a buffer at all.
    closed spec fn held(&self) -> bool {
        self.chars is Some
    }

    fn new() -> (s: Scratch)
        ensures
            s@ == Seq::<char>::empty(),
            !s.held(),
    {
        Scratch { chars: None }
    }

    fn len(&self) -> (n: usize)
        ensures
            n == self@.len(),
    {
        match &self.chars {
            Some(v) => v.len(),
            None => 0,
        }
    }

    fn push(&mut self, c: char)
        ensures
            final(self)@ == old(self)@.push(c),
            final(self).held(),
    {
        let mut v = match self.chars.take() {
            Some(v) => v,
            None => Vec::new(),
        };
        v.push(c);
        self.chars = Some(v);
    }

    /// Empties the buffer and keeps it.
    fn clear(&mut self)
        ensures
            final(self)@ == Seq::<char>::empty(),
            final(self).held() == old(self).held(),
    {
        match self.chars.take() {
            Some(mut v) => {
                v.clear();
                self.chars = Some(v);
            },
            None => {},
        }
    }

    /// Hands the buffer over with what it holds.
    fn take(&mut self) -> (v: Vec<char>)
        ensures
            v@ == old(self)@,
            final(self)@ == Seq::<char>::empty(),
            !final(self).held(),
    {
        match self.chars.take() {
            Some(v) => v,
            None => Vec::new(),
        }
    }

    /// Whether the buffer holds exactly the characters of `s`.
    fn is(&self, s: &str) -> (r: bool)
        ensures
            r == (self@ == s@),
    {
        match &self.chars {
            Some(v) => chars_are(v, s),
            None => {
                let none: Vec<char> = Vec::new();
                chars_are(&none, s)
            },
        }
    }

    /// Gives the buffer up if it holds nothing.
    fn release(&mut self)
        ensures
            final(self)@ == old(self)@,
            final(self).held() == (old(self)@.len() > 0),
    {
        if self.len() == 0 {
            self.chars = None;
            assert(self@ =~= old(self)@);
        }
    }
}

/// The lexer.
pub struct Lexer {
    max: usize,
    dec: Utf8Decoder,
    mode: Mode,
    buf: Scratch,
    aux: Scratch,
    num: u32,
    owed: bool,
    err: Option<Fatal>,
}

impl View for Lexer {
    type V = LexState;

    closed spec fn view(&self) -> LexState {
        LexState {
            max: self.max as nat,
            dec: self.dec,
            mode: self.mode,
            buf: self.buf@,
            aux: self.aux@,
            num: self.num,
            owed: self.owed,
            error: self.err,
        }
    }
}

impl Lexer {
    /// A lexer with the default options, before the first byte.
    pub fn new() -> (l: Lexer)
        ensures
            l@ == lex_start(8192),
    {
        Lexer::with_options(LexerOptions { max_token_length: 8192 })
    }

    /// A lexer with the given options, before the first byte.
    pub fn with_options(options: LexerOptions) -> (l: Lexer)
        ensures
            l@ == lex_start(options.max_token_length as nat),
    {
        Lexer {
            max: options.max_token_length,
            dec: Utf8Decoder::new(),
            mode: Mode::Start,
            buf: Scratch::new(),
            aux: Scratch::new(),
            num: 0,
            owed: false,
            err: None,
        }
    }

    /// The limit on the length of a token that the lexer was set up with.
    pub fn max_token_length(&self) -> (n: usize)
        ensures
            n == self@.max,
    {
        self.max
    }

    /// The error that stopped the lexer, if one did.
    pub fn failed(&self) -> (f: Option<Fatal>)
        ensures
            f == self@.error,
    {
        self.err
    }

    /// The lexer holds a buffer that holds no character: one that a token
    /// has left behind, or that the name of an entity has.
    pub closed spec fn holds_spare(&self) -> bool {
        (self.buf.held() && self.buf@.len() == 0) || (self.aux.held() && self.aux@.len() == 0)
    }

    /// Gives up the buffers that hold nothing; the next character that needs
    /// one makes a new one. What the lexer has of a token under way stays,
    /// and the state of the lexer is the same after it.
    pub fn release_temporaries(&mut self)
        ensures
            final(self)@ == old(self)@,
            !final(self).holds_spare(),
    {
        self.buf.release();
        self.aux.release();
    }

    fn take_buf(&mut self) -> (v: Vec<char>)
        ensures
            v@ == old(self)@.buf,
            final(self)@ == (LexState { buf: Seq::empty(), ..old(self)@ }),
    {
        self.buf.take()
    }

    fn stay(&mut self, mode: Mode) -> (r: Result<Option<Token>, Fatal>)
        requires
            old(self)@.error is None,
        ensures
            stepped(r, final(self)@, stay(old(self)@, mode)),
    {
        self.mode = mode;
        Ok(None)
    }

    fn fail(&mut self, f: Fatal) -> (r: Result<Option<Token>, Fatal>)
        ensures
            stepped(r, final(self)@, fail(old(self)@, f)),
    {
        self.err = Some(f);
        Err(f)
    }

    fn unexpected(&mut self) -> (r: Result<Option<Token>, Fatal>)
        ensures
            stepped(r, final(self)@, unexpected(old(self)@)),
    {
        self.fail(Fatal::NotWellFormed(WFError::UnexpectedChar))
    }

    fn grow(&mut self, mode: Mode, c: char) -> (r: Result<Option<Token>, Fatal>)
        requires
            old(self)@.error is None,
        ensures
            stepped(r, final(self)@, grow(old(self)@, mode, c)),
    {
        if self.buf.len() >= self.max {
            self.fail(Fatal::LimitExceeded)
        } else {
            self.buf.push(c);
            self.mode = mode;
            Ok(None)
        }
    }

    fn text(&mut self, c: char) -> (r: Result<Option<Token>, Fatal>)
        requires
            old(self)@.error is None,
        ensures
            stepped(r, final(self)@, text(old(self)@, c)),
    {
        self.mode = Mode::Content;
        if self.buf.len() >= self.max && self.buf.len() > 0 {
            let run = self.take_buf();
            self.buf.push(c);
            assert(self.buf@ =~= seq![c]);
            Ok(Some(Token::Text(run)))
        } else {
            self.buf.push(c);
            Ok(None)
        }
    }

    fn emit_buf(&mut self, mode: Mode, kind: Kind) -> (r: Result<Option<Token>, Fatal>)
        requires
            old(self)@.error is None,
        ensures
            stepped(r, final(self)@, emit_buf(old(self)@, mode, kind)),
    {
        self.mode = mode;
        let data = self.take_buf();
        let token = match kind {
            Kind::HeadStart => Token::ElementHeadStart(data),
            Kind::FootStart => Token::ElementFootStart(data),
            Kind::Name => Token::Name(data),
            Kind::Value => Token::AttributeValue(data),
            Kind::Text => Token::Text(data),
        };
        Ok(Some(token))
    }

    fn emit_mark(&mut self, mode: Mode, token: Token) -> (r: Result<Option<Token>, Fatal>)
        requires
            old(self)@.error is None,
        ensures
            stepped(r, final(self)@, emit_mark(old(self)@, mode, token@)),
    {
        self.mode = mode;
        Ok(Some(token))
    }

    fn step_content(&mut self, c: char) -> (r: Result<Option<Token>, Fatal>)
        requires
            old(self)@.error is None,
        ensures
            stepped(r, final(self)@, lex_content(old(self)@, c)),
    {
        if c == '<' {
            let next = match self.mode {
                Mode::Start => Mode::StartOpen,
                _ => Mode::Open,
            };
            if self.buf.len() > 0 {
                self.emit_buf(next, Kind::Text)
            } else {
                self.stay(next)
            }
        } else if c == '&' {
            self.stay(Mode::Ref(Within::Text))
        } else if !is_xml_char(c) {
            self.fail(Fatal::InvalidChar(c as u32))
        } else {
            self.text(c)
        }
    }

    fn step_markup(&mut self, c: char) -> (r: Result<Option<Token>, Fatal>)
        requires
            old(self)@.error is None,
        ensures
            stepped(r, final(self)@, lex_markup(old(self)@, c)),
    {
        match self.mode {
            Mode::StartOpen | Mode::Open => {
                if c == '?' {
                    match self.mode {
                        Mode::StartOpen => self.stay(Mode::DeclTarget(0)),
                        _ => self.fail(Fatal::RestrictedXml(Restriction::ProcessingInstruction)),
                    }
                } else if c == '!' {
                    self.fail(Fatal::RestrictedXml(Restriction::Declaration))
                } else if c == '/' {
                    self.stay(Mode::CloseOpen)
                } else if is_name_start(c) {
                    self.grow(Mode::ElementName(Tag::Head), c)
                } else {
                    self.unexpected()
                }
            },
            Mode::CloseOpen => {
                if is_name_start(c) {
                    self.grow(Mode::ElementName(Tag::Foot), c)
                } else {
                    self.unexpected()
                }
            },
            Mode::DeclTarget(n) => {
                if n == 0 && c == 'x' {
                    self.stay(Mode::DeclTarget(1))
                } else if n == 1 && c == 'm' {
                    self.stay(Mode::DeclTarget(2))
                } else if n == 2 && c == 'l' {
                    self.stay(Mode::DeclTarget(3))
                } else if n == 3 && is_space(c) {
                    self.emit_mark(Mode::Blank(Tag::Decl), Token::XmlDeclStart)
                } else {
                    self.fail(Fatal::RestrictedXml(Restriction::ProcessingInstruction))
                }
            },
            _ => self.unexpected(),
        }
    }

    fn step_tag_end(&mut self, tag: Tag, c: char) -> (r: Result<Option<Token>, Fatal>)
        requires
            old(self)@.error is None,
        ensures
            stepped(r, final(self)@, tag_end(old(self)@, tag, c)),
    {
        if c == '>' && !matches!(tag, Tag::Decl) {
            self.emit_mark(Mode::Content, Token::ElementHFEnd)
        } else if c == '/' && matches!(tag, Tag::Head) {
            self.stay(Mode::Slash)
        } else if c == '?' && matches!(tag, Tag::Decl) {
            self.stay(Mode::Question)
        } else {
            self.unexpected()
        }
    }

    fn step_tag(&mut self, c: char) -> (r: Result<Option<Token>, Fatal>)
        requires
            old(self)@.error is None,
        ensures
            stepped(r, final(self)@, lex_tag(old(self)@, c)),
    {
        match self.mode {
            Mode::ElementName(tag) => {
                let kind = match tag {
                    Tag::Foot => Kind::FootStart,
                    _ => Kind::HeadStart,
                };
                if is_name_char(c) {
                    self.grow(Mode::ElementName(tag), c)
                } else if is_space(c) {
                    self.emit_buf(Mode::Blank(tag), kind)
                } else if c == '>' {
                    let r = self.emit_buf(Mode::Content, kind);
                    self.owed = true;
                    r
                } else if c == '/' && matches!(tag, Tag::Head) {
                    self.emit_buf(Mode::Slash, kind)
                } else {
                    self.unexpected()
                }
            },
            Mode::Blank(tag) => {
                if is_space(c) {
                    self.stay(Mode::Blank(tag))
                } else if is_name_start(c) && !matches!(tag, Tag::Foot) {
                    self.grow(Mode::AttrName(tag), c)
                } else {
                    self.step_tag_end(tag, c)
                }
            },
            Mode::AttrName(tag) => {
                if is_name_char(c) {
                    self.grow(Mode::AttrName(tag), c)
                } else if c == '=' {
                    self.emit_buf(Mode::AttrQuote(tag), Kind::Name)
                } else if is_space(c) {
                    self.emit_buf(Mode::AttrEq(tag), Kind::Name)
                } else {
                    self.unexpected()
                }
            },
            Mode::AttrEq(tag) => {
                if is_space(c) {
                    self.stay(Mode::AttrEq(tag))
                } else if c == '=' {
                    self.stay(Mode::AttrQuote(tag))
                } else {
                    self.unexpected()
                }
            },
            Mode::AttrQuote(tag) => {
                if is_space(c) {
                    self.stay(Mode::AttrQuote(tag))
                } else if c == '"' {
                    self.stay(Mode::AttrValue(tag, true))
                } else if c == '\'' {
                    self.stay(Mode::AttrValue(tag, false))
                } else {
                    self.unexpected()
                }
            },
            Mode::AttrDone(tag) => {
                if is_space(c) {
                    self.stay(Mode::Blank(tag))
                } else {
                    self.step_tag_end(tag, c)
                }
            },
            Mode::Slash => {
                if c == '>' {
                    self.emit_mark(Mode::Content, Token::ElementHeadClose)
                } else {
                    self.unexpected()
                }
            },
            Mode::Question => {
                if c == '>' {
                    self.emit_mark(Mode::Content, Token::XmlDeclEnd)
                } else {
                    self.unexpected()
                }
            },
            _ => self.unexpected(),
        }
    }

    fn step_value(&mut self, tag: Tag, double: bool, c: char) -> (r: Result<Option<Token>, Fatal>)
        requires
            old(self)@.error is None,
            old(self)@.mode == Mode::AttrValue(tag, double),
        ensures
            stepped(r, final(self)@, lex_value(old(self)@, tag, double, c)),
    {
        if (double && c == '"') || (!double && c == '\'') {
            self.emit_buf(Mode::AttrDone(tag), Kind::Value)
        } else if c == '<' {
            self.unexpected()
        } else if c == '&' {
            match tag {
                Tag::Head => self.stay(Mode::Ref(Within::Value(double))),
                _ => self.unexpected(),
            }
        } else if c == '\t' || c == '\n' || c == '\r' {
            self.grow(Mode::AttrValue(tag, double), ' ')
        } else if !is_xml_char(c) {
            self.fail(Fatal::InvalidChar(c as u32))
        } else {
            self.grow(Mode::AttrValue(tag, double), c)
        }
    }

    /// The character that the entity named in the second buffer stands for.
    fn entity(&self) -> (r: Option<char>)
        ensures
            r == entity(self@.aux),
    {
        if self.aux.is("amp") {
            Some('&')
        } else if self.aux.is("lt") {
            Some('<')
        } else if self.aux.is("gt") {
            Some('>')
        } else if self.aux.is("apos") {
            Some('\'')
        } else if self.aux.is("quot") {
            Some('"')
        } else {
            None
        }
    }

    fn resolved(&mut self, w: Within, c: char) -> (r: Result<Option<Token>, Fatal>)
        requires
            old(self)@.error is None,
        ensures
            stepped(r, final(self)@, resolved(old(self)@, w, c)),
    {
        self.aux.clear();
        self.num = 0;
        assert(self.aux@ =~= Seq::<char>::empty());
        match w {
            Within::Text => self.text(c),
            Within::Value(double) => self.grow(Mode::AttrValue(Tag::Head, double), c),
        }
    }

    fn digit(&mut self, mode: Mode, n: u64) -> (r: Result<Option<Token>, Fatal>)
        requires
            old(self)@.error is None,
        ensures
            stepped(r, final(self)@, digit(old(self)@, mode, n as int)),
    {
        if n > 0x10FFFF {
            self.fail(Fatal::NotWellFormed(WFError::InvalidCharRef))
        } else {
            self.mode = mode;
            self.num = n as u32;
            Ok(None)
        }
    }

    fn charref(&mut self, w: Within) -> (r: Result<Option<Token>, Fatal>)
        requires
            old(self)@.error is None,
        ensures
            stepped(r, final(self)@, charref(old(self)@, w)),
    {
        match char_from_u32(self.num) {
            Some(c) => {
                if is_xml_char(c) {
                    self.resolved(w, c)
                } else {
                    self.fail(Fatal::NotWellFormed(WFError::InvalidCharRef))
                }
            },
            None => self.fail(Fatal::NotWellFormed(WFError::InvalidCharRef)),
        }
    }

    fn step_reference(&mut self, c: char) -> (r: Result<Option<Token>, Fatal>)
        requires
            old(self)@.error is None,
        ensures
            stepped(r, final(self)@, lex_reference(old(self)@, c)),
    {
        match self.mode {
            Mode::Ref(w) => {
                if c == '#' {
                    self.stay(Mode::RefHash(w))
                } else if is_name_start(c) {
                    self.mode = Mode::RefName(w);
                    self.aux.clear();
                    self.aux.push(c);
                    assert(self.aux@ =~= seq![c]);
                    Ok(None)
                } else {
                    self.unexpected()
                }
            },
            Mode::RefName(w) => {
                if c == ';' {
                    match self.entity() {
                        Some(e) => self.resolved(w, e),
                        None => self.fail(Fatal::RestrictedXml(Restriction::Entity)),
                    }
                } else if is_name_char(c) {
                    if self.aux.len() >= 4 {
                        self.fail(Fatal::RestrictedXml(Restriction::Entity))
                    } else {
                        self.aux.push(c);
                        Ok(None)
                    }
                } else {
                    self.unexpected()
                }
            },
            Mode::RefHash(w) => {
                if c == 'x' {
                    self.digit(Mode::RefHexStart(w), 0)
                } else {
                    match dec_value(c) {
                        Some(d) => self.digit(Mode::RefDec(w), d as u64),
                        None => self.unexpected(),
                    }
                }
            },
            Mode::RefDec(w) => {
                if c == ';' {
                    self.charref(w)
                } else {
                    match dec_value(c) {
                        Some(d) => {
                            let n: u64 = (self.num as u64) * 10 + (d as u64);
                            self.digit(Mode::RefDec(w), n)
                        },
                        None => self.unexpected(),
                    }
                }
            },
            Mode::RefHexStart(w) => {
                match hex_value(c) {
                    Some(d) => self.digit(Mode::RefHex(w), d as u64),
                    None => self.unexpected(),
                }
            },
            Mode::RefHex(w) => {
                if c == ';' {
                    self.charref(w)
                } else {
                    match hex_value(c) {
                        Some(d) => {
                            let n: u64 = (self.num as u64) * 16 + (d as u64);
                            self.digit(Mode::RefHex(w), n)
                        },
                        None => self.unexpected(),
                    }
                }
            },
            _ => self.unexpected(),
        }
    }

    fn step_char(&mut self, c: char) -> (r: Result<Option<Token>, Fatal>)
        requires
            old(self)@.error is None,
        ensures
            stepped(r, final(self)@, lex_char(old(self)@, c)),
    {
        reveal(lex_char);
        match self.mode {
            Mode::Start | Mode::Content => self.step_content(c),
            Mode::StartOpen | Mode::Open | Mode::CloseOpen | Mode::DeclTarget(_) => self.step_markup(
                c,
            ),
            Mode::ElementName(_) | Mode::Blank(_) | Mode::AttrName(_) | Mode::AttrEq(_)
            | Mode::AttrQuote(_) | Mode::AttrDone(_) | Mode::Slash | Mode::Question => self.step_tag(
                c,
            ),
            Mode::AttrValue(tag, double) => self.step_value(tag, double, c),
            Mode::Ref(_) | Mode::RefName(_) | Mode::RefHash(_) | Mode::RefDec(_)
            | Mode::RefHexStart(_) | Mode::RefHex(_) => self.step_reference(c),
            Mode::End => self.unexpected(),
        }
    }

    fn step_byte(&mut self, b: u8) -> (r: Result<Option<Token>, Fatal>)
        requires
            old(self)@.error is None,
        ensures
            stepped(r, final(self)@, lex_byte(old(self)@, b)),
    {
        reveal(lex_byte);
        match self.dec.push(b) {
            Decoded::Pending => Ok(None),
            Decoded::Invalid => self.fail(Fatal::InvalidUtf8Byte(b)),
            Decoded::Scalar(c) => self.step_char(c),
        }
    }

    fn step_end(&mut self) -> (r: Result<Option<Token>, Fatal>)
        requires
            old(self)@.error is None,
        ensures
            stepped(r, final(self)@, lex_end(old(self)@)),
    {
        reveal(lex_end);
        match self.mode {
            Mode::End => Ok(None),
            Mode::Start | Mode::Content => {
                if !self.dec.is_idle() {
                    self.fail(Fatal::NotWellFormed(WFError::UnexpectedEof))
                } else if self.buf.len() > 0 {
                    self.emit_buf(Mode::End, Kind::Text)
                } else {
                    self.stay(Mode::End)
                }
            },
            _ => self.fail(Fatal::NotWellFormed(WFError::UnexpectedEof)),
        }
    }

    /// Reads the next token from the bytes that `src` holds.
    ///
    /// Returns the token, or `None` at the end of the input. Where the bytes
    /// run out first, the error returned is one that
    /// [`Error::would_block`] holds of; the bytes taken so far are kept in the lexer's
    /// state, and the read goes on from there when it is tried again. Any
    /// other error is fatal, and every later read returns it again and takes
    /// no byte.
    pub fn lex<'x>(&mut self, src: &mut BufferQueue<'x>) -> (r: Result<Option<Token>, Error>)
        requires
            old(src).wf(),
        ensures
            final(src).wf(),
            final(src).eof_marked() == old(src).eof_marked(),
            ({
                let n = lex_next(old(self)@, old(src).unread(), old(src).eof_marked());
                &&& final(self)@ == n.state
                &&& n.consumed <= old(src).unread().len()
                &&& final(src).unread() == old(src).unread().skip(n.consumed as int)
                &&& replied(r, n.reply)
            }),
    {
        let ghost whole = lex_next(old(self)@, old(src).unread(), old(src).eof_marked());
        let ghost mut taken: nat = 0;
        assert(src.unread() =~= old(src).unread().skip(0));
        loop
            invariant
                src.wf(),
                src.eof_marked() == old(src).eof_marked(),
                whole == lex_next(old(self)@, old(src).unread(), old(src).eof_marked()),
                taken <= old(src).unread().len(),
                src.unread() == old(src).unread().skip(taken as int),
                ({
                    let n = lex_next(self@, src.unread(), src.eof_marked());
                    &&& whole.state == n.state
                    &&& whole.reply == n.reply
                    &&& whole.consumed == taken + n.consumed
                }),
            decreases src.unread().len(),
        {
            match self.err {
                Some(f) => {
                    return Err(Error::Fatal(f));
                },
                None => {},
            }
            if self.owed {
                self.owed = false;
                return Ok(Some(Token::ElementHFEnd));
            }
            let ghost before = src.unread();
            match src.read_byte() {
                Fetch::Pending => {
                    return Err(Error::new_would_block());
                },
                Fetch::End => {
                    return match self.step_end() {
                        Ok(t) => Ok(t),
                        Err(f) => Err(Error::Fatal(f)),
                    };
                },
                Fetch::Byte(b) => {
                    proof {
                        taken = taken + 1;
                        assert(src.unread() =~= old(src).unread().skip(taken as int));
                    }
                    match self.step_byte(b) {
                        Ok(Some(t)) => {
                            return Ok(Some(t));
                        },
                        Ok(None) => {},
                        Err(f) => {
                            return Err(Error::Fatal(f));
                        },
                    }
                },
            }
        }
    }
}

} // verus!
