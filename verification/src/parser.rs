//! The parser: tokens in, events out.
//!
//! The parser is an automaton over tokens. Its state ([`ParState`]) holds
//! the elements that are open, the namespace declarations in scope and what
//! it has of the tag under way. [`parse_token`] is the automaton's step, and
//! [`parse_next`] says what one call of [`Parser::parse`] does.
use std::collections::VecDeque;
use vstd::prelude::*;
use crate::bufq::BufferQueue;
use crate::chars::{chars_are, is_space, spec_is_space, string_from_chars};
use crate::context::Context;
use crate::error::{Error, Fatal, Restriction, WFError};
use crate::laws::{in_order, lemma_in_order_is_kept};
use crate::lexer::{
    lemma_lex_progress,
    lex_next,
    lex_weight,
    LexState,
    Lexer,
    Reply,
    Token,
    TokenView,
};
use crate::namespace::{
    attributes_of,
    attributes_view,
    copy_qname,
    declare,
    extends,
    lemma_scopes_stable,
    pairs_view,
    qname_of,
    resolve_attrs,
    resolve_name,
    scope_of,
    scopes_view,
    scopes_wf,
    Binding,
    QName,
    QNameView,
    Scope,
};

verus! {

/// The versions of XML that a declaration may name.
#[derive(Clone, Copy, Debug, PartialEq, Eq, Structural)]
pub enum XMLVersion {
    /// XML 1.0
    V1_0,
}

/// What the parser hands out.
#[derive(Clone, Debug, PartialEq, Eq)]
pub enum Event {
    /// The XML declaration.
    XMLDeclaration(XMLVersion),
    /// A start tag: the name of the element and its attributes in the order
    /// of the document, without the declarations of namespaces.
    StartElement(QName, Vec<(QName, String)>),
    /// The end of the element of this name.
    EndElement(QName),
    /// Text inside an element.
    Text(String),
}

/// An [`Event`] as a mathematical value.
pub enum EventView {
    XMLDeclaration(XMLVersion),
    StartElement(QNameView, Seq<(QNameView, Seq<char>)>),
    EndElement(QNameView),
    Text(Seq<char>),
}

impl View for Event {
    type V = EventView;

    open spec fn view(&self) -> EventView {
        match *self {
            Event::XMLDeclaration(v) => EventView::XMLDeclaration(v),
            Event::StartElement(q, a) => EventView::StartElement(q@, attributes_view(a@)),
            Event::EndElement(q) => EventView::EndElement(q@),
            Event::Text(s) => EventView::Text(s@),
        }
    }
}

/// Where the parser stands in the XML declaration.
#[derive(Clone, Copy, Debug, PartialEq, Eq, Structural)]
pub enum DeclStep {
    /// `version` is due.
    VersionName,
    /// The value of `version` is due.
    VersionValue,
    /// `encoding`, `standalone` or the end is due.
    AfterVersion,
    /// The value of `encoding` is due.
    EncodingValue,
    /// `standalone` or the end is due.
    AfterEncoding,
    /// The value of `standalone` is due.
    StandaloneValue,
    /// The end is due.
    AfterStandalone,
}

/// Where the parser stands in the document.
#[derive(Clone, Copy, Debug, PartialEq, Eq, Structural)]
pub enum Phase {
    /// Before the first token.
    Initial,
    /// In the XML declaration.
    Decl(DeclStep),
    /// Before the root element.
    Prolog,
    /// In a start tag, where an attribute or the end of the tag may follow.
    Head,
    /// In a start tag, after the name of an attribute.
    Attr,
    /// Inside an element, between tags.
    Content,
    /// In an end tag, after its name.
    Foot,
    /// After the root element.
    Epilog,
}

/// An element that is open.
pub struct Open {
    /// Its name as the start tag has it.
    pub name: Seq<char>,
    /// Its name resolved.
    pub qname: QNameView,
    /// The number of declarations in scope around it.
    pub base: nat,
}

/// The state of the parser.
pub struct ParState {
    pub phase: Phase,
    /// The open elements, the root first.
    pub stack: Seq<Open>,
    /// The declarations in scope, the innermost last.
    pub bindings: Seq<Binding>,
    /// The name of the start tag under way.
    pub name: Seq<char>,
    /// The attributes read so far of the start tag under way.
    pub attrs: Seq<(Seq<char>, Seq<char>)>,
    /// The name of the attribute whose value is due.
    pub attr: Seq<char>,
    /// The events made and not handed out yet.
    pub queue: Seq<EventView>,
    /// The error that stopped the parser, if one did.
    pub error: Option<Fatal>,
}

/// The parser before the first token.
pub open spec fn par_start() -> ParState {
    ParState {
        phase: Phase::Initial,
        stack: Seq::empty(),
        bindings: Seq::empty(),
        name: Seq::empty(),
        attrs: Seq::empty(),
        attr: Seq::empty(),
        queue: Seq::empty(),
        error: None,
    }
}

pub open spec fn par_fail(p: ParState, f: Fatal) -> ParState {
    ParState { error: Some(f), ..p }
}

pub open spec fn par_to(p: ParState, phase: Phase) -> ParState {
    ParState { phase, ..p }
}

pub open spec fn unexpected_token(p: ParState) -> ParState {
    par_fail(p, Fatal::NotWellFormed(WFError::UnexpectedToken))
}

pub open spec fn bad_declaration(p: ParState) -> ParState {
    par_fail(p, Fatal::NotWellFormed(WFError::InvalidDeclaration))
}

/// Text of white space alone.
pub open spec fn is_blank(t: Seq<char>) -> bool {
    forall|i: int| 0 <= i < t.len() ==> spec_is_space(#[trigger] t[i])
}

/// `utf-8`, in capitals or not.
pub open spec fn is_utf8_label(v: Seq<char>) -> bool {
    v.len() == 5 && (v[0] == 'u' || v[0] == 'U') && (v[1] == 't' || v[1] == 'T') && (v[2] == 'f'
        || v[2] == 'F') && v[3] == '-' && v[4] == '8'
}

/// The state after the end of the XML declaration.
pub open spec fn declared(p: ParState) -> ParState {
    ParState {
        phase: Phase::Prolog,
        queue: p.queue.push(EventView::XMLDeclaration(XMLVersion::V1_0)),
        ..p
    }
}

/// The step in the XML declaration: `version="1.0"`, then `encoding` with
/// UTF-8 if it is there, then `standalone="yes"` if it is there.
pub open spec fn parse_decl(p: ParState, step: DeclStep, t: TokenView) -> ParState {
    match step {
        DeclStep::VersionName => match t {
            TokenView::Name(n) => if n == "version"@ {
                par_to(p, Phase::Decl(DeclStep::VersionValue))
            } else {
                bad_declaration(p)
            },
            _ => bad_declaration(p),
        },
        DeclStep::VersionValue => match t {
            TokenView::AttributeValue(v) => if v == "1.0"@ {
                par_to(p, Phase::Decl(DeclStep::AfterVersion))
            } else {
                par_fail(p, Fatal::RestrictedXml(Restriction::Version))
            },
            _ => bad_declaration(p),
        },
        DeclStep::AfterVersion => match t {
            TokenView::Name(n) => if n == "encoding"@ {
                par_to(p, Phase::Decl(DeclStep::EncodingValue))
            } else if n == "standalone"@ {
                par_to(p, Phase::Decl(DeclStep::StandaloneValue))
            } else {
                bad_declaration(p)
            },
            TokenView::XmlDeclEnd => declared(p),
            _ => bad_declaration(p),
        },
        DeclStep::EncodingValue => match t {
            TokenView::AttributeValue(v) => if is_utf8_label(v) {
                par_to(p, Phase::Decl(DeclStep::AfterEncoding))
            } else {
                par_fail(p, Fatal::RestrictedXml(Restriction::Encoding))
            },
            _ => bad_declaration(p),
        },
        DeclStep::AfterEncoding => match t {
            TokenView::Name(n) => if n == "standalone"@ {
                par_to(p, Phase::Decl(DeclStep::StandaloneValue))
            } else {
                bad_declaration(p)
            },
            TokenView::XmlDeclEnd => declared(p),
            _ => bad_declaration(p),
        },
        DeclStep::StandaloneValue => match t {
            TokenView::AttributeValue(v) => if v == "yes"@ {
                par_to(p, Phase::Decl(DeclStep::AfterStandalone))
            } else {
                par_fail(p, Fatal::RestrictedXml(Restriction::Standalone))
            },
            _ => bad_declaration(p),
        },
        DeclStep::AfterStandalone => match t {
            TokenView::XmlDeclEnd => declared(p),
            _ => bad_declaration(p),
        },
    }
}

/// The state after the name of a start tag.
pub open spec fn begun(p: ParState, name: Seq<char>) -> ParState {
    ParState { phase: Phase::Head, name, attrs: Seq::empty(), ..p }
}

/// The step outside the root element. White space may stand there, and
/// before the root element its start tag.
pub open spec fn parse_outside(p: ParState, t: TokenView) -> ParState {
    match t {
        TokenView::Text(s) => if is_blank(s) {
            par_to(
                p,
                if p.phase == Phase::Epilog {
                    Phase::Epilog
                } else {
                    Phase::Prolog
                },
            )
        } else {
            par_fail(p, Fatal::NotWellFormed(WFError::TextOutsideRoot))
        },
        TokenView::ElementHeadStart(n) => if p.phase == Phase::Epilog {
            par_fail(p, Fatal::NotWellFormed(WFError::MultipleRoots))
        } else {
            begun(p, n)
        },
        _ => unexpected_token(p),
    }
}

/// The state after the end of a start tag; `empty` where the tag ends the
/// element too.
///
/// The declarations among the attributes come into scope first. Then the
/// name of the element and the names of the other attributes are resolved.
/// Only when all of that went well is there an event. An element that goes
/// on is put on the stack with the number of declarations that were in scope
/// around it.
pub open spec fn opened(p: ParState, empty: bool) -> ParState {
    match scope_of(p.bindings, p.attrs) {
        Err(f) => par_fail(p, f),
        Ok(scope) => match qname_of(scope, p.name, false) {
            Err(f) => par_fail(p, f),
            Ok(q) => match attributes_of(scope, p.attrs, Seq::empty()) {
                Err(f) => par_fail(p, f),
                Ok(attrs) => {
                    let start = EventView::StartElement(q, attrs);
                    if empty {
                        ParState {
                            phase: if p.stack.len() == 0 {
                                Phase::Epilog
                            } else {
                                Phase::Content
                            },
                            name: Seq::empty(),
                            attrs: Seq::empty(),
                            queue: p.queue.push(start).push(EventView::EndElement(q)),
                            ..p
                        }
                    } else {
                        ParState {
                            phase: Phase::Content,
                            stack: p.stack.push(
                                Open { name: p.name, qname: q, base: p.bindings.len() },
                            ),
                            bindings: scope,
                            name: Seq::empty(),
                            attrs: Seq::empty(),
                            queue: p.queue.push(start),
                            ..p
                        }
                    }
                },
            },
        },
    }
}

/// The state after the end of an end tag: the innermost element is closed
/// and its declarations are out of scope.
pub open spec fn closed(p: ParState) -> ParState {
    if p.stack.len() == 0 {
        unexpected_token(p)
    } else {
        let top = p.stack.last();
        ParState {
            phase: if p.stack.len() == 1 {
                Phase::Epilog
            } else {
                Phase::Content
            },
            stack: p.stack.drop_last(),
            bindings: if top.base <= p.bindings.len() {
                p.bindings.take(top.base as int)
            } else {
                p.bindings
            },
            queue: p.queue.push(EventView::EndElement(top.qname)),
            ..p
        }
    }
}

/// The step in a start tag, where an attribute or the end may follow.
pub open spec fn parse_head(p: ParState, t: TokenView) -> ParState {
    match t {
        TokenView::Name(n) => ParState { phase: Phase::Attr, attr: n, ..p },
        TokenView::ElementHFEnd => opened(p, false),
        TokenView::ElementHeadClose => opened(p, true),
        _ => unexpected_token(p),
    }
}

/// Whether `attrs` holds an attribute of the name `name`.
pub open spec fn has_attr(attrs: Seq<(Seq<char>, Seq<char>)>, name: Seq<char>) -> bool {
    exists|i: int| 0 <= i < attrs.len() && (#[trigger] attrs[i]).0 == name
}

/// The step after the name of an attribute.
pub open spec fn parse_attr(p: ParState, t: TokenView) -> ParState {
    match t {
        TokenView::AttributeValue(v) => if has_attr(p.attrs, p.attr) {
            par_fail(p, Fatal::NotWellFormed(WFError::DuplicateAttribute))
        } else {
            ParState {
                phase: Phase::Head,
                attrs: p.attrs.push((p.attr, v)),
                attr: Seq::empty(),
                ..p
            }
        },
        _ => unexpected_token(p),
    }
}

/// The step inside an element, between tags.
pub open spec fn parse_content(p: ParState, t: TokenView) -> ParState {
    match t {
        TokenView::Text(s) => ParState { queue: p.queue.push(EventView::Text(s)), ..p },
        TokenView::ElementHeadStart(n) => begun(p, n),
        TokenView::ElementFootStart(n) => if p.stack.len() > 0 && p.stack.last().name == n {
            par_to(p, Phase::Foot)
        } else {
            par_fail(p, Fatal::NotWellFormed(WFError::ElementMismatch))
        },
        _ => unexpected_token(p),
    }
}

/// The step in an end tag, after its name.
pub open spec fn parse_foot(p: ParState, t: TokenView) -> ParState {
    match t {
        TokenView::ElementHFEnd => closed(p),
        _ => unexpected_token(p),
    }
}

/// The step of the automaton on one token.
#[verifier::opaque]
pub open spec fn parse_token(p: ParState, t: TokenView) -> ParState {
    match p.phase {
        Phase::Initial => match t {
            TokenView::XmlDeclStart => par_to(p, Phase::Decl(DeclStep::VersionName)),
            _ => parse_outside(p, t),
        },
        Phase::Decl(step) => parse_decl(p, step, t),
        Phase::Prolog | Phase::Epilog => parse_outside(p, t),
        Phase::Head => parse_head(p, t),
        Phase::Attr => parse_attr(p, t),
        Phase::Content => parse_content(p, t),
        Phase::Foot => parse_foot(p, t),
    }
}

/// The step at the end of the input, which is in order after the root
/// element and nowhere else.
pub open spec fn parse_end(p: ParState) -> ParState {
    if p.phase == Phase::Epilog {
        p
    } else {
        par_fail(p, Fatal::NotWellFormed(WFError::UnexpectedEof))
    }
}

/// The result of a read: the states after it, the number of bytes it took
/// from the input and what it hands out.
pub struct ParseNext {
    pub parser: ParState,
    pub lexer: LexState,
    pub consumed: nat,
    pub reply: Reply<EventView>,
}

/// One read of the parser in state `p`, with the lexer in state `l`, from
/// the bytes `bytes`, after which the input has ended if `eof`.
///
/// An event that is waiting goes out first. A parser that failed fails
/// again. Otherwise the parser takes tokens from the lexer until one of them
/// makes an event or is at fault, or until the lexer has none.
///
/// `lazy` is the discipline of a source that is asked before every
/// token and answers only when it has a byte or has ended: the read then stops
/// where the bytes have run out, also where the lexer owes a token. A lexer
/// that failed needs no byte to fail again.
pub open spec fn parse_next(p: ParState, l: LexState, bytes: Seq<u8>, eof: bool, lazy: bool) -> ParseNext
    decreases bytes.len(), lex_weight(l),
{
    if p.queue.len() > 0 {
        ParseNext {
            parser: ParState { queue: p.queue.skip(1), ..p },
            lexer: l,
            consumed: 0,
            reply: Reply::Item(p.queue[0]),
        }
    } else if p.error is Some {
        ParseNext { parser: p, lexer: l, consumed: 0, reply: Reply::Failed(p.error->0) }
    } else if lazy && bytes.len() == 0 && !eof && l.error is None {
        ParseNext { parser: p, lexer: l, consumed: 0, reply: Reply::WouldBlock }
    } else {
        let n = lex_next(l, bytes, eof);
        match n.reply {
            Reply::Item(t) => {
                proof {
                    lemma_lex_progress(l, bytes, eof);
                }
                let r = parse_next(
                    parse_token(p, t),
                    n.state,
                    bytes.skip(n.consumed as int),
                    eof,
                    lazy,
                );
                ParseNext {
                    parser: r.parser,
                    lexer: r.lexer,
                    consumed: n.consumed + r.consumed,
                    reply: r.reply,
                }
            },
            Reply::End => {
                let after = parse_end(p);
                ParseNext {
                    parser: after,
                    lexer: n.state,
                    consumed: n.consumed,
                    reply: match after.error {
                        Some(f) => Reply::Failed(f),
                        None => Reply::End,
                    },
                }
            },
            Reply::WouldBlock => ParseNext {
                parser: p,
                lexer: n.state,
                consumed: n.consumed,
                reply: Reply::WouldBlock,
            },
            Reply::Failed(f) => ParseNext {
                parser: p,
                lexer: n.state,
                consumed: n.consumed,
                reply: Reply::Failed(f),
            },
        }
    }
}

/// A bound on the events that a read can still hand out from `len` bytes
/// with the lexer in state `l` and `waiting` events made already.
pub open spec fn parse_fuel(len: nat, l: LexState, waiting: nat) -> nat {
    9 * len + 3 * lex_weight(l) + waiting
}

/// A token makes two events at most.
pub proof fn lemma_token_events(p: ParState, t: TokenView)
    ensures
        parse_token(p, t).queue.len() <= p.queue.len() + 2,
{
    reveal(parse_token);
}

/// A read takes no more bytes than there are, and one that hands out an
/// event leaves less to hand out.
pub proof fn lemma_parse_progress(p: ParState, l: LexState, bytes: Seq<u8>, eof: bool, lazy: bool)
    ensures
        parse_next(p, l, bytes, eof, lazy).consumed <= bytes.len(),
        parse_next(p, l, bytes, eof, lazy).reply is Item ==> ({
            let n = parse_next(p, l, bytes, eof, lazy);
            parse_fuel((bytes.len() - n.consumed) as nat, n.lexer, n.parser.queue.len())
                < parse_fuel(bytes.len(), l, p.queue.len())
        }),
    decreases bytes.len(), lex_weight(l),
{
    if p.queue.len() == 0 && p.error is None && !(lazy && bytes.len() == 0 && !eof && l.error
        is None) {
        let n = lex_next(l, bytes, eof);
        lemma_lex_progress(l, bytes, eof);
        match n.reply {
            Reply::Item(t) => {
                lemma_token_events(p, t);
                lemma_parse_progress(
                    parse_token(p, t),
                    n.state,
                    bytes.skip(n.consumed as int),
                    eof,
                    lazy,
                );
            },
            _ => {},
        }
    }
}

/// What a read returned is what the reply of the model says.
pub open spec fn answered(r: Result<Option<Event>, Error>, reply: Reply<EventView>) -> bool {
    match reply {
        Reply::Item(e) => r matches Ok(Some(ev)) && ev@ == e,
        Reply::End => r matches Ok(None),
        Reply::WouldBlock => r matches Err(e) && e.would_block(),
        Reply::Failed(f) => r matches Err(Error::Fatal(g)) && g == f,
    }
}

/// An element that is open, as the parser holds it.
pub struct OpenElement {
    name: Vec<char>,
    qname: QName,
    base: usize,
}

pub closed spec fn stack_view(s: Seq<OpenElement>) -> Seq<Open> {
    Seq::new(s.len(), |i: int| Open { name: s[i].name@, qname: s[i].qname@, base: s[i].base as nat })
}

pub open spec fn events_view(q: Seq<Event>) -> Seq<EventView> {
    Seq::new(q.len(), |i: int| q[i]@)
}

fn check_blank(t: &Vec<char>) -> (r: bool)
    ensures
        r == is_blank(t@),
{
    let mut i: usize = 0;
    while i < t.len()
        invariant
            i <= t.len(),
            forall|j: int| 0 <= j < i ==> spec_is_space(#[trigger] t@[j]),
        decreases t.len() - i,
    {
        if !is_space(t[i]) {
            return false;
        }
        i += 1;
    }
    true
}

fn check_utf8_label(v: &Vec<char>) -> (r: bool)
    ensures
        r == is_utf8_label(v@),
{
    v.len() == 5 && (v[0] == 'u' || v[0] == 'U') && (v[1] == 't' || v[1] == 'T') && (v[2] == 'f'
        || v[2] == 'F') && v[3] == '-' && v[4] == '8'
}

fn check_has_attr(attrs: &Vec<(Vec<char>, Vec<char>)>, name: &Vec<char>) -> (r: bool)
    ensures
        r == has_attr(pairs_view(attrs@), name@),
{
    let ghost view = pairs_view(attrs@);
    let mut i: usize = 0;
    while i < attrs.len()
        invariant
            i <= attrs.len(),
            view == pairs_view(attrs@),
            forall|j: int| 0 <= j < i ==> (#[trigger] view[j]).0 != name@,
        decreases attrs.len() - i,
    {
        if crate::chars::same_chars(&attrs[i].0, name) {
            assert(view[i as int].0 == name@);
            return true;
        }
        i += 1;
    }
    false
}

/// The parser.
pub struct Parser {
    ctx: Context,
    phase: Phase,
    stack: Vec<OpenElement>,
    bindings: Vec<Scope>,
    name: Vec<char>,
    attrs: Vec<(Vec<char>, Vec<char>)>,
    attr: Vec<char>,
    queue: VecDeque<Event>,
    err: Option<Fatal>,
}

impl View for Parser {
    type V = ParState;

    closed spec fn view(&self) -> ParState {
        ParState {
            phase: self.phase,
            stack: stack_view(self.stack@),
            bindings: scopes_view(self.bindings@, self.ctx.entries()),
            name: self.name@,
            attrs: pairs_view(self.attrs@),
            attr: self.attr@,
            queue: events_view(self.queue@),
            error: self.err,
        }
    }
}

impl Parser {
    /// Every declaration in scope has its namespace name in the table.
    closed spec fn tabled(&self) -> bool {
        scopes_wf(self.bindings@, self.ctx.entries())
    }

    /// Every declaration in scope has its namespace name in the table, and
    /// the open elements and their declarations are in order.
    pub closed spec fn wf(&self) -> bool {
        self.tabled() && in_order(self@)
    }

    /// A parser in good order is in order: the open elements hold their
    /// declarations in the order in which they were opened, and the phase
    /// and the stack go together. Every parser is so from its making on,
    /// after every token of every input.
    pub proof fn lemma_in_order(&self)
        requires
            self.wf(),
        ensures
            in_order(self@),
    {
    }

    /// The strings that the parser's table holds.
    pub closed spec fn interned(&self) -> Seq<Seq<char>> {
        self.ctx.entries()
    }

    /// A parser before the first token, with an empty table.
    pub fn new() -> (p: Parser)
        ensures
            p.wf(),
            p@ == par_start(),
            p.interned() == Seq::<Seq<char>>::empty(),
    {
        Parser::with_context(Context::new())
    }

    /// A parser before the first token that works with the table `ctx`.
    pub fn with_context(ctx: Context) -> (p: Parser)
        ensures
            p.wf(),
            p@ == par_start(),
            p.interned() == ctx.entries(),
    {
        let p = Parser {
            ctx,
            phase: Phase::Initial,
            stack: Vec::new(),
            bindings: Vec::new(),
            name: Vec::new(),
            attrs: Vec::new(),
            attr: Vec::new(),
            queue: VecDeque::new(),
            err: None,
        };
        assert(p@.stack =~= Seq::<Open>::empty());
        assert(p@.bindings =~= Seq::<Binding>::empty());
        assert(p@.attrs =~= Seq::<(Seq<char>, Seq<char>)>::empty());
        assert(p@.queue =~= Seq::<EventView>::empty());
        p
    }

    /// The table, for the next parser.
    pub fn into_context(self) -> (ctx: Context)
        ensures
            ctx.entries() == self.interned(),
    {
        self.ctx
    }

    /// Gives back the memory of the buffers that hold nothing, and empties
    /// the table where no declaration is in scope. The state of the parser
    /// is the same after it.
    pub fn release_temporaries(&mut self)
        requires
            old(self).wf(),
        ensures
            final(self).wf(),
            final(self)@ == old(self)@,
            final(self).interned() == (if old(self)@.bindings.len() == 0 {
                Seq::<Seq<char>>::empty()
            } else {
                old(self).interned()
            }),
    {
        if self.name.len() == 0 {
            self.name = Vec::new();
            assert(self.name@ =~= old(self).name@);
        }
        if self.attr.len() == 0 {
            self.attr = Vec::new();
            assert(self.attr@ =~= old(self).attr@);
        }
        if self.attrs.len() == 0 {
            self.attrs = Vec::new();
            assert(pairs_view(self.attrs@) =~= pairs_view(old(self).attrs@));
        }
        if self.bindings.len() == 0 {
            self.ctx.clear();
            assert(scopes_view(self.bindings@, self.ctx.entries()) =~= scopes_view(
                old(self).bindings@,
                old(self).ctx.entries(),
            ));
        }
    }

    fn fail(&mut self, f: Fatal)
        requires
            old(self).tabled(),
        ensures
            final(self).tabled(),
            extends(old(self).interned(), final(self).interned()),
            final(self)@ == par_fail(old(self)@, f),
    {
        self.err = Some(f);
    }

    fn to(&mut self, phase: Phase)
        requires
            old(self).tabled(),
        ensures
            final(self).tabled(),
            extends(old(self).interned(), final(self).interned()),
            final(self)@ == par_to(old(self)@, phase),
    {
        self.phase = phase;
    }

    fn push_event(&mut self, ev: Event)
        requires
            old(self).tabled(),
        ensures
            final(self).tabled(),
            extends(old(self).interned(), final(self).interned()),
            final(self)@ == (ParState { queue: old(self)@.queue.push(ev@), ..old(self)@ }),
    {
        self.queue.push_back(ev);
        assert(events_view(self.queue@) =~= events_view(old(self).queue@).push(ev@));
    }

    fn accept_decl(&mut self, step: DeclStep, t: Token)
        requires
            old(self).tabled(),
        ensures
            final(self).tabled(),
            extends(old(self).interned(), final(self).interned()),
            final(self)@ == parse_decl(old(self)@, step, t@),
    {
        let bad = Fatal::NotWellFormed(WFError::InvalidDeclaration);
        match step {
            DeclStep::VersionName => match t {
                Token::Name(n) => if chars_are(&n, "version") {
                    self.to(Phase::Decl(DeclStep::VersionValue))
                } else {
                    self.fail(bad)
                },
                _ => self.fail(bad),
            },
            DeclStep::VersionValue => match t {
                Token::AttributeValue(v) => if chars_are(&v, "1.0") {
                    self.to(Phase::Decl(DeclStep::AfterVersion))
                } else {
                    self.fail(Fatal::RestrictedXml(Restriction::Version))
                },
                _ => self.fail(bad),
            },
            DeclStep::AfterVersion => match t {
                Token::Name(n) => if chars_are(&n, "encoding") {
                    self.to(Phase::Decl(DeclStep::EncodingValue))
                } else if chars_are(&n, "standalone") {
                    self.to(Phase::Decl(DeclStep::StandaloneValue))
                } else {
                    self.fail(bad)
                },
                Token::XmlDeclEnd => self.declared(),
                _ => self.fail(bad),
            },
            DeclStep::EncodingValue => match t {
                Token::AttributeValue(v) => if check_utf8_label(&v) {
                    self.to(Phase::Decl(DeclStep::AfterEncoding))
                } else {
                    self.fail(Fatal::RestrictedXml(Restriction::Encoding))
                },
                _ => self.fail(bad),
            },
            DeclStep::AfterEncoding => match t {
                Token::Name(n) => if chars_are(&n, "standalone") {
                    self.to(Phase::Decl(DeclStep::StandaloneValue))
                } else {
                    self.fail(bad)
                },
                Token::XmlDeclEnd => self.declared(),
                _ => self.fail(bad),
            },
            DeclStep::StandaloneValue => match t {
                Token::AttributeValue(v) => if chars_are(&v, "yes") {
                    self.to(Phase::Decl(DeclStep::AfterStandalone))
                } else {
                    self.fail(Fatal::RestrictedXml(Restriction::Standalone))
                },
                _ => self.fail(bad),
            },
            DeclStep::AfterStandalone => match t {
                Token::XmlDeclEnd => self.declared(),
                _ => self.fail(bad),
            },
        }
    }

    fn declared(&mut self)
        requires
            old(self).tabled(),
        ensures
            final(self).tabled(),
            extends(old(self).interned(), final(self).interned()),
            final(self)@ == declared(old(self)@),
    {
        self.push_event(Event::XMLDeclaration(XMLVersion::V1_0));
        self.phase = Phase::Prolog;
    }

    fn begin(&mut self, name: Vec<char>)
        requires
            old(self).tabled(),
        ensures
            final(self).tabled(),
            extends(old(self).interned(), final(self).interned()),
            final(self)@ == begun(old(self)@, name@),
    {
        self.phase = Phase::Head;
        self.name = name;
        self.attrs.clear();
        assert(pairs_view(self.attrs@) =~= Seq::<(Seq<char>, Seq<char>)>::empty());
    }

    fn accept_outside(&mut self, t: Token)
        requires
            old(self).tabled(),
        ensures
            final(self).tabled(),
            extends(old(self).interned(), final(self).interned()),
            final(self)@ == parse_outside(old(self)@, t@),
    {
        match t {
            Token::Text(s) => {
                if check_blank(&s) {
                    match self.phase {
                        Phase::Epilog => {},
                        _ => {
                            self.phase = Phase::Prolog;
                        },
                    }
                } else {
                    self.fail(Fatal::NotWellFormed(WFError::TextOutsideRoot))
                }
            },
            Token::ElementHeadStart(n) => {
                match self.phase {
                    Phase::Epilog => self.fail(Fatal::NotWellFormed(WFError::MultipleRoots)),
                    _ => self.begin(n),
                }
            },
            _ => self.fail(Fatal::NotWellFormed(WFError::UnexpectedToken)),
        }
    }

    fn open_element(&mut self, empty: bool)
        requires
            old(self).tabled(),
        ensures
            final(self).tabled(),
            extends(old(self).interned(), final(self).interned()),
            final(self)@ == opened(old(self)@, empty),
    {
        let base = self.bindings.len();
        let ghost table = self.ctx.entries();
        let ghost held = self.bindings@;
        let ghost around = scopes_view(held, table);
        match declare(&mut self.bindings, &mut self.ctx, &self.attrs) {
            Ok(()) => {},
            Err(f) => {
                proof {
                    lemma_scopes_stable(held, table, self.ctx.entries());
                }
                self.err = Some(f);
                return ;
            },
        }
        let ghost scope = scopes_view(self.bindings@, self.ctx.entries());
        let q = match resolve_name(&self.bindings, &self.ctx, &self.name, false) {
            Ok(q) => q,
            Err(f) => {
                self.bindings.truncate(base);
                proof {
                    assert(self.bindings@ =~= held);
                    lemma_scopes_stable(held, table, self.ctx.entries());
                }
                self.err = Some(f);
                return ;
            },
        };
        let attrs = match resolve_attrs(&self.bindings, &self.ctx, &self.attrs) {
            Ok(a) => a,
            Err(f) => {
                self.bindings.truncate(base);
                proof {
                    assert(self.bindings@ =~= held);
                    lemma_scopes_stable(held, table, self.ctx.entries());
                }
                self.err = Some(f);
                return ;
            },
        };
        let ghost qv = q@;
        let ghost start = EventView::StartElement(qv, attributes_view(attrs@));
        let again = copy_qname(&q);
        self.attrs.clear();
        assert(pairs_view(self.attrs@) =~= Seq::<(Seq<char>, Seq<char>)>::empty());
        if empty {
            self.bindings.truncate(base);
            proof {
                assert(self.bindings@ =~= held);
                lemma_scopes_stable(held, table, self.ctx.entries());
            }
            self.name.clear();
            self.phase = if self.stack.len() == 0 {
                Phase::Epilog
            } else {
                Phase::Content
            };
            self.push_event(Event::StartElement(q, attrs));
            self.push_event(Event::EndElement(again));
        } else {
            let mut name: Vec<char> = Vec::new();
            std::mem::swap(&mut name, &mut self.name);
            let ghost below = stack_view(self.stack@);
            let ghost top = Open { name: name@, qname: qv, base: base as nat };
            self.stack.push(OpenElement { name, qname: again, base });
            assert(stack_view(self.stack@) =~= below.push(top));
            self.phase = Phase::Content;
            self.push_event(Event::StartElement(q, attrs));
        }
    }

    fn close_element(&mut self)
        requires
            old(self).tabled(),
        ensures
            final(self).tabled(),
            extends(old(self).interned(), final(self).interned()),
            final(self)@ == closed(old(self)@),
    {
        let ghost before = stack_view(self.stack@);
        let ghost around = scopes_view(self.bindings@, self.ctx.entries());
        match self.stack.pop() {
            None => {
                self.fail(Fatal::NotWellFormed(WFError::UnexpectedToken));
            },
            Some(top) => {
                assert(stack_view(self.stack@) =~= before.drop_last());
                assert(before.last() == (Open {
                    name: top.name@,
                    qname: top.qname@,
                    base: top.base as nat,
                }));
                self.bindings.truncate(top.base);
                assert(top.base <= around.len() ==> scopes_view(self.bindings@, self.ctx.entries())
                    =~= around.take(top.base as int));
                self.phase = if self.stack.len() == 0 {
                    Phase::Epilog
                } else {
                    Phase::Content
                };
                self.push_event(Event::EndElement(top.qname));
            },
        }
    }

    fn accept_head(&mut self, t: Token)
        requires
            old(self).tabled(),
        ensures
            final(self).tabled(),
            extends(old(self).interned(), final(self).interned()),
            final(self)@ == parse_head(old(self)@, t@),
    {
        match t {
            Token::Name(n) => {
                self.phase = Phase::Attr;
                self.attr = n;
            },
            Token::ElementHFEnd => self.open_element(false),
            Token::ElementHeadClose => self.open_element(true),
            _ => self.fail(Fatal::NotWellFormed(WFError::UnexpectedToken)),
        }
    }

    fn accept_attr(&mut self, t: Token)
        requires
            old(self).tabled(),
        ensures
            final(self).tabled(),
            extends(old(self).interned(), final(self).interned()),
            final(self)@ == parse_attr(old(self)@, t@),
    {
        match t {
            Token::AttributeValue(v) => {
                if check_has_attr(&self.attrs, &self.attr) {
                    self.fail(Fatal::NotWellFormed(WFError::DuplicateAttribute))
                } else {
                    let mut name: Vec<char> = Vec::new();
                    std::mem::swap(&mut name, &mut self.attr);
                    let ghost so_far = pairs_view(self.attrs@);
                    let ghost pair = (name@, v@);
                    self.attrs.push((name, v));
                    assert(pairs_view(self.attrs@) =~= so_far.push(pair));
                    self.phase = Phase::Head;
                }
            },
            _ => self.fail(Fatal::NotWellFormed(WFError::UnexpectedToken)),
        }
    }

    fn accept_content(&mut self, t: Token)
        requires
            old(self).tabled(),
        ensures
            final(self).tabled(),
            extends(old(self).interned(), final(self).interned()),
            final(self)@ == parse_content(old(self)@, t@),
    {
        match t {
            Token::Text(s) => self.push_event(Event::Text(string_from_chars(&s))),
            Token::ElementHeadStart(n) => self.begin(n),
            Token::ElementFootStart(n) => {
                let last = self.stack.len();
                if last > 0 && crate::chars::same_chars(&self.stack[last - 1].name, &n) {
                    self.to(Phase::Foot)
                } else {
                    self.fail(Fatal::NotWellFormed(WFError::ElementMismatch))
                }
            },
            _ => self.fail(Fatal::NotWellFormed(WFError::UnexpectedToken)),
        }
    }

    fn accept_foot(&mut self, t: Token)
        requires
            old(self).tabled(),
        ensures
            final(self).tabled(),
            extends(old(self).interned(), final(self).interned()),
            final(self)@ == parse_foot(old(self)@, t@),
    {
        match t {
            Token::ElementHFEnd => self.close_element(),
            _ => self.fail(Fatal::NotWellFormed(WFError::UnexpectedToken)),
        }
    }

    /// Takes the next token.
    pub fn accept(&mut self, t: Token)
        requires
            old(self).wf(),
        ensures
            final(self).wf(),
            extends(old(self).interned(), final(self).interned()),
            final(self)@ == parse_token(old(self)@, t@),
    {
        reveal(parse_token);
        proof {
            lemma_in_order_is_kept(self@, t@);
        }
        match self.phase {
            Phase::Initial => match t {
                Token::XmlDeclStart => self.to(Phase::Decl(DeclStep::VersionName)),
                other => self.accept_outside(other),
            },
            Phase::Decl(step) => self.accept_decl(step, t),
            Phase::Prolog | Phase::Epilog => self.accept_outside(t),
            Phase::Head => self.accept_head(t),
            Phase::Attr => self.accept_attr(t),
            Phase::Content => self.accept_content(t),
            Phase::Foot => self.accept_foot(t),
        }
    }

    /// Takes the end of the input.
    pub fn finish(&mut self)
        requires
            old(self).wf(),
        ensures
            final(self).wf(),
            extends(old(self).interned(), final(self).interned()),
            final(self)@ == parse_end(old(self)@),
    {
        match self.phase {
            Phase::Epilog => {},
            _ => self.fail(Fatal::NotWellFormed(WFError::UnexpectedEof)),
        }
    }

    /// Reads the next event, taking tokens from `lexer` and bytes from `src`
    /// as far as needed; see [`parse_next`].
    pub fn parse_with<'x>(
        &mut self,
        lexer: &mut Lexer,
        src: &mut BufferQueue<'x>,
        lazy: bool,
    ) -> (r: Result<Option<Event>, Error>)
        requires
            old(self).wf(),
            old(src).wf(),
        ensures
            final(self).wf(),
            extends(old(self).interned(), final(self).interned()),
            final(src).wf(),
            final(src).eof_marked() == old(src).eof_marked(),
            ({
                let n = parse_next(
                    old(self)@,
                    old(lexer)@,
                    old(src).unread(),
                    old(src).eof_marked(),
                    lazy,
                );
                &&& final(self)@ == n.parser
                &&& final(lexer)@ == n.lexer
                &&& n.consumed <= old(src).unread().len()
                &&& final(src).unread() == old(src).unread().skip(n.consumed as int)
                &&& answered(r, n.reply)
            }),
    {
        let ghost whole = parse_next(
            old(self)@,
            old(lexer)@,
            old(src).unread(),
            old(src).eof_marked(),
            lazy,
        );
        let ghost mut taken: nat = 0;
        assert(src.unread() =~= old(src).unread().skip(0));
        loop
            invariant
                self.wf(),
                extends(old(self).interned(), self.interned()),
                src.wf(),
                src.eof_marked() == old(src).eof_marked(),
                whole == parse_next(
                    old(self)@,
                    old(lexer)@,
                    old(src).unread(),
                    old(src).eof_marked(),
                    lazy,
                ),
                taken <= old(src).unread().len(),
                src.unread() == old(src).unread().skip(taken as int),
                ({
                    let n = parse_next(self@, lexer@, src.unread(), src.eof_marked(), lazy);
                    &&& whole.parser == n.parser
                    &&& whole.lexer == n.lexer
                    &&& whole.reply == n.reply
                    &&& whole.consumed == taken + n.consumed
                }),
            decreases src.unread().len(), lex_weight(lexer@),
        {
            let ghost waiting = events_view(self.queue@);
            match self.queue.pop_front() {
                Some(ev) => {
                    assert(events_view(self.queue@) =~= waiting.skip(1));
                    assert(waiting[0] == ev@);
                    return Ok(Some(ev));
                },
                None => {},
            }
            match self.err {
                Some(f) => {
                    return Err(Error::Fatal(f));
                },
                None => {},
            }
            if lazy && src.len() == 0 && !src.eof() && lexer.failed().is_none() {
                return Err(Error::new_would_block());
            }
            let ghost bytes = src.unread();
            let ghost n = lex_next(lexer@, bytes, src.eof_marked());
            proof {
                lemma_lex_progress(lexer@, bytes, src.eof_marked());
            }
            match lexer.lex(src) {
                Ok(Some(t)) => {
                    self.accept(t);
                    proof {
                        taken = taken + n.consumed;
                        assert(src.unread() =~= old(src).unread().skip(taken as int));
                    }
                },
                Ok(None) => {
                    self.finish();
                    return match self.err {
                        Some(f) => Err(Error::Fatal(f)),
                        None => Ok(None),
                    };
                },
                Err(e) => {
                    return Err(e);
                },
            }
        }
    }

    /// Reads the next event from what `src` holds now. Where that is not
    /// enough for an event, the error returned is one that
    /// [`Error::would_block`] holds of, and nothing is lost: the read goes
    /// on from there when it is tried again.
    pub fn parse<'x>(&mut self, lexer: &mut Lexer, src: &mut BufferQueue<'x>) -> (r: Result<
        Option<Event>,
        Error,
    >)
        requires
            old(self).wf(),
            old(src).wf(),
        ensures
            final(self).wf(),
            extends(old(self).interned(), final(self).interned()),
            final(src).wf(),
            final(src).eof_marked() == old(src).eof_marked(),
            ({
                let n = parse_next(
                    old(self)@,
                    old(lexer)@,
                    old(src).unread(),
                    old(src).eof_marked(),
                    false,
                );
                &&& final(self)@ == n.parser
                &&& final(lexer)@ == n.lexer
                &&& n.consumed <= old(src).unread().len()
                &&& final(src).unread() == old(src).unread().skip(n.consumed as int)
                &&& answered(r, n.reply)
            }),
    {
        self.parse_with(lexer, src, false)
    }
}

} // verus!
