//! What holds of every run of reads and feeds.
//!
//! A read is a function of the state ([`read_next`]), and so is a feed
//! ([`fed_with`]). The laws here say how the two go together: that a read
//! which cannot go on changes nothing, that a fatal error stays, and that
//! the events read do not depend on how the input was cut into chunks, nor
//! on how reads and feeds were interleaved.
use vstd::prelude::*;
use crate::error::Error;
use crate::lexer::{
    lemma_lex_progress,
    lex_byte,
    lex_end,
    lex_next,
    lex_weight,
    LexState,
    Mode,
    Reply,
};
use crate::namespace::{attributes_of, bound, qname_of, scope_of, scope_with, Binding};
use crate::parser::{
    lemma_parse_progress,
    opened,
    par_start,
    parse_next,
    parse_token,
    Event,
    EventView,
    ParState,
    ParseNext,
    Phase,
};
use crate::{
    fed,
    fed_eof,
    feed_fuel,
    lemma_read_progress,
    read_chain,
    read_next,
    read_until,
    EventRead,
    FeedParser,
    FeedState,
    ReadNext,
};

verus! {

/// A declaration hides every earlier one of its prefix and no other: with
/// it in scope the prefix means what it says, and every other prefix means
/// what it meant.
pub proof fn lemma_innermost_binding(
    bindings: Seq<Binding>,
    prefix: Seq<char>,
    uri: Seq<char>,
    other: Seq<char>,
)
    ensures
        bound(bindings.push(Binding { prefix, uri }), prefix) == Some(uri),
        other != prefix ==> bound(bindings.push(Binding { prefix, uri }), other) == bound(
            bindings,
            other,
        ),
{
    let inner = bindings.push(Binding { prefix, uri });
    assert(inner.last() == Binding { prefix, uri });
    assert(inner.drop_last() =~= bindings);
}

/// The declarations of an element come after those around it, which stay
/// as they are.
pub proof fn lemma_scope_extends(bindings: Seq<Binding>, attrs: Seq<(Seq<char>, Seq<char>)>)
    ensures
        scope_of(bindings, attrs) matches Ok(scope) ==> bindings.len() <= scope.len()
            && scope.take(bindings.len() as int) == bindings,
    decreases attrs.len(),
{
    if attrs.len() == 0 {
        assert(bindings.take(bindings.len() as int) =~= bindings);
    } else {
        match scope_with(bindings, attrs[0].0, attrs[0].1) {
            Ok(next) => {
                lemma_scope_extends(next, attrs.skip(1));
                assert(next.take(bindings.len() as int) =~= bindings);
                match scope_of(next, attrs.skip(1)) {
                    Ok(scope) => {
                        assert(scope.take(bindings.len() as int) =~= scope.take(
                            next.len() as int,
                        ).take(bindings.len() as int));
                    },
                    Err(_) => {},
                }
            },
            Err(_) => {},
        }
    }
}

/// The number of the declarations in scope directly inside the open element
/// `i`: those of the elements inside it do not count.
pub open spec fn scope_end(p: ParState, i: int) -> int {
    if i + 1 < p.stack.len() {
        p.stack[i + 1].base as int
    } else {
        p.bindings.len() as int
    }
}

/// The declarations in scope directly inside the open element `i`: what a
/// child of it is resolved with, before its own declarations.
pub open spec fn scope_inside(p: ParState, i: int) -> Seq<Binding> {
    p.bindings.take(scope_end(p, i))
}

/// The open elements hold their declarations in the order in which they
/// were opened.
pub open spec fn scoped(p: ParState) -> bool {
    &&& forall|i: int| 0 <= i < p.stack.len() ==> (#[trigger] p.stack[i]).base <= p.bindings.len()
    &&& forall|i: int, j: int|
        0 <= i <= j < p.stack.len() ==> (#[trigger] p.stack[i]).base <= (#[trigger] p.stack[j]).base
}

/// The names of a start tag are resolved with the declarations that are in
/// scope inside its element: those around it and its own, the innermost
/// last.
pub proof fn lemma_resolved_in_own_scope(p: ParState)
    requires
        opened(p, false).error is None,
        p.error is None,
    ensures
        ({
            let after = opened(p, false);
            let top = after.stack.len() - 1;
            let scope = scope_inside(after, top);
            &&& after.stack.len() == p.stack.len() + 1
            &&& scope_of(p.bindings, p.attrs) == Ok::<Seq<Binding>, crate::error::Fatal>(scope)
            &&& qname_of(scope, p.name, false) matches Ok(q) && after.stack[top].qname == q
            &&& attributes_of(scope, p.attrs, Seq::empty()) matches Ok(a) && after.queue.last()
                == EventView::StartElement(after.stack[top].qname, a)
        }),
{
    let after = opened(p, false);
    assert(after.bindings.take(after.bindings.len() as int) =~= after.bindings);
}

/// No token changes what is in scope inside an element that stays open:
/// the declarations of an element inside it come into scope when that
/// element opens and go out of scope when it closes, and what it had
/// redeclared means again, for the elements that follow, what it meant
/// before.
pub proof fn lemma_scope_is_kept(p: ParState, t: crate::lexer::TokenView, i: int)
    requires
        scoped(p),
        0 <= i < p.stack.len(),
        i < parse_token(p, t).stack.len(),
    ensures
        parse_token(p, t).stack[i] == p.stack[i],
        scope_inside(parse_token(p, t), i) == scope_inside(p, i),
{
    reveal(parse_token);
    let q = parse_token(p, t);
    lemma_scope_extends(p.bindings, p.attrs);
    if q.stack.len() == p.stack.len() + 1 {
        assert(q.stack =~= p.stack.push(q.stack.last()));
        assert(q.bindings.take(p.bindings.len() as int) == p.bindings);
        if i + 1 < p.stack.len() {
            assert(q.bindings.take(scope_end(p, i)) =~= q.bindings.take(
                p.bindings.len() as int,
            ).take(scope_end(p, i)));
        } else {
            assert(p.bindings.take(p.bindings.len() as int) =~= p.bindings);
        }
    } else if q.stack.len() + 1 == p.stack.len() {
        assert(q.stack =~= p.stack.drop_last());
        let top = p.stack.last();
        assert(top == p.stack[p.stack.len() - 1]);
        assert(q.bindings == p.bindings.take(top.base as int));
        if i + 1 < q.stack.len() {
            assert(p.stack[i + 1].base <= top.base);
            assert(q.bindings.take(scope_end(p, i)) =~= p.bindings.take(scope_end(p, i)));
        } else {
            assert(q.bindings.take(q.bindings.len() as int) =~= q.bindings);
        }
    } else {
        assert(q.stack == p.stack);
        assert(q.bindings == p.bindings);
    }
}

/// The order of the declarations is there at the start and no token breaks
/// it.
pub proof fn lemma_scoped_is_kept(p: ParState, t: crate::lexer::TokenView)
    requires
        scoped(p),
    ensures
        scoped(par_start()),
        scoped(parse_token(p, t)),
{
    reveal(parse_token);
    let q = parse_token(p, t);
    lemma_scope_extends(p.bindings, p.attrs);
    if q.stack.len() == p.stack.len() + 1 {
        assert(q.stack =~= p.stack.push(q.stack.last()));
    } else if q.stack.len() + 1 == p.stack.len() {
        assert(q.stack =~= p.stack.drop_last());
        assert(p.stack.last() == p.stack[p.stack.len() - 1]);
    } else {
        assert(q.stack == p.stack);
        assert(q.bindings == p.bindings);
    }
}

/// The parser's stack and its phase go together: outside the root element
/// nothing is open and nothing is declared, between the tags of an element
/// something is open, and the root element has no declarations around it.
pub open spec fn in_order(p: ParState) -> bool {
    &&& scoped(p)
    &&& p.stack.len() == 0 ==> p.bindings.len() == 0
    &&& p.stack.len() > 0 ==> p.stack[0].base == 0
    &&& (p.phase is Initial || p.phase is Decl || p.phase is Prolog || p.phase is Epilog)
        ==> p.stack.len() == 0
    &&& (p.phase is Content || p.phase is Foot) ==> p.stack.len() > 0
}

/// The parser is in order at the start and stays so with every token. So
/// the end of the input is accepted only where every element that was
/// opened is closed, and no end tag meets an empty stack.
pub proof fn lemma_in_order_is_kept(p: ParState, t: crate::lexer::TokenView)
    requires
        in_order(p),
    ensures
        in_order(par_start()),
        in_order(parse_token(p, t)),
{
    lemma_scoped_is_kept(p, t);
    reveal(parse_token);
    let q = parse_token(p, t);
    lemma_scope_extends(p.bindings, p.attrs);
    if q.stack.len() == p.stack.len() + 1 {
        assert(q.stack =~= p.stack.push(q.stack.last()));
    } else if q.stack.len() + 1 == p.stack.len() {
        assert(q.stack =~= p.stack.drop_last());
        assert(p.stack.last() == p.stack[p.stack.len() - 1]);
    } else {
        assert(q.stack == p.stack);
        assert(q.bindings == p.bindings);
    }
}

/// A read that fails leaves the error in the lexer.
pub proof fn lemma_lex_failed(s: LexState, bytes: Seq<u8>, eof: bool)
    ensures
        lex_next(s, bytes, eof).reply matches Reply::Failed(f) ==> lex_next(
            s,
            bytes,
            eof,
        ).state.error == Some(f),
    decreases bytes.len(),
{
    if s.error is None && !s.owed && bytes.len() > 0 {
        let st = lex_byte(s, bytes[0]);
        if !(st.state.error is Some || st.token is Some) {
            lemma_lex_failed(st.state, bytes.skip(1), eof);
        }
    }
}

/// A read blocks only where the input has not ended, and then it has taken
/// every byte and the lexer is in order and owes nothing.
pub proof fn lemma_lex_blocked(s: LexState, bytes: Seq<u8>, eof: bool)
    ensures
        lex_next(s, bytes, eof).reply is WouldBlock ==> {
            &&& !eof
            &&& lex_next(s, bytes, eof).consumed == bytes.len()
            &&& lex_next(s, bytes, eof).state.error is None
            &&& !lex_next(s, bytes, eof).state.owed
        },
    decreases bytes.len(),
{
    if s.error is None && !s.owed && bytes.len() > 0 {
        let st = lex_byte(s, bytes[0]);
        if !(st.state.error is Some || st.token is Some) {
            lemma_lex_blocked(st.state, bytes.skip(1), eof);
        }
    }
}

/// A read ends only where the input has ended, and then it has taken every
/// byte and the lexer has ended too.
pub proof fn lemma_lex_ended(s: LexState, bytes: Seq<u8>, eof: bool)
    ensures
        lex_next(s, bytes, eof).reply is End ==> {
            &&& eof
            &&& lex_next(s, bytes, eof).consumed == bytes.len()
            &&& lex_next(s, bytes, eof).state.error is None
            &&& !lex_next(s, bytes, eof).state.owed
            &&& lex_next(s, bytes, eof).state.mode == Mode::End
        },
    decreases bytes.len(),
{
    reveal(lex_end);
    if s.error is None && !s.owed && bytes.len() > 0 {
        let st = lex_byte(s, bytes[0]);
        if !(st.state.error is Some || st.token is Some) {
            lemma_lex_ended(st.state, bytes.skip(1), eof);
        }
    }
}

/// Bytes that come later change no token that was read before them: a read
/// from `a` that does not block does the same when `b` follows `a`, and one
/// that blocks goes on in `b` from where it stopped.
pub proof fn lemma_lex_append(s: LexState, a: Seq<u8>, b: Seq<u8>, eof: bool)
    ensures
        ({
            let n = lex_next(s, a, false);
            let m = lex_next(s, a + b, eof);
            if n.reply is WouldBlock {
                let r = lex_next(n.state, b, eof);
                m.state == r.state && m.reply == r.reply && m.consumed == a.len() + r.consumed
            } else {
                m == n
            }
        }),
    decreases a.len(),
{
    if s.error is Some || s.owed {
    } else if a.len() == 0 {
        assert(a + b =~= b);
    } else {
        assert((a + b)[0] == a[0]);
        assert((a + b).skip(1) =~= a.skip(1) + b);
        let st = lex_byte(s, a[0]);
        if !(st.state.error is Some || st.token is Some) {
            lemma_lex_append(st.state, a.skip(1), b, eof);
        }
    }
}

/// A read that fails leaves the parser and the lexer such that every later
/// read fails in the same way and takes no byte, whatever was fed since.
pub proof fn lemma_parse_failed(
    p: ParState,
    l: LexState,
    bytes: Seq<u8>,
    eof: bool,
    lazy: bool,
    later: Seq<u8>,
    later_eof: bool,
    later_lazy: bool,
)
    ensures
        parse_next(p, l, bytes, eof, lazy).reply matches Reply::Failed(f) ==> ({
            let n = parse_next(p, l, bytes, eof, lazy);
            parse_next(n.parser, n.lexer, later, later_eof, later_lazy) == (ParseNext {
                parser: n.parser,
                lexer: n.lexer,
                consumed: 0,
                reply: Reply::Failed(f),
            })
        }),
    decreases bytes.len(), lex_weight(l),
{
    if p.queue.len() == 0 && p.error is None && !(lazy && bytes.len() == 0 && !eof && l.error
        is None) {
        let n = lex_next(l, bytes, eof);
        lemma_lex_progress(l, bytes, eof);
        lemma_lex_failed(l, bytes, eof);
        match n.reply {
            Reply::Item(t) => {
                lemma_parse_failed(
                    parse_token(p, t),
                    n.state,
                    bytes.skip(n.consumed as int),
                    eof,
                    lazy,
                    later,
                    later_eof,
                    later_lazy,
                );
            },
            _ => {},
        }
    }
}

/// A read blocks only where the input has not ended, and then it has taken
/// every byte, no event is waiting and nothing has failed.
pub proof fn lemma_parse_blocked(p: ParState, l: LexState, bytes: Seq<u8>, eof: bool, lazy: bool)
    ensures
        parse_next(p, l, bytes, eof, lazy).reply is WouldBlock ==> ({
            let n = parse_next(p, l, bytes, eof, lazy);
            &&& !eof
            &&& n.consumed == bytes.len()
            &&& n.parser.queue.len() == 0
            &&& n.parser.error is None
            &&& n.lexer.error is None
            &&& (!lazy ==> !n.lexer.owed)
        }),
    decreases bytes.len(), lex_weight(l),
{
    if p.queue.len() == 0 && p.error is None && !(lazy && bytes.len() == 0 && !eof && l.error
        is None) {
        let n = lex_next(l, bytes, eof);
        lemma_lex_progress(l, bytes, eof);
        lemma_lex_blocked(l, bytes, eof);
        match n.reply {
            Reply::Item(t) => {
                lemma_parse_blocked(
                    parse_token(p, t),
                    n.state,
                    bytes.skip(n.consumed as int),
                    eof,
                    lazy,
                );
            },
            _ => {},
        }
    }
}

/// A read ends only where the input has ended, and then it has taken every
/// byte, the root element is closed and no event is waiting.
pub proof fn lemma_parse_ended(p: ParState, l: LexState, bytes: Seq<u8>, eof: bool, lazy: bool)
    ensures
        parse_next(p, l, bytes, eof, lazy).reply is End ==> ({
            let n = parse_next(p, l, bytes, eof, lazy);
            &&& eof
            &&& n.consumed == bytes.len()
            &&& n.parser.queue.len() == 0
            &&& n.parser.error is None
            &&& n.parser.phase == Phase::Epilog
            &&& n.lexer.error is None
            &&& !n.lexer.owed
            &&& n.lexer.mode == Mode::End
        }),
    decreases bytes.len(), lex_weight(l),
{
    if p.queue.len() == 0 && p.error is None && !(lazy && bytes.len() == 0 && !eof && l.error
        is None) {
        let n = lex_next(l, bytes, eof);
        lemma_lex_progress(l, bytes, eof);
        lemma_lex_ended(l, bytes, eof);
        match n.reply {
            Reply::Item(t) => {
                lemma_parse_ended(
                    parse_token(p, t),
                    n.state,
                    bytes.skip(n.consumed as int),
                    eof,
                    lazy,
                );
            },
            _ => {},
        }
    }
}

/// Bytes that come later change no event that was read before them: a read
/// from `a` that does not block does the same when `b` follows `a`, and one
/// that blocks goes on in `b` from where it stopped.
pub proof fn lemma_parse_append(p: ParState, l: LexState, a: Seq<u8>, b: Seq<u8>, eof: bool)
    ensures
        ({
            let n = parse_next(p, l, a, false, false);
            let m = parse_next(p, l, a + b, eof, false);
            if n.reply is WouldBlock {
                let r = parse_next(n.parser, n.lexer, b, eof, false);
                m.parser == r.parser && m.lexer == r.lexer && m.reply == r.reply && m.consumed
                    == a.len() + r.consumed
            } else {
                m == n
            }
        }),
    decreases a.len(), lex_weight(l),
{
    if p.queue.len() == 0 && p.error is None {
        let x = lex_next(l, a, false);
        lemma_lex_append(l, a, b, eof);
        lemma_lex_progress(l, a, false);
        lemma_lex_ended(l, a, false);
        lemma_lex_blocked(l, a, false);
        match x.reply {
            Reply::Item(t) => {
                assert((a + b).skip(x.consumed as int) =~= a.skip(x.consumed as int) + b);
                lemma_parse_append(parse_token(p, t), x.state, a.skip(x.consumed as int), b, eof);
            },
            Reply::WouldBlock => {
                let y = lex_next(x.state, b, eof);
                lemma_lex_progress(x.state, b, eof);
                assert((a + b).skip((a.len() + y.consumed) as int) =~= b.skip(y.consumed as int));
            },
            _ => {},
        }
    }
}

/// Asking the source before every token changes when an event is handed
/// out and never which: a read that asks and does not have to wait does what
/// a read that never asks does, and one that has to wait leaves the parser
/// and the lexer where a read that never asks goes on to the same end.
pub proof fn lemma_lazy_parse(p: ParState, l: LexState, bytes: Seq<u8>, eof: bool)
    ensures
        ({
            let lazy = parse_next(p, l, bytes, eof, true);
            let eager = parse_next(p, l, bytes, eof, false);
            if lazy.reply is WouldBlock {
                let rest = parse_next(
                    lazy.parser,
                    lazy.lexer,
                    bytes.skip(lazy.consumed as int),
                    eof,
                    false,
                );
                &&& lazy.consumed <= bytes.len()
                &&& eager.parser == rest.parser
                &&& eager.lexer == rest.lexer
                &&& eager.reply == rest.reply
                &&& eager.consumed == lazy.consumed + rest.consumed
            } else {
                lazy == eager
            }
        }),
    decreases bytes.len(), lex_weight(l),
{
    if p.queue.len() == 0 && p.error is None {
        if bytes.len() == 0 && !eof && l.error is None {
            assert(bytes.skip(0) =~= bytes);
        } else {
            let n = lex_next(l, bytes, eof);
            lemma_lex_progress(l, bytes, eof);
            match n.reply {
                Reply::Item(t) => {
                    let rest = bytes.skip(n.consumed as int);
                    lemma_lazy_parse(parse_token(p, t), n.state, rest, eof);
                    let lazy = parse_next(parse_token(p, t), n.state, rest, eof, true);
                    lemma_parse_progress(parse_token(p, t), n.state, rest, eof, true);
                    assert(rest.skip(lazy.consumed as int) =~= bytes.skip(
                        (n.consumed + lazy.consumed) as int,
                    ));
                },
                Reply::WouldBlock => {
                    lemma_lex_blocked(l, bytes, eof);
                    let left = bytes.skip(n.consumed as int);
                    assert(left =~= Seq::<u8>::empty());
                },
                _ => {},
            }
        }
    }
}

/// The state after `data` was fed and, if `eof`, the end of the input.
pub open spec fn fed_with(s: FeedState, data: Seq<u8>, eof: bool) -> FeedState {
    FeedState { unread: s.unread + data, eof: s.eof || eof, ..s }
}

/// Feeding bytes and then the end is [`fed_with`], and so is either alone.
pub proof fn lemma_fed_with(s: FeedState, data: Seq<u8>)
    ensures
        fed_with(s, data, true) == fed_eof(fed(s, data)),
        fed_with(s, data, false) == fed(s, data),
        fed_with(s, Seq::empty(), true) == fed_eof(s),
{
    assert(s.unread + Seq::<u8>::empty() =~= s.unread);
}

/// A read that the input is not enough for changes nothing but the place of
/// the bytes it took, and the read after it, with nothing fed in between,
/// blocks again and changes nothing at all.
pub proof fn lemma_would_block_is_idle(s: FeedState)
    requires
        read_next(s).reply is WouldBlock,
    ensures
        read_next(s).state.unread.len() == 0,
        read_next(read_next(s).state) == read_next(s),
{
    lemma_parse_blocked(s.parser, s.lexer, s.unread, s.eof, false);
    let n = read_next(s);
    assert(n.state.unread =~= Seq::<u8>::empty());
    assert(n.state.unread.skip(0) =~= n.state.unread);
}

/// Once a read has failed, every read after it fails in the same way and
/// changes nothing, also when more was fed in between.
pub proof fn lemma_fatal_is_sticky(s: FeedState, data: Seq<u8>, eof: bool)
    requires
        read_next(s).reply is Failed,
    ensures
        read_next(read_next(s).state) == read_next(s),
        read_next(fed_with(read_next(s).state, data, eof)) == (ReadNext {
            state: fed_with(read_next(s).state, data, eof),
            reply: read_next(s).reply,
        }),
{
    let n = read_next(s);
    lemma_parse_failed(s.parser, s.lexer, s.unread, s.eof, false, n.state.unread, n.state.eof, false);
    lemma_parse_failed(
        s.parser,
        s.lexer,
        s.unread,
        s.eof,
        false,
        n.state.unread + data,
        n.state.eof || eof,
        false,
    );
    assert(n.state.unread.skip(0) =~= n.state.unread);
    assert((n.state.unread + data).skip(0) =~= n.state.unread + data);
}

/// Once a read has returned the end of the document, every read after it
/// does, and changes nothing.
pub proof fn lemma_end_is_final(s: FeedState)
    requires
        read_next(s).reply is End,
    ensures
        read_next(read_next(s).state) == read_next(s),
{
    reveal(lex_end);
    lemma_parse_ended(s.parser, s.lexer, s.unread, s.eof, false);
    let n = read_next(s);
    assert(n.state.unread =~= Seq::<u8>::empty());
    assert(n.state.unread.skip(0) =~= n.state.unread);
}

/// A read and a feed can change places. A read that hands out an event, or
/// fails, does so whatever is fed afterwards, so it may as well come after
/// the feed. A read that blocks has changed nothing that a read after the
/// feed would not change too.
pub proof fn lemma_read_before_feed(s: FeedState, data: Seq<u8>, eof: bool)
    requires
        !s.eof,
    ensures
        !(read_next(s).reply is End),
        !(read_next(s).reply is WouldBlock) ==> read_next(fed_with(s, data, eof)) == (ReadNext {
            state: fed_with(read_next(s).state, data, eof),
            reply: read_next(s).reply,
        }),
        read_next(s).reply is WouldBlock ==> read_next(fed_with(s, data, eof)) == read_next(
            fed_with(read_next(s).state, data, eof),
        ),
{
    let n = parse_next(s.parser, s.lexer, s.unread, false, false);
    lemma_parse_append(s.parser, s.lexer, s.unread, data, eof);
    lemma_parse_ended(s.parser, s.lexer, s.unread, false, false);
    lemma_parse_blocked(s.parser, s.lexer, s.unread, false, false);
    lemma_parse_progress(s.parser, s.lexer, s.unread, false, false);
    if n.reply is WouldBlock {
        let r = parse_next(n.parser, n.lexer, data, eof, false);
        lemma_parse_progress(n.parser, n.lexer, data, eof, false);
        let mid = fed_with(read_next(s).state, data, eof);
        assert(read_next(s).state.unread =~= Seq::<u8>::empty());
        assert(mid.unread =~= data);
        assert((s.unread + data).skip((s.unread.len() + r.consumed) as int) =~= data.skip(
            r.consumed as int,
        ));
        assert(read_next(fed_with(s, data, eof)).state.unread =~= read_next(mid).state.unread);
    } else {
        assert((s.unread + data).skip(n.consumed as int) =~= s.unread.skip(n.consumed as int)
            + data);
    }
}

/// The events of the reads up to the first that hands out none, the state
/// after that read and what it returned.
pub struct Drained {
    pub events: Seq<EventView>,
    pub state: FeedState,
    pub reply: Reply<EventView>,
}

/// Reads until a read hands out no event.
pub open spec fn drain(s: FeedState) -> Drained
    decreases feed_fuel(s),
{
    let n = read_next(s);
    match n.reply {
        Reply::Item(e) => {
            proof {
                lemma_read_progress(s, false);
            }
            let d = drain(n.state);
            Drained { events: seq![e] + d.events, state: d.state, reply: d.reply }
        },
        _ => Drained { events: Seq::empty(), state: n.state, reply: n.reply },
    }
}

/// Reading does not mark, nor unmark, the end of the input.
pub proof fn lemma_drain_keeps_eof(s: FeedState)
    ensures
        drain(s).state.eof == s.eof,
        !(drain(s).reply is Item),
    decreases feed_fuel(s),
{
    let n = read_next(s);
    if n.reply is Item {
        lemma_read_progress(s, false);
        lemma_drain_keeps_eof(n.state);
    }
}

/// Input fed in two parts, with everything read in between that was there
/// to read, gives the events that it gives when fed at once, and ends in the
/// same state. The reads in between only hand out earlier what would come
/// anyway.
pub proof fn lemma_feed_in_parts(s: FeedState, data: Seq<u8>, eof: bool)
    requires
        !s.eof,
    ensures
        ({
            let first = drain(s);
            let rest = drain(fed_with(first.state, data, eof));
            let whole = drain(fed_with(s, data, eof));
            &&& whole.events == first.events + rest.events
            &&& whole.state == rest.state
            &&& whole.reply == rest.reply
        }),
    decreases feed_fuel(s),
{
    let n = read_next(s);
    lemma_read_before_feed(s, data, eof);
    let first = drain(s);
    let rest = drain(fed_with(first.state, data, eof));
    let whole = drain(fed_with(s, data, eof));
    match n.reply {
        Reply::Item(e) => {
            lemma_read_progress(s, false);
            lemma_feed_in_parts(n.state, data, eof);
            let inner = drain(n.state);
            let inner_rest = drain(fed_with(inner.state, data, eof));
            assert(whole.events == seq![e] + drain(fed_with(n.state, data, eof)).events);
            assert(seq![e] + (inner.events + inner_rest.events) =~= (seq![e] + inner.events)
                + inner_rest.events);
        },
        Reply::Failed(f) => {
            lemma_fatal_is_sticky(s, data, eof);
            assert(first.events + rest.events =~= whole.events);
        },
        _ => {
            assert(first.events + rest.events =~= rest.events);
        },
    }
}

/// The bytes of the chunks, one chunk after the other.
pub open spec fn joined(chunks: Seq<Seq<u8>>) -> Seq<u8>
    decreases chunks.len(),
{
    if chunks.len() == 0 {
        Seq::empty()
    } else {
        chunks[0] + joined(chunks.skip(1))
    }
}

/// The events of a session in which the chunks are fed one by one, with
/// everything read after each that is there to read, and then the end of
/// the input is fed and the rest is read; with the state at the end and what
/// the last read returned.
pub open spec fn session(s: FeedState, chunks: Seq<Seq<u8>>) -> Drained
    decreases chunks.len(),
{
    if chunks.len() == 0 {
        drain(fed_eof(s))
    } else {
        let d = drain(fed(s, chunks[0]));
        let r = session(d.state, chunks.skip(1));
        Drained { events: d.events + r.events, state: r.state, reply: r.reply }
    }
}

/// The events of a document do not depend on the chunks it comes in: a
/// session in which it is fed chunk by chunk gives the events, the end and
/// the state of the session in which it is fed in one piece.
pub proof fn lemma_chunks_do_not_matter(s: FeedState, chunks: Seq<Seq<u8>>)
    requires
        !s.eof,
    ensures
        session(s, chunks) == session(s, seq![joined(chunks)]),
    decreases chunks.len(),
{
    lemma_session_is_one_feed(s, chunks);
    lemma_session_is_one_feed(s, seq![joined(chunks)]);
    let one = seq![joined(chunks)];
    assert(one.skip(1) =~= Seq::<Seq<u8>>::empty());
    assert(joined(one.skip(1)) =~= Seq::<u8>::empty());
    assert(joined(one) =~= joined(chunks));
}

/// A session gives what one feed of all its bytes and of the end gives.
pub proof fn lemma_session_is_one_feed(s: FeedState, chunks: Seq<Seq<u8>>)
    requires
        !s.eof,
    ensures
        session(s, chunks).events == drain(fed_with(s, joined(chunks), true)).events,
        session(s, chunks).state == drain(fed_with(s, joined(chunks), true)).state,
        session(s, chunks).reply == drain(fed_with(s, joined(chunks), true)).reply,
    decreases chunks.len(),
{
    if chunks.len() == 0 {
        lemma_fed_with(s, Seq::empty());
    } else {
        let head = fed(s, chunks[0]);
        let d = drain(head);
        let tail = joined(chunks.skip(1));
        lemma_drain_keeps_eof(head);
        lemma_session_is_one_feed(d.state, chunks.skip(1));
        lemma_feed_in_parts(head, tail, true);
        assert((s.unread + chunks[0]) + tail =~= s.unread + (chunks[0] + tail));
        assert(fed_with(head, tail, true) == fed_with(s, joined(chunks), true));
    }
}

/// Reads that handed out an event each do not change where the reading
/// ends.
pub proof fn lemma_chain_drains<'x>(
    rel: spec_fn(FeedParser<'x>, FeedParser<'x>, Result<Option<Event>, Error>) -> bool,
    took: spec_fn(Event) -> bool,
    from: FeedParser<'x>,
    to: FeedParser<'x>,
    n: nat,
)
    requires
        forall|a: FeedParser<'x>, b: FeedParser<'x>, x: Result<Option<Event>, Error>|
            #[trigger] rel(a, b, x) == a.reads(&b, x),
        read_chain(rel, took, from, to, n),
    ensures
        drain(from@).state == drain(to@).state,
        drain(from@).reply == drain(to@).reply,
    decreases n,
{
    if n > 0 {
        let (mid, ev) = choose|mid: FeedParser<'x>, ev: Event|
            read_chain(rel, took, from, mid, (n - 1) as nat) && #[trigger] rel(
                mid,
                to,
                Ok(Some(ev)),
            ) && took(ev);
        lemma_chain_drains(rel, took, from, mid, (n - 1) as nat);
        assert(mid.reads(&to, Ok(Some(ev))));
    }
}

/// What [`EventRead::read_all`] promises of every reader means this of a
/// [`FeedParser`]: it is left where [`drain`] ends, and the result is that of
/// the read that handed out no event.
pub proof fn lemma_read_all_drains<'x>(
    rel: spec_fn(FeedParser<'x>, FeedParser<'x>, Result<Option<Event>, Error>) -> bool,
    took: spec_fn(Event) -> bool,
    from: FeedParser<'x>,
    to: FeedParser<'x>,
    r: Result<(), Error>,
)
    requires
        forall|a: FeedParser<'x>, b: FeedParser<'x>, x: Result<Option<Event>, Error>|
            #[trigger] rel(a, b, x) == a.reads(&b, x),
        read_until(rel, took, from, to, r),
    ensures
        to@ == drain(from@).state,
        match drain(from@).reply {
            Reply::End => r is Ok,
            Reply::WouldBlock => r matches Err(e) && e.would_block(),
            Reply::Failed(f) => r matches Err(Error::Fatal(g)) && g == f,
            Reply::Item(_) => false,
        },
{
    let (n, mid, last) = choose|n: nat, mid: FeedParser<'x>, last: Result<Option<Event>, Error>|
        #![trigger read_chain(rel, took, from, mid, n), rel(mid, to, last)]
        read_chain(rel, took, from, mid, n) && rel(mid, to, last) && !(last matches Ok(Some(_)))
            && r == crate::ended(last);
    lemma_chain_drains(rel, took, from, mid, n);
    assert(mid.reads(&to, last));
}

/// Reading leaves no more bytes unread than there were.
pub proof fn lemma_drain_unread(s: FeedState)
    ensures
        drain(s).state.unread.len() <= s.unread.len(),
    decreases feed_fuel(s),
{
    let n = read_next(s);
    lemma_parse_progress(s.parser, s.lexer, s.unread, s.eof, false);
    if n.reply is Item {
        lemma_read_progress(s, false);
        lemma_drain_unread(n.state);
    }
}

/// After the end of the input was fed, no read has to wait.
pub proof fn lemma_drain_at_eof(s: FeedState)
    requires
        s.eof,
    ensures
        drain(s).reply is End || drain(s).reply is Failed,
    decreases feed_fuel(s),
{
    let n = read_next(s);
    lemma_parse_blocked(s.parser, s.lexer, s.unread, s.eof, false);
    if n.reply is Item {
        lemma_read_progress(s, false);
        lemma_drain_at_eof(n.state);
    }
}

/// The bytes of chunks and one more chunk are the bytes of the chunks and
/// then those of the one more.
pub proof fn lemma_joined_push(chunks: Seq<Seq<u8>>, last: Seq<u8>)
    ensures
        joined(chunks.push(last)) == joined(chunks) + last,
    decreases chunks.len(),
{
    if chunks.len() == 0 {
        assert(chunks.push(last).skip(1) =~= Seq::<Seq<u8>>::empty());
        assert(joined(Seq::<Seq<u8>>::empty()) =~= Seq::<u8>::empty());
        assert(joined(chunks.push(last)) =~= last + Seq::<u8>::empty());
        assert(joined(chunks) + last =~= last);
        assert(last + Seq::<u8>::empty() =~= last);
    } else {
        assert(chunks.push(last).skip(1) =~= chunks.skip(1).push(last));
        lemma_joined_push(chunks.skip(1), last);
        assert((chunks[0] + joined(chunks.skip(1))) + last =~= chunks[0] + (joined(chunks.skip(1))
            + last));
    }
}

} // verus!
