//! Restricted XML 1.0: a streaming lexer and a namespace-aware event parser.
//!
//! No document type declarations, no processing instructions, no comments,
//! no entities beyond the five predefined ones, UTF-8 only; namespaces are
//! resolved and their rules enforced.
//!
//! Bytes go into a [`BufferQueue`], the [`Lexer`] makes tokens of them and
//! the [`Parser`] makes events of the tokens. A [`FeedParser`] holds the
//! three: the caller feeds chunks as they arrive and reads events in between.
//! What it hands out depends on the bytes fed, never on the chunks they came
//! in, nor on when it was asked. An [`Encoder`] writes events as a document
//! that the parser reads back.
//!
//! The automata of the lexer and the parser are spec functions, and every
//! executable function says what it does in terms of them. What holds of
//! whole runs is proved in [`laws`]: that a read which cannot go on changes
//! nothing, that a fatal error stays, that the chunks do not matter, and how
//! the scope of a namespace declaration ends with its element. [`relex`]
//! shows that the lexer holds no more than its limit allows, [`roundtrip`]
//! that the parser reads back what the encoder wrote, and [`accept`] that
//! the encoder can write what the parser read.
use std::borrow::Cow;
use vstd::prelude::*;

pub mod accept;
pub mod bufq;
pub mod chars;
pub mod context;
pub mod error;
pub mod laws;
pub mod lexer;
pub mod namespace;
pub mod parser;
pub mod relex;
pub mod roundtrip;
pub mod utf8;
pub mod writer;

pub use crate::bufq::BufferQueue;
pub use crate::context::Context;
pub use crate::error::{Error, Fatal};
pub use crate::lexer::{Lexer, LexerOptions, Token};
pub use crate::namespace::{QName, XMLNS_XML};
pub use crate::parser::{Event, Parser, XMLVersion};
pub use crate::writer::{EncodeError, Encoder};

use crate::laws::{
    drain,
    in_order,
    fed_with,
    joined,
    lemma_drain_at_eof,
    lemma_drain_keeps_eof,
    lemma_drain_unread,
    lemma_joined_push,
    lemma_session_is_one_feed,
    session,
};
use crate::lexer::{lex_start, LexState, Reply};
use crate::namespace::extends;
use crate::parser::{
    answered,
    events_view,
    lemma_parse_progress,
    par_start,
    parse_fuel,
    parse_next,
    EventView,
    ParState,
};

verus! {

/// The flag that [`as_eof_flag`] makes of a result.
pub open spec fn eof_flag(r: Result<(), Error>) -> Result<bool, Error> {
    match r {
        Ok(()) => Ok(true),
        Err(e) => if e.would_block() {
            Ok(false)
        } else {
            Err(e)
        },
    }
}

/// Makes a flag of how a run of reads ended: true where the input has ended,
/// false where the source has nothing for now. Any other error stays what it
/// is.
pub fn as_eof_flag(r: Result<(), Error>) -> (out: Result<bool, Error>)
    ensures
        out == eof_flag(r),
{
    match r {
        Ok(()) => Ok(true),
        Err(e) => {
            if e.is_would_block() {
                Ok(false)
            } else {
                Err(e)
            }
        },
    }
}

/// How a run of reads ended, given its last read.
pub open spec fn ended(last: Result<Option<Event>, Error>) -> Result<(), Error> {
    match last {
        Ok(_) => Ok(()),
        Err(e) => Err(e),
    }
}

/// `n` reads, each of which handed out an event that `took` holds of, took a
/// reader from the state `from` to the state `to`; `reads` says what one read
/// may do.
pub open spec fn read_chain<R>(
    reads: spec_fn(R, R, Result<Option<Event>, Error>) -> bool,
    took: spec_fn(Event) -> bool,
    from: R,
    to: R,
    n: nat,
) -> bool
    decreases n,
{
    if n == 0 {
        from == to
    } else {
        exists|mid: R, ev: Event|
            read_chain(reads, took, from, mid, (n - 1) as nat) && #[trigger] reads(
                mid,
                to,
                Ok(Some(ev)),
            ) && took(ev)
    }
}

/// Reads that handed out an event each, of which `took` holds, and then one
/// that handed out none and ended as `r` says, took a reader from the state
/// `from` to the state `to`.
pub open spec fn read_until<R>(
    reads: spec_fn(R, R, Result<Option<Event>, Error>) -> bool,
    took: spec_fn(Event) -> bool,
    from: R,
    to: R,
    r: Result<(), Error>,
) -> bool {
    exists|n: nat, mid: R, last: Result<Option<Event>, Error>|
        #![trigger read_chain(reads, took, from, mid, n), reads(mid, to, last)]
        read_chain(reads, took, from, mid, n) && reads(mid, to, last) && !(last matches Ok(
            Some(_),
        )) && r == ended(last)
}

/// A source of events, as `std::io::Read` is one of bytes.
pub trait EventRead: Sized {
    /// The reader is in good order.
    spec fn valid(&self) -> bool;

    /// A bound on the number of events that the reader hands out before it
    /// needs more input.
    spec fn fuel(&self) -> nat;

    /// A read may take this reader to the reader `after` and return `r`.
    spec fn reads(&self, after: &Self, r: Result<Option<Event>, Error>) -> bool;

    /// Reads one event.
    ///
    /// `None` is the end of a document that was in order. An error that
    /// [`Error::would_block`] holds of, or another of the source, may be gone
    /// at the next read. Any other error is fatal: the next read returns it
    /// again and takes nothing from the source.
    fn read(&mut self) -> (r: Result<Option<Event>, Error>)
        requires
            old(self).valid(),
        ensures
            final(self).valid(),
            old(self).reads(final(self), r),
            r matches Ok(Some(_)) ==> final(self).fuel() < old(self).fuel(),
    ;

    /// Reads the events that there are for now, and hands each to `cb`.
    ///
    /// Returns when a read hands out no event: `Ok` at the end of the
    /// document, and the error of that read otherwise. Every event read
    /// before that went to `cb`, in the order of the reads.
    fn read_all<F: FnMut(Event) -> ()>(&mut self, cb: F) -> (r: Result<(), Error>)
        requires
            old(self).valid(),
            forall|ev: Event| call_requires(cb, (ev,)),
        ensures
            final(self).valid(),
            read_until(
                |a: Self, b: Self, x: Result<Option<Event>, Error>| a.reads(&b, x),
                |ev: Event| call_ensures(cb, (ev,), ()),
                *old(self),
                *final(self),
                r,
            ),
    {
        let ghost rel = |a: Self, b: Self, x: Result<Option<Event>, Error>| a.reads(&b, x);
        let ghost took = |ev: Event| call_ensures(cb, (ev,), ());
        let ghost mut n: nat = 0;
        let mut call = cb;
        loop
            invariant
                self.valid(),
                call == cb,
                forall|ev: Event| call_requires(cb, (ev,)),
                rel == |a: Self, b: Self, x: Result<Option<Event>, Error>| a.reads(&b, x),
                took == |ev: Event| call_ensures(cb, (ev,), ()),
                read_chain(rel, took, *old(self), *self, n),
            decreases self.fuel(),
        {
            let ghost before = *self;
            match self.read() {
                Ok(None) => {
                    assert(read_chain(rel, took, *old(self), before, n) && rel(
                        before,
                        *self,
                        Ok::<Option<Event>, Error>(None),
                    ));
                    return Ok(());
                },
                Ok(Some(ev)) => {
                    let ghost handed = ev;
                    call(ev);
                    proof {
                        assert(read_chain(rel, took, *old(self), before, n) && rel(
                            before,
                            *self,
                            Ok(Some(handed)),
                        ) && took(handed));
                        n = n + 1;
                    }
                },
                Err(e) => {
                    assert(read_chain(rel, took, *old(self), before, n) && rel(
                        before,
                        *self,
                        Err::<Option<Event>, Error>(e),
                    ));
                    return Err(e);
                },
            }
        }
    }

    /// Reads the events that there are for now, and hands each to `cb`.
    ///
    /// Returns true at the end of the document and false where the source
    /// has nothing for now.
    fn read_all_eof<F: FnMut(Event) -> ()>(&mut self, cb: F) -> (r: Result<bool, Error>)
        requires
            old(self).valid(),
            forall|ev: Event| call_requires(cb, (ev,)),
        ensures
            final(self).valid(),
            exists|all: Result<(), Error>|
                #![trigger eof_flag(all)]
                read_until(
                    |a: Self, b: Self, x: Result<Option<Event>, Error>| a.reads(&b, x),
                    |ev: Event| call_ensures(cb, (ev,), ()),
                    *old(self),
                    *final(self),
                    all,
                ) && r == eof_flag(all),
    {
        let all = self.read_all(cb);
        as_eof_flag(all)
    }
}

/// What a [`FeedParser`] is, as a mathematical value: the states of its
/// lexer and its parser, and the bytes that were fed and not read yet.
pub struct FeedState {
    pub parser: ParState,
    pub lexer: LexState,
    pub unread: Seq<u8>,
    pub eof: bool,
}

/// The result of a read: the state after it and what it hands out.
pub struct ReadNext {
    pub state: FeedState,
    pub reply: Reply<EventView>,
}

/// A parser that was fed nothing yet, with the limit `max` on the length of
/// a token.
pub open spec fn feed_start(max: nat) -> FeedState {
    FeedState { parser: par_start(), lexer: lex_start(max), unread: Seq::empty(), eof: false }
}

/// The state after `data` was fed.
pub open spec fn fed(s: FeedState, data: Seq<u8>) -> FeedState {
    FeedState { unread: s.unread + data, ..s }
}

/// The state after the end of the input was fed.
pub open spec fn fed_eof(s: FeedState) -> FeedState {
    FeedState { eof: true, ..s }
}

/// One read of a parser in state `s`; `lazy` as in [`parse_next`].
pub open spec fn next_with(s: FeedState, lazy: bool) -> ReadNext {
    let n = parse_next(s.parser, s.lexer, s.unread, s.eof, lazy);
    ReadNext {
        state: FeedState {
            parser: n.parser,
            lexer: n.lexer,
            unread: s.unread.skip(n.consumed as int),
            eof: s.eof,
        },
        reply: n.reply,
    }
}

/// One read of a [`FeedParser`] in state `s`.
pub open spec fn read_next(s: FeedState) -> ReadNext {
    next_with(s, false)
}

/// The bound on the events that a parser in state `s` hands out before it
/// needs more input.
pub open spec fn feed_fuel(s: FeedState) -> nat {
    parse_fuel(s.unread.len(), s.lexer, s.parser.queue.len())
}

/// A read that hands out an event leaves less to hand out.
pub proof fn lemma_read_progress(s: FeedState, lazy: bool)
    ensures
        next_with(s, lazy).reply is Item ==> feed_fuel(next_with(s, lazy).state) < feed_fuel(s),
{
    lemma_parse_progress(s.parser, s.lexer, s.unread, s.eof, lazy);
}

/// A parser that is fed chunks of bytes as they arrive and never waits.
///
/// A read takes what it can from the bytes that were fed. Where they do not
/// make an event yet, it returns an error that [`Error::would_block`] holds
/// of, and goes on from there when more was fed.
pub struct FeedParser<'x> {
    queue: BufferQueue<'x>,
    lexer: Lexer,
    parser: Parser,
}

impl<'x> View for FeedParser<'x> {
    type V = FeedState;

    closed spec fn view(&self) -> FeedState {
        FeedState {
            parser: self.parser@,
            lexer: self.lexer@,
            unread: self.queue.unread(),
            eof: self.queue.eof_marked(),
        }
    }
}

impl<'x> FeedParser<'x> {
    /// The queue and the parser are in good order.
    pub closed spec fn wf(&self) -> bool {
        self.queue.wf() && self.parser.wf()
    }

    /// The queue of the bytes that were fed and not read yet.
    pub closed spec fn buffer(&self) -> BufferQueue<'x> {
        self.queue
    }

    /// The strings that the parser's table holds.
    pub closed spec fn interned(&self) -> Seq<Seq<char>> {
        self.parser.interned()
    }

    /// The lexer holds a buffer that holds no character.
    pub closed spec fn holds_spare(&self) -> bool {
        self.lexer.holds_spare()
    }

    /// The parser is in order in every state that it reaches: the open
    /// elements hold their declarations in the order in which they were
    /// opened, so that a name is resolved with the innermost declaration
    /// around it and a declaration ends with its element
    /// ([`crate::laws::lemma_scope_is_kept`]).
    pub proof fn lemma_in_order(&self)
        requires
            self.wf(),
        ensures
            in_order(self@.parser),
    {
        self.parser.lemma_in_order();
    }

    /// The parser with another queue in place of its own.
    pub closed spec fn with_buffer(&self, queue: BufferQueue<'x>) -> FeedParser<'x> {
        FeedParser { queue, lexer: self.lexer, parser: self.parser }
    }

    /// What [`FeedParser::with_buffer`] changes and what it leaves.
    pub proof fn lemma_with_buffer(&self, queue: BufferQueue<'x>)
        ensures
            self.with_buffer(queue)@ == (FeedState {
                unread: queue.unread(),
                eof: queue.eof_marked(),
                ..self@
            }),
            self.wf() && queue.wf() ==> self.with_buffer(queue).wf(),
            self.with_buffer(queue).buffer() == queue,
    {
    }

    /// A parser with the default options that was fed nothing yet.
    pub fn new() -> (p: FeedParser<'x>)
        ensures
            p.wf(),
            p@ == feed_start(8192),
            p.interned() == Seq::<Seq<char>>::empty(),
    {
        FeedParser::with_context(Context::new())
    }

    /// A parser with the default options that works with the table `ctx`.
    pub fn with_context(ctx: Context) -> (p: FeedParser<'x>)
        ensures
            p.wf(),
            p@ == feed_start(8192),
            p.interned() == ctx.entries(),
    {
        FeedParser {
            queue: BufferQueue::new(),
            lexer: Lexer::new(),
            parser: Parser::with_context(ctx),
        }
    }

    /// Feeds a chunk. Nothing is read from it before the next read. There is
    /// no feeding after [`FeedParser::feed_eof`].
    pub fn feed(&mut self, data: Cow<'x, [u8]>)
        requires
            old(self).wf(),
            !old(self)@.eof,
            old(self)@.unread.len() + data@.len() <= usize::MAX,
        ensures
            final(self).wf(),
            final(self)@ == fed(old(self)@, data@),
    {
        self.queue.push(data);
    }

    /// Feeds the end of the input, without which no read returns `None`. It
    /// can be fed once.
    pub fn feed_eof(&mut self)
        requires
            old(self).wf(),
            !old(self)@.eof,
        ensures
            final(self).wf(),
            final(self)@ == fed_eof(old(self)@),
    {
        self.queue.push_eof();
    }

    /// The number of bytes that were fed and not read yet.
    pub fn buffered(&self) -> (n: usize)
        requires
            self.wf(),
        ensures
            n == self@.unread.len(),
    {
        self.queue.len()
    }

    /// The queue, for instance to drop what it holds after an error. What
    /// the caller makes of the queue is what the parser has afterwards: the
    /// bytes that the queue then holds are the bytes that the parser has not
    /// read, and the lexer and the parser go on from where they stand.
    pub fn get_buffer_mut(&mut self) -> (q: &mut BufferQueue<'x>)
        ensures
            *q == old(self).buffer(),
            *final(self) == old(self).with_buffer(*final(q)),
            old(self).wf() ==> q.wf(),
            q.unread() == old(self)@.unread,
            q.eof_marked() == old(self)@.eof,
            final(self)@ == (FeedState {
                unread: final(q).unread(),
                eof: final(q).eof_marked(),
                ..old(self)@
            }),
            old(self).wf() && final(q).wf() ==> final(self).wf(),
            final(self).interned() == old(self).interned(),
            final(self).holds_spare() == old(self).holds_spare(),
    {
        &mut self.queue
    }

    /// Reads the events that there are for now and puts them at the end of
    /// `out`, in the order of the document.
    ///
    /// Returns true at the end of the document and false where more input
    /// is needed; a fatal error is returned after the events before it. The
    /// events, the result and the state afterwards are those of
    /// [`drain`]: they depend on the bytes that were fed, not on the chunks
    /// that they came in.
    pub fn read_available(&mut self, out: &mut Vec<Event>) -> (r: Result<bool, Error>)
        requires
            old(self).wf(),
        ensures
            final(self).wf(),
            final(self)@ == drain(old(self)@).state,
            events_view(final(out)@) == events_view(old(out)@) + drain(old(self)@).events,
            match drain(old(self)@).reply {
                Reply::End => r matches Ok(true),
                Reply::WouldBlock => r matches Ok(false),
                Reply::Failed(f) => r matches Err(Error::Fatal(g)) && g == f,
                Reply::Item(_) => false,
            },
    {
        let ghost whole = drain(self@);
        assert(events_view(out@) + whole.events =~= events_view(old(out)@) + whole.events);
        loop
            invariant
                self.wf(),
                whole == drain(old(self)@),
                drain(self@).state == whole.state,
                drain(self@).reply == whole.reply,
                events_view(out@) + drain(self@).events == events_view(old(out)@) + whole.events,
            decreases feed_fuel(self@),
        {
            let ghost before = self@;
            let ghost had = events_view(out@);
            match self.read() {
                Ok(Some(ev)) => {
                    let ghost e = ev@;
                    out.push(ev);
                    proof {
                        assert(events_view(out@) =~= had.push(e));
                        assert(had.push(e) + drain(self@).events =~= had + (seq![e] + drain(
                            self@,
                        ).events));
                    }
                },
                Ok(None) => {
                    proof {
                        assert(events_view(out@) + Seq::<EventView>::empty() =~= events_view(out@));
                    }
                    return Ok(true);
                },
                Err(e) => {
                    proof {
                        assert(events_view(out@) + Seq::<EventView>::empty() =~= events_view(out@));
                    }
                    if e.is_would_block() {
                        return Ok(false);
                    } else {
                        return Err(e);
                    }
                },
            }
        }
    }

    /// Gives up the buffers that hold nothing, those of the lexer and the
    /// table of the parser where no declaration is in scope. The state of
    /// the parser is the same after it.
    pub fn release_temporaries(&mut self)
        requires
            old(self).wf(),
        ensures
            final(self).wf(),
            final(self)@ == old(self)@,
            !final(self).holds_spare(),
            final(self).interned() == (if old(self)@.parser.bindings.len() == 0 {
                Seq::<Seq<char>>::empty()
            } else {
                old(self).interned()
            }),
    {
        self.lexer.release_temporaries();
        self.parser.release_temporaries();
    }
}

impl<'x> EventRead for FeedParser<'x> {
    open spec fn valid(&self) -> bool {
        self.wf()
    }

    open spec fn fuel(&self) -> nat {
        feed_fuel(self@)
    }

    /// A read is [`read_next`]: what it returns and what it leaves depend on
    /// the state alone.
    open spec fn reads(&self, after: &Self, r: Result<Option<Event>, Error>) -> bool {
        after@ == read_next(self@).state && answered(r, read_next(self@).reply)
    }

    /// Reads one event from the bytes that were fed.
    fn read(&mut self) -> (r: Result<Option<Event>, Error>)
        ensures
            extends(old(self).interned(), final(self).interned()),
    {
        let ghost before = self@;
        let r = self.parser.parse(&mut self.lexer, &mut self.queue);
        proof {
            lemma_read_progress(before, false);
            assert(self@ == read_next(before).state);
            assert(r matches Ok(Some(_)) ==> read_next(before).reply is Item);
            assert(r matches Ok(Some(_)) ==> feed_fuel(self@) < feed_fuel(before));
            assert(self.fuel() == feed_fuel(self@));
            assert(old(self).fuel() == feed_fuel(before));
        }
        r
    }
}

/// Chunks of bytes as mathematical values.
pub open spec fn chunks_view(chunks: Seq<Vec<u8>>) -> Seq<Seq<u8>> {
    Seq::new(chunks.len(), |i: int| chunks[i]@)
}

/// Reads a document that comes in chunks: feeds one chunk after the
/// other, reads after each what there is to read, and reads to the end
/// after the last.
///
/// The events and the result are those of the document in one piece: they
/// depend on the bytes of the chunks, one after the other, and not on where
/// one chunk ends and the next begins.
pub fn read_chunks<'x>(chunks: &'x Vec<Vec<u8>>) -> (r: (Vec<Event>, Result<(), Error>))
    requires
        joined(chunks_view(chunks@)).len() <= usize::MAX,
    ensures
        ({
            let whole = drain(fed_with(feed_start(8192), joined(chunks_view(chunks@)), true));
            &&& events_view(r.0@) == whole.events
            &&& match whole.reply {
                Reply::End => r.1 is Ok,
                Reply::Failed(f) => r.1 matches Err(Error::Fatal(g)) && g == f,
                _ => false,
            }
        }),
{
    let ghost all = chunks_view(chunks@);
    let ghost start = feed_start(8192);
    let mut fp: FeedParser<'x> = FeedParser::new();
    let mut out: Vec<Event> = Vec::new();
    let mut i: usize = 0;
    proof {
        assert(all.skip(0) =~= all);
        assert(all.take(0) =~= Seq::<Seq<u8>>::empty());
        assert(events_view(out@) =~= Seq::<EventView>::empty());
        assert(events_view(out@) + session(start, all).events =~= session(start, all).events);
    }
    while i < chunks.len()
        invariant
            i <= chunks.len(),
            all == chunks_view(chunks@),
            start == feed_start(8192),
            joined(all).len() <= usize::MAX,
            fp.wf(),
            !fp@.eof,
            fp@.unread.len() <= joined(all.take(i as int)).len(),
            joined(all.take(i as int)).len() <= joined(all).len(),
            events_view(out@) + session(fp@, all.skip(i as int)).events == session(
                start,
                all,
            ).events,
            session(fp@, all.skip(i as int)).reply == session(start, all).reply,
        decreases chunks.len() - i,
    {
        let ghost before = fp@;
        let ghost had = events_view(out@);
        let ghost left = all.skip(i as int);
        proof {
            assert(left[0] == all[i as int]);
            assert(left.skip(1) =~= all.skip(i + 1));
            assert(all.take(i + 1) =~= all.take(i as int).push(all[i as int]));
            lemma_joined_push(all.take(i as int), all[i as int]);
            lemma_joined_take(all, i + 1);
            lemma_drain_unread(fed(before, all[i as int]));
            lemma_drain_keeps_eof(fed(before, all[i as int]));
        }
        fp.feed(Cow::Borrowed(chunks[i].as_slice()));
        let _ = fp.read_available(&mut out);
        proof {
            let d = drain(fed(before, all[i as int]));
            assert(had + (d.events + session(d.state, left.skip(1)).events) =~= (had + d.events)
                + session(d.state, left.skip(1)).events);
        }
        i += 1;
    }
    proof {
        assert(all.skip(i as int) =~= Seq::<Seq<u8>>::empty());
        lemma_session_is_one_feed(start, all);
        lemma_drain_at_eof(fed_eof(fp@));
        assert(events_view(out@) + drain(fed_eof(fp@)).events == session(start, all).events);
    }
    fp.feed_eof();
    let r = fp.read_available(&mut out);
    match r {
        Ok(_) => (out, Ok(())),
        Err(e) => (out, Err(e)),
    }
}

/// The bytes of the first chunks are no more than the bytes of all.
pub proof fn lemma_joined_take(chunks: Seq<Seq<u8>>, k: int)
    requires
        0 <= k <= chunks.len(),
    ensures
        joined(chunks.take(k)).len() <= joined(chunks).len(),
    decreases chunks.len() - k,
{
    if k < chunks.len() {
        lemma_joined_take(chunks, k + 1);
        assert(chunks.take(k + 1) =~= chunks.take(k).push(chunks[k]));
        lemma_joined_push(chunks.take(k), chunks[k]);
    } else {
        assert(chunks.take(k) =~= chunks);
    }
}

/// The way a blocking reader is driven: what it asks of its driver.
pub enum Pull {
    /// The read is done, and this is its result.
    Ready(Result<Option<Event>, Error>),
    /// The source has to be read, and what it gives supplied, before the
    /// read can go on.
    NeedInput,
}

/// What [`PullParser::poll`] returned is what the reply of the model says.
pub open spec fn pulled(r: Pull, reply: Reply<EventView>) -> bool {
    match reply {
        Reply::WouldBlock => r is NeedInput,
        _ => r matches Pull::Ready(x) && answered(x, reply),
    }
}

/// A parser over a source that blocks until it has bytes.
///
/// The parser itself never touches the source: it says when the source has
/// to be read ([`Pull::NeedInput`]), and its driver reads and supplies what
/// came. The source is asked before every token, also where the bytes
/// supplied before have closed a tag already: the token for a `>` that ends a
/// name goes out only when the source has answered again. With a source that
/// blocks, the end of the last element of a message is handed out when the
/// first byte after it has come.
pub struct PullParser<T> {
    inner: T,
    queue: BufferQueue<'static>,
    lexer: Lexer,
    parser: Parser,
}

impl<T> View for PullParser<T> {
    type V = FeedState;

    closed spec fn view(&self) -> FeedState {
        FeedState {
            parser: self.parser@,
            lexer: self.lexer@,
            unread: self.queue.unread(),
            eof: self.queue.eof_marked(),
        }
    }
}

impl<T> PullParser<T> {
    /// The queue and the parser are in good order.
    pub closed spec fn wf(&self) -> bool {
        self.queue.wf() && self.parser.wf()
    }

    /// The source.
    pub closed spec fn source(&self) -> T {
        self.inner
    }

    /// The parser is in order in every state that it reaches, as that of a
    /// [`FeedParser`] is.
    pub proof fn lemma_in_order(&self)
        requires
            self.wf(),
        ensures
            in_order(self@.parser),
    {
        self.parser.lemma_in_order();
    }

    /// A parser with the default options over the source `inner`.
    pub fn new(inner: T) -> (p: PullParser<T>)
        ensures
            p.wf(),
            p@ == feed_start(8192),
            p.source() == inner,
    {
        PullParser::with_options(inner, LexerOptions { max_token_length: 8192 })
    }

    /// A parser over the source `inner` whose lexer keeps the limits of
    /// `options`.
    pub fn with_options(inner: T, options: LexerOptions) -> (p: PullParser<T>)
        ensures
            p.wf(),
            p@ == feed_start(options.max_token_length as nat),
            p.source() == inner,
    {
        PullParser::wrap(inner, Lexer::with_options(options), Parser::new())
    }

    /// A parser over the source `inner` that goes on where `lexer` and
    /// `parser` stand.
    pub fn wrap(inner: T, lexer: Lexer, parser: Parser) -> (p: PullParser<T>)
        requires
            parser.wf(),
        ensures
            p.wf(),
            p@ == (FeedState { parser: parser@, lexer: lexer@, unread: Seq::empty(), eof: false }),
            p.source() == inner,
    {
        PullParser { inner, queue: BufferQueue::new(), lexer, parser }
    }

    /// The source, to read from it.
    pub fn get_mut(&mut self) -> (inner: &mut T)
        ensures
            *inner == old(self).source(),
            final(self).source() == *final(inner),
            final(self)@ == old(self)@,
            final(self).wf() == old(self).wf(),
    {
        &mut self.inner
    }

    /// Whether the end of the source was supplied.
    pub fn at_eof(&self) -> (r: bool)
        ensures
            r == self@.eof,
    {
        self.queue.eof()
    }

    /// Takes bytes that the source gave.
    pub fn supply(&mut self, data: Vec<u8>)
        requires
            old(self).wf(),
            !old(self)@.eof,
            old(self)@.unread.len() + data@.len() <= usize::MAX,
        ensures
            final(self).wf(),
            final(self)@ == fed(old(self)@, data@),
            final(self).source() == old(self).source(),
    {
        let chunk: Cow<'static, [u8]> = Cow::Owned(data);
        self.queue.push(chunk);
    }

    /// Takes the end of the source.
    pub fn supply_eof(&mut self)
        requires
            old(self).wf(),
            !old(self)@.eof,
        ensures
            final(self).wf(),
            final(self)@ == fed_eof(old(self)@),
            final(self).source() == old(self).source(),
    {
        self.queue.push_eof();
    }

    /// Goes on with the read as far as the bytes supplied allow.
    pub fn poll(&mut self) -> (r: Pull)
        requires
            old(self).wf(),
        ensures
            final(self).wf(),
            final(self)@ == next_with(old(self)@, true).state,
            pulled(r, next_with(old(self)@, true).reply),
            final(self).source() == old(self).source(),
    {
        match self.parser.parse_with(&mut self.lexer, &mut self.queue, true) {
            Ok(ev) => Pull::Ready(Ok(ev)),
            Err(e) => {
                if e.is_would_block() {
                    Pull::NeedInput
                } else {
                    Pull::Ready(Err(e))
                }
            },
        }
    }
}

} // verus!
