//! What the parser hands out, the encoder can write.
//!
//! The events of a document that the parser read to its end are in the
//! order and of the shape that the encoder asks for: every element that was
//! opened is closed, the names are names, the namespaces can be declared
//! again, and the values and the text are made of characters of XML. What
//! the encoder may still refuse is a matter of the limit on the length of a
//! name alone, since it chooses prefixes of its own.
use vstd::prelude::*;
use crate::laws::{drain, in_order, lemma_in_order_is_kept};
use crate::lexer::{lemma_lex_progress, lex_next, lex_start, lex_weight, LexState, Reply, TokenView};
use crate::namespace::{
    attributes_of,
    bound,
    colon_at,
    has_qname,
    is_declaration,
    is_ncname,
    is_reserved,
    qname_of,
    scope_of,
    scope_with,
    xml_namespace,
    Binding,
    QNameView,
};
use crate::parser::{
    closed,
    declared,
    opened,
    par_start,
    parse_next,
    parse_token,
    EventView,
    Open,
    ParState,
    Phase,
};
use crate::relex::{is_chars, lemma_sound_item, lemma_sound_next, room, sound, token_ok};
use crate::roundtrip::{
    all_read_back,
    join_first,
    joined,
    attribute_name,
    lemma_literals,
    lemma_round_trip,
    lemma_written_names,
    read_back,
};
use crate::writer::{
    attribute_at,
    attributes_chars,
    document,
    element_chars,
    element_name,
    has_duplicates,
    start_tag,
    value_ok,
    writer_start,
    written,
    WriterState,
};
use crate::{feed_fuel, feed_start, lemma_read_progress, read_next, FeedState};

verus! {

/// A declaration whose namespace name can be declared again: it is made
/// of characters of XML, within the limit, not reserved, and not empty
/// unless it undeclares the default namespace.
pub open spec fn binding_ok(b: Binding, room: nat) -> bool {
    &&& is_chars(b.uri)
    &&& b.uri.len() <= room
    &&& !is_reserved(b.uri)
    &&& b.prefix.len() > 0 ==> b.uri.len() > 0
}

/// Declarations that can be declared again, each of them.
pub open spec fn bindings_ok(bindings: Seq<Binding>, room: nat) -> bool {
    forall|i: int| 0 <= i < bindings.len() ==> binding_ok(#[trigger] bindings[i], room)
}

/// Attributes as the lexer may hand them out: values of characters of
/// XML within the limit.
pub open spec fn values_ok(attrs: Seq<(Seq<char>, Seq<char>)>, room: nat) -> bool {
    forall|j: int|
        0 <= j < attrs.len() ==> is_chars((#[trigger] attrs[j]).1) && attrs[j].1.len() <= room
}

/// A namespace that an element or an attribute may be read in: none, that
/// of `xml`, or one from a declaration.
pub open spec fn namespace_fine(ns: Option<Seq<char>>, room: nat) -> bool {
    match ns {
        None => true,
        Some(uri) => uri == xml_namespace() || (uri.len() > 0 && !is_reserved(uri) && is_chars(uri)
            && uri.len() <= room),
    }
}

/// The declaration that gives a prefix its meaning is one of those in
/// scope.
pub proof fn lemma_bound_is_bound(bindings: Seq<Binding>, prefix: Seq<char>)
    ensures
        bound(bindings, prefix) matches Some(uri) ==> exists|i: int|
            0 <= i < bindings.len() && #[trigger] bindings[i] == (Binding { prefix, uri }),
    decreases bindings.len(),
{
    if bindings.len() > 0 {
        if bindings.last().prefix == prefix {
            assert(bindings[bindings.len() - 1] == Binding { prefix, uri: bindings.last().uri });
        } else {
            lemma_bound_is_bound(bindings.drop_last(), prefix);
            match bound(bindings, prefix) {
                Some(uri) => {
                    let i = choose|i: int|
                        0 <= i < bindings.drop_last().len() && #[trigger] bindings.drop_last()[i]
                            == (Binding { prefix, uri });
                    assert(bindings[i] == bindings.drop_last()[i]);
                },
                None => {},
            }
        }
    }
}

/// The declarations of a start tag can be declared again, given that
/// those around it can and that its values are as the lexer hands them out.
pub proof fn lemma_scope_of_ok(
    bindings: Seq<Binding>,
    attrs: Seq<(Seq<char>, Seq<char>)>,
    room: nat,
)
    requires
        bindings_ok(bindings, room),
        values_ok(attrs, room),
    ensures
        scope_of(bindings, attrs) matches Ok(scope) ==> bindings_ok(scope, room),
    decreases attrs.len(),
{
    if attrs.len() > 0 {
        assert(is_chars(attrs[0].1) && attrs[0].1.len() <= room);
        match scope_with(bindings, attrs[0].0, attrs[0].1) {
            Ok(next) => {
                assert forall|i: int| 0 <= i < next.len() implies binding_ok(
                    #[trigger] next[i],
                    room,
                ) by {
                    if i < bindings.len() {
                        assert(next[i] == bindings[i]);
                    } else {
                        if attrs[0].0 != "xmlns"@ {
                            assert(is_ncname(next[i].prefix));
                        }
                    }
                }
                assert forall|j: int| 0 <= j < attrs.skip(1).len() implies is_chars(
                    (#[trigger] attrs.skip(1)[j]).1,
                ) && attrs.skip(1)[j].1.len() <= room by {
                    assert(attrs.skip(1)[j] == attrs[j + 1]);
                }
                lemma_scope_of_ok(next, attrs.skip(1), room);
            },
            Err(_) => {},
        }
    }
}

/// A name that was resolved has a local part that is a name, and a
/// namespace that it may be read in. A name without a prefix has its whole
/// name as its local part.
pub proof fn lemma_qname_of_ok(bindings: Seq<Binding>, name: Seq<char>, attr: bool, room: nat)
    requires
        bindings_ok(bindings, room),
    ensures
        qname_of(bindings, name, attr) matches Ok(q) ==> is_ncname(q.local) && namespace_fine(
            q.namespace,
            room,
        ) && (q.prefix is None ==> q.local == name) && (attr && q.namespace is None ==> q.prefix
            is None),
{
    match qname_of(bindings, name, attr) {
        Ok(q) => {
            let at = colon_at(name, 0);
            if at >= name.len() {
                if !attr {
                    lemma_bound_is_bound(bindings, Seq::empty());
                }
            } else {
                let prefix = name.take(at);
                if prefix != "xml"@ {
                    lemma_bound_is_bound(bindings, prefix);
                }
            }
        },
        Err(_) => {},
    }
}

/// Attributes that the parser may hand out with a start tag: names that
/// are names, namespaces that they may be read in, values of characters of
/// XML within the limit, and no attribute without a namespace that is
/// called `xmlns`.
pub open spec fn attributes_fine(attrs: Seq<(QNameView, Seq<char>)>, room: nat) -> bool {
    forall|i: int|
        0 <= i < attrs.len() ==> {
            let q = (#[trigger] attrs[i]).0;
            &&& is_ncname(q.local)
            &&& namespace_fine(q.namespace, room)
            &&& q.namespace is None ==> q.local != "xmlns"@
            &&& is_chars(attrs[i].1)
            &&& attrs[i].1.len() <= room
        }
}

/// No two of the attributes have the same namespace and local name.
pub open spec fn all_differ(attrs: Seq<(QNameView, Seq<char>)>) -> bool {
    forall|i: int, j: int|
        0 <= i < j < attrs.len() ==> !((#[trigger] attrs[i]).0.namespace == (
        #[trigger] attrs[j]).0.namespace && attrs[i].0.local == attrs[j].0.local)
}

/// The attributes that were resolved are such as the parser may hand
/// out, and no two of them have the same namespace and local name.
pub proof fn lemma_attributes_of_ok(
    bindings: Seq<Binding>,
    attrs: Seq<(Seq<char>, Seq<char>)>,
    done: Seq<(QNameView, Seq<char>)>,
    room: nat,
)
    requires
        bindings_ok(bindings, room),
        values_ok(attrs, room),
        attributes_fine(done, room),
        all_differ(done),
    ensures
        attributes_of(bindings, attrs, done) matches Ok(all) ==> attributes_fine(all, room)
            && all_differ(all),
    decreases attrs.len(),
{
    if attrs.len() > 0 {
        assert forall|j: int| 0 <= j < attrs.skip(1).len() implies is_chars(
            (#[trigger] attrs.skip(1)[j]).1,
        ) && attrs.skip(1)[j].1.len() <= room by {
            assert(attrs.skip(1)[j] == attrs[j + 1]);
        }
        if is_declaration(attrs[0].0) {
            lemma_attributes_of_ok(bindings, attrs.skip(1), done, room);
        } else {
            lemma_qname_of_ok(bindings, attrs[0].0, true, room);
            match qname_of(bindings, attrs[0].0, true) {
                Ok(q) => {
                    if !has_qname(done, q) {
                        let next = done.push((q, attrs[0].1));
                        assert(is_chars(attrs[0].1) && attrs[0].1.len() <= room);
                        assert forall|i: int| 0 <= i < next.len() implies {
                            let q = (#[trigger] next[i]).0;
                            &&& is_ncname(q.local)
                            &&& namespace_fine(q.namespace, room)
                            &&& q.namespace is None ==> q.local != "xmlns"@
                            &&& is_chars(next[i].1)
                            &&& next[i].1.len() <= room
                        } by {
                            if i < done.len() {
                                assert(next[i] == done[i]);
                            }
                        }
                        assert forall|i: int, j: int| 0 <= i < j < next.len() implies !((
                        #[trigger] next[i]).0.namespace == (#[trigger] next[j]).0.namespace
                            && next[i].0.local == next[j].0.local) by {
                            assert(next[i] == done[i]);
                            if j < done.len() {
                                assert(next[j] == done[j]);
                            } else {
                                assert(done[i].0.namespace == q.namespace && done[i].0.local
                                    == q.local ==> has_qname(done, q));
                            }
                        }
                        lemma_attributes_of_ok(bindings, attrs.skip(1), next, room);
                    }
                },
                Err(_) => {},
            }
        }
    }
}

/// Attributes no two of which are the same have no duplicates.
pub proof fn lemma_no_duplicates(attrs: Seq<(QNameView, Seq<char>)>)
    requires
        all_differ(attrs),
    ensures
        !has_duplicates(attrs),
{
}

/// A start tag whose names, with the prefixes that the encoder chooses,
/// are within the limit.
pub open spec fn fits(q: QNameView, attrs: Seq<(QNameView, Seq<char>)>, max: nat) -> bool {
    &&& q.namespace != Some(xml_namespace()) ==> max >= 5
    &&& element_name(q).len() <= max
    &&& forall|i: int|
        0 <= i < attrs.len() ==> attribute_name((#[trigger] attrs[i]).0, i as nat).len() <= max
            && (attrs[i].0.namespace is Some && attrs[i].0.namespace != Some(xml_namespace())
            ==> i + 7 <= max)
}

/// Attributes each of which can be written can be written together.
pub proof fn lemma_attributes_chars_ok(attrs: Seq<(QNameView, Seq<char>)>, i: nat, max: nat)
    requires
        forall|k: int|
            i <= k < attrs.len() ==> attribute_at(
                (#[trigger] attrs[k]).0,
                attrs[k].1,
                k as nat,
                max,
            ) is Ok,
    ensures
        attributes_chars(attrs, i, max) is Ok,
    decreases attrs.len() - i,
{
    if i < attrs.len() {
        assert(attribute_at(attrs[i as int].0, attrs[i as int].1, i, max) is Ok);
        lemma_attributes_chars_ok(attrs, i + 1, max);
    }
}

/// A start tag such as the parser may hand out can be written if its
/// names fit.
pub proof fn lemma_start_tag_ok(q: QNameView, attrs: Seq<(QNameView, Seq<char>)>, max: nat)
    requires
        is_ncname(q.local),
        namespace_fine(q.namespace, max),
        attributes_fine(attrs, max),
        all_differ(attrs),
        fits(q, attrs, max),
    ensures
        start_tag(q, attrs, max) is Ok,
{
    lemma_literals();
    assert(element_chars(q, max) is Ok);
    assert forall|k: int| 0 <= k < attrs.len() implies attribute_at(
        (#[trigger] attrs[k]).0,
        attrs[k].1,
        k as nat,
        max,
    ) is Ok by {
        let a = attrs[k].0;
        lemma_written_names(a, k as nat);
        assert(attribute_name(a, k as nat).len() <= max);
        assert(value_ok(attrs[k].1, max));
    }
    lemma_attributes_chars_ok(attrs, 0, max);
    lemma_no_duplicates(attrs);
}

/// The encoder stands where the parser stands, after all the events
/// that the parser has made: the same elements are open under the same
/// names, and the encoder is in the part of the document that the parser is
/// in. The parser holds only what can be written again.
pub open spec fn abreast(p: ParState, w: WriterState, max: nat) -> bool {
    &&& w.max == max
    &&& p.error is None
    &&& in_order(p)
    &&& bindings_ok(p.bindings, max)
    &&& values_ok(p.attrs, max)
    &&& w.stack.len() == p.stack.len()
    &&& forall|i: int| 0 <= i < w.stack.len() ==> #[trigger] w.stack[i] == p.stack[i].qname
    &&& w.place is Inside <==> w.stack.len() > 0
    &&& match p.phase {
        Phase::Initial | Phase::Decl(_) => w.place is Start,
        Phase::Prolog | Phase::Head | Phase::Attr => w.place !is Done,
        Phase::Content | Phase::Foot => w.place is Inside,
        Phase::Epilog => w.place is Done,
    }
}

/// The state of the encoder after the events `events`; `None` where one
/// of them cannot be written.
pub open spec fn accepts(w: WriterState, events: Seq<EventView>) -> Option<WriterState>
    decreases events.len(),
{
    if events.len() == 0 {
        Some(w)
    } else {
        match written(w, events[0]) {
            Ok((next, _)) => accepts(next, events.skip(1)),
            Err(_) => None,
        }
    }
}

/// The events that a token added to those that the parser held.
pub open spec fn added(p: ParState, after: ParState) -> Seq<EventView> {
    after.queue.skip(p.queue.len() as int)
}

/// An event whose names, with those that the encoder adds, are within
/// the limit.
pub open spec fn event_fits(ev: EventView, max: nat) -> bool {
    match ev {
        EventView::StartElement(q, attrs) => fits(q, attrs, max),
        EventView::XMLDeclaration(_) => max >= 7,
        _ => true,
    }
}

/// Whether the events `new` can be asked of the encoder at all: their
/// names fit.
pub open spec fn askable(new: Seq<EventView>, max: nat) -> bool {
    forall|k: int| 0 <= k < new.len() ==> event_fits(#[trigger] new[k], max)
}

/// What a token that begins or ends a start tag makes of the two: the
/// event of the tag, and that of the end of the element if the tag is an
/// empty one, can be written, and the encoder is abreast of the parser
/// after them.
pub proof fn lemma_opened_accepted(p: ParState, w: WriterState, empty: bool, max: nat)
    requires
        abreast(p, w, max),
        max >= 1,
        p.phase is Head,
        opened(p, empty).error is None,
        askable(added(p, opened(p, empty)), max),
    ensures
        accepts(w, added(p, opened(p, empty))) matches Some(next) && abreast(
            opened(p, empty),
            next,
            max,
        ),
{
    let after = opened(p, empty);
    let new = added(p, after);
    let scope = scope_of(p.bindings, p.attrs)->Ok_0;
    let q = qname_of(scope, p.name, false)->Ok_0;
    let attrs = attributes_of(scope, p.attrs, Seq::empty())->Ok_0;
    lemma_scope_of_ok(p.bindings, p.attrs, max);
    lemma_qname_of_ok(scope, p.name, false, max);
    lemma_attributes_of_ok(scope, p.attrs, Seq::empty(), max);
    lemma_in_order_is_kept(
        p,
        if empty {
            TokenView::ElementHeadClose
        } else {
            TokenView::ElementHFEnd
        },
    );
    assert(in_order(after)) by {
        reveal(parse_token);
    }
    let start = EventView::StartElement(q, attrs);
    assert(new[0] == start);
    assert(event_fits(new[0], max));
    assert(fits(q, attrs, max));
    lemma_start_tag_ok(q, attrs, max);
    let w1 = written(w, start)->Ok_0.0;
    assert(w1.stack =~= w.stack.push(q));
    if empty {
        let end = EventView::EndElement(q);
        assert(new =~= seq![start, end]);
        assert(new.skip(1) =~= seq![end]);
        assert(new.skip(1).skip(1) =~= Seq::<EventView>::empty());
        assert(w1.stack.last() == q);
        let w2 = written(w1, end)->Ok_0.0;
        assert(w2.stack =~= w.stack);
        assert(accepts(w2, Seq::<EventView>::empty()) == Some(w2));
        assert(accepts(w1, new.skip(1)) == Some(w2));
    } else {
        assert(new =~= seq![start]);
        assert(new.skip(1) =~= Seq::<EventView>::empty());
        assert(accepts(w1, Seq::<EventView>::empty()) == Some(w1));
        assert(after.stack =~= p.stack.push(
            Open { name: p.name, qname: q, base: p.bindings.len() },
        ));
        assert forall|i: int| 0 <= i < w1.stack.len() implies #[trigger] w1.stack[i]
            == after.stack[i].qname by {
            if i < w.stack.len() {
                assert(w1.stack[i] == w.stack[i]);
                assert(after.stack[i] == p.stack[i]);
            }
        }
    }
}

/// What the token that ends an end tag makes of the two: the event of
/// the end of the element can be written, and the encoder is abreast of the
/// parser after it.
pub proof fn lemma_closed_accepted(p: ParState, w: WriterState, max: nat)
    requires
        abreast(p, w, max),
        p.phase is Foot,
    ensures
        accepts(w, added(p, closed(p))) matches Some(next) && abreast(closed(p), next, max),
{
    let after = closed(p);
    let new = added(p, after);
    let top = p.stack.last();
    assert(p.stack.last() == p.stack[p.stack.len() - 1]);
    assert(w.stack.last() == w.stack[w.stack.len() - 1]);
    lemma_in_order_is_kept(p, TokenView::ElementHFEnd);
    assert(in_order(after)) by {
        reveal(parse_token);
    }
    let end = EventView::EndElement(top.qname);
    assert(new =~= seq![end]);
    assert(new.skip(1) =~= Seq::<EventView>::empty());
    let w1 = written(w, end)->Ok_0.0;
    assert(accepts(w1, Seq::<EventView>::empty()) == Some(w1));
    assert(w1.stack =~= w.stack.drop_last());
    assert(after.stack =~= p.stack.drop_last());
    assert forall|i: int| 0 <= i < w1.stack.len() implies #[trigger] w1.stack[i]
        == after.stack[i].qname by {
        assert(w1.stack[i] == w.stack[i]);
        assert(after.stack[i] == p.stack[i]);
    }
    assert forall|i: int| 0 <= i < after.bindings.len() implies binding_ok(
        #[trigger] after.bindings[i],
        max,
    ) by {
        assert(after.bindings[i] == p.bindings[i]);
    }
}

/// A token that makes no event leaves the encoder abreast of the
/// parser.
pub proof fn lemma_quiet_token(p: ParState, w: WriterState, t: TokenView, max: nat)
    requires
        abreast(p, w, max),
        max >= 1,
        token_ok(t, max),
        parse_token(p, t).error is None,
        parse_token(p, t).queue == p.queue,
    ensures
        abreast(parse_token(p, t), w, max),
{
    let after = parse_token(p, t);
    lemma_in_order_is_kept(p, t);
    reveal(parse_token);
    if p.phase is Head && (t is ElementHFEnd || t is ElementHeadClose) {
        assert(after.queue.len() > p.queue.len());
    }
    if p.phase is Foot && t is ElementHFEnd {
        assert(after.queue.len() > p.queue.len());
    }
    assert(after.bindings == p.bindings);
    assert(after.stack == p.stack);
    if after.attrs != p.attrs {
        match t {
            TokenView::AttributeValue(v) => {
                assert(after.attrs == p.attrs.push((p.attr, v)));
                assert forall|j: int| 0 <= j < after.attrs.len() implies is_chars(
                    (#[trigger] after.attrs[j]).1,
                ) && after.attrs[j].1.len() <= max by {
                    if j < p.attrs.len() {
                        assert(after.attrs[j] == p.attrs[j]);
                    }
                }
            },
            _ => {
                assert(after.attrs =~= Seq::<(Seq<char>, Seq<char>)>::empty());
            },
        }
    }
}

/// What a token makes of the parser and the encoder: the events that it
/// adds can be written, if they can be asked of the encoder at all, and the
/// encoder is abreast of the parser after them.
pub proof fn lemma_token_accepted(p: ParState, w: WriterState, t: TokenView, max: nat)
    requires
        abreast(p, w, max),
        max >= 1,
        token_ok(t, max),
        parse_token(p, t).error is None,
        askable(added(p, parse_token(p, t)), max),
    ensures
        ({
            let after = parse_token(p, t);
            let new = added(p, after);
            &&& after.queue.len() >= p.queue.len()
            &&& after.queue.take(p.queue.len() as int) == p.queue
            &&& accepts(w, new) matches Some(next) && abreast(after, next, max)
        }),
{
    let after = parse_token(p, t);
    let new = added(p, after);
    let none = Seq::<EventView>::empty();
    assert(p.queue.skip(p.queue.len() as int) =~= none);
    assert(p.queue.take(p.queue.len() as int) =~= p.queue);
    assert(accepts(w, none) == Some(w));
    let opens = p.phase is Head && (t is ElementHFEnd || t is ElementHeadClose);
    let closes = p.phase is Foot && t is ElementHFEnd;
    let text = p.phase is Content && t is Text;
    let declares = p.phase is Decl && t is XmlDeclEnd;
    if opens {
        let empty = t is ElementHeadClose;
        assert(after == opened(p, empty)) by {
            reveal(parse_token);
        }
        lemma_opened_accepted(p, w, empty, max);
        assert(after.queue.take(p.queue.len() as int) =~= p.queue);
    } else if closes {
        assert(after == closed(p)) by {
            reveal(parse_token);
        }
        lemma_closed_accepted(p, w, max);
        assert(after.queue.take(p.queue.len() as int) =~= p.queue);
    } else if text {
        let data = t->Text_0;
        let ev = EventView::Text(data);
        assert(after == ParState { queue: p.queue.push(ev), ..p }) by {
            reveal(parse_token);
        }
        assert(new =~= seq![ev]);
        assert(new.skip(1) =~= none);
        assert(after.queue.take(p.queue.len() as int) =~= p.queue);
        assert(crate::writer::text_ok(data));
        let w1 = written(w, ev)->Ok_0.0;
        assert(accepts(w1, none) == Some(w1));
    } else if declares {
        let ev = EventView::XMLDeclaration(crate::parser::XMLVersion::V1_0);
        assert(after == declared(p)) by {
            reveal(parse_token);
        }
        assert(new =~= seq![ev]);
        assert(new.skip(1) =~= none);
        assert(after.queue.take(p.queue.len() as int) =~= p.queue);
        assert(new[0] == ev);
        assert(event_fits(new[0], max));
        let w1 = written(w, ev)->Ok_0.0;
        assert(accepts(w1, none) == Some(w1));
        assert(w1.stack == w.stack);
    } else {
        assert(after.queue == p.queue) by {
            reveal(parse_token);
        }
        lemma_quiet_token(p, w, t, max);
        assert(new =~= none);
    }
}

/// A token that the parser refuses adds no event.
pub proof fn lemma_refused_token(p: ParState, t: TokenView)
    requires
        p.error is None,
        parse_token(p, t).error is Some,
    ensures
        parse_token(p, t).queue == p.queue,
{
    reveal(parse_token);
}

/// What a read makes of the parser and the encoder, where the parser
/// holds no event before it: the event that the read hands out, and the one
/// that it may leave with the parser, can be written, if they can be asked
/// of the encoder at all, and the encoder is abreast of the parser after
/// them. A read that comes to the end of the document finds the encoder at
/// the end of the document.
pub proof fn lemma_tokens_accepted(
    p: ParState,
    l: LexState,
    bytes: Seq<u8>,
    eof: bool,
    w: WriterState,
    max: nat,
)
    requires
        p.queue.len() == 0,
        abreast(p, w, max),
        max >= 1,
        sound(l),
        l.max == max,
    ensures
        ({
            let n = parse_next(p, l, bytes, eof, false);
            &&& n.reply matches Reply::Item(e) ==> {
                let new = seq![e] + n.parser.queue;
                &&& sound(n.lexer)
                &&& n.lexer.max == max
                &&& askable(new, max) ==> (accepts(w, new) matches Some(next) && abreast(
                    n.parser,
                    next,
                    max,
                ))
            }
            &&& n.reply is End ==> abreast(n.parser, w, max) && n.parser.phase is Epilog
                && n.parser.queue.len() == 0
        }),
    decreases bytes.len(), lex_weight(l),
{
    let x = lex_next(l, bytes, eof);
    lemma_sound_next(l, bytes, eof);
    lemma_sound_item(l, bytes, eof);
    lemma_lex_progress(l, bytes, eof);
    match x.reply {
        Reply::Item(t) => {
            let p2 = parse_token(p, t);
            let rest = bytes.skip(x.consumed as int);
            let n = parse_next(p, l, bytes, eof, false);
            let r = parse_next(p2, x.state, rest, eof, false);
            assert(n.parser == r.parser && n.lexer == r.lexer && n.reply == r.reply);
            if p2.error is Some {
                lemma_refused_token(p, t);
                assert(r.reply is Failed);
            } else if p2.queue.len() > 0 {
                let new = seq![p2.queue[0]] + p2.queue.skip(1);
                assert(new =~= p2.queue);
                assert(added(p, p2) =~= p2.queue);
                assert(r.parser == ParState { queue: p2.queue.skip(1), ..p2 });
                assert(r.lexer == x.state);
                assert(r.reply == Reply::Item(p2.queue[0]));
                if askable(new, max) {
                    lemma_token_accepted(p, w, t, max);
                    let next = accepts(w, new)->0;
                    assert(abreast(p2, next, max));
                    assert(in_order(r.parser) == in_order(p2));
                    assert(abreast(r.parser, next, max));
                }
            } else {
                assert(added(p, p2) =~= Seq::<EventView>::empty());
                lemma_token_accepted(p, w, t, max);
                lemma_tokens_accepted(p2, x.state, rest, eof, w, max);
            }
        },
        _ => {},
    }
}

/// The names of every event among `events` fit.
pub open spec fn all_fit(events: Seq<EventView>, max: nat) -> bool {
    forall|k: int| 0 <= k < events.len() ==> event_fits(#[trigger] events[k], max)
}

/// The events that the parser holds are the first that the reads hand
/// out.
pub proof fn lemma_queue_comes_first(s: FeedState)
    ensures
        drain(s).events.len() >= s.parser.queue.len(),
        drain(s).events.take(s.parser.queue.len() as int) == s.parser.queue,
    decreases s.parser.queue.len(),
{
    let q = s.parser.queue;
    if q.len() > 0 {
        let n = read_next(s);
        lemma_read_progress(s, false);
        lemma_queue_comes_first(n.state);
        let rest = drain(n.state).events;
        assert(n.state.parser.queue == q.skip(1));
        assert(drain(s).events == seq![q[0]] + rest);
        assert((seq![q[0]] + rest).take(q.len() as int) =~= seq![q[0]] + rest.take(q.len() - 1));
        assert(seq![q[0]] + q.skip(1) =~= q);
    } else {
        assert(drain(s).events.take(0) =~= q);
    }
}

/// Events that the encoder takes one after the other, and after which
/// it is at the end of the document, make a document.
pub proof fn lemma_document_of_accepts(w: WriterState, events: Seq<EventView>)
    requires
        accepts(w, events) matches Some(end) && end.place is Done,
    ensures
        document(w, events) is Some,
    decreases events.len(),
{
    if events.len() > 0 {
        let next = written(w, events[0])->Ok_0.0;
        lemma_document_of_accepts(next, events.skip(1));
    }
}

/// What can be asked of the encoder for a sequence of events can be
/// asked for those after the first, and for those that come first.
pub proof fn lemma_askable_parts(
    events: Seq<EventView>,
    e: EventView,
    rest: Seq<EventView>,
    first: Seq<EventView>,
    max: nat,
)
    requires
        events == seq![e] + rest,
        all_fit(events, max),
        first.len() <= events.len(),
        events.take(first.len() as int) == first,
    ensures
        all_fit(rest, max),
        all_fit(first, max),
{
    assert forall|k: int| 0 <= k < rest.len() implies event_fits(#[trigger] rest[k], max) by {
        assert(rest[k] == events[k + 1]);
    }
    assert forall|k: int| 0 <= k < first.len() implies event_fits(#[trigger] first[k], max) by {
        assert(first[k] == events.take(first.len() as int)[k]);
        assert(first[k] == events[k]);
    }
}

/// The events of the reads from the state `s` on, up to the end of the
/// document, can be written one after the other by an encoder that has
/// written the events before them, if they can be asked of the encoder at
/// all; and the encoder is at the end of the document after them.
pub proof fn lemma_drain_accepted(s: FeedState, w: WriterState, max: nat)
    requires
        max >= 1,
        s.lexer.max == max,
        sound(s.lexer),
        accepts(w, s.parser.queue) matches Some(all) && abreast(s.parser, all, max),
        all_fit(drain(s).events, max),
        drain(s).reply is End,
    ensures
        accepts(w, drain(s).events) matches Some(end) && end.place is Done,
    decreases feed_fuel(s),
{
    let p = s.parser;
    let n = read_next(s);
    let events = drain(s).events;
    lemma_read_progress(s, false);
    if p.queue.len() > 0 {
        let e = p.queue[0];
        assert(accepts(w, p.queue) is Some);
        assert(written(w, e) is Ok);
        let w1 = written(w, e)->Ok_0.0;
        assert(accepts(w, p.queue) == accepts(w1, p.queue.skip(1)));
        let rest = drain(n.state).events;
        assert(events.take(0) =~= Seq::<EventView>::empty());
        assert(events == seq![e] + rest);
        assert(events.skip(1) =~= rest);
        assert(events[0] == e);
        assert(n.state.parser == ParState { queue: p.queue.skip(1), ..p });
        let all = accepts(w, p.queue)->0;
        assert(in_order(n.state.parser) == in_order(p));
        assert(abreast(n.state.parser, all, max));
        lemma_askable_parts(events, e, rest, Seq::empty(), max);
        lemma_drain_accepted(n.state, w1, max);
    } else {
        assert(accepts(w, p.queue) == Some(w));
        lemma_tokens_accepted(p, s.lexer, s.unread, s.eof, w, max);
        match n.reply {
            Reply::Item(e) => {
                let rest = drain(n.state).events;
                let held = n.state.parser.queue;
                let new = seq![e] + held;
                assert(events == seq![e] + rest);
                assert(events.skip(1) =~= rest);
                assert(events[0] == e);
                lemma_queue_comes_first(n.state);
                assert(events.take(new.len() as int) =~= new) by {
                    assert(rest.take(held.len() as int) == held);
                    assert forall|k: int| 0 <= k < new.len() implies events.take(
                        new.len() as int,
                    )[k] == new[k] by {
                        if k > 0 {
                            assert(rest.take(held.len() as int)[k - 1] == rest[k - 1]);
                        }
                    }
                }
                lemma_askable_parts(events, e, rest, new, max);
                assert(askable(new, max));
                assert(new.skip(1) =~= held);
                assert(new[0] == e);
                let w1 = written(w, e)->Ok_0.0;
                if held.len() == 0 {
                    assert(accepts(w1, held) == Some(w1));
                }
                lemma_drain_accepted(n.state, w1, max);
            },
            _ => {
                assert(events =~= Seq::<EventView>::empty());
            },
        }
    }
}

/// What the parser hands out, the encoder can write: the events of a
/// document that the parser read to its end make a document, if their names
/// fit with what the encoder adds to them. Nothing but the limit on the
/// length of a name is left out by that.
pub proof fn lemma_accepted(bytes: Seq<u8>, max: nat)
    requires
        max >= 1,
        drain(crate::laws::fed_with(feed_start(max), bytes, true)).reply is End,
        all_fit(drain(crate::laws::fed_with(feed_start(max), bytes, true)).events, max),
    ensures
        document(
            writer_start(max),
            drain(crate::laws::fed_with(feed_start(max), bytes, true)).events,
        ) is Some,
{
    let s = crate::laws::fed_with(feed_start(max), bytes, true);
    let w = writer_start(max);
    assert(accepts(w, s.parser.queue) == Some(w));
    assert(in_order(par_start())) by {
        lemma_in_order_is_kept(par_start(), TokenView::XmlDeclStart);
    }
    assert(sound(lex_start(max))) by {
        crate::relex::lemma_sound_char(lex_start(max), ' ');
    }
    lemma_drain_accepted(s, w, max);
    lemma_document_of_accepts(w, drain(s).events);
}

/// Two names with the same namespace and local name; the prefixes do
/// not count.
pub open spec fn same_name(a: QNameView, b: QNameView) -> bool {
    a.namespace == b.namespace && a.local == b.local
}

/// Two events that say the same: the same names but for their prefixes,
/// the same attributes in the same order with the same values, the same
/// text.
pub open spec fn alike(a: EventView, b: EventView) -> bool {
    match (a, b) {
        (EventView::XMLDeclaration(_), EventView::XMLDeclaration(_)) => true,
        (EventView::StartElement(q, x), EventView::StartElement(r, y)) => same_name(q, r)
            && x.len() == y.len() && forall|i: int|
            0 <= i < x.len() ==> same_name((#[trigger] x[i]).0, y[i].0) && x[i].1 == y[i].1,
        (EventView::EndElement(q), EventView::EndElement(r)) => same_name(q, r),
        (EventView::Text(s), EventView::Text(t)) => s == t,
        _ => false,
    }
}

/// Two sequences of events that say the same, event by event.
pub open spec fn all_alike(a: Seq<EventView>, b: Seq<EventView>) -> bool {
    a.len() == b.len() && forall|k: int| 0 <= k < a.len() ==> alike(#[trigger] a[k], b[k])
}

/// The events that a document is read back as say what the events said
/// that it was written from.
pub proof fn lemma_read_back_alike(w: WriterState, events: Seq<EventView>)
    requires
        accepts(w, events) is Some,
    ensures
        all_alike(events, all_read_back(w, events)),
    decreases events.len(),
{
    if events.len() > 0 {
        let next = written(w, events[0])->Ok_0.0;
        let rest = all_read_back(next, events.skip(1));
        let all = all_read_back(w, events);
        lemma_read_back_alike(next, events.skip(1));
        assert(all == seq![read_back(w, events[0])] + rest);
        assert(alike(events[0], read_back(w, events[0])));
        assert forall|k: int| 0 <= k < events.len() implies alike(#[trigger] events[k], all[k]) by {
            if k > 0 {
                assert(events[k] == events.skip(1)[k - 1]);
                assert(all[k] == rest[k - 1]);
            }
        }
    }
}

/// Events that make a document are events that the encoder takes one
/// after the other.
pub proof fn lemma_accepts_of_document(w: WriterState, events: Seq<EventView>)
    requires
        document(w, events) is Some,
    ensures
        accepts(w, events) is Some,
    decreases events.len(),
{
    if events.len() > 0 {
        let next = written(w, events[0])->Ok_0.0;
        lemma_accepts_of_document(next, events.skip(1));
    }
}

/// Events that say the same say the same with each run of text in one
/// piece.
pub proof fn lemma_joined_alike(a: Seq<EventView>, b: Seq<EventView>)
    requires
        all_alike(a, b),
    ensures
        all_alike(joined(a), joined(b)),
    decreases a.len(),
{
    if a.len() > 0 {
        let ra = a.skip(1);
        let rb = b.skip(1);
        assert forall|k: int| 0 <= k < ra.len() implies alike(#[trigger] ra[k], rb[k]) by {
            assert(ra[k] == a[k + 1] && rb[k] == b[k + 1]);
            assert(alike(a[k + 1], b[k + 1]));
        }
        lemma_joined_alike(ra, rb);
        let ja = joined(ra);
        let jb = joined(rb);
        let xa = joined(a);
        let xb = joined(b);
        assert(alike(a[0], b[0]));
        assert(xa == join_first(a[0], ja));
        assert(xb == join_first(b[0], jb));
        if ja.len() > 0 {
            assert(alike(ja[0], jb[0]));
        }
        if a[0] is Text && ja.len() > 0 && ja[0] is Text {
            assert forall|k: int| 0 <= k < xa.len() implies alike(#[trigger] xa[k], xb[k]) by {
                if k > 0 {
                    assert(xa[k] == ja[k] && xb[k] == jb[k]);
                    assert(alike(ja[k], jb[k]));
                }
            }
        } else {
            assert forall|k: int| 0 <= k < xa.len() implies alike(#[trigger] xa[k], xb[k]) by {
                if k > 0 {
                    assert(xa[k] == ja[k - 1] && xb[k] == jb[k - 1]);
                    assert(alike(ja[k - 1], jb[k - 1]));
                }
            }
        }
    }
}

/// What the parser read, written by the encoder and read again, is what
/// it was.
///
/// Let the parser read a document to its end. If the names of its events
/// fit with what the encoder adds to them, then the encoder makes a document
/// of the events, and the parser reads that document to its end too, with
/// events that say the same as the first: the same elements and attributes
/// in the same namespaces, the same values and the same text. Only the
/// prefixes may differ, and the pieces that a run of text comes in: the
/// events are the same with each run of text in one piece.
///
/// What is left out is the limit alone: the encoder writes an attribute
/// that is in a namespace with a prefix of its own, and the name of the
/// attribute with that prefix, like the names that the encoder adds, has to
/// be within the limit on the length of a name.
pub proof fn lemma_read_written_read(bytes: Seq<u8>, max: nat)
    requires
        max >= 1,
        drain(crate::laws::fed_with(feed_start(max), bytes, true)).reply is End,
        all_fit(drain(crate::laws::fed_with(feed_start(max), bytes, true)).events, max),
    ensures
        ({
            let events = drain(crate::laws::fed_with(feed_start(max), bytes, true)).events;
            let doc = document(writer_start(max), events);
            &&& doc is Some
            &&& ({
                let again = drain(
                    crate::laws::fed_with(feed_start(max), vstd::utf8::encode_utf8(doc->0), true),
                );
                again.reply is End && all_alike(joined(events), joined(again.events))
            })
        }),
{
    let events = drain(crate::laws::fed_with(feed_start(max), bytes, true)).events;
    lemma_accepted(bytes, max);
    lemma_round_trip(events, max);
    lemma_accepts_of_document(writer_start(max), events);
    lemma_read_back_alike(writer_start(max), events);
    lemma_joined_alike(events, all_read_back(writer_start(max), events));
}

} // verus!
