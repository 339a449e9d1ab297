//! The encoder: events in, a document out.
//!
//! The encoder writes each event as it comes and keeps only what it needs
//! to tell whether the next event can follow: the elements that are open
//! and where in the document it stands. It refuses an event that would make
//! a document which the parser could not read back.
//!
//! A document written by the encoder names every namespace where it is
//! used: each start tag declares the default namespace for its element, and
//! a prefix of its own for each attribute that is in a namespace. So the
//! prefixes of the events are not those of the document.
use vstd::prelude::*;
use crate::chars::{chars_are, chars_of, is_xml_char, spec_is_xml_char, string_from_chars};
use crate::lexer::LexerOptions;
use crate::namespace::{
    attributes_view,
    check_ncname,
    check_reserved,
    copy_qname,
    is_ncname,
    is_reserved,
    same_namespace,
    xml_namespace,
    QName,
    QNameView,
};
use crate::parser::{Event, EventView};

verus! {

/// Why an event cannot be written.
#[derive(Clone, Copy, Debug, PartialEq, Eq, Structural)]
pub enum EncodeError {
    /// The event cannot stand where it comes: an end without its start, a
    /// second root element, text outside the root element, a declaration
    /// that is not first.
    Misplaced,
    /// A name that is no name of XML, or a name that the document needs and
    /// that is longer than the limit.
    Name,
    /// Text or a value with a character that XML does not allow, empty
    /// text, or a value with more characters than the limit.
    Text,
    /// A namespace name that is empty or reserved, or cannot be written as
    /// a value.
    Namespace,
    /// Two attributes with the same namespace and local name.
    Duplicate,
}

/// Where the encoder stands in the document.
#[derive(Clone, Copy, Debug, PartialEq, Eq, Structural)]
pub enum Place {
    /// Nothing was written.
    Start,
    /// The XML declaration was written, the root element was not.
    Prolog,
    /// Inside the root element.
    Inside,
    /// The root element is closed.
    Done,
}

/// The state of the encoder.
pub struct WriterState {
    /// The limit on the length of a name and of a value.
    pub max: nat,
    /// The names of the open elements, the root first.
    pub stack: Seq<QNameView>,
    pub place: Place,
}

/// The encoder before the first event.
pub open spec fn writer_start(max: nat) -> WriterState {
    WriterState { max, stack: Seq::empty(), place: Place::Start }
}

/// The prefix that the attribute at index `i` of a start tag is written
/// with: `n`, `nn`, `nnn` and so on.
pub open spec fn own_prefix(i: nat) -> Seq<char> {
    Seq::new(i + 1, |j: int| 'n')
}

/// What a character of a value is written as.
pub open spec fn escaped_in_value(c: char) -> Seq<char> {
    if c == '&' {
        "&amp;"@
    } else if c == '<' {
        "&lt;"@
    } else if c == '\'' {
        "&apos;"@
    } else if c == '\t' {
        "&#9;"@
    } else if c == '\n' {
        "&#10;"@
    } else if c == '\r' {
        "&#13;"@
    } else {
        seq![c]
    }
}

/// What a character of text is written as.
pub open spec fn escaped_in_text(c: char) -> Seq<char> {
    if c == '&' {
        "&amp;"@
    } else if c == '<' {
        "&lt;"@
    } else {
        seq![c]
    }
}

/// What a value is written as, between its quotes.
pub open spec fn escaped_value(v: Seq<char>) -> Seq<char>
    decreases v.len(),
{
    if v.len() == 0 {
        Seq::empty()
    } else {
        escaped_in_value(v[0]) + escaped_value(v.skip(1))
    }
}

/// What text is written as.
pub open spec fn escaped_text(t: Seq<char>) -> Seq<char>
    decreases t.len(),
{
    if t.len() == 0 {
        Seq::empty()
    } else {
        escaped_in_text(t[0]) + escaped_text(t.skip(1))
    }
}

/// Characters that can be read back as text: one at least, and each of
/// them a character of XML. Text of any length is read back, in pieces
/// where it is longer than the limit, and text that follows text is read
/// back as one with it.
pub open spec fn text_ok(t: Seq<char>) -> bool {
    t.len() > 0 && forall|i: int| 0 <= i < t.len() ==> spec_is_xml_char(#[trigger] t[i])
}

/// Characters that can be read back as one value.
pub open spec fn value_ok(v: Seq<char>, max: nat) -> bool {
    v.len() <= max && forall|i: int| 0 <= i < v.len() ==> spec_is_xml_char(#[trigger] v[i])
}

/// A namespace name that a declaration can bind.
pub open spec fn namespace_ok(uri: Seq<char>, max: nat) -> bool {
    uri.len() > 0 && !is_reserved(uri) && value_ok(uri, max)
}

/// An attribute as it stands in a start tag: a space, the name, and the
/// value between single quotes.
pub open spec fn attribute_chars(name: Seq<char>, value: Seq<char>) -> Seq<char> {
    seq![' '] + name + "='"@ + escaped_value(value) + seq!['\'']
}

/// The name of an element in its tags. An element is written without a
/// prefix, but for one in the namespace of `xml`.
pub open spec fn element_name(q: QNameView) -> Seq<char> {
    if q.namespace == Some(xml_namespace()) {
        "xml:"@ + q.local
    } else {
        q.local
    }
}

/// The name of an element and the declaration of its namespace.
pub open spec fn element_chars(q: QNameView, max: nat) -> Result<Seq<char>, EncodeError> {
    if !is_ncname(q.local) || element_name(q).len() > max {
        Err(EncodeError::Name)
    } else {
        match q.namespace {
            None => if max < 5 {
                Err(EncodeError::Name)
            } else {
                Ok(q.local + attribute_chars("xmlns"@, Seq::empty()))
            },
            Some(uri) => if uri == xml_namespace() {
                Ok(element_name(q))
            } else if max < 5 {
                Err(EncodeError::Name)
            } else if !namespace_ok(uri, max) {
                Err(EncodeError::Namespace)
            } else {
                Ok(q.local + attribute_chars("xmlns"@, uri))
            },
        }
    }
}

/// The attribute at index `i` of a start tag, after the declaration of its
/// namespace if it has one.
pub open spec fn attribute_at(q: QNameView, value: Seq<char>, i: nat, max: nat) -> Result<
    Seq<char>,
    EncodeError,
> {
    if !is_ncname(q.local) {
        Err(EncodeError::Name)
    } else if !value_ok(value, max) {
        Err(EncodeError::Text)
    } else {
        match q.namespace {
            None => if q.local == "xmlns"@ || q.local.len() > max {
                Err(EncodeError::Name)
            } else {
                Ok(attribute_chars(q.local, value))
            },
            Some(uri) => if uri == xml_namespace() {
                if 4 + q.local.len() > max {
                    Err(EncodeError::Name)
                } else {
                    Ok(attribute_chars("xml:"@ + q.local, value))
                }
            } else if !namespace_ok(uri, max) {
                Err(EncodeError::Namespace)
            } else if i + 2 + q.local.len() > max || i + 7 > max {
                Err(EncodeError::Name)
            } else {
                Ok(
                    attribute_chars("xmlns:"@ + own_prefix(i), uri) + attribute_chars(
                        own_prefix(i) + seq![':'] + q.local,
                        value,
                    ),
                )
            },
        }
    }
}

/// The attributes of a start tag from index `i` on.
pub open spec fn attributes_chars(attrs: Seq<(QNameView, Seq<char>)>, i: nat, max: nat) -> Result<
    Seq<char>,
    EncodeError,
>
    decreases attrs.len() - i,
{
    if i >= attrs.len() {
        Ok(Seq::empty())
    } else {
        match attribute_at(attrs[i as int].0, attrs[i as int].1, i, max) {
            Err(e) => Err(e),
            Ok(first) => match attributes_chars(attrs, i + 1, max) {
                Err(e) => Err(e),
                Ok(rest) => Ok(first + rest),
            },
        }
    }
}

/// Whether two of the attributes have the same namespace and local name.
pub open spec fn has_duplicates(attrs: Seq<(QNameView, Seq<char>)>) -> bool {
    exists|i: int, j: int|
        0 <= i < j < attrs.len() && (#[trigger] attrs[i]).0.namespace == (
        #[trigger] attrs[j]).0.namespace && attrs[i].0.local == attrs[j].0.local
}

/// A start tag.
pub open spec fn start_tag(q: QNameView, attrs: Seq<(QNameView, Seq<char>)>, max: nat) -> Result<
    Seq<char>,
    EncodeError,
> {
    match element_chars(q, max) {
        Err(e) => Err(e),
        Ok(head) => match attributes_chars(attrs, 0, max) {
            Err(e) => Err(e),
            Ok(tail) => if has_duplicates(attrs) {
                Err(EncodeError::Duplicate)
            } else {
                Ok(seq!['<'] + head + tail + seq!['>'])
            },
        },
    }
}

/// An end tag.
pub open spec fn end_tag(q: QNameView) -> Seq<char> {
    "</"@ + element_name(q) + seq!['>']
}

/// Whether the name `q` closes the element that was opened as `open`: the
/// prefixes do not count.
pub open spec fn closes(open: QNameView, q: QNameView) -> bool {
    open.namespace == q.namespace && open.local == q.local
}

/// The state after the event `ev` and the characters that it is written as,
/// or why it cannot be written.
pub open spec fn written(w: WriterState, ev: EventView) -> Result<(WriterState, Seq<char>), EncodeError> {
    match ev {
        EventView::XMLDeclaration(_) => if w.place != Place::Start {
            Err(EncodeError::Misplaced)
        } else if w.max < 7 {
            Err(EncodeError::Name)
        } else {
            Ok((WriterState { place: Place::Prolog, ..w }, "<?xml version='1.0'?>"@))
        },
        EventView::StartElement(q, attrs) => if w.place == Place::Done {
            Err(EncodeError::Misplaced)
        } else {
            match start_tag(q, attrs, w.max) {
                Err(e) => Err(e),
                Ok(chars) => Ok(
                    (
                        WriterState {
                            place: Place::Inside,
                            stack: w.stack.push(q),
                            ..w
                        },
                        chars,
                    ),
                ),
            }
        },
        EventView::EndElement(q) => if w.stack.len() == 0 || !closes(w.stack.last(), q) {
            Err(EncodeError::Misplaced)
        } else {
            Ok(
                (
                    WriterState {
                        place: if w.stack.len() == 1 {
                            Place::Done
                        } else {
                            Place::Inside
                        },
                        stack: w.stack.drop_last(),
                        ..w
                    },
                    end_tag(w.stack.last()),
                ),
            )
        },
        EventView::Text(t) => if w.stack.len() == 0 {
            Err(EncodeError::Misplaced)
        } else if !text_ok(t) {
            Err(EncodeError::Text)
        } else {
            Ok((w, escaped_text(t)))
        },
    }
}

/// The document that a sequence of events is written as, from the state
/// `w` on; `None` where one of the events cannot be written or the document
/// is not complete with the last.
pub open spec fn document(w: WriterState, events: Seq<EventView>) -> Option<Seq<char>>
    decreases events.len(),
{
    if events.len() == 0 {
        if w.place == Place::Done {
            Some(Seq::empty())
        } else {
            None
        }
    } else {
        match written(w, events[0]) {
            Err(_) => None,
            Ok((next, chars)) => match document(next, events.skip(1)) {
                None => None,
                Some(rest) => Some(chars + rest),
            },
        }
    }
}

fn put(out: &mut Vec<char>, s: &str)
    ensures
        final(out)@ == old(out)@ + s@,
{
    let n = s.unicode_len();
    let mut i: usize = 0;
    assert(out@ =~= old(out)@ + s@.take(0));
    while i < n
        invariant
            i <= n,
            n == s@.len(),
            out@ == old(out)@ + s@.take(i as int),
        decreases n - i,
    {
        out.push(s.get_char(i));
        i += 1;
        assert(out@ =~= old(out)@ + s@.take(i as int));
    }
    assert(s@.take(n as int) =~= s@);
}

fn put_chars(out: &mut Vec<char>, v: &Vec<char>)
    ensures
        final(out)@ == old(out)@ + v@,
{
    let mut i: usize = 0;
    assert(out@ =~= old(out)@ + v@.take(0));
    while i < v.len()
        invariant
            i <= v.len(),
            out@ == old(out)@ + v@.take(i as int),
        decreases v.len() - i,
    {
        out.push(v[i]);
        i += 1;
        assert(out@ =~= old(out)@ + v@.take(i as int));
    }
    assert(v@.take(v.len() as int) =~= v@);
}

fn put_escaped_value(out: &mut Vec<char>, v: &Vec<char>)
    ensures
        final(out)@ == old(out)@ + escaped_value(v@),
{
    let mut k: usize = 0;
    let ghost start = out@;
    assert(out@ =~= start + escaped_value(v@.take(0)));
    while k < v.len()
        invariant
            k <= v.len(),
            start == old(out)@,
            out@ == start + escaped_value(v@.take(k as int)),
        decreases v.len() - k,
    {
        let c = v[k];
        let ghost before = out@;
        if c == '&' {
            put(out, "&amp;");
        } else if c == '<' {
            put(out, "&lt;");
        } else if c == '\'' {
            put(out, "&apos;");
        } else if c == '\t' {
            put(out, "&#9;");
        } else if c == '\n' {
            put(out, "&#10;");
        } else if c == '\r' {
            put(out, "&#13;");
        } else {
            out.push(c);
            assert(out@ =~= before + seq![c]);
        }
        proof {
            lemma_escaped_value_push(v@.take(k as int), c);
            assert(v@.take(k + 1) =~= v@.take(k as int).push(c));
            assert(out@ =~= start + (escaped_value(v@.take(k as int)) + escaped_in_value(c)));
        }
        k += 1;
    }
    assert(v@.take(v.len() as int) =~= v@);
}

fn put_escaped_text(out: &mut Vec<char>, v: &Vec<char>)
    ensures
        final(out)@ == old(out)@ + escaped_text(v@),
{
    let mut k: usize = 0;
    let ghost start = out@;
    assert(out@ =~= start + escaped_text(v@.take(0)));
    while k < v.len()
        invariant
            k <= v.len(),
            start == old(out)@,
            out@ == start + escaped_text(v@.take(k as int)),
        decreases v.len() - k,
    {
        let c = v[k];
        let ghost before = out@;
        if c == '&' {
            put(out, "&amp;");
        } else if c == '<' {
            put(out, "&lt;");
        } else {
            out.push(c);
            assert(out@ =~= before + seq![c]);
        }
        proof {
            lemma_escaped_text_push(v@.take(k as int), c);
            assert(v@.take(k + 1) =~= v@.take(k as int).push(c));
            assert(out@ =~= start + (escaped_text(v@.take(k as int)) + escaped_in_text(c)));
        }
        k += 1;
    }
    assert(v@.take(v.len() as int) =~= v@);
}

/// A value with one more character is written as the value and then the
/// character.
pub proof fn lemma_escaped_value_push(v: Seq<char>, c: char)
    ensures
        escaped_value(v.push(c)) == escaped_value(v) + escaped_in_value(c),
    decreases v.len(),
{
    assert(escaped_value(Seq::<char>::empty()) =~= Seq::<char>::empty());
    if v.len() == 0 {
        assert(v =~= Seq::<char>::empty());
        assert(v.push(c).skip(1) =~= Seq::<char>::empty());
        assert(v.push(c)[0] == c);
        assert(escaped_value(v.push(c)) =~= escaped_in_value(c) + Seq::<char>::empty());
        assert(escaped_value(v) + escaped_in_value(c) =~= escaped_in_value(c));
        assert(escaped_in_value(c) + Seq::<char>::empty() =~= escaped_in_value(c));
    } else {
        assert(v.push(c).skip(1) =~= v.skip(1).push(c));
        lemma_escaped_value_push(v.skip(1), c);
        assert((escaped_in_value(v[0]) + escaped_value(v.skip(1))) + escaped_in_value(c)
            =~= escaped_in_value(v[0]) + (escaped_value(v.skip(1)) + escaped_in_value(c)));
    }
}

/// Text with one more character is written as the text and then the
/// character.
pub proof fn lemma_escaped_text_push(t: Seq<char>, c: char)
    ensures
        escaped_text(t.push(c)) == escaped_text(t) + escaped_in_text(c),
    decreases t.len(),
{
    assert(escaped_text(Seq::<char>::empty()) =~= Seq::<char>::empty());
    if t.len() == 0 {
        assert(t =~= Seq::<char>::empty());
        assert(t.push(c).skip(1) =~= Seq::<char>::empty());
        assert(t.push(c)[0] == c);
        assert(escaped_text(t.push(c)) =~= escaped_in_text(c) + Seq::<char>::empty());
        assert(escaped_text(t) + escaped_in_text(c) =~= escaped_in_text(c));
        assert(escaped_in_text(c) + Seq::<char>::empty() =~= escaped_in_text(c));
    } else {
        assert(t.push(c).skip(1) =~= t.skip(1).push(c));
        lemma_escaped_text_push(t.skip(1), c);
        assert((escaped_in_text(t[0]) + escaped_text(t.skip(1))) + escaped_in_text(c)
            =~= escaped_in_text(t[0]) + (escaped_text(t.skip(1)) + escaped_in_text(c)));
    }
}

fn check_value(v: &Vec<char>, max: usize) -> (r: bool)
    ensures
        r == value_ok(v@, max as nat),
{
    if v.len() > max {
        return false;
    }
    let mut i: usize = 0;
    while i < v.len()
        invariant
            i <= v.len(),
            forall|j: int| 0 <= j < i ==> spec_is_xml_char(#[trigger] v@[j]),
        decreases v.len() - i,
    {
        if !is_xml_char(v[i]) {
            return false;
        }
        i += 1;
    }
    true
}

fn check_text(v: &Vec<char>) -> (r: bool)
    ensures
        r == text_ok(v@),
{
    if v.len() == 0 {
        return false;
    }
    let mut i: usize = 0;
    while i < v.len()
        invariant
            i <= v.len(),
            forall|j: int| 0 <= j < i ==> spec_is_xml_char(#[trigger] v@[j]),
        decreases v.len() - i,
    {
        if !is_xml_char(v[i]) {
            return false;
        }
        i += 1;
    }
    true
}

fn put_attribute(out: &mut Vec<char>, name: &Vec<char>, value: &Vec<char>)
    ensures
        final(out)@ == old(out)@ + attribute_chars(name@, value@),
{
    let ghost start = out@;
    out.push(' ');
    put_chars(out, name);
    put(out, "='");
    put_escaped_value(out, value);
    out.push('\'');
    assert(out@ =~= start + attribute_chars(name@, value@));
}

fn put_own_prefix(out: &mut Vec<char>, i: usize)
    requires
        i < usize::MAX,
    ensures
        final(out)@ == old(out)@ + own_prefix(i as nat),
{
    let mut k: usize = 0;
    assert(out@ =~= old(out)@ + Seq::new(0, |j: int| 'n'));
    while k <= i
        invariant
            k <= i + 1,
            i < usize::MAX,
            out@ == old(out)@ + Seq::new(k as nat, |j: int| 'n'),
        decreases i + 1 - k,
    {
        out.push('n');
        k += 1;
        assert(out@ =~= old(out)@ + Seq::new(k as nat, |j: int| 'n'));
    }
}

fn write_element(q: &QName, max: usize, out: &mut Vec<char>) -> (r: Result<(), EncodeError>)
    ensures
        match element_chars(q@, max as nat) {
            Ok(chars) => r is Ok && final(out)@ == old(out)@ + chars,
            Err(e) => r == Err::<(), EncodeError>(e),
        },
{
    let local = chars_of(&q.local);
    assert(local@.subrange(0, local@.len() as int) =~= local@);
    if !check_ncname(&local, 0, local.len()) {
        return Err(EncodeError::Name);
    }
    let ghost start = out@;
    proof {
        lemma_prefix_lengths();
    }
    match &q.namespace {
        None => {
            if local.len() > max || max < 5 {
                return Err(EncodeError::Name);
            }
            put_chars(out, &local);
            let name = chars_of_str("xmlns");
            let none: Vec<char> = Vec::new();
            assert(none@ =~= Seq::<char>::empty());
            put_attribute(out, &name, &none);
            assert(out@ =~= start + (local@ + attribute_chars("xmlns"@, Seq::empty())));
            Ok(())
        },
        Some(ns) => {
            let uri = chars_of(ns);
            if chars_are(&uri, "http://www.w3.org/XML/1998/namespace") {
                if local.len() > max || max - local.len() < 4 {
                    return Err(EncodeError::Name);
                }
                proof {
                    lemma_prefix_lengths();
                }
                put(out, "xml:");
                put_chars(out, &local);
                assert(out@ =~= start + ("xml:"@ + local@));
                Ok(())
            } else {
                if local.len() > max || max < 5 {
                    return Err(EncodeError::Name);
                }
                if uri.len() == 0 || check_reserved(&uri) || !check_value(&uri, max) {
                    return Err(EncodeError::Namespace);
                }
                put_chars(out, &local);
                let name = chars_of_str("xmlns");
                put_attribute(out, &name, &uri);
                assert(out@ =~= start + (local@ + attribute_chars("xmlns"@, uri@)));
                Ok(())
            }
        },
    }
}

/// The lengths of the literals that names are made with.
pub proof fn lemma_prefix_lengths()
    ensures
        "xml:"@.len() == 4,
        "xmlns:"@.len() == 6,
        "xmlns"@.len() == 5,
{
    reveal_strlit("xml:");
    reveal_strlit("xmlns:");
    reveal_strlit("xmlns");
}

fn chars_of_str(s: &str) -> (v: Vec<char>)
    ensures
        v@ == s@,
{
    let mut v: Vec<char> = Vec::new();
    put(&mut v, s);
    assert(v@ =~= s@);
    v
}

fn write_attribute(q: &QName, value: &String, i: usize, max: usize, out: &mut Vec<char>) -> (r:
    Result<(), EncodeError>)
    ensures
        match attribute_at(q@, value@, i as nat, max as nat) {
            Ok(chars) => r is Ok && final(out)@ == old(out)@ + chars,
            Err(e) => r == Err::<(), EncodeError>(e) && final(out)@ == old(out)@,
        },
{
    let local = chars_of(&q.local);
    assert(local@.subrange(0, local@.len() as int) =~= local@);
    if !check_ncname(&local, 0, local.len()) {
        return Err(EncodeError::Name);
    }
    let v = chars_of(value);
    if !check_value(&v, max) {
        return Err(EncodeError::Text);
    }
    let ghost start = out@;
    proof {
        lemma_prefix_lengths();
    }
    match &q.namespace {
        None => {
            if chars_are(&local, "xmlns") || local.len() > max {
                return Err(EncodeError::Name);
            }
            put_attribute(out, &local, &v);
            Ok(())
        },
        Some(ns) => {
            let uri = chars_of(ns);
            if chars_are(&uri, "http://www.w3.org/XML/1998/namespace") {
                if local.len() > max || max - local.len() < 4 {
                    return Err(EncodeError::Name);
                }
                let mut name = chars_of_str("xml:");
                put_chars(&mut name, &local);
                put_attribute(out, &name, &v);
                Ok(())
            } else {
                if uri.len() == 0 || check_reserved(&uri) || !check_value(&uri, max) {
                    return Err(EncodeError::Namespace);
                }
                if i > max || max - i < 2 || max - i - 2 < local.len() || max - i < 7 {
                    return Err(EncodeError::Name);
                }
                let mut declared = chars_of_str("xmlns:");
                put_own_prefix(&mut declared, i);
                let mut name: Vec<char> = Vec::new();
                put_own_prefix(&mut name, i);
                name.push(':');
                put_chars(&mut name, &local);
                assert(name@ =~= own_prefix(i as nat) + seq![':'] + local@);
                put_attribute(out, &declared, &uri);
                put_attribute(out, &name, &v);
                assert(out@ =~= start + (attribute_chars("xmlns:"@ + own_prefix(i as nat), uri@)
                    + attribute_chars(own_prefix(i as nat) + seq![':'] + local@, v@)));
                Ok(())
            }
        },
    }
}

fn check_duplicates(attrs: &Vec<(QName, String)>) -> (r: bool)
    ensures
        r == has_duplicates(attributes_view(attrs@)),
{
    let ghost view = attributes_view(attrs@);
    let mut j: usize = 0;
    while j < attrs.len()
        invariant
            j <= attrs.len(),
            view == attributes_view(attrs@),
            forall|a: int, b: int|
                0 <= a < b < j ==> !((#[trigger] view[a]).0.namespace == (
                #[trigger] view[b]).0.namespace && view[a].0.local == view[b].0.local),
        decreases attrs.len() - j,
    {
        let mut i: usize = 0;
        while i < j
            invariant
                i <= j < attrs.len(),
                view == attributes_view(attrs@),
                forall|a: int|
                    0 <= a < i ==> !((#[trigger] view[a]).0.namespace == view[j as int].0.namespace
                        && view[a].0.local == view[j as int].0.local),
            decreases j - i,
        {
            if same_namespace(&attrs[i].0.namespace, &attrs[j].0.namespace) && attrs[i].0.local
                == attrs[j].0.local {
                assert(view[i as int].0.namespace == view[j as int].0.namespace
                    && view[i as int].0.local == view[j as int].0.local);
                return true;
            }
            i += 1;
        }
        j += 1;
    }
    false
}

fn write_start_tag(q: &QName, attrs: &Vec<(QName, String)>, max: usize, out: &mut Vec<char>) -> (r:
    Result<(), EncodeError>)
    ensures
        match start_tag(q@, attributes_view(attrs@), max as nat) {
            Ok(chars) => r is Ok && final(out)@ == old(out)@ + chars,
            Err(e) => r == Err::<(), EncodeError>(e) && final(out)@ == old(out)@,
        },
{
    let ghost view = attributes_view(attrs@);
    let mut tag: Vec<char> = Vec::new();
    tag.push('<');
    match write_element(q, max, &mut tag) {
        Ok(()) => {},
        Err(e) => {
            return Err(e);
        },
    }
    let ghost head = tag@;
    let mut i: usize = 0;
    assert(tag@ =~= head + Seq::<char>::empty());
    let ghost mut written: Seq<char> = Seq::empty();
    while i < attrs.len()
        invariant
            i <= attrs.len(),
            view == attributes_view(attrs@),
            out@ == old(out)@,
            element_chars(q@, max as nat) is Ok,
            head == seq!['<'] + element_chars(q@, max as nat)->Ok_0,
            tag@ == head + written,
            match attributes_chars(view, i as nat, max as nat) {
                Ok(rest) => attributes_chars(view, 0, max as nat) == Ok::<Seq<char>, EncodeError>(
                    written + rest,
                ),
                Err(e) => attributes_chars(view, 0, max as nat) == Err::<Seq<char>, EncodeError>(e),
            },
        decreases attrs.len() - i,
    {
        let ghost before = tag@;
        assert(view[i as int] == (attrs@[i as int].0@, attrs@[i as int].1@));
        match write_attribute(&attrs[i].0, &attrs[i].1, i, max, &mut tag) {
            Ok(()) => {
                proof {
                    let first = attribute_at(view[i as int].0, view[i as int].1, i as nat, max as nat)->Ok_0;
                    lemma_attributes_step(view, i as nat, max as nat, written);
                    written = written + first;
                    assert(tag@ =~= head + written);
                }
            },
            Err(e) => {
                proof {
                    lemma_attributes_step(view, i as nat, max as nat, written);
                }
                return Err(e);
            },
        }
        i += 1;
    }
    assert(written + Seq::<char>::empty() =~= written);
    if check_duplicates(attrs) {
        return Err(EncodeError::Duplicate);
    }
    tag.push('>');
    put_chars(out, &tag);
    assert(tag@ =~= seq!['<'] + element_chars(q@, max as nat)->Ok_0 + written + seq!['>']);
    Ok(())
}

/// What the attributes from an index on are, given those from the next
/// index on.
pub proof fn lemma_attributes_step(
    attrs: Seq<(QNameView, Seq<char>)>,
    i: nat,
    max: nat,
    before: Seq<char>,
)
    requires
        i < attrs.len(),
        match attributes_chars(attrs, i, max) {
            Ok(rest) => attributes_chars(attrs, 0, max) == Ok::<Seq<char>, EncodeError>(
                before + rest,
            ),
            Err(e) => attributes_chars(attrs, 0, max) == Err::<Seq<char>, EncodeError>(e),
        },
    ensures
        match attribute_at(attrs[i as int].0, attrs[i as int].1, i, max) {
            Err(e) => attributes_chars(attrs, 0, max) == Err::<Seq<char>, EncodeError>(e),
            Ok(first) => match attributes_chars(attrs, i + 1, max) {
                Ok(rest) => attributes_chars(attrs, 0, max) == Ok::<Seq<char>, EncodeError>(
                    (before + first) + rest,
                ),
                Err(e) => attributes_chars(attrs, 0, max) == Err::<Seq<char>, EncodeError>(e),
            },
        },
{
    match attribute_at(attrs[i as int].0, attrs[i as int].1, i, max) {
        Ok(first) => match attributes_chars(attrs, i + 1, max) {
            Ok(rest) => {
                assert(before + (first + rest) =~= (before + first) + rest);
            },
            Err(_) => {},
        },
        Err(_) => {},
    }
}

pub closed spec fn names_view(s: Seq<QName>) -> Seq<QNameView> {
    Seq::new(s.len(), |i: int| s[i]@)
}

/// The encoder.
pub struct Encoder {
    max: usize,
    stack: Vec<QName>,
    place: Place,
}

impl View for Encoder {
    type V = WriterState;

    closed spec fn view(&self) -> WriterState {
        WriterState {
            max: self.max as nat,
            stack: names_view(self.stack@),
            place: self.place,
        }
    }
}

impl Encoder {
    /// An encoder for documents that a parser with the default options can
    /// read.
    pub fn new() -> (e: Encoder)
        ensures
            e@ == writer_start(8192),
    {
        Encoder::with_options(LexerOptions { max_token_length: 8192 })
    }

    /// An encoder for documents that a parser with these options can read.
    pub fn with_options(options: LexerOptions) -> (e: Encoder)
        ensures
            e@ == writer_start(options.max_token_length as nat),
    {
        let e = Encoder {
            max: options.max_token_length,
            stack: Vec::new(),
            place: Place::Start,
        };
        assert(e@.stack =~= Seq::<QNameView>::empty());
        e
    }

    /// Writes the event at the end of `out`. An event that cannot be
    /// written changes nothing.
    pub fn encode(&mut self, ev: &Event, out: &mut Vec<char>) -> (r: Result<(), EncodeError>)
        ensures
            match written(old(self)@, ev@) {
                Ok((w, chars)) => r is Ok && final(self)@ == w && final(out)@ == old(out)@
                    + chars,
                Err(e) => r == Err::<(), EncodeError>(e) && final(self)@ == old(self)@
                    && final(out)@ == old(out)@,
            },
    {
        match ev {
            Event::XMLDeclaration(_) => {
                match self.place {
                    Place::Start => {
                        if self.max < 7 {
                            return Err(EncodeError::Name);
                        }
                        put(out, "<?xml version='1.0'?>");
                        self.place = Place::Prolog;
                        Ok(())
                    },
                    _ => Err(EncodeError::Misplaced),
                }
            },
            Event::StartElement(q, attrs) => {
                match self.place {
                    Place::Done => {
                        return Err(EncodeError::Misplaced);
                    },
                    _ => {},
                }
                match write_start_tag(q, attrs, self.max, out) {
                    Ok(()) => {},
                    Err(e) => {
                        return Err(e);
                    },
                }
                let ghost below = names_view(self.stack@);
                self.stack.push(copy_qname(q));
                assert(names_view(self.stack@) =~= below.push(q@));
                self.place = Place::Inside;
                Ok(())
            },
            Event::EndElement(q) => {
                let n = self.stack.len();
                if n == 0 {
                    return Err(EncodeError::Misplaced);
                }
                let ghost all = names_view(self.stack@);
                assert(all.last() == self.stack@[n - 1]@);
                if !(same_namespace(&self.stack[n - 1].namespace, &q.namespace)
                    && self.stack[n - 1].local == q.local) {
                    return Err(EncodeError::Misplaced);
                }
                let top = match self.stack.pop() {
                    Some(top) => top,
                    None => {
                        return Err(EncodeError::Misplaced);
                    },
                };
                assert(names_view(self.stack@) =~= all.drop_last());
                let ghost start = out@;
                put(out, "</");
                proof {
                    lemma_prefix_lengths();
                }
                match &top.namespace {
                    Some(ns) => {
                        let uri = chars_of(ns);
                        if chars_are(&uri, "http://www.w3.org/XML/1998/namespace") {
                            put(out, "xml:");
                        }
                    },
                    None => {},
                }
                let local = chars_of(&top.local);
                put_chars(out, &local);
                out.push('>');
                assert(out@ =~= start + end_tag(top@));
                self.place = if n == 1 {
                    Place::Done
                } else {
                    Place::Inside
                };
                Ok(())
            },
            Event::Text(t) => {
                if self.stack.len() == 0 {
                    return Err(EncodeError::Misplaced);
                }
                let chars = chars_of(t);
                if !check_text(&chars) {
                    return Err(EncodeError::Text);
                }
                put_escaped_text(out, &chars);
                Ok(())
            },
        }
    }

    /// Whether the document is complete: the root element is closed.
    pub fn is_complete(&self) -> (r: bool)
        ensures
            r == (self@.place == Place::Done),
    {
        matches!(self.place, Place::Done)
    }
}

/// The bytes of a document: its characters in UTF-8.
pub fn to_utf8(chars: &Vec<char>) -> (bytes: Vec<u8>)
    ensures
        bytes@ == vstd::utf8::encode_utf8(chars@),
{
    let s = string_from_chars(chars);
    s.as_str().as_bytes_vec()
}

} // verus!
