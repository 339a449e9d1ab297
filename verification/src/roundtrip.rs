//! What the encoder writes, the parser reads back.
//!
//! The document that the encoder makes of a sequence of events gives, when
//! it is parsed, the same events: the same names in the same namespaces,
//! the same attributes in the same order with the same values, the same
//! text. Only the prefixes are those that the encoder chose, and a run of
//! text comes in the pieces that the limit of the lexer cuts it into,
//! whatever the events were that it was written from: the events are the
//! same with each run of text in one piece ([`joined`]).
use vstd::prelude::*;
use vstd::utf8::encode_utf8;
use crate::chars::{spec_is_name_char, spec_is_name_start, spec_is_xml_char};
use crate::error::Fatal;
use crate::laws::{drain, fed_with};
use crate::lexer::{
    lemma_lex_progress,
    lex_char,
    lex_end,
    lex_next,
    lex_start,
    LexState,
    Mode,
    Reply,
    Tag,
    TokenView,
};
use crate::namespace::{
    attributes_of,
    bound,
    colon_at,
    declares_prefix,
    default_namespace,
    has_qname,
    is_declaration,
    is_ncname,
    qname_of,
    scope_of,
    scope_with,
    xml_namespace,
    xmlns_namespace,
    Binding,
    QNameView,
};
use crate::parser::{
    begun,
    closed,
    declared,
    has_attr,
    opened,
    par_start,
    par_to,
    parse_next,
    parse_token,
    DeclStep,
    EventView,
    Open,
    ParState,
    ParseNext,
    Phase,
    XMLVersion,
};
use crate::relex::{
    idle,
    is_name,
    lemma_declaration_start,
    lemma_declaration_value,
    lemma_encode_append,
    lemma_lex_quiet_bytes,
    lemma_lex_token_bytes,
    lemma_quiet_attribute_name,
    lemma_quiet_element_name,
    lemma_lex_quiet_append,
    lemma_quiet_escaped_value,
    lemma_quiet_first,
    lemma_quiet_one,
    lemma_tag_tokens,
    lex_quiet,
    steady,
};
use crate::writer::{
    attribute_at,
    attribute_chars,
    attributes_chars,
    document,
    element_chars,
    element_name,
    escaped_text,
    escaped_value,
    has_duplicates,
    own_prefix,
    start_tag,
    value_ok,
    writer_start,
    written,
    Place,
    WriterState,
};
use crate::{feed_start, read_next, FeedState};

verus! {

/// The characters of the literals that names are made and told apart with.
pub proof fn lemma_literals()
    ensures
        "xmlns"@ == seq!['x', 'm', 'l', 'n', 's'],
        "xml"@ == seq!['x', 'm', 'l'],
        "xml:"@ == seq!['x', 'm', 'l', ':'],
        "xmlns:"@ == seq!['x', 'm', 'l', 'n', 's', ':'],
        xml_namespace().len() == 36,
        xmlns_namespace().len() == 29,
{
    reveal_strlit("xmlns");
    reveal_strlit("xml");
    reveal_strlit("xml:");
    reveal_strlit("xmlns:");
    reveal_strlit("http://www.w3.org/XML/1998/namespace");
    reveal_strlit("http://www.w3.org/2000/xmlns/");
    assert("xmlns"@ =~= seq!['x', 'm', 'l', 'n', 's']);
    assert("xml"@ =~= seq!['x', 'm', 'l']);
    assert("xml:"@ =~= seq!['x', 'm', 'l', ':']);
    assert("xmlns:"@ =~= seq!['x', 'm', 'l', 'n', 's', ':']);
}

/// The name that the element `q` is read back with.
pub open spec fn element_read(q: QNameView) -> QNameView {
    QNameView {
        namespace: q.namespace,
        prefix: if q.namespace == Some(xml_namespace()) {
            Some("xml"@)
        } else {
            None
        },
        local: q.local,
    }
}

/// The name that the attribute `q` at index `i` of a start tag is read back
/// with.
pub open spec fn attribute_read(q: QNameView, i: nat) -> QNameView {
    QNameView {
        namespace: q.namespace,
        prefix: match q.namespace {
            None => None,
            Some(uri) => if uri == xml_namespace() {
                Some("xml"@)
            } else {
                Some(own_prefix(i))
            },
        },
        local: q.local,
    }
}

/// The attributes that `attrs` are read back as.
pub open spec fn attributes_read(attrs: Seq<(QNameView, Seq<char>)>) -> Seq<(QNameView, Seq<char>)> {
    Seq::new(attrs.len(), |i: int| (attribute_read(attrs[i].0, i as nat), attrs[i].1))
}

/// The attribute of a start tag that declares the namespace of its
/// element; none for an element in the namespace of `xml`.
pub open spec fn element_pairs(q: QNameView) -> Seq<(Seq<char>, Seq<char>)> {
    match q.namespace {
        None => seq![("xmlns"@, Seq::<char>::empty())],
        Some(uri) => if uri == xml_namespace() {
            Seq::empty()
        } else {
            seq![("xmlns"@, uri)]
        },
    }
}

/// The name that the attribute `q` at index `i` has in its tag.
pub open spec fn attribute_name(q: QNameView, i: nat) -> Seq<char> {
    match q.namespace {
        None => q.local,
        Some(uri) => if uri == xml_namespace() {
            "xml:"@ + q.local
        } else {
            own_prefix(i) + seq![':'] + q.local
        },
    }
}

/// The attributes of a start tag that the attribute `q` at index `i` is
/// written as: itself, after the declaration of its namespace if it has
/// one.
pub open spec fn attribute_pairs(q: QNameView, value: Seq<char>, i: nat) -> Seq<
    (Seq<char>, Seq<char>),
> {
    match q.namespace {
        None => seq![(attribute_name(q, i), value)],
        Some(uri) => if uri == xml_namespace() {
            seq![(attribute_name(q, i), value)]
        } else {
            seq![("xmlns:"@ + own_prefix(i), uri), (attribute_name(q, i), value)]
        },
    }
}

/// The attributes of a start tag that the attributes from index `i` on
/// are written as.
pub open spec fn attributes_pairs(attrs: Seq<(QNameView, Seq<char>)>, i: nat) -> Seq<
    (Seq<char>, Seq<char>),
>
    decreases attrs.len() - i,
{
    if i >= attrs.len() {
        Seq::empty()
    } else {
        attribute_pairs(attrs[i as int].0, attrs[i as int].1, i) + attributes_pairs(attrs, i + 1)
    }
}

/// All the attributes of a start tag as it is written.
pub open spec fn tag_pairs(q: QNameView, attrs: Seq<(QNameView, Seq<char>)>) -> Seq<
    (Seq<char>, Seq<char>),
> {
    element_pairs(q) + attributes_pairs(attrs, 0)
}

/// The characters of the attributes `pairs`.
pub open spec fn pairs_chars(pairs: Seq<(Seq<char>, Seq<char>)>) -> Seq<char>
    decreases pairs.len(),
{
    if pairs.len() == 0 {
        Seq::empty()
    } else {
        attribute_chars(pairs[0].0, pairs[0].1) + pairs_chars(pairs.skip(1))
    }
}

/// The characters of two runs of attributes are those of the first and
/// then those of the second.
pub proof fn lemma_pairs_chars_append(
    a: Seq<(Seq<char>, Seq<char>)>,
    b: Seq<(Seq<char>, Seq<char>)>,
)
    ensures
        pairs_chars(a + b) == pairs_chars(a) + pairs_chars(b),
    decreases a.len(),
{
    if a.len() == 0 {
        assert(a + b =~= b);
        assert(pairs_chars(a) + pairs_chars(b) =~= pairs_chars(b));
    } else {
        assert((a + b)[0] == a[0]);
        assert((a + b).skip(1) =~= a.skip(1) + b);
        lemma_pairs_chars_append(a.skip(1), b);
        assert((attribute_chars(a[0].0, a[0].1) + pairs_chars(a.skip(1))) + pairs_chars(b)
            =~= attribute_chars(a[0].0, a[0].1) + (pairs_chars(a.skip(1)) + pairs_chars(b)));
    }
}

/// The characters of one attribute, or of two.
pub proof fn lemma_pairs_chars_small(a: (Seq<char>, Seq<char>), b: (Seq<char>, Seq<char>))
    ensures
        pairs_chars(Seq::empty()) == Seq::<char>::empty(),
        pairs_chars(seq![a]) == attribute_chars(a.0, a.1),
        pairs_chars(seq![a, b]) == attribute_chars(a.0, a.1) + attribute_chars(b.0, b.1),
{
    assert(pairs_chars(Seq::empty()) =~= Seq::<char>::empty());
    assert(seq![a].skip(1) =~= Seq::<(Seq<char>, Seq<char>)>::empty());
    assert(pairs_chars(seq![a]) =~= attribute_chars(a.0, a.1));
    assert(seq![a, b].skip(1) =~= seq![b]);
    assert(seq![b].skip(1) =~= Seq::<(Seq<char>, Seq<char>)>::empty());
    assert(pairs_chars(seq![b]) =~= attribute_chars(b.0, b.1));
}

/// The attributes of a start tag are written as the characters of
/// [`attributes_pairs`].
pub proof fn lemma_attributes_are_pairs(attrs: Seq<(QNameView, Seq<char>)>, i: nat, max: nat)
    ensures
        attributes_chars(attrs, i, max) matches Ok(chars) ==> chars == pairs_chars(
            attributes_pairs(attrs, i),
        ),
    decreases attrs.len() - i,
{
    if i < attrs.len() {
        let q = attrs[i as int].0;
        let v = attrs[i as int].1;
        lemma_attributes_are_pairs(attrs, i + 1, max);
        match attribute_at(q, v, i, max) {
            Ok(first) => {
                let pairs = attribute_pairs(q, v, i);
                if pairs.len() == 1 {
                    lemma_pairs_chars_small(pairs[0], pairs[0]);
                    assert(pairs =~= seq![pairs[0]]);
                } else {
                    lemma_pairs_chars_small(pairs[0], pairs[1]);
                    assert(pairs =~= seq![pairs[0], pairs[1]]);
                }
                lemma_pairs_chars_append(pairs, attributes_pairs(attrs, i + 1));
            },
            Err(_) => {},
        }
    } else {
        assert(pairs_chars(Seq::empty()) =~= Seq::<char>::empty());
    }
}

/// A start tag is `<`, the name of the element, the characters of
/// [`tag_pairs`] and `>`.
pub proof fn lemma_start_tag_is_pairs(q: QNameView, attrs: Seq<(QNameView, Seq<char>)>, max: nat)
    ensures
        start_tag(q, attrs, max) matches Ok(chars) ==> chars == seq!['<'] + element_name(q)
            + pairs_chars(tag_pairs(q, attrs)) + seq!['>'],
{
    lemma_literals();
    lemma_attributes_are_pairs(attrs, 0, max);
    match start_tag(q, attrs, max) {
        Ok(chars) => {
            let head = element_chars(q, max)->Ok_0;
            let tail = attributes_chars(attrs, 0, max)->Ok_0;
            let e = element_pairs(q);
            lemma_pairs_chars_append(e, attributes_pairs(attrs, 0));
            if e.len() == 1 {
                lemma_pairs_chars_small(e[0], e[0]);
                assert(e =~= seq![e[0]]);
            } else {
                assert(pairs_chars(e) =~= Seq::<char>::empty());
            }
            assert(head =~= element_name(q) + pairs_chars(e));
            assert(chars =~= seq!['<'] + element_name(q) + pairs_chars(tag_pairs(q, attrs)) + seq![
                '>',
            ]);
        },
        Err(_) => {},
    }
}

/// The prefixes that the encoder chooses are names, differ from the
/// reserved prefixes and from each other, and hold no colon.
pub proof fn lemma_own_prefix(i: nat, j: nat)
    ensures
        own_prefix(i).len() == i + 1,
        is_ncname(own_prefix(i)),
        own_prefix(i) != "xml"@,
        own_prefix(i) != "xmlns"@,
        own_prefix(i) != Seq::<char>::empty(),
        own_prefix(i) == own_prefix(j) ==> i == j,
        forall|k: int| 0 <= k < own_prefix(i).len() ==> own_prefix(i)[k] == 'n',
{
    lemma_literals();
    let p = own_prefix(i);
    assert(spec_is_name_start('n'));
    assert(spec_is_name_char('n'));
    assert(p[0] == 'n');
    assert("xml"@[0] == 'x');
    assert("xmlns"@[0] == 'x');
    if own_prefix(i) == own_prefix(j) {
        assert(own_prefix(i).len() == own_prefix(j).len());
    }
}

/// Where the first colon of a name is, given that it is there and no colon
/// is before it.
pub proof fn lemma_colon_at(s: Seq<char>, from: int, at: int)
    requires
        0 <= from <= at <= s.len(),
        forall|k: int| from <= k < at ==> s[k] != ':',
        at < s.len() ==> s[at] == ':',
    ensures
        colon_at(s, from) == at,
    decreases at - from,
{
    if from < at {
        lemma_colon_at(s, from + 1, at);
    }
}

/// A name without a prefix means what it says, in the default namespace if
/// it is the name of an element and in no namespace if it is the name of an
/// attribute.
pub proof fn lemma_qname_plain(scope: Seq<Binding>, local: Seq<char>, attr: bool)
    requires
        is_ncname(local),
    ensures
        qname_of(scope, local, attr) == Ok::<QNameView, Fatal>(
            QNameView {
                namespace: if attr {
                    None
                } else {
                    default_namespace(scope)
                },
                prefix: None,
                local,
            },
        ),
{
    lemma_colon_at(local, 0, local.len() as int);
}

/// A name with the prefix `xml` is in the namespace of `xml`.
pub proof fn lemma_qname_xml(scope: Seq<Binding>, local: Seq<char>, attr: bool)
    requires
        is_ncname(local),
    ensures
        qname_of(scope, "xml:"@ + local, attr) == Ok::<QNameView, Fatal>(
            QNameView { namespace: Some(xml_namespace()), prefix: Some("xml"@), local },
        ),
{
    lemma_literals();
    let name = "xml:"@ + local;
    assert(name[3] == ':');
    lemma_colon_at(name, 0, 3);
    assert(name.take(3) =~= "xml"@);
    assert(name.skip(4) =~= local);
    assert(spec_is_name_start('x') && spec_is_name_char('x') && spec_is_name_char('m')
        && spec_is_name_char('l'));
    assert(is_ncname("xml"@));
    assert("xml"@.len() != "xmlns"@.len());
}

/// A name with a prefix that the encoder chose is in the namespace that
/// the prefix is bound to.
pub proof fn lemma_qname_own(scope: Seq<Binding>, i: nat, local: Seq<char>, uri: Seq<char>)
    requires
        is_ncname(local),
        bound(scope, own_prefix(i)) == Some(uri),
    ensures
        qname_of(scope, own_prefix(i) + seq![':'] + local, true) == Ok::<QNameView, Fatal>(
            QNameView { namespace: Some(uri), prefix: Some(own_prefix(i)), local },
        ),
{
    lemma_own_prefix(i, i);
    let p = own_prefix(i);
    let name = p + seq![':'] + local;
    let at = i as int + 1;
    assert(name[at] == ':');
    assert forall|k: int| 0 <= k < at implies name[k] != ':' by {
        assert(name[k] == p[k]);
    }
    lemma_colon_at(name, 0, at);
    assert(name.take(at) =~= p);
    assert(name.skip(at + 1) =~= local);
}

/// What the names of a written tag are not: declarations, unless they are
/// meant to be.
pub proof fn lemma_declarations(q: QNameView, i: nat)
    requires
        is_ncname(q.local),
        q.namespace is None ==> q.local != "xmlns"@,
    ensures
        !is_declaration(attribute_name(q, i)),
        is_declaration("xmlns"@),
        is_declaration("xmlns:"@ + own_prefix(i)),
        ("xmlns:"@ + own_prefix(i)).skip(6) == own_prefix(i),
        "xmlns:"@ + own_prefix(i) != "xmlns"@,
        declares_prefix("xmlns:"@ + own_prefix(i)),
{
    lemma_literals();
    lemma_own_prefix(i, i);
    let name = attribute_name(q, i);
    let decl = "xmlns:"@ + own_prefix(i);
    assert(decl.skip(6) =~= own_prefix(i));
    assert(decl.len() == 7 + i);
    match q.namespace {
        None => {
            if declares_prefix(name) {
                assert(name[5] == ':');
            }
        },
        Some(uri) => {
            if uri == xml_namespace() {
                assert(name[3] == ':');
            } else {
                assert(name[0] == own_prefix(i)[0]);
            }
        },
    }
}

/// Every attribute from index `i` on can be written.
pub open spec fn attributes_ok(attrs: Seq<(QNameView, Seq<char>)>, i: nat, max: nat) -> bool {
    forall|k: int|
        i <= k < attrs.len() ==> attribute_at(
            (#[trigger] attrs[k]).0,
            attrs[k].1,
            k as nat,
            max,
        ) is Ok
}

/// Attributes that were written could be written, each of them.
pub proof fn lemma_attributes_ok(attrs: Seq<(QNameView, Seq<char>)>, i: nat, max: nat)
    requires
        attributes_chars(attrs, i, max) is Ok,
    ensures
        attributes_ok(attrs, i, max),
    decreases attrs.len() - i,
{
    if i < attrs.len() {
        lemma_attributes_ok(attrs, i + 1, max);
    }
}

/// The declaration that a start tag makes for its element.
pub open spec fn element_bindings(q: QNameView) -> Seq<Binding> {
    match q.namespace {
        None => seq![Binding { prefix: Seq::empty(), uri: Seq::empty() }],
        Some(uri) => if uri == xml_namespace() {
            Seq::empty()
        } else {
            seq![Binding { prefix: Seq::empty(), uri }]
        },
    }
}

/// The declaration that a start tag makes for its attribute at index `i`.
pub open spec fn attribute_bindings(q: QNameView, i: nat) -> Seq<Binding> {
    match q.namespace {
        None => Seq::empty(),
        Some(uri) => if uri == xml_namespace() {
            Seq::empty()
        } else {
            seq![Binding { prefix: own_prefix(i), uri }]
        },
    }
}

/// The declarations that a start tag makes for its attributes from index
/// `i` on.
pub open spec fn attributes_bindings(attrs: Seq<(QNameView, Seq<char>)>, i: nat) -> Seq<Binding>
    decreases attrs.len() - i,
{
    if i >= attrs.len() {
        Seq::empty()
    } else {
        attribute_bindings(attrs[i as int].0, i) + attributes_bindings(attrs, i + 1)
    }
}

/// The declarations that a start tag makes.
pub open spec fn tag_bindings(q: QNameView, attrs: Seq<(QNameView, Seq<char>)>) -> Seq<Binding> {
    element_bindings(q) + attributes_bindings(attrs, 0)
}

/// The declarations of two runs of attributes are those of the first,
/// and then, with these in scope, those of the second.
pub proof fn lemma_scope_of_append(
    b: Seq<Binding>,
    x: Seq<(Seq<char>, Seq<char>)>,
    y: Seq<(Seq<char>, Seq<char>)>,
)
    ensures
        scope_of(b, x + y) == (match scope_of(b, x) {
            Ok(m) => scope_of(m, y),
            Err(f) => Err(f),
        }),
    decreases x.len(),
{
    if x.len() == 0 {
        assert(x + y =~= y);
    } else {
        assert((x + y)[0] == x[0]);
        assert((x + y).skip(1) =~= x.skip(1) + y);
        match scope_with(b, x[0].0, x[0].1) {
            Ok(next) => {
                lemma_scope_of_append(next, x.skip(1), y);
            },
            Err(_) => {},
        }
    }
}

/// The declarations of one attribute, and of two.
pub proof fn lemma_scope_of_small(
    b: Seq<Binding>,
    x: (Seq<char>, Seq<char>),
    y: (Seq<char>, Seq<char>),
)
    ensures
        scope_of(b, Seq::empty()) == Ok::<Seq<Binding>, Fatal>(b),
        scope_of(b, seq![x]) == scope_with(b, x.0, x.1),
        scope_of(b, seq![x, y]) == (match scope_with(b, x.0, x.1) {
            Ok(m) => scope_with(m, y.0, y.1),
            Err(f) => Err(f),
        }),
{
    assert(seq![x].skip(1) =~= Seq::<(Seq<char>, Seq<char>)>::empty());
    assert(seq![x, y].skip(1) =~= seq![y]);
    assert(seq![y].skip(1) =~= Seq::<(Seq<char>, Seq<char>)>::empty());
    match scope_with(b, x.0, x.1) {
        Ok(m) => {
            assert(scope_of(m, Seq::empty()) == Ok::<Seq<Binding>, Fatal>(m));
            match scope_with(m, y.0, y.1) {
                Ok(n) => {
                    assert(scope_of(n, Seq::empty()) == Ok::<Seq<Binding>, Fatal>(n));
                },
                Err(_) => {},
            }
            assert(scope_of(m, seq![y]) == scope_with(m, y.0, y.1));
        },
        Err(_) => {},
    }
}

/// The attributes that one attribute is written as declare what
/// [`attribute_bindings`] says.
pub proof fn lemma_scope_of_attribute(
    b: Seq<Binding>,
    q: QNameView,
    value: Seq<char>,
    i: nat,
    max: nat,
)
    requires
        attribute_at(q, value, i, max) is Ok,
    ensures
        scope_of(b, attribute_pairs(q, value, i)) == Ok::<Seq<Binding>, Fatal>(
            b + attribute_bindings(q, i),
        ),
{
    lemma_literals();
    lemma_own_prefix(i, i);
    lemma_declarations(q, i);
    let pairs = attribute_pairs(q, value, i);
    let name = attribute_name(q, i);
    lemma_scope_of_small(b, pairs[0], pairs[0]);
    assert(b + Seq::<Binding>::empty() =~= b);
    match q.namespace {
        None => {
            assert(pairs =~= seq![pairs[0]]);
        },
        Some(uri) => {
            if uri == xml_namespace() {
                assert(pairs =~= seq![pairs[0]]);
            } else {
                lemma_scope_of_small(b, pairs[0], pairs[1]);
                assert(pairs =~= seq![pairs[0], pairs[1]]);
                let m = b.push(Binding { prefix: own_prefix(i), uri });
                assert(m =~= b + attribute_bindings(q, i));
                assert(scope_with(b, pairs[0].0, pairs[0].1) == Ok::<Seq<Binding>, Fatal>(m));
            }
        },
    }
}

/// The attributes that the attributes from index `i` on are written as
/// declare what [`attributes_bindings`] says.
pub proof fn lemma_scope_of_attributes(
    b: Seq<Binding>,
    attrs: Seq<(QNameView, Seq<char>)>,
    i: nat,
    max: nat,
)
    requires
        attributes_ok(attrs, i, max),
    ensures
        scope_of(b, attributes_pairs(attrs, i)) == Ok::<Seq<Binding>, Fatal>(
            b + attributes_bindings(attrs, i),
        ),
    decreases attrs.len() - i,
{
    if i >= attrs.len() {
        assert(b + Seq::<Binding>::empty() =~= b);
    } else {
        let q = attrs[i as int].0;
        let v = attrs[i as int].1;
        let first = attribute_pairs(q, v, i);
        let m = b + attribute_bindings(q, i);
        lemma_scope_of_attribute(b, q, v, i, max);
        lemma_scope_of_append(b, first, attributes_pairs(attrs, i + 1));
        lemma_scope_of_attributes(m, attrs, i + 1, max);
        assert(m + attributes_bindings(attrs, i + 1) =~= b + (attribute_bindings(q, i)
            + attributes_bindings(attrs, i + 1)));
    }
}

/// The declarations of the attributes reach no prefix but those that the
/// encoder chose for them.
pub proof fn lemma_bound_other(
    pre: Seq<Binding>,
    attrs: Seq<(QNameView, Seq<char>)>,
    i: nat,
    p: Seq<char>,
)
    requires
        forall|j: nat| i <= j < attrs.len() ==> p != #[trigger] own_prefix(j),
    ensures
        bound(pre + attributes_bindings(attrs, i), p) == bound(pre, p),
    decreases attrs.len() - i,
{
    if i >= attrs.len() {
        assert(pre + Seq::<Binding>::empty() =~= pre);
    } else {
        let q = attrs[i as int].0;
        let first = attribute_bindings(q, i);
        let rest = attributes_bindings(attrs, i + 1);
        assert(pre + (first + rest) =~= (pre + first) + rest);
        lemma_bound_other(pre + first, attrs, i + 1, p);
        assert(p != own_prefix(i));
        if first.len() == 0 {
            assert(pre + first =~= pre);
        } else {
            assert(pre + first =~= pre.push(first[0]));
            crate::laws::lemma_innermost_binding(pre, first[0].prefix, first[0].uri, p);
        }
    }
}

/// With the declarations of the attributes in scope, the prefix that the
/// encoder chose for an attribute means the namespace of that attribute.
pub proof fn lemma_bound_own(
    pre: Seq<Binding>,
    attrs: Seq<(QNameView, Seq<char>)>,
    i: nat,
    k: nat,
)
    requires
        i <= k < attrs.len(),
        attrs[k as int].0.namespace is Some,
        attrs[k as int].0.namespace != Some(xml_namespace()),
    ensures
        bound(pre + attributes_bindings(attrs, i), own_prefix(k)) == attrs[k as int].0.namespace,
    decreases attrs.len() - i,
{
    let q = attrs[i as int].0;
    let first = attribute_bindings(q, i);
    let rest = attributes_bindings(attrs, i + 1);
    assert(pre + (first + rest) =~= (pre + first) + rest);
    if i < k {
        lemma_bound_own(pre + first, attrs, i + 1, k);
    } else {
        assert forall|j: nat| i + 1 <= j < attrs.len() implies own_prefix(k) != #[trigger] own_prefix(
            j,
        ) by {
            lemma_own_prefix(k, j);
        }
        lemma_bound_other(pre + first, attrs, i + 1, own_prefix(k));
        let uri = q.namespace->0;
        assert(first =~= seq![Binding { prefix: own_prefix(i), uri }]);
        assert(pre + first =~= pre.push(first[0]));
        crate::laws::lemma_innermost_binding(pre, own_prefix(i), uri, own_prefix(i));
    }
}

/// The attributes of two runs are resolved as those of the first and
/// then, after them, those of the second.
pub proof fn lemma_attributes_of_append(
    b: Seq<Binding>,
    x: Seq<(Seq<char>, Seq<char>)>,
    y: Seq<(Seq<char>, Seq<char>)>,
    done: Seq<(QNameView, Seq<char>)>,
)
    ensures
        attributes_of(b, x + y, done) == (match attributes_of(b, x, done) {
            Ok(m) => attributes_of(b, y, m),
            Err(f) => Err(f),
        }),
    decreases x.len(),
{
    if x.len() == 0 {
        assert(x + y =~= y);
    } else {
        assert((x + y)[0] == x[0]);
        assert((x + y).skip(1) =~= x.skip(1) + y);
        if is_declaration(x[0].0) {
            lemma_attributes_of_append(b, x.skip(1), y, done);
        } else {
            match qname_of(b, x[0].0, true) {
                Ok(q) => {
                    if !has_qname(done, q) {
                        lemma_attributes_of_append(b, x.skip(1), y, done.push((q, x[0].1)));
                    }
                },
                Err(_) => {},
            }
        }
    }
}

/// The declarations in `scope` give every prefix that the encoder chose
/// for an attribute the namespace of that attribute.
pub open spec fn resolves(scope: Seq<Binding>, attrs: Seq<(QNameView, Seq<char>)>) -> bool {
    forall|k: int|
        0 <= k < attrs.len() && (#[trigger] attrs[k]).0.namespace is Some && attrs[k].0.namespace
            != Some(xml_namespace()) ==> bound(scope, own_prefix(k as nat))
            == attrs[k].0.namespace
}

/// The name of a written attribute is resolved to the name that the
/// attribute is read back with.
pub proof fn lemma_attribute_resolved(
    scope: Seq<Binding>,
    attrs: Seq<(QNameView, Seq<char>)>,
    i: nat,
    max: nat,
)
    requires
        i < attrs.len(),
        attributes_ok(attrs, 0, max),
        resolves(scope, attrs),
    ensures
        qname_of(scope, attribute_name(attrs[i as int].0, i), true) == Ok::<QNameView, Fatal>(
            attribute_read(attrs[i as int].0, i),
        ),
{
    let q = attrs[i as int].0;
    assert(attribute_at(q, attrs[i as int].1, i, max) is Ok);
    match q.namespace {
        None => {
            lemma_qname_plain(scope, q.local, true);
        },
        Some(uri) => {
            if uri == xml_namespace() {
                lemma_qname_xml(scope, q.local, true);
            } else {
                lemma_qname_own(scope, i, q.local, uri);
            }
        },
    }
}

/// The attributes that one attribute is written as are resolved to that
/// attribute, after those that were resolved before it.
pub proof fn lemma_attribute_pairs_resolved(
    scope: Seq<Binding>,
    q: QNameView,
    value: Seq<char>,
    i: nat,
    done: Seq<(QNameView, Seq<char>)>,
)
    requires
        is_ncname(q.local),
        q.namespace is None ==> q.local != "xmlns"@,
        qname_of(scope, attribute_name(q, i), true) == Ok::<QNameView, Fatal>(attribute_read(q, i)),
        !has_qname(done, attribute_read(q, i)),
    ensures
        attributes_of(scope, attribute_pairs(q, value, i), done) == Ok::<
            Seq<(QNameView, Seq<char>)>,
            Fatal,
        >(done.push((attribute_read(q, i), value))),
{
    lemma_declarations(q, i);
    let name = attribute_name(q, i);
    let read = attribute_read(q, i);
    let first = attribute_pairs(q, value, i);
    let next = done.push((read, value));
    let none = Seq::<(Seq<char>, Seq<char>)>::empty();
    let last = (name, value);
    assert(attributes_of(scope, none, next) == Ok::<Seq<(QNameView, Seq<char>)>, Fatal>(next));
    assert(seq![last].skip(1) =~= none);
    assert(seq![last][0] == last);
    assert(attributes_of(scope, seq![last], done) == Ok::<Seq<(QNameView, Seq<char>)>, Fatal>(
        next,
    ));
    if first.len() == 1 {
        assert(first =~= seq![last]);
    } else {
        assert(first =~= seq![first[0], last]);
        assert(first.skip(1) =~= seq![last]);
        assert(is_declaration(first[0].0));
    }
}

/// No attribute before the attribute at index `i` is read back with its
/// namespace and local name.
pub proof fn lemma_not_read_before(attrs: Seq<(QNameView, Seq<char>)>, i: nat)
    requires
        i < attrs.len(),
        !has_duplicates(attrs),
    ensures
        !has_qname(attributes_read(attrs).take(i as int), attribute_read(attrs[i as int].0, i)),
{
    let all = attributes_read(attrs);
    let done = all.take(i as int);
    let read = attribute_read(attrs[i as int].0, i);
    if has_qname(done, read) {
        let j = choose|j: int|
            0 <= j < done.len() && (#[trigger] done[j]).0.namespace == read.namespace
                && done[j].0.local == read.local;
        assert(done[j] == all[j]);
        assert(attrs[j].0.namespace == attrs[i as int].0.namespace && attrs[j].0.local
            == attrs[i as int].0.local);
    }
}

/// The attributes that a start tag is written with are resolved to the
/// attributes that it is read back with.
pub proof fn lemma_attributes_resolved(
    scope: Seq<Binding>,
    attrs: Seq<(QNameView, Seq<char>)>,
    i: nat,
    max: nat,
)
    requires
        i <= attrs.len(),
        attributes_ok(attrs, 0, max),
        !has_duplicates(attrs),
        resolves(scope, attrs),
    ensures
        attributes_of(scope, attributes_pairs(attrs, i), attributes_read(attrs).take(i as int))
            == Ok::<Seq<(QNameView, Seq<char>)>, Fatal>(attributes_read(attrs)),
    decreases attrs.len() - i,
{
    let all = attributes_read(attrs);
    let done = all.take(i as int);
    if i >= attrs.len() {
        assert(done =~= all);
    } else {
        let q = attrs[i as int].0;
        let v = attrs[i as int].1;
        let read = attribute_read(q, i);
        let first = attribute_pairs(q, v, i);
        let rest = attributes_pairs(attrs, i + 1);
        assert(attribute_at(q, v, i, max) is Ok);
        lemma_attribute_resolved(scope, attrs, i, max);
        lemma_not_read_before(attrs, i);
        lemma_attribute_pairs_resolved(scope, q, v, i, done);
        lemma_attributes_of_append(scope, first, rest, done);
        lemma_attributes_resolved(scope, attrs, i + 1, max);
        assert(done.push((read, v)) =~= all.take(i as int + 1));
    }
}

/// What a written start tag makes of the parser: the element is open
/// under the name that it is read back with, and the event of the start tag
/// is that of the tag that was written, with the prefixes of the encoder.
pub proof fn lemma_opened(p: ParState, q: QNameView, attrs: Seq<(QNameView, Seq<char>)>, max: nat)
    requires
        start_tag(q, attrs, max) is Ok,
        p.name == element_name(q),
        p.attrs == tag_pairs(q, attrs),
    ensures
        opened(p, false) == (ParState {
            phase: Phase::Content,
            stack: p.stack.push(
                Open { name: element_name(q), qname: element_read(q), base: p.bindings.len() },
            ),
            bindings: p.bindings + tag_bindings(q, attrs),
            name: Seq::empty(),
            attrs: Seq::empty(),
            queue: p.queue.push(EventView::StartElement(element_read(q), attributes_read(attrs))),
            ..p
        }),
{
    lemma_literals();
    lemma_attributes_ok(attrs, 0, max);
    let b = p.bindings;
    let e = element_pairs(q);
    let a = attributes_pairs(attrs, 0);
    let mid = b + element_bindings(q);
    let scope = b + tag_bindings(q, attrs);
    assert(scope =~= mid + attributes_bindings(attrs, 0));
    // the declarations
    lemma_scope_of_append(b, e, a);
    lemma_scope_of_attributes(mid, attrs, 0, max);
    if e.len() == 0 {
        assert(mid =~= b);
        assert(scope_of(b, e) == Ok::<Seq<Binding>, Fatal>(mid));
    } else {
        lemma_scope_of_small(b, e[0], e[0]);
        assert(e =~= seq![e[0]]);
        assert(mid =~= b.push(element_bindings(q)[0]));
        assert(scope_of(b, e) == Ok::<Seq<Binding>, Fatal>(mid));
    }
    assert(scope_of(b, p.attrs) == Ok::<Seq<Binding>, Fatal>(scope));
    // the prefixes of the attributes
    assert forall|k: int|
        0 <= k < attrs.len() && (#[trigger] attrs[k]).0.namespace is Some && attrs[k].0.namespace
            != Some(xml_namespace()) implies bound(scope, own_prefix(k as nat))
        == attrs[k].0.namespace by {
        lemma_bound_own(mid, attrs, 0, k as nat);
    }
    // the name of the element
    if q.namespace == Some(xml_namespace()) {
        lemma_qname_xml(scope, q.local, false);
    } else {
        lemma_qname_plain(scope, q.local, false);
        let none = Seq::<char>::empty();
        assert forall|j: nat| 0 <= j < attrs.len() implies none != #[trigger] own_prefix(j) by {
            lemma_own_prefix(j, j);
        }
        lemma_bound_other(mid, attrs, 0, none);
        let own = element_bindings(q)[0];
        crate::laws::lemma_innermost_binding(b, own.prefix, own.uri, none);
    }
    // the attributes
    lemma_attributes_of_append(scope, e, a, Seq::empty());
    lemma_attributes_resolved(scope, attrs, 0, max);
    assert(attributes_read(attrs).take(0) =~= Seq::<(QNameView, Seq<char>)>::empty());
    let nothing = Seq::<(QNameView, Seq<char>)>::empty();
    assert(attributes_of(scope, Seq::empty(), nothing) == Ok::<Seq<(QNameView, Seq<char>)>, Fatal>(
        nothing,
    ));
    if e.len() == 1 {
        assert(e.skip(1) =~= Seq::<(Seq<char>, Seq<char>)>::empty());
        assert(is_declaration(e[0].0));
    } else {
        assert(e =~= Seq::<(Seq<char>, Seq<char>)>::empty());
    }
    assert(attributes_of(scope, e, nothing) == Ok::<Seq<(QNameView, Seq<char>)>, Fatal>(nothing));
}

/// The name `x` is one that the attribute at index `j` is written with:
/// its own, or that of the declaration of its namespace.
pub open spec fn written_for(x: Seq<char>, attrs: Seq<(QNameView, Seq<char>)>, j: nat) -> bool {
    let q = attrs[j as int].0;
    x == attribute_name(q, j) || (q.namespace is Some && q.namespace != Some(xml_namespace()) && x
        == "xmlns:"@ + own_prefix(j))
}

/// No attribute of `pairs` has the name `x`.
pub open spec fn absent(pairs: Seq<(Seq<char>, Seq<char>)>, x: Seq<char>) -> bool {
    forall|m: int| 0 <= m < pairs.len() ==> (#[trigger] pairs[m]).0 != x
}

/// No two attributes of `pairs` have the same name.
pub open spec fn distinct_names(pairs: Seq<(Seq<char>, Seq<char>)>) -> bool {
    forall|a: int, b: int|
        0 <= a < b < pairs.len() ==> (#[trigger] pairs[a]).0 != (#[trigger] pairs[b]).0
}

/// The shape of the names that an attribute is written with: where the
/// first colon is and what the first character is.
pub proof fn lemma_name_shapes(q: QNameView, i: nat)
    requires
        is_ncname(q.local),
    ensures
        ({
            let name = attribute_name(q, i);
            let decl = "xmlns:"@ + own_prefix(i);
            &&& colon_at(decl, 0) == 5
            &&& decl[0] == 'x'
            &&& decl.len() == i + 7
            &&& decl.skip(6) == own_prefix(i)
            &&& colon_at("xmlns"@, 0) == 5
            &&& "xmlns"@.len() == 5
            &&& match q.namespace {
                None => colon_at(name, 0) == name.len() && name == q.local,
                Some(uri) => if uri == xml_namespace() {
                    colon_at(name, 0) == 3 && name[0] == 'x' && name.len() > 4 && name.skip(4)
                        == q.local
                } else {
                    colon_at(name, 0) == i + 1 && name[0] == 'n' && name.len() > i + 2
                },
            }
        }),
{
    lemma_literals();
    lemma_own_prefix(i, i);
    let name = attribute_name(q, i);
    let decl = "xmlns:"@ + own_prefix(i);
    assert(decl[5] == ':');
    lemma_colon_at(decl, 0, 5);
    assert(decl.skip(6) =~= own_prefix(i));
    lemma_colon_at("xmlns"@, 0, 5);
    match q.namespace {
        None => {
            lemma_colon_at(q.local, 0, q.local.len() as int);
        },
        Some(uri) => {
            if uri == xml_namespace() {
                assert(name[3] == ':');
                lemma_colon_at(name, 0, 3);
                assert(name.skip(4) =~= q.local);
            } else {
                let at = i as int + 1;
                assert(name[at] == ':');
                assert forall|k: int| 0 <= k < at implies name[k] != ':' by {
                    assert(name[k] == own_prefix(i)[k]);
                }
                lemma_colon_at(name, 0, at);
                assert(name[0] == own_prefix(i)[0]);
            }
        },
    }
}

/// Names that are written for two attributes of one start tag differ.
pub proof fn lemma_names_differ(
    attrs: Seq<(QNameView, Seq<char>)>,
    max: nat,
    j: nat,
    k: nat,
    x: Seq<char>,
    y: Seq<char>,
)
    requires
        j < attrs.len(),
        k < attrs.len(),
        j != k,
        attributes_ok(attrs, 0, max),
        !has_duplicates(attrs),
        written_for(x, attrs, j),
        written_for(y, attrs, k),
    ensures
        x != y,
{
    let qj = attrs[j as int].0;
    let qk = attrs[k as int].0;
    assert(attribute_at(qj, attrs[j as int].1, j, max) is Ok);
    assert(attribute_at(qk, attrs[k as int].1, k, max) is Ok);
    lemma_name_shapes(qj, j);
    lemma_name_shapes(qk, k);
    lemma_own_prefix(j, k);
    if x == y {
        if j < k {
            assert(!(attrs[j as int].0.namespace == attrs[k as int].0.namespace
                && attrs[j as int].0.local == attrs[k as int].0.local));
        } else {
            assert(!(attrs[k as int].0.namespace == attrs[j as int].0.namespace
                && attrs[k as int].0.local == attrs[j as int].0.local));
        }
        assert(colon_at(x, 0) == colon_at(y, 0));
        assert(x[0] == y[0]);
        assert(x.skip(4) == y.skip(4));
        assert(x.skip(6) == y.skip(6));
    }
}

/// The names that are written for one attribute differ, and differ from
/// `xmlns`.
pub proof fn lemma_names_of_one(q: QNameView, value: Seq<char>, i: nat, max: nat)
    requires
        attribute_at(q, value, i, max) is Ok,
    ensures
        distinct_names(attribute_pairs(q, value, i)),
        absent(attribute_pairs(q, value, i), "xmlns"@),
        forall|m: int|
            0 <= m < attribute_pairs(q, value, i).len() ==> (#[trigger] attribute_pairs(
                q,
                value,
                i,
            )[m]).0 == attribute_name(q, i) || (q.namespace is Some && q.namespace != Some(
                xml_namespace(),
            ) && attribute_pairs(q, value, i)[m].0 == "xmlns:"@ + own_prefix(i)),
{
    lemma_name_shapes(q, i);
}

/// A name that was written for an earlier attribute, and `xmlns`, are not
/// among the names that are written for the attributes from index `i` on.
pub proof fn lemma_absent_later(
    attrs: Seq<(QNameView, Seq<char>)>,
    max: nat,
    i: nat,
    x: Seq<char>,
    j: nat,
)
    requires
        attributes_ok(attrs, 0, max),
        !has_duplicates(attrs),
        x == "xmlns"@ || (j < i && j < attrs.len() && written_for(x, attrs, j)),
    ensures
        absent(attributes_pairs(attrs, i), x),
    decreases attrs.len() - i,
{
    if i < attrs.len() {
        let q = attrs[i as int].0;
        let v = attrs[i as int].1;
        let first = attribute_pairs(q, v, i);
        let rest = attributes_pairs(attrs, i + 1);
        assert(attribute_at(q, v, i, max) is Ok);
        lemma_names_of_one(q, v, i, max);
        lemma_absent_later(attrs, max, i + 1, x, j);
        assert forall|m: int| 0 <= m < (first + rest).len() implies (#[trigger] (first
            + rest)[m]).0 != x by {
            if m < first.len() {
                assert((first + rest)[m] == first[m]);
                if x != "xmlns"@ {
                    assert(written_for(first[m].0, attrs, i));
                    lemma_names_differ(attrs, max, j, i, x, first[m].0);
                }
            } else {
                assert((first + rest)[m] == rest[m - first.len()]);
            }
        }
    }
}

/// No two of the attributes that the attributes from index `i` on are
/// written as have the same name.
pub proof fn lemma_distinct_attributes(attrs: Seq<(QNameView, Seq<char>)>, max: nat, i: nat)
    requires
        attributes_ok(attrs, 0, max),
        !has_duplicates(attrs),
    ensures
        distinct_names(attributes_pairs(attrs, i)),
    decreases attrs.len() - i,
{
    if i < attrs.len() {
        let q = attrs[i as int].0;
        let v = attrs[i as int].1;
        let first = attribute_pairs(q, v, i);
        let rest = attributes_pairs(attrs, i + 1);
        let all = first + rest;
        assert(attribute_at(q, v, i, max) is Ok);
        lemma_names_of_one(q, v, i, max);
        lemma_distinct_attributes(attrs, max, i + 1);
        assert forall|a: int, b: int| 0 <= a < b < all.len() implies (#[trigger] all[a]).0 != (
        #[trigger] all[b]).0 by {
            if b < first.len() {
                assert(all[a] == first[a] && all[b] == first[b]);
            } else if a < first.len() {
                assert(all[a] == first[a]);
                assert(all[b] == rest[b - first.len()]);
                assert(written_for(first[a].0, attrs, i));
                lemma_absent_later(attrs, max, i + 1, first[a].0, i);
            } else {
                assert(all[a] == rest[a - first.len()]);
                assert(all[b] == rest[b - first.len()]);
            }
        }
    }
}

/// No attribute of a written start tag has the name of one before it.
pub proof fn lemma_no_repeat(q: QNameView, attrs: Seq<(QNameView, Seq<char>)>, max: nat, m: int)
    requires
        start_tag(q, attrs, max) is Ok,
        0 <= m < tag_pairs(q, attrs).len(),
    ensures
        !has_attr(tag_pairs(q, attrs).take(m), tag_pairs(q, attrs)[m].0),
{
    lemma_attributes_ok(attrs, 0, max);
    lemma_distinct_attributes(attrs, max, 0);
    lemma_absent_later(attrs, max, 0, "xmlns"@, 0);
    let e = element_pairs(q);
    let a = attributes_pairs(attrs, 0);
    let all = tag_pairs(q, attrs);
    let before = all.take(m);
    if has_attr(before, all[m].0) {
        let k = choose|k: int| 0 <= k < before.len() && (#[trigger] before[k]).0 == all[m].0;
        assert(before[k] == all[k]);
        if k < e.len() {
            assert(all[k] == e[k]);
            assert(all[m] == a[m - e.len()]);
        } else {
            assert(all[k] == a[k - e.len()]);
            assert(all[m] == a[m - e.len()]);
        }
    }
}

/// The result of a read that took `k` bytes before the read `n`.
pub open spec fn after(n: ParseNext, k: nat) -> ParseNext {
    ParseNext { parser: n.parser, lexer: n.lexer, consumed: n.consumed + k, reply: n.reply }
}

/// A parser that holds no event and has not failed.
pub open spec fn ready(p: ParState) -> bool {
    p.queue.len() == 0 && p.error is None
}

/// A read takes a run of characters without a token and goes on behind
/// it.
pub proof fn lemma_parse_quiet(
    p: ParState,
    l: LexState,
    chars: Seq<char>,
    rest: Seq<u8>,
    eof: bool,
)
    requires
        ready(p),
        steady(l),
        lex_quiet(l, chars) is Some,
    ensures
        parse_next(p, l, encode_utf8(chars) + rest, eof, false) == after(
            parse_next(p, lex_quiet(l, chars)->0, rest, eof, false),
            encode_utf8(chars).len(),
        ),
{
    let k = encode_utf8(chars).len();
    let all = encode_utf8(chars) + rest;
    let mid = lex_quiet(l, chars)->0;
    lemma_lex_quiet_bytes(l, chars, rest, eof);
    let n = lex_next(mid, rest, eof);
    lemma_lex_progress(mid, rest, eof);
    assert(all.skip((n.consumed + k) as int) =~= rest.skip(n.consumed as int));
}

/// A read takes a run of characters without a token and the character
/// that completes one, hands the token to the parser and goes on behind
/// it.
pub proof fn lemma_parse_step(
    p: ParState,
    l: LexState,
    chars: Seq<char>,
    c: char,
    rest: Seq<u8>,
    eof: bool,
)
    requires
        ready(p),
        steady(l),
        lex_quiet(l, chars) is Some,
        lex_char(lex_quiet(l, chars)->0, c).token is Some,
    ensures
        ({
            let st = lex_char(lex_quiet(l, chars)->0, c);
            parse_next(p, l, encode_utf8(chars.push(c)) + rest, eof, false) == after(
                parse_next(parse_token(p, st.token->0), st.state, rest, eof, false),
                encode_utf8(chars.push(c)).len(),
            )
        }),
{
    let k = encode_utf8(chars.push(c)).len();
    let all = encode_utf8(chars.push(c)) + rest;
    lemma_lex_token_bytes(l, chars, c, rest, eof);
    assert(all.skip(k as int) =~= rest);
}

/// A read hands the token that the lexer owes to the parser and goes on.
pub proof fn lemma_parse_owed(p: ParState, l: LexState, rest: Seq<u8>, eof: bool)
    requires
        ready(p),
        l.error is None,
        l.owed,
    ensures
        parse_next(p, l, rest, eof, false) == parse_next(
            parse_token(p, TokenView::ElementHFEnd),
            LexState { owed: false, ..l },
            rest,
            eof,
            false,
        ),
{
    assert(rest.skip(0) =~= rest);
}

/// A read hands out the event that is waiting and takes no byte.
pub proof fn lemma_parse_waiting(p: ParState, l: LexState, rest: Seq<u8>, eof: bool)
    requires
        p.queue.len() > 0,
    ensures
        parse_next(p, l, rest, eof, false) == (ParseNext {
            parser: ParState { queue: p.queue.skip(1), ..p },
            lexer: l,
            consumed: 0,
            reply: Reply::Item(p.queue[0]),
        }),
{
}

/// What the tokens of a tag make of the parser.
pub proof fn lemma_tokens(p: ParState, data: Seq<char>)
    ensures
        (p.phase is Initial || p.phase is Prolog || p.phase is Content) ==> parse_token(
            p,
            TokenView::ElementHeadStart(data),
        ) == begun(p, data),
        p.phase is Head ==> parse_token(p, TokenView::Name(data)) == (ParState {
            phase: Phase::Attr,
            attr: data,
            ..p
        }),
        p.phase is Head ==> parse_token(p, TokenView::ElementHFEnd) == opened(p, false),
        p.phase is Attr && !has_attr(p.attrs, p.attr) ==> parse_token(
            p,
            TokenView::AttributeValue(data),
        ) == (ParState {
            phase: Phase::Head,
            attrs: p.attrs.push((p.attr, data)),
            attr: Seq::empty(),
            ..p
        }),
        p.phase is Content && p.stack.len() > 0 && p.stack.last().name == data ==> parse_token(
            p,
            TokenView::ElementFootStart(data),
        ) == par_to(p, Phase::Foot),
        p.phase is Foot ==> parse_token(p, TokenView::ElementHFEnd) == closed(p),
        p.phase is Content ==> parse_token(p, TokenView::Text(data)) == (ParState {
            queue: p.queue.push(EventView::Text(data)),
            ..p
        }),
        p.phase is Initial ==> parse_token(p, TokenView::XmlDeclStart) == par_to(
            p,
            Phase::Decl(DeclStep::VersionName),
        ),
        p.phase == Phase::Decl(DeclStep::VersionName) && data == "version"@ ==> parse_token(
            p,
            TokenView::Name(data),
        ) == par_to(p, Phase::Decl(DeclStep::VersionValue)),
        p.phase == Phase::Decl(DeclStep::VersionValue) && data == "1.0"@ ==> parse_token(
            p,
            TokenView::AttributeValue(data),
        ) == par_to(p, Phase::Decl(DeclStep::AfterVersion)),
        p.phase == Phase::Decl(DeclStep::AfterVersion) ==> parse_token(p, TokenView::XmlDeclEnd)
            == declared(p),
{
    reveal(parse_token);
}

/// An attribute as it stands in a start tag, without the space before
/// it.
pub open spec fn attribute_body(name: Seq<char>, value: Seq<char>) -> Seq<char> {
    name + seq!['=', '\''] + escaped_value(value) + seq!['\'']
}

/// An attribute is a space and its body.
pub proof fn lemma_attribute_body(name: Seq<char>, value: Seq<char>)
    ensures
        attribute_chars(name, value) == seq![' '] + attribute_body(name, value),
{
    reveal_strlit("='");
    assert("='"@ =~= seq!['=', '\'']);
    assert(attribute_chars(name, value) =~= seq![' '] + attribute_body(name, value));
}

/// The parser after the attribute `name` with the value `value`.
pub open spec fn with_attribute(p: ParState, name: Seq<char>, value: Seq<char>) -> ParState {
    ParState { phase: Phase::Head, attrs: p.attrs.push((name, value)), attr: Seq::empty(), ..p }
}

/// A read takes an attribute that the encoder wrote into the start tag
/// under way.
pub proof fn lemma_parse_pair(
    p: ParState,
    l: LexState,
    name: Seq<char>,
    value: Seq<char>,
    lead: bool,
    rest: Seq<u8>,
    eof: bool,
)
    requires
        ready(p),
        p.phase is Head,
        !has_attr(p.attrs, name),
        idle(l),
        l.buf.len() == 0,
        lead ==> l.mode == Mode::AttrDone(Tag::Head),
        !lead ==> l.mode == Mode::Blank(Tag::Head),
        is_name(name),
        name.len() <= l.max,
        value_ok(value, l.max),
    ensures
        ({
            let chars = if lead {
                seq![' '] + attribute_body(name, value)
            } else {
                attribute_body(name, value)
            };
            parse_next(p, l, encode_utf8(chars) + rest, eof, false) == after(
                parse_next(
                    with_attribute(p, name, value),
                    LexState { mode: Mode::AttrDone(Tag::Head), ..l },
                    rest,
                    eof,
                    false,
                ),
                encode_utf8(chars).len(),
            )
        }),
{
    let chars = if lead {
        seq![' '] + attribute_body(name, value)
    } else {
        attribute_body(name, value)
    };
    let first = if lead {
        seq![' '] + name
    } else {
        name
    };
    let second = seq!['\''] + escaped_value(value);
    let one = first.push('=');
    let two = second.push('\'');
    assert(chars =~= one + two);
    lemma_encode_append(one, two);
    let tail = encode_utf8(two) + rest;
    assert(encode_utf8(chars) + rest =~= encode_utf8(one) + tail);
    assert(l.buf =~= Seq::<char>::empty());
    // the name
    lemma_quiet_attribute_name(l, name);
    let named = LexState { mode: Mode::AttrName(Tag::Head), buf: name, ..l };
    assert(lex_quiet(l, first) == Some(named));
    lemma_tag_tokens(named);
    let quote = LexState { mode: Mode::AttrQuote(Tag::Head), buf: Seq::empty(), ..l };
    assert(lex_char(named, '=').state == quote);
    assert(lex_char(named, '=').token == Some(TokenView::Name(name)));
    lemma_parse_step(p, l, first, '=', tail, eof);
    lemma_tokens(p, name);
    let p1 = ParState { phase: Phase::Attr, attr: name, ..p };
    // the value
    lemma_tag_tokens(quote);
    let open = LexState { mode: Mode::AttrValue(Tag::Head, false), buf: Seq::empty(), ..l };
    assert(lex_char(quote, '\'') == crate::lexer::stay(quote, Mode::AttrValue(Tag::Head, false)));
    lemma_quiet_first(quote, '\'', escaped_value(value));
    lemma_quiet_escaped_value(open, value);
    let full = LexState { mode: Mode::AttrValue(Tag::Head, false), buf: value, ..l };
    assert(open.buf + value =~= value);
    assert(lex_quiet(quote, second) == Some(full));
    lemma_tag_tokens(full);
    let done = LexState { mode: Mode::AttrDone(Tag::Head), ..l };
    assert(lex_char(full, '\'').state == LexState {
        mode: Mode::AttrDone(Tag::Head),
        buf: Seq::empty(),
        ..l
    });
    assert(lex_char(full, '\'').state == done);
    assert(lex_char(full, '\'').token == Some(TokenView::AttributeValue(value)));
    lemma_parse_step(p1, quote, second, '\'', rest, eof);
    lemma_tokens(p1, value);
    assert(parse_token(p1, TokenView::AttributeValue(value)) == with_attribute(p, name, value));
}

/// Attributes that can be read back as those of one start tag: names
/// within the limit, no name twice, values that can stand between quotes.
pub open spec fn readable(pairs: Seq<(Seq<char>, Seq<char>)>, max: nat) -> bool {
    forall|m: int|
        0 <= m < pairs.len() ==> is_name((#[trigger] pairs[m]).0) && pairs[m].0.len() <= max
            && value_ok(pairs[m].1, max) && !has_attr(pairs.take(m), pairs[m].0)
}

/// A read takes the attributes of a start tag from the second on, and
/// the end of the tag.
pub proof fn lemma_parse_pairs(
    p: ParState,
    l: LexState,
    pairs: Seq<(Seq<char>, Seq<char>)>,
    k: nat,
    rest: Seq<u8>,
    eof: bool,
)
    requires
        k <= pairs.len(),
        ready(p),
        p.phase is Head,
        p.attrs == pairs.take(k as int),
        p.attr == Seq::<char>::empty(),
        readable(pairs, l.max),
        idle(l),
        l.buf.len() == 0,
        l.mode == Mode::AttrDone(Tag::Head),
    ensures
        ({
            let chars = pairs_chars(pairs.skip(k as int)) + seq!['>'];
            parse_next(p, l, encode_utf8(chars) + rest, eof, false) == after(
                parse_next(
                    opened(ParState { attrs: pairs, ..p }, false),
                    LexState { mode: Mode::Content, ..l },
                    rest,
                    eof,
                    false,
                ),
                encode_utf8(chars).len(),
            )
        }),
    decreases pairs.len() - k,
{
    let left = pairs.skip(k as int);
    let chars = pairs_chars(left) + seq!['>'];
    if k == pairs.len() {
        assert(left =~= Seq::<(Seq<char>, Seq<char>)>::empty());
        assert(pairs_chars(left) =~= Seq::<char>::empty());
        let none = Seq::<char>::empty();
        assert(chars =~= none.push('>'));
        assert(pairs.take(k as int) =~= pairs);
        lemma_tag_tokens(l);
        assert(lex_quiet(l, none) == Some(l));
        lemma_parse_step(p, l, none, '>', rest, eof);
        lemma_tokens(p, none);
        assert(ParState { attrs: pairs, ..p } == p);
    } else {
        let name = pairs[k as int].0;
        let value = pairs[k as int].1;
        let this = seq![' '] + attribute_body(name, value);
        let others = pairs_chars(pairs.skip(k as int + 1)) + seq!['>'];
        lemma_attribute_body(name, value);
        assert(left[0] == pairs[k as int]);
        assert(left.skip(1) =~= pairs.skip(k as int + 1));
        assert(chars =~= this + others);
        lemma_encode_append(this, others);
        let tail = encode_utf8(others) + rest;
        assert(encode_utf8(chars) + rest =~= encode_utf8(this) + tail);
        lemma_parse_pair(p, l, name, value, true, tail, eof);
        let p1 = with_attribute(p, name, value);
        assert(p1.attrs =~= pairs.take(k as int + 1));
        lemma_parse_pairs(p1, l, pairs, k + 1, rest, eof);
        assert(ParState { attrs: pairs, ..p1 } == ParState { attrs: pairs, ..p });
    }
}

/// A read takes a start tag that the encoder wrote, from behind its `<`
/// on: the name of the element, its attributes and the end of the tag.
pub proof fn lemma_parse_start_tag(
    p: ParState,
    l: LexState,
    name: Seq<char>,
    pairs: Seq<(Seq<char>, Seq<char>)>,
    rest: Seq<u8>,
    eof: bool,
)
    requires
        ready(p),
        p.phase is Initial || p.phase is Prolog || p.phase is Content,
        idle(l),
        l.buf.len() == 0,
        l.mode is Open || l.mode is StartOpen,
        is_name(name),
        name.len() <= l.max,
        readable(pairs, l.max),
    ensures
        ({
            let chars = name + pairs_chars(pairs) + seq!['>'];
            parse_next(p, l, encode_utf8(chars) + rest, eof, false) == after(
                parse_next(
                    opened(
                        ParState {
                            phase: Phase::Head,
                            name,
                            attrs: pairs,
                            attr: if pairs.len() == 0 {
                                p.attr
                            } else {
                                Seq::empty()
                            },
                            ..p
                        },
                        false,
                    ),
                    LexState { mode: Mode::Content, ..l },
                    rest,
                    eof,
                    false,
                ),
                encode_utf8(chars).len(),
            )
        }),
{
    let chars = name + pairs_chars(pairs) + seq!['>'];
    assert(l.buf =~= Seq::<char>::empty());
    lemma_quiet_element_name(l, name);
    let named = LexState { mode: Mode::ElementName(Tag::Head), buf: name, ..l };
    lemma_tag_tokens(named);
    lemma_tokens(p, name);
    let p1 = begun(p, name);
    if pairs.len() == 0 {
        assert(pairs_chars(pairs) =~= Seq::<char>::empty());
        assert(chars =~= name.push('>'));
        let owes = LexState { mode: Mode::Content, owed: true, buf: Seq::empty(), ..l };
        assert(lex_char(named, '>').state == owes);
        assert(lex_char(named, '>').token == Some(TokenView::ElementHeadStart(name)));
        lemma_parse_step(p, l, name, '>', rest, eof);
        lemma_parse_owed(p1, owes, rest, eof);
        lemma_tokens(p1, name);
        assert(LexState { owed: false, ..owes } == LexState { mode: Mode::Content, ..l });
        assert(pairs =~= Seq::<(Seq<char>, Seq<char>)>::empty());
        assert(p1 == ParState { phase: Phase::Head, name, attrs: pairs, attr: p.attr, ..p });
    } else {
        let first = pairs[0];
        let body = attribute_body(first.0, first.1);
        let others = pairs_chars(pairs.skip(1)) + seq!['>'];
        lemma_attribute_body(first.0, first.1);
        assert(chars =~= name.push(' ') + (body + others));
        lemma_encode_append(name.push(' '), body + others);
        lemma_encode_append(body, others);
        let tail2 = encode_utf8(others) + rest;
        let tail1 = encode_utf8(body) + tail2;
        assert(encode_utf8(chars) + rest =~= encode_utf8(name.push(' ')) + tail1);
        let blank = LexState { mode: Mode::Blank(Tag::Head), ..l };
        assert(lex_char(named, ' ').state == LexState {
            mode: Mode::Blank(Tag::Head),
            buf: Seq::empty(),
            ..l
        });
        assert(lex_char(named, ' ').state == blank);
        assert(lex_char(named, ' ').token == Some(TokenView::ElementHeadStart(name)));
        lemma_parse_step(p, l, name, ' ', tail1, eof);
        assert(pairs.take(0) =~= Seq::<(Seq<char>, Seq<char>)>::empty());
        assert(p1.attrs =~= pairs.take(0));
        lemma_parse_pair(p1, blank, first.0, first.1, false, tail2, eof);
        let p2 = with_attribute(p1, first.0, first.1);
        assert(p2.attrs =~= pairs.take(1));
        let done = LexState { mode: Mode::AttrDone(Tag::Head), ..l };
        lemma_parse_pairs(p2, done, pairs, 1, rest, eof);
        assert(ParState { attrs: pairs, ..p2 } == ParState {
            phase: Phase::Head,
            name,
            attrs: pairs,
            attr: Seq::empty(),
            ..p
        });
    }
}

/// A read takes an end tag that the encoder wrote, from behind its `<`
/// on, and closes the innermost element.
pub proof fn lemma_parse_end_tag(
    p: ParState,
    l: LexState,
    name: Seq<char>,
    rest: Seq<u8>,
    eof: bool,
)
    requires
        ready(p),
        p.phase is Content,
        p.stack.len() > 0,
        p.stack.last().name == name,
        idle(l),
        l.buf.len() == 0,
        l.mode is Open || l.mode is StartOpen,
        is_name(name),
        name.len() <= l.max,
    ensures
        ({
            let chars = seq!['/'] + name + seq!['>'];
            parse_next(p, l, encode_utf8(chars) + rest, eof, false) == after(
                parse_next(
                    closed(par_to(p, Phase::Foot)),
                    LexState { mode: Mode::Content, ..l },
                    rest,
                    eof,
                    false,
                ),
                encode_utf8(chars).len(),
            )
        }),
{
    let chars = seq!['/'] + name + seq!['>'];
    let quiet = seq!['/'] + name;
    assert(chars =~= quiet.push('>'));
    assert(l.buf =~= Seq::<char>::empty());
    lemma_tag_tokens(l);
    let close = LexState { mode: Mode::CloseOpen, ..l };
    lemma_quiet_first(l, '/', name);
    lemma_quiet_element_name(close, name);
    let named = LexState { mode: Mode::ElementName(Tag::Foot), buf: name, ..l };
    assert(lex_quiet(l, quiet) == Some(named));
    lemma_tag_tokens(named);
    let owes = LexState { mode: Mode::Content, owed: true, buf: Seq::empty(), ..l };
    assert(lex_char(named, '>').state == owes);
    assert(lex_char(named, '>').token == Some(TokenView::ElementFootStart(name)));
    lemma_parse_step(p, l, quiet, '>', rest, eof);
    lemma_tokens(p, name);
    let p1 = par_to(p, Phase::Foot);
    lemma_parse_owed(p1, owes, rest, eof);
    lemma_tokens(p1, name);
    assert(LexState { owed: false, ..owes } == LexState { mode: Mode::Content, ..l });
}

/// The characters of the XML declaration that the encoder writes.
pub proof fn lemma_declaration_literal()
    ensures
        "<?xml version='1.0'?>"@ == seq!['<', '?', 'x', 'm', 'l'].push(' ') + seq![
            'v',
            'e',
            'r',
            's',
            'i',
            'o',
            'n',
        ].push('=') + seq!['\'', '1', '.', '0'].push('\'') + seq!['?'].push('>'),
        "version"@ == seq!['v', 'e', 'r', 's', 'i', 'o', 'n'],
        "1.0"@ == seq!['1', '.', '0'],
        is_name(seq!['v', 'e', 'r', 's', 'i', 'o', 'n']),
{
    reveal_strlit("<?xml version='1.0'?>");
    reveal_strlit("version");
    reveal_strlit("1.0");
    let whole = seq!['<', '?', 'x', 'm', 'l'].push(' ') + seq!['v', 'e', 'r', 's', 'i', 'o', 'n'].push(
        '=',
    ) + seq!['\'', '1', '.', '0'].push('\'') + seq!['?'].push('>');
    assert("<?xml version='1.0'?>"@ =~= whole);
    assert("version"@ =~= seq!['v', 'e', 'r', 's', 'i', 'o', 'n']);
    assert("1.0"@ =~= seq!['1', '.', '0']);
    let v = seq!['v', 'e', 'r', 's', 'i', 'o', 'n'];
    assert(spec_is_name_start('v'));
    assert(spec_is_name_char('v') && spec_is_name_char('e') && spec_is_name_char('r')
        && spec_is_name_char('s') && spec_is_name_char('i') && spec_is_name_char('o')
        && spec_is_name_char('n'));
}

/// A read takes the XML declaration that the encoder writes.
pub proof fn lemma_parse_declaration(p: ParState, l: LexState, rest: Seq<u8>, eof: bool)
    requires
        ready(p),
        p.phase is Initial,
        idle(l),
        l.buf.len() == 0,
        l.mode is Start,
        l.max >= 7,
    ensures
        parse_next(p, l, encode_utf8("<?xml version='1.0'?>"@) + rest, eof, false) == after(
            parse_next(
                declared(par_to(p, Phase::Decl(DeclStep::AfterVersion))),
                LexState { mode: Mode::Content, ..l },
                rest,
                eof,
                false,
            ),
            encode_utf8("<?xml version='1.0'?>"@).len(),
        ),
{
    lemma_declaration_literal();
    assert(l.buf =~= Seq::<char>::empty());
    let q1 = seq!['<', '?', 'x', 'm', 'l'];
    let q2 = seq!['v', 'e', 'r', 's', 'i', 'o', 'n'];
    let q3 = seq!['\'', '1', '.', '0'];
    let q4 = seq!['?'];
    let c1 = q1.push(' ');
    let c2 = q2.push('=');
    let c3 = q3.push('\'');
    let c4 = q4.push('>');
    let whole = "<?xml version='1.0'?>"@;
    assert(whole =~= c1 + (c2 + (c3 + c4)));
    lemma_encode_append(c1, c2 + (c3 + c4));
    lemma_encode_append(c2, c3 + c4);
    lemma_encode_append(c3, c4);
    let t3 = encode_utf8(c4) + rest;
    let t2 = encode_utf8(c3) + t3;
    let t1 = encode_utf8(c2) + t2;
    assert(encode_utf8(whole) + rest =~= encode_utf8(c1) + t1);
    // `<?xml `
    lemma_declaration_start(l);
    let target = LexState { mode: Mode::DeclTarget(3), ..l };
    let blank = LexState { mode: Mode::Blank(Tag::Decl), ..l };
    assert(lex_char(target, ' ').state == blank);
    lemma_parse_step(p, l, q1, ' ', t1, eof);
    lemma_tokens(p, q2);
    let p1 = par_to(p, Phase::Decl(DeclStep::VersionName));
    // `version=`
    lemma_quiet_attribute_name(blank, q2);
    let named = LexState { mode: Mode::AttrName(Tag::Decl), buf: q2, ..l };
    lemma_tag_tokens(named);
    let quote = LexState { mode: Mode::AttrQuote(Tag::Decl), buf: Seq::empty(), ..l };
    assert(lex_char(named, '=').state == quote);
    assert(lex_char(named, '=').token == Some(TokenView::Name(q2)));
    lemma_parse_step(p1, blank, q2, '=', t2, eof);
    lemma_tokens(p1, q2);
    let p2 = par_to(p, Phase::Decl(DeclStep::VersionValue));
    assert(par_to(p1, Phase::Decl(DeclStep::VersionValue)) == p2);
    // `'1.0'`
    lemma_declaration_value(quote);
    let full = LexState {
        mode: Mode::AttrValue(Tag::Decl, false),
        buf: seq!['1', '.', '0'],
        ..l
    };
    lemma_tag_tokens(full);
    let done = LexState { mode: Mode::AttrDone(Tag::Decl), ..l };
    assert(lex_char(full, '\'').state == LexState {
        mode: Mode::AttrDone(Tag::Decl),
        buf: Seq::empty(),
        ..l
    });
    assert(lex_char(full, '\'').state == done);
    assert(lex_char(full, '\'').token == Some(TokenView::AttributeValue(seq!['1', '.', '0'])));
    lemma_parse_step(p2, quote, q3, '\'', t3, eof);
    lemma_tokens(p2, seq!['1', '.', '0']);
    let p3 = par_to(p, Phase::Decl(DeclStep::AfterVersion));
    assert(par_to(p2, Phase::Decl(DeclStep::AfterVersion)) == p3);
    // `?>`
    lemma_tag_tokens(done);
    let asks = LexState { mode: Mode::Question, ..l };
    assert(lex_char(done, '?') == crate::lexer::stay(done, Mode::Question));
    lemma_quiet_one(done, '?');
    lemma_tag_tokens(asks);
    assert(lex_char(asks, '>').state == LexState { mode: Mode::Content, ..l });
    lemma_parse_step(p3, done, q4, '>', rest, eof);
    lemma_tokens(p3, q2);
}

/// The names that a start tag is written with are names.
pub proof fn lemma_written_names(q: QNameView, i: nat)
    requires
        is_ncname(q.local),
    ensures
        is_name(element_name(q)),
        is_name(attribute_name(q, i)),
        is_name("xmlns"@),
        is_name("xmlns:"@ + own_prefix(i)),
        "xmlns"@.len() == 5,
        ("xmlns:"@ + own_prefix(i)).len() == i + 7,
        q.namespace == Some(xml_namespace()) ==> element_name(q).len() == q.local.len() + 4,
        q.namespace != Some(xml_namespace()) ==> element_name(q) == q.local,
        attribute_name(q, i).len() == (match q.namespace {
            None => q.local.len(),
            Some(uri) => if uri == xml_namespace() {
                q.local.len() + 4
            } else {
                q.local.len() + i + 2
            },
        }),
{
    lemma_literals();
    lemma_own_prefix(i, i);
    assert(spec_is_name_start('x') && spec_is_name_char('x') && spec_is_name_char('m')
        && spec_is_name_char('l') && spec_is_name_char('n') && spec_is_name_char('s')
        && spec_is_name_char(':'));
    let a = "xml:"@ + q.local;
    assert forall|k: int| 0 <= k < a.len() implies spec_is_name_char(#[trigger] a[k]) by {
        if k >= 4 {
            assert(a[k] == q.local[k - 4]);
        }
    }
    let b = own_prefix(i) + seq![':'] + q.local;
    assert forall|k: int| 0 <= k < b.len() implies spec_is_name_char(#[trigger] b[k]) by {
        if k <= i {
            assert(b[k] == own_prefix(i)[k]);
        } else if k > i + 1 {
            assert(b[k] == q.local[k - i - 2]);
        }
    }
    assert(b[0] == own_prefix(i)[0]);
    let c = "xmlns:"@ + own_prefix(i);
    assert forall|k: int| 0 <= k < c.len() implies spec_is_name_char(#[trigger] c[k]) by {
        if k >= 6 {
            assert(c[k] == own_prefix(i)[k - 6]);
        }
    }
}

/// An attribute that can be read back.
pub open spec fn good(pair: (Seq<char>, Seq<char>), max: nat) -> bool {
    is_name(pair.0) && pair.0.len() <= max && value_ok(pair.1, max)
}

/// Each attribute that the attributes from index `i` on are written as
/// can be read back.
pub proof fn lemma_pairs_good(attrs: Seq<(QNameView, Seq<char>)>, max: nat, i: nat)
    requires
        attributes_ok(attrs, 0, max),
    ensures
        forall|m: int|
            0 <= m < attributes_pairs(attrs, i).len() ==> good(
                #[trigger] attributes_pairs(attrs, i)[m],
                max,
            ),
    decreases attrs.len() - i,
{
    if i < attrs.len() {
        let q = attrs[i as int].0;
        let v = attrs[i as int].1;
        let first = attribute_pairs(q, v, i);
        let rest = attributes_pairs(attrs, i + 1);
        assert(attribute_at(q, v, i, max) is Ok);
        lemma_written_names(q, i);
        lemma_pairs_good(attrs, max, i + 1);
        assert forall|m: int| 0 <= m < (first + rest).len() implies good(
            #[trigger] (first + rest)[m],
            max,
        ) by {
            if m < first.len() {
                assert((first + rest)[m] == first[m]);
            } else {
                assert((first + rest)[m] == rest[m - first.len()]);
            }
        }
    }
}

/// The start tag that the encoder writes can be read back: its names
/// are names within the limit, no attribute comes twice, and its values can
/// stand between quotes.
pub proof fn lemma_tag_readable(q: QNameView, attrs: Seq<(QNameView, Seq<char>)>, max: nat)
    requires
        start_tag(q, attrs, max) is Ok,
    ensures
        is_name(element_name(q)),
        element_name(q).len() <= max,
        readable(tag_pairs(q, attrs), max),
{
    lemma_literals();
    lemma_attributes_ok(attrs, 0, max);
    lemma_written_names(q, 0);
    lemma_pairs_good(attrs, max, 0);
    let e = element_pairs(q);
    let a = attributes_pairs(attrs, 0);
    let all = tag_pairs(q, attrs);
    assert forall|m: int| 0 <= m < all.len() implies is_name((#[trigger] all[m]).0) && all[m].0.len()
        <= max && value_ok(all[m].1, max) && !has_attr(all.take(m), all[m].0) by {
        lemma_no_repeat(q, attrs, max, m);
        if m < e.len() {
            assert(all[m] == e[m]);
        } else {
            assert(all[m] == a[m - e.len()]);
            assert(good(a[m - e.len()], max));
        }
    }
}

/// The elements that are open have names that can be read.
pub open spec fn named(w: WriterState) -> bool {
    forall|i: int|
        0 <= i < w.stack.len() ==> is_name(element_name(#[trigger] w.stack[i])) && element_name(
            w.stack[i],
        ).len() <= w.max
}

/// What the encoder keeps in order: an element is open exactly inside
/// the root element, and the elements that are open have names that can be
/// read.
pub open spec fn in_place(w: WriterState) -> bool {
    &&& w.place is Inside <==> w.stack.len() > 0
    &&& named(w)
}

/// The encoder is in order at the start and stays so with every event.
pub proof fn lemma_in_place(w: WriterState, ev: EventView)
    requires
        in_place(w),
    ensures
        in_place(writer_start(w.max)),
        written(w, ev) matches Ok((next, _)) ==> in_place(next) && next.max == w.max,
{
    match written(w, ev) {
        Ok((next, _)) => {
            match ev {
                EventView::StartElement(q, attrs) => {
                    lemma_tag_readable(q, attrs, w.max);
                    assert forall|i: int| 0 <= i < next.stack.len() implies is_name(
                        element_name(#[trigger] next.stack[i]),
                    ) && element_name(next.stack[i]).len() <= next.max by {
                        if i < w.stack.len() {
                            assert(next.stack[i] == w.stack[i]);
                        }
                    }
                },
                EventView::EndElement(_) => {
                    assert forall|i: int| 0 <= i < next.stack.len() implies is_name(
                        element_name(#[trigger] next.stack[i]),
                    ) && element_name(next.stack[i]).len() <= next.max by {
                        assert(next.stack[i] == w.stack[i]);
                    }
                },
                _ => {},
            }
        },
        Err(_) => {},
    }
}

/// The parser and the lexer stand where the encoder stands: the same
/// elements are open, and the lexer is between two tokens and holds no
/// text. Inside an element the lexer may have taken the `<` of the next
/// tag.
pub open spec fn related(w: WriterState, p: ParState, l: LexState) -> bool {
    &&& ready(p)
    &&& idle(l)
    &&& l.buf.len() == 0
    &&& l.max == w.max
    &&& p.stack.len() == w.stack.len()
    &&& forall|i: int|
        0 <= i < w.stack.len() ==> (#[trigger] p.stack[i]).name == element_name(w.stack[i])
            && p.stack[i].qname == element_read(w.stack[i])
    &&& match w.place {
        Place::Start => p.phase is Initial && l.mode is Start,
        Place::Prolog => p.phase is Prolog && l.mode is Content,
        Place::Inside => p.phase is Content && (l.mode is Open || l.mode is Content),
        Place::Done => p.phase is Epilog && l.mode is Content,
    }
}

/// The characters of a document that the lexer has not taken yet, where
/// the document goes on with `doc`.
pub open spec fn unread(l: LexState, doc: Seq<char>) -> Seq<char> {
    if l.mode is Open {
        doc.skip(1)
    } else {
        doc
    }
}

/// The event that `ev` is read back as: with the prefixes of the
/// encoder, and an end tag with the name that its element was opened with.
pub open spec fn read_back(w: WriterState, ev: EventView) -> EventView {
    match ev {
        EventView::XMLDeclaration(_) => EventView::XMLDeclaration(XMLVersion::V1_0),
        EventView::StartElement(q, attrs) => EventView::StartElement(
            element_read(q),
            attributes_read(attrs),
        ),
        EventView::EndElement(_) => EventView::EndElement(element_read(w.stack.last())),
        EventView::Text(t) => EventView::Text(t),
    }
}

/// The events that `events` are read back as.
pub open spec fn all_read_back(w: WriterState, events: Seq<EventView>) -> Seq<EventView>
    decreases events.len(),
{
    if events.len() == 0 {
        Seq::empty()
    } else {
        match written(w, events[0]) {
            Err(_) => Seq::empty(),
            Ok((next, _)) => seq![read_back(w, events[0])] + all_read_back(next, events.skip(1)),
        }
    }
}

/// What a read of an event that the encoder wrote comes to: the event
/// that it is read back as, with the parser and the lexer where the encoder
/// stands after it, and with the rest of the document unread.
pub open spec fn read_as(
    w: WriterState,
    l: LexState,
    ev: EventView,
    next: WriterState,
    chars: Seq<char>,
    tail: Seq<char>,
    n: ParseNext,
) -> bool {
    let bytes = encode_utf8(unread(l, chars + tail));
    &&& n.reply == Reply::Item(read_back(w, ev))
    &&& related(next, n.parser, n.lexer)
    &&& n.lexer.mode !is Open
    &&& n.consumed <= bytes.len()
    &&& bytes.skip(n.consumed as int) == encode_utf8(tail)
}

/// A start tag that the encoder wrote is read back.
pub proof fn lemma_read_start(
    w: WriterState,
    q: QNameView,
    attrs: Seq<(QNameView, Seq<char>)>,
    p: ParState,
    l: LexState,
    tail: Seq<char>,
    eof: bool,
)
    requires
        in_place(w),
        related(w, p, l),
        written(w, EventView::StartElement(q, attrs)) is Ok,
    ensures
        ({
            let ev = EventView::StartElement(q, attrs);
            let (next, chars) = written(w, ev)->Ok_0;
            read_as(
                w,
                l,
                ev,
                next,
                chars,
                tail,
                parse_next(p, l, encode_utf8(unread(l, chars + tail)), eof, false),
            )
        }),
{
    let ev = EventView::StartElement(q, attrs);
    let (next, chars) = written(w, ev)->Ok_0;
    let name = element_name(q);
    let pairs = tag_pairs(q, attrs);
    let inner = name + pairs_chars(pairs) + seq!['>'];
    lemma_start_tag_is_pairs(q, attrs, w.max);
    lemma_tag_readable(q, attrs, w.max);
    assert(chars =~= seq!['<'] + inner);
    let bytes = encode_utf8(unread(l, chars + tail));
    let end = encode_utf8(tail);
    lemma_encode_append(inner, tail);
    let open = LexState {
        mode: if l.mode is Start {
            Mode::StartOpen
        } else {
            Mode::Open
        },
        ..l
    };
    let head = ParState {
        phase: Phase::Head,
        name,
        attrs: pairs,
        attr: if pairs.len() == 0 {
            p.attr
        } else {
            Seq::empty()
        },
        ..p
    };
    let content = LexState { mode: Mode::Content, ..l };
    let lead: nat = if l.mode is Open {
        0
    } else {
        encode_utf8(seq!['<']).len()
    };
    if l.mode is Open {
        assert((chars + tail).skip(1) =~= inner + tail);
        assert(open == l);
    } else {
        assert(chars + tail =~= seq!['<'] + (inner + tail));
        lemma_encode_append(seq!['<'], inner + tail);
        lemma_tag_tokens(l);
        lemma_quiet_one(l, '<');
        lemma_parse_quiet(p, l, seq!['<'], encode_utf8(inner) + end, eof);
    }
    lemma_parse_start_tag(p, open, name, pairs, end, eof);
    lemma_opened(head, q, attrs, w.max);
    let made = opened(head, false);
    lemma_parse_waiting(made, content, end, eof);
    let n = parse_next(p, l, bytes, eof, false);
    let taken = encode_utf8(inner).len() + lead;
    assert(n.consumed == taken);
    assert(bytes.skip(taken as int) =~= end);
    assert(made.queue =~= seq![read_back(w, ev)]);
    assert(made.queue.skip(1) =~= Seq::<EventView>::empty());
    assert(n.parser.stack =~= p.stack.push(
        Open { name, qname: element_read(q), base: p.bindings.len() },
    ));
    assert(next.stack =~= w.stack.push(q));
    assert forall|i: int| 0 <= i < next.stack.len() implies (#[trigger] n.parser.stack[i]).name
        == element_name(next.stack[i]) && n.parser.stack[i].qname == element_read(
        next.stack[i],
    ) by {
        if i < w.stack.len() {
            assert(n.parser.stack[i] == p.stack[i]);
        }
    }
}

/// An end tag that the encoder wrote is read back.
pub proof fn lemma_read_end(
    w: WriterState,
    q: QNameView,
    p: ParState,
    l: LexState,
    tail: Seq<char>,
    eof: bool,
)
    requires
        in_place(w),
        related(w, p, l),
        written(w, EventView::EndElement(q)) is Ok,
    ensures
        ({
            let ev = EventView::EndElement(q);
            let (next, chars) = written(w, ev)->Ok_0;
            read_as(
                w,
                l,
                ev,
                next,
                chars,
                tail,
                parse_next(p, l, encode_utf8(unread(l, chars + tail)), eof, false),
            )
        }),
{
    let ev = EventView::EndElement(q);
    let (next, chars) = written(w, ev)->Ok_0;
    let top = w.stack.last();
    let name = element_name(top);
    let inner = seq!['/'] + name + seq!['>'];
    reveal_strlit("</");
    assert("</"@ =~= seq!['<', '/']);
    assert(chars =~= seq!['<'] + inner);
    let bytes = encode_utf8(unread(l, chars + tail));
    let end = encode_utf8(tail);
    lemma_encode_append(inner, tail);
    let open = LexState { mode: Mode::Open, ..l };
    let content = LexState { mode: Mode::Content, ..l };
    let lead: nat = if l.mode is Open {
        0
    } else {
        encode_utf8(seq!['<']).len()
    };
    assert(p.stack.last() == p.stack[p.stack.len() - 1]);
    assert(w.stack.last() == w.stack[w.stack.len() - 1]);
    // the element was opened with a name that could be read
    assert(is_name(name) && name.len() <= l.max);
    if l.mode is Open {
        assert((chars + tail).skip(1) =~= inner + tail);
        assert(open == l);
    } else {
        assert(chars + tail =~= seq!['<'] + (inner + tail));
        lemma_encode_append(seq!['<'], inner + tail);
        lemma_tag_tokens(l);
        lemma_quiet_one(l, '<');
        lemma_parse_quiet(p, l, seq!['<'], encode_utf8(inner) + end, eof);
    }
    lemma_parse_end_tag(p, open, name, end, eof);
    let made = closed(par_to(p, Phase::Foot));
    lemma_parse_waiting(made, content, end, eof);
    let n = parse_next(p, l, bytes, eof, false);
    let taken = encode_utf8(inner).len() + lead;
    assert(n.consumed == taken);
    assert(bytes.skip(taken as int) =~= end);
    assert(made.queue =~= seq![read_back(w, ev)]);
    assert(made.queue.skip(1) =~= Seq::<EventView>::empty());
    assert(n.parser.stack =~= p.stack.drop_last());
    assert(next.stack =~= w.stack.drop_last());
    assert forall|i: int| 0 <= i < next.stack.len() implies (#[trigger] n.parser.stack[i]).name
        == element_name(next.stack[i]) && n.parser.stack[i].qname == element_read(
        next.stack[i],
    ) by {
        assert(n.parser.stack[i] == p.stack[i]);
    }
}

/// The XML declaration that the encoder wrote is read back.
pub proof fn lemma_read_declaration(
    w: WriterState,
    v: XMLVersion,
    p: ParState,
    l: LexState,
    tail: Seq<char>,
    eof: bool,
)
    requires
        in_place(w),
        related(w, p, l),
        written(w, EventView::XMLDeclaration(v)) is Ok,
    ensures
        ({
            let ev = EventView::XMLDeclaration(v);
            let (next, chars) = written(w, ev)->Ok_0;
            read_as(
                w,
                l,
                ev,
                next,
                chars,
                tail,
                parse_next(p, l, encode_utf8(unread(l, chars + tail)), eof, false),
            )
        }),
{
    let ev = EventView::XMLDeclaration(v);
    let (next, chars) = written(w, ev)->Ok_0;
    let bytes = encode_utf8(unread(l, chars + tail));
    let end = encode_utf8(tail);
    lemma_encode_append(chars, tail);
    lemma_parse_declaration(p, l, end, eof);
    let made = declared(par_to(p, Phase::Decl(DeclStep::AfterVersion)));
    let content = LexState { mode: Mode::Content, ..l };
    lemma_parse_waiting(made, content, end, eof);
    assert(bytes.skip(encode_utf8(chars).len() as int) =~= end);
    assert(made.queue =~= seq![read_back(w, ev)]);
    assert(made.queue.skip(1) =~= Seq::<EventView>::empty());
    let n = parse_next(p, l, bytes, eof, false);
    assert(n.parser == ParState { queue: made.queue.skip(1), ..made });
    assert(n.parser.stack == p.stack);
}

/// The state of a parser with the parser `p`, the lexer `l` and the
/// bytes `bytes` unread.
pub open spec fn at(p: ParState, l: LexState, bytes: Seq<u8>, eof: bool) -> FeedState {
    FeedState { parser: p, lexer: l, unread: bytes, eof }
}

/// Reads that begin alike go on alike.
pub proof fn lemma_drain_same(a: FeedState, b: FeedState)
    requires
        read_next(a).reply == read_next(b).reply,
        read_next(a).state == read_next(b).state,
    ensures
        drain(a).events == drain(b).events,
        drain(a).reply == drain(b).reply,
{
}

/// The reads take a run of characters without a token and go on behind
/// it.
pub proof fn lemma_drain_quiet(
    p: ParState,
    l: LexState,
    chars: Seq<char>,
    rest: Seq<u8>,
    eof: bool,
)
    requires
        ready(p),
        steady(l),
        lex_quiet(l, chars) is Some,
    ensures
        drain(at(p, l, encode_utf8(chars) + rest, eof)).events == drain(
            at(p, lex_quiet(l, chars)->0, rest, eof),
        ).events,
        drain(at(p, l, encode_utf8(chars) + rest, eof)).reply == drain(
            at(p, lex_quiet(l, chars)->0, rest, eof),
        ).reply,
{
    let k = encode_utf8(chars).len();
    let all = encode_utf8(chars) + rest;
    let mid = lex_quiet(l, chars)->0;
    lemma_parse_quiet(p, l, chars, rest, eof);
    let n = parse_next(p, mid, rest, eof, false);
    crate::parser::lemma_parse_progress(p, mid, rest, eof, false);
    assert(all.skip((n.consumed + k) as int) =~= rest.skip(n.consumed as int));
    lemma_drain_same(at(p, l, all, eof), at(p, mid, rest, eof));
}

/// The reads take a run of characters without a token and the character
/// that completes a token of which the parser makes the event `ev`, hand
/// out that event and go on behind it.
pub proof fn lemma_drain_event(
    p: ParState,
    l: LexState,
    chars: Seq<char>,
    c: char,
    ev: EventView,
    rest: Seq<u8>,
    eof: bool,
)
    requires
        ready(p),
        steady(l),
        lex_quiet(l, chars) is Some,
        lex_char(lex_quiet(l, chars)->0, c).token is Some,
        parse_token(p, lex_char(lex_quiet(l, chars)->0, c).token->0) == (ParState {
            queue: p.queue.push(ev),
            ..p
        }),
    ensures
        ({
            let next = lex_char(lex_quiet(l, chars)->0, c).state;
            let s = at(p, l, encode_utf8(chars.push(c)) + rest, eof);
            &&& drain(s).events == seq![ev] + drain(at(p, next, rest, eof)).events
            &&& drain(s).reply == drain(at(p, next, rest, eof)).reply
        }),
{
    let st = lex_char(lex_quiet(l, chars)->0, c);
    let all = encode_utf8(chars.push(c)) + rest;
    let k = encode_utf8(chars.push(c)).len();
    let made = ParState { queue: p.queue.push(ev), ..p };
    lemma_parse_step(p, l, chars, c, rest, eof);
    lemma_parse_waiting(made, st.state, rest, eof);
    assert(made.queue.skip(1) =~= p.queue);
    assert(p.queue =~= Seq::<EventView>::empty());
    assert(ParState { queue: made.queue.skip(1), ..made } == p);
    assert(all.skip(k as int) =~= rest);
    let s = at(p, l, all, eof);
    assert(read_next(s).state == at(p, st.state, rest, eof));
    assert(read_next(s).reply == Reply::Item(ev));
}

/// The pieces that text comes in when it is read, and what the lexer
/// holds of it at its end: `buf` is what the lexer holds before the text
/// `t`, and a piece goes out whenever the lexer holds as much as the limit
/// allows and another character comes.
pub open spec fn text_run(buf: Seq<char>, t: Seq<char>, max: nat) -> (Seq<Seq<char>>, Seq<char>)
    decreases t.len(),
{
    if t.len() == 0 {
        (Seq::empty(), buf)
    } else if buf.len() >= max && buf.len() > 0 {
        let r = text_run(seq![t[0]], t.skip(1), max);
        (seq![buf] + r.0, r.1)
    } else {
        text_run(buf.push(t[0]), t.skip(1), max)
    }
}

/// The events of pieces of text.
pub open spec fn texts(pieces: Seq<Seq<char>>) -> Seq<EventView> {
    Seq::new(pieces.len(), |i: int| EventView::Text(pieces[i]))
}

/// Pieces of text, put together.
pub open spec fn glued(pieces: Seq<Seq<char>>) -> Seq<char>
    decreases pieces.len(),
{
    if pieces.len() == 0 {
        Seq::empty()
    } else {
        pieces[0] + glued(pieces.skip(1))
    }
}

/// The pieces that text comes in, and what the lexer holds at its end,
/// are together what the lexer held and the text. Of text that is not empty
/// the lexer holds some at its end.
pub proof fn lemma_text_run(buf: Seq<char>, t: Seq<char>, max: nat)
    ensures
        glued(text_run(buf, t, max).0) + text_run(buf, t, max).1 == buf + t,
        t.len() > 0 ==> text_run(buf, t, max).1.len() > 0,
    decreases t.len(),
{
    if t.len() == 0 {
        assert(glued(Seq::<Seq<char>>::empty()) + buf =~= buf + t);
    } else if buf.len() >= max && buf.len() > 0 {
        let r = text_run(seq![t[0]], t.skip(1), max);
        lemma_text_run(seq![t[0]], t.skip(1), max);
        let all = seq![buf] + r.0;
        assert(all[0] == buf);
        assert(all.skip(1) =~= r.0);
        assert((buf + glued(r.0)) + r.1 =~= buf + (glued(r.0) + r.1));
        assert(buf + (seq![t[0]] + t.skip(1)) =~= buf + t);
    } else {
        lemma_text_run(buf.push(t[0]), t.skip(1), max);
        assert(buf.push(t[0]) + t.skip(1) =~= buf + t);
    }
}

/// Text that the encoder wrote is read in the pieces of [`text_run`]:
/// the reads hand out the pieces that are complete, and go on behind the text
/// with the lexer holding the last.
pub proof fn lemma_read_text_run(p: ParState, l: LexState, t: Seq<char>, rest: Seq<u8>, eof: bool)
    requires
        ready(p),
        p.phase is Content,
        idle(l),
        l.mode is Content,
        forall|i: int| 0 <= i < t.len() ==> spec_is_xml_char(#[trigger] t[i]),
    ensures
        ({
            let run = text_run(l.buf, t, l.max);
            let s = at(p, l, encode_utf8(escaped_text(t)) + rest, eof);
            let behind = at(p, LexState { buf: run.1, ..l }, rest, eof);
            &&& drain(s).events == texts(run.0) + drain(behind).events
            &&& drain(s).reply == drain(behind).reply
        }),
    decreases t.len(),
{
    let run = text_run(l.buf, t, l.max);
    if t.len() == 0 {
        assert(escaped_text(t) =~= Seq::<char>::empty());
        assert(encode_utf8(Seq::<char>::empty()) =~= Seq::<u8>::empty());
        assert(encode_utf8(escaped_text(t)) + rest =~= rest);
        assert(LexState { buf: run.1, ..l } == l);
        assert(texts(run.0) + drain(at(p, l, rest, eof)).events =~= drain(
            at(p, l, rest, eof),
        ).events);
    } else {
        let c = t[0];
        let esc = crate::writer::escaped_in_text(c);
        let others = escaped_text(t.skip(1));
        let tail = encode_utf8(others) + rest;
        lemma_encode_append(esc, others);
        assert(encode_utf8(escaped_text(t)) + rest =~= encode_utf8(esc) + tail);
        crate::relex::lemma_escaped_in_text_step(l, c);
        let quiet = esc.drop_last();
        let last = esc.last();
        assert(esc =~= quiet.push(last));
        let mid = lex_quiet(l, quiet)->0;
        let st = lex_char(mid, last);
        assert forall|i: int| 0 <= i < t.skip(1).len() implies spec_is_xml_char(
            #[trigger] t.skip(1)[i],
        ) by {
            assert(t.skip(1)[i] == t[i + 1]);
        }
        if l.buf.len() >= l.max && l.buf.len() > 0 {
            let next = LexState { buf: seq![c], ..l };
            assert(st.state == next);
            lemma_tokens(p, l.buf);
            lemma_drain_event(p, l, quiet, last, EventView::Text(l.buf), tail, eof);
            lemma_read_text_run(p, next, t.skip(1), rest, eof);
            let r = text_run(seq![c], t.skip(1), l.max);
            assert(LexState { buf: r.1, ..next } == LexState { buf: run.1, ..l });
            assert(texts(seq![l.buf] + r.0) =~= seq![EventView::Text(l.buf)] + texts(r.0));
            assert(seq![EventView::Text(l.buf)] + (texts(r.0) + drain(
                at(p, LexState { buf: run.1, ..l }, rest, eof),
            ).events) =~= texts(run.0) + drain(at(p, LexState { buf: run.1, ..l }, rest, eof)).events);
        } else {
            let next = LexState { buf: l.buf.push(c), ..l };
            assert(st.state == next);
            lemma_lex_quiet_append(l, quiet, seq![last]);
            lemma_quiet_one(mid, last);
            assert(quiet + seq![last] =~= esc);
            lemma_drain_quiet(p, l, esc, tail, eof);
            lemma_read_text_run(p, next, t.skip(1), rest, eof);
            assert(LexState { buf: run.1, ..next } == LexState { buf: run.1, ..l });
        }
    }
}

/// The events with each run of text in one piece.
pub open spec fn joined(events: Seq<EventView>) -> Seq<EventView>
    decreases events.len(),
{
    if events.len() == 0 {
        Seq::empty()
    } else {
        join_first(events[0], joined(events.skip(1)))
    }
}

/// The event `first` before events whose runs of text are in one piece
/// each: text goes into the text that it stands before.
pub open spec fn join_first(first: EventView, rest: Seq<EventView>) -> Seq<EventView> {
    match first {
        EventView::Text(t) => if rest.len() > 0 && rest[0] is Text {
            seq![EventView::Text(t + rest[0]->Text_0)] + rest.skip(1)
        } else {
            seq![first] + rest
        },
        _ => seq![first] + rest,
    }
}

/// What two sequences of events are with their text joined depends on
/// what the second is with its text joined.
pub proof fn lemma_joined_append(a: Seq<EventView>, x: Seq<EventView>, y: Seq<EventView>)
    requires
        joined(x) == joined(y),
    ensures
        joined(a + x) == joined(a + y),
    decreases a.len(),
{
    if a.len() == 0 {
        assert(a + x =~= x);
        assert(a + y =~= y);
    } else {
        assert((a + x)[0] == a[0] && (a + y)[0] == a[0]);
        assert((a + x).skip(1) =~= a.skip(1) + x);
        assert((a + y).skip(1) =~= a.skip(1) + y);
        lemma_joined_append(a.skip(1), x, y);
    }
}

/// Pieces of text one after the other are joined to the text that they
/// are together.
pub proof fn lemma_joined_texts(pieces: Seq<Seq<char>>, y: Seq<EventView>)
    requires
        pieces.len() > 0,
    ensures
        joined(texts(pieces) + y) == joined(seq![EventView::Text(glued(pieces))] + y),
    decreases pieces.len(),
{
    let all = texts(pieces) + y;
    let one = seq![EventView::Text(glued(pieces))] + y;
    assert(all[0] == EventView::Text(pieces[0]));
    assert(all.skip(1) =~= texts(pieces.skip(1)) + y);
    assert(one[0] == EventView::Text(glued(pieces)));
    assert(one.skip(1) =~= y);
    if pieces.len() == 1 {
        assert(pieces.skip(1) =~= Seq::<Seq<char>>::empty());
        assert(glued(pieces.skip(1)) =~= Seq::<char>::empty());
        assert(glued(pieces) =~= pieces[0]);
        assert(texts(pieces.skip(1)) + y =~= y);
    } else {
        let less = pieces.skip(1);
        lemma_joined_texts(less, y);
        let mid = seq![EventView::Text(glued(less))] + y;
        assert(mid[0] == EventView::Text(glued(less)));
        assert(mid.skip(1) =~= y);
        let tail = joined(y);
        if tail.len() > 0 && tail[0] is Text {
            let u = tail[0]->Text_0;
            assert((pieces[0] + glued(less)) + u =~= pieces[0] + (glued(less) + u));
            assert((seq![EventView::Text(glued(less) + u)] + tail.skip(1)).skip(1) =~= tail.skip(1));
        } else {
            assert((seq![EventView::Text(glued(less))] + tail).skip(1) =~= tail);
        }
    }
}

/// What the lexer holds of text, as the event that it will be.
pub open spec fn held_text(buf: Seq<char>) -> Seq<EventView> {
    if buf.len() > 0 {
        seq![EventView::Text(buf)]
    } else {
        Seq::empty()
    }
}

/// The parser and the lexer stand where the encoder stands, and the
/// lexer may hold text that was read and not handed out yet.
pub open spec fn holding(w: WriterState, p: ParState, l: LexState) -> bool {
    &&& related(w, p, LexState { buf: Seq::empty(), ..l })
    &&& l.mode !is Open
    &&& l.buf.len() > 0 ==> w.place is Inside
}

/// The reads hand out the text that the lexer holds when a tag begins,
/// and then the event of the tag.
pub proof fn lemma_read_tag(
    w: WriterState,
    ev: EventView,
    p: ParState,
    l: LexState,
    tail: Seq<char>,
    eof: bool,
)
    requires
        in_place(w),
        holding(w, p, l),
        ev is StartElement || ev is EndElement || ev is XMLDeclaration,
        written(w, ev) is Ok,
    ensures
        ({
            let (next, chars) = written(w, ev)->Ok_0;
            let s = at(p, l, encode_utf8(chars + tail), eof);
            exists|p2: ParState, l2: LexState|
                #![trigger holding(next, p2, l2)]
                holding(next, p2, l2) && l2.buf.len() == 0 && drain(s).events == held_text(l.buf)
                    + seq![read_back(w, ev)] + drain(at(p2, l2, encode_utf8(tail), eof)).events
                    && drain(s).reply == drain(at(p2, l2, encode_utf8(tail), eof)).reply
        }),
{
    let (next, chars) = written(w, ev)->Ok_0;
    let doc = chars + tail;
    let s = at(p, l, encode_utf8(doc), eof);
    let none = Seq::<char>::empty();
    let empty = LexState { buf: none, ..l };
    // where the lexer stands when the event of the tag is due
    let from = if l.buf.len() > 0 {
        LexState { mode: Mode::Open, buf: none, ..l }
    } else {
        l
    };
    if l.buf.len() > 0 {
        reveal_strlit("</");
        match ev {
            EventView::StartElement(q, attrs) => {
                lemma_start_tag_is_pairs(q, attrs, w.max);
            },
            _ => {},
        }
        assert(chars.len() > 0 && chars[0] == '<');
        assert(doc =~= none.push('<') + doc.skip(1));
        lemma_encode_append(none.push('<'), doc.skip(1));
        lemma_tag_tokens(l);
        assert(lex_quiet(l, none) == Some(l));
        assert(lex_char(l, '<').state == from);
        lemma_tokens(p, l.buf);
        lemma_drain_event(p, l, none, '<', EventView::Text(l.buf), encode_utf8(doc.skip(1)), eof);
    } else {
        assert(l.buf =~= none);
        assert(empty == l);
    }
    assert(related(w, p, from));
    let bytes = encode_utf8(unread(from, doc));
    let after = at(p, from, bytes, eof);
    match ev {
        EventView::XMLDeclaration(v) => lemma_read_declaration(w, v, p, from, tail, eof),
        EventView::StartElement(q, attrs) => lemma_read_start(w, q, attrs, p, from, tail, eof),
        EventView::EndElement(q) => lemma_read_end(w, q, p, from, tail, eof),
        _ => {},
    }
    let n = parse_next(p, from, bytes, eof, false);
    let behind = at(n.parser, n.lexer, encode_utf8(tail), eof);
    assert(read_next(after).state == behind);
    assert(drain(after).events == seq![read_back(w, ev)] + drain(behind).events);
    assert(LexState { buf: none, ..n.lexer } == n.lexer) by {
        assert(n.lexer.buf =~= none);
    }
    assert(holding(next, n.parser, n.lexer));
    if l.buf.len() > 0 {
        assert(seq![EventView::Text(l.buf)] + (seq![read_back(w, ev)] + drain(behind).events)
            =~= held_text(l.buf) + seq![read_back(w, ev)] + drain(behind).events);
    } else {
        assert(held_text(l.buf) + seq![read_back(w, ev)] + drain(behind).events =~= seq![
            read_back(w, ev),
        ] + drain(behind).events);
    }
}

/// The rest of a document that the encoder wrote is read back, from
/// where the parser and the lexer stand after what came before it: with
/// each run of text in one piece, the events that are read are those that
/// were written, after the text that the lexer holds.
pub proof fn lemma_read_document(
    w: WriterState,
    events: Seq<EventView>,
    p: ParState,
    l: LexState,
)
    requires
        in_place(w),
        holding(w, p, l),
        document(w, events) is Some,
    ensures
        ({
            let doc = document(w, events)->0;
            let s = at(p, l, encode_utf8(doc), true);
            joined(drain(s).events) == joined(held_text(l.buf) + all_read_back(w, events))
                && drain(s).reply is End
        }),
    decreases events.len(),
{
    let doc = document(w, events)->0;
    let s = at(p, l, encode_utf8(doc), true);
    if events.len() == 0 {
        reveal(lex_end);
        assert(doc =~= Seq::<char>::empty());
        assert(encode_utf8(Seq::<char>::empty()) =~= Seq::<u8>::empty());
        assert(l.buf =~= Seq::<char>::empty());
        let n = lex_next(l, Seq::<u8>::empty(), true);
        assert(n.reply is End);
        assert(read_next(s).reply is End);
        assert(held_text(l.buf) + all_read_back(w, events) =~= Seq::<EventView>::empty());
        assert(drain(s).events =~= Seq::<EventView>::empty());
    } else {
        let ev = events[0];
        let (next, chars) = written(w, ev)->Ok_0;
        let others = events.skip(1);
        let tail = document(next, others)->0;
        let back = all_read_back(next, others);
        lemma_in_place(w, ev);
        assert(doc == chars + tail);
        assert(all_read_back(w, events) == seq![read_back(w, ev)] + back);
        match ev {
            EventView::Text(t) => {
                let run = text_run(l.buf, t, l.max);
                let l2 = LexState { buf: run.1, ..l };
                let behind = at(p, l2, encode_utf8(tail), true);
                lemma_encode_append(chars, tail);
                lemma_read_text_run(p, l, t, encode_utf8(tail), true);
                lemma_text_run(l.buf, t, l.max);
                assert(LexState { buf: Seq::empty(), ..l2 } == LexState {
                    buf: Seq::empty(),
                    ..l
                });
                lemma_read_document(next, others, p, l2);
                // what was read, joined
                let pieces = run.0.push(run.1);
                lemma_joined_append(texts(run.0), drain(behind).events, held_text(run.1) + back);
                assert(texts(run.0) + (held_text(run.1) + back) =~= texts(pieces) + back);
                lemma_joined_texts(pieces, back);
                lemma_glued_push(run.0, run.1);
                // what was written, joined
                if l.buf.len() > 0 {
                    let two = seq![l.buf, t];
                    assert(held_text(l.buf) + (seq![EventView::Text(t)] + back) =~= texts(two)
                        + back);
                    lemma_joined_texts(two, back);
                    lemma_glued_pair(l.buf, t);
                } else {
                    assert(held_text(l.buf) + (seq![EventView::Text(t)] + back) =~= seq![
                        EventView::Text(t),
                    ] + back);
                    assert(l.buf + t =~= t);
                }
            },
            _ => {
                lemma_read_tag(w, ev, p, l, tail, true);
                let (p2, l2) = choose|p2: ParState, l2: LexState|
                    #![trigger holding(next, p2, l2)]
                    holding(next, p2, l2) && l2.buf.len() == 0 && drain(s).events == held_text(
                        l.buf,
                    ) + seq![read_back(w, ev)] + drain(
                        at(p2, l2, encode_utf8(tail), true),
                    ).events && drain(s).reply == drain(at(p2, l2, encode_utf8(tail), true)).reply;
                let behind = at(p2, l2, encode_utf8(tail), true);
                lemma_read_document(next, others, p2, l2);
                assert(held_text(l2.buf) + back =~= back);
                lemma_joined_append(
                    held_text(l.buf) + seq![read_back(w, ev)],
                    drain(behind).events,
                    back,
                );
                assert(held_text(l.buf) + seq![read_back(w, ev)] + back =~= held_text(l.buf) + (
                seq![read_back(w, ev)] + back));
            },
        }
    }
}

/// Pieces of text and one more are together what they are and the one
/// more.
pub proof fn lemma_glued_push(pieces: Seq<Seq<char>>, last: Seq<char>)
    ensures
        glued(pieces.push(last)) == glued(pieces) + last,
    decreases pieces.len(),
{
    if pieces.len() == 0 {
        assert(pieces.push(last).skip(1) =~= Seq::<Seq<char>>::empty());
        assert(glued(Seq::<Seq<char>>::empty()) =~= Seq::<char>::empty());
        assert(glued(pieces.push(last)) =~= last + Seq::<char>::empty());
        assert(glued(pieces) + last =~= last);
        assert(last + Seq::<char>::empty() =~= last);
    } else {
        assert(pieces.push(last).skip(1) =~= pieces.skip(1).push(last));
        lemma_glued_push(pieces.skip(1), last);
        assert((pieces[0] + glued(pieces.skip(1))) + last =~= pieces[0] + (glued(pieces.skip(1))
            + last));
    }
}

/// Two pieces of text are together the one and then the other.
pub proof fn lemma_glued_pair(a: Seq<char>, b: Seq<char>)
    ensures
        glued(seq![a, b]) == a + b,
{
    lemma_glued_push(seq![a], b);
    lemma_glued_push(Seq::empty(), a);
    assert(Seq::<Seq<char>>::empty().push(a) =~= seq![a]);
    assert(seq![a].push(b) =~= seq![a, b]);
    assert(glued(Seq::<Seq<char>>::empty()) =~= Seq::<char>::empty());
    assert(Seq::<char>::empty() + a =~= a);
}

/// What the encoder writes, the parser reads back.
///
/// Where the encoder makes a document of a sequence of events, the parser
/// makes of the bytes of that document the same sequence of events, with
/// the prefixes that the encoder chose and with each run of text in one
/// piece, and comes to the end of the document in good order: no element,
/// no attribute, no namespace, no value and no text is lost or changed.
/// Text that is longer than the limit, and text that was written in several
/// events, is read in pieces that are together the text that was written.
pub proof fn lemma_round_trip(events: Seq<EventView>, max: nat)
    requires
        document(writer_start(max), events) is Some,
    ensures
        ({
            let doc = document(writer_start(max), events)->0;
            let read = drain(fed_with(feed_start(max), encode_utf8(doc), true));
            joined(read.events) == joined(all_read_back(writer_start(max), events))
                && read.reply is End
        }),
{
    let w = writer_start(max);
    let doc = document(w, events)->0;
    let s = fed_with(feed_start(max), encode_utf8(doc), true);
    lemma_read_document(w, events, par_start(), lex_start(max));
    assert(s.unread =~= encode_utf8(doc));
    assert(s == at(par_start(), lex_start(max), encode_utf8(doc), true));
    assert(held_text(lex_start(max).buf) + all_read_back(w, events) =~= all_read_back(w, events));
}

} // verus!
