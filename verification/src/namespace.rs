//! Namespaces: the declarations in scope and what a name resolves to.
//!
//! The declarations in scope are a sequence of [`Binding`]s, the innermost
//! last. An element adds its own at the end when it opens and takes them away
//! when it closes, so that a prefix always means what the nearest enclosing
//! element with a declaration for it says.
use vstd::prelude::*;
use crate::chars::{
    chars_are,
    is_name_char,
    is_name_start,
    same_chars,
    spec_is_name_char,
    spec_is_name_start,
    string_from_chars,
};
use crate::context::{copy_chars, Context};
use crate::error::{Fatal, NWFError};

verus! {

/// The namespace that the prefix `xml` stands for.
pub const XMLNS_XML: &'static str = "http://www.w3.org/XML/1998/namespace";

/// The namespace that the prefix `xmlns` stands for.
pub const XMLNS_XMLNS: &'static str = "http://www.w3.org/2000/xmlns/";

pub open spec fn xml_namespace() -> Seq<char> {
    "http://www.w3.org/XML/1998/namespace"@
}

pub open spec fn xmlns_namespace() -> Seq<char> {
    "http://www.w3.org/2000/xmlns/"@
}

/// A name with its namespace.
#[derive(Clone, Debug, PartialEq, Eq)]
pub struct QName {
    /// The name of the namespace; `None` for a name in no namespace.
    pub namespace: Option<String>,
    /// The prefix that the document used, if it used one.
    pub prefix: Option<String>,
    /// The name without its prefix.
    pub local: String,
}

/// A [`QName`] as a mathematical value.
pub struct QNameView {
    pub namespace: Option<Seq<char>>,
    pub prefix: Option<Seq<char>>,
    pub local: Seq<char>,
}

pub open spec fn opt_view(s: Option<String>) -> Option<Seq<char>> {
    match s {
        Some(x) => Some(x@),
        None => None,
    }
}

impl View for QName {
    type V = QNameView;

    open spec fn view(&self) -> QNameView {
        QNameView {
            namespace: opt_view(self.namespace),
            prefix: opt_view(self.prefix),
            local: self.local@,
        }
    }
}

/// The declaration of a prefix. The empty prefix stands for the default
/// namespace, and an empty name for no namespace.
pub struct Binding {
    pub prefix: Seq<char>,
    pub uri: Seq<char>,
}

/// What `prefix` is bound to: the name in its innermost declaration.
pub open spec fn bound(bindings: Seq<Binding>, prefix: Seq<char>) -> Option<Seq<char>>
    decreases bindings.len(),
{
    if bindings.len() == 0 {
        None
    } else if bindings.last().prefix == prefix {
        Some(bindings.last().uri)
    } else {
        bound(bindings.drop_last(), prefix)
    }
}

/// The namespace of an element without a prefix.
pub open spec fn default_namespace(bindings: Seq<Binding>) -> Option<Seq<char>> {
    match bound(bindings, Seq::empty()) {
        Some(uri) => if uri.len() > 0 {
            Some(uri)
        } else {
            None
        },
        None => None,
    }
}

/// A name without a colon: the production `NCName`.
pub open spec fn is_ncname(s: Seq<char>) -> bool {
    &&& s.len() > 0
    &&& spec_is_name_start(s[0])
    &&& forall|i: int| 0 <= i < s.len() ==> spec_is_name_char(#[trigger] s[i]) && s[i] != ':'
}

/// The index of the first colon of `name` from `from` on, and the length of
/// `name` where there is none.
pub open spec fn colon_at(name: Seq<char>, from: int) -> int
    decreases name.len() - from,
{
    if from >= name.len() {
        name.len() as int
    } else if name[from] == ':' {
        from
    } else {
        colon_at(name, from + 1)
    }
}

/// Whether `name` begins with `xmlns:`.
pub open spec fn declares_prefix(name: Seq<char>) -> bool {
    name.len() >= 6 && name[0] == 'x' && name[1] == 'm' && name[2] == 'l' && name[3] == 'n'
        && name[4] == 's' && name[5] == ':'
}

/// Whether an attribute of this name declares a namespace.
pub open spec fn is_declaration(name: Seq<char>) -> bool {
    name == "xmlns"@ || declares_prefix(name)
}

/// Whether `uri` is one of the two names that no declaration may bind.
pub open spec fn is_reserved(uri: Seq<char>) -> bool {
    uri == xml_namespace() || uri == xmlns_namespace()
}

/// The declarations in scope after the attribute `name` with the value
/// `value`.
pub open spec fn scope_with(bindings: Seq<Binding>, name: Seq<char>, value: Seq<char>) -> Result<
    Seq<Binding>,
    Fatal,
> {
    if name == "xmlns"@ {
        if is_reserved(value) {
            Err(Fatal::NotNamespaceWellFormed(NWFError::ReservedNamespace))
        } else {
            Ok(bindings.push(Binding { prefix: Seq::empty(), uri: value }))
        }
    } else if declares_prefix(name) {
        let prefix = name.skip(6);
        if !is_ncname(prefix) {
            Err(Fatal::NotNamespaceWellFormed(NWFError::InvalidName))
        } else if prefix == "xmlns"@ {
            Err(Fatal::NotNamespaceWellFormed(NWFError::ReservedPrefix))
        } else if prefix == "xml"@ {
            if value == xml_namespace() {
                Ok(bindings)
            } else {
                Err(Fatal::NotNamespaceWellFormed(NWFError::ReservedPrefix))
            }
        } else if value.len() == 0 {
            Err(Fatal::NotNamespaceWellFormed(NWFError::EmptyNamespace))
        } else if is_reserved(value) {
            Err(Fatal::NotNamespaceWellFormed(NWFError::ReservedNamespace))
        } else {
            Ok(bindings.push(Binding { prefix, uri: value }))
        }
    } else {
        Ok(bindings)
    }
}

/// The declarations in scope inside an element with the attributes `attrs`,
/// where `bindings` are in scope around it.
pub open spec fn scope_of(bindings: Seq<Binding>, attrs: Seq<(Seq<char>, Seq<char>)>) -> Result<
    Seq<Binding>,
    Fatal,
>
    decreases attrs.len(),
{
    if attrs.len() == 0 {
        Ok(bindings)
    } else {
        match scope_with(bindings, attrs[0].0, attrs[0].1) {
            Ok(next) => scope_of(next, attrs.skip(1)),
            Err(f) => Err(f),
        }
    }
}

/// What the name `name` of an element, or of an attribute if `attr`, means
/// where `bindings` are in scope.
///
/// A name without a prefix is in the default namespace if it is the name of
/// an element, and in no namespace if it is the name of an attribute.
pub open spec fn qname_of(bindings: Seq<Binding>, name: Seq<char>, attr: bool) -> Result<
    QNameView,
    Fatal,
> {
    let at = colon_at(name, 0);
    if at >= name.len() {
        if !is_ncname(name) {
            Err(Fatal::NotNamespaceWellFormed(NWFError::InvalidName))
        } else {
            Ok(
                QNameView {
                    namespace: if attr {
                        None
                    } else {
                        default_namespace(bindings)
                    },
                    prefix: None,
                    local: name,
                },
            )
        }
    } else {
        let prefix = name.take(at);
        let local = name.skip(at + 1);
        if !is_ncname(prefix) || !is_ncname(local) {
            Err(Fatal::NotNamespaceWellFormed(NWFError::InvalidName))
        } else if prefix == "xmlns"@ {
            Err(Fatal::NotNamespaceWellFormed(NWFError::ReservedPrefix))
        } else if prefix == "xml"@ {
            Ok(QNameView { namespace: Some(xml_namespace()), prefix: Some(prefix), local })
        } else {
            match bound(bindings, prefix) {
                Some(uri) => Ok(QNameView { namespace: Some(uri), prefix: Some(prefix), local }),
                None => Err(Fatal::NotNamespaceWellFormed(NWFError::UndeclaredPrefix)),
            }
        }
    }
}

/// Whether `done` holds an attribute with the namespace and the local name
/// of `q`.
pub open spec fn has_qname(done: Seq<(QNameView, Seq<char>)>, q: QNameView) -> bool {
    exists|i: int|
        0 <= i < done.len() && (#[trigger] done[i]).0.namespace == q.namespace && done[i].0.local
            == q.local
}

/// The attributes `attrs` of a start tag after `done`, resolved where
/// `bindings` are in scope. The declarations of namespaces are not among
/// them.
pub open spec fn attributes_of(
    bindings: Seq<Binding>,
    attrs: Seq<(Seq<char>, Seq<char>)>,
    done: Seq<(QNameView, Seq<char>)>,
) -> Result<Seq<(QNameView, Seq<char>)>, Fatal>
    decreases attrs.len(),
{
    if attrs.len() == 0 {
        Ok(done)
    } else if is_declaration(attrs[0].0) {
        attributes_of(bindings, attrs.skip(1), done)
    } else {
        match qname_of(bindings, attrs[0].0, true) {
            Ok(q) => if has_qname(done, q) {
                Err(Fatal::NotNamespaceWellFormed(NWFError::DuplicateAttribute))
            } else {
                attributes_of(bindings, attrs.skip(1), done.push((q, attrs[0].1)))
            },
            Err(f) => Err(f),
        }
    }
}

/// The attributes of an event as a mathematical value.
pub open spec fn attributes_view(a: Seq<(QName, String)>) -> Seq<(QNameView, Seq<char>)> {
    Seq::new(a.len(), |i: int| (a[i].0@, a[i].1@))
}

/// The attributes of a tag as a mathematical value.
pub open spec fn pairs_view(a: Seq<(Vec<char>, Vec<char>)>) -> Seq<(Seq<char>, Seq<char>)> {
    Seq::new(a.len(), |i: int| (a[i].0@, a[i].1@))
}

/// A declaration as the parser holds it: the prefix and the handle of the
/// namespace name.
pub struct Scope {
    pub prefix: Vec<char>,
    pub uri: usize,
}

/// The declarations that `scopes` stand for, given the strings of their
/// handles.
pub open spec fn scopes_view(scopes: Seq<Scope>, entries: Seq<Seq<char>>) -> Seq<Binding> {
    Seq::new(
        scopes.len(),
        |i: int| Binding { prefix: scopes[i].prefix@, uri: entries[scopes[i].uri as int] },
    )
}

/// Every handle in `scopes` is one of the table.
pub open spec fn scopes_wf(scopes: Seq<Scope>, entries: Seq<Seq<char>>) -> bool {
    forall|i: int| 0 <= i < scopes.len() ==> (#[trigger] scopes[i]).uri < entries.len()
}

/// `after` holds the strings of `before` under the handles they had.
pub open spec fn extends(before: Seq<Seq<char>>, after: Seq<Seq<char>>) -> bool {
    &&& before.len() <= after.len()
    &&& forall|i: int| 0 <= i < before.len() ==> after[i] == before[i]
}

/// Declarations mean the same when the table has grown.
pub proof fn lemma_scopes_stable(scopes: Seq<Scope>, before: Seq<Seq<char>>, after: Seq<Seq<char>>)
    requires
        scopes_wf(scopes, before),
        extends(before, after),
    ensures
        scopes_view(scopes, after) == scopes_view(scopes, before),
        scopes_wf(scopes, after),
{
    assert(scopes_view(scopes, after) =~= scopes_view(scopes, before));
}

/// What a resolution returned is what [`qname_of`] says.
pub open spec fn named(r: Result<QName, Fatal>, s: Result<QNameView, Fatal>) -> bool {
    match s {
        Ok(q) => r matches Ok(x) && x@ == q,
        Err(f) => r matches Err(g) && g == f,
    }
}

pub(crate) fn check_ncname(v: &Vec<char>, from: usize, to: usize) -> (r: bool)
    requires
        from <= to <= v.len(),
    ensures
        r == is_ncname(v@.subrange(from as int, to as int)),
{
    let ghost s = v@.subrange(from as int, to as int);
    if from == to || !is_name_start(v[from]) {
        return false;
    }
    let mut i: usize = from;
    while i < to
        invariant
            from <= i <= to <= v.len(),
            s == v@.subrange(from as int, to as int),
            forall|j: int| 0 <= j < i - from ==> spec_is_name_char(#[trigger] s[j]) && s[j] != ':',
        decreases to - i,
    {
        if !is_name_char(v[i]) || v[i] == ':' {
            assert(s[i - from] == v@[i as int]);
            return false;
        }
        assert(s[i - from] == v@[i as int]);
        i += 1;
    }
    true
}

fn find_colon(v: &Vec<char>) -> (at: usize)
    ensures
        at == colon_at(v@, 0),
        at <= v.len(),
{
    let mut i: usize = 0;
    while i < v.len()
        invariant
            i <= v.len(),
            colon_at(v@, 0) == colon_at(v@, i as int),
        decreases v.len() - i,
    {
        if v[i] == ':' {
            return i;
        }
        i += 1;
    }
    i
}

fn check_declares_prefix(v: &Vec<char>) -> (r: bool)
    ensures
        r == declares_prefix(v@),
{
    v.len() >= 6 && v[0] == 'x' && v[1] == 'm' && v[2] == 'l' && v[3] == 'n' && v[4] == 's' && v[5]
        == ':'
}

pub(crate) fn check_reserved(v: &Vec<char>) -> (r: bool)
    ensures
        r == is_reserved(v@),
{
    chars_are(v, "http://www.w3.org/XML/1998/namespace") || chars_are(
        v,
        "http://www.w3.org/2000/xmlns/",
    )
}

/// The handle of the name that `prefix` is bound to.
fn lookup(scopes: &Vec<Scope>, ctx: &Context, prefix: &Vec<char>) -> (r: Option<usize>)
    requires
        scopes_wf(scopes@, ctx.entries()),
    ensures
        match bound(scopes_view(scopes@, ctx.entries()), prefix@) {
            Some(uri) => r matches Some(h) && h < ctx.entries().len() && ctx.entries()[h as int]
                == uri,
            None => r is None,
        },
{
    let ghost all = scopes_view(scopes@, ctx.entries());
    let mut i: usize = scopes.len();
    assert(all.take(i as int) =~= all);
    while i > 0
        invariant
            i <= scopes.len(),
            all == scopes_view(scopes@, ctx.entries()),
            scopes_wf(scopes@, ctx.entries()),
            bound(all, prefix@) == bound(all.take(i as int), prefix@),
        decreases i,
    {
        i -= 1;
        assert(all.take(i + 1).last() == all[i as int]);
        assert(all.take(i + 1).drop_last() =~= all.take(i as int));
        if same_chars(&scopes[i].prefix, prefix) {
            return Some(scopes[i].uri);
        }
    }
    None
}

/// Adds the declarations among `attrs` to `scopes`. Where one of them is at
/// fault, `scopes` is as it was.
pub(crate) fn declare(
    scopes: &mut Vec<Scope>,
    ctx: &mut Context,
    attrs: &Vec<(Vec<char>, Vec<char>)>,
) -> (r: Result<(), Fatal>)
    requires
        scopes_wf(old(scopes)@, old(ctx).entries()),
    ensures
        scopes_wf(final(scopes)@, final(ctx).entries()),
        extends(old(ctx).entries(), final(ctx).entries()),
        old(scopes)@.len() <= final(scopes)@.len(),
        final(scopes)@.take(old(scopes)@.len() as int) == old(scopes)@,
        match scope_of(scopes_view(old(scopes)@, old(ctx).entries()), pairs_view(attrs@)) {
            Ok(b) => r is Ok && scopes_view(final(scopes)@, final(ctx).entries()) == b,
            Err(f) => r == Err::<(), Fatal>(f) && final(scopes)@ == old(scopes)@,
        },
{
    let ghost start = scopes_view(scopes@, ctx.entries());
    let ghost pairs = pairs_view(attrs@);
    let base = scopes.len();
    let mut i: usize = 0;
    let mut failed: Option<Fatal> = None;
    assert(pairs.skip(0) =~= pairs);
    assert(scopes@.take(base as int) =~= scopes@);
    while i < attrs.len() && failed.is_none()
        invariant
            i <= attrs.len(),
            pairs == pairs_view(attrs@),
            start == scopes_view(old(scopes)@, old(ctx).entries()),
            base == old(scopes)@.len(),
            base <= scopes@.len(),
            scopes@.take(base as int) == old(scopes)@,
            scopes_wf(old(scopes)@, old(ctx).entries()),
            scopes_wf(scopes@, ctx.entries()),
            extends(old(ctx).entries(), ctx.entries()),
            match failed {
                Some(f) => scope_of(start, pairs) == Err::<Seq<Binding>, Fatal>(f),
                None => scope_of(start, pairs) == scope_of(
                    scopes_view(scopes@, ctx.entries()),
                    pairs.skip(i as int),
                ),
            },
        decreases attrs.len() - i, if failed is None { 1int } else { 0int },
    {
        let name = &attrs[i].0;
        let value = &attrs[i].1;
        let ghost now = scopes_view(scopes@, ctx.entries());
        let ghost before = ctx.entries();
        let ghost held = scopes@;
        assert(pairs.skip(i as int)[0] == (name@, value@));
        assert(pairs.skip(i as int).skip(1) =~= pairs.skip(i + 1));
        if chars_are(name, "xmlns") {
            if check_reserved(value) {
                failed = Some(Fatal::NotNamespaceWellFormed(NWFError::ReservedNamespace));
            } else {
                let h = ctx.intern(value);
                scopes.push(Scope { prefix: Vec::new(), uri: h });
                proof {
                    lemma_scopes_stable(held, before, ctx.entries());
                    assert(scopes_view(scopes@, ctx.entries()) =~= now.push(
                        Binding { prefix: Seq::empty(), uri: value@ },
                    ));
                    assert(scopes@.take(base as int) =~= held.take(base as int));
                }
            }
        } else if check_declares_prefix(name) {
            let prefix = copy_chars(name, 6, name.len());
            assert(prefix@ =~= name@.skip(6));
            if !check_ncname(name, 6, name.len()) {
                failed = Some(Fatal::NotNamespaceWellFormed(NWFError::InvalidName));
            } else if chars_are(&prefix, "xmlns") {
                failed = Some(Fatal::NotNamespaceWellFormed(NWFError::ReservedPrefix));
            } else if chars_are(&prefix, "xml") {
                if !chars_are(value, "http://www.w3.org/XML/1998/namespace") {
                    failed = Some(Fatal::NotNamespaceWellFormed(NWFError::ReservedPrefix));
                }
            } else if value.len() == 0 {
                failed = Some(Fatal::NotNamespaceWellFormed(NWFError::EmptyNamespace));
            } else if check_reserved(value) {
                failed = Some(Fatal::NotNamespaceWellFormed(NWFError::ReservedNamespace));
            } else {
                let h = ctx.intern(value);
                let ghost p = prefix@;
                scopes.push(Scope { prefix, uri: h });
                proof {
                    lemma_scopes_stable(held, before, ctx.entries());
                    assert(scopes_view(scopes@, ctx.entries()) =~= now.push(
                        Binding { prefix: p, uri: value@ },
                    ));
                    assert(scopes@.take(base as int) =~= held.take(base as int));
                }
            }
        }
        if failed.is_none() {
            i += 1;
        }
    }
    match failed {
        Some(f) => {
            scopes.truncate(base);
            proof {
                assert(scopes@ =~= old(scopes)@);
                lemma_scopes_stable(old(scopes)@, old(ctx).entries(), ctx.entries());
            }
            Err(f)
        },
        None => {
            assert(pairs.skip(i as int) =~= Seq::<(Seq<char>, Seq<char>)>::empty());
            Ok(())
        },
    }
}

fn some_string(v: &Vec<char>) -> (r: Option<String>)
    ensures
        opt_view(r) == Some(v@),
{
    Some(string_from_chars(v))
}

/// Resolves the name of an element, or of an attribute if `attr`.
pub(crate) fn resolve_name(scopes: &Vec<Scope>, ctx: &Context, name: &Vec<char>, attr: bool) -> (r:
    Result<QName, Fatal>)
    requires
        scopes_wf(scopes@, ctx.entries()),
    ensures
        named(r, qname_of(scopes_view(scopes@, ctx.entries()), name@, attr)),
{
    let at = find_colon(name);
    if at >= name.len() {
        assert(name@.subrange(0, name@.len() as int) =~= name@);
        if !check_ncname(name, 0, name.len()) {
            return Err(Fatal::NotNamespaceWellFormed(NWFError::InvalidName));
        }
        let mut namespace: Option<String> = None;
        if !attr {
            let none: Vec<char> = Vec::new();
            assert(none@ =~= Seq::<char>::empty());
            match lookup(scopes, ctx, &none) {
                Some(h) => {
                    let uri = ctx.get(h);
                    if uri.len() > 0 {
                        namespace = some_string(uri);
                    }
                },
                None => {},
            }
        }
        Ok(QName { namespace, prefix: None, local: string_from_chars(name) })
    } else {
        let prefix = copy_chars(name, 0, at);
        let local = copy_chars(name, at + 1, name.len());
        assert(prefix@ =~= name@.take(at as int));
        assert(local@ =~= name@.skip(at + 1));
        if !check_ncname(name, 0, at) || !check_ncname(name, at + 1, name.len()) {
            Err(Fatal::NotNamespaceWellFormed(NWFError::InvalidName))
        } else if chars_are(&prefix, "xmlns") {
            Err(Fatal::NotNamespaceWellFormed(NWFError::ReservedPrefix))
        } else if chars_are(&prefix, "xml") {
            let uri: String = "http://www.w3.org/XML/1998/namespace".to_owned();
            Ok(
                QName {
                    namespace: Some(uri),
                    prefix: some_string(&prefix),
                    local: string_from_chars(&local),
                },
            )
        } else {
            match lookup(scopes, ctx, &prefix) {
                Some(h) => Ok(
                    QName {
                        namespace: some_string(ctx.get(h)),
                        prefix: some_string(&prefix),
                        local: string_from_chars(&local),
                    },
                ),
                None => Err(Fatal::NotNamespaceWellFormed(NWFError::UndeclaredPrefix)),
            }
        }
    }
}

pub(crate) fn same_namespace(a: &Option<String>, b: &Option<String>) -> (r: bool)
    ensures
        r == (opt_view(*a) == opt_view(*b)),
{
    match (a, b) {
        (Some(x), Some(y)) => *x == *y,
        (None, None) => true,
        _ => false,
    }
}

fn check_has_qname(done: &Vec<(QName, String)>, q: &QName) -> (r: bool)
    ensures
        r == has_qname(attributes_view(done@), q@),
{
    let ghost view = attributes_view(done@);
    let mut i: usize = 0;
    while i < done.len()
        invariant
            i <= done.len(),
            view == attributes_view(done@),
            forall|j: int|
                0 <= j < i ==> !((#[trigger] view[j]).0.namespace == q@.namespace && view[j].0.local
                    == q@.local),
        decreases done.len() - i,
    {
        if same_namespace(&done[i].0.namespace, &q.namespace) && done[i].0.local == q.local {
            assert(view[i as int].0.namespace == q@.namespace && view[i as int].0.local
                == q@.local);
            return true;
        }
        i += 1;
    }
    false
}

/// Resolves the attributes of a start tag, the declarations of namespaces
/// left out.
pub(crate) fn resolve_attrs(
    scopes: &Vec<Scope>,
    ctx: &Context,
    attrs: &Vec<(Vec<char>, Vec<char>)>,
) -> (r: Result<Vec<(QName, String)>, Fatal>)
    requires
        scopes_wf(scopes@, ctx.entries()),
    ensures
        match attributes_of(
            scopes_view(scopes@, ctx.entries()),
            pairs_view(attrs@),
            Seq::empty(),
        ) {
            Ok(a) => r matches Ok(v) && attributes_view(v@) == a,
            Err(f) => r matches Err(g) && g == f,
        },
{
    let ghost bindings = scopes_view(scopes@, ctx.entries());
    let ghost pairs = pairs_view(attrs@);
    let mut done: Vec<(QName, String)> = Vec::new();
    let mut i: usize = 0;
    assert(pairs.skip(0) =~= pairs);
    assert(attributes_view(done@) =~= Seq::<(QNameView, Seq<char>)>::empty());
    while i < attrs.len()
        invariant
            i <= attrs.len(),
            pairs == pairs_view(attrs@),
            bindings == scopes_view(scopes@, ctx.entries()),
            scopes_wf(scopes@, ctx.entries()),
            attributes_of(bindings, pairs, Seq::empty()) == attributes_of(
                bindings,
                pairs.skip(i as int),
                attributes_view(done@),
            ),
        decreases attrs.len() - i,
    {
        let name = &attrs[i].0;
        let value = &attrs[i].1;
        let ghost so_far = attributes_view(done@);
        assert(pairs.skip(i as int)[0] == (name@, value@));
        assert(pairs.skip(i as int).skip(1) =~= pairs.skip(i + 1));
        if !(chars_are(name, "xmlns") || check_declares_prefix(name)) {
            match resolve_name(scopes, ctx, name, true) {
                Ok(q) => {
                    if check_has_qname(&done, &q) {
                        return Err(Fatal::NotNamespaceWellFormed(NWFError::DuplicateAttribute));
                    }
                    let ghost qv = q@;
                    done.push((q, string_from_chars(value)));
                    assert(attributes_view(done@) =~= so_far.push((qv, value@)));
                },
                Err(f) => {
                    return Err(f);
                },
            }
        }
        i += 1;
    }
    assert(pairs.skip(i as int) =~= Seq::<(Seq<char>, Seq<char>)>::empty());
    Ok(done)
}

/// A copy of a name.
pub(crate) fn copy_qname(q: &QName) -> (r: QName)
    ensures
        r@ == q@,
{
    QName {
        namespace: match &q.namespace {
            Some(s) => Some(s.clone()),
            None => None,
        },
        prefix: match &q.prefix {
            Some(s) => Some(s.clone()),
            None => None,
        },
        local: q.local.clone(),
    }
}

} // verus!
