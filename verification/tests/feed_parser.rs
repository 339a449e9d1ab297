use rxml::error::{NWFError, Restriction, WFError};
use rxml::{
    as_eof_flag, read_chunks, Error, Event, EventRead, Fatal, FeedParser, QName, XMLVersion,
    XMLNS_XML,
};
use std::borrow::Cow;
use std::io;

fn plain(local: &str) -> QName {
    QName { namespace: None, prefix: None, local: local.to_string() }
}

fn prefixed(ns: &str, prefix: &str, local: &str) -> QName {
    QName {
        namespace: Some(ns.to_string()),
        prefix: Some(prefix.to_string()),
        local: local.to_string(),
    }
}

fn defaulted(ns: &str, local: &str) -> QName {
    QName { namespace: Some(ns.to_string()), prefix: None, local: local.to_string() }
}

fn start(name: QName) -> Event {
    Event::StartElement(name, Vec::new())
}

fn text(s: &str) -> Event {
    Event::Text(s.to_string())
}

fn fatal_of<T: std::fmt::Debug>(r: Result<T, Error>) -> Fatal {
    match r {
        Err(Error::Fatal(f)) => f,
        other => panic!("no fatal error: {:?}", other),
    }
}

/// Feeds the document in one chunk, then the end, and reads to the end.
fn parse_all(doc: &[u8]) -> (Vec<Event>, Result<bool, Error>) {
    let mut fp = FeedParser::new();
    fp.feed(Cow::Owned(doc.to_vec()));
    fp.feed_eof();
    let mut out = Vec::new();
    let r = fp.read_all_eof(|ev| out.push(ev));
    (out, r)
}

/// Feeds the document in chunks of `size` bytes, reading after every chunk.
fn parse_chunked(doc: &[u8], size: usize) -> (Vec<Event>, Result<bool, Error>) {
    let mut fp = FeedParser::new();
    let mut out = Vec::new();
    for chunk in doc.chunks(size) {
        fp.feed(Cow::Borrowed(chunk));
        match fp.read_all_eof(|ev| out.push(ev)) {
            Ok(false) => {},
            other => return (out, other),
        }
    }
    fp.feed_eof();
    let r = fp.read_all_eof(|ev| out.push(ev));
    (out, r)
}

#[test]
fn minimal_document_without_declaration() {
    let (events, r) = parse_all(b"<a/>");
    assert_eq!(events, vec![start(plain("a")), Event::EndElement(plain("a"))]);
    assert!(matches!(r, Ok(true)));
}

#[test]
fn document_with_declaration_and_text() {
    let (events, r) = parse_all(b"<?xml version='1.0'?><hello>World!</hello>");
    assert_eq!(
        events,
        vec![
            Event::XMLDeclaration(XMLVersion::V1_0),
            start(plain("hello")),
            text("World!"),
            Event::EndElement(plain("hello")),
        ]
    );
    assert!(matches!(r, Ok(true)));
}

#[test]
fn read_blocks_until_the_declaration_is_complete() {
    let doc = b"<?xml version='1.0'?><hello>World!</hello>";
    let mut fp = FeedParser::new();
    fp.feed(Cow::Owned(doc[..10].to_vec()));
    let ev = fp.read();
    assert!(matches!(
        ev.err().unwrap(),
        Error::IO(e) if e.kind() == io::ErrorKind::WouldBlock
    ));
    fp.feed(Cow::Owned(doc[10..25].to_vec()));
    let ev = fp.read();
    assert!(matches!(ev.unwrap().unwrap(), Event::XMLDeclaration(XMLVersion::V1_0)));
}

#[test]
fn read_all_eof_is_false_without_the_end() {
    let mut fp = FeedParser::new();
    fp.feed(Cow::Borrowed(&b"<a>"[..]));
    let mut out = Vec::new();
    let r = fp.read_all_eof(|ev| out.push(ev));
    assert!(matches!(r, Ok(false)));
    assert_eq!(out, vec![start(plain("a"))]);
    let r = fp.read_all_eof(|ev| out.push(ev));
    assert!(matches!(r, Ok(false)));
    assert_eq!(out.len(), 1);
}

#[test]
fn truncated_document_is_fatal() {
    let (events, r) = parse_all(b"<a><b>text");
    assert_eq!(events, vec![start(plain("a")), start(plain("b")), text("text")]);
    assert_eq!(fatal_of(r), Fatal::NotWellFormed(WFError::UnexpectedEof));
}

#[test]
fn truncated_inside_a_tag_is_fatal() {
    let (events, r) = parse_all(b"<a><b");
    assert_eq!(events, vec![start(plain("a"))]);
    assert_eq!(fatal_of(r), Fatal::NotWellFormed(WFError::UnexpectedEof));
}

#[test]
fn empty_input_is_fatal() {
    let (events, r) = parse_all(b"");
    assert!(events.is_empty());
    assert_eq!(fatal_of(r), Fatal::NotWellFormed(WFError::UnexpectedEof));
}

#[test]
fn undeclared_prefix_is_fatal() {
    let (events, r) = parse_all(b"<a:b/>");
    assert!(events.is_empty());
    assert_eq!(fatal_of(r), Fatal::NotNamespaceWellFormed(NWFError::UndeclaredPrefix));
}

#[test]
fn attributes_with_one_resolved_name_are_fatal() {
    let (events, r) = parse_all(b"<a xmlns:p=\"urn:x\" p:n=\"1\" xmlns:q=\"urn:x\" q:n=\"2\"/>");
    assert!(events.is_empty());
    assert_eq!(fatal_of(r), Fatal::NotNamespaceWellFormed(NWFError::DuplicateAttribute));
}

#[test]
fn attributes_with_one_lexical_name_are_fatal() {
    let (events, r) = parse_all(b"<a n='1' n='2'/>");
    assert!(events.is_empty());
    assert_eq!(fatal_of(r), Fatal::NotWellFormed(WFError::DuplicateAttribute));
}

#[test]
fn fatal_error_is_returned_again() {
    let mut fp = FeedParser::new();
    fp.feed(Cow::Borrowed(&b"<a></b>"[..]));
    assert_eq!(fp.read().unwrap().unwrap(), start(plain("a")));
    let first = fatal_of(fp.read());
    assert_eq!(first, Fatal::NotWellFormed(WFError::ElementMismatch));
    let left = fp.buffered();
    for _ in 0..3 {
        assert_eq!(fatal_of(fp.read()), first);
        assert_eq!(fp.buffered(), left);
    }
    fp.feed(Cow::Borrowed(&b"<c/>"[..]));
    assert_eq!(fatal_of(fp.read()), first);
}

#[test]
fn lexer_error_is_returned_again() {
    let mut fp = FeedParser::new();
    fp.feed(Cow::Borrowed(&b"<a><!-- c --></a>"[..]));
    assert_eq!(fp.read().unwrap().unwrap(), start(plain("a")));
    let first = fatal_of(fp.read());
    assert_eq!(first, Fatal::RestrictedXml(Restriction::Declaration));
    assert_eq!(fatal_of(fp.read()), first);
    assert_eq!(fatal_of(fp.read()), first);
}

#[test]
fn would_block_changes_nothing() {
    let mut fp = FeedParser::new();
    fp.feed(Cow::Borrowed(&b"<a><b att"[..]));
    assert_eq!(fp.read().unwrap().unwrap(), start(plain("a")));
    for _ in 0..3 {
        assert!(fp.read().err().unwrap().is_would_block());
        assert_eq!(fp.buffered(), 0);
    }
    fp.feed(Cow::Borrowed(&b"r='v'/></a>"[..]));
    fp.feed_eof();
    let mut out = Vec::new();
    assert!(matches!(fp.read_all_eof(|ev| out.push(ev)), Ok(true)));
    assert_eq!(
        out,
        vec![
            Event::StartElement(plain("b"), vec![(plain("attr"), "v".to_string())]),
            Event::EndElement(plain("b")),
            Event::EndElement(plain("a")),
        ]
    );
}

#[test]
fn end_of_document_is_returned_again() {
    let mut fp = FeedParser::new();
    fp.feed(Cow::Borrowed(&b"<a/>\n"[..]));
    fp.feed_eof();
    assert!(fp.read().unwrap().is_some());
    assert!(fp.read().unwrap().is_some());
    assert!(fp.read().unwrap().is_none());
    assert!(fp.read().unwrap().is_none());
}

const SAMPLE: &[u8] = b"<?xml version=\"1.0\" encoding=\"UTF-8\" standalone='yes'?>\n<root xmlns='urn:root' xmlns:p=\"urn:p\" a = 'x&amp;y' p:b=\"1\t2\">\n  <p:child>t\xc3\xa4xt &lt;&#x263A;&#65;&gt;</p:child>\n  <empty xmlns=''/>\n  <deep xmlns:p='urn:other'><p:x p:y='z'/></deep>\n  <p:after/>\n</root >\n";

fn sample_events() -> Vec<Event> {
    vec![
        Event::XMLDeclaration(XMLVersion::V1_0),
        Event::StartElement(
            defaulted("urn:root", "root"),
            vec![
                (plain("a"), "x&y".to_string()),
                (prefixed("urn:p", "p", "b"), "1 2".to_string()),
            ],
        ),
        text("\n  "),
        start(prefixed("urn:p", "p", "child")),
        text("t\u{e4}xt <\u{263a}A>"),
        Event::EndElement(prefixed("urn:p", "p", "child")),
        text("\n  "),
        start(plain("empty")),
        Event::EndElement(plain("empty")),
        text("\n  "),
        start(defaulted("urn:root", "deep")),
        Event::StartElement(
            prefixed("urn:other", "p", "x"),
            vec![(prefixed("urn:other", "p", "y"), "z".to_string())],
        ),
        Event::EndElement(prefixed("urn:other", "p", "x")),
        Event::EndElement(defaulted("urn:root", "deep")),
        text("\n  "),
        start(prefixed("urn:p", "p", "after")),
        Event::EndElement(prefixed("urn:p", "p", "after")),
        text("\n"),
        Event::EndElement(defaulted("urn:root", "root")),
    ]
}

#[test]
fn sample_document_in_one_chunk() {
    let (events, r) = parse_all(SAMPLE);
    assert_eq!(events, sample_events());
    assert!(matches!(r, Ok(true)));
}

#[test]
fn events_do_not_depend_on_the_chunks() {
    let expected = sample_events();
    for size in [1usize, 2, 3, 5, 7, 16, 64, 1000] {
        let (events, r) = parse_chunked(SAMPLE, size);
        assert_eq!(events, expected, "chunks of {}", size);
        assert!(matches!(r, Ok(true)));
    }
}

#[test]
fn errors_do_not_depend_on_the_chunks() {
    let doc = b"<a><b>text</b><c></a>";
    let (whole, r) = parse_all(doc);
    let f = fatal_of(r);
    assert_eq!(f, Fatal::NotWellFormed(WFError::ElementMismatch));
    for size in [1usize, 2, 3, 4, 9] {
        let (events, r) = parse_chunked(doc, size);
        assert_eq!(events, whole);
        assert_eq!(fatal_of(r), f);
    }
}

#[test]
fn nested_declaration_ends_with_its_element() {
    let (events, r) =
        parse_all(b"<p:a xmlns:p='urn:1'><p:b xmlns:p='urn:2'><p:c/></p:b><p:d/></p:a>");
    assert!(matches!(r, Ok(true)));
    assert_eq!(
        events,
        vec![
            start(prefixed("urn:1", "p", "a")),
            start(prefixed("urn:2", "p", "b")),
            start(prefixed("urn:2", "p", "c")),
            Event::EndElement(prefixed("urn:2", "p", "c")),
            Event::EndElement(prefixed("urn:2", "p", "b")),
            start(prefixed("urn:1", "p", "d")),
            Event::EndElement(prefixed("urn:1", "p", "d")),
            Event::EndElement(prefixed("urn:1", "p", "a")),
        ]
    );
}

#[test]
fn declaration_of_an_empty_element_ends_with_it() {
    let (events, r) = parse_all(b"<a><b xmlns='urn:b'/><c/></a>");
    assert!(matches!(r, Ok(true)));
    assert_eq!(
        events,
        vec![
            start(plain("a")),
            start(defaulted("urn:b", "b")),
            Event::EndElement(defaulted("urn:b", "b")),
            start(plain("c")),
            Event::EndElement(plain("c")),
            Event::EndElement(plain("a")),
        ]
    );
}

#[test]
fn attribute_without_prefix_has_no_namespace() {
    let (events, _) = parse_all(b"<a xmlns='urn:d' n='v'/>");
    assert_eq!(
        events[0],
        Event::StartElement(defaulted("urn:d", "a"), vec![(plain("n"), "v".to_string())])
    );
}

#[test]
fn xml_prefix_needs_no_declaration() {
    let (events, r) = parse_all(b"<a xml:lang='en'/>");
    assert!(matches!(r, Ok(true)));
    assert_eq!(
        events[0],
        Event::StartElement(
            plain("a"),
            vec![(prefixed(XMLNS_XML, "xml", "lang"), "en".to_string())]
        )
    );
}

#[test]
fn reserved_prefixes_and_namespaces() {
    let cases: Vec<(&[u8], NWFError)> = vec![
        (b"<a xmlns:xmlns='urn:x'/>", NWFError::ReservedPrefix),
        (b"<a xmlns:xml='urn:x'/>", NWFError::ReservedPrefix),
        (b"<xmlns:a/>", NWFError::ReservedPrefix),
        (b"<a xmlns:p='http://www.w3.org/XML/1998/namespace'/>", NWFError::ReservedNamespace),
        (b"<a xmlns='http://www.w3.org/2000/xmlns/'/>", NWFError::ReservedNamespace),
        (b"<a xmlns:p=''/>", NWFError::EmptyNamespace),
        (b"<a:b:c xmlns:a='urn:a'/>", NWFError::InvalidName),
        (b"<a: xmlns:a='urn:a'/>", NWFError::InvalidName),
        (b"<:a/>", NWFError::InvalidName),
        (b"<a xmlns:='urn:a'/>", NWFError::InvalidName),
        (b"<p:a xmlns:p='urn:a' p:1='x'/>", NWFError::InvalidName),
    ];
    for (doc, e) in cases {
        let (_, r) = parse_all(doc);
        assert_eq!(fatal_of(r), Fatal::NotNamespaceWellFormed(e), "{:?}", doc);
    }
}

#[test]
fn xml_prefix_may_be_declared_as_it_is() {
    let (events, r) =
        parse_all(b"<a xmlns:xml='http://www.w3.org/XML/1998/namespace' xml:id='i'/>");
    assert!(matches!(r, Ok(true)));
    assert_eq!(
        events[0],
        Event::StartElement(
            plain("a"),
            vec![(prefixed(XMLNS_XML, "xml", "id"), "i".to_string())]
        )
    );
}

#[test]
fn restricted_constructs() {
    let cases: Vec<(&[u8], Restriction)> = vec![
        (b"<a><?pi x?></a>", Restriction::ProcessingInstruction),
        (b"<?pi x?><a/>", Restriction::ProcessingInstruction),
        (b" <?xml version='1.0'?><a/>", Restriction::ProcessingInstruction),
        (b"<?xml?><a/>", Restriction::ProcessingInstruction),
        (b"<?xmlx version='1.0'?><a/>", Restriction::ProcessingInstruction),
        (b"<!DOCTYPE a><a/>", Restriction::Declaration),
        (b"<a><!-- c --></a>", Restriction::Declaration),
        (b"<a><![CDATA[x]]></a>", Restriction::Declaration),
        (b"<a>&nbsp;</a>", Restriction::Entity),
        (b"<a>&entity;</a>", Restriction::Entity),
        (b"<?xml version='1.1'?><a/>", Restriction::Version),
        (b"<?xml version='1.0' encoding='latin1'?><a/>", Restriction::Encoding),
        (b"<?xml version='1.0' standalone='no'?><a/>", Restriction::Standalone),
    ];
    for (doc, e) in cases {
        let (_, r) = parse_all(doc);
        assert_eq!(fatal_of(r), Fatal::RestrictedXml(e), "{:?}", doc);
    }
}

#[test]
fn violations_of_well_formedness() {
    let cases: Vec<(&[u8], WFError)> = vec![
        (b"<a></b>", WFError::ElementMismatch),
        (b"</a>", WFError::UnexpectedToken),
        (b"<a/><b/>", WFError::MultipleRoots),
        (b"<a/>x", WFError::TextOutsideRoot),
        (b"x<a/>", WFError::TextOutsideRoot),
        (b"<a", WFError::UnexpectedEof),
        (b"<a>", WFError::UnexpectedEof),
        (b"  ", WFError::UnexpectedEof),
        (b"<a b/>", WFError::UnexpectedChar),
        (b"<a b=c/>", WFError::UnexpectedChar),
        (b"<a b='<'/>", WFError::UnexpectedChar),
        (b"<a b='1'c='2'/>", WFError::UnexpectedChar),
        (b"< a/>", WFError::UnexpectedChar),
        (b"<a>&;</a>", WFError::UnexpectedChar),
        (b"<a>&#;</a>", WFError::UnexpectedChar),
        (b"<a>&#x;</a>", WFError::UnexpectedChar),
        (b"<a>&#0;</a>", WFError::InvalidCharRef),
        (b"<a>&#xD800;</a>", WFError::InvalidCharRef),
        (b"<a>&#x110000;</a>", WFError::InvalidCharRef),
        (b"<a>&#99999999999999999999;</a>", WFError::InvalidCharRef),
        (b"<?xml encoding='utf-8'?><a/>", WFError::InvalidDeclaration),
        (b"<?xml version='1.0' standalone='yes' encoding='utf-8'?><a/>", WFError::InvalidDeclaration),
        (b"<?xml version='1.0' version='1.0'?><a/>", WFError::InvalidDeclaration),
        (b"<?xml ?><a/>", WFError::InvalidDeclaration),
        (b"<?xml version='&#49;.0'?><a/>", WFError::UnexpectedChar),
    ];
    for (doc, e) in cases {
        let (_, r) = parse_all(doc);
        assert_eq!(fatal_of(r), Fatal::NotWellFormed(e), "{:?}", std::str::from_utf8(doc));
    }
}

#[test]
fn invalid_characters() {
    let (_, r) = parse_all(b"<a>\x01</a>");
    assert_eq!(fatal_of(r), Fatal::InvalidChar(1));
    let (_, r) = parse_all(b"<a b='\x0b'/>");
    assert_eq!(fatal_of(r), Fatal::InvalidChar(0xb));
    let (_, r) = parse_all(b"<a>\xef\xbf\xbf</a>");
    assert_eq!(fatal_of(r), Fatal::InvalidChar(0xffff));
}

#[test]
fn invalid_utf8() {
    let cases: Vec<(&[u8], u8)> = vec![
        (b"<a>\xff</a>", 0xff),
        (b"<a>\x80</a>", 0x80),
        (b"<a>\xc0\x80</a>", 0xc0),
        (b"<a>\xc3<</a>", b'<'),
        (b"<a>\xe0\x80\x80</a>", 0x80),
        (b"<a>\xed\xa0\x80</a>", 0xa0),
        (b"<a>\xf4\x90\x80\x80</a>", 0x90),
        (b"<a>\xf5\x80\x80\x80</a>", 0xf5),
    ];
    for (doc, b) in cases {
        let (_, r) = parse_all(doc);
        assert_eq!(fatal_of(r), Fatal::InvalidUtf8Byte(b), "{:?}", doc);
    }
}

#[test]
fn utf8_of_every_length() {
    let (events, r) = parse_all("<a>$\u{a2}\u{20ac}\u{10348}</a>".as_bytes());
    assert!(matches!(r, Ok(true)));
    assert_eq!(events[1], text("$\u{a2}\u{20ac}\u{10348}"));
    let (events, r) = parse_chunked("<\u{e9}l\u{e9}ment \u{3b1}='\u{10348}'/>".as_bytes(), 1);
    assert!(matches!(r, Ok(true)));
    assert_eq!(
        events[0],
        Event::StartElement(
            plain("\u{e9}l\u{e9}ment"),
            vec![(plain("\u{3b1}"), "\u{10348}".to_string())]
        )
    );
}

#[test]
fn input_that_ends_inside_a_character_is_fatal() {
    let (_, r) = parse_all(b"<a/>\xe2\x82");
    assert_eq!(fatal_of(r), Fatal::NotWellFormed(WFError::UnexpectedEof));
}

#[test]
fn references_in_text_and_values() {
    let (events, r) =
        parse_all(b"<a v='&lt;&gt;&amp;&apos;&quot;&#48;&#x3c;'>&lt;&gt;&amp;&apos;&quot;&#48;&#x3C;</a>");
    assert!(matches!(r, Ok(true)));
    assert_eq!(
        events,
        vec![
            Event::StartElement(plain("a"), vec![(plain("v"), "<>&'\"0<".to_string())]),
            text("<>&'\"0<"),
            Event::EndElement(plain("a")),
        ]
    );
}

#[test]
fn white_space_in_values_becomes_spaces() {
    let (events, _) = parse_all(b"<a v='1\t2\n3\r4 5' w=\"&#9;&#10;\"/>");
    assert_eq!(
        events[0],
        Event::StartElement(
            plain("a"),
            vec![(plain("v"), "1 2 3 4 5".to_string()), (plain("w"), "\t\n".to_string())]
        )
    );
}

#[test]
fn text_is_handed_out_as_it_is() {
    let (events, _) = parse_all(b"<a> 1\t2\r\n3 ]]&gt; </a>");
    assert_eq!(events[1], text(" 1\t2\r\n3 ]]> "));
}

#[test]
fn white_space_around_the_root_is_no_event() {
    let (events, r) = parse_all(b"\n <a/> \n\t");
    assert!(matches!(r, Ok(true)));
    assert_eq!(events, vec![start(plain("a")), Event::EndElement(plain("a"))]);
    let (events, r) = parse_all(b"<?xml version='1.0'?>\n<a/>\n");
    assert!(matches!(r, Ok(true)));
    assert_eq!(events.len(), 3);
}

#[test]
fn declaration_fields() {
    for doc in [
        &b"<?xml version='1.0'?><a/>"[..],
        b"<?xml version=\"1.0\" ?><a/>",
        b"<?xml version = '1.0' encoding='utf-8'?><a/>",
        b"<?xml version='1.0' encoding='UTF-8' standalone='yes'?><a/>",
        b"<?xml version='1.0' standalone='yes'?><a/>",
        b"<?xml\tversion='1.0'\nencoding='Utf-8'\r?><a/>",
    ] {
        let (events, r) = parse_all(doc);
        assert!(matches!(r, Ok(true)), "{:?}", std::str::from_utf8(doc));
        assert_eq!(events[0], Event::XMLDeclaration(XMLVersion::V1_0));
        assert_eq!(events.len(), 3);
    }
}

#[test]
fn names_longer_than_the_limit_are_fatal() {
    let mut doc = vec![b'<'];
    doc.extend(std::iter::repeat(b'a').take(8192));
    doc.extend(b"/>");
    let (events, r) = parse_all(&doc);
    assert!(matches!(r, Ok(true)));
    assert_eq!(events.len(), 2);
    let mut doc = vec![b'<'];
    doc.extend(std::iter::repeat(b'a').take(8193));
    doc.extend(b"/>");
    let (_, r) = parse_all(&doc);
    assert_eq!(fatal_of(r), Fatal::LimitExceeded);
}

#[test]
fn long_text_comes_in_pieces() {
    let mut doc = b"<a>".to_vec();
    doc.extend(std::iter::repeat(b'x').take(8192 * 2 + 5));
    doc.extend(b"</a>");
    let (events, r) = parse_all(&doc);
    assert!(matches!(r, Ok(true)));
    assert_eq!(events.len(), 5);
    assert_eq!(events[1], text(&"x".repeat(8192)));
    assert_eq!(events[2], text(&"x".repeat(8192)));
    assert_eq!(events[3], text("xxxxx"));
    let (chunked, _) = parse_chunked(&doc, 1000);
    assert_eq!(chunked, events);
}

#[test]
fn buffered_counts_unread_bytes() {
    let mut fp = FeedParser::new();
    assert_eq!(fp.buffered(), 0);
    fp.feed(Cow::Borrowed(&b"<a>"[..]));
    fp.feed(Cow::Borrowed(&b""[..]));
    fp.feed(Cow::Owned(b"text</a>".to_vec()));
    assert_eq!(fp.buffered(), 11);
    assert_eq!(fp.read().unwrap().unwrap(), start(plain("a")));
    assert_eq!(fp.buffered(), 8);
    assert_eq!(fp.read().unwrap().unwrap(), text("text"));
    assert_eq!(fp.buffered(), 3);
    assert_eq!(fp.read().unwrap().unwrap(), Event::EndElement(plain("a")));
    assert_eq!(fp.buffered(), 0);
}

#[test]
fn buffer_can_be_dropped_through_get_buffer_mut() {
    let mut fp = FeedParser::new();
    fp.feed(Cow::Borrowed(&b"<a><b/>"[..]));
    assert_eq!(fp.read().unwrap().unwrap(), start(plain("a")));
    fp.get_buffer_mut().clear();
    assert_eq!(fp.buffered(), 0);
    assert!(fp.read().err().unwrap().is_would_block());
    fp.get_buffer_mut().push(Cow::Borrowed(&b"</a>"[..]));
    fp.feed_eof();
    assert_eq!(fp.read().unwrap().unwrap(), Event::EndElement(plain("a")));
    assert!(fp.read().unwrap().is_none());
}

#[test]
fn release_temporaries_changes_nothing() {
    let mut fp = FeedParser::new();
    fp.feed(Cow::Borrowed(&b"<a xmlns='urn:a'><b att"[..]));
    fp.release_temporaries();
    assert_eq!(fp.read().unwrap().unwrap(), start(defaulted("urn:a", "a")));
    assert!(fp.read().err().unwrap().is_would_block());
    fp.release_temporaries();
    fp.feed(Cow::Borrowed(&b"r='1'>t"[..]));
    fp.release_temporaries();
    assert_eq!(
        fp.read().unwrap().unwrap(),
        Event::StartElement(defaulted("urn:a", "b"), vec![(plain("attr"), "1".to_string())])
    );
    fp.release_temporaries();
    fp.feed(Cow::Borrowed(&b"ext</b></a>"[..]));
    fp.feed_eof();
    let mut out = Vec::new();
    assert!(matches!(fp.read_all_eof(|ev| out.push(ev)), Ok(true)));
    assert_eq!(
        out,
        vec![
            text("text"),
            Event::EndElement(defaulted("urn:a", "b")),
            Event::EndElement(defaulted("urn:a", "a")),
        ]
    );
    fp.release_temporaries();
    assert!(fp.read().unwrap().is_none());
}

#[test]
fn read_all_stops_at_the_end_or_an_error() {
    let mut fp = FeedParser::new();
    fp.feed(Cow::Borrowed(&b"<a/>"[..]));
    let mut n = 0;
    let r = fp.read_all(|_| n += 1);
    assert!(r.err().unwrap().is_would_block());
    assert_eq!(n, 2);
    fp.feed_eof();
    let r = fp.read_all(|_| n += 1);
    assert!(r.is_ok());
    assert_eq!(n, 2);
}

#[test]
fn as_eof_flag_maps_results() {
    assert!(matches!(as_eof_flag(Ok(())), Ok(true)));
    assert!(matches!(as_eof_flag(Err(Error::new_would_block())), Ok(false)));
    assert!(matches!(
        as_eof_flag(Err(Error::IO(io::Error::from(io::ErrorKind::WouldBlock)))),
        Ok(false)
    ));
    assert!(matches!(
        as_eof_flag(Err(Error::IO(io::Error::from(io::ErrorKind::UnexpectedEof)))),
        Err(Error::IO(e)) if e.kind() == io::ErrorKind::UnexpectedEof
    ));
    assert!(matches!(
        as_eof_flag(Err(Error::Fatal(Fatal::LimitExceeded))),
        Err(Error::Fatal(Fatal::LimitExceeded))
    ));
}

#[test]
fn errors_tell_their_kind() {
    assert!(Error::new_would_block().is_would_block());
    assert!(!Error::IO(io::Error::from(io::ErrorKind::Other)).is_would_block());
    assert!(!Error::Fatal(Fatal::LimitExceeded).is_would_block());
    assert_eq!(Error::Fatal(Fatal::InvalidChar(7)).fatal(), Some(Fatal::InvalidChar(7)));
    assert_eq!(Error::new_would_block().fatal(), None);
    assert_eq!(Fatal::InvalidUtf8Byte(1).description(), "invalid utf-8 byte");
    assert_eq!(Fatal::LimitExceeded.description(), "token longer than the configured limit");
}

#[test]
fn with_context_starts_like_new() {
    let mut ctx = rxml::Context::new();
    let urn: Vec<char> = "urn:a".chars().collect();
    assert_eq!(ctx.intern(&urn), 0);
    let mut fp = FeedParser::with_context(ctx);
    fp.feed(Cow::Borrowed(&b"<a xmlns='urn:b'><b xmlns='urn:a'/></a>"[..]));
    fp.feed_eof();
    let mut out = Vec::new();
    assert!(matches!(fp.read_all_eof(|ev| out.push(ev)), Ok(true)));
    assert_eq!(out[0], start(defaulted("urn:b", "a")));
    assert_eq!(out[1], start(defaulted("urn:a", "b")));
}

#[test]
fn read_available_reads_what_there_is() {
    let mut fp = FeedParser::new();
    let mut out = vec![text("kept")];
    fp.feed(Cow::Borrowed(&b"<a>hello<b/>wor"[..]));
    assert!(matches!(fp.read_available(&mut out), Ok(false)));
    assert_eq!(
        out,
        vec![
            text("kept"),
            start(plain("a")),
            text("hello"),
            start(plain("b")),
            Event::EndElement(plain("b")),
        ]
    );
    assert!(matches!(fp.read_available(&mut out), Ok(false)));
    assert_eq!(out.len(), 5);
    fp.feed(Cow::Borrowed(&b"ld</a>"[..]));
    fp.feed_eof();
    assert!(matches!(fp.read_available(&mut out), Ok(true)));
    assert_eq!(out[5..], [text("world"), Event::EndElement(plain("a"))]);
    assert!(matches!(fp.read_available(&mut out), Ok(true)));
    assert_eq!(out.len(), 7);
}

#[test]
fn read_available_returns_the_error_after_the_events_before_it() {
    let mut fp = FeedParser::new();
    let mut out = Vec::new();
    fp.feed(Cow::Borrowed(&b"<a><b></a>"[..]));
    let f = fatal_of(fp.read_available(&mut out));
    assert_eq!(f, Fatal::NotWellFormed(WFError::ElementMismatch));
    assert_eq!(out, vec![start(plain("a")), start(plain("b"))]);
    assert_eq!(fatal_of(fp.read_available(&mut out)), f);
    assert_eq!(out.len(), 2);
}

#[test]
fn read_chunks_reads_the_document_whatever_the_chunks() {
    let doc: &[u8] = b"<?xml version='1.0'?><r xmlns='urn:a' xmlns:p='urn:b'><p:c p:k='v&amp;w'>t\xc3\xa9xt</p:c><d/></r>";
    let (whole, end) = parse_all(doc);
    assert!(matches!(end, Ok(true)));
    assert_eq!(whole.len(), 8);
    for size in 1..=doc.len() {
        let chunks: Vec<Vec<u8>> = doc.chunks(size).map(|c| c.to_vec()).collect();
        let (events, r) = read_chunks(&chunks);
        assert!(r.is_ok(), "chunks of {}", size);
        assert_eq!(events, whole, "chunks of {}", size);
    }
    let uneven = vec![doc[..3].to_vec(), Vec::new(), doc[3..40].to_vec(), doc[40..].to_vec()];
    let (events, r) = read_chunks(&uneven);
    assert!(r.is_ok());
    assert_eq!(events, whole);
}

#[test]
fn read_chunks_returns_the_error_whatever_the_chunks() {
    let doc: &[u8] = b"<a><b>text</c></a>";
    for size in 1..=doc.len() {
        let chunks: Vec<Vec<u8>> = doc.chunks(size).map(|c| c.to_vec()).collect();
        let (events, r) = read_chunks(&chunks);
        assert_eq!(fatal_of(r), Fatal::NotWellFormed(WFError::ElementMismatch));
        assert_eq!(events, vec![start(plain("a")), start(plain("b")), text("text")]);
    }
    let (events, r) = read_chunks(&Vec::new());
    assert!(events.is_empty());
    assert!(matches!(fatal_of(r), Fatal::NotWellFormed(_)));
    let (events, r) = read_chunks(&vec![b"<a>".to_vec()]);
    assert_eq!(events, vec![start(plain("a"))]);
    assert!(matches!(fatal_of(r), Fatal::NotWellFormed(_)));
}
