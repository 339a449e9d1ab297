use rxml::writer::to_utf8;
use rxml::{EncodeError, Encoder, Error, Event, EventRead, FeedParser, LexerOptions, QName, XMLVersion, XMLNS_XML};
use std::borrow::Cow;

fn name(ns: Option<&str>, prefix: Option<&str>, local: &str) -> QName {
    QName {
        namespace: ns.map(|s| s.to_string()),
        prefix: prefix.map(|s| s.to_string()),
        local: local.to_string(),
    }
}

fn parse(doc: &[u8]) -> (Vec<Event>, Result<bool, Error>) {
    let mut fp = FeedParser::new();
    fp.feed(Cow::Owned(doc.to_vec()));
    fp.feed_eof();
    let mut out = Vec::new();
    let r = fp.read_all_eof(|ev| out.push(ev));
    (out, r)
}

fn write(events: &[Event]) -> Result<String, EncodeError> {
    let mut enc = Encoder::new();
    let mut out = Vec::new();
    for ev in events {
        enc.encode(ev, &mut out)?;
    }
    assert!(enc.is_complete());
    Ok(String::from_utf8(to_utf8(&out)).unwrap())
}

fn without_prefix(q: &QName) -> QName {
    QName { namespace: q.namespace.clone(), prefix: None, local: q.local.clone() }
}

/// The events with the prefixes taken out.
fn without_prefixes(events: &[Event]) -> Vec<Event> {
    events
        .iter()
        .map(|ev| match ev {
            Event::StartElement(q, attrs) => Event::StartElement(
                without_prefix(q),
                attrs.iter().map(|(q, v)| (without_prefix(q), v.clone())).collect(),
            ),
            Event::EndElement(q) => Event::EndElement(without_prefix(q)),
            other => other.clone(),
        })
        .collect()
}

/// The events with each run of text in one piece.
fn joined(events: &[Event]) -> Vec<Event> {
    let mut out: Vec<Event> = Vec::new();
    for ev in events {
        match (out.last_mut(), ev) {
            (Some(Event::Text(before)), Event::Text(t)) => before.push_str(t),
            _ => out.push(ev.clone()),
        }
    }
    out
}

fn round_trip(doc: &[u8]) {
    let (events, r) = parse(doc);
    assert!(matches!(r, Ok(true)));
    let written = write(&events).unwrap();
    let (again, r) = parse(written.as_bytes());
    assert!(matches!(r, Ok(true)), "{}", written);
    assert_eq!(
        joined(&without_prefixes(&again)),
        joined(&without_prefixes(&events)),
        "{}",
        written
    );
    // what was written once is written the same again
    assert_eq!(write(&again).unwrap(), written);
}

#[test]
fn encoder_writes_a_small_document() {
    let events = vec![
        Event::XMLDeclaration(XMLVersion::V1_0),
        Event::StartElement(
            name(Some("urn:a"), Some("p"), "a"),
            vec![
                (name(None, None, "k"), "1<2 & 'q'\t".to_string()),
                (name(Some("urn:b"), Some("b"), "k"), "v".to_string()),
                (name(Some(XMLNS_XML), Some("xml"), "lang"), "en".to_string()),
                (name(Some("urn:c"), None, "k"), "\n".to_string()),
            ],
        ),
        Event::Text("x < y & z > \u{e4}".to_string()),
        Event::StartElement(name(None, None, "b"), vec![]),
        Event::EndElement(name(None, None, "b")),
        Event::EndElement(name(Some("urn:a"), None, "a")),
    ];
    assert_eq!(
        write(&events).unwrap(),
        "<?xml version='1.0'?><a xmlns='urn:a' k='1&lt;2 &amp; &apos;q&apos;&#9;' \
         xmlns:nn='urn:b' nn:k='v' xml:lang='en' xmlns:nnnn='urn:c' nnnn:k='&#10;'>\
         x &lt; y &amp; z > \u{e4}<b xmlns=''></b></a>"
    );
}

#[test]
fn written_documents_are_read_back() {
    round_trip(b"<a/>");
    round_trip(b"<?xml version='1.0'?><hello>World!</hello>");
    round_trip(b"<a xmlns='urn:a'><b xmlns=''><c xmlns='urn:c'/></b><d/></a>");
    round_trip(b"<p:a xmlns:p='urn:1' p:x='1' p:y='2' z='3'><p:b xmlns:p='urn:2' p:x='&lt;&amp;&gt;&quot;&apos;'/></p:a>");
    round_trip(b"<a xml:lang='en' v='a&#9;b&#10;c&#13;d  e'><xml:b>\r\n&amp;&lt;&gt;</xml:b></a>");
    round_trip("<\u{e9}l\u{e9}ment \u{3b1}='\u{10348}'>\u{20ac}</\u{e9}l\u{e9}ment>".as_bytes());
    round_trip(b"<?xml version=\"1.0\" encoding=\"UTF-8\" standalone='yes'?>\n<root xmlns='urn:root' xmlns:p=\"urn:p\" a = 'x&amp;y' p:b=\"1\t2\">\n  <p:child>t\xc3\xa4xt &lt;&#x263A;&#65;&gt;</p:child>\n  <empty xmlns=''/>\n  <deep xmlns:p='urn:other'><p:x p:y='z'/></deep>\n  <p:after/>\n</root >\n");
}

#[test]
fn encoder_refuses_what_cannot_be_read_back() {
    let a = || Event::StartElement(name(None, None, "a"), vec![]);
    let end_a = || Event::EndElement(name(None, None, "a"));
    let text = |s: &str| Event::Text(s.to_string());
    let cases: Vec<(Vec<Event>, EncodeError)> = vec![
        (vec![end_a()], EncodeError::Misplaced),
        (vec![text("x")], EncodeError::Misplaced),
        (vec![a(), Event::XMLDeclaration(XMLVersion::V1_0)], EncodeError::Misplaced),
        (vec![a(), end_a(), a()], EncodeError::Misplaced),
        (vec![a(), end_a(), text(" ")], EncodeError::Misplaced),
        (vec![a(), Event::EndElement(name(None, None, "b"))], EncodeError::Misplaced),
        (vec![a(), Event::EndElement(name(Some("urn:a"), None, "a"))], EncodeError::Misplaced),
        (vec![a(), text("")], EncodeError::Text),
        (vec![a(), text("\u{1}")], EncodeError::Text),
        (vec![Event::StartElement(name(None, None, "a b"), vec![])], EncodeError::Name),
        (vec![Event::StartElement(name(None, None, ""), vec![])], EncodeError::Name),
        (vec![Event::StartElement(name(None, None, "a:b"), vec![])], EncodeError::Name),
        (vec![Event::StartElement(name(None, None, "1a"), vec![])], EncodeError::Name),
        (vec![Event::StartElement(name(Some(""), None, "a"), vec![])], EncodeError::Namespace),
        (
            vec![Event::StartElement(name(Some("http://www.w3.org/2000/xmlns/"), None, "a"), vec![])],
            EncodeError::Namespace,
        ),
        (vec![Event::StartElement(name(Some("urn:\u{0}"), None, "a"), vec![])], EncodeError::Namespace),
        (
            vec![Event::StartElement(
                name(None, None, "a"),
                vec![(name(None, None, "xmlns"), "urn:a".to_string())],
            )],
            EncodeError::Name,
        ),
        (
            vec![Event::StartElement(
                name(None, None, "a"),
                vec![(name(None, None, "k"), "\u{b}".to_string())],
            )],
            EncodeError::Text,
        ),
        (
            vec![Event::StartElement(
                name(None, None, "a"),
                vec![(name(Some(""), None, "k"), "v".to_string())],
            )],
            EncodeError::Namespace,
        ),
        (
            vec![Event::StartElement(
                name(None, None, "a"),
                vec![
                    (name(Some("urn:a"), Some("p"), "k"), "1".to_string()),
                    (name(None, None, "k"), "2".to_string()),
                    (name(Some("urn:a"), Some("q"), "k"), "3".to_string()),
                ],
            )],
            EncodeError::Duplicate,
        ),
    ];
    for (events, e) in cases {
        let mut enc = Encoder::new();
        let mut out = Vec::new();
        let mut last = Ok(());
        let mut before = 0;
        for ev in &events {
            before = out.len();
            last = enc.encode(ev, &mut out);
        }
        assert_eq!(last, Err(e), "{:?}", events);
        assert_eq!(out.len(), before);
    }
}

#[test]
fn encoder_is_complete_when_the_root_is_closed() {
    let mut enc = Encoder::new();
    let mut out = Vec::new();
    assert!(!enc.is_complete());
    enc.encode(&Event::StartElement(name(None, None, "a"), vec![]), &mut out).unwrap();
    assert!(!enc.is_complete());
    enc.encode(&Event::StartElement(name(None, None, "b"), vec![]), &mut out).unwrap();
    enc.encode(&Event::EndElement(name(None, None, "b")), &mut out).unwrap();
    assert!(!enc.is_complete());
    enc.encode(&Event::EndElement(name(None, Some("any"), "a")), &mut out).unwrap();
    assert!(enc.is_complete());
    assert_eq!(out.iter().collect::<String>(), "<a xmlns=''><b xmlns=''></b></a>");
}

#[test]
fn encoder_keeps_the_limit_of_the_parser() {
    let options = LexerOptions::default().max_token_length(5);
    let start = |local: &str| Event::StartElement(name(None, None, local), vec![]);
    let mut out = Vec::new();
    let mut enc = Encoder::with_options(options);
    assert_eq!(
        enc.encode(&Event::XMLDeclaration(XMLVersion::V1_0), &mut out),
        Err(EncodeError::Name)
    );
    assert_eq!(enc.encode(&start("abcdef"), &mut out), Err(EncodeError::Name));
    assert_eq!(enc.encode(&start("abcde"), &mut out), Ok(()));
    assert_eq!(enc.encode(&Event::Text("12345".to_string()), &mut out), Ok(()));
    assert_eq!(enc.encode(&Event::Text("123456".to_string()), &mut out), Ok(()));
    let mut enc = Encoder::with_options(options);
    let long_ns = Event::StartElement(name(Some("urn:ab"), None, "a"), vec![]);
    assert_eq!(enc.encode(&long_ns, &mut out), Err(EncodeError::Namespace));
    let none: Vec<(QName, String)> = vec![];
    let xml = Event::StartElement(name(Some(XMLNS_XML), None, "ab"), none);
    assert_eq!(enc.encode(&xml, &mut out), Err(EncodeError::Name));
    let mut enc = Encoder::with_options(LexerOptions::default().max_token_length(4));
    assert_eq!(enc.encode(&start("a"), &mut out), Err(EncodeError::Name));
    let none: Vec<(QName, String)> = vec![];
    let xml = Event::StartElement(name(Some(XMLNS_XML), None, ""), none);
    assert_eq!(enc.encode(&xml, &mut out), Err(EncodeError::Name));
}

#[test]
fn written_documents_are_read_back_within_a_small_limit() {
    let options = LexerOptions::default().max_token_length(9);
    let events = vec![
        Event::XMLDeclaration(XMLVersion::V1_0),
        Event::StartElement(
            name(Some("urn:a"), None, "abcdefghi"),
            vec![
                (name(None, None, "k"), "<<<<&&&&'".to_string()),
                (name(Some("urn:b"), None, "loc"), "\t\n\r".to_string()),
                (name(Some(XMLNS_XML), None, "space"), "preserve".to_string()),
            ],
        ),
        Event::Text("&&&&<<<<>".to_string()),
        Event::EndElement(name(Some("urn:a"), None, "abcdefghi")),
    ];
    let mut enc = Encoder::with_options(options);
    let mut chars = Vec::new();
    for ev in &events {
        enc.encode(ev, &mut chars).unwrap();
    }
    assert!(enc.is_complete());
    let mut lexer = rxml::Lexer::with_options(options);
    let mut parser = rxml::Parser::new();
    let mut queue = rxml::BufferQueue::new();
    queue.push(Cow::Owned(to_utf8(&chars)));
    queue.push_eof();
    let mut again = Vec::new();
    while let Some(ev) = parser.parse(&mut lexer, &mut queue).unwrap() {
        again.push(ev);
    }
    assert_eq!(without_prefixes(&again), without_prefixes(&events));
    match &again[1] {
        Event::StartElement(q, attrs) => {
            assert_eq!(q.prefix, None);
            assert_eq!(attrs[0].0.prefix, None);
            assert_eq!(attrs[1].0.prefix, Some("nn".to_string()));
            assert_eq!(attrs[2].0.prefix, Some("xml".to_string()));
        },
        other => panic!("{:?}", other),
    }
}

#[test]
fn text_that_came_in_two_pieces_is_written_and_read_back() {
    let mut doc = b"<a>".to_vec();
    doc.extend(std::iter::repeat(b'x').take(8192 + 1));
    doc.extend(b"</a>");
    let (events, r) = parse(&doc);
    assert!(matches!(r, Ok(true)));
    assert_eq!(events.len(), 4);
    assert!(matches!(events[1], Event::Text(_)));
    assert!(matches!(events[2], Event::Text(_)));
    let written = write(&events).unwrap();
    assert_eq!(written.len(), "<a xmlns=''>".len() + 8193 + "</a>".len());
    let (again, r) = parse(written.as_bytes());
    assert!(matches!(r, Ok(true)));
    assert_eq!(again, events);
    round_trip(&doc);
}

#[test]
fn text_in_several_events_is_read_back_as_the_same_text() {
    let text = |s: &str| Event::Text(s.to_string());
    let events = vec![
        Event::StartElement(name(None, None, "a"), vec![]),
        text("one "),
        text("<two> "),
        text("&"),
        Event::StartElement(name(None, None, "b"), vec![]),
        Event::EndElement(name(None, None, "b")),
        text("three"),
        text("four"),
        Event::EndElement(name(None, None, "a")),
    ];
    let written = write(&events).unwrap();
    assert_eq!(written, "<a xmlns=''>one &lt;two> &amp;<b xmlns=''></b>threefour</a>");
    let (again, r) = parse(written.as_bytes());
    assert!(matches!(r, Ok(true)));
    assert_eq!(joined(&again), joined(&events));
    assert_eq!(
        joined(&again),
        vec![
            Event::StartElement(name(None, None, "a"), vec![]),
            text("one <two> &"),
            Event::StartElement(name(None, None, "b"), vec![]),
            Event::EndElement(name(None, None, "b")),
            text("threefour"),
            Event::EndElement(name(None, None, "a")),
        ]
    );
}

#[test]
fn long_text_is_read_back_in_pieces_within_a_small_limit() {
    let options = LexerOptions::default().max_token_length(5);
    let doc = b"<a>0123456789&amp;&lt;xyz</a>";
    let read = |bytes: &[u8]| {
        let mut lexer = rxml::Lexer::with_options(options);
        let mut parser = rxml::Parser::new();
        let mut queue = rxml::BufferQueue::new();
        queue.push(Cow::Owned(bytes.to_vec()));
        queue.push_eof();
        let mut events = Vec::new();
        while let Some(ev) = parser.parse(&mut lexer, &mut queue).unwrap() {
            events.push(ev);
        }
        events
    };
    let events = read(doc);
    assert_eq!(
        events[1..4],
        [
            Event::Text("01234".to_string()),
            Event::Text("56789".to_string()),
            Event::Text("&<xyz".to_string()),
        ]
    );
    let mut enc = Encoder::with_options(options);
    let mut chars = Vec::new();
    for ev in &events {
        assert_eq!(enc.encode(ev, &mut chars), Ok(()));
    }
    assert!(enc.is_complete());
    assert_eq!(
        chars.iter().collect::<String>(),
        "<a xmlns=''>0123456789&amp;&lt;xyz</a>"
    );
    assert_eq!(read(&to_utf8(&chars)), events);
    // text written in other pieces is read in the pieces of the limit
    let other = vec![
        events[0].clone(),
        Event::Text("0".to_string()),
        Event::Text("123456789&<xy".to_string()),
        Event::Text("z".to_string()),
        events[4].clone(),
    ];
    let mut enc = Encoder::with_options(options);
    let mut chars = Vec::new();
    for ev in &other {
        assert_eq!(enc.encode(ev, &mut chars), Ok(()));
    }
    assert_eq!(read(&to_utf8(&chars)), events);
}

#[test]
fn names_that_do_not_fit_with_a_prefix_of_the_encoder_are_refused() {
    let mut doc = b"<a xmlns:p='urn:p' p:".to_vec();
    doc.extend(std::iter::repeat(b'k').take(8190));
    doc.extend(b"='v'/>");
    let (events, r) = parse(&doc);
    assert!(matches!(r, Ok(true)));
    let mut enc = Encoder::new();
    let mut out = Vec::new();
    assert_eq!(enc.encode(&events[0], &mut out), Ok(()));
    let mut doc = b"<a b='1' c='2' xmlns:p='urn:p' p:".to_vec();
    doc.extend(std::iter::repeat(b'k').take(8190));
    doc.extend(b"='v'/>");
    let (events, r) = parse(&doc);
    assert!(matches!(r, Ok(true)));
    let mut enc = Encoder::new();
    assert_eq!(enc.encode(&events[0], &mut out), Err(EncodeError::Name));
}

#[test]
fn utf8_of_characters() {
    let chars: Vec<char> = "a\u{e4}\u{20ac}\u{10348}".chars().collect();
    assert_eq!(to_utf8(&chars), "a\u{e4}\u{20ac}\u{10348}".as_bytes());
}
