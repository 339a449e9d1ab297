use rxml::bufq::Fetch;
use rxml::chars::{is_name_char, is_name_start, is_space, is_xml_char};
use rxml::utf8::{Decoded, Utf8Decoder};
use rxml::{BufferQueue, Context, Error, Event, Fatal, Lexer, LexerOptions, Parser, PullParser, Token};
use rxml::{EventRead, FeedParser, Pull};
use std::borrow::Cow;

fn chars(s: &str) -> Vec<char> {
    s.chars().collect()
}

fn lex_all(lexer: &mut Lexer, doc: &[u8]) -> (Vec<Token>, Result<(), Error>) {
    let mut q = BufferQueue::new();
    q.push(Cow::Owned(doc.to_vec()));
    q.push_eof();
    let mut out = Vec::new();
    loop {
        match lexer.lex(&mut q) {
            Ok(Some(t)) => out.push(t),
            Ok(None) => return (out, Ok(())),
            Err(e) => return (out, Err(e)),
        }
    }
}

#[test]
fn space_is_the_four_characters() {
    assert!(is_space(' '));
    assert!(is_space('\t'));
    assert!(is_space('\n'));
    assert!(is_space('\r'));
    assert!(!is_space('a'));
    assert!(!is_space('\u{a0}'));
}

#[test]
fn name_characters() {
    assert!(is_name_start('a'));
    assert!(is_name_start(':'));
    assert!(is_name_start('_'));
    assert!(!is_name_start('-'));
    assert!(!is_name_start('1'));
    assert!(!is_name_start('\u{d7}'));
    assert!(is_name_char('-'));
    assert!(is_name_char('1'));
    assert!(is_name_char('\u{b7}'));
    assert!(!is_name_char(' '));
    assert!(!is_name_char('<'));
}

#[test]
fn document_characters() {
    assert!(is_xml_char('\n'));
    assert!(!is_xml_char('\u{0}'));
    assert!(!is_xml_char('\u{b}'));
    assert!(!is_xml_char('\u{ffff}'));
    assert!(is_xml_char('\u{10000}'));
}

#[test]
fn decoder_takes_a_character_byte_by_byte() {
    let mut d = Utf8Decoder::new();
    assert_eq!(d.push(b'a'), Decoded::Scalar('a'));
    assert!(d.is_idle());
    assert_eq!(d.push(0xe2), Decoded::Pending);
    assert!(!d.is_idle());
    assert_eq!(d.push(0x82), Decoded::Pending);
    assert_eq!(d.push(0xac), Decoded::Scalar('\u{20ac}'));
    assert!(d.is_idle());
    assert_eq!(d.push(0xf0), Decoded::Pending);
    assert_eq!(d.push(0x90), Decoded::Pending);
    assert_eq!(d.push(0x8d), Decoded::Pending);
    assert_eq!(d.push(0x88), Decoded::Scalar('\u{10348}'));
    assert_eq!(d.push(0xc3), Decoded::Pending);
    assert_eq!(d.push(0x28), Decoded::Invalid);
    assert!(d.is_idle());
}

#[test]
fn decoder_agrees_with_std_on_every_character() {
    let mut d = Utf8Decoder::new();
    let mut buf = [0u8; 4];
    for v in (0u32..0x110000).step_by(7).chain([0x7f, 0x80, 0x7ff, 0x800, 0xffff, 0x10000, 0x10ffff]) {
        if let Some(c) = char::from_u32(v) {
            let bytes = c.encode_utf8(&mut buf).as_bytes();
            for (i, b) in bytes.iter().enumerate() {
                let r = d.push(*b);
                if i + 1 == bytes.len() {
                    assert_eq!(r, Decoded::Scalar(c));
                } else {
                    assert_eq!(r, Decoded::Pending);
                }
            }
        }
    }
}

#[test]
fn queue_is_one_stream() {
    let mut q = BufferQueue::new();
    assert_eq!(q.len(), 0);
    assert_eq!(q.read_byte(), Fetch::Pending);
    q.push(Cow::Borrowed(&b"ab"[..]));
    q.push(Cow::Borrowed(&b""[..]));
    q.push(Cow::Owned(vec![b'c']));
    assert_eq!(q.len(), 3);
    assert!(!q.eof());
    assert_eq!(q.read_byte(), Fetch::Byte(b'a'));
    assert_eq!(q.read_byte(), Fetch::Byte(b'b'));
    assert_eq!(q.len(), 1);
    assert_eq!(q.read_byte(), Fetch::Byte(b'c'));
    assert_eq!(q.read_byte(), Fetch::Pending);
    q.push(Cow::Borrowed(&b"d"[..]));
    q.push_eof();
    assert!(q.eof());
    assert_eq!(q.read_byte(), Fetch::Byte(b'd'));
    assert_eq!(q.read_byte(), Fetch::End);
    assert_eq!(q.read_byte(), Fetch::End);
    assert_eq!(q.len(), 0);
}

#[test]
fn queue_clear_drops_the_unread_bytes() {
    let mut q = BufferQueue::new();
    q.push(Cow::Borrowed(&b"abc"[..]));
    q.push(Cow::Borrowed(&b"def"[..]));
    assert_eq!(q.read_byte(), Fetch::Byte(b'a'));
    q.clear();
    assert_eq!(q.len(), 0);
    assert_eq!(q.read_byte(), Fetch::Pending);
    q.push(Cow::Borrowed(&b"x"[..]));
    assert_eq!(q.read_byte(), Fetch::Byte(b'x'));
}

#[test]
fn context_gives_one_handle_to_one_string() {
    let mut ctx = Context::new();
    assert_eq!(ctx.len(), 0);
    assert_eq!(ctx.intern(&chars("urn:a")), 0);
    assert_eq!(ctx.intern(&chars("urn:b")), 1);
    assert_eq!(ctx.intern(&chars("urn:a")), 0);
    assert_eq!(ctx.intern(&chars("")), 2);
    assert_eq!(ctx.len(), 3);
    assert_eq!(ctx.get(1), &chars("urn:b"));
    ctx.clear();
    assert_eq!(ctx.len(), 0);
    assert_eq!(ctx.intern(&chars("urn:b")), 0);
}

#[test]
fn tokens_of_a_document() {
    let mut lexer = Lexer::new();
    let (tokens, r) =
        lex_all(&mut lexer, b"<?xml version='1.0'?><a b = \"c\"><d/>t&amp;t</a >");
    assert!(r.is_ok());
    assert_eq!(
        tokens,
        vec![
            Token::XmlDeclStart,
            Token::Name(chars("version")),
            Token::AttributeValue(chars("1.0")),
            Token::XmlDeclEnd,
            Token::ElementHeadStart(chars("a")),
            Token::Name(chars("b")),
            Token::AttributeValue(chars("c")),
            Token::ElementHFEnd,
            Token::ElementHeadStart(chars("d")),
            Token::ElementHeadClose,
            Token::Text(chars("t&t")),
            Token::ElementFootStart(chars("a")),
            Token::ElementHFEnd,
        ]
    );
    let (tokens, r) = lex_all(&mut lexer, b"");
    assert!(tokens.is_empty());
    assert!(r.is_ok());
}

#[test]
fn token_for_the_end_of_a_tag_follows_the_name() {
    let mut lexer = Lexer::new();
    let mut q = BufferQueue::new();
    q.push(Cow::Borrowed(&b"<a>"[..]));
    assert_eq!(lexer.lex(&mut q).unwrap(), Some(Token::ElementHeadStart(chars("a"))));
    assert_eq!(q.len(), 0);
    assert_eq!(lexer.lex(&mut q).unwrap(), Some(Token::ElementHFEnd));
    assert!(lexer.lex(&mut q).err().unwrap().is_would_block());
}

#[test]
fn lexer_gives_up_its_buffers_and_goes_on() {
    let mut lexer = Lexer::new();
    let mut q = BufferQueue::new();
    lexer.release_temporaries();
    q.push(Cow::Borrowed(&b"<a b='x&amp;y&ap"[..]));
    assert_eq!(lexer.lex(&mut q).unwrap(), Some(Token::ElementHeadStart(chars("a"))));
    lexer.release_temporaries();
    assert_eq!(lexer.lex(&mut q).unwrap(), Some(Token::Name(chars("b"))));
    assert!(lexer.lex(&mut q).err().unwrap().is_would_block());
    lexer.release_temporaries();
    q.push(Cow::Borrowed(&b"os;'>t&lt;"[..]));
    assert_eq!(lexer.lex(&mut q).unwrap(), Some(Token::AttributeValue(chars("x&y'"))));
    lexer.release_temporaries();
    assert_eq!(lexer.lex(&mut q).unwrap(), Some(Token::ElementHFEnd));
    assert!(lexer.lex(&mut q).err().unwrap().is_would_block());
    lexer.release_temporaries();
    lexer.release_temporaries();
    q.push(Cow::Borrowed(&b"u</a>"[..]));
    q.push_eof();
    assert_eq!(lexer.lex(&mut q).unwrap(), Some(Token::Text(chars("t<u"))));
    lexer.release_temporaries();
    assert_eq!(lexer.lex(&mut q).unwrap(), Some(Token::ElementFootStart(chars("a"))));
    lexer.release_temporaries();
    assert_eq!(lexer.lex(&mut q).unwrap(), Some(Token::ElementHFEnd));
    assert_eq!(lexer.lex(&mut q).unwrap(), None);
    lexer.release_temporaries();
    assert_eq!(lexer.lex(&mut q).unwrap(), None);
}

#[test]
fn lexer_keeps_its_limit() {
    let options = LexerOptions::default().max_token_length(4);
    assert_eq!(options.max_token_length, 4);
    assert_eq!(LexerOptions::default().max_token_length, 8192);
    let mut lexer = Lexer::with_options(options);
    assert_eq!(lexer.max_token_length(), 4);
    let (tokens, r) = lex_all(&mut lexer, b"<abcd e='1234'>123456789&lt;</abcd>");
    assert!(r.is_ok());
    assert_eq!(
        tokens,
        vec![
            Token::ElementHeadStart(chars("abcd")),
            Token::Name(chars("e")),
            Token::AttributeValue(chars("1234")),
            Token::ElementHFEnd,
            Token::Text(chars("1234")),
            Token::Text(chars("5678")),
            Token::Text(chars("9<")),
            Token::ElementFootStart(chars("abcd")),
            Token::ElementHFEnd,
        ]
    );
    let mut lexer = Lexer::with_options(options);
    let (_, r) = lex_all(&mut lexer, b"<abcde/>");
    assert!(matches!(r, Err(Error::Fatal(Fatal::LimitExceeded))));
    assert_eq!(lexer.failed(), Some(Fatal::LimitExceeded));
    let mut lexer = Lexer::with_options(options);
    let (_, r) = lex_all(&mut lexer, b"<a e='12345'/>");
    assert!(matches!(r, Err(Error::Fatal(Fatal::LimitExceeded))));
    let mut lexer = Lexer::with_options(options);
    let (_, r) = lex_all(&mut lexer, b"<a e='1234&amp;'/>");
    assert!(matches!(r, Err(Error::Fatal(Fatal::LimitExceeded))));
}

#[test]
fn parser_takes_tokens() {
    let mut parser = Parser::new();
    let mut lexer = Lexer::new();
    let mut q = BufferQueue::new();
    parser.accept(Token::ElementHeadStart(chars("a")));
    parser.accept(Token::ElementHeadClose);
    parser.finish();
    q.push_eof();
    let first = parser.parse(&mut lexer, &mut q).unwrap().unwrap();
    assert!(matches!(first, Event::StartElement(..)));
    let second = parser.parse(&mut lexer, &mut q).unwrap().unwrap();
    assert!(matches!(second, Event::EndElement(..)));
    assert!(parser.parse(&mut lexer, &mut q).unwrap().is_none());
    let ctx = parser.into_context();
    assert_eq!(ctx.len(), 0);
}

#[test]
fn parser_keeps_namespace_names_in_its_context() {
    let mut parser = Parser::new();
    let mut lexer = Lexer::new();
    let mut q = BufferQueue::new();
    q.push(Cow::Borrowed(&b"<a xmlns='urn:a' xmlns:p='urn:p'><b xmlns='urn:a' xmlns:q='urn:p'/></a>"[..]));
    q.push_eof();
    let mut n = 0;
    while let Some(_) = parser.parse(&mut lexer, &mut q).unwrap() {
        n += 1;
    }
    assert_eq!(n, 4);
    let mut ctx = parser.into_context();
    assert_eq!(ctx.len(), 2);
    assert_eq!(ctx.intern(&chars("urn:p")), 1);
}

#[test]
fn pull_parser_asks_for_input_before_every_token() {
    let mut pp = PullParser::new(());
    assert!(matches!(pp.poll(), Pull::NeedInput));
    pp.supply(b"<a><b/></a>".to_vec());
    match pp.poll() {
        Pull::Ready(Ok(Some(Event::StartElement(q, _)))) => assert_eq!(q.local, "a"),
        other => panic!("{:?}", matches!(other, Pull::NeedInput)),
    }
    match pp.poll() {
        Pull::Ready(Ok(Some(Event::StartElement(q, _)))) => assert_eq!(q.local, "b"),
        _ => panic!(),
    }
    match pp.poll() {
        Pull::Ready(Ok(Some(Event::EndElement(q)))) => assert_eq!(q.local, "b"),
        _ => panic!(),
    }
    // the end of `a` is complete, yet it waits for the source to answer
    assert!(matches!(pp.poll(), Pull::NeedInput));
    assert!(matches!(pp.poll(), Pull::NeedInput));
    assert!(!pp.at_eof());
    pp.supply(b"\n".to_vec());
    match pp.poll() {
        Pull::Ready(Ok(Some(Event::EndElement(q)))) => assert_eq!(q.local, "a"),
        _ => panic!(),
    }
    assert!(matches!(pp.poll(), Pull::NeedInput));
    pp.supply_eof();
    assert!(pp.at_eof());
    assert!(matches!(pp.poll(), Pull::Ready(Ok(None))));
    assert!(matches!(pp.poll(), Pull::Ready(Ok(None))));
}

#[test]
fn pull_parser_hands_out_the_end_tag_at_the_end_of_the_source() {
    let mut pp = PullParser::with_options((), LexerOptions::default());
    pp.supply(b"<a></a>".to_vec());
    assert!(matches!(pp.poll(), Pull::Ready(Ok(Some(Event::StartElement(..))))));
    assert!(matches!(pp.poll(), Pull::NeedInput));
    pp.supply_eof();
    assert!(matches!(pp.poll(), Pull::Ready(Ok(Some(Event::EndElement(..))))));
    assert!(matches!(pp.poll(), Pull::Ready(Ok(None))));
}

#[test]
fn pull_parser_gives_the_events_of_the_feed_parser() {
    let doc: &[u8] = b"<?xml version='1.0'?>\n<r xmlns='urn:r' a='1'><x>t&amp;t</x><y/>text<z xmlns:p='urn:p' p:q='&#65;'></z></r>\n";
    let mut fp = FeedParser::new();
    fp.feed(Cow::Borrowed(doc));
    fp.feed_eof();
    let mut fed = Vec::new();
    assert!(matches!(fp.read_all_eof(|ev| fed.push(ev)), Ok(true)));
    for size in [1usize, 2, 3, 7, 200] {
        let mut pp = PullParser::new(());
        let mut chunks = doc.chunks(size);
        let mut pulled = Vec::new();
        loop {
            match pp.poll() {
                Pull::Ready(Ok(Some(ev))) => pulled.push(ev),
                Pull::Ready(Ok(None)) => break,
                Pull::Ready(Err(e)) => panic!("{:?}", e),
                Pull::NeedInput => match chunks.next() {
                    Some(chunk) => pp.supply(chunk.to_vec()),
                    None => pp.supply_eof(),
                },
            }
        }
        assert_eq!(pulled, fed, "chunks of {}", size);
    }
}

#[test]
fn pull_parser_keeps_a_fatal_error() {
    let mut pp = PullParser::wrap(7u8, Lexer::new(), Parser::new());
    assert_eq!(*pp.get_mut(), 7);
    pp.supply(b"<a>\x00".to_vec());
    assert!(matches!(pp.poll(), Pull::Ready(Ok(Some(Event::StartElement(..))))));
    for _ in 0..3 {
        assert!(matches!(
            pp.poll(),
            Pull::Ready(Err(Error::Fatal(Fatal::InvalidChar(0))))
        ));
    }
    *pp.get_mut() = 8;
    assert_eq!(*pp.get_mut(), 8);
}
