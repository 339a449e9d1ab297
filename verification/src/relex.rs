//! What holds of every step of the lexer, and how the lexer reads what
//! the encoder writes.
//!
//! The encoder writes characters and the lexer reads bytes. The first
//! lemmas here take the step from the one to the other: what the lexer does
//! with the UTF-8 encoding of a run of characters is what its automaton does
//! with the characters. Then come the runs that the encoder writes: names,
//! values and text with their references. At the end stands what keeps the
//! lexer within its limit ([`sound`]): it holds of the lexer at the start
//! and after every step, and so does [`token_ok`] of every token.
use vstd::prelude::*;
use vstd::utf8::{encode_scalar, encode_utf8};
use crate::chars::{spec_is_name_char, spec_is_name_start, spec_is_space, spec_is_xml_char};
use crate::lexer::{
    emit_buf,
    emit_mark,
    entity,
    grow,
    lex_byte,
    lex_char,
    lex_content,
    lex_end,
    lex_markup,
    lex_next,
    lex_reference,
    lex_tag,
    lex_value,
    owing,
    reply_of,
    resolved,
    stay,
    text,
    Kind,
    LexNext,
    LexState,
    LexStep,
    Mode,
    Tag,
    TokenView,
    Within,
};
use crate::utf8::{
    lemma_decodes_width_2,
    lemma_decodes_width_3,
    lemma_decodes_width_4,
    utf8_start,
    utf8_step,
    Decoded,
};
use crate::writer::{escaped_in_text, escaped_in_value, escaped_value};

verus! {

/// A lexer between two tokens and between two characters: nothing failed,
/// nothing is owed, no reference is under way.
pub open spec fn steady(s: LexState) -> bool {
    &&& s.error is None
    &&& !s.owed
    &&& s.dec == utf8_start()
}

/// The result of a read that took `k` bytes before the read `n`.
pub open spec fn later(n: LexNext, k: nat) -> LexNext {
    LexNext { state: n.state, consumed: n.consumed + k, reply: n.reply }
}

/// What no step changes: the decoder and the limit. And a step that
/// completes a token does not fail, nor does a step without a token leave
/// one owed.
pub open spec fn framed(s: LexState, st: LexStep) -> bool {
    &&& st.state.dec == s.dec
    &&& st.state.max == s.max
    &&& s.error is None && st.token is Some ==> st.state.error is None
    &&& !s.owed && st.token is None ==> !st.state.owed
}

proof fn lemma_frame_content(s: LexState, c: char)
    ensures
        framed(s, lex_content(s, c)),
{
}

proof fn lemma_frame_markup(s: LexState, c: char)
    ensures
        framed(s, lex_markup(s, c)),
{
}

proof fn lemma_frame_tag(s: LexState, c: char)
    ensures
        framed(s, lex_tag(s, c)),
{
}

proof fn lemma_frame_value(s: LexState, tag: Tag, double: bool, c: char)
    ensures
        framed(s, lex_value(s, tag, double, c)),
{
}

proof fn lemma_frame_reference(s: LexState, c: char)
    ensures
        framed(s, lex_reference(s, c)),
{
}

/// A step of the automaton leaves the decoder and the limit as they are.
pub proof fn lemma_lex_char_frame(s: LexState, c: char)
    ensures
        framed(s, lex_char(s, c)),
        lex_char(s, c).state.dec == s.dec,
        lex_char(s, c).state.max == s.max,
        s.error is None && lex_char(s, c).token is Some ==> lex_char(s, c).state.error is None,
{
    reveal(lex_char);
    lemma_frame_content(s, c);
    lemma_frame_markup(s, c);
    lemma_frame_tag(s, c);
    lemma_frame_reference(s, c);
    match s.mode {
        crate::lexer::Mode::AttrValue(tag, double) => {
            lemma_frame_value(s, tag, double, c);
        },
        _ => {},
    }
}

/// A byte inside a character is taken and changes the decoder alone.
pub proof fn lemma_lex_pending(s: LexState, bytes: Seq<u8>, eof: bool)
    requires
        s.error is None,
        !s.owed,
        bytes.len() > 0,
        utf8_step(s.dec, bytes[0]).1 == Decoded::Pending,
    ensures
        lex_next(s, bytes, eof) == later(
            lex_next(LexState { dec: utf8_step(s.dec, bytes[0]).0, ..s }, bytes.skip(1), eof),
            1,
        ),
{
    reveal(lex_byte);
}

/// The byte that completes a character is taken, and the automaton takes
/// the character.
pub proof fn lemma_lex_scalar(s: LexState, bytes: Seq<u8>, c: char, eof: bool)
    requires
        s.error is None,
        !s.owed,
        bytes.len() > 0,
        utf8_step(s.dec, bytes[0]) == (utf8_start(), Decoded::Scalar(c)),
    ensures
        ({
            let st = lex_char(LexState { dec: utf8_start(), ..s }, c);
            lex_next(s, bytes, eof) == (if st.state.error is Some || st.token is Some {
                LexNext { state: st.state, consumed: 1, reply: reply_of(st) }
            } else {
                later(lex_next(st.state, bytes.skip(1), eof), 1)
            })
        }),
{
    reveal(lex_byte);
}

/// What a read makes of the bytes of one character: what the automaton
/// makes of the character.
pub proof fn lemma_lex_one_char(s: LexState, c: char, rest: Seq<u8>, eof: bool)
    requires
        steady(s),
    ensures
        ({
            let st = lex_char(s, c);
            let bytes = encode_scalar(c as u32);
            &&& 1 <= bytes.len() <= 4
            &&& lex_next(s, bytes + rest, eof) == (if st.state.error is Some || st.token is Some {
                LexNext { state: st.state, consumed: bytes.len(), reply: reply_of(st) }
            } else {
                later(lex_next(st.state, rest, eof), bytes.len())
            })
        }),
{
    let v = c as u32;
    let bytes = encode_scalar(v);
    let all = bytes + rest;
    let start = utf8_start();
    assert(s == LexState { dec: start, ..s });
    if v <= 0x7F {
        assert((v & 0x7F) == v) by (bit_vector)
            requires
                v <= 0x7F,
        ;
        assert(bytes[0] as char == c);
        assert(all[0] == bytes[0]);
        assert(all.skip(1) =~= rest);
        lemma_lex_scalar(s, all, c, eof);
    } else if v <= 0x7FF {
        lemma_decodes_width_2(c);
        let d1 = utf8_step(start, bytes[0]).0;
        let s1 = LexState { dec: d1, ..s };
        let a1 = all.skip(1);
        assert(all[0] == bytes[0]);
        assert(a1[0] == bytes[1]);
        assert(a1.skip(1) =~= rest);
        lemma_lex_pending(s, all, eof);
        lemma_lex_scalar(s1, a1, c, eof);
        assert(s == LexState { dec: start, ..s1 });
    } else if v <= 0xFFFF {
        lemma_decodes_width_3(c);
        let d1 = utf8_step(start, bytes[0]).0;
        let d2 = utf8_step(d1, bytes[1]).0;
        let s1 = LexState { dec: d1, ..s };
        let s2 = LexState { dec: d2, ..s };
        let a1 = all.skip(1);
        let a2 = a1.skip(1);
        assert(all[0] == bytes[0]);
        assert(a1[0] == bytes[1]);
        assert(a2[0] == bytes[2]);
        assert(a2.skip(1) =~= rest);
        lemma_lex_pending(s, all, eof);
        lemma_lex_pending(s1, a1, eof);
        assert(s2 == LexState { dec: d2, ..s1 });
        lemma_lex_scalar(s2, a2, c, eof);
        assert(s == LexState { dec: start, ..s2 });
    } else {
        lemma_decodes_width_4(c);
        let d1 = utf8_step(start, bytes[0]).0;
        let d2 = utf8_step(d1, bytes[1]).0;
        let d3 = utf8_step(d2, bytes[2]).0;
        let s1 = LexState { dec: d1, ..s };
        let s2 = LexState { dec: d2, ..s };
        let s3 = LexState { dec: d3, ..s };
        let a1 = all.skip(1);
        let a2 = a1.skip(1);
        let a3 = a2.skip(1);
        assert(all[0] == bytes[0]);
        assert(a1[0] == bytes[1]);
        assert(a2[0] == bytes[2]);
        assert(a3[0] == bytes[3]);
        assert(a3.skip(1) =~= rest);
        lemma_lex_pending(s, all, eof);
        lemma_lex_pending(s1, a1, eof);
        assert(s2 == LexState { dec: d2, ..s1 });
        lemma_lex_pending(s2, a2, eof);
        assert(s3 == LexState { dec: d3, ..s2 });
        lemma_lex_scalar(s3, a3, c, eof);
        assert(s == LexState { dec: start, ..s3 });
    }
}

/// The state after a run of characters none of which completes a token or
/// is at fault; `None` where one of them does or is.
pub open spec fn lex_quiet(s: LexState, chars: Seq<char>) -> Option<LexState>
    decreases chars.len(),
{
    if chars.len() == 0 {
        Some(s)
    } else {
        let st = lex_char(s, chars[0]);
        if st.state.error is Some || st.token is Some {
            None
        } else {
            lex_quiet(st.state, chars.skip(1))
        }
    }
}

/// Two runs without a token are one.
pub proof fn lemma_lex_quiet_append(s: LexState, a: Seq<char>, b: Seq<char>)
    ensures
        lex_quiet(s, a + b) == (match lex_quiet(s, a) {
            Some(m) => lex_quiet(m, b),
            None => None,
        }),
    decreases a.len(),
{
    if a.len() == 0 {
        assert(a + b =~= b);
    } else {
        assert((a + b)[0] == a[0]);
        assert((a + b).skip(1) =~= a.skip(1) + b);
        let st = lex_char(s, a[0]);
        if !(st.state.error is Some || st.token is Some) {
            lemma_lex_quiet_append(st.state, a.skip(1), b);
        }
    }
}

/// Only a step that completes a token leaves a token owed.
pub proof fn lemma_lex_char_quiet_owes(s: LexState, c: char)
    requires
        !s.owed,
    ensures
        lex_char(s, c).token is None ==> !lex_char(s, c).state.owed,
{
    lemma_lex_char_frame(s, c);
}

/// The UTF-8 encoding of two runs of characters is that of the first and
/// then that of the second.
pub proof fn lemma_encode_append(a: Seq<char>, b: Seq<char>)
    ensures
        encode_utf8(a + b) == encode_utf8(a) + encode_utf8(b),
    decreases a.len(),
{
    if a.len() == 0 {
        assert(a + b =~= b);
        assert(encode_utf8(a) + encode_utf8(b) =~= encode_utf8(b));
    } else {
        assert((a + b)[0] == a[0]);
        assert((a + b).drop_first() =~= a.drop_first() + b);
        lemma_encode_append(a.drop_first(), b);
        assert((encode_scalar(a[0] as u32) + encode_utf8(a.drop_first())) + encode_utf8(b)
            =~= encode_scalar(a[0] as u32) + (encode_utf8(a.drop_first()) + encode_utf8(b)));
    }
}

/// What a read makes of the bytes of a run of characters without a token:
/// it takes them all and goes on behind them.
pub proof fn lemma_lex_quiet_bytes(s: LexState, chars: Seq<char>, rest: Seq<u8>, eof: bool)
    requires
        steady(s),
        lex_quiet(s, chars) is Some,
    ensures
        steady(lex_quiet(s, chars)->0),
        lex_next(s, encode_utf8(chars) + rest, eof) == later(
            lex_next(lex_quiet(s, chars)->0, rest, eof),
            encode_utf8(chars).len(),
        ),
    decreases chars.len(),
{
    if chars.len() == 0 {
        assert(encode_utf8(chars) + rest =~= rest);
    } else {
        let c = chars[0];
        let st = lex_char(s, c);
        let head = encode_scalar(c as u32);
        let tail = encode_utf8(chars.drop_first());
        assert(chars.drop_first() =~= chars.skip(1));
        lemma_lex_char_frame(s, c);
        lemma_lex_char_quiet_owes(s, c);
        lemma_lex_one_char(s, c, tail + rest, eof);
        assert(head + (tail + rest) =~= encode_utf8(chars) + rest);
        lemma_lex_quiet_bytes(st.state, chars.skip(1), rest, eof);
    }
}

/// What a read makes of the bytes of a run of characters without a token
/// and of a character after it that completes one: it takes them all and
/// hands out the token.
pub proof fn lemma_lex_token_bytes(s: LexState, chars: Seq<char>, c: char, rest: Seq<u8>, eof: bool)
    requires
        steady(s),
        lex_quiet(s, chars) is Some,
        lex_char(lex_quiet(s, chars)->0, c).token is Some,
    ensures
        ({
            let st = lex_char(lex_quiet(s, chars)->0, c);
            &&& st.state.error is None
            &&& st.state.dec == utf8_start()
            &&& lex_next(s, encode_utf8(chars.push(c)) + rest, eof) == (LexNext {
                state: st.state,
                consumed: encode_utf8(chars.push(c)).len(),
                reply: reply_of(st),
            })
        }),
{
    let mid = lex_quiet(s, chars)->0;
    let last = encode_scalar(c as u32);
    lemma_lex_quiet_bytes(s, chars, last + rest, eof);
    lemma_lex_char_frame(mid, c);
    lemma_lex_one_char(mid, c, rest, eof);
    lemma_encode_append(chars, seq![c]);
    assert(chars.push(c) =~= chars + seq![c]);
    assert(seq![c].drop_first() =~= Seq::<char>::empty());
    assert(encode_utf8(Seq::<char>::empty()) =~= Seq::<u8>::empty());
    assert(seq![c][0] == c);
    assert(encode_utf8(seq![c]) =~= last + Seq::<u8>::empty());
    assert(encode_utf8(seq![c]) =~= last);
    assert(encode_utf8(chars) + (last + rest) =~= encode_utf8(chars.push(c)) + rest);
}

/// Which part of the automaton takes a character in which mode.
pub proof fn lemma_dispatch(s: LexState, c: char)
    ensures
        (s.mode is Start || s.mode is Content) ==> lex_char(s, c) == lex_content(s, c),
        (s.mode is StartOpen || s.mode is Open || s.mode is CloseOpen || s.mode is DeclTarget)
            ==> lex_char(s, c) == lex_markup(s, c),
        (s.mode is ElementName || s.mode is Blank || s.mode is AttrName || s.mode is AttrEq
            || s.mode is AttrQuote || s.mode is AttrDone || s.mode is Slash || s.mode is Question)
            ==> lex_char(s, c) == lex_tag(s, c),
        s.mode matches Mode::AttrValue(tag, double) ==> lex_char(s, c) == lex_value(
            s,
            tag,
            double,
            c,
        ),
        (s.mode is Ref || s.mode is RefName || s.mode is RefHash || s.mode is RefDec || s.mode
            is RefHexStart || s.mode is RefHex) ==> lex_char(s, c) == lex_reference(s, c),
{
    reveal(lex_char);
}

/// A lexer between two tokens with no reference under way.
pub open spec fn idle(s: LexState) -> bool {
    &&& steady(s)
    &&& s.aux == Seq::<char>::empty()
    &&& s.num == 0
}

/// Characters that make a name: the production `Name`.
pub open spec fn is_name(s: Seq<char>) -> bool {
    &&& s.len() > 0
    &&& spec_is_name_start(s[0])
    &&& forall|i: int| 0 <= i < s.len() ==> spec_is_name_char(#[trigger] s[i])
}

/// A run of one step that completes no token.
pub proof fn lemma_quiet_one(s: LexState, c: char)
    requires
        lex_char(s, c).token is None,
        lex_char(s, c).state.error is None,
    ensures
        lex_quiet(s, seq![c]) == Some(lex_char(s, c).state),
{
    assert(seq![c].skip(1) =~= Seq::<char>::empty());
    assert(seq![c][0] == c);
    assert(lex_quiet(lex_char(s, c).state, Seq::<char>::empty()) == Some(lex_char(s, c).state));
}

/// A run goes on after its first step.
pub proof fn lemma_quiet_first(s: LexState, c: char, rest: Seq<char>)
    requires
        lex_char(s, c).token is None,
        lex_char(s, c).state.error is None,
    ensures
        lex_quiet(s, seq![c] + rest) == lex_quiet(lex_char(s, c).state, rest),
{
    assert((seq![c] + rest).skip(1) =~= rest);
    assert((seq![c] + rest)[0] == c);
}

/// The characters of a name after its first are added to the buffer.
pub proof fn lemma_quiet_grow(s: LexState, chars: Seq<char>)
    requires
        s.error is None,
        s.mode is ElementName || s.mode is AttrName,
        forall|i: int| 0 <= i < chars.len() ==> spec_is_name_char(#[trigger] chars[i]),
        s.buf.len() + chars.len() <= s.max,
    ensures
        lex_quiet(s, chars) == Some(LexState { buf: s.buf + chars, ..s }),
    decreases chars.len(),
{
    if chars.len() == 0 {
        assert(s.buf + chars =~= s.buf);
    } else {
        let c = chars[0];
        lemma_dispatch(s, c);
        let next = LexState { buf: s.buf.push(c), ..s };
        assert(lex_char(s, c) == grow(s, s.mode, c));
        assert(lex_char(s, c).state == next);
        assert forall|i: int| 0 <= i < chars.skip(1).len() implies spec_is_name_char(
            #[trigger] chars.skip(1)[i],
        ) by {
            assert(chars.skip(1)[i] == chars[i + 1]);
        }
        lemma_quiet_grow(next, chars.skip(1));
        assert(next.buf + chars.skip(1) =~= s.buf + chars);
    }
}

/// A name after `<` or `</` is taken into the buffer.
pub proof fn lemma_quiet_element_name(s: LexState, name: Seq<char>)
    requires
        s.error is None,
        s.mode is Open || s.mode is StartOpen || s.mode is CloseOpen,
        s.buf.len() == 0,
        is_name(name),
        name.len() <= s.max,
    ensures
        lex_quiet(s, name) == Some(
            LexState {
                mode: Mode::ElementName(
                    if s.mode is CloseOpen {
                        Tag::Foot
                    } else {
                        Tag::Head
                    },
                ),
                buf: name,
                ..s
            },
        ),
{
    let c = name[0];
    let tag = if s.mode is CloseOpen {
        Tag::Foot
    } else {
        Tag::Head
    };
    lemma_dispatch(s, c);
    assert(spec_is_name_start(c));
    assert(c != '?' && c != '!' && c != '/');
    let next = LexState { mode: Mode::ElementName(tag), buf: s.buf.push(c), ..s };
    assert(lex_char(s, c) == grow(s, Mode::ElementName(tag), c));
    assert(lex_char(s, c).state == next);
    assert forall|i: int| 0 <= i < name.skip(1).len() implies spec_is_name_char(
        #[trigger] name.skip(1)[i],
    ) by {
        assert(name.skip(1)[i] == name[i + 1]);
    }
    lemma_quiet_grow(next, name.skip(1));
    assert(next.buf + name.skip(1) =~= name);
}

/// The name of an attribute, after white space or after the value before
/// it, is taken into the buffer.
pub proof fn lemma_quiet_attribute_name(s: LexState, name: Seq<char>)
    requires
        s.error is None,
        s.mode == Mode::Blank(Tag::Head) || s.mode == Mode::AttrDone(Tag::Head) || s.mode
            == Mode::Blank(Tag::Decl),
        s.buf.len() == 0,
        is_name(name),
        name.len() <= s.max,
    ensures
        s.mode is Blank ==> lex_quiet(s, name) == Some(
            LexState { mode: Mode::AttrName(s.mode->Blank_0), buf: name, ..s },
        ),
        s.mode is AttrDone ==> lex_quiet(s, seq![' '] + name) == Some(
            LexState { mode: Mode::AttrName(Tag::Head), buf: name, ..s },
        ),
{
    let c = name[0];
    assert(spec_is_name_start(c));
    assert(!spec_is_space(c));
    assert forall|i: int| 0 <= i < name.skip(1).len() implies spec_is_name_char(
        #[trigger] name.skip(1)[i],
    ) by {
        assert(name.skip(1)[i] == name[i + 1]);
    }
    if s.mode is Blank {
        let tag = s.mode->Blank_0;
        lemma_dispatch(s, c);
        let next = LexState { mode: Mode::AttrName(tag), buf: s.buf.push(c), ..s };
        assert(lex_char(s, c) == grow(s, Mode::AttrName(tag), c));
        assert(lex_char(s, c).state == next);
        lemma_quiet_grow(next, name.skip(1));
        assert(next.buf + name.skip(1) =~= name);
    } else {
        lemma_dispatch(s, ' ');
        let blank = LexState { mode: Mode::Blank(Tag::Head), ..s };
        assert(lex_char(s, ' ') == stay(s, Mode::Blank(Tag::Head)));
        lemma_quiet_first(s, ' ', name);
        lemma_dispatch(blank, c);
        let next = LexState { mode: Mode::AttrName(Tag::Head), buf: s.buf.push(c), ..s };
        assert(lex_char(blank, c) == grow(blank, Mode::AttrName(Tag::Head), c));
        assert(lex_char(blank, c).state == next);
        lemma_quiet_grow(next, name.skip(1));
        assert(next.buf + name.skip(1) =~= name);
    }
}

/// The characters that end a token in a tag, and the token that each
/// ends.
pub proof fn lemma_tag_tokens(s: LexState)
    requires
        s.error is None,
    ensures
        s.mode == Mode::ElementName(Tag::Head) ==> lex_char(s, ' ') == emit_buf(
            s,
            Mode::Blank(Tag::Head),
            Kind::HeadStart,
        ) && lex_char(s, '>') == owing(emit_buf(s, Mode::Content, Kind::HeadStart)),
        s.mode == Mode::ElementName(Tag::Foot) ==> lex_char(s, '>') == owing(
            emit_buf(s, Mode::Content, Kind::FootStart),
        ),
        s.mode matches Mode::AttrName(tag) ==> lex_char(s, '=') == emit_buf(
            s,
            Mode::AttrQuote(tag),
            Kind::Name,
        ),
        s.mode matches Mode::AttrQuote(tag) ==> lex_char(s, '\'') == stay(
            s,
            Mode::AttrValue(tag, false),
        ),
        s.mode matches Mode::AttrValue(tag, double) ==> (!double ==> lex_char(s, '\'')
            == emit_buf(s, Mode::AttrDone(tag), Kind::Value)),
        s.mode == Mode::AttrDone(Tag::Head) || s.mode == Mode::Blank(Tag::Head) ==> lex_char(
            s,
            '>',
        ) == emit_mark(s, Mode::Content, TokenView::ElementHFEnd),
        s.mode == Mode::AttrDone(Tag::Decl) ==> lex_char(s, '?') == stay(s, Mode::Question),
        s.mode == Mode::Question ==> lex_char(s, '>') == emit_mark(
            s,
            Mode::Content,
            TokenView::XmlDeclEnd,
        ),
        (s.mode is Start || s.mode is Content) && s.buf.len() == 0 ==> lex_char(s, '<') == stay(
            s,
            if s.mode is Start {
                Mode::StartOpen
            } else {
                Mode::Open
            },
        ),
        s.mode is Content && s.buf.len() > 0 ==> lex_char(s, '<') == emit_buf(
            s,
            Mode::Open,
            Kind::Text,
        ),
        (s.mode is Open || s.mode is StartOpen) ==> lex_char(s, '/') == stay(s, Mode::CloseOpen),
{
    lemma_dispatch(s, ' ');
    lemma_dispatch(s, '>');
    lemma_dispatch(s, '=');
    lemma_dispatch(s, '\'');
    lemma_dispatch(s, '?');
    lemma_dispatch(s, '<');
    lemma_dispatch(s, '/');
    assert(!spec_is_name_char(' ') && !spec_is_name_char('>') && !spec_is_name_char('='));
    assert(!spec_is_space('>') && !spec_is_space('=') && !spec_is_space('\'') && !spec_is_space(
        '?',
    ));
    assert(!spec_is_name_start('>') && !spec_is_name_start('?'));
}

/// The characters of the references that the encoder writes.
pub proof fn lemma_reference_literals()
    ensures
        "&amp;"@ == seq!['&', 'a', 'm', 'p', ';'],
        "&lt;"@ == seq!['&', 'l', 't', ';'],
        "&apos;"@ == seq!['&', 'a', 'p', 'o', 's', ';'],
        "&#9;"@ == seq!['&', '#', '9', ';'],
        "&#10;"@ == seq!['&', '#', '1', '0', ';'],
        "&#13;"@ == seq!['&', '#', '1', '3', ';'],
        entity(seq!['a', 'm', 'p']) == Some('&'),
        entity(seq!['l', 't']) == Some('<'),
        entity(seq!['a', 'p', 'o', 's']) == Some('\''),
{
    reveal_strlit("&amp;");
    reveal_strlit("&lt;");
    reveal_strlit("&apos;");
    reveal_strlit("&#9;");
    reveal_strlit("&#10;");
    reveal_strlit("&#13;");
    reveal_strlit("amp");
    reveal_strlit("lt");
    reveal_strlit("gt");
    reveal_strlit("apos");
    reveal_strlit("quot");
    assert("&amp;"@ =~= seq!['&', 'a', 'm', 'p', ';']);
    assert("&lt;"@ =~= seq!['&', 'l', 't', ';']);
    assert("&apos;"@ =~= seq!['&', 'a', 'p', 'o', 's', ';']);
    assert("&#9;"@ =~= seq!['&', '#', '9', ';']);
    assert("&#10;"@ =~= seq!['&', '#', '1', '0', ';']);
    assert("&#13;"@ =~= seq!['&', '#', '1', '3', ';']);
    assert("amp"@ =~= seq!['a', 'm', 'p']);
    assert("lt"@ =~= seq!['l', 't']);
    assert("apos"@ =~= seq!['a', 'p', 'o', 's']);
}

/// The step that takes a character of the name of an entity.
pub proof fn lemma_entity_char(s: LexState, w: Within, c: char)
    requires
        s.error is None,
        s.mode == Mode::Ref(w) || s.mode == Mode::RefName(w),
        s.mode is Ref ==> s.aux.len() == 0,
        s.aux.len() < 4,
        'a' <= c <= 'z',
    ensures
        lex_char(s, c) == (LexStep {
            state: LexState { mode: Mode::RefName(w), aux: s.aux.push(c), ..s },
            token: None,
        }),
{
    lemma_dispatch(s, c);
    assert(spec_is_name_start(c) && spec_is_name_char(c));
    if s.mode is Ref {
        assert(seq![c] =~= s.aux.push(c));
    }
}

/// The steps that take the name of one of the entities that the encoder
/// writes, after `&` and up to `;`.
pub proof fn lemma_entity_steps(s: LexState, w: Within)
    requires
        s.error is None,
        s.mode == Mode::Ref(w),
        s.aux.len() == 0,
    ensures
        lex_quiet(s, seq!['a', 'm', 'p']) == Some(
            LexState { mode: Mode::RefName(w), aux: seq!['a', 'm', 'p'], ..s },
        ),
        lex_quiet(s, seq!['l', 't']) == Some(
            LexState { mode: Mode::RefName(w), aux: seq!['l', 't'], ..s },
        ),
        lex_quiet(s, seq!['a', 'p', 'o', 's']) == Some(
            LexState { mode: Mode::RefName(w), aux: seq!['a', 'p', 'o', 's'], ..s },
        ),
{
    let none = Seq::<char>::empty();
    assert(s.aux =~= none);
    let a = LexState { mode: Mode::RefName(w), aux: seq!['a'], ..s };
    let am = LexState { mode: Mode::RefName(w), aux: seq!['a', 'm'], ..s };
    let amp = LexState { mode: Mode::RefName(w), aux: seq!['a', 'm', 'p'], ..s };
    let l = LexState { mode: Mode::RefName(w), aux: seq!['l'], ..s };
    let lt = LexState { mode: Mode::RefName(w), aux: seq!['l', 't'], ..s };
    let ap = LexState { mode: Mode::RefName(w), aux: seq!['a', 'p'], ..s };
    let apo = LexState { mode: Mode::RefName(w), aux: seq!['a', 'p', 'o'], ..s };
    let apos = LexState { mode: Mode::RefName(w), aux: seq!['a', 'p', 'o', 's'], ..s };
    lemma_entity_char(s, w, 'a');
    lemma_entity_char(s, w, 'l');
    lemma_entity_char(a, w, 'm');
    lemma_entity_char(a, w, 'p');
    lemma_entity_char(am, w, 'p');
    lemma_entity_char(l, w, 't');
    lemma_entity_char(ap, w, 'o');
    lemma_entity_char(apo, w, 's');
    assert(s.aux.push('a') =~= seq!['a']);
    assert(s.aux.push('l') =~= seq!['l']);
    assert(a.aux.push('m') =~= seq!['a', 'm']);
    assert(a.aux.push('p') =~= seq!['a', 'p']);
    assert(am.aux.push('p') =~= seq!['a', 'm', 'p']);
    assert(l.aux.push('t') =~= seq!['l', 't']);
    assert(ap.aux.push('o') =~= seq!['a', 'p', 'o']);
    assert(apo.aux.push('s') =~= seq!['a', 'p', 'o', 's']);
    // amp
    lemma_quiet_one(am, 'p');
    lemma_quiet_first(a, 'm', seq!['p']);
    lemma_quiet_first(s, 'a', seq!['m', 'p']);
    assert(seq!['m'] + seq!['p'] =~= seq!['m', 'p']);
    assert(seq!['a'] + seq!['m', 'p'] =~= seq!['a', 'm', 'p']);
    // lt
    lemma_quiet_one(l, 't');
    lemma_quiet_first(s, 'l', seq!['t']);
    assert(seq!['l'] + seq!['t'] =~= seq!['l', 't']);
    // apos
    lemma_quiet_one(apo, 's');
    lemma_quiet_first(ap, 'o', seq!['s']);
    lemma_quiet_first(a, 'p', seq!['o', 's']);
    lemma_quiet_first(s, 'a', seq!['p', 'o', 's']);
    assert(seq!['o'] + seq!['s'] =~= seq!['o', 's']);
    assert(seq!['p'] + seq!['o', 's'] =~= seq!['p', 'o', 's']);
    assert(seq!['a'] + seq!['p', 'o', 's'] =~= seq!['a', 'p', 'o', 's']);
}

/// The steps that take the digits of one of the character references
/// that the encoder writes, after `&` and up to `;`.
pub proof fn lemma_charref_steps(s: LexState, w: Within)
    requires
        s.error is None,
        s.mode == Mode::Ref(w),
    ensures
        lex_quiet(s, seq!['#', '9']) == Some(LexState { mode: Mode::RefDec(w), num: 9, ..s }),
        lex_quiet(s, seq!['#', '1', '0']) == Some(LexState { mode: Mode::RefDec(w), num: 10, ..s }),
        lex_quiet(s, seq!['#', '1', '3']) == Some(LexState { mode: Mode::RefDec(w), num: 13, ..s }),
{
    let hash = LexState { mode: Mode::RefHash(w), ..s };
    let one = LexState { mode: Mode::RefDec(w), num: 1, ..s };
    let nine = LexState { mode: Mode::RefDec(w), num: 9, ..s };
    let ten = LexState { mode: Mode::RefDec(w), num: 10, ..s };
    let thirteen = LexState { mode: Mode::RefDec(w), num: 13, ..s };
    lemma_dispatch(s, '#');
    lemma_dispatch(hash, '9');
    lemma_dispatch(hash, '1');
    lemma_dispatch(one, '0');
    lemma_dispatch(one, '3');
    assert(lex_char(s, '#') == stay(s, Mode::RefHash(w)));
    assert(lex_char(hash, '9').state == nine && lex_char(hash, '9').token is None);
    assert(lex_char(hash, '1').state == one && lex_char(hash, '1').token is None);
    assert(lex_char(one, '0').state == ten && lex_char(one, '0').token is None);
    assert(lex_char(one, '3').state == thirteen && lex_char(one, '3').token is None);
    lemma_quiet_one(hash, '9');
    lemma_quiet_first(s, '#', seq!['9']);
    assert(seq!['#'] + seq!['9'] =~= seq!['#', '9']);
    lemma_quiet_one(one, '0');
    lemma_quiet_one(one, '3');
    lemma_quiet_first(hash, '1', seq!['0']);
    lemma_quiet_first(hash, '1', seq!['3']);
    lemma_quiet_first(s, '#', seq!['1', '0']);
    lemma_quiet_first(s, '#', seq!['1', '3']);
    assert(seq!['1'] + seq!['0'] =~= seq!['1', '0']);
    assert(seq!['1'] + seq!['3'] =~= seq!['1', '3']);
    assert(seq!['#'] + seq!['1', '0'] =~= seq!['#', '1', '0']);
    assert(seq!['#'] + seq!['1', '3'] =~= seq!['#', '1', '3']);
}

/// The step on the `;` of a reference that the encoder writes puts the
/// character of the reference where the reference stood.
pub proof fn lemma_reference_end(s: LexState, w: Within)
    requires
        s.error is None,
    ensures
        s.mode == Mode::RefName(w) && s.aux == seq!['a', 'm', 'p'] ==> lex_char(s, ';') == resolved(
            s,
            w,
            '&',
        ),
        s.mode == Mode::RefName(w) && s.aux == seq!['l', 't'] ==> lex_char(s, ';') == resolved(
            s,
            w,
            '<',
        ),
        s.mode == Mode::RefName(w) && s.aux == seq!['a', 'p', 'o', 's'] ==> lex_char(s, ';')
            == resolved(s, w, '\''),
        s.mode == Mode::RefDec(w) && s.num == 9 ==> lex_char(s, ';') == resolved(s, w, '\t'),
        s.mode == Mode::RefDec(w) && s.num == 10 ==> lex_char(s, ';') == resolved(s, w, '\n'),
        s.mode == Mode::RefDec(w) && s.num == 13 ==> lex_char(s, ';') == resolved(s, w, '\r'),
{
    lemma_reference_literals();
    lemma_dispatch(s, ';');
    assert(9u32 as char == '\t');
    assert(10u32 as char == '\n');
    assert(13u32 as char == '\r');
}

/// A run that is `&`, the body of a reference and `;`.
pub proof fn lemma_quiet_reference(
    s: LexState,
    w: Within,
    body: Seq<char>,
    mid: LexState,
    last: LexState,
)
    requires
        lex_char(s, '&') == stay(s, Mode::Ref(w)),
        s.error is None,
        lex_quiet(LexState { mode: Mode::Ref(w), ..s }, body) == Some(mid),
        lex_char(mid, ';') == (LexStep { state: last, token: None }),
        last.error is None,
    ensures
        lex_quiet(s, seq!['&'] + body + seq![';']) == Some(last),
{
    let r = LexState { mode: Mode::Ref(w), ..s };
    lemma_quiet_first(s, '&', body + seq![';']);
    lemma_lex_quiet_append(r, body, seq![';']);
    lemma_quiet_one(mid, ';');
    assert(seq!['&'] + body + seq![';'] =~= seq!['&'] + (body + seq![';']));
}

/// A character of a value, as the encoder writes it, is added to the
/// buffer.
pub proof fn lemma_quiet_escaped_in_value(s: LexState, c: char)
    requires
        idle(s),
        s.mode == Mode::AttrValue(Tag::Head, false),
        s.buf.len() < s.max,
        spec_is_xml_char(c),
    ensures
        lex_quiet(s, escaped_in_value(c)) == Some(LexState { buf: s.buf.push(c), ..s }),
{
    lemma_reference_literals();
    let w = Within::Value(false);
    let r = LexState { mode: Mode::Ref(w), ..s };
    let last = LexState { buf: s.buf.push(c), ..s };
    lemma_dispatch(s, c);
    lemma_dispatch(s, '&');
    assert(s.aux =~= Seq::<char>::empty());
    if c == '&' || c == '<' || c == '\'' {
        let body = if c == '&' {
            seq!['a', 'm', 'p']
        } else if c == '<' {
            seq!['l', 't']
        } else {
            seq!['a', 'p', 'o', 's']
        };
        let mid = LexState { mode: Mode::RefName(w), aux: body, ..s };
        lemma_entity_steps(r, w);
        lemma_reference_end(mid, w);
        assert(LexState { aux: Seq::<char>::empty(), num: 0, ..mid } == LexState {
            mode: Mode::RefName(w),
            ..s
        });
        assert(resolved(mid, w, c) == LexStep { state: last, token: None });
        lemma_quiet_reference(s, w, body, mid, last);
        assert(escaped_in_value(c) =~= seq!['&'] + body + seq![';']);
    } else if c == '\t' || c == '\n' || c == '\r' {
        let body = if c == '\t' {
            seq!['#', '9']
        } else if c == '\n' {
            seq!['#', '1', '0']
        } else {
            seq!['#', '1', '3']
        };
        let n: u32 = if c == '\t' {
            9
        } else if c == '\n' {
            10
        } else {
            13
        };
        let mid = LexState { mode: Mode::RefDec(w), num: n, ..s };
        lemma_charref_steps(r, w);
        lemma_reference_end(mid, w);
        assert(LexState { aux: Seq::<char>::empty(), num: 0, ..mid } == LexState {
            mode: Mode::RefDec(w),
            ..s
        });
        assert(resolved(mid, w, c) == LexStep { state: last, token: None });
        lemma_quiet_reference(s, w, body, mid, last);
        assert(escaped_in_value(c) =~= seq!['&'] + body + seq![';']);
    } else {
        assert(lex_char(s, c) == grow(s, s.mode, c));
        lemma_quiet_one(s, c);
    }
}

/// A value, as the encoder writes it, is taken into the buffer.
pub proof fn lemma_quiet_escaped_value(s: LexState, v: Seq<char>)
    requires
        idle(s),
        s.mode == Mode::AttrValue(Tag::Head, false),
        s.buf.len() + v.len() <= s.max,
        forall|i: int| 0 <= i < v.len() ==> spec_is_xml_char(#[trigger] v[i]),
    ensures
        lex_quiet(s, escaped_value(v)) == Some(LexState { buf: s.buf + v, ..s }),
    decreases v.len(),
{
    if v.len() == 0 {
        assert(s.buf + v =~= s.buf);
    } else {
        let next = LexState { buf: s.buf.push(v[0]), ..s };
        lemma_quiet_escaped_in_value(s, v[0]);
        lemma_lex_quiet_append(s, escaped_in_value(v[0]), escaped_value(v.skip(1)));
        assert forall|i: int| 0 <= i < v.skip(1).len() implies spec_is_xml_char(
            #[trigger] v.skip(1)[i],
        ) by {
            assert(v.skip(1)[i] == v[i + 1]);
        }
        lemma_quiet_escaped_value(next, v.skip(1));
        assert(next.buf + v.skip(1) =~= s.buf + v);
    }
}

/// A character of text, as the encoder writes it, is taken as the
/// character itself: the characters before the last of what was written
/// complete no token, and the last does what the character would do. Where
/// the buffer is full, that is to hand out the text so far and to begin the
/// next run.
pub proof fn lemma_escaped_in_text_step(s: LexState, c: char)
    requires
        idle(s),
        s.mode == Mode::Content,
        spec_is_xml_char(c),
    ensures
        ({
            let esc = escaped_in_text(c);
            &&& esc.len() > 0
            &&& lex_quiet(s, esc.drop_last()) is Some
            &&& lex_char(lex_quiet(s, esc.drop_last())->0, esc.last()) == text(s, c)
        }),
{
    lemma_reference_literals();
    let w = Within::Text;
    let r = LexState { mode: Mode::Ref(w), ..s };
    let esc = escaped_in_text(c);
    lemma_dispatch(s, c);
    lemma_dispatch(s, '&');
    assert(s.aux =~= Seq::<char>::empty());
    if c == '&' || c == '<' {
        let body = if c == '&' {
            seq!['a', 'm', 'p']
        } else {
            seq!['l', 't']
        };
        let mid = LexState { mode: Mode::RefName(w), aux: body, ..s };
        lemma_entity_steps(r, w);
        lemma_reference_end(mid, w);
        assert(LexState { aux: Seq::<char>::empty(), num: 0, ..mid } == LexState {
            mode: Mode::RefName(w),
            ..s
        });
        assert(resolved(mid, w, c) == text(s, c));
        lemma_quiet_first(s, '&', body);
        assert(esc =~= (seq!['&'] + body).push(';'));
        assert(esc.drop_last() =~= seq!['&'] + body);
        assert(esc.last() == ';');
    } else {
        assert(esc =~= seq![c]);
        assert(esc.drop_last() =~= Seq::<char>::empty());
        assert(lex_quiet(s, Seq::<char>::empty()) == Some(s));
        assert(lex_char(s, c) == text(s, c));
    }
}

/// The steps that take `<?xml` at the start of the input, and the space
/// after it.
pub proof fn lemma_declaration_start(s: LexState)
    requires
        s.error is None,
        s.mode is Start,
        s.buf.len() == 0,
    ensures
        lex_quiet(s, seq!['<', '?', 'x', 'm', 'l']) == Some(
            LexState { mode: Mode::DeclTarget(3), ..s },
        ),
        lex_char(LexState { mode: Mode::DeclTarget(3), ..s }, ' ') == emit_mark(
            LexState { mode: Mode::DeclTarget(3), ..s },
            Mode::Blank(Tag::Decl),
            TokenView::XmlDeclStart,
        ),
{
    let s0 = LexState { mode: Mode::StartOpen, ..s };
    let s1 = LexState { mode: Mode::DeclTarget(0), ..s };
    let s2 = LexState { mode: Mode::DeclTarget(1), ..s };
    let s3 = LexState { mode: Mode::DeclTarget(2), ..s };
    let s4 = LexState { mode: Mode::DeclTarget(3), ..s };
    lemma_dispatch(s, '<');
    lemma_dispatch(s0, '?');
    lemma_dispatch(s1, 'x');
    lemma_dispatch(s2, 'm');
    lemma_dispatch(s3, 'l');
    lemma_dispatch(s4, ' ');
    assert(lex_char(s, '<') == stay(s, Mode::StartOpen));
    assert(lex_char(s0, '?') == stay(s0, Mode::DeclTarget(0)));
    assert(lex_char(s1, 'x') == stay(s1, Mode::DeclTarget(1)));
    assert(lex_char(s2, 'm') == stay(s2, Mode::DeclTarget(2)));
    assert(lex_char(s3, 'l') == stay(s3, Mode::DeclTarget(3)));
    lemma_quiet_one(s3, 'l');
    lemma_quiet_first(s2, 'm', seq!['l']);
    lemma_quiet_first(s1, 'x', seq!['m', 'l']);
    lemma_quiet_first(s0, '?', seq!['x', 'm', 'l']);
    lemma_quiet_first(s, '<', seq!['?', 'x', 'm', 'l']);
    assert(seq!['m'] + seq!['l'] =~= seq!['m', 'l']);
    assert(seq!['x'] + seq!['m', 'l'] =~= seq!['x', 'm', 'l']);
    assert(seq!['?'] + seq!['x', 'm', 'l'] =~= seq!['?', 'x', 'm', 'l']);
    assert(seq!['<'] + seq!['?', 'x', 'm', 'l'] =~= seq!['<', '?', 'x', 'm', 'l']);
}

/// The steps that take `'1.0` in the XML declaration.
pub proof fn lemma_declaration_value(s: LexState)
    requires
        s.error is None,
        s.mode == Mode::AttrQuote(Tag::Decl),
        s.buf.len() == 0,
        s.max >= 3,
    ensures
        lex_quiet(s, seq!['\'', '1', '.', '0']) == Some(
            LexState { mode: Mode::AttrValue(Tag::Decl, false), buf: seq!['1', '.', '0'], ..s },
        ),
{
    let mode = Mode::AttrValue(Tag::Decl, false);
    let s0 = LexState { mode, ..s };
    let s1 = LexState { mode, buf: seq!['1'], ..s };
    let s2 = LexState { mode, buf: seq!['1', '.'], ..s };
    let s3 = LexState { mode, buf: seq!['1', '.', '0'], ..s };
    assert(s.buf =~= Seq::<char>::empty());
    lemma_dispatch(s, '\'');
    lemma_dispatch(s0, '1');
    lemma_dispatch(s1, '.');
    lemma_dispatch(s2, '0');
    assert(spec_is_xml_char('1') && spec_is_xml_char('.') && spec_is_xml_char('0'));
    assert(!spec_is_space('\''));
    assert(lex_char(s, '\'') == stay(s, mode));
    assert(lex_char(s0, '1') == grow(s0, mode, '1'));
    assert(lex_char(s1, '.') == grow(s1, mode, '.'));
    assert(lex_char(s2, '0') == grow(s2, mode, '0'));
    assert(s0.buf.push('1') =~= seq!['1']);
    assert(s1.buf.push('.') =~= seq!['1', '.']);
    assert(s2.buf.push('0') =~= seq!['1', '.', '0']);
    lemma_quiet_one(s2, '0');
    lemma_quiet_first(s1, '.', seq!['0']);
    lemma_quiet_first(s0, '1', seq!['.', '0']);
    lemma_quiet_first(s, '\'', seq!['1', '.', '0']);
    assert(seq!['.'] + seq!['0'] =~= seq!['.', '0']);
    assert(seq!['1'] + seq!['.', '0'] =~= seq!['1', '.', '0']);
    assert(seq!['\''] + seq!['1', '.', '0'] =~= seq!['\'', '1', '.', '0']);
}

/// The greatest number of characters that the lexer holds of one token:
/// the limit, and one character where the limit is none.
pub open spec fn room(s: LexState) -> nat {
    if s.max == 0 {
        1
    } else {
        s.max
    }
}

/// Characters that may stand in a document, all of them.
pub open spec fn is_chars(t: Seq<char>) -> bool {
    forall|i: int| 0 <= i < t.len() ==> spec_is_xml_char(#[trigger] t[i])
}

/// What the lexer holds is in order: in a name the buffer holds a name, in
/// text and in a value it holds characters of XML, and between tokens it
/// holds nothing. The buffer is within the limit, and the name of an entity
/// has four characters at most.
pub open spec fn sound(s: LexState) -> bool {
    &&& s.buf.len() <= room(s)
    &&& s.aux.len() <= 4
    &&& match s.mode {
        Mode::ElementName(_) | Mode::AttrName(_) => is_name(s.buf),
        Mode::Content | Mode::AttrValue(_, _) | Mode::Ref(_) | Mode::RefName(_) | Mode::RefHash(
            _,
        ) | Mode::RefDec(_) | Mode::RefHexStart(_) | Mode::RefHex(_) => is_chars(s.buf),
        _ => s.buf.len() == 0,
    }
}

/// A token that the lexer may hand out: its name is a name, its value or
/// text is made of characters of XML, text is not empty, and nothing is
/// longer than the lexer has room for.
pub open spec fn token_ok(t: TokenView, room: nat) -> bool {
    match t {
        TokenView::ElementHeadStart(n) | TokenView::ElementFootStart(n) | TokenView::Name(n) => {
            is_name(n) && n.len() <= room
        },
        TokenView::AttributeValue(v) => is_chars(v) && v.len() <= room,
        TokenView::Text(t) => is_chars(t) && 0 < t.len() <= room,
        _ => true,
    }
}

/// A step that keeps the lexer in order and completes no token but one
/// that the lexer may hand out.
pub open spec fn sound_step(s: LexState, st: LexStep) -> bool {
    st.state.error is None ==> sound(st.state) && room(st.state) == room(s) && (st.token
        matches Some(t) ==> token_ok(t, room(s)))
}

/// A buffer with one more character of XML.
pub proof fn lemma_chars_push(t: Seq<char>, c: char)
    requires
        is_chars(t),
        spec_is_xml_char(c),
    ensures
        is_chars(t.push(c)),
        is_chars(seq![c]),
        is_chars(Seq::<char>::empty()),
{
    assert forall|i: int| 0 <= i < t.push(c).len() implies spec_is_xml_char(
        #[trigger] t.push(c)[i],
    ) by {
        if i < t.len() {
            assert(t.push(c)[i] == t[i]);
        }
    }
}

/// A name with one more character of a name.
pub proof fn lemma_name_push(t: Seq<char>, c: char)
    requires
        spec_is_name_char(c),
        is_name(t) || (t.len() == 0 && spec_is_name_start(c)),
    ensures
        is_name(t.push(c)),
{
    assert forall|i: int| 0 <= i < t.push(c).len() implies spec_is_name_char(
        #[trigger] t.push(c)[i],
    ) by {
        if i < t.len() {
            assert(t.push(c)[i] == t[i]);
        }
    }
    if t.len() > 0 {
        assert(t.push(c)[0] == t[0]);
    }
}

/// A character of a name is a character of XML, and so is a space.
pub proof fn lemma_name_chars(c: char)
    ensures
        spec_is_name_start(c) ==> spec_is_name_char(c),
        spec_is_xml_char(' '),
        spec_is_xml_char('&') && spec_is_xml_char('<') && spec_is_xml_char('>') && spec_is_xml_char(
            '\'',
        ) && spec_is_xml_char('"'),
{
}

proof fn lemma_sound_content(s: LexState, c: char)
    requires
        sound(s),
        s.mode is Start || s.mode is Content,
    ensures
        sound_step(s, lex_content(s, c)),
{
    if spec_is_xml_char(c) {
        lemma_chars_push(s.buf, c);
    }
}

proof fn lemma_sound_markup(s: LexState, c: char)
    requires
        sound(s),
        s.mode is StartOpen || s.mode is Open || s.mode is CloseOpen || s.mode is DeclTarget,
    ensures
        sound_step(s, lex_markup(s, c)),
{
    lemma_name_chars(c);
    if spec_is_name_start(c) {
        lemma_name_push(s.buf, c);
    }
}

proof fn lemma_sound_tag(s: LexState, c: char)
    requires
        sound(s),
        s.mode is ElementName || s.mode is Blank || s.mode is AttrName || s.mode is AttrEq
            || s.mode is AttrQuote || s.mode is AttrDone || s.mode is Slash || s.mode is Question,
    ensures
        sound_step(s, lex_tag(s, c)),
{
    lemma_name_chars(c);
    lemma_chars_push(Seq::empty(), ' ');
    if spec_is_name_char(c) && (s.mode is ElementName || s.mode is AttrName) {
        lemma_name_push(s.buf, c);
    }
    if spec_is_name_start(c) && s.mode is Blank {
        lemma_name_push(s.buf, c);
    }
}

proof fn lemma_sound_value(s: LexState, tag: Tag, double: bool, c: char)
    requires
        sound(s),
        s.mode == Mode::AttrValue(tag, double),
    ensures
        sound_step(s, lex_value(s, tag, double, c)),
{
    lemma_name_chars(c);
    lemma_chars_push(s.buf, ' ');
    if spec_is_xml_char(c) {
        lemma_chars_push(s.buf, c);
    }
}

proof fn lemma_sound_resolved(s: LexState, w: Within, c: char)
    requires
        sound(s),
        is_chars(s.buf),
        spec_is_xml_char(c),
    ensures
        sound_step(s, resolved(s, w, c)),
{
    lemma_chars_push(s.buf, c);
}

proof fn lemma_sound_reference(s: LexState, c: char)
    requires
        sound(s),
        s.mode is Ref || s.mode is RefName || s.mode is RefHash || s.mode is RefDec || s.mode
            is RefHexStart || s.mode is RefHex,
    ensures
        sound_step(s, lex_reference(s, c)),
{
    lemma_name_chars(c);
    match s.mode {
        Mode::RefName(w) => {
            if c == ';' && entity(s.aux) is Some {
                lemma_sound_resolved(s, w, entity(s.aux)->0);
            }
        },
        Mode::RefDec(w) | Mode::RefHex(w) => {
            if c == ';' && spec_is_xml_char(s.num as char) {
                lemma_sound_resolved(s, w, s.num as char);
            }
        },
        _ => {},
    }
}

/// The lexer is in order at the start and stays so with every character,
/// and every token that it hands out is one that it may hand out. So the
/// lexer never holds more of a token than the limit allows, however long
/// the input.
pub proof fn lemma_sound_char(s: LexState, c: char)
    requires
        sound(s),
    ensures
        sound(crate::lexer::lex_start(s.max)),
        sound_step(s, lex_char(s, c)),
{
    lemma_dispatch(s, c);
    reveal(lex_char);
    match s.mode {
        Mode::Start | Mode::Content => lemma_sound_content(s, c),
        Mode::StartOpen | Mode::Open | Mode::CloseOpen | Mode::DeclTarget(_) => lemma_sound_markup(
            s,
            c,
        ),
        Mode::AttrValue(tag, double) => lemma_sound_value(s, tag, double, c),
        Mode::Ref(_) | Mode::RefName(_) | Mode::RefHash(_) | Mode::RefDec(_) | Mode::RefHexStart(_)
        | Mode::RefHex(_) => lemma_sound_reference(s, c),
        Mode::End => {},
        _ => lemma_sound_tag(s, c),
    }
}

/// What holds of every read: the lexer stays in order, and the token
/// that the read hands out is one that it may hand out.
pub proof fn lemma_sound_next(s: LexState, bytes: Seq<u8>, eof: bool)
    requires
        sound(s),
    ensures
        sound(lex_next(s, bytes, eof).state) || lex_next(s, bytes, eof).state.error is Some,
        room(lex_next(s, bytes, eof).state) == room(s),
        lex_next(s, bytes, eof).reply matches crate::lexer::Reply::Item(t) ==> token_ok(
            t,
            room(s),
        ),
    decreases bytes.len(),
{
    reveal(lex_end);
    reveal(lex_byte);
    if s.error is None && !s.owed {
        if bytes.len() > 0 {
            let (dec, out) = utf8_step(s.dec, bytes[0]);
            let s1 = LexState { dec, ..s };
            match out {
                Decoded::Scalar(c) => {
                    lemma_sound_char(s1, c);
                    lemma_lex_char_frame(s1, c);
                },
                _ => {},
            }
            let st = lex_byte(s, bytes[0]);
            if !(st.state.error is Some || st.token is Some) {
                lemma_sound_next(st.state, bytes.skip(1), eof);
            }
        }
    }
}

/// A read that hands out a token leaves the lexer in order.
pub proof fn lemma_sound_item(s: LexState, bytes: Seq<u8>, eof: bool)
    requires
        sound(s),
    ensures
        lex_next(s, bytes, eof).reply is Item ==> sound(lex_next(s, bytes, eof).state) && lex_next(
            s,
            bytes,
            eof,
        ).state.max == s.max,
    decreases bytes.len(),
{
    reveal(lex_end);
    reveal(lex_byte);
    lemma_sound_next(s, bytes, eof);
    if s.error is None && !s.owed {
        if bytes.len() > 0 {
            let (dec, out) = utf8_step(s.dec, bytes[0]);
            let s1 = LexState { dec, ..s };
            match out {
                Decoded::Scalar(c) => {
                    lemma_sound_char(s1, c);
                    lemma_lex_char_frame(s1, c);
                },
                _ => {},
            }
            let st = lex_byte(s, bytes[0]);
            if !(st.state.error is Some || st.token is Some) {
                lemma_sound_item(st.state, bytes.skip(1), eof);
            }
        }
    }
}

} // verus!
