//! An incremental decoder for UTF-8.
//!
//! The decoder takes one byte at a time and keeps what it has of a character
//! that is not complete yet, so a character may be split over any number of
//! chunks. It accepts exactly the well-formed byte sequences of the Unicode
//! standard: no overlong forms, no surrogates, nothing above U+10FFFF. That
//! is proved here in both directions: the decoder makes of the UTF-8
//! encoding of a text that text ([`lemma_decodes_encoded`]), and what it
//! makes a text of is the UTF-8 encoding of that text
//! ([`lemma_decodes_only_encoded`]).
use vstd::prelude::*;
use crate::chars::{char_from_u32, is_scalar_value};

verus! {

/// What is known of the character under way.
#[derive(Clone, Copy, Debug, PartialEq, Eq, Structural)]
pub struct Utf8Decoder {
    /// Continuation bytes still due; 0 between characters.
    pub need: u8,
    /// The bits read so far of the character under way.
    pub acc: u32,
    /// The least value that the next continuation byte may have.
    pub lo: u8,
    /// The greatest value that the next continuation byte may have.
    pub hi: u8,
}

/// What one byte made of the input.
#[derive(Clone, Copy, Debug, PartialEq, Eq, Structural)]
pub enum Decoded {
    /// The byte is part of a character that is not complete yet.
    Pending,
    /// The byte completed this character.
    Scalar(char),
    /// The byte cannot stand here.
    Invalid,
}

/// The decoder between two characters.
pub open spec fn utf8_start() -> Utf8Decoder {
    Utf8Decoder { need: 0, acc: 0, lo: 0x80, hi: 0xBF }
}

/// The decoder after a leading byte that asks for `need` more bytes, the next
/// of them between `lo` and `hi`.
pub open spec fn utf8_lead(need: u8, acc: u32, lo: u8, hi: u8) -> (Utf8Decoder, Decoded) {
    (Utf8Decoder { need, acc, lo, hi }, Decoded::Pending)
}

/// The step of the decoder on a byte that stands first in a character.
pub open spec fn utf8_first(b: u8) -> (Utf8Decoder, Decoded) {
    if b < 0x80 {
        (utf8_start(), Decoded::Scalar(b as char))
    } else if 0xC2 <= b && b <= 0xDF {
        utf8_lead(1, (b - 0xC0) as u32, 0x80, 0xBF)
    } else if b == 0xE0 {
        utf8_lead(2, 0, 0xA0, 0xBF)
    } else if b == 0xED {
        utf8_lead(2, 0xD, 0x80, 0x9F)
    } else if 0xE1 <= b && b <= 0xEF {
        utf8_lead(2, (b - 0xE0) as u32, 0x80, 0xBF)
    } else if b == 0xF0 {
        utf8_lead(3, 0, 0x90, 0xBF)
    } else if 0xF1 <= b && b <= 0xF3 {
        utf8_lead(3, (b - 0xF0) as u32, 0x80, 0xBF)
    } else if b == 0xF4 {
        utf8_lead(3, 4, 0x80, 0x8F)
    } else {
        (utf8_start(), Decoded::Invalid)
    }
}

/// The step of the decoder on a byte that continues a character.
pub open spec fn utf8_next(d: Utf8Decoder, b: u8) -> (Utf8Decoder, Decoded) {
    let acc = d.acc * 64 + (b - 0x80);
    if !(d.lo <= b && b <= d.hi) || b < 0x80 || acc > 0x10FFFF {
        (utf8_start(), Decoded::Invalid)
    } else if d.need > 1 {
        (Utf8Decoder { need: (d.need - 1) as u8, acc: acc as u32, lo: 0x80, hi: 0xBF }, Decoded::Pending)
    } else if is_scalar_value(acc as u32) {
        (utf8_start(), Decoded::Scalar(acc as u32 as char))
    } else {
        (utf8_start(), Decoded::Invalid)
    }
}

/// The decoder's step: its next state and what the byte made.
pub open spec fn utf8_step(d: Utf8Decoder, b: u8) -> (Utf8Decoder, Decoded) {
    if d.need == 0 {
        utf8_first(b)
    } else {
        utf8_next(d, b)
    }
}

impl Utf8Decoder {
    pub fn new() -> (d: Utf8Decoder)
        ensures
            d == utf8_start(),
    {
        Utf8Decoder { need: 0, acc: 0, lo: 0x80, hi: 0xBF }
    }

    /// Whether the decoder stands between two characters.
    pub fn is_idle(&self) -> (r: bool)
        ensures
            r == (self.need == 0),
    {
        self.need == 0
    }

    fn lead(&mut self, need: u8, acc: u32, lo: u8, hi: u8) -> (r: Decoded)
        ensures
            (*final(self), r) == utf8_lead(need, acc, lo, hi),
    {
        self.need = need;
        self.acc = acc;
        self.lo = lo;
        self.hi = hi;
        Decoded::Pending
    }

    fn reset(&mut self)
        ensures
            *final(self) == utf8_start(),
    {
        self.need = 0;
        self.acc = 0;
        self.lo = 0x80;
        self.hi = 0xBF;
    }

    /// Takes the next byte of the input.
    pub fn push(&mut self, b: u8) -> (r: Decoded)
        ensures
            (*final(self), r) == utf8_step(*old(self), b),
    {
        if self.need == 0 {
            if b < 0x80 {
                self.reset();
                Decoded::Scalar(b as char)
            } else if 0xC2 <= b && b <= 0xDF {
                self.lead(1, (b - 0xC0) as u32, 0x80, 0xBF)
            } else if b == 0xE0 {
                self.lead(2, 0, 0xA0, 0xBF)
            } else if b == 0xED {
                self.lead(2, 0xD, 0x80, 0x9F)
            } else if 0xE1 <= b && b <= 0xEF {
                self.lead(2, (b - 0xE0) as u32, 0x80, 0xBF)
            } else if b == 0xF0 {
                self.lead(3, 0, 0x90, 0xBF)
            } else if 0xF1 <= b && b <= 0xF3 {
                self.lead(3, (b - 0xF0) as u32, 0x80, 0xBF)
            } else if b == 0xF4 {
                self.lead(3, 4, 0x80, 0x8F)
            } else {
                self.reset();
                Decoded::Invalid
            }
        } else {
            if !(self.lo <= b && b <= self.hi) || b < 0x80 {
                self.reset();
                return Decoded::Invalid;
            }
            let wide: u64 = (self.acc as u64) * 64 + ((b - 0x80) as u64);
            if wide > 0x10FFFF {
                self.reset();
                return Decoded::Invalid;
            }
            let acc: u32 = wide as u32;
            if self.need > 1 {
                self.need = self.need - 1;
                self.acc = acc;
                self.lo = 0x80;
                self.hi = 0xBF;
                Decoded::Pending
            } else {
                self.reset();
                match char_from_u32(acc) {
                    Some(c) => Decoded::Scalar(c),
                    None => Decoded::Invalid,
                }
            }
        }
    }
}

/// The characters that the decoder in state `d` makes of `bytes`, with the
/// state after them; `None` where one of the bytes cannot stand where it
/// does.
pub open spec fn utf8_chars(d: Utf8Decoder, bytes: Seq<u8>) -> Option<(Utf8Decoder, Seq<char>)>
    decreases bytes.len(),
{
    if bytes.len() == 0 {
        Some((d, Seq::empty()))
    } else {
        let (next, out) = utf8_step(d, bytes[0]);
        match out {
            Decoded::Invalid => None,
            Decoded::Pending => utf8_chars(next, bytes.skip(1)),
            Decoded::Scalar(c) => match utf8_chars(next, bytes.skip(1)) {
                Some((last, rest)) => Some((last, seq![c] + rest)),
                None => None,
            },
        }
    }
}

/// The decoder makes of two runs of bytes what it makes of the first and
/// then, from where that left it, of the second.
pub proof fn lemma_utf8_chars_append(d: Utf8Decoder, a: Seq<u8>, b: Seq<u8>)
    ensures
        utf8_chars(d, a + b) == (match utf8_chars(d, a) {
            Some((mid, first)) => match utf8_chars(mid, b) {
                Some((last, rest)) => Some((last, first + rest)),
                None => None,
            },
            None => None,
        }),
    decreases a.len(),
{
    if a.len() == 0 {
        assert(a + b =~= b);
        match utf8_chars(d, b) {
            Some((last, rest)) => {
                assert(Seq::<char>::empty() + rest =~= rest);
            },
            None => {},
        }
    } else {
        assert((a + b)[0] == a[0]);
        assert((a + b).skip(1) =~= a.skip(1) + b);
        let (next, out) = utf8_step(d, a[0]);
        lemma_utf8_chars_append(next, a.skip(1), b);
        match out {
            Decoded::Scalar(c) => {
                match utf8_chars(next, a.skip(1)) {
                    Some((mid, first)) => {
                        match utf8_chars(mid, b) {
                            Some((last, rest)) => {
                                assert(seq![c] + (first + rest) =~= (seq![c] + first) + rest);
                            },
                            None => {},
                        }
                    },
                    None => {},
                }
            },
            _ => {},
        }
    }
}

proof fn lemma_marker_bits(h: u8)
    ensures
        h < 0x40 ==> (0x80u8 | h) == 0x80 + h,
        h < 0x20 ==> (0xC0u8 | h) == 0xC0 + h,
        h < 0x10 ==> (0xE0u8 | h) == 0xE0 + h,
        h < 0x08 ==> (0xF0u8 | h) == 0xF0 + h,
{
    assert(h < 0x40 ==> (0x80u8 | h) == 0x80 + h) by (bit_vector);
    assert(h < 0x20 ==> (0xC0u8 | h) == 0xC0 + h) by (bit_vector);
    assert(h < 0x10 ==> (0xE0u8 | h) == 0xE0 + h) by (bit_vector);
    assert(h < 0x08 ==> (0xF0u8 | h) == 0xF0 + h) by (bit_vector);
}

/// The two steps of the decoder on the two bytes that encode `c`.
pub proof fn lemma_decodes_width_2(c: char)
    requires
        0x80 <= c as u32 <= 0x7FF,
    ensures
        ({
            let v = c as u32;
            let first = utf8_step(utf8_start(), vstd::utf8::leading_byte_width_2(v));
            &&& first.1 == Decoded::Pending
            &&& utf8_step(first.0, vstd::utf8::last_continuation_byte(v)) == (
                utf8_start(),
                Decoded::Scalar(c),
            )
        }),
{
    let v = c as u32;
    let hi = (v >> 6) & 0x1F;
    let lo = v & 0x3F;
    assert(0x80 <= v <= 0x7FF ==> 2 <= ((v >> 6) & 0x1F) <= 0x1F && (v & 0x3F) <= 0x3F && ((v
        >> 6) & 0x1F) * 64 + (v & 0x3F) == v) by (bit_vector);
    lemma_marker_bits(hi as u8);
    lemma_marker_bits(lo as u8);
    let b0 = vstd::utf8::leading_byte_width_2(v);
    let b1 = vstd::utf8::last_continuation_byte(v);
    assert(b0 == 0xC0 + hi);
    assert(b1 == 0x80 + lo);
    let first = utf8_step(utf8_start(), b0);
    assert(first.0.acc == hi);
    assert(first.0.acc * 64 + (b1 - 0x80) == v);
}

/// The three steps of the decoder on the three bytes that encode `c`.
pub proof fn lemma_decodes_width_3(c: char)
    requires
        0x800 <= c as u32 <= 0xFFFF,
    ensures
        ({
            let v = c as u32;
            let first = utf8_step(utf8_start(), vstd::utf8::leading_byte_width_3(v));
            let second = utf8_step(first.0, vstd::utf8::second_last_continuation_byte(v));
            &&& first.1 == Decoded::Pending
            &&& second.1 == Decoded::Pending
            &&& utf8_step(second.0, vstd::utf8::last_continuation_byte(v)) == (
                utf8_start(),
                Decoded::Scalar(c),
            )
        }),
{
    let v = c as u32;
    let hi = (v >> 12) & 0x0F;
    let mid = (v >> 6) & 0x3F;
    let lo = v & 0x3F;
    assert(0x800 <= v <= 0xFFFF ==> ((v >> 12) & 0x0F) <= 0x0F && ((v >> 6) & 0x3F) <= 0x3F && (v
        & 0x3F) <= 0x3F && ((v >> 12) & 0x0F) * 4096 + ((v >> 6) & 0x3F) * 64 + (v & 0x3F) == v)
        by (bit_vector);
    assert(0x800 <= v <= 0xFFFF && ((v >> 12) & 0x0F) == 0 ==> ((v >> 6) & 0x3F) >= 0x20)
        by (bit_vector);
    assert(v < 0xD800 && ((v >> 12) & 0x0F) == 0xD ==> ((v >> 6) & 0x3F) < 0x20) by (bit_vector);
    assert(v >= 0xE000 ==> ((v >> 12) & 0x0F) != 0xD || v > 0xFFFF) by (bit_vector);
    lemma_marker_bits(hi as u8);
    lemma_marker_bits(mid as u8);
    lemma_marker_bits(lo as u8);
    let b0 = vstd::utf8::leading_byte_width_3(v);
    let b1 = vstd::utf8::second_last_continuation_byte(v);
    let b2 = vstd::utf8::last_continuation_byte(v);
    assert(b0 == 0xE0 + hi);
    assert(b1 == 0x80 + mid);
    assert(b2 == 0x80 + lo);
    let first = utf8_step(utf8_start(), b0);
    assert(first.1 == Decoded::Pending);
    assert(first.0.acc == hi);
    let second = utf8_step(first.0, b1);
    assert(first.0.acc * 64 + (b1 - 0x80) == hi * 64 + mid);
    assert(second.1 == Decoded::Pending);
    assert(second.0.acc == hi * 64 + mid);
    assert(second.0.acc * 64 + (b2 - 0x80) == v);
}

/// The four steps of the decoder on the four bytes that encode `c`.
pub proof fn lemma_decodes_width_4(c: char)
    requires
        0x10000 <= c as u32,
    ensures
        ({
            let v = c as u32;
            let first = utf8_step(utf8_start(), vstd::utf8::leading_byte_width_4(v));
            let second = utf8_step(first.0, vstd::utf8::third_last_continuation_byte(v));
            let third = utf8_step(second.0, vstd::utf8::second_last_continuation_byte(v));
            &&& first.1 == Decoded::Pending
            &&& second.1 == Decoded::Pending
            &&& third.1 == Decoded::Pending
            &&& utf8_step(third.0, vstd::utf8::last_continuation_byte(v)) == (
                utf8_start(),
                Decoded::Scalar(c),
            )
        }),
{
    let v = c as u32;
    let top = (v >> 18) & 0x07;
    let hi = (v >> 12) & 0x3F;
    let mid = (v >> 6) & 0x3F;
    let lo = v & 0x3F;
    assert(0x10000 <= v <= 0x10FFFF ==> ((v >> 18) & 0x07) <= 4 && ((v >> 12) & 0x3F) <= 0x3F && (
    (v >> 6) & 0x3F) <= 0x3F && (v & 0x3F) <= 0x3F && ((v >> 18) & 0x07) * 262144 + ((v >> 12)
        & 0x3F) * 4096 + ((v >> 6) & 0x3F) * 64 + (v & 0x3F) == v) by (bit_vector);
    assert(0x10000 <= v <= 0x10FFFF && ((v >> 18) & 0x07) == 0 ==> ((v >> 12) & 0x3F) >= 0x10)
        by (bit_vector);
    assert(0x10000 <= v <= 0x10FFFF && ((v >> 18) & 0x07) == 4 ==> ((v >> 12) & 0x3F) <= 0x0F)
        by (bit_vector);
    lemma_marker_bits(top as u8);
    lemma_marker_bits(hi as u8);
    lemma_marker_bits(mid as u8);
    lemma_marker_bits(lo as u8);
    let b0 = vstd::utf8::leading_byte_width_4(v);
    let b1 = vstd::utf8::third_last_continuation_byte(v);
    let b2 = vstd::utf8::second_last_continuation_byte(v);
    let b3 = vstd::utf8::last_continuation_byte(v);
    assert(b0 == 0xF0 + top);
    assert(b1 == 0x80 + hi);
    assert(b2 == 0x80 + mid);
    assert(b3 == 0x80 + lo);
    let first = utf8_step(utf8_start(), b0);
    assert(first.1 == Decoded::Pending);
    assert(first.0.acc == top);
    let second = utf8_step(first.0, b1);
    assert(first.0.acc * 64 + (b1 - 0x80) == top * 64 + hi);
    assert(second.1 == Decoded::Pending);
    assert(second.0.acc == top * 64 + hi);
    let third = utf8_step(second.0, b2);
    assert(second.0.acc * 64 + (b2 - 0x80) == (top * 64 + hi) * 64 + mid);
    assert(third.1 == Decoded::Pending);
    assert(third.0.acc == (top * 64 + hi) * 64 + mid);
    assert(third.0.acc * 64 + (b3 - 0x80) == v);
}

/// The decoder makes of the UTF-8 encoding of a character that character,
/// and stands between characters after it.
pub proof fn lemma_decodes_encoded_char(c: char)
    ensures
        utf8_chars(utf8_start(), vstd::utf8::encode_scalar(c as u32)) == Some(
            (utf8_start(), seq![c]),
        ),
{
    let v = c as u32;
    let bytes = vstd::utf8::encode_scalar(v);
    let start = utf8_start();
    let none = Seq::<u8>::empty();
    assert(utf8_chars(start, none) == Some((start, Seq::<char>::empty())));
    assert(seq![c] + Seq::<char>::empty() =~= seq![c]);
    if v <= 0x7F {
        assert((v & 0x7F) == v) by (bit_vector)
            requires
                v <= 0x7F,
        ;
        assert(bytes[0] as char == c);
        assert(bytes.skip(1) =~= none);
    } else if v <= 0x7FF {
        lemma_decodes_width_2(c);
        let s1 = bytes.skip(1);
        assert(s1[0] == bytes[1]);
        assert(s1.skip(1) =~= none);
        let first = utf8_step(start, bytes[0]);
        assert(utf8_chars(first.0, s1) == Some((start, seq![c])));
    } else if v <= 0xFFFF {
        lemma_decodes_width_3(c);
        let s1 = bytes.skip(1);
        let s2 = s1.skip(1);
        assert(s1[0] == bytes[1]);
        assert(s2[0] == bytes[2]);
        assert(s2.skip(1) =~= none);
        let first = utf8_step(start, bytes[0]);
        let second = utf8_step(first.0, bytes[1]);
        assert(utf8_chars(second.0, s2) == Some((start, seq![c])));
        assert(utf8_chars(first.0, s1) == Some((start, seq![c])));
    } else {
        lemma_decodes_width_4(c);
        let s1 = bytes.skip(1);
        let s2 = s1.skip(1);
        let s3 = s2.skip(1);
        assert(s1[0] == bytes[1]);
        assert(s2[0] == bytes[2]);
        assert(s3[0] == bytes[3]);
        assert(s3.skip(1) =~= none);
        let first = utf8_step(start, bytes[0]);
        let second = utf8_step(first.0, bytes[1]);
        let third = utf8_step(second.0, bytes[2]);
        assert(utf8_chars(third.0, s3) == Some((start, seq![c])));
        assert(utf8_chars(second.0, s2) == Some((start, seq![c])));
        assert(utf8_chars(first.0, s1) == Some((start, seq![c])));
    }
}

/// The decoder makes of the UTF-8 encoding of a text that text.
pub proof fn lemma_decodes_encoded(chars: Seq<char>)
    ensures
        utf8_chars(utf8_start(), vstd::utf8::encode_utf8(chars)) == Some((utf8_start(), chars)),
    decreases chars.len(),
{
    if chars.len() == 0 {
        assert(vstd::utf8::encode_utf8(chars) =~= Seq::<u8>::empty());
        assert(chars =~= Seq::<char>::empty());
    } else {
        let head = vstd::utf8::encode_scalar(chars[0] as u32);
        let tail = vstd::utf8::encode_utf8(chars.drop_first());
        lemma_decodes_encoded_char(chars[0]);
        lemma_decodes_encoded(chars.drop_first());
        lemma_utf8_chars_append(utf8_start(), head, tail);
        assert(seq![chars[0]] + chars.drop_first() =~= chars);
    }
}

proof fn lemma_split_bits(v: u32, t: u32, h: u32, m: u32, l: u32)
    requires
        t <= 0x07,
        h <= 0x3F,
        m <= 0x3F,
        l <= 0x3F,
        v == ((t * 64 + h) * 64 + m) * 64 + l,
    ensures
        (v >> 18) & 0x07 == t,
        (v >> 12) & 0x3F == h,
        t == 0 && h <= 0x0F ==> (v >> 12) & 0x0F == h,
        (v >> 6) & 0x3F == m,
        t == 0 && h == 0 && m <= 0x1F ==> (v >> 6) & 0x1F == m,
        v & 0x3F == l,
{
    assert(v <= 0x1FFFFF ==> ((v >> 18) & 0x07) * 262144 + ((v >> 12) & 0x3F) * 4096 + ((v >> 6)
        & 0x3F) * 64 + (v & 0x3F) == v && ((v >> 18) & 0x07) <= 0x07 && ((v >> 12) & 0x3F) <= 0x3F
        && ((v >> 6) & 0x3F) <= 0x3F && (v & 0x3F) <= 0x3F) by (bit_vector);
    assert(v <= 0xFFFF ==> (v >> 12) & 0x0F == (v >> 12) & 0x3F) by (bit_vector);
    assert(v <= 0x7FF ==> (v >> 6) & 0x1F == (v >> 6) & 0x3F) by (bit_vector);
}

/// The bytes that the decoder makes a character of are the UTF-8
/// encoding of that character: the first byte alone, or with the one, two
/// or three bytes after it.
pub proof fn lemma_decoded_is_encoded(b0: u8, b1: u8, b2: u8, b3: u8, c: char)
    ensures
        utf8_step(utf8_start(), b0).1 == Decoded::Scalar(c) ==> vstd::utf8::encode_scalar(c as u32)
            == seq![b0],
        ({
            let first = utf8_step(utf8_start(), b0);
            first.0.need == 1 && utf8_step(first.0, b1).1 == Decoded::Scalar(c)
        }) ==> vstd::utf8::encode_scalar(c as u32) == seq![b0, b1],
        ({
            let first = utf8_step(utf8_start(), b0);
            let second = utf8_step(first.0, b1);
            first.0.need == 2 && second.1 == Decoded::Pending && utf8_step(second.0, b2).1
                == Decoded::Scalar(c)
        }) ==> vstd::utf8::encode_scalar(c as u32) == seq![b0, b1, b2],
        ({
            let first = utf8_step(utf8_start(), b0);
            let second = utf8_step(first.0, b1);
            let third = utf8_step(second.0, b2);
            first.0.need == 3 && second.1 == Decoded::Pending && third.1 == Decoded::Pending
                && utf8_step(third.0, b3).1 == Decoded::Scalar(c)
        }) ==> vstd::utf8::encode_scalar(c as u32) == seq![b0, b1, b2, b3],
{
    let v = c as u32;
    let first = utf8_step(utf8_start(), b0);
    let second = utf8_step(first.0, b1);
    let third = utf8_step(second.0, b2);
    if first.1 == Decoded::Scalar(c) {
        assert(b0 < 0x80);
        assert(v == b0);
        assert((v & 0x7F) == v) by (bit_vector)
            requires
                v < 0x80,
        ;
        assert(vstd::utf8::encode_scalar(v) =~= seq![b0]);
    }
    if first.0.need == 1 && second.1 == Decoded::Scalar(c) {
        let h = (b0 - 0xC0) as u32;
        let l = (b1 - 0x80) as u32;
        assert(v == h * 64 + l);
        lemma_split_bits(v, 0, 0, h, l);
        lemma_marker_bits(h as u8);
        lemma_marker_bits(l as u8);
        assert(vstd::utf8::encode_scalar(v) =~= seq![b0, b1]);
    }
    if first.0.need == 2 && second.1 == Decoded::Pending && utf8_step(second.0, b2).1
        == Decoded::Scalar(c) {
        let h = (b0 - 0xE0) as u32;
        let m = (b1 - 0x80) as u32;
        let l = (b2 - 0x80) as u32;
        assert(first.0.acc == h);
        assert(second.0.acc == h * 64 + m);
        assert(v == (h * 64 + m) * 64 + l);
        lemma_split_bits(v, 0, h, m, l);
        lemma_marker_bits(h as u8);
        lemma_marker_bits(m as u8);
        lemma_marker_bits(l as u8);
        assert(v >= 0x800);
        assert(vstd::utf8::encode_scalar(v) =~= seq![b0, b1, b2]);
    }
    if first.0.need == 3 && second.1 == Decoded::Pending && third.1 == Decoded::Pending
        && utf8_step(third.0, b3).1 == Decoded::Scalar(c) {
        let t = (b0 - 0xF0) as u32;
        let h = (b1 - 0x80) as u32;
        let m = (b2 - 0x80) as u32;
        let l = (b3 - 0x80) as u32;
        assert(first.0.acc == t);
        assert(second.0.acc == t * 64 + h);
        assert(third.0.acc == (t * 64 + h) * 64 + m);
        assert(v == ((t * 64 + h) * 64 + m) * 64 + l);
        lemma_split_bits(v, t, h, m, l);
        lemma_marker_bits(t as u8);
        lemma_marker_bits(h as u8);
        lemma_marker_bits(m as u8);
        lemma_marker_bits(l as u8);
        assert(v >= 0x10000);
        assert(vstd::utf8::encode_scalar(v) =~= seq![b0, b1, b2, b3]);
    }
}

/// What the decoder takes for characters is their UTF-8 encoding and
/// nothing else: bytes that it makes characters of, and after which it
/// stands between characters, are the UTF-8 encoding of these characters.
pub proof fn lemma_decodes_only_encoded(bytes: Seq<u8>, chars: Seq<char>)
    requires
        utf8_chars(utf8_start(), bytes) == Some((utf8_start(), chars)),
    ensures
        bytes == vstd::utf8::encode_utf8(chars),
    decreases bytes.len(),
{
    let start = utf8_start();
    if bytes.len() == 0 {
        assert(chars =~= Seq::<char>::empty());
        assert(vstd::utf8::encode_utf8(chars) =~= bytes);
    } else {
        let b0 = bytes[0];
        let s1 = bytes.skip(1);
        let first = utf8_step(start, b0);
        let width = first.0.need + 1;
        // the bytes of the first character are all there
        if width >= 2 {
            assert(s1.len() > 0) by {
                if s1.len() == 0 {
                    assert(utf8_chars(first.0, s1) == Some((first.0, Seq::<char>::empty())));
                }
            }
        }
        let b1 = if width >= 2 {
            s1[0]
        } else {
            0
        };
        let s2 = s1.skip(1);
        let second = utf8_step(first.0, b1);
        if width >= 3 {
            assert(second.1 == Decoded::Pending && second.0.need == width - 2);
            assert(s2.len() > 0) by {
                if s2.len() == 0 {
                    assert(utf8_chars(second.0, s2) == Some((second.0, Seq::<char>::empty())));
                }
            }
        }
        let b2 = if width >= 3 {
            s2[0]
        } else {
            0
        };
        let s3 = s2.skip(1);
        let third = utf8_step(second.0, b2);
        if width >= 4 {
            assert(third.1 == Decoded::Pending && third.0.need == 1);
            assert(s3.len() > 0) by {
                if s3.len() == 0 {
                    assert(utf8_chars(third.0, s3) == Some((third.0, Seq::<char>::empty())));
                }
            }
        }
        let b3 = if width >= 4 {
            s3[0]
        } else {
            0
        };
        let s4 = s3.skip(1);
        let last = if width == 1 {
            first
        } else if width == 2 {
            second
        } else if width == 3 {
            third
        } else {
            utf8_step(third.0, b3)
        };
        let rest = if width == 1 {
            s1
        } else if width == 2 {
            s2
        } else if width == 3 {
            s3
        } else {
            s4
        };
        assert(last.1 is Scalar && last.0 == start);
        let c = last.1->Scalar_0;
        let after = utf8_chars(start, rest)->Some_0;
        let tail = after.1;
        assert(utf8_chars(start, rest) == Some((start, tail)));
        assert(chars =~= seq![c] + tail);
        lemma_decoded_is_encoded(b0, b1, b2, b3, c);
        lemma_decodes_only_encoded(rest, tail);
        assert(chars[0] == c);
        assert(chars.drop_first() =~= tail);
        assert(bytes =~= vstd::utf8::encode_scalar(c as u32) + rest);
    }
}

} // verus!
