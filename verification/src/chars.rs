//! The character classes of XML 1.0 that the lexer tells apart.
use vstd::prelude::*;

verus! {

/// White space: space, tab, line feed, carriage return.
pub open spec fn spec_is_space(c: char) -> bool {
    c == ' ' || c == '\t' || c == '\n' || c == '\r'
}

/// The production `Char`: what may occur in a document at all.
pub open spec fn spec_is_xml_char(c: char) -> bool {
    let v = c as u32;
    v == 0x9 || v == 0xA || v == 0xD || (0x20 <= v && v <= 0xD7FF) || (0xE000 <= v && v <= 0xFFFD)
        || (0x10000 <= v && v <= 0x10FFFF)
}

/// The production `NameStartChar`.
pub open spec fn spec_is_name_start(c: char) -> bool {
    let v = c as u32;
    v == 0x3A || (0x41 <= v && v <= 0x5A) || v == 0x5F || (0x61 <= v && v <= 0x7A) || (0xC0 <= v
        && v <= 0xD6) || (0xD8 <= v && v <= 0xF6) || (0xF8 <= v && v <= 0x2FF) || (0x370 <= v && v
        <= 0x37D) || (0x37F <= v && v <= 0x1FFF) || (0x200C <= v && v <= 0x200D) || (0x2070 <= v
        && v <= 0x218F) || (0x2C00 <= v && v <= 0x2FEF) || (0x3001 <= v && v <= 0xD7FF) || (0xF900
        <= v && v <= 0xFDCF) || (0xFDF0 <= v && v <= 0xFFFD) || (0x10000 <= v && v <= 0xEFFFF)
}

/// The production `NameChar`.
pub open spec fn spec_is_name_char(c: char) -> bool {
    let v = c as u32;
    spec_is_name_start(c) || v == 0x2D || v == 0x2E || (0x30 <= v && v <= 0x39) || v == 0xB7 || (
    0x300 <= v && v <= 0x36F) || (0x203F <= v && v <= 0x2040)
}

/// The value of `c` as a digit in base 16, if it is one.
pub open spec fn spec_hex_value(c: char) -> Option<u32> {
    let v = c as u32;
    if 0x30 <= v && v <= 0x39 {
        Some((v - 0x30) as u32)
    } else if 0x41 <= v && v <= 0x46 {
        Some((v - 0x41 + 10) as u32)
    } else if 0x61 <= v && v <= 0x66 {
        Some((v - 0x61 + 10) as u32)
    } else {
        None
    }
}

/// The value of `c` as a digit in base 10, if it is one.
pub open spec fn spec_dec_value(c: char) -> Option<u32> {
    let v = c as u32;
    if 0x30 <= v && v <= 0x39 {
        Some((v - 0x30) as u32)
    } else {
        None
    }
}

/// Whether `v` is a Unicode scalar value, that is, a `char`.
pub open spec fn is_scalar_value(v: u32) -> bool {
    v <= 0xD7FF || (0xE000 <= v && v <= 0x10FFFF)
}

#[verifier::when_used_as_spec(spec_is_space)]
pub fn is_space(c: char) -> (r: bool)
    ensures
        r == spec_is_space(c),
{
    c == ' ' || c == '\t' || c == '\n' || c == '\r'
}

#[verifier::when_used_as_spec(spec_is_xml_char)]
pub fn is_xml_char(c: char) -> (r: bool)
    ensures
        r == spec_is_xml_char(c),
{
    let v: u32 = c as u32;
    v == 0x9 || v == 0xA || v == 0xD || (0x20 <= v && v <= 0xD7FF) || (0xE000 <= v && v <= 0xFFFD)
        || (0x10000 <= v && v <= 0x10FFFF)
}

#[verifier::when_used_as_spec(spec_is_name_start)]
pub fn is_name_start(c: char) -> (r: bool)
    ensures
        r == spec_is_name_start(c),
{
    let v: u32 = c as u32;
    v == 0x3A || (0x41 <= v && v <= 0x5A) || v == 0x5F || (0x61 <= v && v <= 0x7A) || (0xC0 <= v
        && v <= 0xD6) || (0xD8 <= v && v <= 0xF6) || (0xF8 <= v && v <= 0x2FF) || (0x370 <= v && v
        <= 0x37D) || (0x37F <= v && v <= 0x1FFF) || (0x200C <= v && v <= 0x200D) || (0x2070 <= v
        && v <= 0x218F) || (0x2C00 <= v && v <= 0x2FEF) || (0x3001 <= v && v <= 0xD7FF) || (0xF900
        <= v && v <= 0xFDCF) || (0xFDF0 <= v && v <= 0xFFFD) || (0x10000 <= v && v <= 0xEFFFF)
}

#[verifier::when_used_as_spec(spec_is_name_char)]
pub fn is_name_char(c: char) -> (r: bool)
    ensures
        r == spec_is_name_char(c),
{
    let v: u32 = c as u32;
    is_name_start(c) || v == 0x2D || v == 0x2E || (0x30 <= v && v <= 0x39) || v == 0xB7 || (0x300
        <= v && v <= 0x36F) || (0x203F <= v && v <= 0x2040)
}

#[verifier::when_used_as_spec(spec_hex_value)]
pub fn hex_value(c: char) -> (r: Option<u32>)
    ensures
        r == spec_hex_value(c),
{
    let v: u32 = c as u32;
    if 0x30 <= v && v <= 0x39 {
        Some(v - 0x30)
    } else if 0x41 <= v && v <= 0x46 {
        Some(v - 0x41 + 10)
    } else if 0x61 <= v && v <= 0x66 {
        Some(v - 0x61 + 10)
    } else {
        None
    }
}

#[verifier::when_used_as_spec(spec_dec_value)]
pub fn dec_value(c: char) -> (r: Option<u32>)
    ensures
        r == spec_dec_value(c),
{
    let v: u32 = c as u32;
    if 0x30 <= v && v <= 0x39 {
        Some(v - 0x30)
    } else {
        None
    }
}

/// `char::from_u32`. Trusted: it returns the `char` with the value `v` where
/// `v` is a Unicode scalar value, and `None` where it is not.
#[verifier::external_body]
pub(crate) fn char_from_u32(v: u32) -> (r: Option<char>)
    ensures
        r == (if is_scalar_value(v) {
            Some(v as char)
        } else {
            None
        }),
{
    char::from_u32(v)
}

/// `String::push`. Trusted: the string has the character at its end
/// afterwards, and everything that it had before.
#[verifier::external_body]
fn string_push(s: &mut String, c: char)
    ensures
        final(s)@ == old(s)@.push(c),
{
    s.push(c)
}

/// `String::pop`. Trusted: it takes the last character off the string and
/// returns it, and returns `None` for the empty string.
#[verifier::external_body]
fn string_pop(s: &mut String) -> (r: Option<char>)
    ensures
        match r {
            Some(c) => old(s)@.len() > 0 && c == old(s)@.last() && final(s)@ == old(
                s,
            )@.drop_last(),
            None => old(s)@.len() == 0 && final(s)@ == old(s)@,
        },
{
    s.pop()
}

/// The string of the characters of `v`.
pub(crate) fn string_from_chars(v: &Vec<char>) -> (s: String)
    ensures
        s@ == v@,
{
    let mut s = String::new();
    let mut i: usize = 0;
    assert(s@ =~= v@.take(0));
    while i < v.len()
        invariant
            i <= v.len(),
            s@ == v@.take(i as int),
        decreases v.len() - i,
    {
        string_push(&mut s, v[i]);
        i += 1;
        assert(s@ =~= v@.take(i as int));
    }
    assert(v@.take(v.len() as int) =~= v@);
    s
}

/// The characters of the string `s`.
pub(crate) fn chars_of(s: &String) -> (v: Vec<char>)
    ensures
        v@ == s@,
{
    let mut left = s.clone();
    let mut back: Vec<char> = Vec::new();
    assert(left@ =~= s@.take(s@.len() - back@.len()));
    loop
        invariant
            back@.len() <= s@.len(),
            left@ == s@.take(s@.len() - back@.len()),
            forall|j: int| 0 <= j < back@.len() ==> back@[j] == s@[s@.len() - 1 - j],
        ensures
            back@.len() == s@.len(),
        decreases left@.len(),
    {
        match string_pop(&mut left) {
            Some(c) => {
                back.push(c);
                assert(left@ =~= s@.take(s@.len() - back@.len()));
            },
            None => {
                break ;
            },
        }
    }
    let n = back.len();
    let mut v: Vec<char> = Vec::new();
    let mut i: usize = 0;
    while i < n
        invariant
            i <= n,
            n == back@.len(),
            n == s@.len(),
            v@.len() == i,
            forall|j: int| 0 <= j < back@.len() ==> back@[j] == s@[s@.len() - 1 - j],
            forall|j: int| 0 <= j < i ==> v@[j] == s@[j],
        decreases n - i,
    {
        v.push(back[n - 1 - i]);
        i += 1;
    }
    assert(v@ =~= s@);
    v
}

/// Whether two runs of characters are the same.
pub fn same_chars(a: &Vec<char>, b: &Vec<char>) -> (r: bool)
    ensures
        r == (a@ == b@),
{
    if a.len() != b.len() {
        return false;
    }
    let mut i: usize = 0;
    while i < a.len()
        invariant
            i <= a.len(),
            a.len() == b.len(),
            forall|j: int| 0 <= j < i ==> a@[j] == b@[j],
        decreases a.len() - i,
    {
        if a[i] != b[i] {
            return false;
        }
        i += 1;
    }
    assert(a@ =~= b@);
    true
}

/// Whether `a` holds exactly the characters of `s`.
pub fn chars_are(a: &Vec<char>, s: &str) -> (r: bool)
    ensures
        r == (a@ == s@),
{
    if a.len() != s.unicode_len() {
        return false;
    }
    let mut i: usize = 0;
    while i < a.len()
        invariant
            i <= a.len(),
            a.len() == s@.len(),
            forall|j: int| 0 <= j < i ==> a@[j] == s@[j],
        decreases a.len() - i,
    {
        if a[i] != s.get_char(i) {
            return false;
        }
        i += 1;
    }
    assert(a@ =~= s@);
    true
}

} // verus!
