//! Reading JSON text into the binary form.

use vstd::prelude::*;
use vstd::slice::{slice_subrange};
use vstd::utf8::valid_utf8;
use crate::error::Error;
use crate::codec::JEntry;
use crate::constants::{NULL_TAG, TRUE_TAG, FALSE_TAG, NUMBER_TAG, JENTRY_OFF_LEN_MASK};
use crate::iterator::{RawItem, RawEntry, item_wf, extract};
use crate::builder::{
    ArrayBuilder, ObjectBuilder, OwnedItem, array_result, object_result, nested_item,
    build_entries,
};
use crate::number::{Number, encode_number};
use crate::cast::{all_digits, digits_value, parse_digits};
use crate::text::{null_text, true_text, false_text};
use crate::value::{string_element, bare_element};

verus! {

/// What reading a double at the front of `input` gives: its bit pattern and
/// the number of bytes of `input` that follow it.
pub uninterp spec fn double_literal(input: Seq<u8>) -> Option<(u64, nat)>;

/// Reads a double at the front of `input`.
///
/// Calls `nom::number::complete::double`, which recognises a sign, digits, a
/// fraction and an exponent, or one of the words for a double that is no
/// number, and hands back the double and the rest of the input.
#[verifier::external_body]
pub(crate) fn nom_double(input: &[u8]) -> (r: Option<(u64, usize)>)
    ensures
        match double_literal(input@) {
            Some((bits, rest)) => r == Some((bits, rest as usize)) && rest <= input@.len(),
            None => r is None,
        },
{
    match nom::number::complete::double::<&[u8], nom::error::Error<&[u8]>>(input) {
        Ok((rest, v)) => Some((v.to_bits(), rest.len())),
        Err(_) => None,
    }
}

/// Whether bytes are UTF-8.
///
/// Calls `std::str::from_utf8`, which fails exactly on bytes that are not
/// UTF-8.
#[verifier::external_body]
pub(crate) fn is_utf8(bytes: &[u8]) -> (r: bool)
    ensures
        r == valid_utf8(bytes@),
{
    std::str::from_utf8(bytes).is_ok()
}

/// Whether a byte is white space of JSON text.
pub open spec fn is_ws(c: u8) -> bool {
    c == 0x20 || c == 0x09 || c == 0x0A || c == 0x0D
}

/// Whether a byte is a decimal digit.
pub open spec fn is_digit(c: u8) -> bool {
    0x30 <= c <= 0x39
}

/// The first position from `pos` on that holds no white space.
pub open spec fn skip_ws(text: Seq<u8>, pos: int) -> int
    decreases text.len() - pos,
{
    if pos < text.len() && is_ws(text[pos as int]) {
        skip_ws(text, pos + 1)
    } else {
        pos
    }
}

/// The first position from `pos` on that holds no digit.
pub open spec fn digits_end(text: Seq<u8>, pos: int) -> int
    decreases text.len() - pos,
{
    if pos < text.len() && is_digit(text[pos as int]) {
        digits_end(text, pos + 1)
    } else {
        pos
    }
}

/// Whether `text` holds `lit` at position `pos`.
pub open spec fn has_at(text: Seq<u8>, pos: int, lit: Seq<u8>) -> bool {
    pos + lit.len() <= text.len() && text.subrange(pos, pos + lit.len()) == lit
}

/// Skipping white space stays in the text and ends in front of a byte that
/// is none.
pub proof fn lemma_skip_ws(text: Seq<u8>, pos: int)
    requires
        0 <= pos <= text.len(),
    ensures
        pos <= skip_ws(text, pos) <= text.len(),
        skip_ws(text, pos) < text.len() ==> !is_ws(text[skip_ws(text, pos) as int]),
    decreases text.len() - pos,
{
    if pos < text.len() && is_ws(text[pos as int]) {
        lemma_skip_ws(text, pos + 1);
    }
}

/// The digits from `pos` on end in the text, and between `pos` and their
/// end every byte is a digit.
pub proof fn lemma_digits_end(text: Seq<u8>, pos: int)
    requires
        0 <= pos <= text.len(),
    ensures
        pos <= digits_end(text, pos) <= text.len(),
        all_digits(text.subrange(pos as int, digits_end(text, pos) as int)),
        digits_end(text, pos) < text.len() ==> !is_digit(text[digits_end(text, pos) as int]),
        pos < text.len() && is_digit(text[pos as int]) ==> digits_end(text, pos) > pos,
    decreases text.len() - pos,
{
    if pos < text.len() && is_digit(text[pos as int]) {
        lemma_digits_end(text, pos + 1);
        let end = digits_end(text, pos) as int;
        let s = text.subrange(pos as int, end);
        let t = text.subrange(pos + 1, end);
        assert forall|i: int| 0 <= i < s.len() implies 0x30 <= #[trigger] s[i] <= 0x39 by {
            if i > 0 {
                assert(s[i] == t[i - 1]);
            }
        }
    }
}

/// Skips white space.
pub fn skip_spaces(text: &[u8], pos: usize) -> (r: usize)
    requires
        pos <= text@.len(),
    ensures
        r == skip_ws(text@, pos as int),
        pos <= r <= text@.len(),
{
    let mut p = pos;
    proof {
        lemma_skip_ws(text@, pos as int);
    }
    while p < text.len() && (text[p] == 0x20 || text[p] == 0x09 || text[p] == 0x0A || text[p]
        == 0x0D)
        invariant
            pos <= p <= text@.len(),
            skip_ws(text@, p as int) == skip_ws(text@, pos as int),
        decreases text@.len() - p,
    {
        p = p + 1;
    }
    p
}

/// Skips digits.
pub fn skip_digits(text: &[u8], pos: usize) -> (r: usize)
    requires
        pos <= text@.len(),
    ensures
        r == digits_end(text@, pos as int),
        pos <= r <= text@.len(),
{
    let mut p = pos;
    proof {
        lemma_digits_end(text@, pos as int);
    }
    while p < text.len() && 0x30 <= text[p] && text[p] <= 0x39
        invariant
            pos <= p <= text@.len(),
            digits_end(text@, p as int) == digits_end(text@, pos as int),
        decreases text@.len() - p,
    {
        p = p + 1;
    }
    p
}

/// Whether `text` holds `lit` at position `pos`.
pub fn starts_with_at(text: &[u8], pos: usize, lit: &[u8]) -> (r: bool)
    requires
        pos <= text@.len(),
    ensures
        r == has_at(text@, pos as int, lit@),
{
    if lit.len() > text.len() - pos {
        return false;
    }
    let mut i: usize = 0;
    let n = text.len();
    while i < lit.len()
        invariant
            i <= lit@.len(),
            n == text@.len(),
            pos + lit@.len() <= text@.len(),
            forall|j: int| 0 <= j < i ==> text@[pos + j] == lit@[j],
        decreases lit@.len() - i,
    {
        if text[pos + i] != lit[i] {
            assert(text@.subrange(pos as int, pos + lit@.len())[i as int] != lit@[i as int]);
            return false;
        }
        i = i + 1;
    }
    assert(text@.subrange(pos as int, pos + lit@.len()) =~= lit@);
    true
}

/// Where the number token that starts at `pos` ends, and whether it is an
/// integer: a minus sign or none, then a zero or digits that start with no
/// zero, then a point and digits or none, then an exponent or none.
pub open spec fn number_end(text: Seq<u8>, pos: int) -> Option<(int, bool)> {
    let at0 = if pos < text.len() && text[pos as int] == 0x2D {
        pos + 1
    } else {
        pos
    };
    if at0 >= text.len() || !is_digit(text[at0 as int]) {
        None
    } else {
        let at1 = if text[at0 as int] == 0x30 {
            at0 + 1
        } else {
            digits_end(text, at0)
        };
        let has_frac = at1 < text.len() && text[at1 as int] == 0x2E;
        if has_frac && !(at1 + 1 < text.len() && is_digit(text[at1 + 1])) {
            None
        } else {
            let at2 = if has_frac {
                digits_end(text, at1 + 1)
            } else {
                at1
            };
            let has_exp = at2 < text.len() && (text[at2 as int] == 0x65 || text[at2 as int] == 0x45);
            let q = if has_exp && at2 + 1 < text.len() && (text[at2 + 1] == 0x2B || text[at2 + 1]
                == 0x2D) {
                at2 + 2
            } else {
                at2 + 1
            };
            if has_exp && !(q < text.len() && is_digit(text[q as int])) {
                None
            } else {
                let at3 = if has_exp {
                    digits_end(text, q)
                } else {
                    at2
                };
                Some((at3, !has_frac && !has_exp))
            }
        }
    }
}

/// The number that a token stands for: an integer token an unsigned integer
/// or, with a minus sign, a signed integer, where it is in range; every
/// other token the double that it reads as.
pub open spec fn number_of_token(token: Seq<u8>, is_int: bool) -> Result<Number, Error> {
    let negative = token.len() > 0 && token[0] == 0x2D;
    let body = if negative {
        token.skip(1)
    } else {
        token
    };
    if is_int && body.len() > 0 && all_digits(body) && !negative && digits_value(body) <= u64::MAX {
        Ok(Number::UInt64(digits_value(body) as u64))
    } else if is_int && body.len() > 0 && all_digits(body) && negative && digits_value(body)
        <= 0x8000_0000_0000_0000 {
        Ok(Number::Int64((-(digits_value(body) as int)) as i64))
    } else {
        match double_literal(token) {
            Some((bits, rest)) => if rest == 0 {
                Ok(Number::Float64(bits))
            } else {
                Err(Error::InvalidJson)
            },
            None => Err(Error::InvalidJson),
        }
    }
}

/// The number at position `pos` and the position behind it.
pub open spec fn number_at(text: Seq<u8>, pos: int) -> Result<(Number, int), Error> {
    match number_end(text, pos) {
        None => Err(Error::InvalidJson),
        Some((end, is_int)) => if pos < end <= text.len() {
            match number_of_token(text.subrange(pos as int, end as int), is_int) {
                Ok(n) => Ok((n, end)),
                Err(e) => Err(e),
            }
        } else {
            Err(Error::InvalidJson)
        },
    }
}

/// Finds the end of the number token that starts at `pos`.
pub fn scan_number(text: &[u8], pos: usize) -> (r: Option<(usize, bool)>)
    requires
        pos <= text@.len(),
    ensures
        r is Some <==> number_end(text@, pos as int) is Some,
        r is Some ==> r->Some_0.0 == number_end(text@, pos as int)->Some_0.0 && r->Some_0.1
            == number_end(text@, pos as int)->Some_0.1 && pos < r->Some_0.0 <= text@.len(),
{
    let len = text.len();
    let at0 = if pos < len && text[pos] == 0x2D {
        pos + 1
    } else {
        pos
    };
    if at0 >= len || !(0x30 <= text[at0] && text[at0] <= 0x39) {
        return None;
    }
    proof {
        lemma_digits_end(text@, at0 as int);
    }
    let at1 = if text[at0] == 0x30 {
        at0 + 1
    } else {
        skip_digits(text, at0)
    };
    let has_frac = at1 < len && text[at1] == 0x2E;
    if has_frac && !(at1 + 1 < len && 0x30 <= text[at1 + 1] && text[at1 + 1] <= 0x39) {
        return None;
    }
    let at2 = if has_frac {
        skip_digits(text, at1 + 1)
    } else {
        at1
    };
    let has_exp = at2 < len && (text[at2] == 0x65 || text[at2] == 0x45);
    if !has_exp {
        return Some((at2, !has_frac));
    }
    let q = if at2 + 1 < len && (text[at2 + 1] == 0x2B || text[at2 + 1] == 0x2D) {
        at2 + 2
    } else {
        at2 + 1
    };
    if !(q < len && 0x30 <= text[q] && text[q] <= 0x39) {
        return None;
    }
    let at3 = skip_digits(text, q);
    Some((at3, false))
}

/// The number that a token stands for.
pub fn token_to_number(token: &[u8], is_int: bool) -> (r: Result<Number, Error>)
    ensures
        r == number_of_token(token@, is_int),
{
    let negative = token.len() > 0 && token[0] == 0x2D;
    let from: usize = if negative {
        1
    } else {
        0
    };
    proof {
        assert(token@.skip(0) =~= token@);
    }
    if is_int {
        if negative {
            if let Some(m) = parse_digits(token, from, 0x8000_0000_0000_0000) {
                return Ok(
                    Number::Int64(
                        if m == 0x8000_0000_0000_0000 {
                            i64::MIN
                        } else {
                            -(m as i64)
                        },
                    ),
                );
            }
        } else {
            if let Some(m) = parse_digits(token, from, u64::MAX) {
                return Ok(Number::UInt64(m));
            }
        }
    }
    match nom_double(token) {
        Some((bits, rest)) => if rest == 0 {
            Ok(Number::Float64(bits))
        } else {
            Err(Error::InvalidJson)
        },
        None => Err(Error::InvalidJson),
    }
}

/// Reads the number at position `pos`.
pub fn read_number(text: &[u8], pos: usize) -> (r: Result<(Number, usize), Error>)
    requires
        pos <= text@.len(),
    ensures
        match number_at(text@, pos as int) {
            Ok(found) => r is Ok && r->Ok_0.0 == found.0 && r->Ok_0.1 == found.1 && pos < found.1
                <= text@.len(),
            Err(e) => r == Err::<(Number, usize), Error>(e),
        },
{
    match scan_number(text, pos) {
        None => Err(Error::InvalidJson),
        Some((end, is_int)) => {
            let token = slice_subrange(text, pos, end);
            let n = token_to_number(token, is_int)?;
            Ok((n, end))
        },
    }
}

/// The value of a hexadecimal digit.
pub open spec fn hex_value(c: u8) -> Option<int> {
    if 0x30 <= c <= 0x39 {
        Some(c - 0x30)
    } else if 0x61 <= c <= 0x66 {
        Some(c - 0x61 + 10)
    } else if 0x41 <= c <= 0x46 {
        Some(c - 0x41 + 10)
    } else {
        None
    }
}

/// The number that the four hexadecimal digits at position `pos` stand for.
pub open spec fn hex4_at(text: Seq<u8>, pos: int) -> Option<int> {
    if 0 <= pos && pos + 4 <= text.len() && hex_value(text[pos]) is Some && hex_value(text[pos + 1])
        is Some && hex_value(text[pos + 2]) is Some && hex_value(text[pos + 3]) is Some {
        Some(
            hex_value(text[pos])->Some_0 * 0x1000 + hex_value(text[pos + 1])->Some_0 * 0x100
                + hex_value(text[pos + 2])->Some_0 * 0x10 + hex_value(text[pos + 3])->Some_0,
        )
    } else {
        None
    }
}

/// The UTF-8 bytes of a code point.
pub open spec fn utf8_of(cp: int) -> Seq<u8> {
    if cp < 0x80 {
        seq![cp as u8]
    } else if cp < 0x800 {
        seq![(0xC0 + cp / 0x40) as u8, (0x80 + cp % 0x40) as u8]
    } else if cp < 0x10000 {
        seq![
            (0xE0 + cp / 0x1000) as u8,
            (0x80 + (cp / 0x40) % 0x40) as u8,
            (0x80 + cp % 0x40) as u8,
        ]
    } else {
        seq![
            (0xF0 + cp / 0x40000) as u8,
            (0x80 + (cp / 0x1000) % 0x40) as u8,
            (0x80 + (cp / 0x40) % 0x40) as u8,
            (0x80 + cp % 0x40) as u8,
        ]
    }
}

/// The byte that a letter behind a backslash stands for.
pub open spec fn simple_escape(c: u8) -> Option<u8> {
    if c == 0x22 {
        Some(0x22u8)
    } else if c == 0x5C {
        Some(0x5Cu8)
    } else if c == 0x2F {
        Some(0x2Fu8)
    } else if c == 0x62 {
        Some(0x08u8)
    } else if c == 0x66 {
        Some(0x0Cu8)
    } else if c == 0x6E {
        Some(0x0Au8)
    } else if c == 0x72 {
        Some(0x0Du8)
    } else if c == 0x74 {
        Some(0x09u8)
    } else {
        None
    }
}

/// The code point that the escape `\u` at position `pos` stands for, and
/// the position behind it: one unit of four hexadecimal digits, or the two
/// units of a surrogate pair.
pub open spec fn unicode_escape_at(text: Seq<u8>, pos: int) -> Option<(int, int)> {
    match hex4_at(text, pos + 2) {
        None => None,
        Some(u) => if 0xD800 <= u <= 0xDBFF {
            if pos + 8 <= text.len() && text[pos + 6] == 0x5C && text[pos + 7] == 0x75 {
                match hex4_at(text, pos + 8) {
                    Some(lo) => if 0xDC00 <= lo <= 0xDFFF {
                        Some((0x10000 + (u - 0xD800) * 0x400 + (lo - 0xDC00), pos + 12))
                    } else {
                        None
                    },
                    None => None,
                }
            } else {
                None
            }
        } else if 0xDC00 <= u <= 0xDFFF {
            None
        } else {
            Some((u, pos + 6))
        },
    }
}

/// The bytes `acc` with the bytes of the string whose inside starts at
/// position `pos`, and the position behind its closing quotation mark.
pub open spec fn string_at(text: Seq<u8>, pos: int, acc: Seq<u8>) -> Result<(Seq<u8>, int), Error>
    decreases text.len() - pos,
{
    if pos < 0 || pos >= text.len() {
        Err(Error::InvalidJson)
    } else if text[pos] == 0x22 {
        Ok((acc, pos + 1))
    } else if text[pos] < 0x20 {
        Err(Error::InvalidJson)
    } else if text[pos] == 0x5C {
        if pos + 1 >= text.len() {
            Err(Error::InvalidJson)
        } else if text[pos + 1] == 0x75 {
            match unicode_escape_at(text, pos) {
                None => Err(Error::InvalidJson),
                Some(r) => if r.1 > pos {
                    string_at(text, r.1, acc + utf8_of(r.0))
                } else {
                    Err(Error::InvalidJson)
                },
            }
        } else {
            match simple_escape(text[pos + 1]) {
                Some(b) => string_at(text, pos + 2, acc.push(b)),
                None => Err(Error::InvalidJson),
            }
        }
    } else {
        string_at(text, pos + 1, acc.push(text[pos]))
    }
}

/// The value of a hexadecimal digit.
pub fn hex_digit(c: u8) -> (r: Option<u32>)
    ensures
        match hex_value(c) {
            Some(v) => r == Some(v as u32) && 0 <= v < 16,
            None => r is None,
        },
{
    if 0x30 <= c && c <= 0x39 {
        Some((c - 0x30) as u32)
    } else if 0x61 <= c && c <= 0x66 {
        Some((c - 0x61 + 10) as u32)
    } else if 0x41 <= c && c <= 0x46 {
        Some((c - 0x41 + 10) as u32)
    } else {
        None
    }
}

/// The number that the four hexadecimal digits at position `pos` stand for.
pub fn read_hex4(text: &[u8], pos: usize) -> (r: Option<u32>)
    ensures
        match hex4_at(text@, pos as int) {
            Some(v) => r == Some(v as u32) && 0 <= v <= 0xFFFF,
            None => r is None,
        },
{
    if pos > text.len() || text.len() - pos < 4 {
        return None;
    }
    let a = match hex_digit(text[pos]) {
        Some(v) => v,
        None => {
            return None;
        },
    };
    let b = match hex_digit(text[pos + 1]) {
        Some(v) => v,
        None => {
            return None;
        },
    };
    let c = match hex_digit(text[pos + 2]) {
        Some(v) => v,
        None => {
            return None;
        },
    };
    let d = match hex_digit(text[pos + 3]) {
        Some(v) => v,
        None => {
            return None;
        },
    };
    Some(a * 0x1000 + b * 0x100 + c * 0x10 + d)
}

/// Appends the UTF-8 bytes of a code point.
pub fn push_utf8(buf: &mut Vec<u8>, cp: u32)
    requires
        cp <= 0x10FFFF,
    ensures
        final(buf)@ == old(buf)@ + utf8_of(cp as int),
{
    if cp < 0x80 {
        buf.push(cp as u8);
    } else if cp < 0x800 {
        buf.push((0xC0 + cp / 0x40) as u8);
        buf.push((0x80 + cp % 0x40) as u8);
    } else if cp < 0x10000 {
        buf.push((0xE0 + cp / 0x1000) as u8);
        buf.push((0x80 + (cp / 0x40) % 0x40) as u8);
        buf.push((0x80 + cp % 0x40) as u8);
    } else {
        buf.push((0xF0 + cp / 0x40000) as u8);
        buf.push((0x80 + (cp / 0x1000) % 0x40) as u8);
        buf.push((0x80 + (cp / 0x40) % 0x40) as u8);
        buf.push((0x80 + cp % 0x40) as u8);
    }
    assert(buf@ =~= old(buf)@ + utf8_of(cp as int));
}

/// The byte that a letter behind a backslash stands for.
pub fn unescape(c: u8) -> (r: Option<u8>)
    ensures
        r == simple_escape(c),
{
    if c == 0x22 {
        Some(0x22)
    } else if c == 0x5C {
        Some(0x5C)
    } else if c == 0x2F {
        Some(0x2F)
    } else if c == 0x62 {
        Some(0x08)
    } else if c == 0x66 {
        Some(0x0C)
    } else if c == 0x6E {
        Some(0x0A)
    } else if c == 0x72 {
        Some(0x0D)
    } else if c == 0x74 {
        Some(0x09)
    } else {
        None
    }
}

/// The code point that the escape at position `pos` stands for.
pub fn read_unicode_escape(text: &[u8], pos: usize) -> (r: Option<(u32, usize)>)
    requires
        pos + 1 < text@.len(),
    ensures
        r is Some <==> unicode_escape_at(text@, pos as int) is Some,
        r is Some ==> r->Some_0.0 == unicode_escape_at(text@, pos as int)->Some_0.0 && r->Some_0.1
            == unicode_escape_at(text@, pos as int)->Some_0.1 && r->Some_0.0 <= 0x10FFFF && pos
            < r->Some_0.1 <= text@.len(),
{
    let n = text.len();
    let u = match read_hex4(text, pos + 2) {
        Some(u) => u,
        None => {
            return None;
        },
    };
    if 0xD800 <= u && u <= 0xDBFF {
        if n - pos >= 8 && text[pos + 6] == 0x5C && text[pos + 7] == 0x75 {
            match read_hex4(text, pos + 8) {
                Some(lo) => {
                    if 0xDC00 <= lo && lo <= 0xDFFF {
                        Some((0x10000 + (u - 0xD800) * 0x400 + (lo - 0xDC00), pos + 12))
                    } else {
                        None
                    }
                },
                None => None,
            }
        } else {
            None
        }
    } else if 0xDC00 <= u && u <= 0xDFFF {
        None
    } else {
        Some((u, pos + 6))
    }
}

/// Reads the string whose inside starts at position `pos`.
pub fn read_string(text: &[u8], pos: usize) -> (r: Result<(Vec<u8>, usize), Error>)
    requires
        pos <= text@.len(),
    ensures
        match string_at(text@, pos as int, Seq::empty()) {
            Ok(found) => r is Ok && r->Ok_0.0@ == found.0 && r->Ok_0.1 == found.1 && pos < found.1
                <= text@.len(),
            Err(e) => r == Err::<(Vec<u8>, usize), Error>(e),
        },
{
    let n = text.len();
    let mut out: Vec<u8> = Vec::new();
    let mut p: usize = pos;
    loop
        invariant
            pos <= p <= text@.len(),
            n == text@.len(),
            string_at(text@, p as int, out@) == string_at(text@, pos as int, Seq::empty()),
        decreases text@.len() - p,
    {
        if p >= n {
            return Err(Error::InvalidJson);
        }
        let c = text[p];
        if c == 0x22 {
            return Ok((out, p + 1));
        }
        if c < 0x20 {
            return Err(Error::InvalidJson);
        }
        if c == 0x5C {
            if n - p < 2 {
                return Err(Error::InvalidJson);
            }
            let e = text[p + 1];
            if e == 0x75 {
                match read_unicode_escape(text, p) {
                    None => {
                        return Err(Error::InvalidJson);
                    },
                    Some((cp, next)) => {
                        push_utf8(&mut out, cp);
                        p = next;
                    },
                }
            } else {
                match unescape(e) {
                    Some(b) => {
                        out.push(b);
                        p = p + 2;
                    },
                    None => {
                        return Err(Error::InvalidJson);
                    },
                }
            }
        } else {
            out.push(c);
            p = p + 1;
        }
    }
}

/// A number as an element.
pub open spec fn number_element(n: Number) -> RawItem {
    RawItem {
        jentry: JEntry { type_code: NUMBER_TAG, length: encode_number(n).len() as u32 },
        data: encode_number(n),
    }
}

/// The value at position `pos` as an element, and the position behind it.
pub open spec fn value_at(text: Seq<u8>, pos: int) -> Result<(RawItem, int), Error>
    decreases text.len() - pos, 0nat,
{
    if pos < 0 || pos >= text.len() {
        Err(Error::InvalidJson)
    } else if text[pos] == 0x6E {
        if has_at(text, pos, null_text()) {
            Ok((bare_element(NULL_TAG), pos + 4))
        } else {
            Err(Error::InvalidJson)
        }
    } else if text[pos] == 0x74 {
        if has_at(text, pos, true_text()) {
            Ok((bare_element(TRUE_TAG), pos + 4))
        } else {
            Err(Error::InvalidJson)
        }
    } else if text[pos] == 0x66 {
        if has_at(text, pos, false_text()) {
            Ok((bare_element(FALSE_TAG), pos + 5))
        } else {
            Err(Error::InvalidJson)
        }
    } else if text[pos] == 0x22 {
        match string_at(text, pos + 1, Seq::empty()) {
            Err(e) => Err(e),
            Ok(found) => match string_element(found.0) {
                Err(e) => Err(e),
                Ok(item) => Ok((item, found.1)),
            },
        }
    } else if text[pos] == 0x5B {
        let p = skip_ws(text, pos + 1);
        if p < text.len() && text[p] == 0x5D {
            match nested_item(array_result(Seq::empty())) {
                Err(e) => Err(e),
                Ok(item) => Ok((item, p + 1)),
            }
        } else if pos < p <= text.len() {
            match elements_at(text, p, Seq::empty()) {
                Err(e) => Err(e),
                Ok(found) => match nested_item(array_result(found.0)) {
                    Err(e) => Err(e),
                    Ok(item) => Ok((item, found.1)),
                },
            }
        } else {
            Err(Error::InvalidJson)
        }
    } else if text[pos] == 0x7B {
        let p = skip_ws(text, pos + 1);
        if p < text.len() && text[p] == 0x7D {
            match nested_item(object_result(Seq::empty())) {
                Err(e) => Err(e),
                Ok(item) => Ok((item, p + 1)),
            }
        } else if pos < p <= text.len() {
            match members_at(text, p, Seq::empty()) {
                Err(e) => Err(e),
                Ok(found) => match nested_item(object_result(build_entries(found.0))) {
                    Err(e) => Err(e),
                    Ok(item) => Ok((item, found.1)),
                },
            }
        } else {
            Err(Error::InvalidJson)
        }
    } else if text[pos] == 0x2D || is_digit(text[pos]) {
        match number_at(text, pos) {
            Err(e) => Err(e),
            Ok(found) => Ok((number_element(found.0), found.1)),
        }
    } else {
        Err(Error::InvalidJson)
    }
}

/// The elements `acc` with the elements of the array whose next element
/// starts at position `pos`, and the position behind its closing bracket.
pub open spec fn elements_at(text: Seq<u8>, pos: int, acc: Seq<RawItem>) -> Result<
    (Seq<RawItem>, int),
    Error,
>
    decreases text.len() - pos, 1nat,
{
    match value_at(text, pos) {
        Err(e) => Err(e),
        Ok(found) => {
            let p = skip_ws(text, found.1);
            let next = skip_ws(text, p + 1);
            if !(pos < found.1 <= p < text.len()) {
                Err(Error::InvalidJson)
            } else if text[p] == 0x2C && pos < next <= text.len() {
                elements_at(text, next, acc.push(found.0))
            } else if text[p] == 0x5D {
                Ok((acc.push(found.0), p + 1))
            } else {
                Err(Error::InvalidJson)
            }
        },
    }
}

/// The members `acc` with the members of the object whose next key starts
/// at position `pos`, and the position behind its closing brace.
pub open spec fn members_at(text: Seq<u8>, pos: int, acc: Seq<RawEntry>) -> Result<
    (Seq<RawEntry>, int),
    Error,
>
    decreases text.len() - pos, 1nat,
{
    if pos < 0 || pos >= text.len() || text[pos] != 0x22 {
        Err(Error::InvalidJson)
    } else {
        match string_at(text, pos + 1, Seq::empty()) {
            Err(e) => Err(e),
            Ok(key) => {
                let colon = skip_ws(text, key.1);
                let start = skip_ws(text, colon + 1);
                if key.0.len() > JENTRY_OFF_LEN_MASK {
                    Err(Error::InvalidJsonbJEntry)
                } else if !(pos < key.1 <= colon < text.len() && text[colon] == 0x3A && colon
                    < start <= text.len()) {
                    Err(Error::InvalidJson)
                } else {
                    match value_at(text, start) {
                        Err(e) => Err(e),
                        Ok(found) => {
                            let p = skip_ws(text, found.1);
                            let next = skip_ws(text, p + 1);
                            let entry = RawEntry {
                                key: key.0,
                                jentry: found.0.jentry,
                                data: found.0.data,
                            };
                            if !(start < found.1 <= p < text.len()) {
                                Err(Error::InvalidJson)
                            } else if text[p] == 0x2C && pos < next <= text.len() {
                                members_at(text, next, acc.push(entry))
                            } else if text[p] == 0x7D {
                                Ok((acc.push(entry), p + 1))
                            } else {
                                Err(Error::InvalidJson)
                            }
                        },
                    }
                }
            },
        }
    }
}

/// The binary form of the value that a JSON text holds: the text is UTF-8
/// and holds one value, with white space or nothing around it.
pub open spec fn text_to_jsonb(text: Seq<u8>) -> Result<Seq<u8>, Error> {
    if !valid_utf8(text) {
        Err(Error::InvalidJson)
    } else {
        match value_at(text, skip_ws(text, 0)) {
            Err(e) => Err(e),
            Ok(found) => if skip_ws(text, found.1) == text.len() {
                Ok(extract(found.0))
            } else {
                Err(Error::InvalidJson)
            },
        }
    }
}

/// A text that `text` is to hold at a position.
fn literal(kind: u8) -> (r: Vec<u8>)
    requires
        kind < 3,
    ensures
        r@ == (if kind == 0 {
            null_text()
        } else if kind == 1 {
            true_text()
        } else {
            false_text()
        }),
{
    let mut r: Vec<u8> = Vec::new();
    if kind == 0 {
        crate::text::push_null(&mut r);
    } else if kind == 1 {
        crate::text::push_true(&mut r);
    } else {
        crate::text::push_false(&mut r);
    }
    assert(r@ =~= Seq::<u8>::empty() + r@);
    r
}

/// An element in its wire form from a nested container in its wire form.
fn nested_element(data: Vec<u8>) -> (r: Result<OwnedItem, Error>)
    ensures
        match nested_item(Ok(data@)) {
            Ok(item) => r is Ok && r->Ok_0@ == item && item_wf(item),
            Err(e) => r == Err::<OwnedItem, Error>(e),
        },
{
    if data.len() > JENTRY_OFF_LEN_MASK as usize {
        return Err(Error::InvalidJsonbJEntry);
    }
    Ok(OwnedItem { jentry: JEntry::make_container_jentry(data.len()), data })
}

/// Reads the value at position `pos`.
pub fn read_value(text: &[u8], pos: usize) -> (r: Result<(OwnedItem, usize), Error>)
    requires
        pos <= text@.len(),
    ensures
        match value_at(text@, pos as int) {
            Ok(found) => r is Ok && r->Ok_0.0@ == found.0 && r->Ok_0.1 == found.1 && pos < found.1
                <= text@.len() && item_wf(found.0),
            Err(e) => r == Err::<(OwnedItem, usize), Error>(e),
        },
    decreases text@.len() - pos, 0nat,
{
    let n = text.len();
    if pos >= n {
        return Err(Error::InvalidJson);
    }
    let c = text[pos];
    if c == 0x6E {
        let lit = literal(0);
        if starts_with_at(text, pos, lit.as_slice()) {
            let item = OwnedItem { jentry: JEntry::make_null_jentry(), data: Vec::new() };
            assert(item@.data =~= Seq::<u8>::empty());
            Ok((item, pos + 4))
        } else {
            Err(Error::InvalidJson)
        }
    } else if c == 0x74 {
        let lit = literal(1);
        if starts_with_at(text, pos, lit.as_slice()) {
            let item = OwnedItem { jentry: JEntry::make_true_jentry(), data: Vec::new() };
            assert(item@.data =~= Seq::<u8>::empty());
            Ok((item, pos + 4))
        } else {
            Err(Error::InvalidJson)
        }
    } else if c == 0x66 {
        let lit = literal(2);
        if starts_with_at(text, pos, lit.as_slice()) {
            let item = OwnedItem { jentry: JEntry::make_false_jentry(), data: Vec::new() };
            assert(item@.data =~= Seq::<u8>::empty());
            Ok((item, pos + 5))
        } else {
            Err(Error::InvalidJson)
        }
    } else if c == 0x22 {
        let (data, next) = read_string(text, pos + 1)?;
        if data.len() > JENTRY_OFF_LEN_MASK as usize {
            return Err(Error::InvalidJsonbJEntry);
        }
        Ok((OwnedItem { jentry: JEntry::make_string_jentry(data.len()), data }, next))
    } else if c == 0x5B {
        let p = skip_spaces(text, pos + 1);
        if p < n && text[p] == 0x5D {
            let data = ArrayBuilder::new(0).build()?;
            let item = nested_element(data)?;
            Ok((item, p + 1))
        } else {
            let (builder, next) = read_elements(text, p)?;
            let data = builder.build()?;
            let item = nested_element(data)?;
            Ok((item, next))
        }
    } else if c == 0x7B {
        let p = skip_spaces(text, pos + 1);
        if p < n && text[p] == 0x7D {
            let data = ObjectBuilder::new().build()?;
            let item = nested_element(data)?;
            Ok((item, p + 1))
        } else {
            let (builder, next) = read_members(text, p)?;
            let data = builder.build()?;
            let item = nested_element(data)?;
            Ok((item, next))
        }
    } else if c == 0x2D || (0x30 <= c && c <= 0x39) {
        let (num, next) = read_number(text, pos)?;
        let data = num.encode();
        Ok((OwnedItem { jentry: JEntry::make_number_jentry(data.len()), data }, next))
    } else {
        Err(Error::InvalidJson)
    }
}

/// Reads the elements of the array whose next element starts at `pos`.
pub fn read_elements(text: &[u8], pos: usize) -> (r: Result<(ArrayBuilder, usize), Error>)
    requires
        pos <= text@.len(),
    ensures
        match elements_at(text@, pos as int, Seq::empty()) {
            Ok(found) => r is Ok && r->Ok_0.0@ == found.0 && r->Ok_0.0.wf() && r->Ok_0.1 == found.1
                && pos < found.1 <= text@.len(),
            Err(e) => r == Err::<(ArrayBuilder, usize), Error>(e),
        },
    decreases text@.len() - pos, 1nat,
{
    let n = text.len();
    let mut builder = ArrayBuilder::new(0);
    let mut cur: usize = pos;
    loop
        invariant
            pos <= cur <= text@.len(),
            n == text@.len(),
            builder.wf(),
            elements_at(text@, cur as int, builder@) == elements_at(
                text@,
                pos as int,
                Seq::empty(),
            ),
        decreases text@.len() - cur,
    {
        let (item, after) = read_value(text, cur)?;
        let p = skip_spaces(text, after);
        if p >= n {
            return Err(Error::InvalidJson);
        }
        builder.push_raw(item.jentry, item.data.as_slice());
        if text[p] == 0x2C {
            cur = skip_spaces(text, p + 1);
        } else if text[p] == 0x5D {
            return Ok((builder, p + 1));
        } else {
            return Err(Error::InvalidJson);
        }
    }
}

/// Reads the members of the object whose next key starts at `pos`.
pub fn read_members(text: &[u8], pos: usize) -> (r: Result<(ObjectBuilder, usize), Error>)
    requires
        pos <= text@.len(),
    ensures
        match members_at(text@, pos as int, Seq::empty()) {
            Ok(found) => r is Ok && r->Ok_0.0@ == build_entries(found.0) && r->Ok_0.0.wf()
                && r->Ok_0.1 == found.1 && pos < found.1 <= text@.len(),
            Err(e) => r == Err::<(ObjectBuilder, usize), Error>(e),
        },
    decreases text@.len() - pos, 1nat,
{
    let n = text.len();
    let mut builder = ObjectBuilder::new();
    let ghost mut acc: Seq<RawEntry> = Seq::empty();
    let mut cur: usize = pos;
    loop
        invariant
            pos <= cur <= text@.len(),
            n == text@.len(),
            builder.wf(),
            builder@ == build_entries(acc),
            members_at(text@, cur as int, acc) == members_at(text@, pos as int, Seq::empty()),
        decreases text@.len() - cur,
    {
        if cur >= n || text[cur] != 0x22 {
            return Err(Error::InvalidJson);
        }
        let (key, after_key) = read_string(text, cur + 1)?;
        if key.len() > JENTRY_OFF_LEN_MASK as usize {
            return Err(Error::InvalidJsonbJEntry);
        }
        let colon = skip_spaces(text, after_key);
        if colon >= n || text[colon] != 0x3A {
            return Err(Error::InvalidJson);
        }
        let start = skip_spaces(text, colon + 1);
        let (item, after) = read_value(text, start)?;
        let p = skip_spaces(text, after);
        if p >= n {
            return Err(Error::InvalidJson);
        }
        builder.push_raw(key.as_slice(), item.jentry, item.data.as_slice());
        proof {
            let e = RawEntry { key: key@, jentry: item@.jentry, data: item@.data };
            assert(acc.push(e).drop_last() =~= acc);
            acc = acc.push(e);
        }
        if text[p] == 0x2C {
            cur = skip_spaces(text, p + 1);
        } else if text[p] == 0x7D {
            return Ok((builder, p + 1));
        } else {
            return Err(Error::InvalidJson);
        }
    }
}

/// Reads a JSON text into the binary form of the value that it holds.
pub fn parse_value(text: &[u8]) -> (r: Result<Vec<u8>, Error>)
    ensures
        match text_to_jsonb(text@) {
            Ok(bytes) => r is Ok && r->Ok_0@ == bytes,
            Err(e) => r == Err::<Vec<u8>, Error>(e),
        },
{
    if !is_utf8(text) {
        return Err(Error::InvalidJson);
    }
    let start = skip_spaces(text, 0);
    let (item, after) = read_value(text, start)?;
    if skip_spaces(text, after) != text.len() {
        return Err(Error::InvalidJson);
    }
    let borrowed = crate::iterator::Item { jentry: item.jentry, data: item.data.as_slice() };
    Ok(crate::iterator::extract_by_jentry(&borrowed))
}

} // verus!
