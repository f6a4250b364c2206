//! Big-endian words, container headers and JEntries.

use vstd::prelude::*;
use crate::error::Error;
use crate::constants::{
    ARRAY_CONTAINER_TAG, OBJECT_CONTAINER_TAG, SCALAR_CONTAINER_TAG, CONTAINER_HEADER_TYPE_MASK,
    CONTAINER_HEADER_LEN_MASK, NULL_TAG, STRING_TAG, NUMBER_TAG, FALSE_TAG, TRUE_TAG, CONTAINER_TAG,
    JENTRY_IS_OFF_FLAG, JENTRY_TYPE_MASK, JENTRY_OFF_LEN_MASK,
};

verus! {

/// The four bytes of `v`, most significant first.
pub open spec fn be_bytes(v: u32) -> Seq<u8> {
    seq![
        (v / 0x1000000) as u8,
        ((v / 0x10000) % 0x100) as u8,
        ((v / 0x100) % 0x100) as u8,
        (v % 0x100) as u8,
    ]
}

/// The big-endian word that starts at position `i` of `s`.
pub open spec fn word_at(s: Seq<u8>, i: int) -> u32
    recommends
        0 <= i,
        i + 4 <= s.len(),
{
    (s[i] as int * 0x1000000 + s[i + 1] as int * 0x10000 + s[i + 2] as int * 0x100 + s[i + 3] as int) as u32
}

/// What reading a word at position `i` of `s` gives.
pub open spec fn read_word(s: Seq<u8>, i: int) -> Result<u32, Error> {
    if 0 <= i && i + 4 <= s.len() {
        Ok(word_at(s, i))
    } else {
        Err(Error::InvalidEOF)
    }
}

/// The division steps that take a word apart into its four bytes.
proof fn lemma_split_word(a: int, b: int, c: int, d: int)
    requires
        0 <= a < 0x100,
        0 <= b < 0x100,
        0 <= c < 0x100,
        0 <= d < 0x100,
    ensures
        ({
            let w = a * 0x1000000 + b * 0x10000 + c * 0x100 + d;
            &&& 0 <= w <= 0xFFFFFFFF
            &&& w / 0x1000000 == a
            &&& (w / 0x10000) % 0x100 == b
            &&& (w / 0x100) % 0x100 == c
            &&& w % 0x100 == d
        }),
{
    let w = a * 0x1000000 + b * 0x10000 + c * 0x100 + d;
    assert(w / 0x1000000 == a) by (nonlinear_arith)
        requires
            w == a * 0x1000000 + b * 0x10000 + c * 0x100 + d,
            0 <= b < 0x100,
            0 <= c < 0x100,
            0 <= d < 0x100,
    ;
    assert(w / 0x10000 == a * 0x100 + b) by (nonlinear_arith)
        requires
            w == a * 0x1000000 + b * 0x10000 + c * 0x100 + d,
            0 <= c < 0x100,
            0 <= d < 0x100,
    ;
    assert((a * 0x100 + b) % 0x100 == b) by (nonlinear_arith)
        requires
            0 <= b < 0x100,
    ;
    assert(w / 0x100 == a * 0x10000 + b * 0x100 + c) by (nonlinear_arith)
        requires
            w == a * 0x1000000 + b * 0x10000 + c * 0x100 + d,
            0 <= d < 0x100,
    ;
    assert((a * 0x10000 + b * 0x100 + c) % 0x100 == c) by (nonlinear_arith)
        requires
            0 <= c < 0x100,
    ;
    assert(w % 0x100 == d) by (nonlinear_arith)
        requires
            w == a * 0x1000000 + b * 0x10000 + c * 0x100 + d,
            0 <= d < 0x100,
    ;
}

/// Reading back the bytes of a word gives the word.
pub proof fn lemma_word_of_be_bytes(v: u32)
    ensures
        be_bytes(v).len() == 4,
        word_at(be_bytes(v), 0) == v,
{
    let x = v as int;
    let a = x / 0x1000000;
    let b = (x / 0x10000) % 0x100;
    let c = (x / 0x100) % 0x100;
    let d = x % 0x100;
    assert(a * 0x1000000 + b * 0x10000 + c * 0x100 + d == x && 0 <= a < 0x100) by (nonlinear_arith)
        requires
            0 <= x <= 0xFFFFFFFF,
            a == x / 0x1000000,
            b == (x / 0x10000) % 0x100,
            c == (x / 0x100) % 0x100,
            d == x % 0x100,
    ;
}

/// A word that is read at a position is made of the four bytes there.
pub proof fn lemma_be_bytes_of_word(s: Seq<u8>, i: int)
    requires
        0 <= i,
        i + 4 <= s.len(),
    ensures
        be_bytes(word_at(s, i)) == s.subrange(i, i + 4),
{
    lemma_split_word(s[i] as int, s[i + 1] as int, s[i + 2] as int, s[i + 3] as int);
    assert(be_bytes(word_at(s, i)) =~= s.subrange(i, i + 4));
}

/// Reads a big-endian word at `idx`.
pub fn read_u32(buf: &[u8], idx: usize) -> (r: Result<u32, Error>)
    ensures
        r == read_word(buf@, idx as int),
{
    if idx > buf.len() || buf.len() - idx < 4 {
        return Err(Error::InvalidEOF);
    }
    let b0: u32 = buf[idx] as u32;
    let b1: u32 = buf[idx + 1] as u32;
    let b2: u32 = buf[idx + 2] as u32;
    let b3: u32 = buf[idx + 3] as u32;
    Ok(b0 * 0x1000000 + b1 * 0x10000 + b2 * 0x100 + b3)
}

} // verus!

verus! {

/// Appends the four bytes of `v`, most significant first.
///
/// Calls `byteorder::WriteBytesExt::write_u32::<BigEndian>` on the vector, which
/// writes `v.to_be_bytes()` at its end and cannot fail for a `Vec<u8>`.
#[verifier::external_body]
pub(crate) fn put_u32(buf: &mut Vec<u8>, v: u32)
    ensures
        final(buf)@ == old(buf)@ + be_bytes(v),
{
    let _ = byteorder::WriteBytesExt::write_u32::<byteorder::BigEndian>(buf, v);
}

/// The type tag of a container header.
pub open spec fn header_tag(header: u32) -> u32 {
    header & CONTAINER_HEADER_TYPE_MASK
}

/// The element count of a container header.
pub open spec fn header_len(header: u32) -> nat {
    (header & CONTAINER_HEADER_LEN_MASK) as nat
}

/// Splits a header into its type tag and its element count.
pub fn decode_header(header: u32) -> (r: (u32, usize))
    ensures
        r.0 == header_tag(header),
        r.1 == header_len(header),
        r.1 <= CONTAINER_HEADER_LEN_MASK,
{
    assert(header & 0x1FFFFFFF <= 0x1FFFFFFF) by (bit_vector);
    (header & CONTAINER_HEADER_TYPE_MASK, (header & CONTAINER_HEADER_LEN_MASK) as usize)
}

/// A count below the limit and a tag without low bits make a header that
/// decodes to both.
pub proof fn lemma_header_round_trip(tag: u32, len: u32)
    requires
        tag == ARRAY_CONTAINER_TAG || tag == OBJECT_CONTAINER_TAG || tag == SCALAR_CONTAINER_TAG,
        len <= CONTAINER_HEADER_LEN_MASK,
    ensures
        header_tag(tag | len) == tag,
        header_len(tag | len) == len,
{
    assert(len <= 0x1FFFFFFF ==> (0x80000000u32 | len) & 0xE0000000 == 0x80000000u32 && (0x80000000u32
        | len) & 0x1FFFFFFF == len) by (bit_vector);
    assert(len <= 0x1FFFFFFF ==> (0x40000000u32 | len) & 0xE0000000 == 0x40000000u32 && (0x40000000u32
        | len) & 0x1FFFFFFF == len) by (bit_vector);
    assert(len <= 0x1FFFFFFF ==> (0x20000000u32 | len) & 0xE0000000 == 0x20000000u32 && (0x20000000u32
        | len) & 0x1FFFFFFF == len) by (bit_vector);
}

/// The descriptor of one element or key: its type and the length of its payload.
#[derive(Debug, Clone, Copy, PartialEq, Eq)]
pub struct JEntry {
    pub type_code: u32,
    pub length: u32,
}

/// Whether `type_code` is one of the six type codes.
pub open spec fn is_type_code(type_code: u32) -> bool {
    type_code == NULL_TAG || type_code == STRING_TAG || type_code == NUMBER_TAG || type_code
        == FALSE_TAG || type_code == TRUE_TAG || type_code == CONTAINER_TAG
}

/// Whether a word read from a JEntry table is accepted: the offset flag is
/// clear and the type code is one of the six.
pub open spec fn valid_jentry_word(w: u32) -> bool {
    w & JENTRY_IS_OFF_FLAG == 0 && is_type_code(w & JENTRY_TYPE_MASK)
}

impl JEntry {
    /// The JEntry that a word stands for.
    pub open spec fn decode_spec(w: u32) -> JEntry {
        JEntry { type_code: w & JENTRY_TYPE_MASK, length: w & JENTRY_OFF_LEN_MASK }
    }

    /// The word that stands for this JEntry.
    pub open spec fn encoded_spec(&self) -> u32 {
        self.type_code | self.length
    }

    /// One of the six type codes, and a length that fits the length field.
    pub open spec fn wf(&self) -> bool {
        is_type_code(self.type_code) && self.length <= JENTRY_OFF_LEN_MASK
    }

    pub fn decode_jentry(encoded: u32) -> (r: JEntry)
        ensures
            r == Self::decode_spec(encoded),
            r.length <= JENTRY_OFF_LEN_MASK,
    {
        assert(encoded & 0x0FFFFFFF <= 0x0FFFFFFF) by (bit_vector);
        JEntry { type_code: encoded & JENTRY_TYPE_MASK, length: encoded & JENTRY_OFF_LEN_MASK }
    }

    pub fn encoded(&self) -> (r: u32)
        ensures
            r == self.encoded_spec(),
    {
        self.type_code | self.length
    }

    pub fn make_null_jentry() -> (r: JEntry)
        ensures
            r == (JEntry { type_code: NULL_TAG, length: 0 }),
    {
        JEntry { type_code: NULL_TAG, length: 0 }
    }

    pub fn make_true_jentry() -> (r: JEntry)
        ensures
            r == (JEntry { type_code: TRUE_TAG, length: 0 }),
    {
        JEntry { type_code: TRUE_TAG, length: 0 }
    }

    pub fn make_false_jentry() -> (r: JEntry)
        ensures
            r == (JEntry { type_code: FALSE_TAG, length: 0 }),
    {
        JEntry { type_code: FALSE_TAG, length: 0 }
    }

    pub fn make_string_jentry(length: usize) -> (r: JEntry)
        requires
            length <= JENTRY_OFF_LEN_MASK,
        ensures
            r == (JEntry { type_code: STRING_TAG, length: length as u32 }),
    {
        JEntry { type_code: STRING_TAG, length: length as u32 }
    }

    pub fn make_number_jentry(length: usize) -> (r: JEntry)
        requires
            length <= JENTRY_OFF_LEN_MASK,
        ensures
            r == (JEntry { type_code: NUMBER_TAG, length: length as u32 }),
    {
        JEntry { type_code: NUMBER_TAG, length: length as u32 }
    }

    pub fn make_container_jentry(length: usize) -> (r: JEntry)
        requires
            length <= JENTRY_OFF_LEN_MASK,
        ensures
            r == (JEntry { type_code: CONTAINER_TAG, length: length as u32 }),
    {
        JEntry { type_code: CONTAINER_TAG, length: length as u32 }
    }

    /// An accepted word decodes to a well-formed JEntry that encodes to the word.
    pub proof fn lemma_decode_valid(w: u32)
        requires
            valid_jentry_word(w),
        ensures
            Self::decode_spec(w).wf(),
            Self::decode_spec(w).encoded_spec() == w,
    {
        assert(w & 0x0FFFFFFF <= 0x0FFFFFFF) by (bit_vector);
        assert(w & 0x80000000 == 0 ==> (w & 0x70000000) | (w & 0x0FFFFFFF) == w) by (bit_vector);
    }

    /// A well-formed JEntry encodes to an accepted word that decodes to it.
    pub proof fn lemma_encode_wf(self)
        requires
            self.wf(),
        ensures
            valid_jentry_word(self.encoded_spec()),
            Self::decode_spec(self.encoded_spec()) == self,
    {
        let t = self.type_code;
        let l = self.length;
        assert(l <= 0x0FFFFFFF && (t == 0 || t == 0x10000000 || t == 0x20000000 || t == 0x30000000 || t
            == 0x40000000 || t == 0x50000000) ==> (t | l) & 0x80000000 == 0 && (t | l) & 0x70000000 == t
            && (t | l) & 0x0FFFFFFF == l) by (bit_vector);
    }
}

/// Whether a word read from a JEntry table is accepted.
pub fn is_valid_jentry_word(w: u32) -> (r: bool)
    ensures
        r == valid_jentry_word(w),
{
    let t = w & JENTRY_TYPE_MASK;
    w & JENTRY_IS_OFF_FLAG == 0 && (t == NULL_TAG || t == STRING_TAG || t == NUMBER_TAG || t
        == FALSE_TAG || t == TRUE_TAG || t == CONTAINER_TAG)
}

} // verus!
