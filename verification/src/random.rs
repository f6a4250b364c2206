//! Values made by chance.

use vstd::prelude::*;
use crate::number::{Number, sort_key};
use crate::text::is_finite_bits;
use crate::value::{
    Value, Member, insert_members, sorted_members, lemma_insert_members, object_from_members,
};

verus! {

/// An unsigned integer from `low` to `high`, both included.
///
/// Calls `rand::Rng::gen_range` on the generator of the thread with the
/// inclusive range, which gives a value of the range and refuses only an
/// empty one.
#[verifier::external_body]
pub(crate) fn rand_u64(low: u64, high: u64) -> (r: u64)
    requires
        low <= high,
    ensures
        low <= r <= high,
{
    rand::Rng::gen_range(&mut rand::thread_rng(), low..=high)
}

/// A signed integer from `low` to `high`, both included.
///
/// Calls `rand::Rng::gen_range` on the generator of the thread with the
/// inclusive range, which gives a value of the range and refuses only an
/// empty one.
#[verifier::external_body]
pub(crate) fn rand_i64(low: i64, high: i64) -> (r: i64)
    requires
        low <= high,
    ensures
        low <= r <= high,
{
    rand::Rng::gen_range(&mut rand::thread_rng(), low..=high)
}

/// A boolean.
///
/// Calls `rand::Rng::gen` on the generator of the thread, which gives
/// either boolean.
#[verifier::external_body]
pub(crate) fn rand_bool() -> (r: bool) {
    rand::Rng::gen::<bool>(&mut rand::thread_rng())
}

/// Whether a character is an ASCII letter or digit.
pub open spec fn is_alphanumeric(c: char) -> bool {
    ('0' <= c && c <= '9') || ('A' <= c && c <= 'Z') || ('a' <= c && c <= 'z')
}

/// A string of `len` ASCII letters and digits.
///
/// Calls `rand::distributions::DistString::sample_string` of
/// `Alphanumeric`, which appends `len` characters of its set of letters and
/// digits to an empty string.
#[verifier::external_body]
pub(crate) fn rand_alphanumeric(len: usize) -> (r: String)
    ensures
        r@.len() == len,
        forall|i: int| 0 <= i < r@.len() ==> is_alphanumeric(#[trigger] r@[i]),
{
    rand::distributions::DistString::sample_string(
        &rand::distributions::Alphanumeric,
        &mut rand::thread_rng(),
        len,
    )
}

/// Whether the double with the bit pattern `bits` is below the greatest
/// binade, so that the difference of two such doubles is finite.
pub open spec fn is_moderate_bits(bits: u64) -> bool {
    (bits / 0x10_0000_0000_0000) % 0x800 < 0x7FE
}

/// The bit pattern of a double from the one with the bit pattern `low` up
/// to, but without, the one with the bit pattern `high`.
///
/// Takes the two doubles from their bytes with
/// `byteorder::ByteOrder::read_f64` and calls `rand::Rng::gen_range` on the
/// generator of the thread with the half-open range, which gives a finite
/// double and refuses a range that is empty or whose width is not finite.
#[verifier::external_body]
pub(crate) fn rand_double(low: u64, high: u64) -> (r: u64)
    requires
        is_moderate_bits(low),
        is_moderate_bits(high),
        sort_key(low) < sort_key(high),
        !(low == 0x8000_0000_0000_0000 && high == 0),
    ensures
        is_finite_bits(r),
{
    let lo = <byteorder::BigEndian as byteorder::ByteOrder>::read_f64(&low.to_be_bytes());
    let hi = <byteorder::BigEndian as byteorder::ByteOrder>::read_f64(&high.to_be_bytes());
    rand::Rng::gen_range(&mut rand::thread_rng(), lo..hi).to_bits()
}

/// What holds of every scalar that `rand_scalar_value` makes: it is null, a
/// boolean, a string of five ASCII letters and digits, or a number: an
/// unsigned integer up to 100000, a signed integer from -100000 to 100000,
/// or a finite double.
pub open spec fn is_rand_scalar(v: Value) -> bool {
    match v {
        Value::Null => true,
        Value::Bool(_) => true,
        Value::String(s) => s@.len() == 5 && forall|i: int|
            0 <= i < s@.len() ==> is_alphanumeric(#[trigger] s@[i]),
        Value::Number(Number::UInt64(n)) => n <= 100000,
        Value::Number(Number::Int64(n)) => -100000 <= n <= 100000,
        Value::Number(Number::Float64(bits)) => is_finite_bits(bits),
        _ => false,
    }
}

/// What holds of every member that `rand_value` makes: its key is five
/// ASCII letters and digits, and its value a scalar.
pub open spec fn is_rand_member(m: Member) -> bool {
    &&& m.key@.len() == 5
    &&& forall|i: int| 0 <= i < m.key@.len() ==> is_alphanumeric(#[trigger] m.key@[i])
    &&& is_rand_scalar(m.value)
}

/// What holds of every value that `rand_value` makes: it is a scalar, an
/// array of up to five scalars, or an object of up to five members, sorted
/// by key.
pub open spec fn is_rand_value(v: Value) -> bool {
    match v {
        Value::Array(vs) => vs@.len() <= 5 && forall|i: int|
            0 <= i < vs@.len() ==> is_rand_scalar(#[trigger] vs@[i]),
        Value::Object(ms) => ms@.len() <= 5 && sorted_members(ms@) && forall|i: int|
            0 <= i < ms@.len() ==> is_rand_member(#[trigger] ms@[i]),
        _ => is_rand_scalar(v),
    }
}

/// A scalar made by chance.
pub fn rand_scalar_value() -> (r: Value)
    ensures
        is_rand_scalar(r),
{
    let kind = scalar_kind(rand_u64(0, 3));
    match kind {
        ScalarKind::Bool => Value::Bool(rand_bool()),
        ScalarKind::String => Value::String(rand_alphanumeric(5)),
        ScalarKind::Number => {
            let which = number_kind(rand_u64(0, 2));
            match which {
                NumberKind::UInt64 => Value::Number(Number::UInt64(rand_u64(0, 100000))),
                NumberKind::Int64 => Value::Number(Number::Int64(rand_i64(-100000, 100000))),
                NumberKind::Float64 => {
                    let bits = rand_double(0xC0AF_4000_0000_0000, 0x40FF_BD00_0000_0000);
                    Value::Number(Number::Float64(bits))
                },
            }
        },
        ScalarKind::Null => Value::Null,
    }
}

/// A value made by chance: an array or an object of up to five scalars, or
/// a scalar.
pub fn rand_value() -> (r: Value)
    ensures
        is_rand_value(r),
{
    match value_kind(rand_u64(0, 2)) {
        ValueKind::Array => {
            let len = rand_u64(0, 5);
            let mut values: Vec<Value> = Vec::new();
            let mut i: u64 = 0;
            while i < len
                invariant
                    i <= len <= 5,
                    values@.len() == i,
                    forall|j: int| 0 <= j < values@.len() ==> is_rand_scalar(#[trigger] values@[j]),
                decreases len - i,
            {
                values.push(rand_scalar_value());
                i = i + 1;
            }
            Value::Array(values)
        },
        ValueKind::Object => {
            let len = rand_u64(0, 5);
            let mut pushes: Vec<Member> = Vec::new();
            let mut i: u64 = 0;
            while i < len
                invariant
                    i <= len <= 5,
                    pushes@.len() == i,
                    forall|j: int| 0 <= j < pushes@.len() ==> is_rand_member(#[trigger] pushes@[j]),
                decreases len - i,
            {
                let key = rand_alphanumeric(5);
                let value = rand_scalar_value();
                pushes.push(Member { key, value });
                i = i + 1;
            }
            proof {
                lemma_insert_members(pushes@);
                let held = insert_members(Seq::empty(), pushes@);
                assert forall|j: int| 0 <= j < held.len() implies is_rand_member(
                    #[trigger] held[j],
                ) by {
                    assert(pushes@.contains(held[j]));
                    let n = choose|n: int| 0 <= n < pushes@.len() && pushes@[n] == held[j];
                    assert(is_rand_member(pushes@[n]));
                }
            }
            object_from_members(pushes)
        },
        ValueKind::Scalar => rand_scalar_value(),
    }
}

/// A kind of scalar.
#[derive(Debug, Clone, Copy, PartialEq, Eq)]
pub enum ScalarKind {
    Bool,
    String,
    Number,
    Null,
}

/// A kind of number.
#[derive(Debug, Clone, Copy, PartialEq, Eq)]
pub enum NumberKind {
    UInt64,
    Int64,
    Float64,
}

/// A kind of value.
#[derive(Debug, Clone, Copy, PartialEq, Eq)]
pub enum ValueKind {
    Array,
    Object,
    Scalar,
}

/// The kind of scalar that a draw stands for: `0` a boolean, `1` a string,
/// `2` a number, and any other draw null.
pub open spec fn scalar_kind_of(draw: u64) -> ScalarKind {
    if draw == 0 {
        ScalarKind::Bool
    } else if draw == 1 {
        ScalarKind::String
    } else if draw == 2 {
        ScalarKind::Number
    } else {
        ScalarKind::Null
    }
}

/// The kind of number that a draw stands for: `0` an unsigned integer, `1`
/// a signed integer, and any other draw a double.
pub open spec fn number_kind_of(draw: u64) -> NumberKind {
    if draw == 0 {
        NumberKind::UInt64
    } else if draw == 1 {
        NumberKind::Int64
    } else {
        NumberKind::Float64
    }
}

/// The kind of value that a draw stands for: `0` an array, `1` an object,
/// and any other draw a scalar.
pub open spec fn value_kind_of(draw: u64) -> ValueKind {
    if draw == 0 {
        ValueKind::Array
    } else if draw == 1 {
        ValueKind::Object
    } else {
        ValueKind::Scalar
    }
}

/// The kind of scalar that a draw stands for.
pub fn scalar_kind(draw: u64) -> (r: ScalarKind)
    ensures
        r == scalar_kind_of(draw),
{
    if draw == 0 {
        ScalarKind::Bool
    } else if draw == 1 {
        ScalarKind::String
    } else if draw == 2 {
        ScalarKind::Number
    } else {
        ScalarKind::Null
    }
}

/// The kind of number that a draw stands for.
pub fn number_kind(draw: u64) -> (r: NumberKind)
    ensures
        r == number_kind_of(draw),
{
    if draw == 0 {
        NumberKind::UInt64
    } else if draw == 1 {
        NumberKind::Int64
    } else {
        NumberKind::Float64
    }
}

/// The kind of value that a draw stands for.
pub fn value_kind(draw: u64) -> (r: ValueKind)
    ensures
        r == value_kind_of(draw),
{
    if draw == 0 {
        ValueKind::Array
    } else if draw == 1 {
        ValueKind::Object
    } else {
        ValueKind::Scalar
    }
}

} // verus!
