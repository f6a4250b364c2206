//! Numbers: their payload on the wire, their order and their text.

use vstd::prelude::*;
use vstd::arithmetic::power2::{
    pow2, lemma_pow2_unfold, lemma_pow2_adds, lemma_pow2_strictly_increases, lemma2_to64,
    lemma2_to64_rest,
};
use crate::error::Error;
use crate::bytes::{Order, int_order};
use crate::codec::{be_bytes, word_at, read_u32, put_u32, lemma_word_of_be_bytes};
use crate::constants::{
    NUMBER_ZERO, NUMBER_NAN, NUMBER_INF, NUMBER_NEG_INF, NUMBER_INT, NUMBER_UINT, NUMBER_FLOAT,
};

verus! {

/// The bit pattern of the double that is not a number.
pub const NAN_BITS: u64 = 0x7FF8000000000000;

/// The bit pattern of the double plus infinity.
pub const INF_BITS: u64 = 0x7FF0000000000000;

/// The bit pattern of the double minus infinity.
pub const NEG_INF_BITS: u64 = 0xFFF0000000000000;

/// A number: a signed or an unsigned integer, or a double given by its
/// IEEE-754 bit pattern.
#[derive(Debug, Clone, Copy, PartialEq, Eq)]
pub enum Number {
    Int64(i64),
    UInt64(u64),
    Float64(u64),
}

/// The eight bytes of `v`, most significant first.
pub open spec fn be_bytes64(v: u64) -> Seq<u8> {
    be_bytes((v / 0x1_0000_0000) as u32) + be_bytes((v % 0x1_0000_0000) as u32)
}

/// The big-endian 64-bit word that starts at position `i` of `s`.
pub open spec fn word64_at(s: Seq<u8>, i: int) -> u64 {
    (word_at(s, i) as int * 0x1_0000_0000 + word_at(s, i + 4) as int) as u64
}

/// The signed integer with the two's complement bit pattern `x`.
pub open spec fn signed_of(x: u64) -> i64 {
    if x < 0x8000_0000_0000_0000 {
        x as i64
    } else {
        (x - 0x1_0000_0000_0000_0000) as i64
    }
}

/// The two's complement bit pattern of `v`.
pub open spec fn unsigned_of(v: i64) -> u64 {
    if v >= 0 {
        v as u64
    } else {
        (v + 0x1_0000_0000_0000_0000) as u64
    }
}

/// The number that a payload holds: a type byte, then nothing or eight bytes.
pub open spec fn decode_number(s: Seq<u8>) -> Result<Number, Error> {
    if s.len() == 1 && s[0] == NUMBER_ZERO {
        Ok(Number::UInt64(0))
    } else if s.len() == 1 && s[0] == NUMBER_NAN {
        Ok(Number::Float64(NAN_BITS))
    } else if s.len() == 1 && s[0] == NUMBER_INF {
        Ok(Number::Float64(INF_BITS))
    } else if s.len() == 1 && s[0] == NUMBER_NEG_INF {
        Ok(Number::Float64(NEG_INF_BITS))
    } else if s.len() == 9 && s[0] == NUMBER_INT {
        Ok(Number::Int64(signed_of(word64_at(s, 1))))
    } else if s.len() == 9 && s[0] == NUMBER_UINT {
        Ok(Number::UInt64(word64_at(s, 1)))
    } else if s.len() == 9 && s[0] == NUMBER_FLOAT {
        Ok(Number::Float64(word64_at(s, 1)))
    } else {
        Err(Error::InvalidNumber)
    }
}

/// The payload of a number: the unsigned zero is the type byte alone, every
/// other number its type byte and eight bytes.
pub open spec fn encode_number(n: Number) -> Seq<u8> {
    match n {
        Number::UInt64(v) => if v == 0 {
            seq![NUMBER_ZERO]
        } else {
            seq![NUMBER_UINT] + be_bytes64(v)
        },
        Number::Int64(v) => seq![NUMBER_INT] + be_bytes64(unsigned_of(v)),
        Number::Float64(bits) => seq![NUMBER_FLOAT] + be_bytes64(bits),
    }
}

/// Reading back the bytes of a 64-bit word gives the word.
pub proof fn lemma_word64_of_be_bytes(v: u64, pre: Seq<u8>)
    ensures
        be_bytes64(v).len() == 8,
        word64_at(pre + be_bytes64(v), pre.len() as int) == v,
{
    let hi = (v / 0x1_0000_0000) as u32;
    let lo = (v % 0x1_0000_0000) as u32;
    lemma_word_of_be_bytes(hi);
    lemma_word_of_be_bytes(lo);
    let s = pre + be_bytes64(v);
    let p = pre.len() as int;
    assert(s.subrange(p, p + 4) =~= be_bytes(hi));
    assert(s.subrange(p + 4, p + 8) =~= be_bytes(lo));
    assert(word_at(s, p) == word_at(be_bytes(hi), 0)) by {
        assert(s[p] == be_bytes(hi)[0] && s[p + 1] == be_bytes(hi)[1] && s[p + 2] == be_bytes(hi)[2]
            && s[p + 3] == be_bytes(hi)[3]);
    }
    assert(word_at(s, p + 4) == word_at(be_bytes(lo), 0)) by {
        assert(s[p + 4] == be_bytes(lo)[0] && s[p + 5] == be_bytes(lo)[1] && s[p + 6] == be_bytes(
            lo,
        )[2] && s[p + 7] == be_bytes(lo)[3]);
    }
}

/// A number that is written and read back is the same number.
pub proof fn lemma_number_round_trip(n: Number)
    ensures
        decode_number(encode_number(n)) == Ok::<Number, Error>(n),
{
    match n {
        Number::UInt64(v) => {
            if v != 0 {
                lemma_word64_of_be_bytes(v, seq![NUMBER_UINT]);
            }
        },
        Number::Int64(v) => {
            lemma_word64_of_be_bytes(unsigned_of(v), seq![NUMBER_INT]);
        },
        Number::Float64(bits) => {
            lemma_word64_of_be_bytes(bits, seq![NUMBER_FLOAT]);
        },
    }
}

/// Reads a big-endian 64-bit word at `idx`.
pub fn read_u64(buf: &[u8], idx: usize) -> (r: u64)
    requires
        idx + 8 <= buf@.len(),
    ensures
        r == word64_at(buf@, idx as int),
{
    assert(idx + 8 <= buf.len());
    let hi = match read_u32(buf, idx) {
        Ok(w) => w,
        Err(_) => 0,
    };
    let lo = match read_u32(buf, idx + 4) {
        Ok(w) => w,
        Err(_) => 0,
    };
    (hi as u64) * 0x1_0000_0000 + (lo as u64)
}

/// Appends the eight bytes of `v`, most significant first.
pub fn put_u64(buf: &mut Vec<u8>, v: u64)
    ensures
        final(buf)@ == old(buf)@ + be_bytes64(v),
{
    put_u32(buf, (v / 0x1_0000_0000) as u32);
    put_u32(buf, (v % 0x1_0000_0000) as u32);
    assert(buf@ =~= old(buf)@ + be_bytes64(v));
}

/// The signed integer with the two's complement bit pattern `x`.
pub fn to_signed(x: u64) -> (r: i64)
    ensures
        r == signed_of(x),
{
    if x < 0x8000_0000_0000_0000 {
        x as i64
    } else {
        ((x - 0x8000_0000_0000_0000) as i64) + i64::MIN
    }
}

/// The two's complement bit pattern of `v`.
pub fn to_unsigned(v: i64) -> (r: u64)
    ensures
        r == unsigned_of(v),
{
    if v >= 0 {
        v as u64
    } else {
        ((v - i64::MIN) as u64) + 0x8000_0000_0000_0000
    }
}

impl Number {
    /// Reads a number from its payload.
    pub fn decode(bytes: &[u8]) -> (r: Result<Number, Error>)
        ensures
            r == decode_number(bytes@),
    {
        if bytes.len() == 1 {
            let ty = bytes[0];
            if ty == NUMBER_ZERO {
                Ok(Number::UInt64(0))
            } else if ty == NUMBER_NAN {
                Ok(Number::Float64(NAN_BITS))
            } else if ty == NUMBER_INF {
                Ok(Number::Float64(INF_BITS))
            } else if ty == NUMBER_NEG_INF {
                Ok(Number::Float64(NEG_INF_BITS))
            } else {
                Err(Error::InvalidNumber)
            }
        } else if bytes.len() == 9 {
            let ty = bytes[0];
            if ty == NUMBER_INT {
                Ok(Number::Int64(to_signed(read_u64(bytes, 1))))
            } else if ty == NUMBER_UINT {
                Ok(Number::UInt64(read_u64(bytes, 1)))
            } else if ty == NUMBER_FLOAT {
                Ok(Number::Float64(read_u64(bytes, 1)))
            } else {
                Err(Error::InvalidNumber)
            }
        } else {
            Err(Error::InvalidNumber)
        }
    }

    /// Writes the payload of the number after the bytes that `buf` holds.
    pub fn encode_into(&self, buf: &mut Vec<u8>)
        ensures
            final(buf)@ == old(buf)@ + encode_number(*self),
    {
        match self {
            Number::UInt64(v) => {
                if *v == 0 {
                    buf.push(NUMBER_ZERO);
                } else {
                    buf.push(NUMBER_UINT);
                    put_u64(buf, *v);
                }
            },
            Number::Int64(v) => {
                buf.push(NUMBER_INT);
                put_u64(buf, to_unsigned(*v));
            },
            Number::Float64(bits) => {
                buf.push(NUMBER_FLOAT);
                put_u64(buf, *bits);
            },
        }
        assert(buf@ =~= old(buf)@ + encode_number(*self));
    }

    /// The payload of the number.
    pub fn encode(&self) -> (r: Vec<u8>)
        ensures
            r@ == encode_number(*self),
    {
        let mut buf: Vec<u8> = Vec::new();
        self.encode_into(&mut buf);
        assert(buf@ =~= encode_number(*self));
        buf
    }

    /// The number as a signed integer, where it is an integer in that range.
    pub open spec fn as_i64_spec(&self) -> Option<i64> {
        match self {
            Number::Int64(v) => Some(*v),
            Number::UInt64(v) => if *v <= i64::MAX as u64 {
                Some(*v as i64)
            } else {
                None
            },
            Number::Float64(_) => None,
        }
    }

    /// The number as an unsigned integer, where it is an integer in that range.
    pub open spec fn as_u64_spec(&self) -> Option<u64> {
        match self {
            Number::Int64(v) => if *v >= 0 {
                Some(*v as u64)
            } else {
                None
            },
            Number::UInt64(v) => Some(*v),
            Number::Float64(_) => None,
        }
    }

    pub fn as_i64(&self) -> (r: Option<i64>)
        ensures
            r == self.as_i64_spec(),
    {
        match self {
            Number::Int64(v) => Some(*v),
            Number::UInt64(v) => if *v <= i64::MAX as u64 {
                Some(*v as i64)
            } else {
                None
            },
            Number::Float64(_) => None,
        }
    }

    pub fn as_u64(&self) -> (r: Option<u64>)
        ensures
            r == self.as_u64_spec(),
    {
        match self {
            Number::Int64(v) => if *v >= 0 {
                Some(*v as u64)
            } else {
                None
            },
            Number::UInt64(v) => Some(*v),
            Number::Float64(_) => None,
        }
    }
}

/// The position of the highest set bit of `m`.
pub open spec fn top_bit(m: nat) -> nat
    decreases m,
{
    if m <= 1 {
        0
    } else {
        1 + top_bit(m / 2)
    }
}

/// The bit pattern of the double nearest to the integer `m`, which of two
/// nearest doubles is the one with an even mantissa.
///
/// With `e` the position of the highest bit, the exponent field is
/// `1023 + e`. Up to `e == 52` the mantissa holds the lower bits of `m`
/// as they are. Above, `m` is divided by the weight of the lowest mantissa
/// bit and the quotient rounded; a carry out of the mantissa raises the
/// exponent.
pub open spec fn double_of_nat(m: nat) -> u64 {
    if m == 0 {
        0
    } else {
        let e = top_bit(m);
        if e <= 52 {
            ((1023 + e) * pow2(52) + (m * pow2((52 - e) as nat) - pow2(52))) as u64
        } else {
            let unit = pow2((e - 52) as nat);
            let q = m / unit;
            let r = m % unit;
            let up: int = if 2 * r > unit || (2 * r == unit && q % 2 == 1) {
                1
            } else {
                0
            };
            ((1023 + e) * pow2(52) + (q - pow2(52)) + up) as u64
        }
    }
}

/// The bit pattern of the double nearest to an integer.
pub open spec fn double_of_int(v: int) -> u64 {
    if v >= 0 {
        double_of_nat(v as nat)
    } else {
        (0x8000_0000_0000_0000 + double_of_nat((-v) as nat)) as u64
    }
}

/// The integer by which a double is ordered: doubles in ascending order,
/// from the negative ones over minus zero and plus zero to the positive
/// ones, have ascending keys.
pub open spec fn sort_key(bits: u64) -> u64 {
    if bits >= 0x8000_0000_0000_0000 {
        (0xFFFF_FFFF_FFFF_FFFF - bits) as u64
    } else {
        (bits + 0x8000_0000_0000_0000) as u64
    }
}

impl Number {
    /// The bit pattern of the number as a double.
    pub open spec fn double_bits(self) -> u64 {
        match self {
            Number::Int64(v) => double_of_int(v as int),
            Number::UInt64(v) => double_of_nat(v as nat),
            Number::Float64(bits) => bits,
        }
    }

    /// The integer by which the number is ordered.
    pub open spec fn order_key(self) -> u64 {
        sort_key(self.double_bits())
    }

    /// The order of two numbers: that of their values as doubles.
    pub open spec fn order_spec(self, other: Number) -> Order {
        int_order(self.order_key() as int, other.order_key() as int)
    }
}

/// `2` to the power `n`.
fn pow2_exec(n: u64) -> (r: u64)
    requires
        n <= 63,
    ensures
        r == pow2(n as nat),
{
    let mut r: u64 = 1;
    let mut i: u64 = 0;
    proof {
        lemma2_to64();
    }
    while i < n
        invariant
            i <= n <= 63,
            r == pow2(i as nat),
        decreases n - i,
    {
        proof {
            lemma_pow2_unfold((i + 1) as nat);
            lemma_pow2_strictly_increases((i + 1) as nat, 64);
            lemma2_to64();
            lemma2_to64_rest();
        }
        r = r * 2;
        i = i + 1;
    }
    r
}

/// The highest set bit of `m` and its weight.
fn highest_bit(m: u64) -> (r: (u64, u64))
    requires
        m > 0,
    ensures
        r.0 == top_bit(m as nat),
        r.0 <= 63,
        r.1 == pow2(r.0 as nat),
        r.1 <= m,
        m < 2 * r.1,
{
    let mut e: u64 = 0;
    let mut p: u64 = 1;
    let mut t: u64 = m;
    proof {
        lemma2_to64();
    }
    while t > 1
        invariant
            t >= 1,
            p >= 1,
            p == pow2(e as nat),
            p * t <= m,
            m < p * (t + 1),
            top_bit(m as nat) == e + top_bit(t as nat),
            e <= 63,
        decreases t,
    {
        proof {
            lemma_pow2_unfold((e + 1) as nat);
            let h = (t / 2) as int;
            assert(2 * p * h <= m && m < 2 * p * (h + 1)) by (nonlinear_arith)
                requires
                    p * t <= m,
                    m < p * (t + 1),
                    2 * h <= t,
                    t <= 2 * h + 1,
                    p >= 1,
            ;
            assert(2 * p <= m) by (nonlinear_arith)
                requires
                    2 * p * h <= m,
                    h >= 1,
                    p >= 1,
            ;
            lemma2_to64_rest();
            if e + 1 >= 64 {
                if e + 1 > 64 {
                    lemma_pow2_strictly_increases(64, (e + 1) as nat);
                }
            }
        }
        t = t / 2;
        p = p * 2;
        e = e + 1;
    }
    proof {
        assert(p * 1 == p) by (nonlinear_arith);
        assert(p * 2 == 2 * p) by (nonlinear_arith);
    }
    (e, p)
}

/// The bit pattern of the double nearest to `m`.
pub fn promote_unsigned(m: u64) -> (r: u64)
    ensures
        r == double_of_nat(m as nat),
        r < 0x8000_0000_0000_0000,
{
    if m == 0 {
        return 0;
    }
    let (e, p) = highest_bit(m);
    proof {
        lemma2_to64();
        lemma2_to64_rest();
    }
    let base: u64 = 0x10_0000_0000_0000;
    assert(base == pow2(52));
    if e <= 52 {
        let scale = pow2_exec(52 - e);
        proof {
            lemma_pow2_adds(e as nat, (52 - e) as nat);
            assert(m * scale >= base && m * scale < 2 * base) by (nonlinear_arith)
                requires
                    p <= m,
                    m < 2 * p,
                    p * scale == base,
                    scale >= 1,
            ;
            assert((1023 + e) * base <= 1075 * base) by (nonlinear_arith)
                requires
                    e <= 52,
                    base >= 0,
            ;
        }
        (1023 + e) * base + (m * scale - base)
    } else {
        let unit = pow2_exec(e - 52);
        proof {
            lemma_pow2_adds((e - 52) as nat, 52);
            lemma_pow2_strictly_increases((e - 52) as nat, 12);
            assert(m / unit >= base && m / unit < 2 * base) by (nonlinear_arith)
                requires
                    p <= m,
                    m < 2 * p,
                    unit * base == p,
                    unit >= 1,
            ;
            assert((1023 + e) * base <= 1086 * base) by (nonlinear_arith)
                requires
                    e <= 63,
                    base >= 0,
            ;
        }
        let q = m / unit;
        let rem = m % unit;
        let up: u64 = if 2 * rem > unit || (2 * rem == unit && q % 2 == 1) {
            1
        } else {
            0
        };
        (1023 + e) * base + (q - base) + up
    }
}

/// The bit pattern of the double nearest to `v`.
pub fn promote_signed(v: i64) -> (r: u64)
    ensures
        r == double_of_int(v as int),
{
    if v >= 0 {
        promote_unsigned(v as u64)
    } else {
        let m: u64 = ((-(v + 1)) as u64) + 1;
        0x8000_0000_0000_0000 + promote_unsigned(m)
    }
}

/// The integer by which a double is ordered.
pub fn sort_key_of(bits: u64) -> (r: u64)
    ensures
        r == sort_key(bits),
{
    if bits >= 0x8000_0000_0000_0000 {
        0xFFFF_FFFF_FFFF_FFFF - bits
    } else {
        bits + 0x8000_0000_0000_0000
    }
}

impl Number {
    /// The bit pattern of the number as a double.
    pub fn to_double_bits(&self) -> (r: u64)
        ensures
            r == self.double_bits(),
    {
        match self {
            Number::Int64(v) => promote_signed(*v),
            Number::UInt64(v) => promote_unsigned(*v),
            Number::Float64(bits) => *bits,
        }
    }

    /// The order of two numbers: that of their values as doubles.
    pub fn order(&self, other: &Number) -> (r: Order)
        ensures
            r == self.order_spec(*other),
    {
        let l = sort_key_of(self.to_double_bits());
        let r = sort_key_of(other.to_double_bits());
        if l < r {
            Order::Less
        } else if l == r {
            Order::Equal
        } else {
            Order::Greater
        }
    }
}

} // verus!
