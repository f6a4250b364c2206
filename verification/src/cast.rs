//! Casts of a value to a boolean, an integer or a string.

use vstd::prelude::*;
use vstd::utf8::{valid_utf8, decode_utf8};
use crate::error::Error;
use crate::raw::RawJsonb;
use crate::access::{as_bool_spec, as_str_spec, as_i64_spec, as_u64_spec, as_number_spec};
use crate::bytes::{same_ignoring_ascii_case, eq_ignore_ascii_case};
use crate::text::{
    true_text, false_text, number_text, push_true, push_false, push_number_text, lossy_string,
    lossy_text,
};

verus! {

/// Whether every byte of `s` is a decimal digit.
pub open spec fn all_digits(s: Seq<u8>) -> bool {
    forall|i: int| 0 <= i < s.len() ==> 0x30 <= #[trigger] s[i] <= 0x39
}

/// The number that decimal digits stand for.
pub open spec fn digits_value(s: Seq<u8>) -> nat
    decreases s.len(),
{
    if s.len() == 0 {
        0
    } else {
        digits_value(s.drop_last()) * 10 + (s.last() - 0x30) as nat
    }
}

/// The unsigned integer that a text stands for: one or more decimal digits,
/// with or without a plus sign in front, that stay in range.
pub open spec fn parse_u64_spec(s: Seq<u8>) -> Option<u64> {
    let body = if s.len() > 0 && s[0] == 0x2B {
        s.skip(1)
    } else {
        s
    };
    if body.len() > 0 && all_digits(body) && digits_value(body) <= u64::MAX {
        Some(digits_value(body) as u64)
    } else {
        None
    }
}

/// The signed integer that a text stands for: one or more decimal digits,
/// with or without a plus or a minus sign in front, that stay in range.
pub open spec fn parse_i64_spec(s: Seq<u8>) -> Option<i64> {
    let negative = s.len() > 0 && s[0] == 0x2D;
    let body = if s.len() > 0 && (s[0] == 0x2B || s[0] == 0x2D) {
        s.skip(1)
    } else {
        s
    };
    if body.len() > 0 && all_digits(body) {
        if negative {
            if digits_value(body) <= 0x8000_0000_0000_0000 {
                Some((-(digits_value(body) as int)) as i64)
            } else {
                None
            }
        } else if digits_value(body) <= i64::MAX {
            Some(digits_value(body) as i64)
        } else {
            None
        }
    } else {
        None
    }
}

/// The number that a front part of decimal digits stands for is no greater
/// than the number of them all.
pub proof fn lemma_digits_value_prefix(s: Seq<u8>, i: int)
    requires
        0 <= i <= s.len(),
    ensures
        digits_value(s.take(i)) <= digits_value(s),
    decreases s.len() - i,
{
    if i < s.len() {
        lemma_digits_value_prefix(s, i + 1);
        assert(s.take(i + 1).drop_last() =~= s.take(i));
        assert(digits_value(s.take(i)) <= digits_value(s.take(i + 1))) by (nonlinear_arith)
            requires
                digits_value(s.take(i + 1)) == digits_value(s.take(i)) * 10 + (s.take(i + 1).last()
                    - 0x30) as nat,
        ;
    } else {
        assert(s.take(i) =~= s);
    }
}

/// The number that the decimal digits `s[from..]` stand for, where they are
/// digits and the number is at most `limit`.
pub fn parse_digits(s: &[u8], from: usize, limit: u64) -> (r: Option<u64>)
    requires
        from <= s@.len(),
        limit >= 9,
    ensures
        r == (if s@.skip(from as int).len() > 0 && all_digits(s@.skip(from as int)) && digits_value(
            s@.skip(from as int),
        ) <= limit {
            Some(digits_value(s@.skip(from as int)) as u64)
        } else {
            None
        }),
{
    let ghost body = s@.skip(from as int);
    if from == s.len() {
        return None;
    }
    let mut acc: u64 = 0;
    let mut i: usize = from;
    proof {
        assert(body.take(0) =~= Seq::<u8>::empty());
    }
    while i < s.len()
        invariant
            from <= i <= s@.len(),
            body == s@.skip(from as int),
            all_digits(body.take(i - from)),
            acc == digits_value(body.take(i - from)),
            acc <= limit,
            limit >= 9,
        decreases s@.len() - i,
    {
        let b = s[i];
        proof {
            assert(body[i - from] == b);
            assert(body.take(i - from + 1).drop_last() =~= body.take(i - from));
            assert(body.take(i - from + 1).last() == b);
        }
        if b < 0x30 || b > 0x39 {
            assert(!all_digits(body));
            return None;
        }
        let d: u64 = (b - 0x30) as u64;
        proof {
            lemma_digits_value_prefix(body, i - from + 1);
            assert forall|j: int| 0 <= j < body.take(i - from + 1).len() implies 0x30
                <= #[trigger] body.take(i - from + 1)[j] <= 0x39 by {
                if j < i - from {
                    assert(body.take(i - from)[j] == body.take(i - from + 1)[j]);
                }
            }
        }
        if acc > (limit - d) / 10 {
            proof {
                assert(acc * 10 + d > limit) by (nonlinear_arith)
                    requires
                        acc > (limit - d) / 10,
                        d <= limit,
                        acc <= limit,
                ;
            }
            return None;
        }
        proof {
            assert(acc * 10 + d <= limit) by (nonlinear_arith)
                requires
                    acc <= (limit - d) / 10,
                    d <= limit,
            ;
        }
        acc = acc * 10 + d;
        i = i + 1;
    }
    proof {
        assert(body.take(i - from) =~= body);
    }
    Some(acc)
}

/// The unsigned integer that a text stands for.
pub fn parse_u64(s: &[u8]) -> (r: Option<u64>)
    ensures
        r == parse_u64_spec(s@),
{
    let from: usize = if s.len() > 0 && s[0] == 0x2B {
        1
    } else {
        0
    };
    proof {
        assert(s@.skip(0) =~= s@);
    }
    parse_digits(s, from, u64::MAX)
}

/// The signed integer that a text stands for.
pub fn parse_i64(s: &[u8]) -> (r: Option<i64>)
    ensures
        r == parse_i64_spec(s@),
{
    let negative = s.len() > 0 && s[0] == 0x2D;
    let from: usize = if s.len() > 0 && (s[0] == 0x2B || s[0] == 0x2D) {
        1
    } else {
        0
    };
    proof {
        assert(s@.skip(0) =~= s@);
    }
    if negative {
        match parse_digits(s, from, 0x8000_0000_0000_0000) {
            Some(m) => {
                if m == 0x8000_0000_0000_0000 {
                    Some(i64::MIN)
                } else {
                    Some(-(m as i64))
                }
            },
            None => None,
        }
    } else {
        match parse_digits(s, from, i64::MAX as u64) {
            Some(m) => Some(m as i64),
            None => None,
        }
    }
}

/// The boolean that the bytes of a string stand for: `true` or `false`,
/// in letters of either case.
pub open spec fn bool_of_text(data: Seq<u8>) -> Option<bool> {
    if same_ignoring_ascii_case(data, true_text()) {
        Some(true)
    } else if same_ignoring_ascii_case(data, false_text()) {
        Some(false)
    } else {
        None
    }
}

/// The boolean that the bytes of a string stand for.
pub fn text_to_bool(data: &[u8]) -> (r: Option<bool>)
    ensures
        r == bool_of_text(data@),
{
    let mut t: Vec<u8> = Vec::new();
    push_true(&mut t);
    let mut f: Vec<u8> = Vec::new();
    push_false(&mut f);
    proof {
        assert(t@ =~= true_text());
        assert(f@ =~= false_text());
    }
    if eq_ignore_ascii_case(data, t.as_slice()) {
        Some(true)
    } else if eq_ignore_ascii_case(data, f.as_slice()) {
        Some(false)
    } else {
        None
    }
}

/// What the cast to a boolean gives: a boolean itself, or the boolean that
/// a string stands for. Every other value gives `InvalidCast`.
pub open spec fn to_bool_spec(s: Seq<u8>) -> Result<bool, Error> {
    match as_bool_spec(s) {
        Err(e) => Err(e),
        Ok(Some(v)) => Ok(v),
        Ok(None) => match as_str_spec(s) {
            Err(e) => Err(e),
            Ok(Some(data)) => match bool_of_text(data) {
                Some(v) => Ok(v),
                None => Err(Error::InvalidCast),
            },
            Ok(None) => Err(Error::InvalidCast),
        },
    }
}

/// What the cast to a signed integer gives: an integer in range itself, `1`
/// and `0` for true and false, or the integer that a string stands for.
/// Every other value gives `InvalidCast`.
pub open spec fn to_i64_spec(s: Seq<u8>) -> Result<i64, Error> {
    match as_i64_spec(s) {
        Err(e) => Err(e),
        Ok(Some(v)) => Ok(v),
        Ok(None) => match as_bool_spec(s) {
            Err(e) => Err(e),
            Ok(Some(v)) => Ok(
                if v {
                    1i64
                } else {
                    0i64
                },
            ),
            Ok(None) => match as_str_spec(s) {
                Err(e) => Err(e),
                Ok(Some(data)) => match parse_i64_spec(data) {
                    Some(v) => Ok(v),
                    None => Err(Error::InvalidCast),
                },
                Ok(None) => Err(Error::InvalidCast),
            },
        },
    }
}

/// What the cast to an unsigned integer gives: an integer in range itself,
/// `1` and `0` for true and false, or the integer that a string stands for.
/// Every other value gives `InvalidCast`.
pub open spec fn to_u64_spec(s: Seq<u8>) -> Result<u64, Error> {
    match as_u64_spec(s) {
        Err(e) => Err(e),
        Ok(Some(v)) => Ok(v),
        Ok(None) => match as_bool_spec(s) {
            Err(e) => Err(e),
            Ok(Some(v)) => Ok(
                if v {
                    1u64
                } else {
                    0u64
                },
            ),
            Ok(None) => match as_str_spec(s) {
                Err(e) => Err(e),
                Ok(Some(data)) => match parse_u64_spec(data) {
                    Some(v) => Ok(v),
                    None => Err(Error::InvalidCast),
                },
                Ok(None) => Err(Error::InvalidCast),
            },
        },
    }
}

/// The bytes of what the cast to a string gives: the bytes of a string
/// itself, `true` or `false` for a boolean, and the text of a number.
/// Every other value gives `InvalidCast`.
pub open spec fn to_str_spec(s: Seq<u8>) -> Result<Seq<u8>, Error> {
    match as_str_spec(s) {
        Err(e) => Err(e),
        Ok(Some(data)) => Ok(data),
        Ok(None) => match as_bool_spec(s) {
            Err(e) => Err(e),
            Ok(Some(v)) => Ok(
                if v {
                    true_text()
                } else {
                    false_text()
                },
            ),
            Ok(None) => match as_number_spec(s) {
                Err(e) => Err(e),
                Ok(Some(n)) => Ok(number_text(n)),
                Ok(None) => Err(Error::InvalidCast),
            },
        },
    }
}

impl<'a> RawJsonb<'a> {
    /// The string that the value is, with the replacement character in
    /// place of what is not UTF-8.
    pub fn as_str(&self) -> (r: Result<Option<String>, Error>)
        ensures
            match as_str_spec(self@) {
                Ok(Some(data)) => r is Ok && r->Ok_0 is Some && r->Ok_0->Some_0@ == lossy_text(data)
                    && (valid_utf8(data) ==> r->Ok_0->Some_0@ == decode_utf8(data)),
                Ok(None) => r is Ok && r->Ok_0 is None,
                Err(e) => r == Err::<Option<String>, Error>(e),
            },
    {
        match self.as_str_bytes()? {
            Some(data) => Ok(Some(lossy_string(data))),
            None => Ok(None),
        }
    }

    /// Casts the value to a boolean.
    pub fn to_bool(&self) -> (r: Result<bool, Error>)
        ensures
            r == to_bool_spec(self@),
    {
        if let Some(v) = self.as_bool()? {
            return Ok(v);
        }
        if let Some(data) = self.as_str_bytes()? {
            if let Some(v) = text_to_bool(data) {
                return Ok(v);
            }
        }
        Err(Error::InvalidCast)
    }

    /// Casts the value to a signed integer.
    pub fn to_i64(&self) -> (r: Result<i64, Error>)
        ensures
            r == to_i64_spec(self@),
    {
        if let Some(v) = self.as_i64()? {
            return Ok(v);
        }
        if let Some(v) = self.as_bool()? {
            return Ok(
                if v {
                    1
                } else {
                    0
                },
            );
        }
        if let Some(data) = self.as_str_bytes()? {
            if let Some(v) = parse_i64(data) {
                return Ok(v);
            }
        }
        Err(Error::InvalidCast)
    }

    /// Casts the value to an unsigned integer.
    pub fn to_u64(&self) -> (r: Result<u64, Error>)
        ensures
            r == to_u64_spec(self@),
    {
        if let Some(v) = self.as_u64()? {
            return Ok(v);
        }
        if let Some(v) = self.as_bool()? {
            return Ok(
                if v {
                    1
                } else {
                    0
                },
            );
        }
        if let Some(data) = self.as_str_bytes()? {
            if let Some(v) = parse_u64(data) {
                return Ok(v);
            }
        }
        Err(Error::InvalidCast)
    }

    /// Casts the value to a string.
    pub fn to_str(&self) -> (r: Result<String, Error>)
        ensures
            match to_str_spec(self@) {
                Ok(bytes) => r is Ok && r->Ok_0@ == lossy_text(bytes) && (valid_utf8(bytes) ==> r->Ok_0@
                    == decode_utf8(bytes)),
                Err(e) => r == Err::<String, Error>(e),
            },
    {
        if let Some(data) = self.as_str_bytes()? {
            return Ok(lossy_string(data));
        }
        let mut buf: Vec<u8> = Vec::new();
        if let Some(v) = self.as_bool()? {
            if v {
                push_true(&mut buf);
            } else {
                push_false(&mut buf);
            }
            proof {
                assert(buf@ =~= to_str_spec(self@)->Ok_0);
            }
            return Ok(lossy_string(buf.as_slice()));
        }
        if let Some(n) = self.as_number()? {
            push_number_text(&mut buf, &n);
            proof {
                assert(buf@ =~= number_text(n));
            }
            return Ok(lossy_string(buf.as_slice()));
        }
        Err(Error::InvalidCast)
    }
}

} // verus!
