//! Reading the text of a path.

use vstd::prelude::*;
use vstd::slice::{slice_subrange, slice_to_vec};
use crate::error::Error;
use crate::cast::{digits_value, parse_digits};
use crate::parser::{
    is_digit, skip_ws, digits_end, has_at, skip_spaces, skip_digits, starts_with_at,
    lemma_digits_end, double_literal, nom_double,
};
use crate::bytes::{same_ignoring_ascii_case, eq_ignore_ascii_case};
use crate::jsonpath::path::{
    BinaryOperator, PathValue, Path, Expr, JsonPath, ValueTerm, Step, Term, steps_view,
    lemma_steps_view_push, names_view,
};

verus! {

/// Whether a byte is a letter or a digit.
pub open spec fn is_alnum(c: u8) -> bool {
    (0x30 <= c <= 0x39) || (0x41 <= c <= 0x5A) || (0x61 <= c <= 0x7A)
}

/// The first position from `pos` on that holds neither a letter nor a digit.
pub open spec fn ident_end(text: Seq<u8>, pos: int) -> int
    decreases text.len() - pos,
{
    if 0 <= pos < text.len() && is_alnum(text[pos]) {
        ident_end(text, pos + 1)
    } else {
        pos
    }
}

/// A name ends in the text, at or behind where it starts.
pub proof fn lemma_ident_end(text: Seq<u8>, pos: int)
    requires
        0 <= pos <= text.len(),
    ensures
        pos <= ident_end(text, pos) <= text.len(),
    decreases text.len() - pos,
{
    if pos < text.len() && is_alnum(text[pos]) {
        lemma_ident_end(text, pos + 1);
    }
}

/// Skips letters and digits.
pub fn skip_ident(text: &[u8], pos: usize) -> (r: usize)
    requires
        pos <= text@.len(),
    ensures
        r == ident_end(text@, pos as int),
        pos <= r <= text@.len(),
{
    let mut p = pos;
    proof {
        lemma_ident_end(text@, pos as int);
    }
    while p < text.len() && ((0x30 <= text[p] && text[p] <= 0x39) || (0x41 <= text[p] && text[p]
        <= 0x5A) || (0x61 <= text[p] && text[p] <= 0x7A))
        invariant
            pos <= p <= text@.len(),
            ident_end(text@, p as int) == ident_end(text@, pos as int),
        decreases text@.len() - p,
    {
        p = p + 1;
    }
    p
}

/// The integer at position `pos`, a sign or none and then digits, where its
/// size is at most `limit`, and the position behind it.
pub open spec fn int_at(text: Seq<u8>, pos: int, limit: int) -> Option<(int, int)> {
    let signed = 0 <= pos < text.len() && (text[pos] == 0x2B || text[pos] == 0x2D);
    let start = if signed {
        pos + 1
    } else {
        pos
    };
    if 0 <= start < text.len() && is_digit(text[start]) {
        let end = digits_end(text, start);
        let size = digits_value(text.subrange(start, end));
        if text[pos] == 0x2D {
            if size <= limit + 1 {
                Some((-(size as int), end))
            } else {
                None
            }
        } else if size <= limit {
            Some((size as int, end))
        } else {
            None
        }
    } else {
        None
    }
}

/// The unsigned integer at position `pos`, digits alone, where it is at
/// most `limit`, and the position behind it.
pub open spec fn uint_at(text: Seq<u8>, pos: int, limit: int) -> Option<(int, int)> {
    if 0 <= pos < text.len() && is_digit(text[pos]) {
        let end = digits_end(text, pos);
        let size = digits_value(text.subrange(pos, end));
        if size <= limit {
            Some((size as int, end))
        } else {
            None
        }
    } else {
        None
    }
}

/// Reads the digits at position `start`, which stand for at most `limit`.
fn read_digits(text: &[u8], start: usize, limit: u64) -> (r: Option<(u64, usize)>)
    requires
        start < text@.len(),
        is_digit(text@[start as int]),
        limit >= 9,
    ensures
        ({
            let end = digits_end(text@, start as int);
            let size = digits_value(text@.subrange(start as int, end));
            &&& start < end <= text@.len()
            &&& size <= limit ==> r == Some((size as u64, end as usize))
            &&& size > limit ==> r is None
        }),
{
    let end = skip_digits(text, start);
    proof {
        lemma_digits_end(text@, start as int);
    }
    let token = slice_subrange(text, start, end);
    proof {
        assert(token@.skip(0) =~= token@);
    }
    match parse_digits(token, 0, limit) {
        Some(v) => Some((v, end)),
        None => None,
    }
}

/// Reads the signed 32-bit integer at position `pos`.
pub fn read_i32(text: &[u8], pos: usize) -> (r: Option<(i32, usize)>)
    requires
        pos <= text@.len(),
    ensures
        r is Some <==> int_at(text@, pos as int, i32::MAX as int) is Some,
        r is Some ==> r->Some_0.0 == int_at(text@, pos as int, i32::MAX as int)->Some_0.0
            && r->Some_0.1 == int_at(text@, pos as int, i32::MAX as int)->Some_0.1 && pos
            < r->Some_0.1 <= text@.len(),
{
    let n = text.len();
    let signed = pos < n && (text[pos] == 0x2B || text[pos] == 0x2D);
    let start = if signed {
        pos + 1
    } else {
        pos
    };
    if !(start < n && 0x30 <= text[start] && text[start] <= 0x39) {
        return None;
    }
    if text[pos] == 0x2D {
        match read_digits(text, start, 0x8000_0000) {
            Some((v, end)) => {
                if v == 0x8000_0000 {
                    Some((i32::MIN, end))
                } else {
                    Some((-(v as i32), end))
                }
            },
            None => None,
        }
    } else {
        match read_digits(text, start, 0x7FFF_FFFF) {
            Some((v, end)) => Some((v as i32, end)),
            None => None,
        }
    }
}

/// Reads the unsigned 32-bit integer at position `pos`.
pub fn read_u32_text(text: &[u8], pos: usize) -> (r: Option<(u32, usize)>)
    requires
        pos <= text@.len(),
    ensures
        r is Some <==> uint_at(text@, pos as int, u32::MAX as int) is Some,
        r is Some ==> r->Some_0.0 == uint_at(text@, pos as int, u32::MAX as int)->Some_0.0
            && r->Some_0.1 == uint_at(text@, pos as int, u32::MAX as int)->Some_0.1 && pos
            < r->Some_0.1 <= text@.len(),
{
    let n = text.len();
    if !(pos < n && 0x30 <= text[pos] && text[pos] <= 0x39) {
        return None;
    }
    match read_digits(text, pos, 0xFFFF_FFFF) {
        Some((v, end)) => Some((v as u32, end)),
        None => None,
    }
}

/// The bytes `acc` with the bytes of the string whose inside starts at
/// position `pos` and that the quotation mark `quote` closes, and the
/// position behind it. A backslash stands in front of a backslash, of a
/// double quotation mark and of the letter for a new line.
pub open spec fn quoted_at(text: Seq<u8>, pos: int, quote: u8, acc: Seq<u8>) -> Option<
    (Seq<u8>, int),
>
    decreases text.len() - pos,
{
    if pos < 0 || pos >= text.len() {
        None
    } else if text[pos] == quote {
        Some((acc, pos + 1))
    } else if text[pos] == 0x5C {
        if pos + 1 >= text.len() {
            None
        } else if text[pos + 1] == 0x5C {
            quoted_at(text, pos + 2, quote, acc.push(0x5Cu8))
        } else if text[pos + 1] == 0x22 {
            quoted_at(text, pos + 2, quote, acc.push(0x22u8))
        } else if text[pos + 1] == 0x6E {
            quoted_at(text, pos + 2, quote, acc.push(0x0Au8))
        } else {
            None
        }
    } else {
        quoted_at(text, pos + 1, quote, acc.push(text[pos]))
    }
}

/// The string that starts with a single or a double quotation mark at
/// position `pos`, and the position behind it.
pub open spec fn string_literal_at(text: Seq<u8>, pos: int) -> Option<(Seq<u8>, int)> {
    if 0 <= pos < text.len() && (text[pos] == 0x27 || text[pos] == 0x22) {
        quoted_at(text, pos + 1, text[pos], Seq::empty())
    } else {
        None
    }
}

/// Reads the string that starts with a quotation mark at position `pos`.
pub fn read_string_literal(text: &[u8], pos: usize) -> (r: Option<(Vec<u8>, usize)>)
    requires
        pos <= text@.len(),
    ensures
        r is Some <==> string_literal_at(text@, pos as int) is Some,
        r is Some ==> r->Some_0.0@ == string_literal_at(text@, pos as int)->Some_0.0 && r->Some_0.1
            == string_literal_at(text@, pos as int)->Some_0.1 && pos < r->Some_0.1 <= text@.len(),
{
    let n = text.len();
    if !(pos < n && (text[pos] == 0x27 || text[pos] == 0x22)) {
        return None;
    }
    let quote = text[pos];
    let mut out: Vec<u8> = Vec::new();
    let mut p: usize = pos + 1;
    loop
        invariant
            pos < p <= text@.len(),
            n == text@.len(),
            quote == text@[pos as int],
            quote == 0x27 || quote == 0x22,
            quoted_at(text@, p as int, quote, out@) == quoted_at(
                text@,
                pos + 1,
                quote,
                Seq::empty(),
            ),
        decreases text@.len() - p,
    {
        if p >= n {
            return None;
        }
        let c = text[p];
        if c == quote {
            return Some((out, p + 1));
        }
        if c == 0x5C {
            if n - p < 2 {
                return None;
            }
            let e = text[p + 1];
            if e == 0x5C {
                out.push(0x5C);
            } else if e == 0x22 {
                out.push(0x22);
            } else if e == 0x6E {
                out.push(0x0A);
            } else {
                return None;
            }
            p = p + 2;
        } else {
            out.push(c);
            p = p + 1;
        }
    }
}

/// The integers `acc` with the integers of the list whose next integer
/// starts at position `pos`, and the position behind its closing bracket.
pub open spec fn int_list_at(text: Seq<u8>, pos: int, acc: Seq<i32>) -> Option<(Seq<i32>, int)>
    decreases text.len() - pos,
{
    match int_at(text, pos, i32::MAX as int) {
        None => None,
        Some(v) => {
            let p = skip_ws(text, v.1);
            let next = skip_ws(text, p + 1);
            if !(pos < v.1 <= p < text.len()) {
                None
            } else if text[p] == 0x2C && pos < next <= text.len() {
                int_list_at(text, next, acc.push(v.0 as i32))
            } else if text[p] == 0x5D {
                Some((acc.push(v.0 as i32), p + 1))
            } else {
                None
            }
        },
    }
}

/// The names `acc` with the names of the list whose next name starts at
/// position `pos`, and the position behind its closing bracket.
pub open spec fn name_list_at(text: Seq<u8>, pos: int, acc: Seq<Seq<u8>>) -> Option<
    (Seq<Seq<u8>>, int),
>
    decreases text.len() - pos,
{
    match string_literal_at(text, pos) {
        None => None,
        Some(v) => {
            let p = skip_ws(text, v.1);
            let next = skip_ws(text, p + 1);
            if !(pos < v.1 <= p < text.len()) {
                None
            } else if text[p] == 0x2C && pos < next <= text.len() {
                name_list_at(text, next, acc.push(v.0))
            } else if text[p] == 0x5D {
                Some((acc.push(v.0), p + 1))
            } else {
                None
            }
        },
    }
}

/// The slice whose first colon stands at position `colon`, and the
/// position behind its closing bracket.
pub open spec fn slice_at(text: Seq<u8>, colon: int, start: Option<i32>) -> Option<(Step, int)> {
    let at1 = skip_ws(text, colon + 1);
    let end_int = int_at(text, at1, i32::MAX as int);
    let end = match end_int {
        Some(v) => Some(v.0 as i32),
        None => None,
    };
    let at2 = skip_ws(
        text,
        match end_int {
            Some(v) => v.1,
            None => at1,
        },
    );
    if !(0 <= at2 < text.len()) {
        None
    } else if text[at2] == 0x5D {
        Some((Step::ArraySlice { start, end, step: None }, at2 + 1))
    } else if text[at2] == 0x3A {
        match uint_at(text, skip_ws(text, at2 + 1), u32::MAX as int) {
            None => None,
            Some(s) => {
                let at4 = skip_ws(text, s.1);
                if 0 <= at4 < text.len() && text[at4] == 0x5D {
                    Some((Step::ArraySlice { start, end, step: Some(s.0 as u32) }, at4 + 1))
                } else {
                    None
                }
            },
        }
    } else {
        None
    }
}

/// The step in brackets that starts at position `pos` and is no filter, and
/// the position behind it.
#[verifier::opaque]
pub open spec fn bracket_at(text: Seq<u8>, pos: int) -> Option<(Step, int)> {
    let p = skip_ws(text, pos + 1);
    if !(0 <= p < text.len()) {
        None
    } else if text[p] == 0x2A {
        let q = skip_ws(text, p + 1);
        if 0 <= q < text.len() && text[q] == 0x5D {
            Some((Step::BracketWildcard, q + 1))
        } else {
            None
        }
    } else if text[p] == 0x27 || text[p] == 0x22 {
        match name_list_at(text, p, Seq::empty()) {
            None => None,
            Some(r) => if r.0.len() == 1 {
                Some((Step::ObjectField(r.0[0]), r.1))
            } else {
                Some((Step::ObjectFields(r.0), r.1))
            },
        }
    } else if text[p] == 0x3A {
        slice_at(text, p, None)
    } else {
        match int_at(text, p, i32::MAX as int) {
            None => None,
            Some(v) => {
                let q = skip_ws(text, v.1);
                if !(0 <= q < text.len()) {
                    None
                } else if text[q] == 0x5D {
                    Some((Step::ArrayIndex(v.0 as i32), q + 1))
                } else if text[q] == 0x2C {
                    match int_list_at(text, skip_ws(text, q + 1), seq![v.0 as i32]) {
                        None => None,
                        Some(r) => Some((Step::ArrayIndices(r.0), r.1)),
                    }
                } else if text[q] == 0x3A {
                    slice_at(text, q, Some(v.0 as i32))
                } else {
                    None
                }
            },
        }
    }
}

/// The name at position `pos`, one or more letters and digits, and the
/// position behind it.
pub open spec fn field_at(text: Seq<u8>, pos: int) -> Option<(Seq<u8>, int)> {
    if 0 <= pos < ident_end(text, pos) <= text.len() {
        Some((text.subrange(pos, ident_end(text, pos)), ident_end(text, pos)))
    } else {
        None
    }
}

/// The text that opens a filter.
pub open spec fn filter_open() -> Seq<u8> {
    seq![0x5Bu8, 0x3Fu8, 0x28u8]
}

/// The text that closes a filter.
pub open spec fn filter_close() -> Seq<u8> {
    seq![0x29u8, 0x5Du8]
}

/// The step at position `pos`, and the position behind it.
pub open spec fn step_at(text: Seq<u8>, pos: int) -> Option<(Step, int)>
    decreases text.len() - pos, 1nat,
{
    if !(0 <= pos < text.len()) {
        None
    } else if text[pos] == 0x24 {
        Some((Step::Root, pos + 1))
    } else if text[pos] == 0x40 {
        Some((Step::Current, pos + 1))
    } else if text[pos] == 0x3A {
        match field_at(text, pos + 1) {
            Some(f) => Some((Step::ColonField(f.0), f.1)),
            None => None,
        }
    } else if text[pos] == 0x2E {
        if pos + 1 < text.len() && text[pos + 1] == 0x2A {
            Some((Step::DotWildcard, pos + 2))
        } else if pos + 1 < text.len() && text[pos + 1] == 0x2E {
            if pos + 2 < text.len() && text[pos + 2] == 0x2A {
                Some((Step::DescentWildcard, pos + 3))
            } else {
                match field_at(text, pos + 2) {
                    Some(f) => Some((Step::DescentField(f.0), f.1)),
                    None => None,
                }
            }
        } else {
            match field_at(text, pos + 1) {
                Some(f) => Some((Step::DotField(f.0), f.1)),
                None => None,
            }
        }
    } else if text[pos] == 0x5B {
        if has_at(text, pos, filter_open()) {
            filter_at(text, pos)
        } else {
            bracket_at(text, pos)
        }
    } else {
        None
    }
}

/// The filter that starts at position `pos`, and the position behind it.
pub open spec fn filter_at(text: Seq<u8>, pos: int) -> Option<(Step, int)>
    decreases text.len() - pos, 0nat,
{
    let start = skip_ws(text, pos + 3);
    if 0 <= pos < start <= text.len() {
        match or_expr_at(text, start) {
            None => None,
            Some(e) => {
                let close = skip_ws(text, e.1);
                if 0 <= close && has_at(text, close, filter_close()) {
                    Some((Step::FilterExpr(Box::new(e.0)), close + 2))
                } else {
                    None
                }
            },
        }
    } else {
        None
    }
}

/// The steps `acc` with the steps from position `pos` on, as many as there
/// are, and the position behind them; at least one step in all.
pub open spec fn steps_at(text: Seq<u8>, pos: int, acc: Seq<Step>) -> Option<(Seq<Step>, int)>
    decreases text.len() - pos, 2nat,
{
    match step_at(text, pos) {
        None => if acc.len() > 0 {
            Some((acc, pos))
        } else {
            None
        },
        Some(s) => if pos < s.1 <= text.len() {
            steps_at(text, s.1, acc.push(s.0))
        } else {
            None
        },
    }
}

/// The word of the operator `op`, in small letters.
pub open spec fn op_word(op: BinaryOperator) -> Seq<u8> {
    match op {
        BinaryOperator::In => seq![0x69u8, 0x6Eu8],
        BinaryOperator::Nin => seq![0x6Eu8, 0x69u8, 0x6Eu8],
        BinaryOperator::Subsetof => seq![
            0x73u8,
            0x75u8,
            0x62u8,
            0x73u8,
            0x65u8,
            0x74u8,
            0x6Fu8,
            0x66u8,
        ],
        BinaryOperator::Anyof => seq![0x61u8, 0x6Eu8, 0x79u8, 0x6Fu8, 0x66u8],
        BinaryOperator::Noneof => seq![0x6Eu8, 0x6Fu8, 0x6Eu8, 0x65u8, 0x6Fu8, 0x66u8],
        BinaryOperator::Size => seq![0x73u8, 0x69u8, 0x7Au8, 0x65u8],
        BinaryOperator::Empty => seq![0x65u8, 0x6Du8, 0x70u8, 0x74u8, 0x79u8],
        BinaryOperator::Eq => seq![0x3Du8, 0x3Du8],
        BinaryOperator::NotEq => seq![0x21u8, 0x3Du8],
        BinaryOperator::Lte => seq![0x3Cu8, 0x3Du8],
        BinaryOperator::Lt => seq![0x3Cu8],
        BinaryOperator::Gte => seq![0x3Eu8, 0x3Du8],
        BinaryOperator::Gt => seq![0x3Eu8],
        BinaryOperator::Match => seq![0x3Du8, 0x7Eu8],
        BinaryOperator::And => seq![0x26u8, 0x26u8],
        BinaryOperator::Or => seq![0x7Cu8, 0x7Cu8],
    }
}

/// Whether `text` holds the word of `op` at position `pos`, in letters of
/// either case.
pub open spec fn has_op(text: Seq<u8>, pos: int, op: BinaryOperator) -> bool {
    0 <= pos && pos + op_word(op).len() <= text.len() && same_ignoring_ascii_case(
        text.subrange(pos, pos + op_word(op).len()),
        op_word(op),
    )
}

/// The operator of a comparison at position `pos`, and the position behind
/// it. Of two operators of which one starts like the other, the longer is
/// taken.
#[verifier::opaque]
pub open spec fn op_at(text: Seq<u8>, pos: int) -> Option<(BinaryOperator, int)> {
    if has_op(text, pos, BinaryOperator::Eq) {
        Some((BinaryOperator::Eq, pos + op_word(BinaryOperator::Eq).len()))
    } else if has_op(text, pos, BinaryOperator::NotEq) {
        Some((BinaryOperator::NotEq, pos + op_word(BinaryOperator::NotEq).len()))
    } else if has_op(text, pos, BinaryOperator::Lte) {
        Some((BinaryOperator::Lte, pos + op_word(BinaryOperator::Lte).len()))
    } else if has_op(text, pos, BinaryOperator::Lt) {
        Some((BinaryOperator::Lt, pos + op_word(BinaryOperator::Lt).len()))
    } else if has_op(text, pos, BinaryOperator::Gte) {
        Some((BinaryOperator::Gte, pos + op_word(BinaryOperator::Gte).len()))
    } else if has_op(text, pos, BinaryOperator::Gt) {
        Some((BinaryOperator::Gt, pos + op_word(BinaryOperator::Gt).len()))
    } else if has_op(text, pos, BinaryOperator::Match) {
        Some((BinaryOperator::Match, pos + op_word(BinaryOperator::Match).len()))
    } else if has_op(text, pos, BinaryOperator::In) {
        Some((BinaryOperator::In, pos + op_word(BinaryOperator::In).len()))
    } else if has_op(text, pos, BinaryOperator::Nin) {
        Some((BinaryOperator::Nin, pos + op_word(BinaryOperator::Nin).len()))
    } else if has_op(text, pos, BinaryOperator::Subsetof) {
        Some((BinaryOperator::Subsetof, pos + op_word(BinaryOperator::Subsetof).len()))
    } else if has_op(text, pos, BinaryOperator::Anyof) {
        Some((BinaryOperator::Anyof, pos + op_word(BinaryOperator::Anyof).len()))
    } else if has_op(text, pos, BinaryOperator::Noneof) {
        Some((BinaryOperator::Noneof, pos + op_word(BinaryOperator::Noneof).len()))
    } else if has_op(text, pos, BinaryOperator::Size) {
        Some((BinaryOperator::Size, pos + op_word(BinaryOperator::Size).len()))
    } else if has_op(text, pos, BinaryOperator::Empty) {
        Some((BinaryOperator::Empty, pos + op_word(BinaryOperator::Empty).len()))
    } else {
        None
    }
}

/// Whether a number token that starts at position `pos` goes on behind
/// position `end` as a double: with a point or an exponent.
pub open spec fn goes_on_as_double(text: Seq<u8>, end: int) -> bool {
    0 <= end < text.len() && (text[end] == 0x2E || text[end] == 0x65 || text[end] == 0x45)
}

/// The literal at position `pos`, and the position behind it: `null`,
/// `true`, `false`, a string, an integer, or a double.
#[verifier::opaque]
pub open spec fn literal_at(text: Seq<u8>, pos: int) -> Option<(ValueTerm, int)> {
    if !(0 <= pos < text.len()) {
        None
    } else if has_at(text, pos, crate::text::null_text()) {
        Some((ValueTerm::Null, pos + 4))
    } else if has_at(text, pos, crate::text::true_text()) {
        Some((ValueTerm::Boolean(true), pos + 4))
    } else if has_at(text, pos, crate::text::false_text()) {
        Some((ValueTerm::Boolean(false), pos + 5))
    } else if text[pos] == 0x27 || text[pos] == 0x22 {
        match string_literal_at(text, pos) {
            Some(s) => Some((ValueTerm::String(s.0), s.1)),
            None => None,
        }
    } else {
        let unsigned = int_at(text, pos, u64::MAX as int);
        let signed = int_at(text, pos, i64::MAX as int);
        if unsigned is Some && unsigned->Some_0.0 >= 0 && !goes_on_as_double(
            text,
            unsigned->Some_0.1,
        ) {
            Some((ValueTerm::UInt64(unsigned->Some_0.0 as u64), unsigned->Some_0.1))
        } else if signed is Some && !goes_on_as_double(text, signed->Some_0.1) {
            Some((ValueTerm::Int64(signed->Some_0.0 as i64), signed->Some_0.1))
        } else {
            match double_literal(text.subrange(pos, text.len() as int)) {
                Some(d) => if d.1 < text.len() - pos {
                    Some((ValueTerm::Float64(d.0), text.len() - d.1))
                } else {
                    None
                },
                None => None,
            }
        }
    }
}

/// Whether a step can start with the byte `c`.
pub open spec fn starts_step(c: u8) -> bool {
    c == 0x24 || c == 0x40 || c == 0x2E || c == 0x3A || c == 0x5B
}

/// The operand at position `pos`, steps or a literal, and the position
/// behind it.
pub open spec fn operand_at(text: Seq<u8>, pos: int) -> Option<(Term, int)>
    decreases text.len() - pos, 3nat,
{
    if !(0 <= pos < text.len()) {
        None
    } else if starts_step(text[pos]) {
        match steps_at(text, pos, Seq::empty()) {
            Some(s) => Some((Term::Paths(s.0), s.1)),
            None => None,
        }
    } else {
        match literal_at(text, pos) {
            Some(v) => Some((Term::Value(v.0), v.1)),
            None => None,
        }
    }
}

/// The comparison at position `pos`, an operand alone or two operands with
/// an operator between them, and the position behind it.
pub open spec fn comparison_at(text: Seq<u8>, pos: int) -> Option<(Term, int)>
    decreases text.len() - pos, 4nat,
{
    let p = skip_ws(text, pos);
    if !(pos <= p <= text.len()) {
        None
    } else {
        match operand_at(text, p) {
            None => None,
            Some(l) => match op_at(text, skip_ws(text, l.1)) {
                None => Some((l.0, l.1)),
                Some(op) => {
                    let at3 = skip_ws(text, op.1);
                    if !(pos < at3 <= text.len()) {
                        None
                    } else {
                        match operand_at(text, at3) {
                            None => None,
                            Some(r) => Some(
                                (
                                    Term::BinaryOp {
                                        op: op.0,
                                        left: Box::new(l.0),
                                        right: Box::new(r.0),
                                    },
                                    r.1,
                                ),
                            ),
                        }
                    }
                },
            },
        }
    }
}

/// The expression `left` with the comparisons that `&&` joins to it from
/// position `pos` on, and the position behind them.
pub open spec fn and_rest_at(text: Seq<u8>, pos: int, left: Term) -> Option<(Term, int)>
    decreases text.len() - pos, 5nat,
{
    let p = skip_ws(text, pos);
    if 0 <= pos <= p && has_op(text, p, BinaryOperator::And) {
        match comparison_at(text, p + op_word(BinaryOperator::And).len()) {
            None => None,
            Some(c) => if pos < c.1 <= text.len() {
                and_rest_at(
                    text,
                    c.1,
                    Term::BinaryOp {
                        op: BinaryOperator::And,
                        left: Box::new(left),
                        right: Box::new(c.0),
                    },
                )
            } else {
                None
            },
        }
    } else {
        Some((left, pos))
    }
}

/// The comparisons that `&&` joins at position `pos`, and the position
/// behind them.
pub open spec fn and_expr_at(text: Seq<u8>, pos: int) -> Option<(Term, int)>
    decreases text.len() - pos, 6nat,
{
    match comparison_at(text, pos) {
        None => None,
        Some(c) => if pos < c.1 <= text.len() {
            and_rest_at(text, c.1, c.0)
        } else {
            None
        },
    }
}

/// The expression `left` with the expressions that `||` joins to it from
/// position `pos` on, and the position behind them.
pub open spec fn or_rest_at(text: Seq<u8>, pos: int, left: Term) -> Option<(Term, int)>
    decreases text.len() - pos, 7nat,
{
    let p = skip_ws(text, pos);
    if 0 <= pos <= p && has_op(text, p, BinaryOperator::Or) {
        match and_expr_at(text, p + op_word(BinaryOperator::Or).len()) {
            None => None,
            Some(c) => if pos < c.1 <= text.len() {
                or_rest_at(
                    text,
                    c.1,
                    Term::BinaryOp {
                        op: BinaryOperator::Or,
                        left: Box::new(left),
                        right: Box::new(c.0),
                    },
                )
            } else {
                None
            },
        }
    } else {
        Some((left, pos))
    }
}

/// The filter expression at position `pos`, and the position behind it:
/// comparisons that `&&` joins, joined by `||`.
pub open spec fn or_expr_at(text: Seq<u8>, pos: int) -> Option<(Term, int)>
    decreases text.len() - pos, 8nat,
{
    match and_expr_at(text, pos) {
        None => None,
        Some(c) => if pos < c.1 <= text.len() {
            or_rest_at(text, c.1, c.0)
        } else {
            None
        },
    }
}

/// The steps of the path that a text holds, with white space or nothing
/// around them.
pub open spec fn path_of_text(text: Seq<u8>) -> Result<Seq<Step>, Error> {
    match steps_at(text, skip_ws(text, 0), Seq::empty()) {
        None => Err(Error::InvalidJsonPath),
        Some(s) => if skip_ws(text, s.1) == text.len() {
            Ok(s.0)
        } else {
            Err(Error::InvalidJsonPath)
        },
    }
}

/// Reads the integers of a list whose next integer starts at `pos`.
fn read_int_list(text: &[u8], pos: usize, first: Vec<i32>) -> (r: Option<(Vec<i32>, usize)>)
    requires
        pos <= text@.len(),
    ensures
        r is Some <==> int_list_at(text@, pos as int, first@) is Some,
        r is Some ==> r->Some_0.0@ == int_list_at(text@, pos as int, first@)->Some_0.0
            && r->Some_0.1 == int_list_at(text@, pos as int, first@)->Some_0.1 && pos
            < r->Some_0.1 <= text@.len(),
{
    let n = text.len();
    let mut out = first;
    let mut cur: usize = pos;
    loop
        invariant
            pos <= cur <= text@.len(),
            n == text@.len(),
            int_list_at(text@, cur as int, out@) == int_list_at(text@, pos as int, first@),
        decreases text@.len() - cur,
    {
        let (v, after) = match read_i32(text, cur) {
            Some(x) => x,
            None => {
                return None;
            },
        };
        let p = skip_spaces(text, after);
        if p >= n {
            return None;
        }
        out.push(v);
        if text[p] == 0x2C {
            cur = skip_spaces(text, p + 1);
        } else if text[p] == 0x5D {
            return Some((out, p + 1));
        } else {
            return None;
        }
    }
}

/// Reads the names of a list whose next name starts at `pos`.
fn read_name_list(text: &[u8], pos: usize) -> (r: Option<(Vec<Vec<u8>>, usize)>)
    requires
        pos <= text@.len(),
    ensures
        r is Some <==> name_list_at(text@, pos as int, Seq::empty()) is Some,
        r is Some ==> names_view(r->Some_0.0@) == name_list_at(
            text@,
            pos as int,
            Seq::empty(),
        )->Some_0.0 && r->Some_0.1 == name_list_at(text@, pos as int, Seq::empty())->Some_0.1 && pos
            < r->Some_0.1 <= text@.len(),
{
    let n = text.len();
    let mut out: Vec<Vec<u8>> = Vec::new();
    let mut cur: usize = pos;
    proof {
        assert(names_view(out@) =~= Seq::<Seq<u8>>::empty());
    }
    loop
        invariant
            pos <= cur <= text@.len(),
            n == text@.len(),
            name_list_at(text@, cur as int, names_view(out@)) == name_list_at(
                text@,
                pos as int,
                Seq::empty(),
            ),
        decreases text@.len() - cur,
    {
        let (v, after) = match read_string_literal(text, cur) {
            Some(x) => x,
            None => {
                return None;
            },
        };
        let p = skip_spaces(text, after);
        if p >= n {
            return None;
        }
        proof {
            assert(names_view(out@.push(v)) =~= names_view(out@).push(v@));
        }
        out.push(v);
        if text[p] == 0x2C {
            cur = skip_spaces(text, p + 1);
        } else if text[p] == 0x5D {
            return Some((out, p + 1));
        } else {
            return None;
        }
    }
}

/// Reads the slice whose first colon stands at `colon`.
fn read_slice(text: &[u8], colon: usize, start: Option<i32>) -> (r: Option<(Path, usize)>)
    requires
        colon < text@.len(),
    ensures
        r is Some <==> slice_at(text@, colon as int, start) is Some,
        r is Some ==> r->Some_0.0.term() == slice_at(text@, colon as int, start)->Some_0.0
            && r->Some_0.1 == slice_at(text@, colon as int, start)->Some_0.1 && colon
            < r->Some_0.1 <= text@.len(),
{
    let n = text.len();
    let at1 = skip_spaces(text, colon + 1);
    let (end, after) = match read_i32(text, at1) {
        Some((v, e)) => (Some(v), e),
        None => (None, at1),
    };
    let at2 = skip_spaces(text, after);
    if at2 >= n {
        return None;
    }
    if text[at2] == 0x5D {
        Some((Path::ArraySlice { start, end, step: None }, at2 + 1))
    } else if text[at2] == 0x3A {
        let at3 = skip_spaces(text, at2 + 1);
        match read_u32_text(text, at3) {
            None => None,
            Some((s, e)) => {
                let at4 = skip_spaces(text, e);
                if at4 < n && text[at4] == 0x5D {
                    Some((Path::ArraySlice { start, end, step: Some(s) }, at4 + 1))
                } else {
                    None
                }
            },
        }
    } else {
        None
    }
}

/// Reads the step in brackets that starts at `pos` and is no filter.
fn read_bracket(text: &[u8], pos: usize) -> (r: Option<(Path, usize)>)
    requires
        pos < text@.len(),
    ensures
        r is Some <==> bracket_at(text@, pos as int) is Some,
        r is Some ==> r->Some_0.0.term() == bracket_at(text@, pos as int)->Some_0.0 && r->Some_0.1
            == bracket_at(text@, pos as int)->Some_0.1 && pos < r->Some_0.1 <= text@.len(),
{
    reveal(bracket_at);
    let n = text.len();
    let p = skip_spaces(text, pos + 1);
    if p >= n {
        return None;
    }
    let c = text[p];
    if c == 0x2A {
        let q = skip_spaces(text, p + 1);
        if q < n && text[q] == 0x5D {
            Some((Path::BracketWildcard, q + 1))
        } else {
            None
        }
    } else if c == 0x27 || c == 0x22 {
        match read_name_list(text, p) {
            None => None,
            Some((mut names, end)) => {
                if names.len() == 1 {
                    let name = names.pop().unwrap();
                    Some((Path::ObjectField(name), end))
                } else {
                    Some((Path::ObjectFields(names), end))
                }
            },
        }
    } else if c == 0x3A {
        read_slice(text, p, None)
    } else {
        match read_i32(text, p) {
            None => None,
            Some((v, e)) => {
                let q = skip_spaces(text, e);
                if q >= n {
                    return None;
                }
                if text[q] == 0x5D {
                    Some((Path::ArrayIndex(v), q + 1))
                } else if text[q] == 0x2C {
                    let mut first: Vec<i32> = Vec::new();
                    first.push(v);
                    proof {
                        assert(first@ =~= seq![v]);
                    }
                    match read_int_list(text, skip_spaces(text, q + 1), first) {
                        None => None,
                        Some((list, end)) => Some((Path::ArrayIndices(list), end)),
                    }
                } else if text[q] == 0x3A {
                    read_slice(text, q, Some(v))
                } else {
                    None
                }
            },
        }
    }
}

/// Reads the name at `pos`.
fn read_field(text: &[u8], pos: usize) -> (r: Option<(Vec<u8>, usize)>)
    requires
        pos <= text@.len(),
    ensures
        r is Some <==> field_at(text@, pos as int) is Some,
        r is Some ==> r->Some_0.0@ == field_at(text@, pos as int)->Some_0.0 && r->Some_0.1
            == field_at(text@, pos as int)->Some_0.1 && pos < r->Some_0.1 <= text@.len(),
{
    let end = skip_ident(text, pos);
    if end > pos {
        Some((slice_to_vec(slice_subrange(text, pos, end)), end))
    } else {
        None
    }
}

/// The word of an operator.
fn word_of(op: BinaryOperator) -> (r: Vec<u8>)
    ensures
        r@ == op_word(op),
{
    let mut r: Vec<u8> = Vec::new();
    match op {
        BinaryOperator::In => {
            r.push(0x69);
            r.push(0x6E);
        },
        BinaryOperator::Nin => {
            r.push(0x6E);
            r.push(0x69);
            r.push(0x6E);
        },
        BinaryOperator::Subsetof => {
            r.push(0x73);
            r.push(0x75);
            r.push(0x62);
            r.push(0x73);
            r.push(0x65);
            r.push(0x74);
            r.push(0x6F);
            r.push(0x66);
        },
        BinaryOperator::Anyof => {
            r.push(0x61);
            r.push(0x6E);
            r.push(0x79);
            r.push(0x6F);
            r.push(0x66);
        },
        BinaryOperator::Noneof => {
            r.push(0x6E);
            r.push(0x6F);
            r.push(0x6E);
            r.push(0x65);
            r.push(0x6F);
            r.push(0x66);
        },
        BinaryOperator::Size => {
            r.push(0x73);
            r.push(0x69);
            r.push(0x7A);
            r.push(0x65);
        },
        BinaryOperator::Empty => {
            r.push(0x65);
            r.push(0x6D);
            r.push(0x70);
            r.push(0x74);
            r.push(0x79);
        },
        BinaryOperator::Eq => {
            r.push(0x3D);
            r.push(0x3D);
        },
        BinaryOperator::NotEq => {
            r.push(0x21);
            r.push(0x3D);
        },
        BinaryOperator::Lte => {
            r.push(0x3C);
            r.push(0x3D);
        },
        BinaryOperator::Lt => {
            r.push(0x3C);
        },
        BinaryOperator::Gte => {
            r.push(0x3E);
            r.push(0x3D);
        },
        BinaryOperator::Gt => {
            r.push(0x3E);
        },
        BinaryOperator::Match => {
            r.push(0x3D);
            r.push(0x7E);
        },
        BinaryOperator::And => {
            r.push(0x26);
            r.push(0x26);
        },
        BinaryOperator::Or => {
            r.push(0x7C);
            r.push(0x7C);
        },
    }
    assert(r@ =~= op_word(op));
    r
}

/// Where the word of `op` ends that `text` holds at `pos`.
fn match_op(text: &[u8], pos: usize, op: BinaryOperator) -> (r: Option<usize>)
    requires
        pos <= text@.len(),
    ensures
        r is Some <==> has_op(text@, pos as int, op),
        r is Some ==> r->Some_0 == pos + op_word(op).len() && r->Some_0 <= text@.len(),
{
    let word = word_of(op);
    if word.len() > text.len() - pos {
        return None;
    }
    if eq_ignore_ascii_case(slice_subrange(text, pos, pos + word.len()), word.as_slice()) {
        Some(pos + word.len())
    } else {
        None
    }
}

/// Reads the operator of a comparison at `pos`.
fn read_op(text: &[u8], pos: usize) -> (r: Option<(BinaryOperator, usize)>)
    requires
        pos <= text@.len(),
    ensures
        r is Some <==> op_at(text@, pos as int) is Some,
        r is Some ==> r->Some_0.0 == op_at(text@, pos as int)->Some_0.0 && r->Some_0.1 == op_at(
            text@,
            pos as int,
        )->Some_0.1 && pos <= r->Some_0.1 <= text@.len(),
{
    reveal(op_at);
    if let Some(end) = match_op(text, pos, BinaryOperator::Eq) {
        Some((BinaryOperator::Eq, end))
    } else if let Some(end) = match_op(text, pos, BinaryOperator::NotEq) {
        Some((BinaryOperator::NotEq, end))
    } else if let Some(end) = match_op(text, pos, BinaryOperator::Lte) {
        Some((BinaryOperator::Lte, end))
    } else if let Some(end) = match_op(text, pos, BinaryOperator::Lt) {
        Some((BinaryOperator::Lt, end))
    } else if let Some(end) = match_op(text, pos, BinaryOperator::Gte) {
        Some((BinaryOperator::Gte, end))
    } else if let Some(end) = match_op(text, pos, BinaryOperator::Gt) {
        Some((BinaryOperator::Gt, end))
    } else if let Some(end) = match_op(text, pos, BinaryOperator::Match) {
        Some((BinaryOperator::Match, end))
    } else if let Some(end) = match_op(text, pos, BinaryOperator::In) {
        Some((BinaryOperator::In, end))
    } else if let Some(end) = match_op(text, pos, BinaryOperator::Nin) {
        Some((BinaryOperator::Nin, end))
    } else if let Some(end) = match_op(text, pos, BinaryOperator::Subsetof) {
        Some((BinaryOperator::Subsetof, end))
    } else if let Some(end) = match_op(text, pos, BinaryOperator::Anyof) {
        Some((BinaryOperator::Anyof, end))
    } else if let Some(end) = match_op(text, pos, BinaryOperator::Noneof) {
        Some((BinaryOperator::Noneof, end))
    } else if let Some(end) = match_op(text, pos, BinaryOperator::Size) {
        Some((BinaryOperator::Size, end))
    } else if let Some(end) = match_op(text, pos, BinaryOperator::Empty) {
        Some((BinaryOperator::Empty, end))
    } else {
        None
    }
}

/// Reads the literal at `pos`.
fn read_literal(text: &[u8], pos: usize) -> (r: Option<(PathValue, usize)>)
    requires
        pos <= text@.len(),
    ensures
        r is Some <==> literal_at(text@, pos as int) is Some,
        r is Some ==> r->Some_0.0@ == literal_at(text@, pos as int)->Some_0.0 && r->Some_0.1
            == literal_at(text@, pos as int)->Some_0.1 && pos < r->Some_0.1 <= text@.len(),
{
    reveal(literal_at);
    let n = text.len();
    if pos >= n {
        return None;
    }
    let mut lit: Vec<u8> = Vec::new();
    crate::text::push_null(&mut lit);
    assert(lit@ =~= crate::text::null_text());
    if starts_with_at(text, pos, lit.as_slice()) {
        return Some((PathValue::Null, pos + 4));
    }
    let mut lit: Vec<u8> = Vec::new();
    crate::text::push_true(&mut lit);
    assert(lit@ =~= crate::text::true_text());
    if starts_with_at(text, pos, lit.as_slice()) {
        return Some((PathValue::Boolean(true), pos + 4));
    }
    let mut lit: Vec<u8> = Vec::new();
    crate::text::push_false(&mut lit);
    assert(lit@ =~= crate::text::false_text());
    if starts_with_at(text, pos, lit.as_slice()) {
        return Some((PathValue::Boolean(false), pos + 5));
    }
    if text[pos] == 0x27 || text[pos] == 0x22 {
        return match read_string_literal(text, pos) {
            Some((v, end)) => Some((PathValue::String(v), end)),
            None => None,
        };
    }
    if let Some((v, end)) = read_unsigned_literal(text, pos) {
        if !(end < n && (text[end] == 0x2E || text[end] == 0x65 || text[end] == 0x45)) {
            return Some((PathValue::UInt64(v), end));
        }
    }
    if let Some((v, end)) = read_signed_literal(text, pos) {
        if !(end < n && (text[end] == 0x2E || text[end] == 0x65 || text[end] == 0x45)) {
            return Some((PathValue::Int64(v), end));
        }
    }
    let rest = slice_subrange(text, pos, n);
    match nom_double(rest) {
        Some((bits, left)) => {
            if left < n - pos {
                Some((PathValue::Float64(bits), n - left))
            } else {
                None
            }
        },
        None => None,
    }
}

/// Reads an integer without a minus sign at `pos` that an unsigned 64-bit
/// integer holds.
fn read_unsigned_literal(text: &[u8], pos: usize) -> (r: Option<(u64, usize)>)
    requires
        pos < text@.len(),
    ensures
        r is Some <==> (int_at(text@, pos as int, u64::MAX as int) is Some && int_at(
            text@,
            pos as int,
            u64::MAX as int,
        )->Some_0.0 >= 0),
        r is Some ==> r->Some_0.0 == int_at(text@, pos as int, u64::MAX as int)->Some_0.0
            && r->Some_0.1 == int_at(text@, pos as int, u64::MAX as int)->Some_0.1 && pos
            < r->Some_0.1 <= text@.len(),
{
    let n = text.len();
    let signed = text[pos] == 0x2B || text[pos] == 0x2D;
    let start = if signed {
        pos + 1
    } else {
        pos
    };
    if !(start < n && 0x30 <= text[start] && text[start] <= 0x39) {
        return None;
    }
    let digits = read_digits(text, start, u64::MAX);
    if text[pos] == 0x2D {
        proof {
            lemma_digits_end(text@, start as int);
        }
        match digits {
            Some((v, end)) => if v == 0 {
                Some((0, end))
            } else {
                None
            },
            None => None,
        }
    } else {
        digits
    }
}

/// Reads an integer at `pos` that a signed 64-bit integer holds.
fn read_signed_literal(text: &[u8], pos: usize) -> (r: Option<(i64, usize)>)
    requires
        pos < text@.len(),
    ensures
        r is Some <==> int_at(text@, pos as int, i64::MAX as int) is Some,
        r is Some ==> r->Some_0.0 == int_at(text@, pos as int, i64::MAX as int)->Some_0.0
            && r->Some_0.1 == int_at(text@, pos as int, i64::MAX as int)->Some_0.1 && pos
            < r->Some_0.1 <= text@.len(),
{
    let n = text.len();
    let signed = text[pos] == 0x2B || text[pos] == 0x2D;
    let start = if signed {
        pos + 1
    } else {
        pos
    };
    if !(start < n && 0x30 <= text[start] && text[start] <= 0x39) {
        return None;
    }
    if text[pos] == 0x2D {
        match read_digits(text, start, 0x8000_0000_0000_0000) {
            Some((v, end)) => {
                if v == 0x8000_0000_0000_0000 {
                    Some((i64::MIN, end))
                } else {
                    Some((-(v as i64), end))
                }
            },
            None => None,
        }
    } else {
        match read_digits(text, start, 0x7FFF_FFFF_FFFF_FFFF) {
            Some((v, end)) => Some((v as i64, end)),
            None => None,
        }
    }
}

/// Reads the step that starts with a point at `pos`.
fn read_dot_step(text: &[u8], pos: usize) -> (r: Option<(Path, usize)>)
    requires
        pos < text@.len(),
        text@[pos as int] == 0x2E,
    ensures
        r is Some <==> step_at(text@, pos as int) is Some,
        r is Some ==> r->Some_0.0.term() == step_at(text@, pos as int)->Some_0.0 && r->Some_0.1
            == step_at(text@, pos as int)->Some_0.1 && pos < r->Some_0.1 <= text@.len(),
{
    let n = text.len();
    if n - pos > 1 && text[pos + 1] == 0x2A {
        Some((Path::DotWildcard, pos + 2))
    } else if n - pos > 1 && text[pos + 1] == 0x2E {
        if n - pos > 2 && text[pos + 2] == 0x2A {
            Some((Path::DescentWildcard, pos + 3))
        } else {
            match read_field(text, pos + 2) {
                Some((name, end)) => Some((Path::DescentField(name), end)),
                None => None,
            }
        }
    } else {
        match read_field(text, pos + 1) {
            Some((name, end)) => Some((Path::DotField(name), end)),
            None => None,
        }
    }
}

/// Reads the filter that starts at `pos`.
fn read_filter(text: &[u8], pos: usize) -> (r: Option<(Path, usize)>)
    requires
        pos < text@.len(),
        text@[pos as int] == 0x5B,
        has_at(text@, pos as int, filter_open()),
    ensures
        r is Some <==> filter_at(text@, pos as int) is Some,
        r is Some ==> r->Some_0.0.term() == filter_at(text@, pos as int)->Some_0.0 && r->Some_0.1
            == filter_at(text@, pos as int)->Some_0.1 && pos < r->Some_0.1 <= text@.len(),
    decreases text@.len() - pos, 0nat,
{
    let n = text.len();
    assert(filter_open().len() == 3);
    assert(filter_close().len() == 2);
    let start = skip_spaces(text, pos + 3);
    match read_or_expr(text, start) {
        None => None,
        Some((e, end)) => {
            let close = skip_spaces(text, end);
            let mut shut: Vec<u8> = Vec::new();
            shut.push(0x29);
            shut.push(0x5D);
            assert(shut@ =~= filter_close());
            if starts_with_at(text, close, shut.as_slice()) {
                Some((Path::FilterExpr(Box::new(e)), close + 2))
            } else {
                None
            }
        },
    }
}

/// Reads the step at `pos`.
pub fn read_step(text: &[u8], pos: usize) -> (r: Option<(Path, usize)>)
    requires
        pos <= text@.len(),
    ensures
        r is Some <==> step_at(text@, pos as int) is Some,
        r is Some ==> r->Some_0.0.term() == step_at(text@, pos as int)->Some_0.0 && r->Some_0.1
            == step_at(text@, pos as int)->Some_0.1 && pos < r->Some_0.1 <= text@.len(),
    decreases text@.len() - pos, 1nat,
{
    let n = text.len();
    if pos >= n {
        return None;
    }
    let c = text[pos];
    if c == 0x24 {
        Some((Path::Root, pos + 1))
    } else if c == 0x40 {
        Some((Path::Current, pos + 1))
    } else if c == 0x3A {
        match read_field(text, pos + 1) {
            Some((name, end)) => Some((Path::ColonField(name), end)),
            None => None,
        }
    } else if c == 0x2E {
        read_dot_step(text, pos)
    } else if c == 0x5B {
        let mut open: Vec<u8> = Vec::new();
        open.push(0x5B);
        open.push(0x3F);
        open.push(0x28);
        assert(open@ =~= filter_open());
        if starts_with_at(text, pos, open.as_slice()) {
            read_filter(text, pos)
        } else {
            read_bracket(text, pos)
        }
    } else {
        None
    }
}

/// Reads the steps from `pos` on, as many as there are.
pub fn read_steps(text: &[u8], pos: usize) -> (r: Option<(Vec<Path>, usize)>)
    requires
        pos <= text@.len(),
    ensures
        r is Some <==> steps_at(text@, pos as int, Seq::empty()) is Some,
        r is Some ==> steps_view(r->Some_0.0@) == steps_at(text@, pos as int, Seq::empty())->Some_0.0
            && r->Some_0.1 == steps_at(text@, pos as int, Seq::empty())->Some_0.1 && pos
            < r->Some_0.1 <= text@.len(),
    decreases text@.len() - pos, 2nat,
{
    let mut paths: Vec<Path> = Vec::new();
    let mut cur: usize = pos;
    loop
        invariant
            pos <= cur <= text@.len(),
            paths@.len() > 0 ==> pos < cur,
            steps_view(paths@).len() == paths@.len(),
            steps_at(text@, cur as int, steps_view(paths@)) == steps_at(
                text@,
                pos as int,
                Seq::empty(),
            ),
        decreases text@.len() - cur,
    {
        match read_step(text, cur) {
            None => {
                if paths.len() > 0 {
                    return Some((paths, cur));
                } else {
                    return None;
                }
            },
            Some((step, next)) => {
                proof {
                    lemma_steps_view_push(paths@, step);
                }
                paths.push(step);
                cur = next;
            },
        }
    }
}

/// Reads the operand at `pos`.
pub fn read_operand(text: &[u8], pos: usize) -> (r: Option<(Expr, usize)>)
    requires
        pos <= text@.len(),
    ensures
        r is Some <==> operand_at(text@, pos as int) is Some,
        r is Some ==> r->Some_0.0.term() == operand_at(text@, pos as int)->Some_0.0 && r->Some_0.1
            == operand_at(text@, pos as int)->Some_0.1 && pos < r->Some_0.1 <= text@.len(),
    decreases text@.len() - pos, 3nat,
{
    let n = text.len();
    if pos >= n {
        return None;
    }
    let c = text[pos];
    if c == 0x24 || c == 0x40 || c == 0x2E || c == 0x3A || c == 0x5B {
        match read_steps(text, pos) {
            Some((paths, end)) => Some((Expr::Paths(paths), end)),
            None => None,
        }
    } else {
        match read_literal(text, pos) {
            Some((v, end)) => Some((Expr::Value(v), end)),
            None => None,
        }
    }
}

/// Reads the comparison at `pos`.
pub fn read_comparison(text: &[u8], pos: usize) -> (r: Option<(Expr, usize)>)
    requires
        pos <= text@.len(),
    ensures
        r is Some <==> comparison_at(text@, pos as int) is Some,
        r is Some ==> r->Some_0.0.term() == comparison_at(text@, pos as int)->Some_0.0
            && r->Some_0.1 == comparison_at(text@, pos as int)->Some_0.1 && pos < r->Some_0.1
            <= text@.len(),
    decreases text@.len() - pos, 4nat,
{
    let p = skip_spaces(text, pos);
    let (left, after) = match read_operand(text, p) {
        Some(x) => x,
        None => {
            return None;
        },
    };
    match read_op(text, skip_spaces(text, after)) {
        None => Some((left, after)),
        Some((op, op_end)) => {
            let at3 = skip_spaces(text, op_end);
            if at3 <= pos {
                return None;
            }
            match read_operand(text, at3) {
                None => None,
                Some((right, end)) => Some(
                    (Expr::BinaryOp { op, left: Box::new(left), right: Box::new(right) }, end),
                ),
            }
        },
    }
}

/// Reads the comparisons that `&&` joins at `pos`.
pub fn read_and_expr(text: &[u8], pos: usize) -> (r: Option<(Expr, usize)>)
    requires
        pos <= text@.len(),
    ensures
        r is Some <==> and_expr_at(text@, pos as int) is Some,
        r is Some ==> r->Some_0.0.term() == and_expr_at(text@, pos as int)->Some_0.0 && r->Some_0.1
            == and_expr_at(text@, pos as int)->Some_0.1 && pos < r->Some_0.1 <= text@.len(),
    decreases text@.len() - pos, 5nat,
{
    let (first, after) = match read_comparison(text, pos) {
        Some(x) => x,
        None => {
            return None;
        },
    };
    let mut left = first;
    let mut cur = after;
    loop
        invariant
            pos < cur <= text@.len(),
            and_rest_at(text@, cur as int, left.term()) == and_expr_at(text@, pos as int),
        decreases text@.len() - cur,
    {
        let p = skip_spaces(text, cur);
        match match_op(text, p, BinaryOperator::And) {
            None => {
                return Some((left, cur));
            },
            Some(op_end) => {
                match read_comparison(text, op_end) {
                    None => {
                        return None;
                    },
                    Some((right, end)) => {
                        if end <= cur {
                            return None;
                        }
                        left = Expr::BinaryOp {
                            op: BinaryOperator::And,
                            left: Box::new(left),
                            right: Box::new(right),
                        };
                        cur = end;
                    },
                }
            },
        }
    }
}

/// Reads the filter expression at `pos`.
pub fn read_or_expr(text: &[u8], pos: usize) -> (r: Option<(Expr, usize)>)
    requires
        pos <= text@.len(),
    ensures
        r is Some <==> or_expr_at(text@, pos as int) is Some,
        r is Some ==> r->Some_0.0.term() == or_expr_at(text@, pos as int)->Some_0.0 && r->Some_0.1
            == or_expr_at(text@, pos as int)->Some_0.1 && pos < r->Some_0.1 <= text@.len(),
    decreases text@.len() - pos, 7nat,
{
    let (first, after) = match read_and_expr(text, pos) {
        Some(x) => x,
        None => {
            return None;
        },
    };
    let mut left = first;
    let mut cur = after;
    loop
        invariant
            pos < cur <= text@.len(),
            or_rest_at(text@, cur as int, left.term()) == or_expr_at(text@, pos as int),
        decreases text@.len() - cur,
    {
        let p = skip_spaces(text, cur);
        match match_op(text, p, BinaryOperator::Or) {
            None => {
                return Some((left, cur));
            },
            Some(op_end) => {
                match read_and_expr(text, op_end) {
                    None => {
                        return None;
                    },
                    Some((right, end)) => {
                        if end <= cur {
                            return None;
                        }
                        left = Expr::BinaryOp {
                            op: BinaryOperator::Or,
                            left: Box::new(left),
                            right: Box::new(right),
                        };
                        cur = end;
                    },
                }
            },
        }
    }
}

/// Reads the text of a path.
pub fn parse_json_path(input: &[u8]) -> (r: Result<JsonPath, Error>)
    ensures
        match path_of_text(input@) {
            Ok(steps) => r is Ok && r->Ok_0@ == steps,
            Err(e) => r == Err::<JsonPath, Error>(e),
        },
{
    let start = skip_spaces(input, 0);
    match read_steps(input, start) {
        None => Err(Error::InvalidJsonPath),
        Some((paths, end)) => {
            if skip_spaces(input, end) != input.len() {
                return Err(Error::InvalidJsonPath);
            }
            Ok(JsonPath { paths })
        },
    }
}

} // verus!
