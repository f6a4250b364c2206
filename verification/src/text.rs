//! The JSON text of a value.

use vstd::prelude::*;
use vstd::arithmetic::div_mod::lemma_div_denominator;
use crate::error::Error;
use crate::raw::RawJsonb;
use crate::codec::{read_u32, read_word, header_tag, header_len, decode_header};
use crate::constants::{
    ARRAY_CONTAINER_TAG, OBJECT_CONTAINER_TAG, SCALAR_CONTAINER_TAG, CONTAINER_TAG, NULL_TAG,
    STRING_TAG, NUMBER_TAG, TRUE_TAG, FALSE_TAG,
};
use crate::iterator::{
    RawItem, RawEntry, Item, items_view, entries_view, container_items, object_entries,
    scalar_item, read_scalar, iterate_array, iterate_object_entries, items_shorter,
    entries_shorter, value_item,
};
use crate::number::{Number, decode_number};

verus! {

/// The text that bytes stand for when every run of bytes that is not UTF-8
/// is replaced by the replacement character.
pub uninterp spec fn lossy_text(bytes: Seq<u8>) -> Seq<char>;

/// The text that `serde_json` prints for the finite double with the bit
/// pattern `bits`; `None` for a double that is not finite.
pub uninterp spec fn float_text(bits: u64) -> Option<Seq<u8>>;

/// Whether the double with the bit pattern `bits` is finite: its exponent
/// field is not all ones.
pub open spec fn is_finite_bits(bits: u64) -> bool {
    (bits / 0x10_0000_0000_0000) % 0x800 != 0x7FF
}

/// The string that bytes stand for, with the replacement character in place
/// of what is not UTF-8.
///
/// Calls `String::from_utf8_lossy`, which gives the text of valid UTF-8
/// unchanged.
#[verifier::external_body]
pub(crate) fn lossy_string(bytes: &[u8]) -> (r: String)
    ensures
        r@ == lossy_text(bytes@),
        vstd::utf8::valid_utf8(bytes@) ==> r@ == vstd::utf8::decode_utf8(bytes@),
{
    String::from_utf8_lossy(bytes).into_owned()
}

/// The decimal text of the double with the bit pattern `bits`.
///
/// Takes the double from its bytes with `byteorder::ByteOrder::read_f64` and
/// formats it through `serde_json::Number::from_f64`, which refuses a double
/// that is not finite, and the number's `Display`.
#[verifier::external_body]
pub(crate) fn float_text_bytes(bits: u64) -> (r: Option<Vec<u8>>)
    ensures
        match float_text(bits) {
            Some(t) => r is Some && r->Some_0@ == t,
            None => r is None,
        },
        r is Some <==> is_finite_bits(bits),
{
    let x = <byteorder::BigEndian as byteorder::ByteOrder>::read_f64(&bits.to_be_bytes());
    match serde_json::Number::from_f64(x) {
        Some(n) => Some(n.to_string().into_bytes()),
        None => None,
    }
}

/// The decimal digits of `n`.
pub open spec fn decimal(n: nat) -> Seq<u8>
    decreases n,
{
    if n < 10 {
        seq![(0x30 + n) as u8]
    } else {
        decimal(n / 10).push((0x30 + n % 10) as u8)
    }
}

/// The decimal text of an integer, with a minus sign where it is negative.
pub open spec fn signed_decimal(v: int) -> Seq<u8> {
    if v < 0 {
        seq![0x2Du8] + decimal((-v) as nat)
    } else {
        decimal(v as nat)
    }
}

/// The text `null`.
pub open spec fn null_text() -> Seq<u8> {
    seq![0x6Eu8, 0x75u8, 0x6Cu8, 0x6Cu8]
}

/// The text `true`.
pub open spec fn true_text() -> Seq<u8> {
    seq![0x74u8, 0x72u8, 0x75u8, 0x65u8]
}

/// The text `false`.
pub open spec fn false_text() -> Seq<u8> {
    seq![0x66u8, 0x61u8, 0x6Cu8, 0x73u8, 0x65u8]
}

/// The text of a number: the decimal digits of an integer, the text of a
/// finite double, and `null` for a double that is not finite.
pub open spec fn number_text(n: Number) -> Seq<u8> {
    match n {
        Number::Int64(v) => signed_decimal(v as int),
        Number::UInt64(v) => decimal(v as nat),
        Number::Float64(bits) => match float_text(bits) {
            Some(t) => t,
            None => null_text(),
        },
    }
}

/// `10` to the power `k`.
pub open spec fn pow10(k: nat) -> nat
    decreases k,
{
    if k == 0 {
        1
    } else {
        10 * pow10((k - 1) as nat)
    }
}

/// Appends the decimal digits of `v`.
pub fn push_decimal(buf: &mut Vec<u8>, v: u64)
    ensures
        final(buf)@ == old(buf)@ + decimal(v as nat),
{
    let mut p: u64 = 1;
    let ghost mut k: nat = 0;
    while v / p >= 10
        invariant
            p == pow10(k),
            1 <= p <= v || (p == 1 && v == 0),
        decreases v - p,
    {
        proof {
            assert(10 * p <= v && p < 10 * p) by (nonlinear_arith)
                requires
                    v / p >= 10,
                    p >= 1,
            ;
            k = k + 1;
        }
        p = p * 10;
    }
    let d0: u64 = v / p;
    proof {
        assert(v / p >= 1 || v == 0) by (nonlinear_arith)
            requires
                1 <= p <= v || (p == 1 && v == 0),
        ;
    }
    buf.push((0x30 + d0) as u8);
    proof {
        assert(buf@ =~= old(buf)@ + decimal((v / p) as nat));
    }
    while p > 1
        invariant
            p >= 1,
            p == pow10(k),
            v / p >= 1 || (v == 0 && p == 1),
            buf@ == old(buf)@ + decimal((v / p) as nat),
        decreases p,
    {
        let q: u64 = p / 10;
        let digit: u64 = (v / q) % 10;
        proof {
            assert(k > 0);
            assert(q == pow10((k - 1) as nat));
            k = (k - 1) as nat;
            lemma_div_denominator(v as int, q as int, 10);
            assert(q * 10 == p);
            assert((v / q) / 10 == v / p);
        }
        buf.push((0x30 + digit) as u8);
        proof {
            assert(buf@ =~= old(buf)@ + decimal((v / q) as nat));
        }
        p = q;
    }
    assert(p == 1);
    assert(v / 1 == v);
}

/// Appends the text of a number.
pub fn push_number_text(buf: &mut Vec<u8>, n: &Number)
    ensures
        final(buf)@ == old(buf)@ + number_text(*n),
{
    match n {
        Number::Int64(v) => {
            if *v < 0 {
                buf.push(0x2D);
                let m: u64 = ((-(*v + 1)) as u64) + 1;
                push_decimal(buf, m);
                assert(buf@ =~= old(buf)@ + number_text(*n));
            } else {
                push_decimal(buf, *v as u64);
            }
        },
        Number::UInt64(v) => {
            push_decimal(buf, *v);
        },
        Number::Float64(bits) => {
            match float_text_bytes(*bits) {
                Some(t) => {
                    buf.extend_from_slice(t.as_slice());
                },
                None => {
                    push_null(buf);
                },
            }
        },
    }
}

/// Appends the text `null`.
pub fn push_null(buf: &mut Vec<u8>)
    ensures
        final(buf)@ == old(buf)@ + null_text(),
{
    buf.push(0x6E);
    buf.push(0x75);
    buf.push(0x6C);
    buf.push(0x6C);
    assert(buf@ =~= old(buf)@ + null_text());
}

/// Appends the text `true`.
pub fn push_true(buf: &mut Vec<u8>)
    ensures
        final(buf)@ == old(buf)@ + true_text(),
{
    buf.push(0x74);
    buf.push(0x72);
    buf.push(0x75);
    buf.push(0x65);
    assert(buf@ =~= old(buf)@ + true_text());
}

/// Appends the text `false`.
pub fn push_false(buf: &mut Vec<u8>)
    ensures
        final(buf)@ == old(buf)@ + false_text(),
{
    buf.push(0x66);
    buf.push(0x61);
    buf.push(0x6C);
    buf.push(0x73);
    buf.push(0x65);
    assert(buf@ =~= old(buf)@ + false_text());
}

/// The text of one byte of a string: a backslash and a letter for the
/// backslash, the quotation mark and five control characters, else the byte.
pub open spec fn escape_byte(b: u8) -> Seq<u8> {
    if b == 0x5C {
        seq![0x5Cu8, 0x5Cu8]
    } else if b == 0x22 {
        seq![0x5Cu8, 0x22u8]
    } else if b == 0x08 {
        seq![0x5Cu8, 0x62u8]
    } else if b == 0x0C {
        seq![0x5Cu8, 0x66u8]
    } else if b == 0x0A {
        seq![0x5Cu8, 0x6Eu8]
    } else if b == 0x0D {
        seq![0x5Cu8, 0x72u8]
    } else if b == 0x09 {
        seq![0x5Cu8, 0x74u8]
    } else {
        seq![b]
    }
}

/// The text of the bytes of a string, without the quotation marks.
pub open spec fn escape_body(data: Seq<u8>) -> Seq<u8>
    decreases data.len(),
{
    if data.len() == 0 {
        Seq::empty()
    } else {
        escape_body(data.drop_last()) + escape_byte(data.last())
    }
}

/// The text of a string: its bytes between quotation marks, with escapes.
pub open spec fn escaped(data: Seq<u8>) -> Seq<u8> {
    seq![0x22u8] + escape_body(data) + seq![0x22u8]
}

/// Appends the text of the string `data`.
pub fn escape_scalar_string(data: &[u8], json: &mut Vec<u8>)
    ensures
        final(json)@ == old(json)@ + escaped(data@),
{
    json.push(0x22);
    let mut i: usize = 0;
    proof {
        assert(data@.take(0) =~= Seq::<u8>::empty());
        assert(json@ =~= old(json)@ + seq![0x22u8] + escape_body(data@.take(0)));
    }
    while i < data.len()
        invariant
            i <= data@.len(),
            json@ == old(json)@ + seq![0x22u8] + escape_body(data@.take(i as int)),
        decreases data@.len() - i,
    {
        let b = data[i];
        proof {
            assert(data@.take(i + 1).drop_last() =~= data@.take(i as int));
            assert(data@.take(i + 1).last() == b);
        }
        let ghost before = json@;
        if b == 0x5C {
            json.push(0x5C);
            json.push(0x5C);
        } else if b == 0x22 {
            json.push(0x5C);
            json.push(0x22);
        } else if b == 0x08 {
            json.push(0x5C);
            json.push(0x62);
        } else if b == 0x0C {
            json.push(0x5C);
            json.push(0x66);
        } else if b == 0x0A {
            json.push(0x5C);
            json.push(0x6E);
        } else if b == 0x0D {
            json.push(0x5C);
            json.push(0x72);
        } else if b == 0x09 {
            json.push(0x5C);
            json.push(0x74);
        } else {
            json.push(b);
        }
        proof {
            assert(json@ =~= before + escape_byte(b));
            assert(json@ =~= old(json)@ + seq![0x22u8] + escape_body(data@.take(i + 1)));
        }
        i = i + 1;
    }
    proof {
        assert(data@.take(i as int) =~= data@);
    }
    json.push(0x22);
    proof {
        assert(json@ =~= old(json)@ + escaped(data@));
    }
}

/// How the text is laid out: on one line, or each element on a line of its
/// own behind `indent` spaces.
#[derive(Debug, Clone, Copy)]
pub struct PrettyOpts {
    pub enabled: bool,
    pub indent: usize,
}

/// `n` spaces.
pub open spec fn spaces(n: nat) -> Seq<u8> {
    Seq::new(n, |i: int| 0x20u8)
}

impl PrettyOpts {
    /// The options one level deeper: two more spaces, as far as the counter
    /// goes.
    pub open spec fn inner(self) -> PrettyOpts {
        PrettyOpts {
            enabled: self.enabled,
            indent: if self.indent > usize::MAX - 2 {
                usize::MAX
            } else {
                (self.indent + 2) as usize
            },
        }
    }

    /// The text that opens a container with the bracket `c`.
    pub open spec fn open(self, c: u8) -> Seq<u8> {
        if self.enabled {
            seq![c, 0x0Au8]
        } else {
            seq![c]
        }
    }

    /// The text that closes a container with the bracket `c`.
    pub open spec fn close(self, c: u8) -> Seq<u8> {
        if self.enabled {
            seq![0x0Au8] + spaces(self.indent as nat) + seq![c]
        } else {
            seq![c]
        }
    }

    /// The text in front of the element at position `i` of a container: the
    /// comma after the element before it, and the indentation.
    pub open spec fn lead(self, i: nat) -> Seq<u8> {
        if self.enabled {
            (if i > 0 {
                seq![0x2Cu8, 0x0Au8]
            } else {
                Seq::empty()
            }) + spaces(self.inner().indent as nat)
        } else {
            if i > 0 {
                seq![0x2Cu8]
            } else {
                Seq::empty()
            }
        }
    }

    /// The text between a key and its value.
    pub open spec fn colon(self) -> Seq<u8> {
        if self.enabled {
            seq![0x3Au8, 0x20u8]
        } else {
            seq![0x3Au8]
        }
    }

    /// The options of the outermost level.
    pub fn new(enabled: bool) -> (r: PrettyOpts)
        ensures
            r == (PrettyOpts { enabled, indent: 0 }),
    {
        PrettyOpts { enabled, indent: 0 }
    }

    /// The options one level deeper.
    pub fn inc_indent(&self) -> (r: PrettyOpts)
        ensures
            r == self.inner(),
    {
        PrettyOpts {
            enabled: self.enabled,
            indent: if self.indent > usize::MAX - 2 {
                usize::MAX
            } else {
                self.indent + 2
            },
        }
    }

    /// The spaces in front of an element.
    pub fn generate_indent(&self) -> (r: Vec<u8>)
        ensures
            r@ == spaces(self.indent as nat),
    {
        let mut r: Vec<u8> = Vec::new();
        let mut i: usize = 0;
        while i < self.indent
            invariant
                i <= self.indent,
                r@ == spaces(i as nat),
            decreases self.indent - i,
        {
            r.push(0x20);
            proof {
                assert(r@ =~= spaces((i + 1) as nat));
            }
            i = i + 1;
        }
        r
    }

    fn push_open(&self, c: u8, json: &mut Vec<u8>)
        ensures
            final(json)@ == old(json)@ + self.open(c),
    {
        json.push(c);
        if self.enabled {
            json.push(0x0A);
        }
        assert(json@ =~= old(json)@ + self.open(c));
    }

    fn push_close(&self, c: u8, json: &mut Vec<u8>)
        ensures
            final(json)@ == old(json)@ + self.close(c),
    {
        if self.enabled {
            json.push(0x0A);
            let indent = self.generate_indent();
            json.extend_from_slice(indent.as_slice());
        }
        json.push(c);
        assert(json@ =~= old(json)@ + self.close(c));
    }

    fn push_lead(&self, i: usize, json: &mut Vec<u8>)
        ensures
            final(json)@ == old(json)@ + self.lead(i as nat),
    {
        if i > 0 {
            json.push(0x2C);
            if self.enabled {
                json.push(0x0A);
            }
        }
        if self.enabled {
            let indent = self.inc_indent().generate_indent();
            json.extend_from_slice(indent.as_slice());
        }
        assert(json@ =~= old(json)@ + self.lead(i as nat));
    }

    fn push_colon(&self, json: &mut Vec<u8>)
        ensures
            final(json)@ == old(json)@ + self.colon(),
    {
        json.push(0x3A);
        if self.enabled {
            json.push(0x20);
        }
        assert(json@ =~= old(json)@ + self.colon());
    }
}

/// The JSON text of a value.
///
/// An array is `[`, its elements with commas between them, and `]`; an
/// object is `{`, its members as key, colon and value with commas between
/// them, and `}`. With pretty options each element stands on a line of its
/// own, two spaces deeper than its container.
pub open spec fn text_of(s: Seq<u8>, opts: PrettyOpts) -> Result<Seq<u8>, Error>
    decreases s.len(), 2nat, 0nat,
{
    match read_word(s, 0) {
        Err(e) => Err(e),
        Ok(h) => if header_tag(h) == SCALAR_CONTAINER_TAG {
            match scalar_item(s) {
                Err(e) => Err(e),
                Ok(item) => item_text(item, opts, s.len()),
            }
        } else if header_tag(h) == ARRAY_CONTAINER_TAG {
            match container_items(s, header_len(h)) {
                Err(e) => Err(e),
                Ok(items) => match array_text_from(items, 0, opts.open(0x5B), opts, s.len()) {
                    Err(e) => Err(e),
                    Ok(t) => Ok(t + opts.close(0x5D)),
                },
            }
        } else if header_tag(h) == OBJECT_CONTAINER_TAG {
            match object_entries(s, header_len(h)) {
                Err(e) => Err(e),
                Ok(es) => match object_text_from(es, 0, opts.open(0x7B), opts, s.len()) {
                    Err(e) => Err(e),
                    Ok(t) => Ok(t + opts.close(0x7D)),
                },
            }
        } else {
            Err(Error::InvalidJsonb)
        },
    }
}

/// The JSON text of an element that is shorter than `bound`.
pub open spec fn item_text(item: RawItem, opts: PrettyOpts, bound: nat) -> Result<Seq<u8>, Error>
    decreases bound, 0nat, 0nat,
{
    if item.jentry.type_code == NULL_TAG {
        Ok(null_text())
    } else if item.jentry.type_code == TRUE_TAG {
        Ok(true_text())
    } else if item.jentry.type_code == FALSE_TAG {
        Ok(false_text())
    } else if item.jentry.type_code == NUMBER_TAG {
        match decode_number(item.data) {
            Err(e) => Err(e),
            Ok(n) => Ok(number_text(n)),
        }
    } else if item.jentry.type_code == STRING_TAG {
        Ok(escaped(item.data))
    } else if item.jentry.type_code == CONTAINER_TAG && item.data.len() < bound {
        text_of(item.data, opts)
    } else {
        Err(Error::InvalidJsonbJEntry)
    }
}

/// The text `acc` with the elements of an array from position `i` on.
pub open spec fn array_text_from(
    items: Seq<RawItem>,
    i: nat,
    acc: Seq<u8>,
    opts: PrettyOpts,
    bound: nat,
) -> Result<Seq<u8>, Error>
    decreases bound, 1nat, items.len() - i,
{
    if i >= items.len() {
        Ok(acc)
    } else {
        match item_text(items[i as int], opts.inner(), bound) {
            Err(e) => Err(e),
            Ok(t) => array_text_from(items, i + 1, acc + opts.lead(i) + t, opts, bound),
        }
    }
}

/// The text `acc` with the members of an object from position `i` on.
pub open spec fn object_text_from(
    entries: Seq<RawEntry>,
    i: nat,
    acc: Seq<u8>,
    opts: PrettyOpts,
    bound: nat,
) -> Result<Seq<u8>, Error>
    decreases bound, 1nat, entries.len() - i,
{
    if i >= entries.len() {
        Ok(acc)
    } else {
        match item_text(value_item(entries[i as int]), opts.inner(), bound) {
            Err(e) => Err(e),
            Ok(t) => object_text_from(
                entries,
                i + 1,
                acc + opts.lead(i) + escaped(entries[i as int].key) + opts.colon() + t,
                opts,
                bound,
            ),
        }
    }
}

/// What an operation that writes into a buffer leaves in it where it
/// succeeds, and the failure that it reports.
pub open spec fn wrote(
    before: Seq<u8>,
    after: Seq<u8>,
    r: Result<(), Error>,
    expected: Result<Seq<u8>, Error>,
) -> bool {
    match expected {
        Ok(t) => r is Ok && after == before + t,
        Err(e) => r == Err::<(), Error>(e),
    }
}

impl<'a> RawJsonb<'a> {
    /// Appends the JSON text of the value `value`.
    pub fn container_to_string(value: &[u8], json: &mut Vec<u8>, pretty_opts: &PrettyOpts) -> (r:
        Result<(), Error>)
        ensures
            wrote(old(json)@, final(json)@, r, text_of(value@, *pretty_opts)),
        decreases value@.len(), 1nat,
    {
        let header = read_u32(value, 0)?;
        let (tag, _) = decode_header(header);
        if tag == SCALAR_CONTAINER_TAG {
            let item = read_scalar(value)?;
            Self::scalar_to_string(&item, json, pretty_opts, Ghost(value@.len()))
        } else if tag == ARRAY_CONTAINER_TAG {
            let items = iterate_array(value, header)?;
            let ghost raw = items_view(items@);
            let ghost bound = value@.len();
            pretty_opts.push_open(0x5B, json);
            let inner = pretty_opts.inc_indent();
            let ghost start = old(json)@;
            let ghost mut acc = pretty_opts.open(0x5B);
            let mut i: usize = 0;
            while i < items.len()
                invariant
                    i <= items@.len(),
                    raw == items_view(items@),
                    items_shorter(raw, bound),
                    bound == value@.len(),
                    inner == pretty_opts.inner(),
                    json@ == start + acc,
                    text_of(value@, *pretty_opts) == match array_text_from(
                        raw,
                        0,
                        pretty_opts.open(0x5B),
                        *pretty_opts,
                        bound,
                    ) {
                        Err(e) => Err::<Seq<u8>, Error>(e),
                        Ok(t) => Ok(t + pretty_opts.close(0x5D)),
                    },
                    array_text_from(raw, i as nat, acc, *pretty_opts, bound) == array_text_from(
                        raw,
                        0,
                        pretty_opts.open(0x5B),
                        *pretty_opts,
                        bound,
                    ),
                decreases items@.len() - i,
            {
                assert(raw[i as int] == items@[i as int]@);
                assert(raw[i as int].data.len() < bound);
                pretty_opts.push_lead(i, json);
                let ghost mid = json@;
                Self::scalar_to_string(&items[i], json, &inner, Ghost(bound))?;
                proof {
                    let t = item_text(raw[i as int], inner, bound)->Ok_0;
                    assert(json@ =~= start + (acc + pretty_opts.lead(i as nat) + t));
                    acc = acc + pretty_opts.lead(i as nat) + t;
                }
                i = i + 1;
            }
            pretty_opts.push_close(0x5D, json);
            proof {
                assert(json@ =~= start + (acc + pretty_opts.close(0x5D)));
            }
            Ok(())
        } else if tag == OBJECT_CONTAINER_TAG {
            let entries = iterate_object_entries(value, header)?;
            let ghost es = entries_view(entries@);
            let ghost bound = value@.len();
            pretty_opts.push_open(0x7B, json);
            let inner = pretty_opts.inc_indent();
            let ghost start = old(json)@;
            let ghost mut acc = pretty_opts.open(0x7B);
            let mut i: usize = 0;
            while i < entries.len()
                invariant
                    i <= entries@.len(),
                    es == entries_view(entries@),
                    entries_shorter(es, bound),
                    bound == value@.len(),
                    inner == pretty_opts.inner(),
                    json@ == start + acc,
                    text_of(value@, *pretty_opts) == match object_text_from(
                        es,
                        0,
                        pretty_opts.open(0x7B),
                        *pretty_opts,
                        bound,
                    ) {
                        Err(e) => Err::<Seq<u8>, Error>(e),
                        Ok(t) => Ok(t + pretty_opts.close(0x7D)),
                    },
                    object_text_from(es, i as nat, acc, *pretty_opts, bound) == object_text_from(
                        es,
                        0,
                        pretty_opts.open(0x7B),
                        *pretty_opts,
                        bound,
                    ),
                decreases entries@.len() - i,
            {
                let e = &entries[i];
                assert(es[i as int] == e@);
                assert(es[i as int].data.len() < bound);
                pretty_opts.push_lead(i, json);
                escape_scalar_string(e.key, json);
                pretty_opts.push_colon(json);
                let item = Item { jentry: e.jentry, data: e.data };
                Self::scalar_to_string(&item, json, &inner, Ghost(bound))?;
                proof {
                    let t = item_text(value_item(es[i as int]), inner, bound)->Ok_0;
                    let next = acc + pretty_opts.lead(i as nat) + escaped(es[i as int].key)
                        + pretty_opts.colon() + t;
                    assert(json@ =~= start + next);
                    acc = next;
                }
                i = i + 1;
            }
            pretty_opts.push_close(0x7D, json);
            proof {
                assert(json@ =~= start + (acc + pretty_opts.close(0x7D)));
            }
            Ok(())
        } else {
            Err(Error::InvalidJsonb)
        }
    }

    /// Appends the JSON text of an element.
    pub(crate) fn scalar_to_string(
        item: &Item,
        json: &mut Vec<u8>,
        pretty_opts: &PrettyOpts,
        Ghost(bound): Ghost<nat>,
    ) -> (r: Result<(), Error>)
        requires
            item@.data.len() < bound,
        ensures
            wrote(old(json)@, final(json)@, r, item_text(item@, *pretty_opts, bound)),
        decreases bound, 0nat,
    {
        let t = item.jentry.type_code;
        if t == NULL_TAG {
            push_null(json);
            Ok(())
        } else if t == TRUE_TAG {
            push_true(json);
            Ok(())
        } else if t == FALSE_TAG {
            push_false(json);
            Ok(())
        } else if t == NUMBER_TAG {
            let num = Number::decode(item.data)?;
            push_number_text(json, &num);
            Ok(())
        } else if t == STRING_TAG {
            escape_scalar_string(item.data, json);
            Ok(())
        } else if t == CONTAINER_TAG {
            Self::container_to_string(item.data, json, pretty_opts)
        } else {
            Err(Error::InvalidJsonbJEntry)
        }
    }
}

} // verus!
