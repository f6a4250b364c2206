//! Values as a tree, and their binary form.

use vstd::prelude::*;
use vstd::string::StringSliceAdditionalSpecFns;
use vstd::utf8::encode_utf8;
use crate::error::Error;
use crate::number::{Number, encode_number};
use crate::codec::JEntry;
use crate::constants::{
    NULL_TAG, TRUE_TAG, FALSE_TAG, STRING_TAG, NUMBER_TAG, JENTRY_OFF_LEN_MASK,
};
use crate::iterator::{RawItem, RawEntry, item_wf};
use crate::builder::{
    ArrayBuilder, ObjectBuilder, OwnedItem, appended, array_result, object_result, nested_item,
    build_entries, encode_scalar,
};
use crate::codec::put_u32;
use crate::bytes::{
    bytes_eq, eq_ignore_ascii_case, same_ignoring_ascii_case, Order, lex_order, compare_bytes,
    lemma_lex_equal, lemma_lex_flip, lemma_lex_transitive,
};
use crate::cast::{
    bool_of_text, text_to_bool, parse_i64_spec, parse_u64_spec, parse_i64, parse_u64,
};
use crate::text::{
    true_text, false_text, number_text, push_true, push_false, push_number_text, lossy_string,
    lossy_text,
};

verus! {

/// A member of an object: its key and its value.
#[derive(Debug, PartialEq, Eq)]
pub struct Member {
    pub key: String,
    pub value: Value,
}

/// A value. The members of an object are held in ascending order of their
/// keys, each key once.
#[derive(Debug, PartialEq, Eq, Default)]
pub enum Value {
    #[default]
    Null,
    Bool(bool),
    String(String),
    Number(Number),
    Array(Vec<Value>),
    Object(Vec<Member>),
}

/// The bytes of a string.
pub open spec fn string_bytes(s: String) -> Seq<u8> {
    encode_utf8(s@)
}

/// The bytes of a string.
pub fn bytes_of(s: &String) -> (r: &[u8])
    ensures
        r@ == string_bytes(*s),
{
    s.as_str().as_bytes()
}

/// The position of the first member from position `i` on whose key is `name`.
pub open spec fn member_from(ms: Seq<Member>, name: Seq<u8>, i: nat) -> Option<int>
    decreases ms.len() - i,
{
    if i >= ms.len() {
        None
    } else if string_bytes(ms[i as int].key) == name {
        Some(i as int)
    } else {
        member_from(ms, name, i + 1)
    }
}

/// The position of the first member from position `i` on whose key is
/// `name` but for the case of ASCII letters.
pub open spec fn member_ignoring_case_from(ms: Seq<Member>, name: Seq<u8>, i: nat) -> Option<int>
    decreases ms.len() - i,
{
    if i >= ms.len() {
        None
    } else if same_ignoring_ascii_case(name, string_bytes(ms[i as int].key)) {
        Some(i as int)
    } else {
        member_ignoring_case_from(ms, name, i + 1)
    }
}

/// The position of the member that a name stands for: the first member with
/// that key; where there is none and case is ignored, the first member whose
/// key is the name but for the case of ASCII letters.
pub open spec fn member_named(ms: Seq<Member>, name: Seq<u8>, ignore_case: bool) -> Option<int> {
    match member_from(ms, name, 0) {
        Some(k) => Some(k),
        None => if ignore_case {
            member_ignoring_case_from(ms, name, 0)
        } else {
            None
        },
    }
}

/// A position that is found is a position of a member.
pub proof fn lemma_member_from(ms: Seq<Member>, name: Seq<u8>, i: nat)
    ensures
        match member_from(ms, name, i) {
            Some(k) => i <= k < ms.len(),
            None => true,
        },
        match member_ignoring_case_from(ms, name, i) {
            Some(k) => i <= k < ms.len(),
            None => true,
        },
    decreases ms.len() - i,
{
    if i < ms.len() {
        lemma_member_from(ms, name, i + 1);
    }
}

impl Value {
    pub open spec fn is_scalar_spec(&self) -> bool {
        !(self is Array) && !(self is Object)
    }

    /// The signed integer that the value is, if it is one.
    pub open spec fn as_i64_spec(&self) -> Option<i64> {
        match self {
            Value::Number(n) => n.as_i64_spec(),
            _ => None,
        }
    }

    /// The unsigned integer that the value is, if it is one.
    pub open spec fn as_u64_spec(&self) -> Option<u64> {
        match self {
            Value::Number(n) => n.as_u64_spec(),
            _ => None,
        }
    }

    /// What the cast to a boolean gives.
    pub open spec fn to_bool_spec(&self) -> Result<bool, Error> {
        match self {
            Value::Bool(v) => Ok(*v),
            Value::String(s) => match bool_of_text(string_bytes(*s)) {
                Some(v) => Ok(v),
                None => Err(Error::InvalidCast),
            },
            _ => Err(Error::InvalidCast),
        }
    }

    /// What the cast to a signed integer gives.
    pub open spec fn to_i64_spec(&self) -> Result<i64, Error> {
        match self {
            Value::Number(n) => match n.as_i64_spec() {
                Some(v) => Ok(v),
                None => Err(Error::InvalidCast),
            },
            Value::Bool(v) => Ok(
                if *v {
                    1i64
                } else {
                    0i64
                },
            ),
            Value::String(s) => match parse_i64_spec(string_bytes(*s)) {
                Some(v) => Ok(v),
                None => Err(Error::InvalidCast),
            },
            _ => Err(Error::InvalidCast),
        }
    }

    /// What the cast to an unsigned integer gives.
    pub open spec fn to_u64_spec(&self) -> Result<u64, Error> {
        match self {
            Value::Number(n) => match n.as_u64_spec() {
                Some(v) => Ok(v),
                None => Err(Error::InvalidCast),
            },
            Value::Bool(v) => Ok(
                if *v {
                    1u64
                } else {
                    0u64
                },
            ),
            Value::String(s) => match parse_u64_spec(string_bytes(*s)) {
                Some(v) => Ok(v),
                None => Err(Error::InvalidCast),
            },
            _ => Err(Error::InvalidCast),
        }
    }

    /// The name of the type of the value.
    pub open spec fn type_of_spec(&self) -> &'static str {
        match self {
            Value::Null => "null",
            Value::Bool(_) => "boolean",
            Value::String(_) => "string",
            Value::Number(_) => "number",
            Value::Array(_) => "array",
            Value::Object(_) => "object",
        }
    }

    /// Whether the value is neither an array nor an object.
    pub fn is_scalar(&self) -> (r: bool)
        ensures
            r == self.is_scalar_spec(),
    {
        !self.is_array() && !self.is_object()
    }

    pub fn is_object(&self) -> (r: bool)
        ensures
            r == (self is Object),
    {
        self.as_object().is_some()
    }

    /// The members of the object that the value is.
    pub fn as_object(&self) -> (r: Option<&Vec<Member>>)
        ensures
            match self {
                Value::Object(ms) => r == Some(ms),
                _ => r is None,
            },
    {
        match self {
            Value::Object(obj) => Some(obj),
            _ => None,
        }
    }

    pub fn is_array(&self) -> (r: bool)
        ensures
            r == (self is Array),
    {
        self.as_array().is_some()
    }

    /// The elements of the array that the value is.
    pub fn as_array(&self) -> (r: Option<&Vec<Value>>)
        ensures
            match self {
                Value::Array(vs) => r == Some(vs),
                _ => r is None,
            },
    {
        match self {
            Value::Array(array) => Some(array),
            _ => None,
        }
    }

    pub fn is_string(&self) -> (r: bool)
        ensures
            r == (self is String),
    {
        self.as_str().is_some()
    }

    /// The string that the value is.
    pub fn as_str(&self) -> (r: Option<&String>)
        ensures
            match self {
                Value::String(s) => r == Some(s),
                _ => r is None,
            },
    {
        match self {
            Value::String(s) => Some(s),
            _ => None,
        }
    }

    pub fn is_number(&self) -> (r: bool)
        ensures
            r == (self is Number),
    {
        match self {
            Value::Number(_) => true,
            _ => false,
        }
    }

    /// The number that the value is.
    pub fn as_number(&self) -> (r: Option<&Number>)
        ensures
            match self {
                Value::Number(n) => r == Some(n),
                _ => r is None,
            },
    {
        match self {
            Value::Number(n) => Some(n),
            _ => None,
        }
    }

    pub fn is_i64(&self) -> (r: bool)
        ensures
            r == (self.as_i64_spec() is Some),
    {
        self.as_i64().is_some()
    }

    pub fn is_u64(&self) -> (r: bool)
        ensures
            r == (self.as_u64_spec() is Some),
    {
        self.as_u64().is_some()
    }

    /// Whether the value has a value as a double, which every number has.
    pub fn is_f64(&self) -> (r: bool)
        ensures
            r == (self is Number),
    {
        self.is_number()
    }

    pub fn as_i64(&self) -> (r: Option<i64>)
        ensures
            r == self.as_i64_spec(),
    {
        match self {
            Value::Number(n) => n.as_i64(),
            _ => None,
        }
    }

    pub fn as_u64(&self) -> (r: Option<u64>)
        ensures
            r == self.as_u64_spec(),
    {
        match self {
            Value::Number(n) => n.as_u64(),
            _ => None,
        }
    }

    pub fn is_boolean(&self) -> (r: bool)
        ensures
            r == (self is Bool),
    {
        self.as_bool().is_some()
    }

    pub fn as_bool(&self) -> (r: Option<bool>)
        ensures
            match self {
                Value::Bool(v) => r == Some(*v),
                _ => r is None,
            },
    {
        match self {
            Value::Bool(v) => Some(*v),
            _ => None,
        }
    }

    pub fn is_null(&self) -> (r: bool)
        ensures
            r == (self is Null),
    {
        self.as_null().is_some()
    }

    pub fn as_null(&self) -> (r: Option<()>)
        ensures
            r is Some <==> self is Null,
    {
        match self {
            Value::Null => Some(()),
            _ => None,
        }
    }

    /// Casts the value to a boolean.
    pub fn to_bool(&self) -> (r: Result<bool, Error>)
        ensures
            r == self.to_bool_spec(),
    {
        match self {
            Value::Bool(v) => Ok(*v),
            Value::String(s) => match text_to_bool(bytes_of(s)) {
                Some(v) => Ok(v),
                None => Err(Error::InvalidCast),
            },
            _ => Err(Error::InvalidCast),
        }
    }

    /// Casts the value to a signed integer.
    pub fn to_i64(&self) -> (r: Result<i64, Error>)
        ensures
            r == self.to_i64_spec(),
    {
        match self {
            Value::Number(n) => match n.as_i64() {
                Some(v) => Ok(v),
                None => Err(Error::InvalidCast),
            },
            Value::Bool(v) => Ok(
                if *v {
                    1
                } else {
                    0
                },
            ),
            Value::String(s) => match parse_i64(bytes_of(s)) {
                Some(v) => Ok(v),
                None => Err(Error::InvalidCast),
            },
            _ => Err(Error::InvalidCast),
        }
    }

    /// Casts the value to an unsigned integer.
    pub fn to_u64(&self) -> (r: Result<u64, Error>)
        ensures
            r == self.to_u64_spec(),
    {
        match self {
            Value::Number(n) => match n.as_u64() {
                Some(v) => Ok(v),
                None => Err(Error::InvalidCast),
            },
            Value::Bool(v) => Ok(
                if *v {
                    1
                } else {
                    0
                },
            ),
            Value::String(s) => match parse_u64(bytes_of(s)) {
                Some(v) => Ok(v),
                None => Err(Error::InvalidCast),
            },
            _ => Err(Error::InvalidCast),
        }
    }

    /// Casts the value to a string: a string itself, `true` or `false` for a
    /// boolean, and the text of a number.
    pub fn to_str(&self) -> (r: Result<String, Error>)
        ensures
            match self {
                Value::String(s) => r is Ok && r->Ok_0@ == s@,
                Value::Bool(v) => r is Ok && r->Ok_0@ == lossy_text(
                    if *v {
                        true_text()
                    } else {
                        false_text()
                    },
                ),
                Value::Number(n) => r is Ok && r->Ok_0@ == lossy_text(number_text(*n)),
                _ => r == Err::<String, Error>(Error::InvalidCast),
            },
    {
        match self {
            Value::String(s) => Ok(s.clone()),
            Value::Bool(v) => {
                let mut buf: Vec<u8> = Vec::new();
                if *v {
                    push_true(&mut buf);
                } else {
                    push_false(&mut buf);
                }
                proof {
                    assert(buf@ =~= if *v {
                        true_text()
                    } else {
                        false_text()
                    });
                }
                Ok(lossy_string(buf.as_slice()))
            },
            Value::Number(n) => {
                let mut buf: Vec<u8> = Vec::new();
                push_number_text(&mut buf, n);
                proof {
                    assert(buf@ =~= number_text(*n));
                }
                Ok(lossy_string(buf.as_slice()))
            },
            _ => Err(Error::InvalidCast),
        }
    }

    /// The name of the type of the value: `object`, `array`, `string`,
    /// `number`, `boolean` or `null`.
    pub fn type_of(&self) -> (r: &'static str)
        ensures
            r@ == self.type_of_spec()@,
    {
        match self {
            Value::Null => "null",
            Value::Bool(_) => "boolean",
            Value::String(_) => "string",
            Value::Number(_) => "number",
            Value::Array(_) => "array",
            Value::Object(_) => "object",
        }
    }

    /// The value of the member of an object with a name; with `ignore_case`,
    /// a member whose key is the name but for the case of ASCII letters
    /// where none has the name itself.
    pub fn get_by_name(&self, name: &str, ignore_case: bool) -> (r: Option<&Value>)
        ensures
            match self {
                Value::Object(ms) => match member_named(ms@, name.spec_bytes(), ignore_case) {
                    Some(k) => 0 <= k < ms@.len() && r == Some(&ms@[k].value),
                    None => r is None,
                },
                _ => r is None,
            },
    {
        match self {
            Value::Object(obj) => {
                let key = name.as_bytes();
                proof {
                    lemma_member_from(obj@, key@, 0);
                }
                let mut i: usize = 0;
                while i < obj.len()
                    invariant
                        i <= obj@.len(),
                        key@ == name.spec_bytes(),
                        *self == Value::Object(*obj),
                        member_from(obj@, key@, i as nat) == member_from(obj@, key@, 0),
                    decreases obj@.len() - i,
                {
                    if bytes_eq(bytes_of(&obj[i].key), key) {
                        return Some(&obj[i].value);
                    }
                    i = i + 1;
                }
                if ignore_case {
                    let mut j: usize = 0;
                    while j < obj.len()
                        invariant
                            j <= obj@.len(),
                            key@ == name.spec_bytes(),
                            *self == Value::Object(*obj),
                            ignore_case,
                            member_from(obj@, key@, 0) is None,
                            member_ignoring_case_from(obj@, key@, j as nat)
                                == member_ignoring_case_from(obj@, key@, 0),
                        decreases obj@.len() - j,
                    {
                        if eq_ignore_ascii_case(key, bytes_of(&obj[j].key)) {
                            return Some(&obj[j].value);
                        }
                        j = j + 1;
                    }
                }
                None
            },
            _ => None,
        }
    }

    /// The element of an array at an index.
    pub fn get_by_index(&self, index: usize) -> (r: Option<&Value>)
        ensures
            match self {
                Value::Array(vs) => if index < vs@.len() {
                    r == Some(&vs@[index as int])
                } else {
                    r is None
                },
                _ => r is None,
            },
    {
        match self {
            Value::Array(arr) => {
                if index >= arr.len() {
                    return None;
                }
                Some(&arr[index])
            },
            _ => None,
        }
    }

    /// The number of elements of an array.
    pub fn array_length(&self) -> (r: Option<usize>)
        ensures
            match self {
                Value::Array(vs) => r == Some(vs@.len() as usize),
                _ => r is None,
            },
    {
        match self {
            Value::Array(arr) => Some(arr.len()),
            _ => None,
        }
    }

    /// The keys of an object as an array of strings, in the order of the
    /// members.
    pub fn object_keys(&self) -> (r: Option<Value>)
        ensures
            match self {
                Value::Object(ms) => r is Some && r->Some_0 is Array && r->Some_0->Array_0@.len()
                    == ms@.len() && forall|i: int|
                    0 <= i < ms@.len() ==> #[trigger] r->Some_0->Array_0@[i] == Value::String(
                        ms@[i].key,
                    ),
                _ => r is None,
            },
    {
        match self {
            Value::Object(obj) => {
                let mut keys: Vec<Value> = Vec::new();
                let mut i: usize = 0;
                while i < obj.len()
                    invariant
                        i <= obj@.len(),
                        keys@.len() == i,
                        forall|j: int| 0 <= j < i ==> #[trigger] keys@[j] == Value::String(obj@[j].key),
                    decreases obj@.len() - i,
                {
                    keys.push(Value::String(obj[i].key.clone()));
                    i = i + 1;
                }
                Some(Value::Array(keys))
            },
            _ => None,
        }
    }

    /// Whether two values are of one kind.
    pub fn eq_variant(&self, other: &Value) -> (r: bool)
        ensures
            r == ((self is Null && other is Null) || (self is Bool && other is Bool) || (self is String
                && other is String) || (self is Number && other is Number) || (self is Array
                && other is Array) || (self is Object && other is Object)),
    {
        match (self, other) {
            (Value::Null, Value::Null) => true,
            (Value::Bool(_), Value::Bool(_)) => true,
            (Value::String(_), Value::String(_)) => true,
            (Value::Number(_), Value::Number(_)) => true,
            (Value::Array(_), Value::Array(_)) => true,
            (Value::Object(_), Value::Object(_)) => true,
            _ => false,
        }
    }
}

/// A string as an element; `InvalidJsonbJEntry` where it is too long for a
/// JEntry.
pub open spec fn string_element(bytes: Seq<u8>) -> Result<RawItem, Error> {
    if bytes.len() > JENTRY_OFF_LEN_MASK {
        Err(Error::InvalidJsonbJEntry)
    } else {
        Ok(RawItem { jentry: JEntry { type_code: STRING_TAG, length: bytes.len() as u32 }, data: bytes })
    }
}

/// An element without a payload.
pub open spec fn bare_element(type_code: u32) -> RawItem {
    RawItem { jentry: JEntry { type_code, length: 0 }, data: Seq::empty() }
}

impl Value {
    /// The value as an element of an array: a scalar by its JEntry and
    /// payload, an array or an object as a nested container in its wire form.
    pub open spec fn element(self) -> Result<RawItem, Error>
        decreases self, 0nat,
    {
        match self {
            Value::Null => Ok(bare_element(NULL_TAG)),
            Value::Bool(v) => Ok(
                bare_element(
                    if v {
                        TRUE_TAG
                    } else {
                        FALSE_TAG
                    },
                ),
            ),
            Value::String(s) => string_element(string_bytes(s)),
            Value::Number(n) => Ok(
                RawItem {
                    jentry: JEntry { type_code: NUMBER_TAG, length: encode_number(n).len() as u32 },
                    data: encode_number(n),
                },
            ),
            Value::Array(vs) => match elements_from(vs@, 0, Seq::empty()) {
                Err(e) => Err(e),
                Ok(items) => nested_item(array_result(items)),
            },
            Value::Object(ms) => match entries_from(ms@, 0, Seq::empty()) {
                Err(e) => Err(e),
                Ok(es) => nested_item(object_result(build_entries(es))),
            },
        }
    }

    /// The binary form of the value.
    pub open spec fn encoded(self) -> Result<Seq<u8>, Error> {
        match self {
            Value::Array(vs) => match elements_from(vs@, 0, Seq::empty()) {
                Err(e) => Err(e),
                Ok(items) => array_result(items),
            },
            Value::Object(ms) => match entries_from(ms@, 0, Seq::empty()) {
                Err(e) => Err(e),
                Ok(es) => object_result(build_entries(es)),
            },
            _ => match self.element() {
                Err(e) => Err(e),
                Ok(item) => Ok(encode_scalar(item)),
            },
        }
    }
}

/// The elements `acc` with the values from position `i` on as elements.
pub open spec fn elements_from(vs: Seq<Value>, i: nat, acc: Seq<RawItem>) -> Result<
    Seq<RawItem>,
    Error,
>
    decreases vs, vs.len() - i,
{
    if i >= vs.len() {
        Ok(acc)
    } else {
        match vs[i as int].element() {
            Err(e) => Err(e),
            Ok(item) => elements_from(vs, i + 1, acc.push(item)),
        }
    }
}

/// The members `acc` with the members from position `i` on, each with its
/// value as an element.
pub open spec fn entries_from(ms: Seq<Member>, i: nat, acc: Seq<RawEntry>) -> Result<
    Seq<RawEntry>,
    Error,
>
    decreases ms, ms.len() - i,
{
    if i >= ms.len() {
        Ok(acc)
    } else if string_bytes(ms[i as int].key).len() > JENTRY_OFF_LEN_MASK {
        Err(Error::InvalidJsonbJEntry)
    } else {
        match ms[i as int].value.element() {
            Err(e) => Err(e),
            Ok(item) => entries_from(
                ms,
                i + 1,
                acc.push(
                    RawEntry { key: string_bytes(ms[i as int].key), jentry: item.jentry, data: item.data },
                ),
            ),
        }
    }
}

/// The builder of the array of the values `vs`.
pub fn elements_builder(vs: &Vec<Value>) -> (r: Result<ArrayBuilder, Error>)
    ensures
        match elements_from(vs@, 0, Seq::empty()) {
            Ok(items) => r is Ok && r->Ok_0@ == items && r->Ok_0.wf(),
            Err(e) => r == Err::<ArrayBuilder, Error>(e),
        },
    decreases *vs,
{
    let mut builder = ArrayBuilder::new(vs.len());
    let mut i: usize = 0;
    while i < vs.len()
        invariant
            i <= vs@.len(),
            builder.wf(),
            elements_from(vs@, i as nat, builder@) == elements_from(vs@, 0, Seq::empty()),
        decreases vs@.len() - i,
    {
        proof {
            assert(decreases_to!(*vs => vs[i as int]));
        }
        let item = vs[i].to_element()?;
        builder.push_raw(item.jentry, item.data.as_slice());
        i = i + 1;
    }
    Ok(builder)
}

/// The builder of the object of the members `ms`.
pub fn entries_builder(ms: &Vec<Member>) -> (r: Result<ObjectBuilder, Error>)
    ensures
        match entries_from(ms@, 0, Seq::empty()) {
            Ok(es) => r is Ok && r->Ok_0@ == build_entries(es) && r->Ok_0.wf(),
            Err(e) => r == Err::<ObjectBuilder, Error>(e),
        },
    decreases *ms,
{
    let mut builder = ObjectBuilder::new();
    let ghost mut acc: Seq<RawEntry> = Seq::empty();
    let mut i: usize = 0;
    while i < ms.len()
        invariant
            i <= ms@.len(),
            builder.wf(),
            builder@ == build_entries(acc),
            entries_from(ms@, i as nat, acc) == entries_from(ms@, 0, Seq::empty()),
        decreases ms@.len() - i,
    {
        let m = &ms[i];
        let key = bytes_of(&m.key);
        if key.len() > JENTRY_OFF_LEN_MASK as usize {
            return Err(Error::InvalidJsonbJEntry);
        }
        proof {
            assert(decreases_to!(*ms => ms[i as int]));
            assert(decreases_to!(ms[i as int] => ms[i as int].value));
        }
        let item = m.value.to_element()?;
        builder.push_raw(key, item.jentry, item.data.as_slice());
        proof {
            let e = RawEntry { key: key@, jentry: item@.jentry, data: item@.data };
            assert(acc.push(e).drop_last() =~= acc);
            acc = acc.push(e);
        }
        i = i + 1;
    }
    Ok(builder)
}

impl Value {
    /// The value as an element of an array.
    pub fn to_element(&self) -> (r: Result<OwnedItem, Error>)
        ensures
            match self.element() {
                Ok(item) => r is Ok && r->Ok_0@ == item && item_wf(item),
                Err(e) => r == Err::<OwnedItem, Error>(e),
            },
        decreases *self,
    {
        match self {
            Value::Null => {
                let item = OwnedItem { jentry: JEntry::make_null_jentry(), data: Vec::new() };
                assert(item@.data =~= Seq::<u8>::empty());
                Ok(item)
            },
            Value::Bool(v) => {
                let jentry = if *v {
                    JEntry::make_true_jentry()
                } else {
                    JEntry::make_false_jentry()
                };
                let item = OwnedItem { jentry, data: Vec::new() };
                assert(item@.data =~= Seq::<u8>::empty());
                Ok(item)
            },
            Value::String(s) => {
                let data = bytes_of(s);
                if data.len() > JENTRY_OFF_LEN_MASK as usize {
                    return Err(Error::InvalidJsonbJEntry);
                }
                Ok(
                    OwnedItem {
                        jentry: JEntry::make_string_jentry(data.len()),
                        data: vstd::slice::slice_to_vec(data),
                    },
                )
            },
            Value::Number(n) => {
                let data = n.encode();
                Ok(OwnedItem { jentry: JEntry::make_number_jentry(data.len()), data })
            },
            Value::Array(vs) => {
                proof {
                    assert(self->Array_0 == *vs);
                    assert(decreases_to!(*self => self->Array_0));
                }
                let data = elements_builder(vs)?.build()?;
                if data.len() > JENTRY_OFF_LEN_MASK as usize {
                    return Err(Error::InvalidJsonbJEntry);
                }
                Ok(OwnedItem { jentry: JEntry::make_container_jentry(data.len()), data })
            },
            Value::Object(ms) => {
                proof {
                    assert(self->Object_0 == *ms);
                    assert(decreases_to!(*self => self->Object_0));
                }
                let data = entries_builder(ms)?.build()?;
                if data.len() > JENTRY_OFF_LEN_MASK as usize {
                    return Err(Error::InvalidJsonbJEntry);
                }
                Ok(OwnedItem { jentry: JEntry::make_container_jentry(data.len()), data })
            },
        }
    }

    /// Writes the binary form of the value after the bytes that `buf` holds.
    pub fn write_to_vec(&self, buf: &mut Vec<u8>) -> (r: Result<(), Error>)
        ensures
            appended(old(buf)@, final(buf)@, r, self.encoded()),
    {
        match self {
            Value::Array(vs) => elements_builder(vs)?.finish(buf),
            Value::Object(ms) => entries_builder(ms)?.finish(buf),
            _ => {
                let item = self.to_element()?;
                put_u32(buf, crate::constants::SCALAR_CONTAINER_TAG);
                put_u32(buf, item.jentry.encoded());
                buf.extend_from_slice(item.data.as_slice());
                proof {
                    assert(buf@ =~= old(buf)@ + encode_scalar(item@));
                }
                Ok(())
            },
        }
    }

    /// The binary form of the value.
    pub fn to_vec(&self) -> (r: Result<Vec<u8>, Error>)
        ensures
            match self.encoded() {
                Ok(bytes) => r is Ok && r->Ok_0@ == bytes,
                Err(e) => r == Err::<Vec<u8>, Error>(e),
            },
    {
        let mut buf: Vec<u8> = Vec::new();
        self.write_to_vec(&mut buf)?;
        proof {
            assert(buf@ =~= self.encoded()->Ok_0);
        }
        Ok(buf)
    }
}

/// The members `entries` with `e` put in by its key: in front of the members
/// with a greater key, and in place of the member with the same key.
pub open spec fn insert_member(entries: Seq<Member>, e: Member) -> Seq<Member>
    decreases entries.len(),
{
    if entries.len() == 0 {
        seq![e]
    } else {
        match lex_order(string_bytes(entries.last().key), string_bytes(e.key)) {
            Order::Less => entries.push(e),
            Order::Equal => entries.drop_last().push(e),
            Order::Greater => insert_member(entries.drop_last(), e).push(entries.last()),
        }
    }
}

/// Where a member goes that is put in by its key.
pub proof fn lemma_insert_member_at(es: Seq<Member>, e: Member, i: int)
    requires
        0 <= i <= es.len(),
        forall|j: int|
            i <= j < es.len() ==> lex_order(string_bytes((#[trigger] es[j]).key), string_bytes(e.key))
                == Order::Greater,
        i > 0 ==> lex_order(string_bytes(es[i - 1].key), string_bytes(e.key)) != Order::Greater,
    ensures
        insert_member(es, e) == if i > 0 && lex_order(string_bytes(es[i - 1].key), string_bytes(e.key))
            == Order::Equal {
            es.update(i - 1, e)
        } else {
            es.insert(i, e)
        },
    decreases es.len() - i,
{
    if i == es.len() {
        if es.len() == 0 {
            assert(seq![e] =~= es.insert(0, e));
        } else {
            match lex_order(string_bytes(es.last().key), string_bytes(e.key)) {
                Order::Less => {
                    assert(es.push(e) =~= es.insert(i, e));
                },
                Order::Equal => {
                    assert(es.drop_last().push(e) =~= es.update(i - 1, e));
                },
                Order::Greater => {},
            }
        }
    } else {
        let front = es.drop_last();
        assert(lex_order(string_bytes(es.last().key), string_bytes(e.key)) == Order::Greater);
        assert forall|j: int| i <= j < front.len() implies lex_order(
            string_bytes((#[trigger] front[j]).key),
            string_bytes(e.key),
        ) == Order::Greater by {
            assert(front[j] == es[j]);
        }
        lemma_insert_member_at(front, e, i);
        if i > 0 && lex_order(string_bytes(es[i - 1].key), string_bytes(e.key)) == Order::Equal {
            assert(front.update(i - 1, e).push(es.last()) =~= es.update(i - 1, e));
        } else {
            assert(front.insert(i, e).push(es.last()) =~= es.insert(i, e));
        }
    }
}

/// Keys in strictly ascending byte order.
pub open spec fn sorted_members(entries: Seq<Member>) -> bool {
    forall|i: int, j: int|
        0 <= i < j < entries.len() ==> lex_order(
            string_bytes((#[trigger] entries[i]).key),
            string_bytes((#[trigger] entries[j]).key),
        ) == Order::Less
}

/// Putting a member into sorted members leaves them sorted, and holds the
/// member and the old members only.
pub proof fn lemma_insert_member_sorted(es: Seq<Member>, e: Member)
    requires
        sorted_members(es),
    ensures
        sorted_members(insert_member(es, e)),
        insert_member(es, e).len() <= es.len() + 1,
        insert_member(es, e).len() >= 1,
        forall|k: int|
            0 <= k < insert_member(es, e).len() ==> (#[trigger] insert_member(es, e)[k]) == e
                || es.contains(insert_member(es, e)[k]),
    decreases es.len(),
{
    let r = insert_member(es, e);
    if es.len() == 0 {
    } else {
        let last = es.last();
        let front = es.drop_last();
        match lex_order(string_bytes(last.key), string_bytes(e.key)) {
            Order::Less => {
                assert forall|i: int, j: int| 0 <= i < j < r.len() implies lex_order(
                    string_bytes((#[trigger] r[i]).key),
                    string_bytes((#[trigger] r[j]).key),
                ) == Order::Less by {
                    if j == es.len() {
                        if i < es.len() - 1 {
                            assert(lex_order(string_bytes(es[i].key), string_bytes(es[es.len() - 1].key)) == Order::Less);
                            lemma_lex_transitive(string_bytes(es[i].key), string_bytes(last.key), string_bytes(e.key));
                        }
                    } else {
                        assert(r[i] == es[i] && r[j] == es[j]);
                    }
                }
                assert forall|k: int| 0 <= k < r.len() implies (#[trigger] r[k]) == e || es.contains(
                    r[k],
                ) by {
                    if k < es.len() {
                        assert(es[k] == r[k]);
                    }
                }
            },
            Order::Equal => {
                lemma_lex_equal(string_bytes(last.key), string_bytes(e.key));
                assert forall|i: int, j: int| 0 <= i < j < r.len() implies lex_order(
                    string_bytes((#[trigger] r[i]).key),
                    string_bytes((#[trigger] r[j]).key),
                ) == Order::Less by {
                    if j == es.len() - 1 {
                        assert(lex_order(string_bytes(es[i].key), string_bytes(es[es.len() - 1].key)) == Order::Less);
                    } else {
                        assert(r[i] == es[i] && r[j] == es[j]);
                    }
                }
                assert forall|k: int| 0 <= k < r.len() implies (#[trigger] r[k]) == e || es.contains(
                    r[k],
                ) by {
                    if k < es.len() - 1 {
                        assert(es[k] == r[k]);
                    }
                }
            },
            Order::Greater => {
                assert forall|i: int, j: int| 0 <= i < j < front.len() implies lex_order(
                    string_bytes((#[trigger] front[i]).key),
                    string_bytes((#[trigger] front[j]).key),
                ) == Order::Less by {
                    assert(front[i] == es[i] && front[j] == es[j]);
                }
                lemma_insert_member_sorted(front, e);
                let inner = insert_member(front, e);
                lemma_lex_flip(string_bytes(last.key), string_bytes(e.key));
                assert forall|k: int| 0 <= k < inner.len() implies lex_order(
                    string_bytes((#[trigger] inner[k]).key),
                    string_bytes(last.key),
                ) == Order::Less by {
                    if inner[k] != e {
                        assert(front.contains(inner[k]));
                        let m = choose|m: int| 0 <= m < front.len() && front[m] == inner[k];
                        assert(es[m] == inner[k]);
                        assert(lex_order(string_bytes(es[m].key), string_bytes(es[es.len() - 1].key)) == Order::Less);
                    }
                }
                assert forall|i: int, j: int| 0 <= i < j < r.len() implies lex_order(
                    string_bytes((#[trigger] r[i]).key),
                    string_bytes((#[trigger] r[j]).key),
                ) == Order::Less by {
                    if j == inner.len() {
                        assert(r[i] == inner[i]);
                    } else {
                        assert(r[i] == inner[i] && r[j] == inner[j]);
                    }
                }
                assert forall|k: int| 0 <= k < r.len() implies (#[trigger] r[k]) == e || es.contains(
                    r[k],
                ) by {
                    if k < inner.len() {
                        assert(r[k] == inner[k]);
                        if inner[k] != e {
                            let m = choose|m: int| 0 <= m < front.len() && front[m] == inner[k];
                            assert(es[m] == r[k]);
                        }
                    } else {
                        assert(es[es.len() - 1] == r[k]);
                    }
                }
            },
        }
    }
}

/// The members `base` with the members `pushes` put in by their keys, in
/// order: sorted by key, and of two members with one key the later.
pub open spec fn insert_members(base: Seq<Member>, pushes: Seq<Member>) -> Seq<Member>
    decreases pushes.len(),
{
    if pushes.len() == 0 {
        base
    } else {
        insert_member(insert_members(base, pushes.drop_last()), pushes.last())
    }
}

/// Members that are put into no members are held sorted by key, and are no
/// more than and none but the members that were put in.
pub proof fn lemma_insert_members(pushes: Seq<Member>)
    ensures
        sorted_members(insert_members(Seq::empty(), pushes)),
        insert_members(Seq::empty(), pushes).len() <= pushes.len(),
        forall|k: int|
            0 <= k < insert_members(Seq::empty(), pushes).len() ==> pushes.contains(
                #[trigger] insert_members(Seq::empty(), pushes)[k],
            ),
    decreases pushes.len(),
{
    if pushes.len() > 0 {
        let front = pushes.drop_last();
        let held = insert_members(Seq::empty(), front);
        lemma_insert_members(front);
        lemma_insert_member_sorted(held, pushes.last());
        let r = insert_members(Seq::empty(), pushes);
        assert forall|k: int| 0 <= k < r.len() implies pushes.contains(#[trigger] r[k]) by {
            if r[k] == pushes.last() {
                assert(pushes[pushes.len() - 1] == r[k]);
            } else {
                assert(held.contains(r[k]));
                let m = choose|m: int| 0 <= m < held.len() && held[m] == r[k];
                assert(front.contains(held[m]));
                let n = choose|n: int| 0 <= n < front.len() && front[n] == r[k];
                assert(pushes[n] == r[k]);
            }
        }
    }
}

/// Puts a member into the members of an object by its key: in front of the
/// members with a greater key, and in place of the member with the same key.
pub fn insert_into(members: &mut Vec<Member>, key: String, value: Value)
    ensures
        final(members)@ == insert_member(old(members)@, Member { key, value }),
{
    let ghost es = members@;
    let ghost e = Member { key, value };
    let mut i: usize = members.len();
    let mut same: bool = false;
    while i > 0
        invariant_except_break
            !same,
        invariant
            i <= es.len(),
            es == members@,
            forall|j: int|
                i <= j < es.len() ==> lex_order(string_bytes((#[trigger] es[j]).key), string_bytes(key))
                    == Order::Greater,
        ensures
            i <= es.len(),
            es == members@,
            forall|j: int|
                i <= j < es.len() ==> lex_order(string_bytes((#[trigger] es[j]).key), string_bytes(key))
                    == Order::Greater,
            i > 0 ==> lex_order(string_bytes(es[i - 1].key), string_bytes(key)) != Order::Greater,
            same == (i > 0 && lex_order(string_bytes(es[i - 1].key), string_bytes(key))
                == Order::Equal),
        decreases i,
    {
        let o = compare_bytes(bytes_of(&members[i - 1].key), bytes_of(&key));
        match o {
            Order::Greater => {
                i = i - 1;
            },
            Order::Equal => {
                same = true;
                break ;
            },
            Order::Less => {
                break ;
            },
        }
    }
    proof {
        lemma_insert_member_at(es, e, i as int);
    }
    let member = Member { key, value };
    if same {
        members[i - 1] = member;
        proof {
            assert(members@ =~= es.update(i - 1, e));
        }
    } else {
        members.insert(i, member);
    }
}

/// Whether two values are the same tree: of one kind, with the same
/// scalars, elements and members.
pub open spec fn same_tree(a: Value, b: Value) -> bool
    decreases a,
{
    match a {
        Value::Null => b is Null,
        Value::Bool(x) => b is Bool && b->Bool_0 == x,
        Value::String(x) => b is String && b->String_0@ == x@,
        Value::Number(x) => b is Number && b->Number_0 == x,
        Value::Array(x) => b is Array && b->Array_0@.len() == x@.len() && forall|i: int|
            0 <= i < x@.len() ==> same_tree(#[trigger] x@[i], b->Array_0@[i]),
        Value::Object(x) => b is Object && b->Object_0@.len() == x@.len() && forall|i: int|
            0 <= i < x@.len() ==> (#[trigger] x@[i]).key@ == b->Object_0@[i].key@ && same_tree(
                x@[i].value,
                b->Object_0@[i].value,
            ),
    }
}

impl Clone for Member {
    fn clone(&self) -> (r: Member)
        ensures
            r.key@ == self.key@,
            same_tree(self.value, r.value),
        decreases *self,
    {
        Member { key: self.key.clone(), value: self.value.clone() }
    }
}

impl Clone for Value {
    fn clone(&self) -> (r: Value)
        ensures
            same_tree(*self, r),
        decreases *self,
    {
        match self {
            Value::Null => Value::Null,
            Value::Bool(v) => Value::Bool(*v),
            Value::String(s) => Value::String(s.clone()),
            Value::Number(n) => Value::Number(*n),
            Value::Array(vs) => {
                proof {
                    assert(self->Array_0 == *vs);
                    assert(decreases_to!(*self => self->Array_0));
                }
                let mut out: Vec<Value> = Vec::new();
                let mut i: usize = 0;
                while i < vs.len()
                    invariant
                        i <= vs@.len(),
                        decreases_to!(*self => *vs),
                        out@.len() == i,
                        forall|j: int| 0 <= j < i ==> same_tree(#[trigger] vs@[j], out@[j]),
                    decreases vs@.len() - i,
                {
                    proof {
                        assert(decreases_to!(*vs => vs[i as int]));
                    }
                    out.push(vs[i].clone());
                    i = i + 1;
                }
                Value::Array(out)
            },
            Value::Object(ms) => {
                proof {
                    assert(self->Object_0 == *ms);
                    assert(decreases_to!(*self => self->Object_0));
                }
                let mut out: Vec<Member> = Vec::new();
                let mut i: usize = 0;
                while i < ms.len()
                    invariant
                        i <= ms@.len(),
                        decreases_to!(*self => *ms),
                        out@.len() == i,
                        forall|j: int|
                            0 <= j < i ==> (#[trigger] ms@[j]).key@ == out@[j].key@ && same_tree(
                                ms@[j].value,
                                out@[j].value,
                            ),
                    decreases ms@.len() - i,
                {
                    proof {
                        assert(decreases_to!(*ms => ms[i as int]));
                    }
                    out.push(ms[i].clone());
                    i = i + 1;
                }
                Value::Object(out)
            },
        }
    }
}

/// The object of the members `pushes`, put in by their keys in order.
pub fn object_from_members(pushes: Vec<Member>) -> (r: Value)
    ensures
        r is Object,
        r->Object_0@ == insert_members(Seq::empty(), pushes@),
{
    let ghost all = pushes@;
    let mut rest = pushes;
    let mut members: Vec<Member> = Vec::new();
    let ghost mut k: int = 0;
    proof {
        assert(all.take(0) =~= Seq::<Member>::empty());
        assert(all.skip(0) =~= all);
    }
    while rest.len() > 0
        invariant
            0 <= k,
            k + rest@.len() == all.len(),
            rest@ == all.skip(k),
            members@ == insert_members(Seq::empty(), all.take(k)),
        decreases rest@.len(),
    {
        let m = rest.remove(0);
        proof {
            assert(m == all[k]);
            assert(rest@ =~= all.skip(k + 1));
            assert(all.take(k + 1).drop_last() =~= all.take(k));
            assert(all.take(k + 1).last() == all[k]);
        }
        insert_into(&mut members, m.key, m.value);
        proof {
            k = k + 1;
        }
    }
    proof {
        assert(all.take(k) =~= all);
    }
    Value::Object(members)
}

} // verus!
