//! Operations on values given as bytes: in their binary form, or as JSON
//! text, which is read into the binary form first.

use vstd::prelude::*;
use vstd::string::StringSliceAdditionalSpecFns;
use vstd::slice::slice_to_vec;
use crate::error::Error;
use crate::raw::RawJsonb;
use crate::codec::{read_u32, read_word, header_tag, decode_header};
use crate::constants::{
    ARRAY_PREFIX, OBJECT_PREFIX, SCALAR_PREFIX, INVALID_LEVEL, JENTRY_OFF_LEN_MASK,
};
use crate::iterator::{RawItem, RawEntry, Item, is_container_tag, element_of, as_element, item_wf};
use crate::builder::{
    ArrayBuilder, ObjectBuilder, appended, array_result, object_result, build_entries,
};
use crate::mutate::{concat_spec, is_valid_tag};
use crate::strip::strip_nulls_spec;
use crate::keypath::{KeyPath, delete_by_keypath_spec};
use crate::comparable::{value_key, value_convert_to_comparable};
use crate::parser::{text_to_jsonb, parse_value};

verus! {

/// Whether bytes are a value in its binary form: they start with the high
/// byte of one of the three container tags.
pub open spec fn is_jsonb_spec(s: Seq<u8>) -> bool {
    s.len() > 0 && (s[0] == ARRAY_PREFIX || s[0] == OBJECT_PREFIX || s[0] == SCALAR_PREFIX)
}

/// The binary form of a value given as bytes: the bytes themselves, or what
/// they hold as JSON text.
pub open spec fn binary_of(s: Seq<u8>) -> Result<Seq<u8>, Error> {
    if is_jsonb_spec(s) {
        Ok(s)
    } else {
        text_to_jsonb(s)
    }
}

/// Whether bytes are a value in its binary form.
pub fn is_jsonb(value: &[u8]) -> (r: bool)
    ensures
        r == is_jsonb_spec(value@),
{
    if value.len() > 0 {
        let v = value[0];
        v == ARRAY_PREFIX || v == OBJECT_PREFIX || v == SCALAR_PREFIX
    } else {
        false
    }
}

/// The binary form of a value given as bytes.
pub fn to_binary(value: &[u8]) -> (r: Result<Vec<u8>, Error>)
    ensures
        match binary_of(value@) {
            Ok(bytes) => r is Ok && r->Ok_0@ == bytes,
            Err(e) => r == Err::<Vec<u8>, Error>(e),
        },
{
    if is_jsonb(value) {
        Ok(slice_to_vec(value))
    } else {
        parse_value(value)
    }
}

/// A value as one element for `build_array` and `build_object`:
/// `InvalidJsonbHeader` where its tag is none of the three.
pub open spec fn built_element(s: Seq<u8>) -> Result<RawItem, Error> {
    match read_word(s, 0) {
        Err(e) => Err(e),
        Ok(h) => if is_container_tag(header_tag(h)) {
            element_of(s)
        } else {
            Err(Error::InvalidJsonbHeader)
        },
    }
}

/// The elements `acc` with the values from position `i` on as elements.
pub open spec fn built_elements_from(values: Seq<&[u8]>, i: nat, acc: Seq<RawItem>) -> Result<
    Seq<RawItem>,
    Error,
>
    decreases values.len() - i,
{
    if i >= values.len() {
        Ok(acc)
    } else {
        match built_element(values[i as int]@) {
            Err(e) => Err(e),
            Ok(item) => built_elements_from(values, i + 1, acc.push(item)),
        }
    }
}

/// The members `acc` with the pairs of key and value from position `i` on
/// as members.
pub open spec fn built_entries_from(items: Seq<(&str, &[u8])>, i: nat, acc: Seq<RawEntry>) -> Result<
    Seq<RawEntry>,
    Error,
>
    decreases items.len() - i,
{
    if i >= items.len() {
        Ok(acc)
    } else if items[i as int].0.spec_bytes().len() > JENTRY_OFF_LEN_MASK {
        Err(Error::InvalidJsonbJEntry)
    } else {
        match built_element(items[i as int].1@) {
            Err(e) => Err(e),
            Ok(item) => built_entries_from(
                items,
                i + 1,
                acc.push(
                    RawEntry {
                        key: items[i as int].0.spec_bytes(),
                        jentry: item.jentry,
                        data: item.data,
                    },
                ),
            ),
        }
    }
}

/// What `build_array` gives: the array of the values, each as one element.
pub open spec fn build_array_spec(values: Seq<&[u8]>) -> Result<Seq<u8>, Error> {
    match built_elements_from(values, 0, Seq::empty()) {
        Err(e) => Err(e),
        Ok(items) => array_result(items),
    }
}

/// What `build_object` gives: the object of the pairs of key and value,
/// sorted by key, and of two pairs with one key the later.
pub open spec fn build_object_spec(items: Seq<(&str, &[u8])>) -> Result<Seq<u8>, Error> {
    match built_entries_from(items, 0, Seq::empty()) {
        Err(e) => Err(e),
        Ok(es) => object_result(build_entries(es)),
    }
}

/// The value as one element for `build_array` and `build_object`.
fn element_for_build<'b>(value: &'b [u8]) -> (r: Result<Item<'b>, Error>)
    ensures
        match built_element(value@) {
            Ok(item) => r is Ok && r->Ok_0@ == item && item_wf(item),
            Err(e) => r == Err::<Item<'b>, Error>(e),
        },
{
    let header = read_u32(value, 0)?;
    let (tag, _) = decode_header(header);
    if !is_valid_tag(tag) {
        return Err(Error::InvalidJsonbHeader);
    }
    as_element(value)
}

/// Builds an array from values in their binary form.
pub fn build_array(items: &[&[u8]], buf: &mut Vec<u8>) -> (r: Result<(), Error>)
    ensures
        appended(old(buf)@, final(buf)@, r, build_array_spec(items@)),
{
    let mut builder = ArrayBuilder::new(items.len());
    let mut i: usize = 0;
    while i < items.len()
        invariant
            i <= items@.len(),
            buf@ == old(buf)@,
            builder.wf(),
            built_elements_from(items@, i as nat, builder@) == built_elements_from(
                items@,
                0,
                Seq::empty(),
            ),
        decreases items@.len() - i,
    {
        let item = element_for_build(items[i])?;
        builder.push_raw(item.jentry, item.data);
        i = i + 1;
    }
    builder.finish(buf)
}

/// Builds an object from keys and values in their binary form.
pub fn build_object(items: &[(&str, &[u8])], buf: &mut Vec<u8>) -> (r: Result<(), Error>)
    ensures
        appended(old(buf)@, final(buf)@, r, build_object_spec(items@)),
{
    let mut builder = ObjectBuilder::new();
    let ghost mut acc: Seq<RawEntry> = Seq::empty();
    let mut i: usize = 0;
    while i < items.len()
        invariant
            i <= items@.len(),
            buf@ == old(buf)@,
            builder.wf(),
            builder@ == build_entries(acc),
            built_entries_from(items@, i as nat, acc) == built_entries_from(items@, 0, Seq::empty()),
        decreases items@.len() - i,
    {
        let key = items[i].0.as_bytes();
        if key.len() > JENTRY_OFF_LEN_MASK as usize {
            return Err(Error::InvalidJsonbJEntry);
        }
        let item = element_for_build(items[i].1)?;
        builder.push_raw(key, item.jentry, item.data);
        proof {
            let e = RawEntry { key: key@, jentry: item@.jentry, data: item@.data };
            assert(acc.push(e).drop_last() =~= acc);
            acc = acc.push(e);
        }
        i = i + 1;
    }
    builder.finish(buf)
}

/// The key of a value given as bytes: of a value in its binary form its
/// key, or nothing where it is malformed; of JSON text the key of what it
/// holds; and of other bytes the lowest level and the bytes themselves.
pub open spec fn comparable_spec(s: Seq<u8>) -> Seq<u8> {
    match binary_of(s) {
        Ok(b) => match value_key(b, 0) {
            Ok(k) => k,
            Err(_) => Seq::empty(),
        },
        Err(_) => seq![0u8, INVALID_LEVEL] + s,
    }
}

/// Writes the key of a value, whose byte order among keys is the order of
/// the value among values.
pub fn convert_to_comparable(value: &[u8], buf: &mut Vec<u8>)
    ensures
        final(buf)@ == old(buf)@ + comparable_spec(value@),
{
    match to_binary(value) {
        Ok(bytes) => {
            let mut key: Vec<u8> = Vec::new();
            match value_convert_to_comparable(0, bytes.as_slice(), &mut key) {
                Ok(()) => {
                    buf.extend_from_slice(key.as_slice());
                    proof {
                        assert(key@ =~= value_key(bytes@, 0)->Ok_0);
                    }
                },
                Err(_) => {
                    proof {
                        assert(buf@ =~= old(buf)@ + Seq::<u8>::empty());
                    }
                },
            }
        },
        Err(_) => {
            buf.push(0);
            buf.push(INVALID_LEVEL);
            buf.extend_from_slice(value);
            proof {
                assert(buf@ =~= old(buf)@ + (seq![0u8, INVALID_LEVEL] + value@));
            }
        },
    }
}

/// What the concatenation of two values given as bytes is.
pub open spec fn concat_bytes_spec(l: Seq<u8>, r: Seq<u8>) -> Result<Seq<u8>, Error> {
    match binary_of(l) {
        Err(e) => Err(e),
        Ok(lb) => match binary_of(r) {
            Err(e) => Err(e),
            Ok(rb) => concat_spec(lb, rb),
        },
    }
}

/// Concatenates two values given as bytes.
pub fn concat(left: &[u8], right: &[u8], buf: &mut Vec<u8>) -> (r: Result<(), Error>)
    ensures
        appended(old(buf)@, final(buf)@, r, concat_bytes_spec(left@, right@)),
{
    let l = to_binary(left)?;
    let r = to_binary(right)?;
    RawJsonb::new(l.as_slice()).concat(RawJsonb::new(r.as_slice()), buf)
}

/// What a value given as bytes is without what a path leads to.
pub open spec fn delete_by_keypath_bytes_spec(s: Seq<u8>, path: Seq<KeyPath>) -> Result<
    Seq<u8>,
    Error,
> {
    match binary_of(s) {
        Err(e) => Err(e),
        Ok(b) => delete_by_keypath_spec(b, path),
    }
}

/// Deletes what a path of names and indexes leads to in a value given as
/// bytes.
pub fn delete_by_keypath(value: &[u8], keypath: &[KeyPath], buf: &mut Vec<u8>) -> (r: Result<
    (),
    Error,
>)
    ensures
        appended(old(buf)@, final(buf)@, r, delete_by_keypath_bytes_spec(value@, keypath@)),
{
    let b = to_binary(value)?;
    RawJsonb::new(b.as_slice()).delete_by_keypath(keypath, buf)
}

/// What a value given as bytes is without the null members of its objects.
pub open spec fn strip_nulls_bytes_spec(s: Seq<u8>) -> Result<Seq<u8>, Error> {
    match binary_of(s) {
        Err(e) => Err(e),
        Ok(b) => strip_nulls_spec(b),
    }
}

/// Deletes the members of objects whose value is null from a value given as
/// bytes.
pub fn strip_nulls(value: &[u8], buf: &mut Vec<u8>) -> (r: Result<(), Error>)
    ensures
        appended(old(buf)@, final(buf)@, r, strip_nulls_bytes_spec(value@)),
{
    let b = to_binary(value)?;
    RawJsonb::new(b.as_slice()).strip_nulls(buf)
}

} // verus!
