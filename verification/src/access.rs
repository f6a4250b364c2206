//! Reading a value: its kind, its scalar, its elements and members.

use vstd::prelude::*;
use vstd::string::StringSliceAdditionalSpecFns;
use vstd::slice::slice_to_vec;
use crate::error::Error;
use crate::raw::RawJsonb;
use crate::codec::{read_u32, read_word, header_tag, header_len, decode_header};
use crate::constants::{
    ARRAY_CONTAINER_TAG, OBJECT_CONTAINER_TAG, SCALAR_CONTAINER_TAG, NULL_TAG, STRING_TAG,
    NUMBER_TAG, TRUE_TAG, FALSE_TAG,
};
use crate::iterator::{
    RawItem, RawEntry, Item, Entry, items_view, entries_view, container_items, object_entries,
    scalar_item, read_scalar, iterate_array, iterate_object_entries, is_container_tag, extract,
    extract_by_jentry, value_item, entries_wf, item_wf, entry_wf,
};
use crate::builder::{ArrayBuilder, array_result, key_item};
use crate::mutate::is_valid_tag;
use crate::contains::{find_key, find_entry};
use crate::bytes::{eq_ignore_ascii_case, same_ignoring_ascii_case};
use crate::number::{Number, decode_number};

verus! {

/// The scalar that a value is, if it is one: `None` for an array or an
/// object, `InvalidJsonb` for a tag that is none of the three.
pub open spec fn scalar_of(s: Seq<u8>) -> Result<Option<RawItem>, Error> {
    match read_word(s, 0) {
        Err(e) => Err(e),
        Ok(h) => if header_tag(h) == SCALAR_CONTAINER_TAG {
            match scalar_item(s) {
                Ok(item) => Ok(Some(item)),
                Err(e) => Err(e),
            }
        } else if is_container_tag(header_tag(h)) {
            Ok(None)
        } else {
            Err(Error::InvalidJsonb)
        },
    }
}

/// The scalar that the value is, if it is one.
pub fn scalar_value<'b>(value: &'b [u8]) -> (r: Result<Option<Item<'b>>, Error>)
    ensures
        match scalar_of(value@) {
            Ok(Some(item)) => r is Ok && r->Ok_0 is Some && r->Ok_0->Some_0@ == item,
            Ok(None) => r is Ok && r->Ok_0 is None,
            Err(e) => r == Err::<Option<Item<'b>>, Error>(e),
        },
        r is Ok && r->Ok_0 is Some ==> item_wf(r->Ok_0->Some_0@),
{
    let header = read_u32(value, 0)?;
    let (tag, _) = decode_header(header);
    if tag == SCALAR_CONTAINER_TAG {
        let item = read_scalar(value)?;
        Ok(Some(item))
    } else if is_valid_tag(tag) {
        Ok(None)
    } else {
        Err(Error::InvalidJsonb)
    }
}

/// The number of elements of an array; `None` for another value.
pub open spec fn array_length_spec(s: Seq<u8>) -> Result<Option<usize>, Error> {
    match read_word(s, 0) {
        Err(e) => Err(e),
        Ok(h) => if header_tag(h) == ARRAY_CONTAINER_TAG {
            Ok(Some(header_len(h) as usize))
        } else if is_container_tag(header_tag(h)) {
            Ok(None)
        } else {
            Err(Error::InvalidJsonb)
        },
    }
}

/// The kind of a value by its header: `Ok(true)` where its tag is `tag`,
/// `InvalidJsonb` where its tag is none of the three.
pub open spec fn has_tag(s: Seq<u8>, tag: u32) -> Result<bool, Error> {
    match read_word(s, 0) {
        Err(e) => Err(e),
        Ok(h) => if is_container_tag(header_tag(h)) {
            Ok(header_tag(h) == tag)
        } else {
            Err(Error::InvalidJsonb)
        },
    }
}

/// The name of the type of a value.
pub open spec fn type_of_spec(s: Seq<u8>) -> Result<&'static str, Error> {
    match read_word(s, 0) {
        Err(e) => Err(e),
        Ok(h) => if header_tag(h) == SCALAR_CONTAINER_TAG {
            match scalar_item(s) {
                Err(e) => Err(e),
                Ok(item) => if item.jentry.type_code == NULL_TAG {
                    Ok("null")
                } else if item.jentry.type_code == TRUE_TAG || item.jentry.type_code == FALSE_TAG {
                    Ok("boolean")
                } else if item.jentry.type_code == NUMBER_TAG {
                    Ok("number")
                } else if item.jentry.type_code == STRING_TAG {
                    Ok("string")
                } else {
                    Err(Error::InvalidJsonbJEntry)
                },
            }
        } else if header_tag(h) == ARRAY_CONTAINER_TAG {
            Ok("array")
        } else if header_tag(h) == OBJECT_CONTAINER_TAG {
            Ok("object")
        } else {
            Err(Error::InvalidJsonbHeader)
        },
    }
}

/// Whether a value is the scalar null.
pub open spec fn as_null_spec(s: Seq<u8>) -> Result<Option<()>, Error> {
    match scalar_of(s) {
        Err(e) => Err(e),
        Ok(Some(item)) => if item.jentry.type_code == NULL_TAG {
            Ok(Some(()))
        } else {
            Ok(None)
        },
        Ok(None) => Ok(None),
    }
}

/// The boolean that a value is, if it is one.
pub open spec fn as_bool_spec(s: Seq<u8>) -> Result<Option<bool>, Error> {
    match scalar_of(s) {
        Err(e) => Err(e),
        Ok(Some(item)) => if item.jentry.type_code == TRUE_TAG {
            Ok(Some(true))
        } else if item.jentry.type_code == FALSE_TAG {
            Ok(Some(false))
        } else {
            Ok(None)
        },
        Ok(None) => Ok(None),
    }
}

/// The number that a value is, if it is one; `InvalidNumber` where its
/// payload holds none.
pub open spec fn as_number_spec(s: Seq<u8>) -> Result<Option<Number>, Error> {
    match scalar_of(s) {
        Err(e) => Err(e),
        Ok(Some(item)) => if item.jentry.type_code == NUMBER_TAG {
            match decode_number(item.data) {
                Ok(n) => Ok(Some(n)),
                Err(e) => Err(e),
            }
        } else {
            Ok(None)
        },
        Ok(None) => Ok(None),
    }
}

/// The signed integer that a value is, if it is one.
pub open spec fn as_i64_spec(s: Seq<u8>) -> Result<Option<i64>, Error> {
    match as_number_spec(s) {
        Err(e) => Err(e),
        Ok(Some(n)) => Ok(n.as_i64_spec()),
        Ok(None) => Ok(None),
    }
}

/// The unsigned integer that a value is, if it is one.
pub open spec fn as_u64_spec(s: Seq<u8>) -> Result<Option<u64>, Error> {
    match as_number_spec(s) {
        Err(e) => Err(e),
        Ok(Some(n)) => Ok(n.as_u64_spec()),
        Ok(None) => Ok(None),
    }
}

/// The bytes of the string that a value is, if it is one.
pub open spec fn as_str_spec(s: Seq<u8>) -> Result<Option<Seq<u8>>, Error> {
    match scalar_of(s) {
        Err(e) => Err(e),
        Ok(Some(item)) => if item.jentry.type_code == STRING_TAG {
            Ok(Some(item.data))
        } else {
            Ok(None)
        },
        Ok(None) => Ok(None),
    }
}

/// Whether a result holds a value.
pub open spec fn is_some_of<T>(r: Result<Option<T>, Error>) -> Result<bool, Error> {
    match r {
        Err(e) => Err(e),
        Ok(v) => Ok(v is Some),
    }
}

impl<'a> RawJsonb<'a> {
    /// The number of elements of an array.
    pub fn array_length(&self) -> (r: Result<Option<usize>, Error>)
        ensures
            r == array_length_spec(self@),
    {
        let header = read_u32(self.0, 0)?;
        let (tag, length) = decode_header(header);
        if tag == ARRAY_CONTAINER_TAG {
            Ok(Some(length))
        } else if is_valid_tag(tag) {
            Ok(None)
        } else {
            Err(Error::InvalidJsonb)
        }
    }

    /// The name of the type of the value: `object`, `array`, `string`,
    /// `number`, `boolean` or `null`.
    pub fn type_of(&self) -> (r: Result<&'static str, Error>)
        ensures
            match type_of_spec(self@) {
                Ok(name) => r is Ok && r->Ok_0@ == name@,
                Err(e) => r == Err::<&'static str, Error>(e),
            },
    {
        let value = self.0;
        let header = read_u32(value, 0)?;
        let (tag, _) = decode_header(header);
        if tag == SCALAR_CONTAINER_TAG {
            let item = read_scalar(value)?;
            let t = item.jentry.type_code;
            if t == NULL_TAG {
                Ok("null")
            } else if t == TRUE_TAG || t == FALSE_TAG {
                Ok("boolean")
            } else if t == NUMBER_TAG {
                Ok("number")
            } else if t == STRING_TAG {
                Ok("string")
            } else {
                Err(Error::InvalidJsonbJEntry)
            }
        } else if tag == ARRAY_CONTAINER_TAG {
            Ok("array")
        } else if tag == OBJECT_CONTAINER_TAG {
            Ok("object")
        } else {
            Err(Error::InvalidJsonbHeader)
        }
    }

    /// Whether the value is null.
    pub fn is_null(&self) -> (r: Result<bool, Error>)
        ensures
            r == is_some_of(as_null_spec(self@)),
    {
        Ok(self.as_null()?.is_some())
    }

    /// `Some` where the value is null.
    pub fn as_null(&self) -> (r: Result<Option<()>, Error>)
        ensures
            r == as_null_spec(self@),
    {
        match scalar_value(self.0)? {
            Some(item) => if item.jentry.type_code == NULL_TAG {
                Ok(Some(()))
            } else {
                Ok(None)
            },
            None => Ok(None),
        }
    }

    /// Whether the value is a boolean.
    pub fn is_boolean(&self) -> (r: Result<bool, Error>)
        ensures
            r == is_some_of(as_bool_spec(self@)),
    {
        Ok(self.as_bool()?.is_some())
    }

    /// The boolean that the value is.
    pub fn as_bool(&self) -> (r: Result<Option<bool>, Error>)
        ensures
            r == as_bool_spec(self@),
    {
        match scalar_value(self.0)? {
            Some(item) => if item.jentry.type_code == TRUE_TAG {
                Ok(Some(true))
            } else if item.jentry.type_code == FALSE_TAG {
                Ok(Some(false))
            } else {
                Ok(None)
            },
            None => Ok(None),
        }
    }

    /// Whether the value is a number.
    pub fn is_number(&self) -> (r: Result<bool, Error>)
        ensures
            r == is_some_of(as_number_spec(self@)),
    {
        Ok(self.as_number()?.is_some())
    }

    /// The number that the value is.
    pub fn as_number(&self) -> (r: Result<Option<Number>, Error>)
        ensures
            r == as_number_spec(self@),
    {
        match scalar_value(self.0)? {
            Some(item) => if item.jentry.type_code == NUMBER_TAG {
                let num = Number::decode(item.data)?;
                Ok(Some(num))
            } else {
                Ok(None)
            },
            None => Ok(None),
        }
    }

    /// Whether the value is an integer that a signed 64-bit integer holds.
    pub fn is_i64(&self) -> (r: Result<bool, Error>)
        ensures
            r == is_some_of(as_i64_spec(self@)),
    {
        Ok(self.as_i64()?.is_some())
    }

    /// The signed integer that the value is.
    pub fn as_i64(&self) -> (r: Result<Option<i64>, Error>)
        ensures
            r == as_i64_spec(self@),
    {
        match self.as_number()? {
            Some(num) => Ok(num.as_i64()),
            None => Ok(None),
        }
    }

    /// Whether the value is an integer that an unsigned 64-bit integer holds.
    pub fn is_u64(&self) -> (r: Result<bool, Error>)
        ensures
            r == is_some_of(as_u64_spec(self@)),
    {
        Ok(self.as_u64()?.is_some())
    }

    /// The unsigned integer that the value is.
    pub fn as_u64(&self) -> (r: Result<Option<u64>, Error>)
        ensures
            r == as_u64_spec(self@),
    {
        match self.as_number()? {
            Some(num) => Ok(num.as_u64()),
            None => Ok(None),
        }
    }

    /// Whether the value has a value as a double, which every number has.
    pub fn is_f64(&self) -> (r: Result<bool, Error>)
        ensures
            r == is_some_of(as_number_spec(self@)),
    {
        Ok(self.as_number()?.is_some())
    }

    /// Whether the value is a string.
    pub fn is_string(&self) -> (r: Result<bool, Error>)
        ensures
            r == is_some_of(as_str_spec(self@)),
    {
        Ok(self.as_str_bytes()?.is_some())
    }

    /// The bytes of the string that the value is.
    pub fn as_str_bytes(&self) -> (r: Result<Option<&'a [u8]>, Error>)
        ensures
            match as_str_spec(self@) {
                Ok(Some(data)) => r is Ok && r->Ok_0 is Some && r->Ok_0->Some_0@ == data,
                Ok(None) => r is Ok && r->Ok_0 is None,
                Err(e) => r == Err::<Option<&'a [u8]>, Error>(e),
            },
    {
        match scalar_value(self.0)? {
            Some(item) => if item.jentry.type_code == STRING_TAG {
                Ok(Some(item.data))
            } else {
                Ok(None)
            },
            None => Ok(None),
        }
    }

    /// Whether the value is an array.
    pub fn is_array(&self) -> (r: Result<bool, Error>)
        ensures
            r == has_tag(self@, ARRAY_CONTAINER_TAG),
    {
        let header = read_u32(self.0, 0)?;
        let (tag, _) = decode_header(header);
        if is_valid_tag(tag) {
            Ok(tag == ARRAY_CONTAINER_TAG)
        } else {
            Err(Error::InvalidJsonb)
        }
    }

    /// Whether the value is an object.
    pub fn is_object(&self) -> (r: Result<bool, Error>)
        ensures
            r == has_tag(self@, OBJECT_CONTAINER_TAG),
    {
        let header = read_u32(self.0, 0)?;
        let (tag, _) = decode_header(header);
        if is_valid_tag(tag) {
            Ok(tag == OBJECT_CONTAINER_TAG)
        } else {
            Err(Error::InvalidJsonb)
        }
    }
}

/// The position of the first member from position `i` on whose key is
/// `name` but for the case of ASCII letters.
pub open spec fn find_key_ignoring_case_from(entries: Seq<RawEntry>, name: Seq<u8>, i: nat) -> Option<
    int,
>
    decreases entries.len() - i,
{
    if i >= entries.len() {
        None
    } else if same_ignoring_ascii_case(name, entries[i as int].key) {
        Some(i as int)
    } else {
        find_key_ignoring_case_from(entries, name, i + 1)
    }
}

/// The position of the member that a name stands for: the first member with
/// that key; where there is none and case is ignored, the first member whose
/// key is the name but for the case of ASCII letters.
pub open spec fn find_name(entries: Seq<RawEntry>, name: Seq<u8>, ignore_case: bool) -> Option<int> {
    match find_key(entries, name) {
        Some(k) => Some(k),
        None => if ignore_case {
            find_key_ignoring_case_from(entries, name, 0)
        } else {
            None
        },
    }
}

/// Where a position is found, it is a position of a member.
pub proof fn lemma_find_key_ignoring_case_from(entries: Seq<RawEntry>, name: Seq<u8>, i: nat)
    ensures
        match find_key_ignoring_case_from(entries, name, i) {
            Some(k) => i <= k < entries.len() && same_ignoring_ascii_case(name, entries[k].key),
            None => true,
        },
    decreases entries.len() - i,
{
    if i < entries.len() && !same_ignoring_ascii_case(name, entries[i as int].key) {
        lemma_find_key_ignoring_case_from(entries, name, i + 1);
    }
}

/// The position of the member that a name stands for.
pub fn find_by_name(entries: &Vec<Entry>, name: &[u8], ignore_case: bool) -> (r: Option<usize>)
    ensures
        match find_name(entries_view(entries@), name@, ignore_case) {
            Some(k) => r == Some(k as usize) && 0 <= k < entries@.len(),
            None => r is None,
        },
{
    match find_entry(entries, name) {
        Some(k) => Some(k),
        None => {
            if !ignore_case {
                return None;
            }
            let ghost es = entries_view(entries@);
            proof {
                lemma_find_key_ignoring_case_from(es, name@, 0);
            }
            let mut i: usize = 0;
            while i < entries.len()
                invariant
                    i <= entries@.len(),
                    es == entries_view(entries@),
                    find_key(es, name@) is None,
                    ignore_case,
                    find_key_ignoring_case_from(es, name@, i as nat) == find_key_ignoring_case_from(
                        es,
                        name@,
                        0,
                    ),
                decreases entries@.len() - i,
            {
                assert(es[i as int] == entries@[i as int]@);
                if eq_ignore_ascii_case(name, entries[i].key) {
                    return Some(i);
                }
                i = i + 1;
            }
            None
        },
    }
}

/// The element of an array at an index, as a value of its own.
pub open spec fn get_by_index_spec(s: Seq<u8>, index: int) -> Result<Option<Seq<u8>>, Error> {
    match read_word(s, 0) {
        Err(e) => Err(e),
        Ok(h) => if header_tag(h) == ARRAY_CONTAINER_TAG {
            if index >= header_len(h) {
                Ok(None)
            } else {
                match container_items(s, header_len(h)) {
                    Err(e) => Err(e),
                    Ok(items) => Ok(Some(extract(items[index]))),
                }
            }
        } else if is_container_tag(header_tag(h)) {
            Ok(None)
        } else {
            Err(Error::InvalidJsonb)
        },
    }
}

/// The value of the member of an object that a name stands for, as a value
/// of its own.
pub open spec fn get_by_name_spec(s: Seq<u8>, name: Seq<u8>, ignore_case: bool) -> Result<
    Option<Seq<u8>>,
    Error,
> {
    match read_word(s, 0) {
        Err(e) => Err(e),
        Ok(h) => if header_tag(h) == OBJECT_CONTAINER_TAG {
            match object_entries(s, header_len(h)) {
                Err(e) => Err(e),
                Ok(es) => match find_name(es, name, ignore_case) {
                    Some(k) => Ok(Some(extract(value_item(es[k])))),
                    None => Ok(None),
                },
            }
        } else if is_container_tag(header_tag(h)) {
            Ok(None)
        } else {
            Err(Error::InvalidJsonb)
        },
    }
}

/// The keys of an object as an array of strings, in stored order.
pub open spec fn object_keys_spec(s: Seq<u8>) -> Result<Option<Seq<u8>>, Error> {
    match read_word(s, 0) {
        Err(e) => Err(e),
        Ok(h) => if header_tag(h) == OBJECT_CONTAINER_TAG {
            match object_entries(s, header_len(h)) {
                Err(e) => Err(e),
                Ok(es) => match array_result(es.map_values(|e: RawEntry| key_item(e.key))) {
                    Ok(bytes) => Ok(Some(bytes)),
                    Err(e) => Err(e),
                },
            }
        } else if is_container_tag(header_tag(h)) {
            Ok(None)
        } else {
            Err(Error::InvalidJsonb)
        },
    }
}

/// The members of an object, each as its key and its value as a value of
/// its own, in stored order.
pub open spec fn object_each_spec(s: Seq<u8>) -> Result<Option<Seq<(Seq<u8>, Seq<u8>)>>, Error> {
    match read_word(s, 0) {
        Err(e) => Err(e),
        Ok(h) => if header_tag(h) == OBJECT_CONTAINER_TAG {
            match object_entries(s, header_len(h)) {
                Err(e) => Err(e),
                Ok(es) => Ok(Some(es.map_values(|e: RawEntry| (e.key, extract(value_item(e)))))),
            }
        } else if is_container_tag(header_tag(h)) {
            Ok(None)
        } else {
            Err(Error::InvalidJsonb)
        },
    }
}

/// The elements of an array, each as a value of its own.
pub open spec fn array_values_spec(s: Seq<u8>) -> Result<Option<Seq<Seq<u8>>>, Error> {
    match read_word(s, 0) {
        Err(e) => Err(e),
        Ok(h) => if header_tag(h) == ARRAY_CONTAINER_TAG {
            match container_items(s, header_len(h)) {
                Err(e) => Err(e),
                Ok(items) => Ok(Some(items.map_values(|it: RawItem| extract(it)))),
            }
        } else if is_container_tag(header_tag(h)) {
            Ok(None)
        } else {
            Err(Error::InvalidJsonb)
        },
    }
}

/// The byte strings that a vector of byte vectors holds.
pub open spec fn vecs_view(v: Seq<Vec<u8>>) -> Seq<Seq<u8>> {
    v.map_values(|x: Vec<u8>| x@)
}

/// The pairs of byte strings that a vector of pairs of byte vectors holds.
pub open spec fn pairs_view(v: Seq<(Vec<u8>, Vec<u8>)>) -> Seq<(Seq<u8>, Seq<u8>)> {
    v.map_values(|x: (Vec<u8>, Vec<u8>)| (x.0@, x.1@))
}

impl<'a> RawJsonb<'a> {
    /// The element of an array at an index.
    pub fn get_by_index(&self, index: usize) -> (r: Result<Option<Vec<u8>>, Error>)
        ensures
            match get_by_index_spec(self@, index as int) {
                Ok(Some(bytes)) => r is Ok && r->Ok_0 is Some && r->Ok_0->Some_0@ == bytes,
                Ok(None) => r is Ok && r->Ok_0 is None,
                Err(e) => r == Err::<Option<Vec<u8>>, Error>(e),
            },
    {
        let value = self.0;
        let header = read_u32(value, 0)?;
        let (tag, length) = decode_header(header);
        if tag == ARRAY_CONTAINER_TAG {
            if index >= length {
                return Ok(None);
            }
            let items = iterate_array(value, header)?;
            assert(items_view(items@)[index as int] == items@[index as int]@);
            Ok(Some(extract_by_jentry(&items[index])))
        } else if is_valid_tag(tag) {
            Ok(None)
        } else {
            Err(Error::InvalidJsonb)
        }
    }

    /// The value of the member of an object with a name; with `ignore_case`,
    /// a member whose key is the name but for the case of ASCII letters
    /// where none has the name itself.
    pub fn get_by_name(&self, name: &str, ignore_case: bool) -> (r: Result<Option<Vec<u8>>, Error>)
        ensures
            match get_by_name_spec(self@, name.spec_bytes(), ignore_case) {
                Ok(Some(bytes)) => r is Ok && r->Ok_0 is Some && r->Ok_0->Some_0@ == bytes,
                Ok(None) => r is Ok && r->Ok_0 is None,
                Err(e) => r == Err::<Option<Vec<u8>>, Error>(e),
            },
    {
        let value = self.0;
        let header = read_u32(value, 0)?;
        let (tag, _) = decode_header(header);
        if tag == OBJECT_CONTAINER_TAG {
            let entries = iterate_object_entries(value, header)?;
            match find_by_name(&entries, name.as_bytes(), ignore_case) {
                Some(k) => {
                    let e = &entries[k];
                    assert(entries_view(entries@)[k as int] == e@);
                    let item = Item { jentry: e.jentry, data: e.data };
                    Ok(Some(extract_by_jentry(&item)))
                },
                None => Ok(None),
            }
        } else if is_valid_tag(tag) {
            Ok(None)
        } else {
            Err(Error::InvalidJsonb)
        }
    }

    /// The keys of an object, as an array of strings.
    pub fn object_keys(&self) -> (r: Result<Option<Vec<u8>>, Error>)
        ensures
            match object_keys_spec(self@) {
                Ok(Some(bytes)) => r is Ok && r->Ok_0 is Some && r->Ok_0->Some_0@ == bytes,
                Ok(None) => r is Ok && r->Ok_0 is None,
                Err(e) => r == Err::<Option<Vec<u8>>, Error>(e),
            },
    {
        let value = self.0;
        let header = read_u32(value, 0)?;
        let (tag, length) = decode_header(header);
        if tag == OBJECT_CONTAINER_TAG {
            let entries = iterate_object_entries(value, header)?;
            let ghost es = entries_view(entries@);
            let ghost keys = es.map_values(|e: RawEntry| key_item(e.key));
            let mut builder = ArrayBuilder::new(length);
            let mut i: usize = 0;
            proof {
                assert(builder@ =~= keys.take(0));
            }
            while i < entries.len()
                invariant
                    i <= entries@.len(),
                    es == entries_view(entries@),
                    entries_wf(es),
                    keys == es.map_values(|e: RawEntry| key_item(e.key)),
                    builder.wf(),
                    builder@ == keys.take(i as int),
                decreases entries@.len() - i,
            {
                let e = &entries[i];
                assert(es[i as int] == e@);
                assert(entry_wf(es[i as int]));
                builder.push_raw(crate::codec::JEntry::make_string_jentry(e.key.len()), e.key);
                proof {
                    assert(builder@ =~= keys.take(i + 1));
                }
                i = i + 1;
            }
            proof {
                assert(keys.take(i as int) =~= keys);
            }
            let bytes = builder.build()?;
            Ok(Some(bytes))
        } else if is_valid_tag(tag) {
            Ok(None)
        } else {
            Err(Error::InvalidJsonb)
        }
    }

    /// The members of an object, each as its key and its value.
    pub fn object_each(&self) -> (r: Result<Option<Vec<(Vec<u8>, Vec<u8>)>>, Error>)
        ensures
            match object_each_spec(self@) {
                Ok(Some(pairs)) => r is Ok && r->Ok_0 is Some && pairs_view(r->Ok_0->Some_0@) == pairs,
                Ok(None) => r is Ok && r->Ok_0 is None,
                Err(e) => r == Err::<Option<Vec<(Vec<u8>, Vec<u8>)>>, Error>(e),
            },
    {
        let value = self.0;
        let header = read_u32(value, 0)?;
        let (tag, _) = decode_header(header);
        if tag == OBJECT_CONTAINER_TAG {
            let entries = iterate_object_entries(value, header)?;
            let ghost es = entries_view(entries@);
            let mut items: Vec<(Vec<u8>, Vec<u8>)> = Vec::new();
            let mut i: usize = 0;
            while i < entries.len()
                invariant
                    i <= entries@.len(),
                    es == entries_view(entries@),
                    items@.len() == i,
                    forall|j: int|
                        0 <= j < i ==> (#[trigger] items@[j]).0@ == es[j].key && items@[j].1@
                            == extract(value_item(es[j])),
                decreases entries@.len() - i,
            {
                let e = &entries[i];
                assert(es[i as int] == e@);
                let item = Item { jentry: e.jentry, data: e.data };
                let val = extract_by_jentry(&item);
                items.push((slice_to_vec(e.key), val));
                i = i + 1;
            }
            proof {
                assert(pairs_view(items@) =~= es.map_values(
                    |e: RawEntry| (e.key, extract(value_item(e))),
                ));
            }
            Ok(Some(items))
        } else if is_valid_tag(tag) {
            Ok(None)
        } else {
            Err(Error::InvalidJsonb)
        }
    }

    /// The elements of an array, each as a value of its own.
    pub fn array_values(&self) -> (r: Result<Option<Vec<Vec<u8>>>, Error>)
        ensures
            match array_values_spec(self@) {
                Ok(Some(vals)) => r is Ok && r->Ok_0 is Some && vecs_view(r->Ok_0->Some_0@) == vals,
                Ok(None) => r is Ok && r->Ok_0 is None,
                Err(e) => r == Err::<Option<Vec<Vec<u8>>>, Error>(e),
            },
    {
        let value = self.0;
        let header = read_u32(value, 0)?;
        let (tag, _) = decode_header(header);
        if tag == ARRAY_CONTAINER_TAG {
            let elems = iterate_array(value, header)?;
            let ghost raw = items_view(elems@);
            let mut items: Vec<Vec<u8>> = Vec::new();
            let mut i: usize = 0;
            while i < elems.len()
                invariant
                    i <= elems@.len(),
                    raw == items_view(elems@),
                    items@.len() == i,
                    forall|j: int| 0 <= j < i ==> (#[trigger] items@[j])@ == extract(raw[j]),
                decreases elems@.len() - i,
            {
                assert(raw[i as int] == elems@[i as int]@);
                items.push(extract_by_jentry(&elems[i]));
                i = i + 1;
            }
            proof {
                assert(vecs_view(items@) =~= raw.map_values(|it: RawItem| extract(it)));
            }
            Ok(Some(items))
        } else if is_valid_tag(tag) {
            Ok(None)
        } else {
            Err(Error::InvalidJsonb)
        }
    }
}

} // verus!
