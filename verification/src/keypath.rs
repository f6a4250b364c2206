//! Paths of names and indexes into a value.

use vstd::prelude::*;
use vstd::string::StringSliceAdditionalSpecFns;
use vstd::slice::slice_to_vec;
use crate::error::Error;
use crate::raw::RawJsonb;
use crate::codec::{JEntry, read_u32, read_word, header_tag, header_len, decode_header};
use crate::constants::{
    ARRAY_CONTAINER_TAG, OBJECT_CONTAINER_TAG, CONTAINER_TAG, JENTRY_OFF_LEN_MASK,
};
use crate::iterator::{
    RawItem, Item, items_view, entries_view, container_items, object_entries, iterate_array,
    iterate_object_entries, extract, extract_by_jentry, value_item,
};
use crate::builder::{
    ArrayBuilder, ObjectBuilder, appended, array_result, object_result, build_entries,
    container_item, lemma_insert_all_empty,
};
use crate::contains::{find_key, find_entry};
use crate::mutate::{from_end, resolve_index};
use crate::select::{replaced_item, replaced_entry};

verus! {

/// One step of a path: the name of a member, plain or quoted, or the index
/// of an element, which counts from the end where it is negative.
#[derive(Debug, Clone, Copy)]
pub enum KeyPath<'a> {
    Index(i32),
    QuotedName(&'a str),
    Name(&'a str),
}

/// The element or the value of the member of the container `container` that
/// a step leads to: a name into an object, an index into an array. Any other
/// pairing of step and value leads nowhere.
pub open spec fn step_into(container: Seq<u8>, step: KeyPath) -> Result<Option<RawItem>, Error> {
    match read_word(container, 0) {
        Err(e) => Err(e),
        Ok(h) => match step {
            KeyPath::Index(idx) => if header_tag(h) == ARRAY_CONTAINER_TAG {
                let k = from_end(header_len(h) as int, idx as int);
                if k < 0 || k >= header_len(h) {
                    Ok(None)
                } else {
                    match container_items(container, header_len(h)) {
                        Err(e) => Err(e),
                        Ok(items) => Ok(Some(items[k])),
                    }
                }
            } else {
                Ok(None)
            },
            KeyPath::QuotedName(name) | KeyPath::Name(name) => if header_tag(h)
                == OBJECT_CONTAINER_TAG {
                match object_entries(container, header_len(h)) {
                    Err(e) => Err(e),
                    Ok(es) => match find_key(es, name.spec_bytes()) {
                        Some(k) => Ok(Some(value_item(es[k]))),
                        None => Ok(None),
                    },
                }
            } else {
                Ok(None)
            },
        },
    }
}

/// The element that the steps of `path` from position `i` on lead to, from
/// the container `container`.
pub open spec fn walk_from(container: Seq<u8>, path: Seq<KeyPath>, i: nat) -> Result<
    Option<RawItem>,
    Error,
>
    decreases path.len() - i,
{
    if i >= path.len() {
        Ok(None)
    } else {
        match step_into(container, path[i as int]) {
            Err(e) => Err(e),
            Ok(None) => Ok(None),
            Ok(Some(item)) => if i + 1 == path.len() {
                Ok(Some(item))
            } else if item.jentry.type_code == CONTAINER_TAG {
                walk_from(item.data, path, i + 1)
            } else {
                Ok(None)
            },
        }
    }
}

/// What `get_by_keypath` gives: the value itself for the empty path, else
/// the value that the path leads to, if it leads to one.
pub open spec fn get_by_keypath_spec(s: Seq<u8>, path: Seq<KeyPath>) -> Result<
    Option<Seq<u8>>,
    Error,
> {
    if path.len() == 0 {
        Ok(Some(s))
    } else {
        match walk_from(s, path, 0) {
            Err(e) => Err(e),
            Ok(None) => Ok(None),
            Ok(Some(item)) => Ok(Some(extract(item))),
        }
    }
}

/// Takes one step from the container `container`.
pub fn take_step<'b>(container: &'b [u8], step: &KeyPath) -> (r: Result<Option<Item<'b>>, Error>)
    ensures
        match step_into(container@, *step) {
            Ok(Some(item)) => r is Ok && r->Ok_0 is Some && r->Ok_0->Some_0@ == item,
            Ok(None) => r is Ok && r->Ok_0 is None,
            Err(e) => r == Err::<Option<Item<'b>>, Error>(e),
        },
{
    let header = read_u32(container, 0)?;
    let (tag, length) = decode_header(header);
    match step {
        KeyPath::Index(idx) => {
            if tag == ARRAY_CONTAINER_TAG {
                match resolve_index(length, *idx) {
                    None => Ok(None),
                    Some(k) => {
                        let items = iterate_array(container, header)?;
                        assert(items_view(items@)[k as int] == items@[k as int]@);
                        Ok(Some(items[k]))
                    },
                }
            } else {
                Ok(None)
            }
        },
        KeyPath::QuotedName(name) | KeyPath::Name(name) => {
            if tag == OBJECT_CONTAINER_TAG {
                let entries = iterate_object_entries(container, header)?;
                match find_entry(&entries, name.as_bytes()) {
                    Some(k) => {
                        let e = &entries[k];
                        assert(entries_view(entries@)[k as int] == e@);
                        Ok(Some(Item { jentry: e.jentry, data: e.data }))
                    },
                    None => Ok(None),
                }
            } else {
                Ok(None)
            }
        },
    }
}

impl<'a> RawJsonb<'a> {
    /// The value that a path of names and indexes leads to.
    pub fn get_by_keypath(&self, keypaths: &[KeyPath]) -> (r: Result<Option<Vec<u8>>, Error>)
        ensures
            match get_by_keypath_spec(self@, keypaths@) {
                Ok(Some(bytes)) => r is Ok && r->Ok_0 is Some && r->Ok_0->Some_0@ == bytes,
                Ok(None) => r is Ok && r->Ok_0 is None,
                Err(e) => r == Err::<Option<Vec<u8>>, Error>(e),
            },
    {
        let value = self.0;
        if keypaths.len() == 0 {
            return Ok(Some(slice_to_vec(value)));
        }
        let mut current: &[u8] = value;
        let mut i: usize = 0;
        loop
            invariant
                i < keypaths@.len(),
                value@ == self@,
                walk_from(current@, keypaths@, i as nat) == walk_from(value@, keypaths@, 0),
            decreases keypaths@.len() - i,
        {
            match take_step(current, &keypaths[i])? {
                None => {
                    return Ok(None);
                },
                Some(item) => {
                    if i + 1 == keypaths.len() {
                        return Ok(Some(extract_by_jentry(&item)));
                    }
                    if item.jentry.type_code != CONTAINER_TAG {
                        return Ok(None);
                    }
                    current = item.data;
                    i = i + 1;
                },
            }
        }
    }
}

/// A written container as the outcome of a step that found its target.
pub open spec fn found(r: Result<Seq<u8>, Error>) -> Result<Option<Seq<u8>>, Error> {
    match r {
        Ok(bytes) => Ok(Some(bytes)),
        Err(e) => Err(e),
    }
}

/// The container `container` without what the steps of `path` from position
/// `i` on lead to; `None` where they lead nowhere.
///
/// The last step takes out the element or member it names. A step before the
/// last goes into the nested container it names and puts what comes back in
/// its place. A name that an object does not have leaves the object as it
/// is.
#[verifier::opaque]
pub open spec fn delete_in(container: Seq<u8>, path: Seq<KeyPath>, i: nat) -> Result<
    Option<Seq<u8>>,
    Error,
>
    decreases path.len() - i,
{
    if i >= path.len() {
        Ok(None)
    } else {
        match read_word(container, 0) {
            Err(e) => Err(e),
            Ok(h) => if header_tag(h) == ARRAY_CONTAINER_TAG {
                match path[i as int] {
                    KeyPath::Index(idx) => {
                        let k = from_end(header_len(h) as int, idx as int);
                        if k < 0 || k >= header_len(h) {
                            Ok(None)
                        } else {
                            match container_items(container, header_len(h)) {
                                Err(e) => Err(e),
                                Ok(items) => if i + 1 == path.len() {
                                    found(array_result(replaced_item(items, k, None)))
                                } else if items[k].jentry.type_code != CONTAINER_TAG {
                                    Ok(None)
                                } else {
                                    match delete_in(items[k].data, path, i + 1) {
                                        Err(e) => Err(e),
                                        Ok(None) => Ok(None),
                                        Ok(Some(bytes)) => if bytes.len() > JENTRY_OFF_LEN_MASK {
                                            Err(Error::InvalidJsonbJEntry)
                                        } else {
                                            found(
                                                array_result(
                                                    replaced_item(
                                                        items,
                                                        k,
                                                        Some(container_item(bytes)),
                                                    ),
                                                ),
                                            )
                                        },
                                    }
                                },
                            }
                        }
                    },
                    _ => Ok(None),
                }
            } else if header_tag(h) == OBJECT_CONTAINER_TAG {
                match path[i as int] {
                    KeyPath::Index(_) => Ok(None),
                    KeyPath::QuotedName(name) | KeyPath::Name(name) => match object_entries(
                        container,
                        header_len(h),
                    ) {
                        Err(e) => Err(e),
                        Ok(es) => match find_key(es, name.spec_bytes()) {
                            None => found(object_result(build_entries(es))),
                            Some(k) => if i + 1 == path.len() {
                                found(object_result(build_entries(replaced_entry(es, k, None))))
                            } else if es[k].jentry.type_code != CONTAINER_TAG {
                                Ok(None)
                            } else {
                                match delete_in(es[k].data, path, i + 1) {
                                    Err(e) => Err(e),
                                    Ok(None) => Ok(None),
                                    Ok(Some(bytes)) => if bytes.len() > JENTRY_OFF_LEN_MASK {
                                        Err(Error::InvalidJsonbJEntry)
                                    } else {
                                        found(
                                            object_result(
                                                build_entries(
                                                    replaced_entry(
                                                        es,
                                                        k,
                                                        Some(container_item(bytes)),
                                                    ),
                                                ),
                                            ),
                                        )
                                    },
                                }
                            },
                        },
                    },
                }
            } else {
                Err(Error::InvalidJsonb)
            },
        }
    }
}

/// What `delete_by_keypath` gives: the array or object without what the
/// path leads to, or as it is where the path leads nowhere. A scalar gives
/// `InvalidJsonType`.
pub open spec fn delete_by_keypath_spec(s: Seq<u8>, path: Seq<KeyPath>) -> Result<Seq<u8>, Error> {
    match read_word(s, 0) {
        Err(e) => Err(e),
        Ok(h) => if header_tag(h) == ARRAY_CONTAINER_TAG || header_tag(h) == OBJECT_CONTAINER_TAG {
            match delete_in(s, path, 0) {
                Err(e) => Err(e),
                Ok(None) => Ok(s),
                Ok(Some(bytes)) => Ok(bytes),
            }
        } else {
            Err(Error::InvalidJsonType)
        },
    }
}

/// How the outcome of a deleting step stands to what it is to be.
pub open spec fn deleted_as(r: Result<Option<Vec<u8>>, Error>, expected: Result<
    Option<Seq<u8>>,
    Error,
>) -> bool {
    match expected {
        Ok(Some(bytes)) => r is Ok && r->Ok_0 is Some && r->Ok_0->Some_0@ == bytes,
        Ok(None) => r is Ok && r->Ok_0 is None,
        Err(e) => r == Err::<Option<Vec<u8>>, Error>(e),
    }
}

impl<'a> RawJsonb<'a> {
    /// Deletes what a path of names and indexes leads to.
    pub fn delete_by_keypath(&self, keypath: &[KeyPath], buf: &mut Vec<u8>) -> (r: Result<(), Error>)
        ensures
            appended(old(buf)@, final(buf)@, r, delete_by_keypath_spec(self@, keypath@)),
    {
        let value = self.0;
        let header = read_u32(value, 0)?;
        let (tag, _) = decode_header(header);
        if tag == ARRAY_CONTAINER_TAG || tag == OBJECT_CONTAINER_TAG {
            match Self::delete_in_container(value, keypath, 0)? {
                Some(bytes) => {
                    buf.extend_from_slice(bytes.as_slice());
                    assert(buf@ == old(buf)@ + bytes@);
                },
                None => {
                    buf.extend_from_slice(value);
                    assert(buf@ == old(buf)@ + self@);
                },
            }
            Ok(())
        } else {
            Err(Error::InvalidJsonType)
        }
    }

    /// The array or object `value` without what the steps of `keypath` from
    /// position `i` on lead to.
    pub fn delete_in_container(value: &[u8], keypath: &[KeyPath], i: usize) -> (r: Result<
        Option<Vec<u8>>,
        Error,
    >)
        ensures
            deleted_as(r, delete_in(value@, keypath@, i as nat)),
        decreases keypath@.len() - i, 1nat,
    {
        reveal(delete_in);
        if i >= keypath.len() {
            return Ok(None);
        }
        let header = read_u32(value, 0)?;
        let (tag, _) = decode_header(header);
        if tag == ARRAY_CONTAINER_TAG {
            Self::delete_array_by_keypath(value, header, keypath, i)
        } else if tag == OBJECT_CONTAINER_TAG {
            Self::delete_object_by_keypath(value, header, keypath, i)
        } else {
            Err(Error::InvalidJsonb)
        }
    }

    /// The array `value` without what the steps of `keypath` from position
    /// `i` on lead to.
    pub fn delete_array_by_keypath(value: &[u8], header: u32, keypath: &[KeyPath], i: usize) -> (r:
        Result<Option<Vec<u8>>, Error>)
        requires
            i < keypath@.len(),
            read_word(value@, 0) == Ok::<u32, Error>(header),
            header_tag(header) == ARRAY_CONTAINER_TAG,
        ensures
            deleted_as(r, delete_in(value@, keypath@, i as nat)),
        decreases keypath@.len() - i, 0nat,
    {
        reveal(delete_in);
        let (_, len) = decode_header(header);
        match &keypath[i] {
            KeyPath::Index(idx) => {
                match resolve_index(len, *idx) {
                    None => Ok(None),
                    Some(k) => {
                        let items = iterate_array(value, header)?;
                        let ghost raw = items_view(items@);
                        assert(raw[k as int] == items@[k as int]@);
                        if i + 1 == keypath.len() {
                            let builder = ArrayBuilder::with_replaced(&items, k, None);
                            Ok(Some(builder.build()?))
                        } else if items[k].jentry.type_code != CONTAINER_TAG {
                            Ok(None)
                        } else {
                            match Self::delete_in_container(items[k].data, keypath, i + 1)? {
                                None => Ok(None),
                                Some(bytes) => {
                                    if bytes.len() > JENTRY_OFF_LEN_MASK as usize {
                                        return Err(Error::InvalidJsonbJEntry);
                                    }
                                    let nested = Item {
                                        jentry: JEntry::make_container_jentry(bytes.len()),
                                        data: bytes.as_slice(),
                                    };
                                    let builder = ArrayBuilder::with_replaced(&items, k, Some(nested));
                                    Ok(Some(builder.build()?))
                                },
                            }
                        }
                    },
                }
            },
            _ => Ok(None),
        }
    }

    /// The object `value` without what the steps of `keypath` from position
    /// `i` on lead to.
    pub fn delete_object_by_keypath(value: &[u8], header: u32, keypath: &[KeyPath], i: usize) -> (r:
        Result<Option<Vec<u8>>, Error>)
        requires
            i < keypath@.len(),
            read_word(value@, 0) == Ok::<u32, Error>(header),
            header_tag(header) == OBJECT_CONTAINER_TAG,
        ensures
            deleted_as(r, delete_in(value@, keypath@, i as nat)),
        decreases keypath@.len() - i, 0nat,
    {
        reveal(delete_in);
        match &keypath[i] {
            KeyPath::Index(_) => Ok(None),
            KeyPath::QuotedName(name) | KeyPath::Name(name) => {
                let entries = iterate_object_entries(value, header)?;
                let ghost es = entries_view(entries@);
                match find_entry(&entries, name.as_bytes()) {
                    None => {
                        let mut builder = ObjectBuilder::new();
                        builder.push_entries(&entries);
                        proof {
                            lemma_insert_all_empty(es);
                        }
                        Ok(Some(builder.build()?))
                    },
                    Some(k) => {
                        assert(es[k as int] == entries@[k as int]@);
                        if i + 1 == keypath.len() {
                            let builder = ObjectBuilder::with_replaced(&entries, k, None);
                            proof {
                                lemma_insert_all_empty(replaced_entry(es, k as int, None));
                            }
                            Ok(Some(builder.build()?))
                        } else if entries[k].jentry.type_code != CONTAINER_TAG {
                            Ok(None)
                        } else {
                            match Self::delete_in_container(entries[k].data, keypath, i + 1)? {
                                None => Ok(None),
                                Some(bytes) => {
                                    if bytes.len() > JENTRY_OFF_LEN_MASK as usize {
                                        return Err(Error::InvalidJsonbJEntry);
                                    }
                                    let nested = Item {
                                        jentry: JEntry::make_container_jentry(bytes.len()),
                                        data: bytes.as_slice(),
                                    };
                                    let builder = ObjectBuilder::with_replaced(
                                        &entries,
                                        k,
                                        Some(nested),
                                    );
                                    proof {
                                        lemma_insert_all_empty(
                                            replaced_entry(es, k as int, Some(nested@)),
                                        );
                                    }
                                    Ok(Some(builder.build()?))
                                },
                            }
                        }
                    },
                }
            },
        }
    }
}

} // verus!
