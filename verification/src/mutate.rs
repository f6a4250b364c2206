//! Operations that write a changed copy of a value.

use vstd::prelude::*;
use vstd::string::StringSliceAdditionalSpecFns;
use crate::error::Error;
use crate::raw::RawJsonb;
use crate::codec::{read_u32, read_word, header_tag, header_len, decode_header};
use crate::constants::{
    ARRAY_CONTAINER_TAG, OBJECT_CONTAINER_TAG, SCALAR_CONTAINER_TAG, STRING_TAG,
};
use crate::iterator::{
    RawItem, RawEntry, Item, Entry, items_view, entries_view, container_items, object_entries,
    element_of, elements_of, is_container_tag, iterate_array, iterate_object_entries, as_element,
    as_elements, items_wf, entries_wf, item_wf,
};
use crate::builder::{
    ArrayBuilder, ObjectBuilder, appended, array_result, object_result, build_entries,
    lemma_insert_all_concat, lemma_insert_all_empty,
};
use crate::select::{keep_where, lemma_keep_where_agree};
use crate::bytes::bytes_eq;

verus! {

/// What concatenating two values gives: of two objects the object with the
/// members of both, the right one's where a key is in both; else the array of
/// the elements of both, a value that is no array being one element.
pub open spec fn concat_spec(l: Seq<u8>, r: Seq<u8>) -> Result<Seq<u8>, Error> {
    match read_word(l, 0) {
        Err(e) => Err(e),
        Ok(lh) => match read_word(r, 0) {
            Err(e) => Err(e),
            Ok(rh) => if !is_container_tag(header_tag(lh)) || !is_container_tag(header_tag(rh)) {
                Err(Error::InvalidJsonb)
            } else if header_tag(lh) == OBJECT_CONTAINER_TAG && header_tag(rh)
                == OBJECT_CONTAINER_TAG {
                match object_entries(l, header_len(lh)) {
                    Err(e) => Err(e),
                    Ok(le) => match object_entries(r, header_len(rh)) {
                        Err(e) => Err(e),
                        Ok(re) => object_result(build_entries(le + re)),
                    },
                }
            } else {
                match elements_of(l) {
                    Err(e) => Err(e),
                    Ok(li) => match elements_of(r) {
                        Err(e) => Err(e),
                        Ok(ri) => array_result(li + ri),
                    },
                }
            },
        },
    }
}

/// Whether `tag` is one of the three container tags.
pub fn is_valid_tag(tag: u32) -> (r: bool)
    ensures
        r == is_container_tag(tag),
{
    tag == ARRAY_CONTAINER_TAG || tag == OBJECT_CONTAINER_TAG || tag == SCALAR_CONTAINER_TAG
}

impl<'a> RawJsonb<'a> {
    /// Concatenates two values.
    pub fn concat(&self, other: RawJsonb, buf: &mut Vec<u8>) -> (r: Result<(), Error>)
        ensures
            appended(old(buf)@, final(buf)@, r, concat_spec(self@, other@)),
    {
        let left = self.0;
        let right = other.0;
        let left_header = read_u32(left, 0)?;
        let right_header = read_u32(right, 0)?;
        let (left_type, _) = decode_header(left_header);
        let (right_type, _) = decode_header(right_header);
        if !is_valid_tag(left_type) || !is_valid_tag(right_type) {
            return Err(Error::InvalidJsonb);
        }
        if left_type == OBJECT_CONTAINER_TAG && right_type == OBJECT_CONTAINER_TAG {
            let left_entries = iterate_object_entries(left, left_header)?;
            let right_entries = iterate_object_entries(right, right_header)?;
            let mut builder = ObjectBuilder::new();
            builder.push_entries(&left_entries);
            builder.push_entries(&right_entries);
            proof {
                let le = entries_view(left_entries@);
                let re = entries_view(right_entries@);
                lemma_insert_all_concat(Seq::empty(), le, re);
                lemma_insert_all_empty(le + re);
            }
            builder.finish(buf)
        } else {
            let left_items = as_elements(left)?;
            let right_items = as_elements(right)?;
            let mut builder = ArrayBuilder::new(left_items.len());
            builder.push_items(&left_items);
            builder.push_items(&right_items);
            proof {
                assert(builder@ =~= items_view(left_items@) + items_view(right_items@));
            }
            builder.finish(buf)
        }
    }
}

/// How often `x` occurs in `s`.
pub open spec fn count_of(s: Seq<RawItem>, x: RawItem) -> nat
    decreases s.len(),
{
    if s.len() == 0 {
        0
    } else {
        count_of(s.drop_last(), x) + if s.last() == x {
            1nat
        } else {
            0nat
        }
    }
}

/// Whether two elements are the same: the same JEntry and the same payload.
pub fn item_eq(a: &Item, b: &Item) -> (r: bool)
    ensures
        r == (a@ == b@),
{
    if a.jentry.type_code == b.jentry.type_code && a.jentry.length == b.jentry.length {
        let same = bytes_eq(a.data, b.data);
        proof {
            if same {
                assert(a@.data =~= b@.data);
            }
        }
        same
    } else {
        false
    }
}

/// How often `x` occurs among the first `upto` of `items`.
pub fn count_item(items: &Vec<Item>, upto: usize, x: &Item) -> (r: usize)
    requires
        upto <= items@.len(),
    ensures
        r == count_of(items_view(items@).take(upto as int), x@),
        r <= upto,
{
    let ghost raw = items_view(items@);
    let mut n: usize = 0;
    let mut i: usize = 0;
    while i < upto
        invariant
            i <= upto <= items@.len(),
            raw == items_view(items@),
            n == count_of(raw.take(i as int), x@),
            n <= i,
        decreases upto - i,
    {
        proof {
            assert(raw.take(i + 1).drop_last() =~= raw.take(i as int));
            assert(raw.take(i + 1).last() == items@[i as int]@);
        }
        if item_eq(&items[i], x) {
            n = n + 1;
        }
        i = i + 1;
    }
    n
}

/// The position at which `array_insert` puts the new element into `len`
/// elements: `pos` counted from the end where it is negative, and brought
/// into `0 ..= len`.
pub open spec fn insert_position(len: int, pos: int) -> int {
    let idx = if pos < 0 {
        len + pos
    } else {
        pos
    };
    if idx < 0 {
        0
    } else if idx > len {
        len
    } else {
        idx
    }
}

/// What `array_insert` gives: the elements of the value, a value that is no
/// array being one element, with the new value as one more element at the
/// position.
pub open spec fn array_insert_spec(s: Seq<u8>, pos: int, new_value: Seq<u8>) -> Result<
    Seq<u8>,
    Error,
> {
    match elements_of(s) {
        Err(e) => Err(e),
        Ok(items) => match element_of(new_value) {
            Err(e) => Err(e),
            Ok(item) => array_result(
                items.insert(insert_position(items.len() as int, pos), item),
            ),
        },
    }
}

/// The positions of `items` at which an element occurs for the first time.
pub open spec fn first_occurrence(items: Seq<RawItem>) -> spec_fn(int) -> bool {
    |i: int| count_of(items.take(i), items[i]) == 0
}

/// The positions of `l` whose element has, counting its earlier occurrences
/// in `l`, an occurrence in `r` left to match.
pub open spec fn matched_in(l: Seq<RawItem>, r: Seq<RawItem>) -> spec_fn(int) -> bool {
    |i: int| count_of(l.take(i), l[i]) < count_of(r, l[i])
}

/// The positions of `l` whose element has no occurrence in `r` left to match.
pub open spec fn unmatched_in(l: Seq<RawItem>, r: Seq<RawItem>) -> spec_fn(int) -> bool {
    |i: int| !(count_of(l.take(i), l[i]) < count_of(r, l[i]))
}

/// What `array_distinct` gives: the first occurrence of each element.
pub open spec fn array_distinct_spec(s: Seq<u8>) -> Result<Seq<u8>, Error> {
    match elements_of(s) {
        Err(e) => Err(e),
        Ok(items) => array_result(keep_where(items, first_occurrence(items))),
    }
}

/// What `array_intersection` gives: the elements of the left value that
/// match an element of the right one, each element of the right one
/// matching once.
pub open spec fn array_intersection_spec(l: Seq<u8>, r: Seq<u8>) -> Result<Seq<u8>, Error> {
    match elements_of(l) {
        Err(e) => Err(e),
        Ok(li) => match elements_of(r) {
            Err(e) => Err(e),
            Ok(ri) => array_result(keep_where(li, matched_in(li, ri))),
        },
    }
}

/// What `array_except` gives: the elements of the left value that match no
/// element of the right one, each element of the right one matching once.
pub open spec fn array_except_spec(l: Seq<u8>, r: Seq<u8>) -> Result<Seq<u8>, Error> {
    match elements_of(l) {
        Err(e) => Err(e),
        Ok(li) => match elements_of(r) {
            Err(e) => Err(e),
            Ok(ri) => array_result(keep_where(li, unmatched_in(li, ri))),
        },
    }
}

/// Whether some element of `l` is an element of `r`.
pub open spec fn share_element(l: Seq<RawItem>, r: Seq<RawItem>) -> bool {
    exists|i: int| 0 <= i < l.len() && count_of(r, #[trigger] l[i]) > 0
}

/// What `array_overlap` gives: whether some element of the left value is an
/// element of the right one.
pub open spec fn array_overlap_spec(l: Seq<u8>, r: Seq<u8>) -> Result<bool, Error> {
    match elements_of(l) {
        Err(e) => Err(e),
        Ok(li) => match elements_of(r) {
            Err(e) => Err(e),
            Ok(ri) => Ok(share_element(li, ri)),
        },
    }
}

impl<'a> RawJsonb<'a> {
    /// Inserts a value into an array at a position; a negative position
    /// counts from the end.
    pub fn array_insert(&self, pos: i32, new_val: RawJsonb, buf: &mut Vec<u8>) -> (r: Result<
        (),
        Error,
    >)
        ensures
            appended(old(buf)@, final(buf)@, r, array_insert_spec(self@, pos as int, new_val@)),
    {
        let items = as_elements(self.0)?;
        let new_item = as_element(new_val.0)?;
        let len = items.len();
        let idx: usize = if pos < 0 {
            let back: u64 = (-(pos as i64)) as u64;
            if back >= len as u64 {
                0
            } else {
                len - (back as usize)
            }
        } else if pos as u64 > len as u64 {
            len
        } else {
            pos as usize
        };
        assert(idx == insert_position(len as int, pos as int));
        let ghost raw = items_view(items@);
        let mut builder = ArrayBuilder::new(len);
        let mut i: usize = 0;
        proof {
            assert(builder@ =~= raw.take(0));
        }
        while i < idx
            invariant
                i <= idx <= items@.len(),
                raw == items_view(items@),
                items_wf(raw),
                builder.wf(),
                builder@ == raw.take(i as int),
            decreases idx - i,
        {
            let item = &items[i];
            assert(raw[i as int] == item@);
            assert(item_wf(raw[i as int]));
            builder.push_raw(item.jentry, item.data);
            proof {
                assert(builder@ =~= raw.take(i + 1));
            }
            i = i + 1;
        }
        builder.push_raw(new_item.jentry, new_item.data);
        proof {
            assert(builder@ =~= raw.insert(idx as int, new_item@).take(idx + 1));
        }
        while i < len
            invariant
                idx <= i <= len,
                len == items@.len(),
                raw == items_view(items@),
                items_wf(raw),
                builder.wf(),
                builder@ == raw.insert(idx as int, new_item@).take(i + 1),
            decreases len - i,
        {
            let item = &items[i];
            assert(raw[i as int] == item@);
            assert(item_wf(raw[i as int]));
            builder.push_raw(item.jentry, item.data);
            proof {
                assert(builder@ =~= raw.insert(idx as int, new_item@).take(i + 2));
            }
            i = i + 1;
        }
        proof {
            assert(builder@ =~= raw.insert(idx as int, new_item@));
        }
        builder.finish(buf)
    }

    /// Keeps the first occurrence of each element of an array.
    pub fn array_distinct(&self, buf: &mut Vec<u8>) -> (r: Result<(), Error>)
        ensures
            appended(old(buf)@, final(buf)@, r, array_distinct_spec(self@)),
    {
        let items = as_elements(self.0)?;
        let ghost raw = items_view(items@);
        let mut flags: Vec<bool> = Vec::new();
        let mut i: usize = 0;
        while i < items.len()
            invariant
                i <= items@.len(),
                raw == items_view(items@),
                flags@.len() == i,
                forall|j: int| 0 <= j < i ==> flags@[j] == #[trigger] first_occurrence(raw)(j),
            decreases items@.len() - i,
        {
            let n = count_item(&items, i, &items[i]);
            assert(raw[i as int] == items@[i as int]@);
            flags.push(n == 0);
            i = i + 1;
        }
        let mut builder = ArrayBuilder::new(0);
        builder.push_selected(&items, &flags);
        proof {
            lemma_keep_where_agree(raw, |i: int| flags@[i], first_occurrence(raw));
            assert(builder@ =~= keep_where(raw, first_occurrence(raw)));
        }
        builder.finish(buf)
    }

    /// The elements of this array that match an element of the other.
    pub fn array_intersection(&self, other: RawJsonb, buf: &mut Vec<u8>) -> (r: Result<(), Error>)
        ensures
            appended(old(buf)@, final(buf)@, r, array_intersection_spec(self@, other@)),
    {
        let left = as_elements(self.0)?;
        let right = as_elements(other.0)?;
        let ghost l = items_view(left@);
        let ghost rr = items_view(right@);
        let mut flags: Vec<bool> = Vec::new();
        let mut i: usize = 0;
        while i < left.len()
            invariant
                i <= left@.len(),
                l == items_view(left@),
                rr == items_view(right@),
                flags@.len() == i,
                forall|j: int| 0 <= j < i ==> flags@[j] == #[trigger] matched_in(l, rr)(j),
            decreases left@.len() - i,
        {
            let before = count_item(&left, i, &left[i]);
            let avail = count_item(&right, right.len(), &left[i]);
            proof {
                assert(l[i as int] == left@[i as int]@);
                assert(rr.take(right@.len() as int) =~= rr);
            }
            flags.push(before < avail);
            i = i + 1;
        }
        let mut builder = ArrayBuilder::new(0);
        builder.push_selected(&left, &flags);
        proof {
            lemma_keep_where_agree(l, |i: int| flags@[i], matched_in(l, rr));
            assert(builder@ =~= keep_where(l, matched_in(l, rr)));
        }
        builder.finish(buf)
    }

    /// The elements of this array that match no element of the other.
    pub fn array_except(&self, other: RawJsonb, buf: &mut Vec<u8>) -> (r: Result<(), Error>)
        ensures
            appended(old(buf)@, final(buf)@, r, array_except_spec(self@, other@)),
    {
        let left = as_elements(self.0)?;
        let right = as_elements(other.0)?;
        let ghost l = items_view(left@);
        let ghost rr = items_view(right@);
        let mut flags: Vec<bool> = Vec::new();
        let mut i: usize = 0;
        while i < left.len()
            invariant
                i <= left@.len(),
                l == items_view(left@),
                rr == items_view(right@),
                flags@.len() == i,
                forall|j: int| 0 <= j < i ==> flags@[j] == #[trigger] unmatched_in(l, rr)(j),
            decreases left@.len() - i,
        {
            let before = count_item(&left, i, &left[i]);
            let avail = count_item(&right, right.len(), &left[i]);
            proof {
                assert(l[i as int] == left@[i as int]@);
                assert(rr.take(right@.len() as int) =~= rr);
            }
            flags.push(!(before < avail));
            i = i + 1;
        }
        let mut builder = ArrayBuilder::new(0);
        builder.push_selected(&left, &flags);
        proof {
            lemma_keep_where_agree(l, |i: int| flags@[i], unmatched_in(l, rr));
            assert(builder@ =~= keep_where(l, unmatched_in(l, rr)));
        }
        builder.finish(buf)
    }

    /// Whether two arrays have an element in common.
    pub fn array_overlap(&self, other: RawJsonb) -> (r: Result<bool, Error>)
        ensures
            r == array_overlap_spec(self@, other@),
    {
        let left = as_elements(self.0)?;
        let right = as_elements(other.0)?;
        let ghost l = items_view(left@);
        let ghost rr = items_view(right@);
        let mut i: usize = 0;
        while i < left.len()
            invariant
                i <= left@.len(),
                l == items_view(left@),
                rr == items_view(right@),
                elements_of(self@) == Ok::<Seq<RawItem>, Error>(l),
                elements_of(other@) == Ok::<Seq<RawItem>, Error>(rr),
                forall|j: int| 0 <= j < i ==> count_of(rr, #[trigger] l[j]) == 0,
            decreases left@.len() - i,
        {
            let n = count_item(&right, right.len(), &left[i]);
            proof {
                assert(l[i as int] == left@[i as int]@);
                assert(rr.take(right@.len() as int) =~= rr);
            }
            if n > 0 {
                proof {
                    assert(0 <= i < l.len() && count_of(rr, l[i as int]) > 0);
                    assert(share_element(l, rr));
                }
                return Ok(true);
            }
            i = i + 1;
        }
        proof {
            assert(!share_element(l, rr));
        }
        Ok(false)
    }
}

/// The members of a value that must be an object: `InvalidObject` for an
/// array or a scalar, `InvalidJsonb` for a tag that is none of the three.
pub open spec fn object_members(s: Seq<u8>) -> Result<Seq<RawEntry>, Error> {
    match read_word(s, 0) {
        Err(e) => Err(e),
        Ok(h) => if header_tag(h) == OBJECT_CONTAINER_TAG {
            object_entries(s, header_len(h))
        } else if is_container_tag(header_tag(h)) {
            Err(Error::InvalidObject)
        } else {
            Err(Error::InvalidJsonb)
        },
    }
}

/// The members of the value `value`, which must be an object.
pub fn members_of<'b>(value: &'b [u8]) -> (r: Result<Vec<Entry<'b>>, Error>)
    ensures
        match object_members(value@) {
            Ok(entries) => r is Ok && entries_view(r->Ok_0@) == entries,
            Err(e) => r == Err::<Vec<Entry<'b>>, Error>(e),
        },
        r is Ok ==> entries_wf(entries_view(r->Ok_0@)),
{
    let header = read_u32(value, 0)?;
    let (tag, _) = decode_header(header);
    if tag == OBJECT_CONTAINER_TAG {
        iterate_object_entries(value, header)
    } else if is_valid_tag(tag) {
        Err(Error::InvalidObject)
    } else {
        Err(Error::InvalidJsonb)
    }
}

/// Whether a member of `entries` has the key `key`.
pub open spec fn has_key(entries: Seq<RawEntry>, key: Seq<u8>) -> bool {
    exists|i: int| 0 <= i < entries.len() && (#[trigger] entries[i]).key == key
}

/// Whether one of `keys` is `key`.
pub open spec fn key_listed(keys: Seq<&str>, key: Seq<u8>) -> bool {
    exists|i: int| 0 <= i < keys.len() && (#[trigger] keys[i]).spec_bytes() == key
}

/// The positions of the members whose key is one of `keys`.
pub open spec fn listed(entries: Seq<RawEntry>, keys: Seq<&str>) -> spec_fn(int) -> bool {
    |i: int| key_listed(keys, entries[i].key)
}

/// The positions of the members whose key is none of `keys`.
pub open spec fn unlisted(entries: Seq<RawEntry>, keys: Seq<&str>) -> spec_fn(int) -> bool {
    |i: int| !key_listed(keys, entries[i].key)
}

/// The positions of the members whose key is not `name`.
pub open spec fn not_named(entries: Seq<RawEntry>, name: Seq<u8>) -> spec_fn(int) -> bool {
    |i: int| entries[i].key != name
}

/// The positions of the elements that are not the string `name`.
pub open spec fn not_string(items: Seq<RawItem>, name: Seq<u8>) -> spec_fn(int) -> bool {
    |i: int| !(items[i].jentry.type_code == STRING_TAG && items[i].data == name)
}

/// What `object_insert` gives: the object with one more member, which
/// replaces the member with the same key. Where there is such a member and
/// `update` is not set, `ObjectDuplicateKey`.
pub open spec fn object_insert_spec(
    s: Seq<u8>,
    key: Seq<u8>,
    new_value: Seq<u8>,
    update: bool,
) -> Result<Seq<u8>, Error> {
    match object_members(s) {
        Err(e) => Err(e),
        Ok(es) => if !update && has_key(es, key) {
            Err(Error::ObjectDuplicateKey)
        } else {
            match element_of(new_value) {
                Err(e) => Err(e),
                Ok(item) => if key.len() > crate::constants::JENTRY_OFF_LEN_MASK {
                    Err(Error::InvalidJsonbJEntry)
                } else {
                    object_result(
                        build_entries(es.push(RawEntry { key, jentry: item.jentry, data: item.data })),
                    )
                },
            }
        },
    }
}

/// What `object_delete` gives: the members whose key is none of `keys`.
pub open spec fn object_delete_spec(s: Seq<u8>, keys: Seq<&str>) -> Result<Seq<u8>, Error> {
    match object_members(s) {
        Err(e) => Err(e),
        Ok(es) => object_result(build_entries(keep_where(es, unlisted(es, keys)))),
    }
}

/// What `object_pick` gives: the members whose key is one of `keys`.
pub open spec fn object_pick_spec(s: Seq<u8>, keys: Seq<&str>) -> Result<Seq<u8>, Error> {
    match object_members(s) {
        Err(e) => Err(e),
        Ok(es) => object_result(build_entries(keep_where(es, listed(es, keys)))),
    }
}

/// What `delete_by_name` gives: an object without the member of that name,
/// an array without the strings that are the name. A scalar gives
/// `InvalidJsonType`.
pub open spec fn delete_by_name_spec(s: Seq<u8>, name: Seq<u8>) -> Result<Seq<u8>, Error> {
    match read_word(s, 0) {
        Err(e) => Err(e),
        Ok(h) => if header_tag(h) == OBJECT_CONTAINER_TAG {
            match object_entries(s, header_len(h)) {
                Err(e) => Err(e),
                Ok(es) => object_result(build_entries(keep_where(es, not_named(es, name)))),
            }
        } else if header_tag(h) == ARRAY_CONTAINER_TAG {
            match container_items(s, header_len(h)) {
                Err(e) => Err(e),
                Ok(items) => array_result(keep_where(items, not_string(items, name))),
            }
        } else if header_tag(h) == SCALAR_CONTAINER_TAG {
            Err(Error::InvalidJsonType)
        } else {
            Err(Error::InvalidJsonb)
        },
    }
}

/// The position that an index stands for in `len` elements: itself, or
/// counted from the end where it is negative.
pub open spec fn from_end(len: int, index: int) -> int {
    if index < 0 {
        len + index
    } else {
        index
    }
}

/// What `delete_by_index` gives: the array without the element at the
/// index, or the array as it is where it has no such element. A value that
/// is no array gives `InvalidJsonType`.
pub open spec fn delete_by_index_spec(s: Seq<u8>, index: int) -> Result<Seq<u8>, Error> {
    match read_word(s, 0) {
        Err(e) => Err(e),
        Ok(h) => if header_tag(h) == ARRAY_CONTAINER_TAG {
            let idx = from_end(header_len(h) as int, index);
            if idx < 0 || idx >= header_len(h) {
                Ok(s)
            } else {
                match container_items(s, header_len(h)) {
                    Err(e) => Err(e),
                    Ok(items) => array_result(items.remove(idx)),
                }
            }
        } else if is_container_tag(header_tag(h)) {
            Err(Error::InvalidJsonType)
        } else {
            Err(Error::InvalidJsonb)
        },
    }
}

/// Whether one of `keys` is `key`.
pub fn is_listed(keys: &[&str], key: &[u8]) -> (r: bool)
    ensures
        r == key_listed(keys@, key@),
{
    let mut i: usize = 0;
    while i < keys.len()
        invariant
            i <= keys@.len(),
            forall|j: int| 0 <= j < i ==> (#[trigger] keys@[j]).spec_bytes() != key@,
        decreases keys@.len() - i,
    {
        if bytes_eq(keys[i].as_bytes(), key) {
            return true;
        }
        i = i + 1;
    }
    false
}

/// The position in `len` elements that `index` stands for, if there is one.
pub fn resolve_index(len: usize, index: i32) -> (r: Option<usize>)
    ensures
        match r {
            Some(i) => i == from_end(len as int, index as int) && i < len,
            None => from_end(len as int, index as int) < 0 || from_end(len as int, index as int)
                >= len,
        },
{
    if index < 0 {
        let back: u64 = (-(index as i64)) as u64;
        if back > len as u64 {
            None
        } else {
            Some(len - (back as usize))
        }
    } else if index as u64 >= len as u64 {
        None
    } else {
        Some(index as usize)
    }
}

impl<'a> RawJsonb<'a> {
    /// Inserts a member into an object.
    pub fn object_insert(
        &self,
        new_key: &str,
        new_val: RawJsonb,
        update_flag: bool,
        buf: &mut Vec<u8>,
    ) -> (r: Result<(), Error>)
        ensures
            appended(
                old(buf)@,
                final(buf)@,
                r,
                object_insert_spec(self@, new_key.spec_bytes(), new_val@, update_flag),
            ),
    {
        let key = new_key.as_bytes();
        let entries = members_of(self.0)?;
        let ghost es = entries_view(entries@);
        if !update_flag {
            let mut i: usize = 0;
            while i < entries.len()
                invariant
                    i <= entries@.len(),
                    es == entries_view(entries@),
                    object_members(self@) == Ok::<Seq<RawEntry>, Error>(es),
                    !update_flag,
                    buf@ == old(buf)@,
                    key@ == new_key.spec_bytes(),
                    forall|j: int| 0 <= j < i ==> (#[trigger] es[j]).key != key@,
                decreases entries@.len() - i,
            {
                assert(es[i as int] == entries@[i as int]@);
                if bytes_eq(entries[i].key, key) {
                    assert(has_key(es, key@));
                    return Err(Error::ObjectDuplicateKey);
                }
                i = i + 1;
            }
            assert(!has_key(es, key@));
        }
        let item = as_element(new_val.0)?;
        if key.len() > crate::constants::JENTRY_OFF_LEN_MASK as usize {
            return Err(Error::InvalidJsonbJEntry);
        }
        let mut builder = ObjectBuilder::new();
        builder.push_entries(&entries);
        builder.push_raw(key, item.jentry, item.data);
        proof {
            let e = RawEntry { key: key@, jentry: item@.jentry, data: item@.data };
            lemma_insert_all_empty(es);
            assert(es.push(e).drop_last() =~= es);
        }
        builder.finish(buf)
    }

    /// Deletes the members of an object whose key is one of `keys`.
    pub fn object_delete(&self, keys: &[&str], buf: &mut Vec<u8>) -> (r: Result<(), Error>)
        ensures
            appended(old(buf)@, final(buf)@, r, object_delete_spec(self@, keys@)),
    {
        let entries = members_of(self.0)?;
        let ghost es = entries_view(entries@);
        let mut flags: Vec<bool> = Vec::new();
        let mut i: usize = 0;
        while i < entries.len()
            invariant
                i <= entries@.len(),
                es == entries_view(entries@),
                flags@.len() == i,
                forall|j: int| 0 <= j < i ==> flags@[j] == #[trigger] unlisted(es, keys@)(j),
            decreases entries@.len() - i,
        {
            assert(es[i as int] == entries@[i as int]@);
            flags.push(!is_listed(keys, entries[i].key));
            i = i + 1;
        }
        let mut builder = ObjectBuilder::new();
        builder.push_selected(&entries, &flags);
        proof {
            lemma_keep_where_agree(es, |i: int| flags@[i], unlisted(es, keys@));
            lemma_insert_all_empty(keep_where(es, unlisted(es, keys@)));
        }
        builder.finish(buf)
    }

    /// Keeps the members of an object whose key is one of `keys`.
    pub fn object_pick(&self, keys: &[&str], buf: &mut Vec<u8>) -> (r: Result<(), Error>)
        ensures
            appended(old(buf)@, final(buf)@, r, object_pick_spec(self@, keys@)),
    {
        let entries = members_of(self.0)?;
        let ghost es = entries_view(entries@);
        let mut flags: Vec<bool> = Vec::new();
        let mut i: usize = 0;
        while i < entries.len()
            invariant
                i <= entries@.len(),
                es == entries_view(entries@),
                flags@.len() == i,
                forall|j: int| 0 <= j < i ==> flags@[j] == #[trigger] listed(es, keys@)(j),
            decreases entries@.len() - i,
        {
            assert(es[i as int] == entries@[i as int]@);
            flags.push(is_listed(keys, entries[i].key));
            i = i + 1;
        }
        let mut builder = ObjectBuilder::new();
        builder.push_selected(&entries, &flags);
        proof {
            lemma_keep_where_agree(es, |i: int| flags@[i], listed(es, keys@));
            lemma_insert_all_empty(keep_where(es, listed(es, keys@)));
        }
        builder.finish(buf)
    }

    /// Deletes a member of an object by its name, or the strings of an array
    /// that are the name.
    pub fn delete_by_name(&self, name: &str, buf: &mut Vec<u8>) -> (r: Result<(), Error>)
        ensures
            appended(old(buf)@, final(buf)@, r, delete_by_name_spec(self@, name.spec_bytes())),
    {
        let value = self.0;
        let key = name.as_bytes();
        let header = read_u32(value, 0)?;
        let (tag, _) = decode_header(header);
        if tag == OBJECT_CONTAINER_TAG {
            let entries = iterate_object_entries(value, header)?;
            let ghost es = entries_view(entries@);
            let mut flags: Vec<bool> = Vec::new();
            let mut i: usize = 0;
            while i < entries.len()
                invariant
                    i <= entries@.len(),
                    es == entries_view(entries@),
                    flags@.len() == i,
                    forall|j: int| 0 <= j < i ==> flags@[j] == #[trigger] not_named(es, key@)(j),
                decreases entries@.len() - i,
            {
                assert(es[i as int] == entries@[i as int]@);
                flags.push(!bytes_eq(entries[i].key, key));
                i = i + 1;
            }
            let mut builder = ObjectBuilder::new();
            builder.push_selected(&entries, &flags);
            proof {
                lemma_keep_where_agree(es, |i: int| flags@[i], not_named(es, key@));
                lemma_insert_all_empty(keep_where(es, not_named(es, key@)));
            }
            builder.finish(buf)
        } else if tag == ARRAY_CONTAINER_TAG {
            let items = iterate_array(value, header)?;
            let ghost raw = items_view(items@);
            let mut flags: Vec<bool> = Vec::new();
            let mut i: usize = 0;
            while i < items.len()
                invariant
                    i <= items@.len(),
                    raw == items_view(items@),
                    flags@.len() == i,
                    forall|j: int| 0 <= j < i ==> flags@[j] == #[trigger] not_string(raw, key@)(j),
                decreases items@.len() - i,
            {
                assert(raw[i as int] == items@[i as int]@);
                let matches = items[i].jentry.type_code == STRING_TAG && bytes_eq(items[i].data, key);
                flags.push(!matches);
                i = i + 1;
            }
            let mut builder = ArrayBuilder::new(items.len());
            builder.push_selected(&items, &flags);
            proof {
                lemma_keep_where_agree(raw, |i: int| flags@[i], not_string(raw, key@));
                assert(builder@ =~= keep_where(raw, not_string(raw, key@)));
            }
            builder.finish(buf)
        } else if tag == SCALAR_CONTAINER_TAG {
            Err(Error::InvalidJsonType)
        } else {
            Err(Error::InvalidJsonb)
        }
    }

    /// Deletes the element of an array at an index; a negative index counts
    /// from the end.
    pub fn delete_by_index(&self, index: i32, buf: &mut Vec<u8>) -> (r: Result<(), Error>)
        ensures
            appended(old(buf)@, final(buf)@, r, delete_by_index_spec(self@, index as int)),
    {
        let value = self.0;
        let header = read_u32(value, 0)?;
        let (tag, len) = decode_header(header);
        if tag == ARRAY_CONTAINER_TAG {
            match resolve_index(len, index) {
                None => {
                    buf.extend_from_slice(value);
                    assert(buf@ == old(buf)@ + self@);
                    Ok(())
                },
                Some(idx) => {
                    let items = iterate_array(value, header)?;
                    let ghost raw = items_view(items@);
                    let mut builder = ArrayBuilder::new(len);
                    let mut i: usize = 0;
                    proof {
                        assert(builder@ =~= raw.remove(idx as int).take(0));
                    }
                    while i < items.len()
                        invariant
                            i <= items@.len(),
                            idx < items@.len(),
                            raw == items_view(items@),
                            items_wf(raw),
                            builder.wf(),
                            builder@ == raw.remove(idx as int).take(
                                if i <= idx {
                                    i as int
                                } else {
                                    i - 1
                                },
                            ),
                        decreases items@.len() - i,
                    {
                        let item = &items[i];
                        assert(raw[i as int] == item@);
                        assert(item_wf(raw[i as int]));
                        if i != idx {
                            builder.push_raw(item.jentry, item.data);
                            proof {
                                assert(builder@ =~= raw.remove(idx as int).take(
                                    if i + 1 <= idx {
                                        i + 1
                                    } else {
                                        i as int
                                    },
                                ));
                            }
                        }
                        i = i + 1;
                    }
                    proof {
                        assert(builder@ =~= raw.remove(idx as int));
                        assert(container_items(self@, header_len(header)) == Ok::<Seq<RawItem>, Error>(raw));
                        assert(buf@ == old(buf)@);
                    }
                    builder.finish(buf)
                },
            }
        } else if is_valid_tag(tag) {
            Err(Error::InvalidJsonType)
        } else {
            Err(Error::InvalidJsonb)
        }
    }
}

} // verus!
