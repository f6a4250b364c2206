//! Containment of one value in another.

use vstd::prelude::*;
use crate::error::Error;
use crate::raw::RawJsonb;
use crate::codec::{read_u32, read_word, header_tag, header_len, decode_header};
use crate::constants::{
    ARRAY_CONTAINER_TAG, OBJECT_CONTAINER_TAG, SCALAR_CONTAINER_TAG, CONTAINER_TAG,
};
use crate::iterator::{
    RawItem, RawEntry, Item, Entry, items_view, entries_view, container_items, object_entries,
    scalar_item, read_scalar, iterate_array, iterate_object_entries, items_shorter, entries_shorter,
};
use crate::bytes::bytes_eq;

verus! {

/// The position of the first member from position `i` on whose key is `key`.
pub open spec fn find_key_from(entries: Seq<RawEntry>, key: Seq<u8>, i: nat) -> Option<int>
    decreases entries.len() - i,
{
    if i >= entries.len() {
        None
    } else if entries[i as int].key == key {
        Some(i as int)
    } else {
        find_key_from(entries, key, i + 1)
    }
}

/// The position of the first member whose key is `key`.
pub open spec fn find_key(entries: Seq<RawEntry>, key: Seq<u8>) -> Option<int> {
    find_key_from(entries, key, 0)
}

/// Where a position is found, it is a position of a member with that key.
pub proof fn lemma_find_key_from(entries: Seq<RawEntry>, key: Seq<u8>, i: nat)
    ensures
        match find_key_from(entries, key, i) {
            Some(k) => i <= k < entries.len() && entries[k].key == key,
            None => forall|j: int| i <= j < entries.len() ==> (#[trigger] entries[j]).key != key,
        },
    decreases entries.len() - i,
{
    if i < entries.len() && entries[i as int].key != key {
        lemma_find_key_from(entries, key, i + 1);
    }
}

/// The position of the first member whose key is `key`.
pub fn find_entry(entries: &Vec<Entry>, key: &[u8]) -> (r: Option<usize>)
    ensures
        match find_key(entries_view(entries@), key@) {
            Some(k) => r == Some(k as usize) && 0 <= k < entries@.len(),
            None => r is None,
        },
        r is Some ==> find_key(entries_view(entries@), key@) == Some(r->Some_0 as int),
{
    let ghost es = entries_view(entries@);
    proof {
        lemma_find_key_from(es, key@, 0);
    }
    let mut i: usize = 0;
    while i < entries.len()
        invariant
            i <= entries@.len(),
            es == entries_view(entries@),
            find_key_from(es, key@, i as nat) == find_key_from(es, key@, 0),
        decreases entries@.len() - i,
    {
        assert(es[i as int] == entries@[i as int]@);
        if bytes_eq(entries[i].key, key) {
            return Some(i);
        }
        i = i + 1;
    }
    None
}

/// Whether an element of `items` has the type and the payload of `x`.
pub open spec fn has_element(items: Seq<RawItem>, x: RawItem) -> bool {
    exists|i: int|
        0 <= i < items.len() && (#[trigger] items[i]).jentry.type_code == x.jentry.type_code
            && items[i].data == x.data
}

/// Whether the right value is contained in the left one.
///
/// A scalar is contained in an array that has it as an element. Apart from
/// that, the two are of one kind. An object contains an object each of whose
/// members it has under the same key, with a value of the same type that is
/// the same scalar or contains the nested container. An array contains an
/// array each of whose scalars it has as an element and each of whose nested
/// containers one of its own nested containers contains. A scalar contains
/// the scalar that has the same bytes.
pub open spec fn contains_spec(l: Seq<u8>, r: Seq<u8>) -> Result<bool, Error>
    decreases r.len(), 3nat, 0nat,
{
    match read_word(l, 0) {
        Err(e) => Err(e),
        Ok(lh) => match read_word(r, 0) {
            Err(e) => Err(e),
            Ok(rh) => if header_tag(lh) == ARRAY_CONTAINER_TAG && header_tag(rh)
                == SCALAR_CONTAINER_TAG {
                match scalar_item(r) {
                    Err(e) => Err(e),
                    Ok(item) => match container_items(l, header_len(lh)) {
                        Err(e) => Err(e),
                        Ok(li) => Ok(has_element(li, item)),
                    },
                }
            } else if header_tag(lh) != header_tag(rh) {
                Ok(false)
            } else if header_tag(rh) == OBJECT_CONTAINER_TAG {
                if header_len(lh) < header_len(rh) {
                    Ok(false)
                } else {
                    match object_entries(l, header_len(lh)) {
                        Err(e) => Err(e),
                        Ok(le) => match object_entries(r, header_len(rh)) {
                            Err(e) => Err(e),
                            Ok(re) => members_contained_from(le, re, 0, r.len()),
                        },
                    }
                }
            } else if header_tag(rh) == ARRAY_CONTAINER_TAG {
                match container_items(l, header_len(lh)) {
                    Err(e) => Err(e),
                    Ok(li) => match container_items(r, header_len(rh)) {
                        Err(e) => Err(e),
                        Ok(ri) => elements_contained_from(li, ri, 0, r.len()),
                    },
                }
            } else {
                Ok(l == r)
            },
        },
    }
}

/// Whether the members `re` from position `j` on, whose values are shorter
/// than `bound`, are each contained in the members `le`.
pub open spec fn members_contained_from(
    le: Seq<RawEntry>,
    re: Seq<RawEntry>,
    j: nat,
    bound: nat,
) -> Result<bool, Error>
    decreases bound, 2nat, re.len() - j,
{
    if j >= re.len() {
        Ok(true)
    } else {
        let e = re[j as int];
        match find_key(le, e.key) {
            None => Ok(false),
            Some(k) => if le[k].jentry.type_code != e.jentry.type_code {
                Ok(false)
            } else if e.jentry.type_code != CONTAINER_TAG {
                if le[k].data == e.data {
                    members_contained_from(le, re, j + 1, bound)
                } else {
                    Ok(false)
                }
            } else if e.data.len() < bound {
                match contains_spec(le[k].data, e.data) {
                    Err(err) => Err(err),
                    Ok(found) => if found {
                        members_contained_from(le, re, j + 1, bound)
                    } else {
                        Ok(false)
                    },
                }
            } else {
                Err(Error::InvalidJsonb)
            },
        }
    }
}

/// Whether the elements `ri` from position `j` on, which are shorter than
/// `bound`, are each contained in the elements `li`.
pub open spec fn elements_contained_from(
    li: Seq<RawItem>,
    ri: Seq<RawItem>,
    j: nat,
    bound: nat,
) -> Result<bool, Error>
    decreases bound, 2nat, ri.len() - j,
{
    if j >= ri.len() {
        Ok(true)
    } else {
        let x = ri[j as int];
        if x.jentry.type_code != CONTAINER_TAG {
            if has_element(li, x) {
                elements_contained_from(li, ri, j + 1, bound)
            } else {
                Ok(false)
            }
        } else {
            match nested_contains_from(li, x.data, 0, bound) {
                Err(err) => Err(err),
                Ok(found) => if found {
                    elements_contained_from(li, ri, j + 1, bound)
                } else {
                    Ok(false)
                },
            }
        }
    }
}

/// Whether one of the nested containers among `li`, from position `k` on,
/// contains the container `d`, which is shorter than `bound`.
pub open spec fn nested_contains_from(li: Seq<RawItem>, d: Seq<u8>, k: nat, bound: nat) -> Result<
    bool,
    Error,
>
    decreases bound, 1nat, li.len() - k,
{
    if k >= li.len() {
        Ok(false)
    } else if li[k as int].jentry.type_code == CONTAINER_TAG {
        if d.len() < bound {
            match contains_spec(li[k as int].data, d) {
                Err(err) => Err(err),
                Ok(found) => if found {
                    Ok(true)
                } else {
                    nested_contains_from(li, d, k + 1, bound)
                },
            }
        } else {
            Err(Error::InvalidJsonb)
        }
    } else {
        nested_contains_from(li, d, k + 1, bound)
    }
}

impl<'a> RawJsonb<'a> {
    /// Whether the other value is contained in this one.
    pub fn contains(&self, other: RawJsonb) -> (r: Result<bool, Error>)
        ensures
            r == contains_spec(self@, other@),
    {
        Self::container_contains(self.0, other.0)
    }

    /// Whether the value `right` is contained in the value `left`.
    pub fn container_contains(left: &[u8], right: &[u8]) -> (r: Result<bool, Error>)
        ensures
            r == contains_spec(left@, right@),
        decreases right@.len(),
    {
        let l_header = read_u32(left, 0)?;
        let r_header = read_u32(right, 0)?;
        let (l_type, l_size) = decode_header(l_header);
        let (r_type, r_size) = decode_header(r_header);
        if l_type == ARRAY_CONTAINER_TAG && r_type == SCALAR_CONTAINER_TAG {
            let item = read_scalar(right)?;
            let l_items = iterate_array(left, l_header)?;
            return Ok(Self::array_contains(&l_items, &item));
        }
        if l_type != r_type {
            return Ok(false);
        }
        if r_type == OBJECT_CONTAINER_TAG {
            if l_size < r_size {
                return Ok(false);
            }
            let l_entries = iterate_object_entries(left, l_header)?;
            let r_entries = iterate_object_entries(right, r_header)?;
            let ghost le = entries_view(l_entries@);
            let ghost re = entries_view(r_entries@);
            let ghost bound = right@.len();
            let mut j: usize = 0;
            while j < r_entries.len()
                invariant
                    j <= r_entries@.len(),
                    le == entries_view(l_entries@),
                    re == entries_view(r_entries@),
                    entries_shorter(re, bound),
                    bound == right@.len(),
                    contains_spec(left@, right@) == members_contained_from(le, re, 0, bound),
                    members_contained_from(le, re, j as nat, bound) == members_contained_from(
                        le,
                        re,
                        0,
                        bound,
                    ),
                decreases r_entries@.len() - j,
            {
                let e = &r_entries[j];
                assert(re[j as int] == e@);
                assert(re[j as int].data.len() < bound);
                match find_entry(&l_entries, e.key) {
                    None => {
                        return Ok(false);
                    },
                    Some(k) => {
                        let l = &l_entries[k];
                        assert(le[k as int] == l@);
                        if l.jentry.type_code != e.jentry.type_code {
                            return Ok(false);
                        }
                        if e.jentry.type_code != CONTAINER_TAG {
                            if !bytes_eq(l.data, e.data) {
                                return Ok(false);
                            }
                        } else if !Self::container_contains(l.data, e.data)? {
                            return Ok(false);
                        }
                    },
                }
                j = j + 1;
            }
            Ok(true)
        } else if r_type == ARRAY_CONTAINER_TAG {
            let l_items = iterate_array(left, l_header)?;
            let r_items = iterate_array(right, r_header)?;
            let ghost li = items_view(l_items@);
            let ghost ri = items_view(r_items@);
            let ghost bound = right@.len();
            let mut j: usize = 0;
            while j < r_items.len()
                invariant
                    j <= r_items@.len(),
                    li == items_view(l_items@),
                    ri == items_view(r_items@),
                    items_shorter(ri, bound),
                    bound == right@.len(),
                    contains_spec(left@, right@) == elements_contained_from(li, ri, 0, bound),
                    elements_contained_from(li, ri, j as nat, bound) == elements_contained_from(
                        li,
                        ri,
                        0,
                        bound,
                    ),
                decreases r_items@.len() - j,
            {
                let x = &r_items[j];
                assert(ri[j as int] == x@);
                assert(ri[j as int].data.len() < bound);
                if x.jentry.type_code != CONTAINER_TAG {
                    if !Self::array_contains(&l_items, x) {
                        return Ok(false);
                    }
                } else {
                    let mut contains_nested = false;
                    let mut k: usize = 0;
                    while k < l_items.len()
                        invariant_except_break
                            !contains_nested,
                            nested_contains_from(li, x@.data, k as nat, bound)
                                == nested_contains_from(li, x@.data, 0, bound),
                        invariant
                            k <= l_items@.len(),
                            j < r_items@.len(),
                            li == items_view(l_items@),
                            ri == items_view(r_items@),
                            x@ == ri[j as int],
                            x@.jentry.type_code == CONTAINER_TAG,
                            x@.data.len() < bound,
                            bound == right@.len(),
                            contains_spec(left@, right@) == elements_contained_from(li, ri, 0, bound),
                            elements_contained_from(li, ri, j as nat, bound)
                                == elements_contained_from(li, ri, 0, bound),
                        ensures
                            nested_contains_from(li, x@.data, 0, bound) == Ok::<bool, Error>(
                                contains_nested,
                            ),
                        decreases l_items@.len() - k,
                    {
                        let l = &l_items[k];
                        assert(li[k as int] == l@);
                        if l.jentry.type_code == CONTAINER_TAG {
                            if Self::container_contains(l.data, x.data)? {
                                contains_nested = true;
                                break ;
                            }
                        }
                        k = k + 1;
                    }
                    if !contains_nested {
                        return Ok(false);
                    }
                }
                j = j + 1;
            }
            Ok(true)
        } else {
            Ok(bytes_eq(left, right))
        }
    }

    /// Whether an element of `arr` has the type and the payload of `val`.
    pub fn array_contains(arr: &Vec<Item>, val: &Item) -> (r: bool)
        ensures
            r == has_element(items_view(arr@), val@),
    {
        let ghost items = items_view(arr@);
        let mut i: usize = 0;
        while i < arr.len()
            invariant
                i <= arr@.len(),
                items == items_view(arr@),
                forall|j: int|
                    0 <= j < i ==> !((#[trigger] items[j]).jentry.type_code == val@.jentry.type_code
                        && items[j].data == val@.data),
            decreases arr@.len() - i,
        {
            assert(items[i as int] == arr@[i as int]@);
            if arr[i].jentry.type_code == val.jentry.type_code && bytes_eq(arr[i].data, val.data) {
                return true;
            }
            i = i + 1;
        }
        false
    }
}

} // verus!
