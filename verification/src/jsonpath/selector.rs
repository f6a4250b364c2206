//! Evaluating a path on a value in its binary form.

use vstd::prelude::*;
use vstd::slice::slice_to_vec;
use crate::error::Error;
use crate::codec::{read_u32, read_word, header_tag, header_len, decode_header};
use crate::constants::{
    ARRAY_CONTAINER_TAG, OBJECT_CONTAINER_TAG, SCALAR_CONTAINER_TAG, CONTAINER_TAG,
};
use crate::iterator::{
    RawItem, RawEntry, Item, Entry, items_view, entries_view, container_items, object_entries,
    iterate_array, iterate_object_entries, is_container_tag, extract, extract_by_jentry, value_item,
    items_shorter, entries_shorter,
};
use crate::mutate::is_valid_tag;
use crate::contains::{find_key, find_entry};
use crate::access::vecs_view;
use crate::bytes::{bytes_eq, Order};
use crate::codec::JEntry;
use crate::constants::{NULL_TAG, TRUE_TAG, FALSE_TAG, STRING_TAG, NUMBER_TAG};
use crate::number::{Number, decode_number};
use crate::value::bare_element;
use crate::parser::number_element;
use crate::access::{scalar_of, scalar_value};
use crate::builder::{OwnedItem, owned_view, ArrayBuilder, array_result};
use crate::iterator::{element_of, as_element};
use crate::order::{item_order, compare_scalar};
use crate::jsonpath::path::{
    BinaryOperator, PathValue, Path, Expr, JsonPath, ValueTerm, Step, Term, steps_view,
    lemma_steps_index,
};

verus! {

/// The values of the members of an object with the key `name`; of another
/// value none.
pub open spec fn select_name(v: Seq<u8>, name: Seq<u8>) -> Result<Seq<Seq<u8>>, Error> {
    match read_word(v, 0) {
        Err(e) => Err(e),
        Ok(h) => if header_tag(h) == OBJECT_CONTAINER_TAG {
            match object_entries(v, header_len(h)) {
                Err(e) => Err(e),
                Ok(es) => match find_key(es, name) {
                    Some(k) => Ok(seq![extract(value_item(es[k]))]),
                    None => Ok(Seq::empty()),
                },
            }
        } else if is_container_tag(header_tag(h)) {
            Ok(Seq::empty())
        } else {
            Err(Error::InvalidJsonb)
        },
    }
}

/// The values of the members of an object; of another value none.
pub open spec fn select_members(v: Seq<u8>) -> Result<Seq<Seq<u8>>, Error> {
    match read_word(v, 0) {
        Err(e) => Err(e),
        Ok(h) => if header_tag(h) == OBJECT_CONTAINER_TAG {
            match object_entries(v, header_len(h)) {
                Err(e) => Err(e),
                Ok(es) => Ok(es.map_values(|e: RawEntry| extract(value_item(e)))),
            }
        } else if is_container_tag(header_tag(h)) {
            Ok(Seq::empty())
        } else {
            Err(Error::InvalidJsonb)
        },
    }
}

/// The elements of an array; another value itself.
pub open spec fn select_elements(v: Seq<u8>) -> Result<Seq<Seq<u8>>, Error> {
    match read_word(v, 0) {
        Err(e) => Err(e),
        Ok(h) => if header_tag(h) == ARRAY_CONTAINER_TAG {
            match container_items(v, header_len(h)) {
                Err(e) => Err(e),
                Ok(items) => Ok(items.map_values(|it: RawItem| extract(it))),
            }
        } else if is_container_tag(header_tag(h)) {
            Ok(seq![v])
        } else {
            Err(Error::InvalidJsonb)
        },
    }
}

/// The elements of an array, as elements; of another value none.
pub open spec fn array_elements(v: Seq<u8>) -> Result<Seq<RawItem>, Error> {
    match read_word(v, 0) {
        Err(e) => Err(e),
        Ok(h) => if header_tag(h) == ARRAY_CONTAINER_TAG {
            container_items(v, header_len(h))
        } else if is_container_tag(header_tag(h)) {
            Ok(Seq::empty())
        } else {
            Err(Error::InvalidJsonb)
        },
    }
}

/// The values `acc` with the elements at the indexes from position `i` on;
/// an index that is negative or not below the number of elements gives none.
pub open spec fn pick_indexes(items: Seq<RawItem>, indexes: Seq<i32>, i: nat, acc: Seq<Seq<u8>>) -> Seq<
    Seq<u8>,
>
    decreases indexes.len() - i,
{
    if i >= indexes.len() {
        acc
    } else if 0 <= indexes[i as int] < items.len() {
        pick_indexes(items, indexes, i + 1, acc.push(extract(items[indexes[i as int] as int])))
    } else {
        pick_indexes(items, indexes, i + 1, acc)
    }
}

/// A bound of a slice of `len` elements: counted from the end where it is
/// negative, and brought into `0 ..= len`.
pub open spec fn slice_bound(len: int, bound: int) -> int {
    let b = if bound < 0 {
        len + bound
    } else {
        bound
    };
    if b < 0 {
        0
    } else if b > len {
        len
    } else {
        b
    }
}

/// The values `acc` with the elements at the positions `pos`, `pos + step`
/// and so on below `end`.
pub open spec fn pick_slice(items: Seq<RawItem>, pos: int, end: int, step: int, acc: Seq<Seq<u8>>) -> Seq<
    Seq<u8>,
>
    decreases
            (if end > pos {
                end - pos
            } else {
                0
            }),
{
    if step <= 0 || pos < 0 || pos >= end || end > items.len() {
        acc
    } else {
        pick_slice(items, pos + step, end, step, acc.push(extract(items[pos])))
    }
}

/// The elements of an array that a slice takes: from the start, or the
/// first, up to the end, or the last, every `step`-th, or each.
pub open spec fn select_slice(items: Seq<RawItem>, start: Option<i32>, end: Option<i32>, step: Option<
    u32,
>) -> Seq<Seq<u8>> {
    let len = items.len() as int;
    let from = match start {
        Some(s) => slice_bound(len, s as int),
        None => 0,
    };
    let to = match end {
        Some(e) => slice_bound(len, e as int),
        None => len,
    };
    let by = match step {
        Some(s) => s as int,
        None => 1,
    };
    pick_slice(items, from, to, by, Seq::empty())
}

/// The values `acc` with the values of the members that have one of the
/// names from position `i` on.
pub open spec fn pick_names(es: Seq<RawEntry>, names: Seq<Seq<u8>>, i: nat, acc: Seq<Seq<u8>>) -> Seq<
    Seq<u8>,
>
    decreases names.len() - i,
{
    if i >= names.len() {
        acc
    } else {
        match find_key(es, names[i as int]) {
            Some(k) => pick_names(es, names, i + 1, acc.push(extract(value_item(es[k])))),
            None => pick_names(es, names, i + 1, acc),
        }
    }
}

/// The members of an object; of another value none.
pub open spec fn object_members_or_none(v: Seq<u8>) -> Result<Seq<RawEntry>, Error> {
    match read_word(v, 0) {
        Err(e) => Err(e),
        Ok(h) => if header_tag(h) == OBJECT_CONTAINER_TAG {
            object_entries(v, header_len(h))
        } else if is_container_tag(header_tag(h)) {
            Ok(Seq::empty())
        } else {
            Err(Error::InvalidJsonb)
        },
    }
}

/// The values `acc` with what lies below the value `v`, in the order of a
/// walk that takes each value before what lies below it: with `name`, the
/// values of the members with that key; without, every member and element.
pub open spec fn descend(v: Seq<u8>, name: Option<Seq<u8>>, acc: Seq<Seq<u8>>) -> Result<
    Seq<Seq<u8>>,
    Error,
>
    decreases v.len(), 1nat, 0nat,
{
    match read_word(v, 0) {
        Err(e) => Err(e),
        Ok(h) => if header_tag(h) == OBJECT_CONTAINER_TAG {
            match object_entries(v, header_len(h)) {
                Err(e) => Err(e),
                Ok(es) => descend_members(es, 0, name, acc, v.len()),
            }
        } else if header_tag(h) == ARRAY_CONTAINER_TAG {
            match container_items(v, header_len(h)) {
                Err(e) => Err(e),
                Ok(items) => descend_elements(items, 0, name, acc, v.len()),
            }
        } else if header_tag(h) == SCALAR_CONTAINER_TAG {
            Ok(acc)
        } else {
            Err(Error::InvalidJsonb)
        },
    }
}

/// The values `acc` with what the members from position `i` on give to a
/// walk downwards.
pub open spec fn descend_members(
    es: Seq<RawEntry>,
    i: nat,
    name: Option<Seq<u8>>,
    acc: Seq<Seq<u8>>,
    bound: nat,
) -> Result<Seq<Seq<u8>>, Error>
    decreases bound, 0nat, es.len() - i,
{
    if i >= es.len() {
        Ok(acc)
    } else {
        let e = es[i as int];
        let with = if name is None || name == Some(e.key) {
            acc.push(extract(value_item(e)))
        } else {
            acc
        };
        if e.jentry.type_code == CONTAINER_TAG {
            if e.data.len() < bound {
                match descend(e.data, name, with) {
                    Err(err) => Err(err),
                    Ok(next) => descend_members(es, i + 1, name, next, bound),
                }
            } else {
                Err(Error::InvalidJsonb)
            }
        } else {
            descend_members(es, i + 1, name, with, bound)
        }
    }
}

/// The values `acc` with what the elements from position `i` on give to a
/// walk downwards.
pub open spec fn descend_elements(
    items: Seq<RawItem>,
    i: nat,
    name: Option<Seq<u8>>,
    acc: Seq<Seq<u8>>,
    bound: nat,
) -> Result<Seq<Seq<u8>>, Error>
    decreases bound, 0nat, items.len() - i,
{
    if i >= items.len() {
        Ok(acc)
    } else {
        let x = items[i as int];
        let with = if name is None {
            acc.push(extract(x))
        } else {
            acc
        };
        if x.jentry.type_code == CONTAINER_TAG {
            if x.data.len() < bound {
                match descend(x.data, name, with) {
                    Err(err) => Err(err),
                    Ok(next) => descend_elements(items, i + 1, name, next, bound),
                }
            } else {
                Err(Error::InvalidJsonb)
            }
        } else {
            descend_elements(items, i + 1, name, with, bound)
        }
    }
}

/// How values that were selected stand to what they are to be.
pub open spec fn selected(r: Result<Vec<Vec<u8>>, Error>, expected: Result<Seq<Seq<u8>>, Error>) -> bool {
    match expected {
        Ok(vals) => r is Ok && vecs_view(r->Ok_0@) == vals,
        Err(e) => r == Err::<Vec<Vec<u8>>, Error>(e),
    }
}

/// The elements of the array `value`; of another value none.
pub fn elements_or_none<'b>(value: &'b [u8]) -> (r: Result<Vec<Item<'b>>, Error>)
    ensures
        match array_elements(value@) {
            Ok(items) => r is Ok && items_view(r->Ok_0@) == items,
            Err(e) => r == Err::<Vec<Item<'b>>, Error>(e),
        },
        r is Ok ==> items_shorter(items_view(r->Ok_0@), value@.len()),
{
    let header = read_u32(value, 0)?;
    let (tag, _) = decode_header(header);
    if tag == ARRAY_CONTAINER_TAG {
        iterate_array(value, header)
    } else if is_valid_tag(tag) {
        let items: Vec<Item<'b>> = Vec::new();
        assert(items_view(items@) =~= Seq::<RawItem>::empty());
        Ok(items)
    } else {
        Err(Error::InvalidJsonb)
    }
}

/// The members of the object `value`; of another value none.
pub fn members_or_none<'b>(value: &'b [u8]) -> (r: Result<Vec<Entry<'b>>, Error>)
    ensures
        match object_members_or_none(value@) {
            Ok(es) => r is Ok && entries_view(r->Ok_0@) == es,
            Err(e) => r == Err::<Vec<Entry<'b>>, Error>(e),
        },
        r is Ok ==> entries_shorter(entries_view(r->Ok_0@), value@.len()),
{
    let header = read_u32(value, 0)?;
    let (tag, _) = decode_header(header);
    if tag == OBJECT_CONTAINER_TAG {
        iterate_object_entries(value, header)
    } else if is_valid_tag(tag) {
        let es: Vec<Entry<'b>> = Vec::new();
        assert(entries_view(es@) =~= Seq::<RawEntry>::empty());
        Ok(es)
    } else {
        Err(Error::InvalidJsonb)
    }
}

/// The value of a member as a value of its own.
pub fn member_value(e: &Entry) -> (r: Vec<u8>)
    ensures
        r@ == extract(value_item(e@)),
{
    let item = Item { jentry: e.jentry, data: e.data };
    extract_by_jentry(&item)
}

/// Adds the values of the members of `current` with the key `name`.
pub fn select_by_name(current: &[u8], name: &[u8], items: &mut Vec<Vec<u8>>) -> (r: Result<(), Error>)
    ensures
        match select_name(current@, name@) {
            Ok(vals) => r is Ok && vecs_view(final(items)@) == vecs_view(old(items)@) + vals,
            Err(e) => r == Err::<(), Error>(e) && final(items)@ == old(items)@,
        },
{
    let header = read_u32(current, 0)?;
    let (tag, _) = decode_header(header);
    if tag == OBJECT_CONTAINER_TAG {
        let entries = iterate_object_entries(current, header)?;
        match find_entry(&entries, name) {
            Some(k) => {
                assert(entries_view(entries@)[k as int] == entries@[k as int]@);
                let val = member_value(&entries[k]);
                items.push(val);
                proof {
                    assert(vecs_view(items@) =~= vecs_view(old(items)@) + seq![val@]);
                }
            },
            None => {
                proof {
                    assert(vecs_view(items@) =~= vecs_view(old(items)@) + Seq::<Seq<u8>>::empty());
                }
            },
        }
        Ok(())
    } else if is_valid_tag(tag) {
        proof {
            assert(vecs_view(items@) =~= vecs_view(old(items)@) + Seq::<Seq<u8>>::empty());
        }
        Ok(())
    } else {
        Err(Error::InvalidJsonb)
    }
}

/// Adds the values of the members of `current`.
pub fn select_all_object_values(current: &[u8], items: &mut Vec<Vec<u8>>) -> (r: Result<(), Error>)
    ensures
        match select_members(current@) {
            Ok(vals) => r is Ok && vecs_view(final(items)@) == vecs_view(old(items)@) + vals,
            Err(e) => r == Err::<(), Error>(e) && final(items)@ == old(items)@,
        },
{
    let header = read_u32(current, 0)?;
    let (tag, _) = decode_header(header);
    if tag == OBJECT_CONTAINER_TAG {
        let entries = iterate_object_entries(current, header)?;
        let ghost es = entries_view(entries@);
        let ghost vals = es.map_values(|e: RawEntry| extract(value_item(e)));
        let mut i: usize = 0;
        proof {
            assert(vecs_view(items@) =~= vecs_view(old(items)@) + vals.take(0));
        }
        while i < entries.len()
            invariant
                i <= entries@.len(),
                es == entries_view(entries@),
                vals == es.map_values(|e: RawEntry| extract(value_item(e))),
                vecs_view(items@) == vecs_view(old(items)@) + vals.take(i as int),
            decreases entries@.len() - i,
        {
            assert(es[i as int] == entries@[i as int]@);
            let val = member_value(&entries[i]);
            proof {
                assert(vals[i as int] == val@);
                assert(vals.take(i + 1) =~= vals.take(i as int).push(vals[i as int]));
                assert(vecs_view(items@.push(val)) =~= vecs_view(items@).push(val@));
                assert(vecs_view(items@.push(val)) =~= vecs_view(old(items)@) + vals.take(i + 1));
            }
            items.push(val);
            i = i + 1;
        }
        proof {
            assert(vals.take(i as int) =~= vals);
        }
        Ok(())
    } else if is_valid_tag(tag) {
        proof {
            assert(vecs_view(items@) =~= vecs_view(old(items)@) + Seq::<Seq<u8>>::empty());
        }
        Ok(())
    } else {
        Err(Error::InvalidJsonb)
    }
}

/// Adds the elements of `current`, or `current` itself where it is no array.
pub fn select_all_values(current: &[u8], items: &mut Vec<Vec<u8>>) -> (r: Result<(), Error>)
    ensures
        match select_elements(current@) {
            Ok(vals) => r is Ok && vecs_view(final(items)@) == vecs_view(old(items)@) + vals,
            Err(e) => r == Err::<(), Error>(e) && final(items)@ == old(items)@,
        },
{
    let header = read_u32(current, 0)?;
    let (tag, _) = decode_header(header);
    if tag == ARRAY_CONTAINER_TAG {
        let elems = iterate_array(current, header)?;
        let ghost raw = items_view(elems@);
        let ghost vals = raw.map_values(|it: RawItem| extract(it));
        let mut i: usize = 0;
        proof {
            assert(vecs_view(items@) =~= vecs_view(old(items)@) + vals.take(0));
        }
        while i < elems.len()
            invariant
                i <= elems@.len(),
                raw == items_view(elems@),
                vals == raw.map_values(|it: RawItem| extract(it)),
                vecs_view(items@) == vecs_view(old(items)@) + vals.take(i as int),
            decreases elems@.len() - i,
        {
            assert(raw[i as int] == elems@[i as int]@);
            let val = extract_by_jentry(&elems[i]);
            proof {
                assert(vals[i as int] == val@);
                assert(vals.take(i + 1) =~= vals.take(i as int).push(vals[i as int]));
                assert(vecs_view(items@.push(val)) =~= vecs_view(items@).push(val@));
                assert(vecs_view(items@.push(val)) =~= vecs_view(old(items)@) + vals.take(i + 1));
            }
            items.push(val);
            i = i + 1;
        }
        proof {
            assert(vals.take(i as int) =~= vals);
        }
        Ok(())
    } else if is_valid_tag(tag) {
        let val = slice_to_vec(current);
        proof {
            assert(vecs_view(items@.push(val)) =~= vecs_view(old(items)@) + seq![current@]);
        }
        items.push(val);
        Ok(())
    } else {
        Err(Error::InvalidJsonb)
    }
}

/// The position in `length` elements that an index of a path stands for:
/// itself where it is neither negative nor too great.
pub fn convert_index(index: i32, length: usize) -> (r: Option<usize>)
    ensures
        match r {
            Some(i) => 0 <= index && i == index && i < length,
            None => !(0 <= index < length),
        },
{
    if index >= 0 && (index as u64) < (length as u64) {
        Some(index as usize)
    } else {
        None
    }
}

/// A bound of a slice of `length` elements.
pub fn convert_slice(bound: i32, length: usize) -> (r: usize)
    ensures
        r == slice_bound(length as int, bound as int),
        r <= length,
{
    if bound < 0 {
        let back: u64 = (-(bound as i64)) as u64;
        if back >= length as u64 {
            0
        } else {
            length - (back as usize)
        }
    } else if bound as u64 > length as u64 {
        length
    } else {
        bound as usize
    }
}

/// The elements of `elems` at the indexes `indexes`.
pub fn select_by_indices(elems: &Vec<Item>, indexes: &Vec<i32>) -> (r: Vec<Vec<u8>>)
    ensures
        vecs_view(r@) == pick_indexes(items_view(elems@), indexes@, 0, Seq::empty()),
{
    let ghost raw = items_view(elems@);
    let mut out: Vec<Vec<u8>> = Vec::new();
    let mut i: usize = 0;
    proof {
        assert(vecs_view(out@) =~= Seq::<Seq<u8>>::empty());
    }
    while i < indexes.len()
        invariant
            i <= indexes@.len(),
            raw == items_view(elems@),
            pick_indexes(raw, indexes@, i as nat, vecs_view(out@)) == pick_indexes(
                raw,
                indexes@,
                0,
                Seq::empty(),
            ),
        decreases indexes@.len() - i,
    {
        match convert_index(indexes[i], elems.len()) {
            Some(k) => {
                assert(raw[k as int] == elems@[k as int]@);
                let val = extract_by_jentry(&elems[k]);
                proof {
                    assert(vecs_view(out@.push(val)) =~= vecs_view(out@).push(val@));
                }
                out.push(val);
            },
            None => {},
        }
        i = i + 1;
    }
    out
}

/// The elements of `elems` that a slice takes.
pub fn select_by_slice(elems: &Vec<Item>, start: Option<i32>, end: Option<i32>, step: Option<u32>) -> (r:
    Vec<Vec<u8>>)
    ensures
        vecs_view(r@) == select_slice(items_view(elems@), start, end, step),
{
    let ghost raw = items_view(elems@);
    let len = elems.len();
    let from = match start {
        Some(s) => convert_slice(s, len),
        None => 0,
    };
    let to = match end {
        Some(e) => convert_slice(e, len),
        None => len,
    };
    let by: usize = match step {
        Some(s) => s as usize,
        None => 1,
    };
    let mut out: Vec<Vec<u8>> = Vec::new();
    proof {
        assert(vecs_view(out@) =~= Seq::<Seq<u8>>::empty());
    }
    if by == 0 {
        return out;
    }
    let mut pos: usize = from;
    while pos < to
        invariant
            to <= elems@.len(),
            by > 0,
            raw == items_view(elems@),
            pick_slice(raw, from as int, to as int, by as int, Seq::empty()) == select_slice(
                raw,
                start,
                end,
                step,
            ),
            pick_slice(raw, pos as int, to as int, by as int, vecs_view(out@)) == pick_slice(
                raw,
                from as int,
                to as int,
                by as int,
                Seq::empty(),
            ),
        decreases to - pos,
    {
        assert(raw[pos as int] == elems@[pos as int]@);
        let val = extract_by_jentry(&elems[pos]);
        proof {
            assert(vecs_view(out@.push(val)) =~= vecs_view(out@).push(val@));
        }
        out.push(val);
        if by >= to - pos {
            proof {
                assert(pick_slice(raw, pos + by, to as int, by as int, vecs_view(out@)) == vecs_view(
                    out@,
                ));
            }
            return out;
        }
        pos = pos + by;
    }
    out
}

/// The values of the members of `entries` that have one of the names.
pub fn select_by_names(entries: &Vec<Entry>, names: &Vec<Vec<u8>>) -> (r: Vec<Vec<u8>>)
    ensures
        vecs_view(r@) == pick_names(
            entries_view(entries@),
            crate::jsonpath::path::names_view(names@),
            0,
            Seq::empty(),
        ),
{
    let ghost es = entries_view(entries@);
    let ghost ns = crate::jsonpath::path::names_view(names@);
    let mut out: Vec<Vec<u8>> = Vec::new();
    let mut i: usize = 0;
    proof {
        assert(vecs_view(out@) =~= Seq::<Seq<u8>>::empty());
    }
    while i < names.len()
        invariant
            i <= names@.len(),
            es == entries_view(entries@),
            ns == crate::jsonpath::path::names_view(names@),
            pick_names(es, ns, i as nat, vecs_view(out@)) == pick_names(es, ns, 0, Seq::empty()),
        decreases names@.len() - i,
    {
        assert(ns[i as int] == names@[i as int]@);
        let key = names[i].as_slice();
        assert(key@ == ns[i as int]);
        let found = find_entry(entries, key);
        match found {
            Some(k) => {
                assert(es[k as int] == entries@[k as int]@);
                let val = member_value(&entries[k]);
                proof {
                    assert(vecs_view(out@.push(val)) =~= vecs_view(out@).push(val@));
                }
                out.push(val);
            },
            None => {},
        }
        i = i + 1;
    }
    out
}

/// What a walk downwards from a value leaves in its output where it
/// succeeds, and the failure that it reports.
pub open spec fn walked(
    before: Seq<Seq<u8>>,
    after: Seq<Seq<u8>>,
    r: Result<(), Error>,
    expected: Result<Seq<Seq<u8>>, Error>,
) -> bool {
    match expected {
        Ok(vals) => r is Ok && after == vals,
        Err(e) => r == Err::<(), Error>(e),
    }
}

/// Adds what lies below `value` to `out`.
pub fn select_descent(value: &[u8], name: Option<&[u8]>, out: &mut Vec<Vec<u8>>) -> (r: Result<
    (),
    Error,
>)
    ensures
        walked(
            vecs_view(old(out)@),
            vecs_view(final(out)@),
            r,
            descend(
                value@,
                match name {
                    Some(n) => Some(n@),
                    None => None,
                },
                vecs_view(old(out)@),
            ),
        ),
    decreases value@.len(),
{
    let ghost nm: Option<Seq<u8>> = match name {
        Some(n) => Some(n@),
        None => None,
    };
    let header = read_u32(value, 0)?;
    let (tag, _) = decode_header(header);
    if tag == OBJECT_CONTAINER_TAG {
        let entries = iterate_object_entries(value, header)?;
        let ghost es = entries_view(entries@);
        let ghost bound = value@.len();
        let mut i: usize = 0;
        while i < entries.len()
            invariant
                i <= entries@.len(),
                es == entries_view(entries@),
                entries_shorter(es, bound),
                bound == value@.len(),
                nm == (match name {
                    Some(n) => Some(n@),
                    None => None,
                }),
                descend_members(es, i as nat, nm, vecs_view(out@), bound) == descend(
                    value@,
                    nm,
                    vecs_view(old(out)@),
                ),
            decreases entries@.len() - i,
        {
            let e = &entries[i];
            assert(es[i as int] == e@);
            assert(es[i as int].data.len() < bound);
            let matches = match name {
                Some(n) => bytes_eq(e.key, n),
                None => true,
            };
            if matches {
                let val = member_value(e);
                proof {
                    assert(vecs_view(out@.push(val)) =~= vecs_view(out@).push(val@));
                }
                out.push(val);
            }
            if e.jentry.type_code == CONTAINER_TAG {
                select_descent(e.data, name, out)?;
            }
            i = i + 1;
        }
        Ok(())
    } else if tag == ARRAY_CONTAINER_TAG {
        let elems = iterate_array(value, header)?;
        let ghost raw = items_view(elems@);
        let ghost bound = value@.len();
        let mut i: usize = 0;
        while i < elems.len()
            invariant
                i <= elems@.len(),
                raw == items_view(elems@),
                items_shorter(raw, bound),
                bound == value@.len(),
                nm == (match name {
                    Some(n) => Some(n@),
                    None => None,
                }),
                descend_elements(raw, i as nat, nm, vecs_view(out@), bound) == descend(
                    value@,
                    nm,
                    vecs_view(old(out)@),
                ),
            decreases elems@.len() - i,
        {
            let x = &elems[i];
            assert(raw[i as int] == x@);
            assert(raw[i as int].data.len() < bound);
            if name.is_none() {
                let val = extract_by_jentry(x);
                proof {
                    assert(vecs_view(out@.push(val)) =~= vecs_view(out@).push(val@));
                }
                out.push(val);
            }
            if x.jentry.type_code == CONTAINER_TAG {
                select_descent(x.data, name, out)?;
            }
            i = i + 1;
        }
        Ok(())
    } else if tag == SCALAR_CONTAINER_TAG {
        Ok(())
    } else {
        Err(Error::InvalidJsonb)
    }
}

/// The values that one step takes from the value `v`. A step to the root
/// or to the current value and a filter take no values by themselves.
pub open spec fn apply_step(v: Seq<u8>, step: Step) -> Result<Seq<Seq<u8>>, Error> {
    match step {
        Step::ColonField(n) => select_name(v, n),
        Step::DotField(n) => select_name(v, n),
        Step::ObjectField(n) => select_name(v, n),
        Step::ObjectFields(ns) => match object_members_or_none(v) {
            Err(e) => Err(e),
            Ok(es) => Ok(pick_names(es, ns, 0, Seq::empty())),
        },
        Step::ArrayIndex(i) => match array_elements(v) {
            Err(e) => Err(e),
            Ok(items) => Ok(pick_indexes(items, seq![i], 0, Seq::empty())),
        },
        Step::ArrayIndices(is) => match array_elements(v) {
            Err(e) => Err(e),
            Ok(items) => Ok(pick_indexes(items, is, 0, Seq::empty())),
        },
        Step::ArraySlice { start, end, step } => match array_elements(v) {
            Err(e) => Err(e),
            Ok(items) => Ok(select_slice(items, start, end, step)),
        },
        Step::DotWildcard => select_members(v),
        Step::BracketWildcard => select_elements(v),
        Step::DescentField(n) => descend(v, Some(n), Seq::empty()),
        Step::DescentWildcard => descend(v, None, Seq::empty()),
        Step::Root => Err(Error::InvalidJsonPath),
        Step::Current => Err(Error::InvalidJsonPath),
        Step::FilterExpr(_) => Err(Error::InvalidJsonPath),
    }
}

/// The values `acc` with the values that one step takes from each of the
/// values from position `i` on.
pub open spec fn apply_step_all(values: Seq<Seq<u8>>, i: nat, acc: Seq<Seq<u8>>, step: Step) -> Result<
    Seq<Seq<u8>>,
    Error,
>
    decreases values.len() - i,
{
    if i >= values.len() {
        Ok(acc)
    } else {
        match apply_step(values[i as int], step) {
            Err(e) => Err(e),
            Ok(vals) => apply_step_all(values, i + 1, acc + vals, step),
        }
    }
}

/// The values that one step takes from the value `current`.
pub fn select_path(current: &[u8], path: &Path) -> (r: Result<Vec<Vec<u8>>, Error>)
    ensures
        selected(r, apply_step(current@, path.term())),
{
    let mut out: Vec<Vec<u8>> = Vec::new();
    proof {
        assert(vecs_view(out@) =~= Seq::<Seq<u8>>::empty());
    }
    match path {
        Path::ColonField(name) => {
            select_by_name(current, name.as_slice(), &mut out)?;
            proof {
                let vals = select_name(current@, name@)->Ok_0;
                assert(vecs_view(out@) =~= vals);
            }
            Ok(out)
        },
        Path::DotField(name) => {
            select_by_name(current, name.as_slice(), &mut out)?;
            proof {
                let vals = select_name(current@, name@)->Ok_0;
                assert(vecs_view(out@) =~= vals);
            }
            Ok(out)
        },
        Path::ObjectField(name) => {
            select_by_name(current, name.as_slice(), &mut out)?;
            proof {
                let vals = select_name(current@, name@)->Ok_0;
                assert(vecs_view(out@) =~= vals);
            }
            Ok(out)
        },
        Path::ObjectFields(names) => {
            let entries = members_or_none(current)?;
            Ok(select_by_names(&entries, names))
        },
        Path::ArrayIndex(i) => {
            let elems = elements_or_none(current)?;
            let mut one: Vec<i32> = Vec::new();
            one.push(*i);
            proof {
                assert(one@ =~= seq![*i]);
            }
            Ok(select_by_indices(&elems, &one))
        },
        Path::ArrayIndices(indexes) => {
            let elems = elements_or_none(current)?;
            Ok(select_by_indices(&elems, indexes))
        },
        Path::ArraySlice { start, end, step } => {
            let elems = elements_or_none(current)?;
            Ok(select_by_slice(&elems, *start, *end, *step))
        },
        Path::DotWildcard => {
            select_all_object_values(current, &mut out)?;
            proof {
                assert(vecs_view(out@) =~= select_members(current@)->Ok_0);
            }
            Ok(out)
        },
        Path::BracketWildcard => {
            select_all_values(current, &mut out)?;
            proof {
                assert(vecs_view(out@) =~= select_elements(current@)->Ok_0);
            }
            Ok(out)
        },
        Path::DescentField(name) => {
            select_descent(current, Some(name.as_slice()), &mut out)?;
            Ok(out)
        },
        Path::DescentWildcard => {
            select_descent(current, None, &mut out)?;
            Ok(out)
        },
        Path::Root => Err(Error::InvalidJsonPath),
        Path::Current => Err(Error::InvalidJsonPath),
        Path::FilterExpr(_) => Err(Error::InvalidJsonPath),
    }
}

/// The values that one step takes from each of the values `items`.
pub fn select_path_all(items: &Vec<Vec<u8>>, path: &Path) -> (r: Result<Vec<Vec<u8>>, Error>)
    ensures
        selected(r, apply_step_all(vecs_view(items@), 0, Seq::empty(), path.term())),
{
    let ghost values = vecs_view(items@);
    let mut out: Vec<Vec<u8>> = Vec::new();
    proof {
        assert(vecs_view(out@) =~= Seq::<Seq<u8>>::empty());
    }
    let mut i: usize = 0;
    while i < items.len()
        invariant
            i <= items@.len(),
            values == vecs_view(items@),
            apply_step_all(values, i as nat, vecs_view(out@), path.term()) == apply_step_all(
                values,
                0,
                Seq::empty(),
                path.term(),
            ),
        decreases items@.len() - i,
    {
        assert(values[i as int] == items@[i as int]@);
        let mut vals = select_path(items[i].as_slice(), path)?;
        proof {
            assert(vecs_view(out@ + vals@) =~= vecs_view(out@) + vecs_view(vals@));
        }
        out.append(&mut vals);
        i = i + 1;
    }
    Ok(out)
}

/// A literal as an element.
pub open spec fn literal_item(v: ValueTerm) -> RawItem {
    match v {
        ValueTerm::Null => bare_element(NULL_TAG),
        ValueTerm::Boolean(b) => bare_element(
            if b {
                TRUE_TAG
            } else {
                FALSE_TAG
            },
        ),
        ValueTerm::UInt64(n) => number_element(Number::UInt64(n)),
        ValueTerm::Int64(n) => number_element(Number::Int64(n)),
        ValueTerm::Float64(bits) => number_element(Number::Float64(bits)),
        ValueTerm::String(s) => RawItem {
            jentry: JEntry { type_code: STRING_TAG, length: s.len() as u32 },
            data: s,
        },
    }
}

/// The elements `acc` with the scalars among the values from position `i`
/// on.
pub open spec fn scalars_from(values: Seq<Seq<u8>>, i: nat, acc: Seq<RawItem>) -> Result<
    Seq<RawItem>,
    Error,
>
    decreases values.len() - i,
{
    if i >= values.len() {
        Ok(acc)
    } else {
        match scalar_of(values[i as int]) {
            Err(e) => Err(e),
            Ok(Some(item)) => scalars_from(values, i + 1, acc.push(item)),
            Ok(None) => scalars_from(values, i + 1, acc),
        }
    }
}

/// The values that the steps from position `k` on take from `values`,
/// inside a filter, where no step is one to the root or to the current
/// value and none is a filter.
pub open spec fn inner_steps_from(values: Seq<Seq<u8>>, steps: Seq<Step>, k: nat) -> Result<
    Seq<Seq<u8>>,
    Error,
>
    decreases steps.len() - k,
{
    if k >= steps.len() {
        Ok(values)
    } else {
        match apply_step_all(values, 0, Seq::empty(), steps[k as int]) {
            Err(e) => Err(e),
            Ok(next) => inner_steps_from(next, steps, k + 1),
        }
    }
}

/// The values that a path inside a filter takes: its first step is the one
/// to the root or the one to the current value.
pub open spec fn path_values(steps: Seq<Step>, root: Seq<u8>, cur: Seq<u8>) -> Result<
    Seq<Seq<u8>>,
    Error,
> {
    if steps.len() > 0 && steps[0] is Root {
        inner_steps_from(seq![root], steps, 1)
    } else if steps.len() > 0 && steps[0] is Current {
        inner_steps_from(seq![cur], steps, 1)
    } else {
        Err(Error::InvalidJsonPath)
    }
}

/// The scalars that an operand of a comparison stands for: a literal for
/// itself, a path for the scalars among the values that it takes.
pub open spec fn operand_set(t: Term, root: Seq<u8>, cur: Seq<u8>) -> Result<Seq<RawItem>, Error> {
    match t {
        Term::Value(v) => Ok(seq![literal_item(v)]),
        Term::Paths(steps) => match path_values(steps, root, cur) {
            Err(e) => Err(e),
            Ok(values) => scalars_from(values, 0, Seq::empty()),
        },
        Term::BinaryOp { .. } => Err(Error::InvalidJsonPath),
    }
}

/// Whether an order is what a comparison asks for.
pub open spec fn order_meets(op: BinaryOperator, o: Order) -> bool {
    match op {
        BinaryOperator::Eq => o == Order::Equal,
        BinaryOperator::NotEq => o != Order::Equal,
        BinaryOperator::Lt => o == Order::Less,
        BinaryOperator::Lte => o != Order::Greater,
        BinaryOperator::Gt => o == Order::Greater,
        BinaryOperator::Gte => o != Order::Less,
        _ => false,
    }
}

/// Whether a comparison holds of two scalars, in the order of values.
pub open spec fn pair_holds(op: BinaryOperator, a: RawItem, b: RawItem) -> Result<bool, Error> {
    match item_order(a, b, a.data.len() + 1) {
        Err(e) => Err(e),
        Ok(o) => Ok(order_meets(op, o)),
    }
}

/// Whether a comparison holds of a pair of one scalar of `l` and one of
/// `r`, among the pairs from the scalar `i` of `l` and the scalar `j` of `r`
/// on.
pub open spec fn any_pair_from(op: BinaryOperator, l: Seq<RawItem>, r: Seq<RawItem>, i: nat, j: nat) -> Result<
    bool,
    Error,
>
    decreases l.len() - i, r.len() - j,
{
    if i >= l.len() {
        Ok(false)
    } else if j >= r.len() {
        any_pair_from(op, l, r, i + 1, 0)
    } else {
        match pair_holds(op, l[i as int], r[j as int]) {
            Err(e) => Err(e),
            Ok(found) => if found {
                Ok(true)
            } else {
                any_pair_from(op, l, r, i, j + 1)
            },
        }
    }
}

/// Whether every scalar of `l` from position `i` on is equal to one of `r`.
pub open spec fn all_members_from(l: Seq<RawItem>, r: Seq<RawItem>, i: nat) -> Result<bool, Error>
    decreases l.len() - i,
{
    if i >= l.len() {
        Ok(true)
    } else {
        match any_pair_from(BinaryOperator::Eq, seq![l[i as int]], r, 0, 0) {
            Err(e) => Err(e),
            Ok(found) => if found {
                all_members_from(l, r, i + 1)
            } else {
                Ok(false)
            },
        }
    }
}

/// Whether an operator holds of two sets of scalars.
///
/// A comparison holds where it holds of one pair. `in` holds where the left
/// set is not empty and each of its scalars is in the right set, `nin`
/// where `in` does not; `subsetof` where each scalar of the left set is in
/// the right set; `anyof` where one is, `noneof` where none is. `size`
/// holds where the right set is one unsigned integer, the number of scalars
/// of the left set; `empty` where the right set is one boolean that says
/// whether the left set is empty. A match against a pattern gives
/// `InvalidJsonPath`.
pub open spec fn set_holds(op: BinaryOperator, l: Seq<RawItem>, r: Seq<RawItem>) -> Result<bool, Error> {
    match op {
        BinaryOperator::Eq | BinaryOperator::NotEq | BinaryOperator::Lt | BinaryOperator::Lte
        | BinaryOperator::Gt | BinaryOperator::Gte => any_pair_from(op, l, r, 0, 0),
        BinaryOperator::In => match all_members_from(l, r, 0) {
            Err(e) => Err(e),
            Ok(all) => Ok(l.len() > 0 && all),
        },
        BinaryOperator::Nin => match all_members_from(l, r, 0) {
            Err(e) => Err(e),
            Ok(all) => Ok(!(l.len() > 0 && all)),
        },
        BinaryOperator::Subsetof => all_members_from(l, r, 0),
        BinaryOperator::Anyof => any_pair_from(BinaryOperator::Eq, l, r, 0, 0),
        BinaryOperator::Noneof => match any_pair_from(BinaryOperator::Eq, l, r, 0, 0) {
            Err(e) => Err(e),
            Ok(any) => Ok(!any),
        },
        BinaryOperator::Size => if r.len() == 1 && r[0].jentry.type_code == NUMBER_TAG {
            match decode_number(r[0].data) {
                Err(e) => Err(e),
                Ok(n) => Ok(n.as_u64_spec() is Some && n.as_u64_spec()->Some_0 == l.len()),
            }
        } else {
            Ok(false)
        },
        BinaryOperator::Empty => if r.len() == 1 && r[0].jentry.type_code == TRUE_TAG {
            Ok(l.len() == 0)
        } else if r.len() == 1 && r[0].jentry.type_code == FALSE_TAG {
            Ok(l.len() != 0)
        } else {
            Ok(false)
        },
        _ => Err(Error::InvalidJsonPath),
    }
}

/// Whether a filter expression holds of the value `cur` in the value `root`.
///
/// `||` holds where its left side holds, or else its right side; `&&` where
/// its left side and then its right side hold. Another operator holds of
/// the scalars of its two operands. A path alone holds where it takes a
/// value, and a literal alone where it is `true`.
pub open spec fn holds(t: Term, root: Seq<u8>, cur: Seq<u8>) -> Result<bool, Error>
    decreases t,
{
    match t {
        Term::BinaryOp { op, left, right } => if op == BinaryOperator::Or {
            match holds(*left, root, cur) {
                Err(e) => Err(e),
                Ok(l) => if l {
                    Ok(true)
                } else {
                    holds(*right, root, cur)
                },
            }
        } else if op == BinaryOperator::And {
            match holds(*left, root, cur) {
                Err(e) => Err(e),
                Ok(l) => if l {
                    holds(*right, root, cur)
                } else {
                    Ok(false)
                },
            }
        } else {
            match operand_set(*left, root, cur) {
                Err(e) => Err(e),
                Ok(l) => match operand_set(*right, root, cur) {
                    Err(e) => Err(e),
                    Ok(r) => set_holds(op, l, r),
                },
            }
        },
        Term::Paths(steps) => match path_values(steps, root, cur) {
            Err(e) => Err(e),
            Ok(values) => Ok(values.len() > 0),
        },
        Term::Value(v) => Ok(v == ValueTerm::Boolean(true)),
    }
}

/// A literal as an element.
pub fn literal_to_item(v: &PathValue) -> (r: OwnedItem)
    ensures
        r@ == literal_item(v@),
{
    match v {
        PathValue::Null => {
            let r = OwnedItem { jentry: JEntry::make_null_jentry(), data: Vec::new() };
            assert(r@.data =~= Seq::<u8>::empty());
            r
        },
        PathValue::Boolean(b) => {
            let jentry = if *b {
                JEntry::make_true_jentry()
            } else {
                JEntry::make_false_jentry()
            };
            let r = OwnedItem { jentry, data: Vec::new() };
            assert(r@.data =~= Seq::<u8>::empty());
            r
        },
        PathValue::UInt64(n) => {
            let data = Number::UInt64(*n).encode();
            OwnedItem { jentry: JEntry::make_number_jentry(data.len()), data }
        },
        PathValue::Int64(n) => {
            let data = Number::Int64(*n).encode();
            OwnedItem { jentry: JEntry::make_number_jentry(data.len()), data }
        },
        PathValue::Float64(bits) => {
            let data = Number::Float64(*bits).encode();
            OwnedItem { jentry: JEntry::make_number_jentry(data.len()), data }
        },
        PathValue::String(s) => {
            let data = slice_to_vec(s.as_slice());
            OwnedItem {
                jentry: JEntry {
                    type_code: STRING_TAG,
                    length: #[verifier::truncate]
                    (data.len() as u32),
                },
                data,
            }
        },
    }
}

/// The scalars among the values `items`.
pub fn scalars_of_values(items: &Vec<Vec<u8>>) -> (r: Result<Vec<OwnedItem>, Error>)
    ensures
        match scalars_from(vecs_view(items@), 0, Seq::empty()) {
            Ok(s) => r is Ok && owned_view(r->Ok_0@) == s,
            Err(e) => r == Err::<Vec<OwnedItem>, Error>(e),
        },
{
    let ghost values = vecs_view(items@);
    let mut out: Vec<OwnedItem> = Vec::new();
    proof {
        assert(owned_view(out@) =~= Seq::<RawItem>::empty());
    }
    let mut i: usize = 0;
    while i < items.len()
        invariant
            i <= items@.len(),
            values == vecs_view(items@),
            scalars_from(values, i as nat, owned_view(out@)) == scalars_from(values, 0, Seq::empty()),
        decreases items@.len() - i,
    {
        assert(values[i as int] == items@[i as int]@);
        match scalar_value(items[i].as_slice())? {
            Some(item) => {
                let owned = OwnedItem { jentry: item.jentry, data: slice_to_vec(item.data) };
                proof {
                    assert(owned_view(out@.push(owned)) =~= owned_view(out@).push(owned@));
                }
                out.push(owned);
            },
            None => {},
        }
        i = i + 1;
    }
    Ok(out)
}

/// The values that the steps from position `from` on take inside a filter.
pub fn select_inner(start: Vec<Vec<u8>>, paths: &Vec<Path>, from: usize) -> (r: Result<
    Vec<Vec<u8>>,
    Error,
>)
    requires
        from <= paths@.len(),
    ensures
        selected(r, inner_steps_from(vecs_view(start@), steps_view(paths@), from as nat)),
{
    let mut items = start;
    let mut k: usize = from;
    proof {
        crate::jsonpath::path::lemma_steps_len(paths@, paths@.len());
    }
    while k < paths.len()
        invariant
            from <= k <= paths@.len(),
            steps_view(paths@).len() == paths@.len(),
            inner_steps_from(vecs_view(items@), steps_view(paths@), k as nat) == inner_steps_from(
                vecs_view(start@),
                steps_view(paths@),
                from as nat,
            ),
        decreases paths@.len() - k,
    {
        proof {
            lemma_steps_index(paths@, k as int);
        }
        items = select_path_all(&items, &paths[k])?;
        k = k + 1;
    }
    Ok(items)
}

/// The values that a path inside a filter takes.
pub fn filter_path_values(paths: &Vec<Path>, root: &[u8], current: &[u8]) -> (r: Result<
    Vec<Vec<u8>>,
    Error,
>)
    ensures
        selected(r, path_values(steps_view(paths@), root@, current@)),
{
    if paths.len() == 0 {
        proof {
            crate::jsonpath::path::lemma_steps_len(paths@, paths@.len());
        }
        return Err(Error::InvalidJsonPath);
    }
    proof {
        lemma_steps_index(paths@, 0);
    }
    let mut start: Vec<Vec<u8>> = Vec::new();
    match &paths[0] {
        Path::Root => {
            start.push(slice_to_vec(root));
            proof {
                assert(vecs_view(start@) =~= seq![root@]);
            }
        },
        Path::Current => {
            start.push(slice_to_vec(current));
            proof {
                assert(vecs_view(start@) =~= seq![current@]);
            }
        },
        _ => {
            return Err(Error::InvalidJsonPath);
        },
    }
    select_inner(start, paths, 1)
}

/// The scalars that an operand of a comparison stands for.
pub fn filter_expr_val(root: &[u8], current: &[u8], expr: &Expr) -> (r: Result<Vec<OwnedItem>, Error>)
    ensures
        match operand_set(expr.term(), root@, current@) {
            Ok(s) => r is Ok && owned_view(r->Ok_0@) == s,
            Err(e) => r == Err::<Vec<OwnedItem>, Error>(e),
        },
{
    match expr {
        Expr::Value(v) => {
            let mut out: Vec<OwnedItem> = Vec::new();
            let item = literal_to_item(v);
            out.push(item);
            proof {
                assert(owned_view(out@) =~= seq![literal_item(v@)]);
            }
            Ok(out)
        },
        Expr::Paths(paths) => {
            let values = filter_path_values(paths, root, current)?;
            scalars_of_values(&values)
        },
        Expr::BinaryOp { .. } => Err(Error::InvalidJsonPath),
    }
}

/// Whether an order is what a comparison asks for.
pub fn order_matches(op: BinaryOperator, o: Order) -> (r: bool)
    ensures
        r == order_meets(op, o),
{
    match op {
        BinaryOperator::Eq => match o {
            Order::Equal => true,
            _ => false,
        },
        BinaryOperator::NotEq => match o {
            Order::Equal => false,
            _ => true,
        },
        BinaryOperator::Lt => match o {
            Order::Less => true,
            _ => false,
        },
        BinaryOperator::Lte => match o {
            Order::Greater => false,
            _ => true,
        },
        BinaryOperator::Gt => match o {
            Order::Greater => true,
            _ => false,
        },
        BinaryOperator::Gte => match o {
            Order::Less => false,
            _ => true,
        },
        _ => false,
    }
}

/// Whether a comparison holds of two scalars.
pub fn compare_value(op: BinaryOperator, lhs: &OwnedItem, rhs: &OwnedItem) -> (r: Result<bool, Error>)
    ensures
        r == pair_holds(op, lhs@, rhs@),
{
    let a = Item { jentry: lhs.jentry, data: lhs.data.as_slice() };
    let b = Item { jentry: rhs.jentry, data: rhs.data.as_slice() };
    let o = compare_scalar(&a, &b, Ghost((lhs@.data.len() + 1) as nat))?;
    Ok(order_matches(op, o))
}

/// Whether a comparison holds of a pair of one scalar of each set.
pub fn any_pair(op: BinaryOperator, lhs: &Vec<OwnedItem>, from: usize, upto: usize, rhs: &Vec<
    OwnedItem,
>) -> (r: Result<bool, Error>)
    requires
        from <= upto <= lhs@.len(),
    ensures
        r == any_pair_from(op, owned_view(lhs@).subrange(from as int, upto as int), owned_view(rhs@), 0, 0),
{
    let ghost l = owned_view(lhs@).subrange(from as int, upto as int);
    let ghost rr = owned_view(rhs@);
    let mut i: usize = from;
    while i < upto
        invariant
            from <= i <= upto <= lhs@.len(),
            l == owned_view(lhs@).subrange(from as int, upto as int),
            rr == owned_view(rhs@),
            any_pair_from(op, l, rr, (i - from) as nat, 0) == any_pair_from(op, l, rr, 0, 0),
        decreases upto - i,
    {
        let mut j: usize = 0;
        while j < rhs.len()
            invariant
                from <= i < upto <= lhs@.len(),
                j <= rhs@.len(),
                l == owned_view(lhs@).subrange(from as int, upto as int),
                rr == owned_view(rhs@),
                any_pair_from(op, l, rr, (i - from) as nat, j as nat) == any_pair_from(op, l, rr, 0, 0),
            decreases rhs@.len() - j,
        {
            assert(l[i - from] == lhs@[i as int]@);
            assert(rr[j as int] == rhs@[j as int]@);
            if compare_value(op, &lhs[i], &rhs[j])? {
                return Ok(true);
            }
            j = j + 1;
        }
        i = i + 1;
    }
    Ok(false)
}

/// Whether every scalar of the left set is equal to one of the right set.
pub fn all_members(lhs: &Vec<OwnedItem>, rhs: &Vec<OwnedItem>) -> (r: Result<bool, Error>)
    ensures
        r == all_members_from(owned_view(lhs@), owned_view(rhs@), 0),
{
    let ghost l = owned_view(lhs@);
    let ghost rr = owned_view(rhs@);
    let mut i: usize = 0;
    while i < lhs.len()
        invariant
            i <= lhs@.len(),
            l == owned_view(lhs@),
            rr == owned_view(rhs@),
            all_members_from(l, rr, i as nat) == all_members_from(l, rr, 0),
        decreases lhs@.len() - i,
    {
        proof {
            assert(l.subrange(i as int, i + 1) =~= seq![l[i as int]]);
        }
        if !any_pair(BinaryOperator::Eq, lhs, i, i + 1, rhs)? {
            return Ok(false);
        }
        i = i + 1;
    }
    Ok(true)
}

/// Whether an operator holds of two sets of scalars.
pub fn holds_of_sets(op: BinaryOperator, lhs: &Vec<OwnedItem>, rhs: &Vec<OwnedItem>) -> (r: Result<
    bool,
    Error,
>)
    ensures
        r == set_holds(op, owned_view(lhs@), owned_view(rhs@)),
{
    proof {
        assert(owned_view(lhs@).subrange(0, lhs@.len() as int) =~= owned_view(lhs@));
    }
    match op {
        BinaryOperator::Eq | BinaryOperator::NotEq | BinaryOperator::Lt | BinaryOperator::Lte
        | BinaryOperator::Gt | BinaryOperator::Gte => any_pair(op, lhs, 0, lhs.len(), rhs),
        BinaryOperator::In => {
            let all = all_members(lhs, rhs)?;
            Ok(lhs.len() > 0 && all)
        },
        BinaryOperator::Nin => {
            let all = all_members(lhs, rhs)?;
            Ok(!(lhs.len() > 0 && all))
        },
        BinaryOperator::Subsetof => all_members(lhs, rhs),
        BinaryOperator::Anyof => any_pair(BinaryOperator::Eq, lhs, 0, lhs.len(), rhs),
        BinaryOperator::Noneof => {
            let any = any_pair(BinaryOperator::Eq, lhs, 0, lhs.len(), rhs)?;
            Ok(!any)
        },
        BinaryOperator::Size => {
            if rhs.len() == 1 && rhs[0].jentry.type_code == NUMBER_TAG {
                assert(owned_view(rhs@)[0] == rhs@[0]@);
                let n = Number::decode(rhs[0].data.as_slice())?;
                match n.as_u64() {
                    Some(m) => Ok(m == lhs.len() as u64),
                    None => Ok(false),
                }
            } else {
                proof {
                    if rhs@.len() == 1 {
                        assert(owned_view(rhs@)[0] == rhs@[0]@);
                    }
                }
                Ok(false)
            }
        },
        BinaryOperator::Empty => {
            proof {
                if rhs@.len() == 1 {
                    assert(owned_view(rhs@)[0] == rhs@[0]@);
                }
            }
            if rhs.len() == 1 && rhs[0].jentry.type_code == TRUE_TAG {
                Ok(lhs.len() == 0)
            } else if rhs.len() == 1 && rhs[0].jentry.type_code == FALSE_TAG {
                Ok(lhs.len() != 0)
            } else {
                Ok(false)
            }
        },
        _ => Err(Error::InvalidJsonPath),
    }
}

/// Whether a filter expression holds of the value `current` in the value
/// `root`.
pub fn filter_expr(root: &[u8], current: &[u8], expr: &Expr) -> (r: Result<bool, Error>)
    ensures
        r == holds(expr.term(), root@, current@),
    decreases *expr,
{
    match expr {
        Expr::BinaryOp { op, left, right } => {
            match op {
                BinaryOperator::Or => {
                    if filter_expr(root, current, left)? {
                        Ok(true)
                    } else {
                        filter_expr(root, current, right)
                    }
                },
                BinaryOperator::And => {
                    if filter_expr(root, current, left)? {
                        filter_expr(root, current, right)
                    } else {
                        Ok(false)
                    }
                },
                _ => {
                    let lhs = filter_expr_val(root, current, left)?;
                    let rhs = filter_expr_val(root, current, right)?;
                    holds_of_sets(*op, &lhs, &rhs)
                },
            }
        },
        Expr::Paths(paths) => {
            let values = filter_path_values(paths, root, current)?;
            Ok(values.len() > 0)
        },
        Expr::Value(v) => Ok(
            match v {
                PathValue::Boolean(b) => *b,
                _ => false,
            },
        ),
    }
}

/// The values `acc` with those of the values from position `j` on of
/// which a filter expression holds.
pub open spec fn keep_from(cands: Seq<Seq<u8>>, j: nat, acc: Seq<Seq<u8>>, t: Term, root: Seq<u8>) -> Result<
    Seq<Seq<u8>>,
    Error,
>
    decreases cands.len() - j,
{
    if j >= cands.len() {
        Ok(acc)
    } else {
        match holds(t, root, cands[j as int]) {
            Err(e) => Err(e),
            Ok(keep) => keep_from(
                cands,
                j + 1,
                if keep {
                    acc.push(cands[j as int])
                } else {
                    acc
                },
                t,
                root,
            ),
        }
    }
}

/// The values `acc` with what a filter keeps of the values from position
/// `i` on: of an array those of its elements of which the expression
/// holds, and another value itself where the expression holds of it.
pub open spec fn filter_values_from(
    values: Seq<Seq<u8>>,
    i: nat,
    acc: Seq<Seq<u8>>,
    t: Term,
    root: Seq<u8>,
) -> Result<Seq<Seq<u8>>, Error>
    decreases values.len() - i,
{
    if i >= values.len() {
        Ok(acc)
    } else {
        match select_elements(values[i as int]) {
            Err(e) => Err(e),
            Ok(cands) => match keep_from(cands, 0, acc, t, root) {
                Err(e) => Err(e),
                Ok(next) => filter_values_from(values, i + 1, next, t, root),
            },
        }
    }
}

/// The values that the steps from position `k` on take from `values`: the
/// step to the root starts again from the root, the step to the current
/// value changes nothing, and a filter keeps what its expression holds of.
pub open spec fn select_from(values: Seq<Seq<u8>>, steps: Seq<Step>, k: nat, root: Seq<u8>) -> Result<
    Seq<Seq<u8>>,
    Error,
>
    decreases steps.len() - k,
{
    if k >= steps.len() {
        Ok(values)
    } else {
        match steps[k as int] {
            Step::Root => select_from(seq![root], steps, k + 1, root),
            Step::Current => select_from(values, steps, k + 1, root),
            Step::FilterExpr(t) => match filter_values_from(values, 0, Seq::empty(), *t, root) {
                Err(e) => Err(e),
                Ok(next) => select_from(next, steps, k + 1, root),
            },
            _ => match apply_step_all(values, 0, Seq::empty(), steps[k as int]) {
                Err(e) => Err(e),
                Ok(next) => select_from(next, steps, k + 1, root),
            },
        }
    }
}

/// The values that a path takes from the value `root`, in order.
pub open spec fn select_values(root: Seq<u8>, steps: Seq<Step>) -> Result<Seq<Seq<u8>>, Error> {
    select_from(seq![root], steps, 0, root)
}

/// How the values that a path takes are written.
#[derive(Debug, Clone, Copy, PartialEq, Eq)]
pub enum Mode {
    Mixed,
    First,
    Array,
    Predicate,
}

/// The bytes `data` with the values from position `i` on behind them.
pub open spec fn emit_data(values: Seq<Seq<u8>>, i: nat, data: Seq<u8>) -> Seq<u8>
    decreases values.len() - i,
{
    if i >= values.len() {
        data
    } else {
        emit_data(values, i + 1, data + values[i as int])
    }
}

/// The offsets `offsets` with the offset behind each of the values from
/// position `i` on, which are written behind `len` bytes.
pub open spec fn emit_offsets(values: Seq<Seq<u8>>, i: nat, len: nat, offsets: Seq<u64>) -> Seq<u64>
    decreases values.len() - i,
{
    if i >= values.len() {
        offsets
    } else {
        emit_offsets(
            values,
            i + 1,
            len + values[i as int].len(),
            offsets.push((len + values[i as int].len()) as u64),
        )
    }
}

/// The elements `acc` with the values from position `i` on as elements.
pub open spec fn elements_of_values_from(values: Seq<Seq<u8>>, i: nat, acc: Seq<RawItem>) -> Result<
    Seq<RawItem>,
    Error,
>
    decreases values.len() - i,
{
    if i >= values.len() {
        Ok(acc)
    } else {
        match element_of(values[i as int]) {
            Err(e) => Err(e),
            Ok(item) => elements_of_values_from(values, i + 1, acc.push(item)),
        }
    }
}

/// The array of values.
pub open spec fn array_of_values(values: Seq<Seq<u8>>) -> Result<Seq<u8>, Error> {
    match elements_of_values_from(values, 0, Seq::empty()) {
        Err(e) => Err(e),
        Ok(items) => array_result(items),
    }
}

/// What is written for the values that a path takes: with `Mixed` each
/// value, with `First` the first, with `Array` the array of them all.
pub open spec fn written_data(mode: Mode, values: Seq<Seq<u8>>, data: Seq<u8>) -> Result<Seq<u8>, Error> {
    match mode {
        Mode::Mixed => Ok(emit_data(values, 0, data)),
        Mode::First => if values.len() > 0 {
            Ok(data + values[0])
        } else {
            Ok(data)
        },
        Mode::Array => match array_of_values(values) {
            Err(e) => Err(e),
            Ok(bytes) => Ok(data + bytes),
        },
        Mode::Predicate => Err(Error::InvalidJsonPath),
    }
}

/// The offsets that are written for the values that a path takes: behind
/// each value that is written, the number of bytes that the data then has.
pub open spec fn written_offsets(mode: Mode, values: Seq<Seq<u8>>, data: Seq<u8>, offsets: Seq<u64>) -> Seq<
    u64,
> {
    match mode {
        Mode::Mixed => emit_offsets(values, 0, data.len(), offsets),
        Mode::First => if values.len() > 0 {
            offsets.push((data.len() + values[0].len()) as u64)
        } else {
            offsets
        },
        Mode::Array => match array_of_values(values) {
            Err(_) => offsets,
            Ok(bytes) => offsets.push((data.len() + bytes.len()) as u64),
        },
        Mode::Predicate => offsets,
    }
}

/// Evaluates a path on values.
#[derive(Debug)]
pub struct Selector {
    pub json_path: JsonPath,
    pub mode: Mode,
}

/// What a filter keeps of the values `items`.
pub fn filter_values(items: &Vec<Vec<u8>>, expr: &Expr, root: &[u8]) -> (r: Result<Vec<Vec<u8>>, Error>)
    ensures
        selected(r, filter_values_from(vecs_view(items@), 0, Seq::empty(), expr.term(), root@)),
{
    let ghost values = vecs_view(items@);
    let mut out: Vec<Vec<u8>> = Vec::new();
    proof {
        assert(vecs_view(out@) =~= Seq::<Seq<u8>>::empty());
    }
    let mut i: usize = 0;
    while i < items.len()
        invariant
            i <= items@.len(),
            values == vecs_view(items@),
            filter_values_from(values, i as nat, vecs_view(out@), expr.term(), root@)
                == filter_values_from(values, 0, Seq::empty(), expr.term(), root@),
        decreases items@.len() - i,
    {
        assert(values[i as int] == items@[i as int]@);
        let mut cands: Vec<Vec<u8>> = Vec::new();
        select_all_values(items[i].as_slice(), &mut cands)?;
        proof {
            assert(vecs_view(cands@) =~= select_elements(values[i as int])->Ok_0);
        }
        let ghost cs = vecs_view(cands@);
        let ghost before = vecs_view(out@);
        let mut j: usize = 0;
        while j < cands.len()
            invariant
                j <= cands@.len(),
                i < items@.len(),
                values == vecs_view(items@),
                cs == vecs_view(cands@),
                select_elements(values[i as int]) == Ok::<Seq<Seq<u8>>, Error>(cs),
                keep_from(cs, j as nat, vecs_view(out@), expr.term(), root@) == keep_from(
                    cs,
                    0,
                    before,
                    expr.term(),
                    root@,
                ),
                filter_values_from(values, i as nat, before, expr.term(), root@)
                    == filter_values_from(values, 0, Seq::empty(), expr.term(), root@),
            decreases cands@.len() - j,
        {
            assert(cs[j as int] == cands@[j as int]@);
            if filter_expr(root, cands[j].as_slice(), expr)? {
                let val = slice_to_vec(cands[j].as_slice());
                proof {
                    assert(vecs_view(out@.push(val)) =~= vecs_view(out@).push(val@));
                }
                out.push(val);
            }
            j = j + 1;
        }
        i = i + 1;
    }
    Ok(out)
}

/// The values `items` as the elements of an array.
pub fn values_to_array(items: &Vec<Vec<u8>>) -> (r: Result<Vec<u8>, Error>)
    ensures
        match array_of_values(vecs_view(items@)) {
            Ok(bytes) => r is Ok && r->Ok_0@ == bytes,
            Err(e) => r == Err::<Vec<u8>, Error>(e),
        },
{
    let ghost values = vecs_view(items@);
    let mut builder = ArrayBuilder::new(items.len());
    let mut i: usize = 0;
    while i < items.len()
        invariant
            i <= items@.len(),
            values == vecs_view(items@),
            builder.wf(),
            elements_of_values_from(values, i as nat, builder@) == elements_of_values_from(
                values,
                0,
                Seq::empty(),
            ),
        decreases items@.len() - i,
    {
        assert(values[i as int] == items@[i as int]@);
        let item = as_element(items[i].as_slice())?;
        builder.push_raw(item.jentry, item.data);
        i = i + 1;
    }
    builder.build()
}

impl Selector {
    /// A selector for a path and a mode.
    pub fn new(json_path: JsonPath, mode: Mode) -> (r: Selector)
        ensures
            r.json_path == json_path,
            r.mode == mode,
    {
        Selector { json_path, mode }
    }

    /// The values that the path takes from the value `root`, in order.
    pub fn select_values(&self, root: &[u8]) -> (r: Result<Vec<Vec<u8>>, Error>)
        ensures
            selected(r, select_values(root@, self.json_path@)),
    {
        let paths = &self.json_path.paths;
        let mut items: Vec<Vec<u8>> = Vec::new();
        items.push(slice_to_vec(root));
        proof {
            assert(vecs_view(items@) =~= seq![root@]);
            crate::jsonpath::path::lemma_steps_len(paths@, paths@.len());
        }
        let mut k: usize = 0;
        while k < paths.len()
            invariant
                k <= paths@.len(),
                paths == &self.json_path.paths,
                steps_view(paths@).len() == paths@.len(),
                select_from(vecs_view(items@), steps_view(paths@), k as nat, root@) == select_values(
                    root@,
                    self.json_path@,
                ),
            decreases paths@.len() - k,
        {
            proof {
                lemma_steps_index(paths@, k as int);
            }
            match &paths[k] {
                Path::Root => {
                    let mut start: Vec<Vec<u8>> = Vec::new();
                    start.push(slice_to_vec(root));
                    proof {
                        assert(vecs_view(start@) =~= seq![root@]);
                    }
                    items = start;
                },
                Path::Current => {},
                Path::FilterExpr(expr) => {
                    items = filter_values(&items, expr, root)?;
                },
                _ => {
                    items = select_path_all(&items, &paths[k])?;
                },
            }
            k = k + 1;
        }
        Ok(items)
    }

    /// Writes the values that the path takes from the value `root`, as the
    /// mode says, and behind each the offset at which the data then ends.
    pub fn select(&self, root: &[u8], data: &mut Vec<u8>, offsets: &mut Vec<u64>) -> (r: Result<
        (),
        Error,
    >)
        ensures
            match select_values(root@, self.json_path@) {
                Err(e) => r == Err::<(), Error>(e) && final(data)@ == old(data)@ && final(offsets)@
                    == old(offsets)@,
                Ok(values) => match written_data(self.mode, values, old(data)@) {
                    Err(e) => r == Err::<(), Error>(e) && final(data)@ == old(data)@
                        && final(offsets)@ == old(offsets)@,
                    Ok(d) => r is Ok && final(data)@ == d && final(offsets)@ == written_offsets(
                        self.mode,
                        values,
                        old(data)@,
                        old(offsets)@,
                    ),
                },
            },
    {
        let items = self.select_values(root)?;
        let ghost values = vecs_view(items@);
        match self.mode {
            Mode::Mixed => {
                let mut i: usize = 0;
                while i < items.len()
                    invariant
                        i <= items@.len(),
                        values == vecs_view(items@),
                        emit_data(values, i as nat, data@) == emit_data(values, 0, old(data)@),
                        emit_offsets(values, i as nat, data@.len(), offsets@) == emit_offsets(
                            values,
                            0,
                            old(data)@.len(),
                            old(offsets)@,
                        ),
                    decreases items@.len() - i,
                {
                    assert(values[i as int] == items@[i as int]@);
                    let ghost d0 = data@;
                    let ghost o0 = offsets@;
                    data.extend_from_slice(items[i].as_slice());
                    offsets.push(data.len() as u64);
                    proof {
                        assert(data@ == d0 + values[i as int]);
                        assert(emit_data(values, i as nat, d0) == emit_data(values, (i + 1) as nat, data@));
                        assert(offsets@ == o0.push((d0.len() + values[i as int].len()) as u64));
                    }
                    i = i + 1;
                }
                Ok(())
            },
            Mode::First => {
                if items.len() > 0 {
                    assert(values[0] == items@[0]@);
                    data.extend_from_slice(items[0].as_slice());
                    offsets.push(data.len() as u64);
                }
                Ok(())
            },
            Mode::Array => {
                let bytes = values_to_array(&items)?;
                data.extend_from_slice(bytes.as_slice());
                offsets.push(data.len() as u64);
                Ok(())
            },
            Mode::Predicate => Err(Error::InvalidJsonPath),
        }
    }

    /// Whether the path takes a value from the value `root`.
    pub fn has_match(&self, root: &[u8]) -> (r: Result<bool, Error>)
        ensures
            match select_values(root@, self.json_path@) {
                Err(e) => r == Err::<bool, Error>(e),
                Ok(values) => r == Ok::<bool, Error>(values.len() > 0),
            },
    {
        let items = self.select_values(root)?;
        Ok(items.len() > 0)
    }

    /// Whether the filter that the path ends with keeps a value. A path
    /// that does not end with a filter gives `InvalidJsonPath`.
    pub fn predicate_match(&self, root: &[u8]) -> (r: Result<bool, Error>)
        ensures
            r == predicate_spec(root@, self.json_path@),
    {
        let paths = &self.json_path.paths;
        proof {
            crate::jsonpath::path::lemma_steps_len(paths@, paths@.len());
        }
        if paths.len() == 0 {
            return Err(Error::InvalidJsonPath);
        }
        proof {
            lemma_steps_index(paths@, paths@.len() - 1);
        }
        match &paths[paths.len() - 1] {
            Path::FilterExpr(_) => {},
            _ => {
                return Err(Error::InvalidJsonPath);
            },
        }
        let items = self.select_values(root)?;
        Ok(items.len() > 0)
    }
}

/// What `predicate_match` gives.
pub open spec fn predicate_spec(root: Seq<u8>, steps: Seq<Step>) -> Result<bool, Error> {
    if steps.len() > 0 && steps.last() is FilterExpr {
        match select_values(root, steps) {
            Err(e) => Err(e),
            Ok(values) => Ok(values.len() > 0),
        }
    } else {
        Err(Error::InvalidJsonPath)
    }
}

} // verus!
