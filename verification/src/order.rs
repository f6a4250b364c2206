//! The total order of values.

use vstd::prelude::*;
use crate::error::Error;
use crate::codec::{JEntry, read_u32, read_word, header_tag, header_len, decode_header};
use crate::constants::{
    ARRAY_CONTAINER_TAG, OBJECT_CONTAINER_TAG, SCALAR_CONTAINER_TAG, CONTAINER_TAG, NULL_TAG,
    STRING_TAG, NUMBER_TAG, TRUE_TAG, FALSE_TAG, NULL_LEVEL, OBJECT_LEVEL, STRING_LEVEL,
    NUMBER_LEVEL, TRUE_LEVEL, FALSE_LEVEL, INVALID_LEVEL,
};
use crate::iterator::{
    RawItem, RawEntry, Item, Entry, items_view, entries_view, container_items, object_entries,
    scalar_item, read_scalar, iterate_array, iterate_object_entries, items_shorter, entries_shorter,
    value_item,
};
use crate::bytes::{Order, int_order, lex_order, compare_bytes};
use crate::number::{Number, decode_number};

verus! {

/// The level of an element among the elements of an array: null is
/// greatest, then a nested container, a string, a number, true and false.
pub open spec fn level_of(jentry: JEntry) -> u8 {
    if jentry.type_code == NULL_TAG {
        NULL_LEVEL
    } else if jentry.type_code == CONTAINER_TAG {
        OBJECT_LEVEL
    } else if jentry.type_code == STRING_TAG {
        STRING_LEVEL
    } else if jentry.type_code == NUMBER_TAG {
        NUMBER_LEVEL
    } else if jentry.type_code == TRUE_TAG {
        TRUE_LEVEL
    } else if jentry.type_code == FALSE_TAG {
        FALSE_LEVEL
    } else {
        INVALID_LEVEL
    }
}

/// The order of two numbers given by their payloads.
pub open spec fn number_payload_order(l: Seq<u8>, r: Seq<u8>) -> Result<Order, Error> {
    match decode_number(l) {
        Err(e) => Err(e),
        Ok(ln) => match decode_number(r) {
            Err(e) => Err(e),
            Ok(rn) => Ok(ln.order_spec(rn)),
        },
    }
}

/// The order of two elements, the left one shorter than `bound`: by level
/// where the levels differ; else nested containers as containers, strings
/// by their bytes, numbers by their values.
pub open spec fn item_order(a: RawItem, b: RawItem, bound: nat) -> Result<Order, Error>
    decreases bound, 1nat, 0nat,
{
    if level_of(a.jentry) != level_of(b.jentry) {
        Ok(int_order(level_of(a.jentry) as int, level_of(b.jentry) as int))
    } else if a.jentry.type_code == NULL_TAG && b.jentry.type_code == NULL_TAG {
        Ok(Order::Equal)
    } else if a.jentry.type_code == CONTAINER_TAG && b.jentry.type_code == CONTAINER_TAG {
        if a.data.len() < bound {
            container_order(a.data, b.data)
        } else {
            Err(Error::InvalidJsonb)
        }
    } else if a.jentry.type_code == STRING_TAG && b.jentry.type_code == STRING_TAG {
        Ok(lex_order(a.data, b.data))
    } else if a.jentry.type_code == NUMBER_TAG && b.jentry.type_code == NUMBER_TAG {
        number_payload_order(a.data, b.data)
    } else if a.jentry.type_code == TRUE_TAG && b.jentry.type_code == TRUE_TAG {
        Ok(Order::Equal)
    } else if a.jentry.type_code == FALSE_TAG && b.jentry.type_code == FALSE_TAG {
        Ok(Order::Equal)
    } else {
        Err(Error::InvalidJsonbJEntry)
    }
}

/// The order of two arrays or objects: an array is greater than an object;
/// two arrays and two objects go by their contents.
pub open spec fn container_order(l: Seq<u8>, r: Seq<u8>) -> Result<Order, Error>
    decreases l.len(), 3nat, 0nat,
{
    match read_word(l, 0) {
        Err(e) => Err(e),
        Ok(lh) => match read_word(r, 0) {
            Err(e) => Err(e),
            Ok(rh) => if header_tag(lh) == ARRAY_CONTAINER_TAG && header_tag(rh)
                == ARRAY_CONTAINER_TAG {
                match container_items(l, header_len(lh)) {
                    Err(e) => Err(e),
                    Ok(li) => match container_items(r, header_len(rh)) {
                        Err(e) => Err(e),
                        Ok(ri) => items_order_from(li, ri, 0, l.len()),
                    },
                }
            } else if header_tag(lh) == OBJECT_CONTAINER_TAG && header_tag(rh)
                == OBJECT_CONTAINER_TAG {
                match object_entries(l, header_len(lh)) {
                    Err(e) => Err(e),
                    Ok(le) => match object_entries(r, header_len(rh)) {
                        Err(e) => Err(e),
                        Ok(re) => entries_order_from(le, re, 0, l.len()),
                    },
                }
            } else if header_tag(lh) == ARRAY_CONTAINER_TAG && header_tag(rh)
                == OBJECT_CONTAINER_TAG {
                Ok(Order::Greater)
            } else if header_tag(lh) == OBJECT_CONTAINER_TAG && header_tag(rh)
                == ARRAY_CONTAINER_TAG {
                Ok(Order::Less)
            } else {
                Err(Error::InvalidJsonbHeader)
            },
        },
    }
}

/// The order of two runs of elements from position `i` on: the first pair
/// of elements that are not equal decides; where there is none, the shorter
/// run is less.
pub open spec fn items_order_from(li: Seq<RawItem>, ri: Seq<RawItem>, i: nat, bound: nat) -> Result<
    Order,
    Error,
>
    decreases bound, 2nat, li.len() - i,
{
    if i >= li.len() || i >= ri.len() {
        Ok(int_order(li.len() as int, ri.len() as int))
    } else {
        match item_order(li[i as int], ri[i as int], bound) {
            Err(e) => Err(e),
            Ok(o) => if o == Order::Equal {
                items_order_from(li, ri, i + 1, bound)
            } else {
                Ok(o)
            },
        }
    }
}

/// The order of two runs of members from position `i` on: the first pair of
/// members that differ in their keys or, with equal keys, in their values
/// decides; where there is none, the shorter run is less.
pub open spec fn entries_order_from(
    le: Seq<RawEntry>,
    re: Seq<RawEntry>,
    i: nat,
    bound: nat,
) -> Result<Order, Error>
    decreases bound, 2nat, le.len() - i,
{
    if i >= le.len() || i >= re.len() {
        Ok(int_order(le.len() as int, re.len() as int))
    } else if lex_order(le[i as int].key, re[i as int].key) != Order::Equal {
        Ok(lex_order(le[i as int].key, re[i as int].key))
    } else {
        match item_order(value_item(le[i as int]), value_item(re[i as int]), bound) {
            Err(e) => Err(e),
            Ok(o) => if o == Order::Equal {
                entries_order_from(le, re, i + 1, bound)
            } else {
                Ok(o)
            },
        }
    }
}

/// The order of two values in their binary form.
///
/// A scalar null is greater than every other value; every other scalar is
/// less than an array or an object. Two scalars go by their elements, two
/// containers by `container_order`.
pub open spec fn value_order(l: Seq<u8>, r: Seq<u8>) -> Result<Order, Error> {
    match read_word(l, 0) {
        Err(e) => Err(e),
        Ok(lh) => match read_word(r, 0) {
            Err(e) => Err(e),
            Ok(rh) => {
                let lt = header_tag(lh);
                let rt = header_tag(rh);
                if lt == SCALAR_CONTAINER_TAG && rt == SCALAR_CONTAINER_TAG {
                    match scalar_item(l) {
                        Err(e) => Err(e),
                        Ok(a) => match scalar_item(r) {
                            Err(e) => Err(e),
                            Ok(b) => item_order(a, b, l.len()),
                        },
                    }
                } else if lt == SCALAR_CONTAINER_TAG && (rt == ARRAY_CONTAINER_TAG || rt
                    == OBJECT_CONTAINER_TAG) {
                    match scalar_item(l) {
                        Err(e) => Err(e),
                        Ok(a) => if a.jentry.type_code == NULL_TAG {
                            Ok(Order::Greater)
                        } else {
                            Ok(Order::Less)
                        },
                    }
                } else if (lt == ARRAY_CONTAINER_TAG || lt == OBJECT_CONTAINER_TAG) && rt
                    == SCALAR_CONTAINER_TAG {
                    match scalar_item(r) {
                        Err(e) => Err(e),
                        Ok(b) => if b.jentry.type_code == NULL_TAG {
                            Ok(Order::Less)
                        } else {
                            Ok(Order::Greater)
                        },
                    }
                } else {
                    container_order(l, r)
                }
            },
        },
    }
}

/// The level of an element among the elements of an array.
pub fn jentry_compare_level(jentry: &JEntry) -> (r: u8)
    ensures
        r == level_of(*jentry),
{
    if jentry.type_code == NULL_TAG {
        NULL_LEVEL
    } else if jentry.type_code == CONTAINER_TAG {
        OBJECT_LEVEL
    } else if jentry.type_code == STRING_TAG {
        STRING_LEVEL
    } else if jentry.type_code == NUMBER_TAG {
        NUMBER_LEVEL
    } else if jentry.type_code == TRUE_TAG {
        TRUE_LEVEL
    } else if jentry.type_code == FALSE_TAG {
        FALSE_LEVEL
    } else {
        INVALID_LEVEL
    }
}

/// The order of two elements.
pub(crate) fn compare_scalar(left: &Item, right: &Item, Ghost(bound): Ghost<nat>) -> (r: Result<
    Order,
    Error,
>)
    requires
        left@.data.len() < bound,
    ensures
        r == item_order(left@, right@, bound),
    decreases bound, 1nat,
{
    let left_level = jentry_compare_level(&left.jentry);
    let right_level = jentry_compare_level(&right.jentry);
    if left_level != right_level {
        return Ok(
            if left_level < right_level {
                Order::Less
            } else {
                Order::Greater
            },
        );
    }
    let lt = left.jentry.type_code;
    let rt = right.jentry.type_code;
    if lt == NULL_TAG && rt == NULL_TAG {
        Ok(Order::Equal)
    } else if lt == CONTAINER_TAG && rt == CONTAINER_TAG {
        compare_container(left.data, right.data)
    } else if lt == STRING_TAG && rt == STRING_TAG {
        Ok(compare_bytes(left.data, right.data))
    } else if lt == NUMBER_TAG && rt == NUMBER_TAG {
        let left_num = Number::decode(left.data)?;
        let right_num = Number::decode(right.data)?;
        Ok(left_num.order(&right_num))
    } else if lt == TRUE_TAG && rt == TRUE_TAG {
        Ok(Order::Equal)
    } else if lt == FALSE_TAG && rt == FALSE_TAG {
        Ok(Order::Equal)
    } else {
        Err(Error::InvalidJsonbJEntry)
    }
}

/// The order of two arrays or objects.
pub fn compare_container(left: &[u8], right: &[u8]) -> (r: Result<Order, Error>)
    ensures
        r == container_order(left@, right@),
    decreases left@.len(), 3nat,
{
    let left_header = read_u32(left, 0)?;
    let right_header = read_u32(right, 0)?;
    let (lt, _) = decode_header(left_header);
    let (rt, _) = decode_header(right_header);
    if lt == ARRAY_CONTAINER_TAG && rt == ARRAY_CONTAINER_TAG {
        let l_items = iterate_array(left, left_header)?;
        let r_items = iterate_array(right, right_header)?;
        compare_array(&l_items, &r_items, Ghost(left@.len()))
    } else if lt == OBJECT_CONTAINER_TAG && rt == OBJECT_CONTAINER_TAG {
        let l_entries = iterate_object_entries(left, left_header)?;
        let r_entries = iterate_object_entries(right, right_header)?;
        compare_object(&l_entries, &r_entries, Ghost(left@.len()))
    } else if lt == ARRAY_CONTAINER_TAG && rt == OBJECT_CONTAINER_TAG {
        Ok(Order::Greater)
    } else if lt == OBJECT_CONTAINER_TAG && rt == ARRAY_CONTAINER_TAG {
        Ok(Order::Less)
    } else {
        Err(Error::InvalidJsonbHeader)
    }
}

/// The order of two lengths.
fn length_order(l: usize, r: usize) -> (o: Order)
    ensures
        o == int_order(l as int, r as int),
{
    if l < r {
        Order::Less
    } else if l == r {
        Order::Equal
    } else {
        Order::Greater
    }
}

/// The order of two arrays given by their elements.
pub(crate) fn compare_array(left: &Vec<Item>, right: &Vec<Item>, Ghost(bound): Ghost<nat>) -> (r: Result<
    Order,
    Error,
>)
    requires
        items_shorter(items_view(left@), bound),
    ensures
        r == items_order_from(items_view(left@), items_view(right@), 0, bound),
    decreases bound, 2nat,
{
    let ghost li = items_view(left@);
    let ghost ri = items_view(right@);
    let mut i: usize = 0;
    while i < left.len() && i < right.len()
        invariant
            i <= left@.len(),
            i <= right@.len(),
            li == items_view(left@),
            ri == items_view(right@),
            items_shorter(li, bound),
            items_order_from(li, ri, i as nat, bound) == items_order_from(li, ri, 0, bound),
        decreases left@.len() - i,
    {
        assert(li[i as int] == left@[i as int]@);
        assert(ri[i as int] == right@[i as int]@);
        assert(li[i as int].data.len() < bound);
        let order = compare_scalar(&left[i], &right[i], Ghost(bound))?;
        match order {
            Order::Equal => {},
            _ => {
                return Ok(order);
            },
        }
        i = i + 1;
    }
    Ok(length_order(left.len(), right.len()))
}

/// The order of two objects given by their members.
pub(crate) fn compare_object(
    left: &Vec<Entry>,
    right: &Vec<Entry>,
    Ghost(bound): Ghost<nat>,
) -> (r: Result<Order, Error>)
    requires
        entries_shorter(entries_view(left@), bound),
    ensures
        r == entries_order_from(entries_view(left@), entries_view(right@), 0, bound),
    decreases bound, 2nat,
{
    let ghost le = entries_view(left@);
    let ghost re = entries_view(right@);
    let mut i: usize = 0;
    while i < left.len() && i < right.len()
        invariant
            i <= left@.len(),
            i <= right@.len(),
            le == entries_view(left@),
            re == entries_view(right@),
            entries_shorter(le, bound),
            entries_order_from(le, re, i as nat, bound) == entries_order_from(le, re, 0, bound),
        decreases left@.len() - i,
    {
        let l = &left[i];
        let r = &right[i];
        assert(le[i as int] == l@);
        assert(re[i as int] == r@);
        assert(le[i as int].data.len() < bound);
        let key_order = compare_bytes(l.key, r.key);
        match key_order {
            Order::Equal => {},
            _ => {
                return Ok(key_order);
            },
        }
        let l_val = Item { jentry: l.jentry, data: l.data };
        let r_val = Item { jentry: r.jentry, data: r.data };
        let val_order = compare_scalar(&l_val, &r_val, Ghost(bound))?;
        match val_order {
            Order::Equal => {},
            _ => {
                return Ok(val_order);
            },
        }
        i = i + 1;
    }
    Ok(length_order(left.len(), right.len()))
}

/// The order of two values in their binary form.
pub fn compare_values(left: &[u8], right: &[u8]) -> (r: Result<Order, Error>)
    ensures
        r == value_order(left@, right@),
{
    let left_header = read_u32(left, 0)?;
    let right_header = read_u32(right, 0)?;
    let (lt, _) = decode_header(left_header);
    let (rt, _) = decode_header(right_header);
    if lt == SCALAR_CONTAINER_TAG && rt == SCALAR_CONTAINER_TAG {
        let a = read_scalar(left)?;
        let b = read_scalar(right)?;
        compare_scalar(&a, &b, Ghost(left@.len()))
    } else if lt == SCALAR_CONTAINER_TAG && (rt == ARRAY_CONTAINER_TAG || rt
        == OBJECT_CONTAINER_TAG) {
        let a = read_scalar(left)?;
        if a.jentry.type_code == NULL_TAG {
            Ok(Order::Greater)
        } else {
            Ok(Order::Less)
        }
    } else if (lt == ARRAY_CONTAINER_TAG || lt == OBJECT_CONTAINER_TAG) && rt
        == SCALAR_CONTAINER_TAG {
        let b = read_scalar(right)?;
        if b.jentry.type_code == NULL_TAG {
            Ok(Order::Less)
        } else {
            Ok(Order::Greater)
        }
    } else {
        compare_container(left, right)
    }
}

} // verus!
