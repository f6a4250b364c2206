//! Keys whose byte order is the order of the values.

use vstd::prelude::*;
use crate::error::Error;
use crate::codec::{read_u32, read_word, header_tag, header_len, decode_header};
use crate::constants::{
    ARRAY_CONTAINER_TAG, OBJECT_CONTAINER_TAG, SCALAR_CONTAINER_TAG, CONTAINER_TAG, STRING_TAG,
    NUMBER_TAG, ARRAY_LEVEL, OBJECT_LEVEL, STRING_LEVEL,
};
use crate::iterator::{
    RawItem, RawEntry, Item, Entry, items_view, entries_view, container_items, object_entries,
    scalar_item, read_scalar, iterate_array, iterate_object_entries, items_shorter, entries_shorter,
    value_item,
};
use crate::number::{Number, decode_number, be_bytes64, put_u64, sort_key_of};
use crate::order::{level_of, jentry_compare_level};
use crate::text::wrote;

verus! {

/// The depth one level below `depth`, as far as a byte counts.
pub open spec fn deeper(depth: u8) -> u8 {
    if depth == 255 {
        255
    } else {
        (depth + 1) as u8
    }
}

/// The key of a value at a depth.
///
/// Each value gives its depth, its level and its payload: a string its
/// bytes, a number the eight bytes of the integer by which its double is
/// ordered, an array its elements and an object its keys and values in
/// turn, each one level deeper.
pub open spec fn value_key(s: Seq<u8>, depth: u8) -> Result<Seq<u8>, Error>
    decreases s.len(), 3nat, 0nat,
{
    match read_word(s, 0) {
        Err(e) => Err(e),
        Ok(h) => if header_tag(h) == SCALAR_CONTAINER_TAG {
            match scalar_item(s) {
                Err(e) => Err(e),
                Ok(item) => item_key(item, depth, s.len()),
            }
        } else {
            container_key(s, depth)
        },
    }
}

/// The key of an array or an object at a depth.
pub open spec fn container_key(s: Seq<u8>, depth: u8) -> Result<Seq<u8>, Error>
    decreases s.len(), 2nat, 0nat,
{
    match read_word(s, 0) {
        Err(e) => Err(e),
        Ok(h) => if header_tag(h) == ARRAY_CONTAINER_TAG {
            match container_items(s, header_len(h)) {
                Err(e) => Err(e),
                Ok(items) => items_key_from(
                    items,
                    0,
                    seq![depth, ARRAY_LEVEL],
                    deeper(depth),
                    s.len(),
                ),
            }
        } else if header_tag(h) == OBJECT_CONTAINER_TAG {
            match object_entries(s, header_len(h)) {
                Err(e) => Err(e),
                Ok(es) => entries_key_from(es, 0, seq![depth, OBJECT_LEVEL], deeper(depth), s.len()),
            }
        } else {
            Err(Error::InvalidJsonb)
        },
    }
}

/// The key of an element, which is shorter than `bound`, at a depth.
pub open spec fn item_key(item: RawItem, depth: u8, bound: nat) -> Result<Seq<u8>, Error>
    decreases bound, 0nat, 0nat,
{
    if item.jentry.type_code == CONTAINER_TAG {
        if item.data.len() < bound {
            container_key(item.data, depth)
        } else {
            Err(Error::InvalidJsonb)
        }
    } else if item.jentry.type_code == STRING_TAG {
        Ok(seq![depth, level_of(item.jentry)] + item.data)
    } else if item.jentry.type_code == NUMBER_TAG {
        match decode_number(item.data) {
            Err(e) => Err(e),
            Ok(n) => Ok(seq![depth, level_of(item.jentry)] + be_bytes64(n.order_key())),
        }
    } else {
        Ok(seq![depth, level_of(item.jentry)])
    }
}

/// The key `acc` with the keys of the elements from position `i` on.
pub open spec fn items_key_from(
    items: Seq<RawItem>,
    i: nat,
    acc: Seq<u8>,
    depth: u8,
    bound: nat,
) -> Result<Seq<u8>, Error>
    decreases bound, 1nat, items.len() - i,
{
    if i >= items.len() {
        Ok(acc)
    } else {
        match item_key(items[i as int], depth, bound) {
            Err(e) => Err(e),
            Ok(k) => items_key_from(items, i + 1, acc + k, depth, bound),
        }
    }
}

/// The key `acc` with the keys of the members from position `i` on: of each
/// its key as a string, then its value.
pub open spec fn entries_key_from(
    entries: Seq<RawEntry>,
    i: nat,
    acc: Seq<u8>,
    depth: u8,
    bound: nat,
) -> Result<Seq<u8>, Error>
    decreases bound, 1nat, entries.len() - i,
{
    if i >= entries.len() {
        Ok(acc)
    } else {
        match item_key(value_item(entries[i as int]), depth, bound) {
            Err(e) => Err(e),
            Ok(k) => entries_key_from(
                entries,
                i + 1,
                acc + seq![depth, STRING_LEVEL] + entries[i as int].key + k,
                depth,
                bound,
            ),
        }
    }
}

/// The depth one level below `depth`.
pub fn next_depth(depth: u8) -> (r: u8)
    ensures
        r == deeper(depth),
{
    if depth == 255 {
        255
    } else {
        depth + 1
    }
}

/// Appends the key of the value `value` at a depth.
pub fn value_convert_to_comparable(depth: u8, value: &[u8], buf: &mut Vec<u8>) -> (r: Result<
    (),
    Error,
>)
    ensures
        wrote(old(buf)@, final(buf)@, r, value_key(value@, depth)),
{
    let header = read_u32(value, 0)?;
    let (tag, _) = decode_header(header);
    if tag == SCALAR_CONTAINER_TAG {
        let item = read_scalar(value)?;
        scalar_convert_to_comparable(depth, &item, buf, Ghost(value@.len()))
    } else {
        container_convert_to_comparable(depth, value, buf)
    }
}

/// Appends the key of the array or object `value` at a depth.
pub fn container_convert_to_comparable(depth: u8, value: &[u8], buf: &mut Vec<u8>) -> (r: Result<
    (),
    Error,
>)
    ensures
        wrote(old(buf)@, final(buf)@, r, container_key(value@, depth)),
    decreases value@.len(), 2nat,
{
    let header = read_u32(value, 0)?;
    let (tag, _) = decode_header(header);
    if tag == ARRAY_CONTAINER_TAG {
        let items = iterate_array(value, header)?;
        buf.push(depth);
        buf.push(ARRAY_LEVEL);
        let ghost head = seq![depth, ARRAY_LEVEL];
        proof {
            assert(buf@ =~= old(buf)@ + head);
        }
        array_convert_to_comparable(
            next_depth(depth),
            &items,
            buf,
            Ghost(old(buf)@),
            Ghost(head),
            Ghost(value@.len()),
        )
    } else if tag == OBJECT_CONTAINER_TAG {
        let entries = iterate_object_entries(value, header)?;
        buf.push(depth);
        buf.push(OBJECT_LEVEL);
        let ghost head = seq![depth, OBJECT_LEVEL];
        proof {
            assert(buf@ =~= old(buf)@ + head);
        }
        object_convert_to_comparable(
            next_depth(depth),
            &entries,
            buf,
            Ghost(old(buf)@),
            Ghost(head),
            Ghost(value@.len()),
        )
    } else {
        Err(Error::InvalidJsonb)
    }
}

/// Appends the key of an element at a depth.
pub(crate) fn scalar_convert_to_comparable(
    depth: u8,
    item: &Item,
    buf: &mut Vec<u8>,
    Ghost(bound): Ghost<nat>,
) -> (r: Result<(), Error>)
    requires
        item@.data.len() < bound,
    ensures
        wrote(old(buf)@, final(buf)@, r, item_key(item@, depth, bound)),
    decreases bound, 0nat,
{
    let t = item.jentry.type_code;
    if t == CONTAINER_TAG {
        container_convert_to_comparable(depth, item.data, buf)
    } else if t == STRING_TAG {
        buf.push(depth);
        buf.push(jentry_compare_level(&item.jentry));
        buf.extend_from_slice(item.data);
        proof {
            assert(buf@ =~= old(buf)@ + (seq![depth, level_of(item@.jentry)] + item@.data));
        }
        Ok(())
    } else if t == NUMBER_TAG {
        let num = Number::decode(item.data)?;
        buf.push(depth);
        buf.push(jentry_compare_level(&item.jentry));
        put_u64(buf, sort_key_of(num.to_double_bits()));
        proof {
            assert(buf@ =~= old(buf)@ + (seq![depth, level_of(item@.jentry)] + be_bytes64(
                num.order_key(),
            )));
        }
        Ok(())
    } else {
        buf.push(depth);
        buf.push(jentry_compare_level(&item.jentry));
        proof {
            assert(buf@ =~= old(buf)@ + seq![depth, level_of(item@.jentry)]);
        }
        Ok(())
    }
}

/// Appends the keys of the elements of an array, which are at a depth.
pub(crate) fn array_convert_to_comparable(
    depth: u8,
    items: &Vec<Item>,
    buf: &mut Vec<u8>,
    Ghost(start): Ghost<Seq<u8>>,
    Ghost(head): Ghost<Seq<u8>>,
    Ghost(bound): Ghost<nat>,
) -> (r: Result<(), Error>)
    requires
        old(buf)@ == start + head,
        items_shorter(items_view(items@), bound),
    ensures
        wrote(start, final(buf)@, r, items_key_from(items_view(items@), 0, head, depth, bound)),
    decreases bound, 1nat,
{
    let ghost raw = items_view(items@);
    let ghost mut acc = head;
    let mut i: usize = 0;
    while i < items.len()
        invariant
            i <= items@.len(),
            raw == items_view(items@),
            items_shorter(raw, bound),
            buf@ == start + acc,
            items_key_from(raw, i as nat, acc, depth, bound) == items_key_from(
                raw,
                0,
                head,
                depth,
                bound,
            ),
        decreases items@.len() - i,
    {
        assert(raw[i as int] == items@[i as int]@);
        assert(raw[i as int].data.len() < bound);
        scalar_convert_to_comparable(depth, &items[i], buf, Ghost(bound))?;
        proof {
            let k = item_key(raw[i as int], depth, bound)->Ok_0;
            assert(buf@ =~= start + (acc + k));
            acc = acc + k;
        }
        i = i + 1;
    }
    Ok(())
}

/// Appends the keys of the members of an object, which are at a depth.
pub(crate) fn object_convert_to_comparable(
    depth: u8,
    entries: &Vec<Entry>,
    buf: &mut Vec<u8>,
    Ghost(start): Ghost<Seq<u8>>,
    Ghost(head): Ghost<Seq<u8>>,
    Ghost(bound): Ghost<nat>,
) -> (r: Result<(), Error>)
    requires
        old(buf)@ == start + head,
        entries_shorter(entries_view(entries@), bound),
    ensures
        wrote(
            start,
            final(buf)@,
            r,
            entries_key_from(entries_view(entries@), 0, head, depth, bound),
        ),
    decreases bound, 1nat,
{
    let ghost es = entries_view(entries@);
    let ghost mut acc = head;
    let mut i: usize = 0;
    while i < entries.len()
        invariant
            i <= entries@.len(),
            es == entries_view(entries@),
            entries_shorter(es, bound),
            buf@ == start + acc,
            entries_key_from(es, i as nat, acc, depth, bound) == entries_key_from(
                es,
                0,
                head,
                depth,
                bound,
            ),
        decreases entries@.len() - i,
    {
        let e = &entries[i];
        assert(es[i as int] == e@);
        assert(es[i as int].data.len() < bound);
        buf.push(depth);
        buf.push(STRING_LEVEL);
        buf.extend_from_slice(e.key);
        let item = Item { jentry: e.jentry, data: e.data };
        scalar_convert_to_comparable(depth, &item, buf, Ghost(bound))?;
        proof {
            let k = item_key(value_item(es[i as int]), depth, bound)->Ok_0;
            let next = acc + seq![depth, STRING_LEVEL] + es[i as int].key + k;
            assert(buf@ =~= start + next);
            acc = next;
        }
        i = i + 1;
    }
    Ok(())
}

} // verus!
