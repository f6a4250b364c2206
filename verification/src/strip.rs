//! Removing the members of objects whose value is null.

use vstd::prelude::*;
use crate::error::Error;
use crate::raw::RawJsonb;
use crate::codec::{JEntry, read_u32, read_word, header_tag, header_len, decode_header};
use crate::constants::{
    ARRAY_CONTAINER_TAG, OBJECT_CONTAINER_TAG, SCALAR_CONTAINER_TAG, CONTAINER_TAG, NULL_TAG,
    JENTRY_OFF_LEN_MASK,
};
use crate::iterator::{
    RawItem, RawEntry, items_view, entries_view, container_items, object_entries, iterate_array,
    iterate_object_entries, items_wf, entries_wf, item_wf, entry_wf, items_shorter,
    entries_shorter,
};
use crate::builder::{
    ArrayBuilder, ObjectBuilder, appended, array_result, object_result, build_entries, nested_item,
    container_item,
};

verus! {

/// A value without the members of its objects, at any depth, whose value is
/// null. Nulls that are elements of arrays stay, and a scalar stays as it is.
pub open spec fn strip_nulls_spec(s: Seq<u8>) -> Result<Seq<u8>, Error>
    decreases s.len(), 2nat, 0nat,
{
    match read_word(s, 0) {
        Err(e) => Err(e),
        Ok(h) => if header_tag(h) == OBJECT_CONTAINER_TAG {
            match object_entries(s, header_len(h)) {
                Err(e) => Err(e),
                Ok(es) => match strip_entries_from(es, 0, Seq::empty(), s.len()) {
                    Err(e) => Err(e),
                    Ok(out) => object_result(build_entries(out)),
                },
            }
        } else if header_tag(h) == ARRAY_CONTAINER_TAG {
            match container_items(s, header_len(h)) {
                Err(e) => Err(e),
                Ok(items) => match strip_items_from(items, 0, Seq::empty(), s.len()) {
                    Err(e) => Err(e),
                    Ok(out) => array_result(out),
                },
            }
        } else if header_tag(h) == SCALAR_CONTAINER_TAG {
            Ok(s)
        } else {
            Err(Error::InvalidJsonb)
        },
    }
}

/// A nested container, shorter than `bound`, without the null members of its
/// objects, as one element. A nested container that is neither an array nor
/// an object gives `InvalidJsonb`.
pub open spec fn strip_nested(data: Seq<u8>, bound: nat) -> Result<RawItem, Error>
    decreases bound, 0nat, 0nat,
{
    match read_word(data, 0) {
        Err(e) => Err(e),
        Ok(h) => if (header_tag(h) == OBJECT_CONTAINER_TAG || header_tag(h) == ARRAY_CONTAINER_TAG)
            && data.len() < bound {
            nested_item(strip_nulls_spec(data))
        } else {
            Err(Error::InvalidJsonb)
        },
    }
}

/// The elements of an array from position `i` on, stripped and added to `acc`.
pub open spec fn strip_items_from(
    items: Seq<RawItem>,
    i: nat,
    acc: Seq<RawItem>,
    bound: nat,
) -> Result<Seq<RawItem>, Error>
    decreases bound, 1nat, items.len() - i,
{
    if i >= items.len() {
        Ok(acc)
    } else if items[i as int].jentry.type_code == CONTAINER_TAG {
        match strip_nested(items[i as int].data, bound) {
            Err(e) => Err(e),
            Ok(item) => strip_items_from(items, i + 1, acc.push(item), bound),
        }
    } else {
        strip_items_from(items, i + 1, acc.push(items[i as int]), bound)
    }
}

/// The members of an object from position `i` on, added to `acc`: without
/// those whose value is null, and with the nested containers stripped.
pub open spec fn strip_entries_from(
    entries: Seq<RawEntry>,
    i: nat,
    acc: Seq<RawEntry>,
    bound: nat,
) -> Result<Seq<RawEntry>, Error>
    decreases bound, 1nat, entries.len() - i,
{
    if i >= entries.len() {
        Ok(acc)
    } else if entries[i as int].jentry.type_code == CONTAINER_TAG {
        match strip_nested(entries[i as int].data, bound) {
            Err(e) => Err(e),
            Ok(item) => strip_entries_from(
                entries,
                i + 1,
                acc.push(
                    RawEntry { key: entries[i as int].key, jentry: item.jentry, data: item.data },
                ),
                bound,
            ),
        }
    } else if entries[i as int].jentry.type_code == NULL_TAG {
        strip_entries_from(entries, i + 1, acc, bound)
    } else {
        strip_entries_from(entries, i + 1, acc.push(entries[i as int]), bound)
    }
}

/// A nested array or object without the null members of its objects, in its
/// wire form.
fn strip_nulls_nested(data: &[u8], Ghost(bound): Ghost<nat>) -> (r: Result<Vec<u8>, Error>)
    requires
        data@.len() < bound,
    ensures
        match strip_nested(data@, bound) {
            Ok(item) => r is Ok && item == container_item(r->Ok_0@) && item_wf(item),
            Err(e) => r == Err::<Vec<u8>, Error>(e),
        },
    decreases data@.len(), 3nat,
{
    let header = read_u32(data, 0)?;
    let (tag, _) = decode_header(header);
    let bytes = if tag == OBJECT_CONTAINER_TAG {
        RawJsonb::strip_nulls_object(header, data)?.build()?
    } else if tag == ARRAY_CONTAINER_TAG {
        RawJsonb::strip_nulls_array(header, data)?.build()?
    } else {
        return Err(Error::InvalidJsonb);
    };
    if bytes.len() > JENTRY_OFF_LEN_MASK as usize {
        return Err(Error::InvalidJsonbJEntry);
    }
    Ok(bytes)
}

impl<'a> RawJsonb<'a> {
    /// Deletes the members of objects whose value is null, at any depth.
    pub fn strip_nulls(&self, buf: &mut Vec<u8>) -> (r: Result<(), Error>)
        ensures
            appended(old(buf)@, final(buf)@, r, strip_nulls_spec(self@)),
    {
        let value = self.0;
        let header = read_u32(value, 0)?;
        let (tag, _) = decode_header(header);
        if tag == OBJECT_CONTAINER_TAG {
            let builder = Self::strip_nulls_object(header, value)?;
            builder.finish(buf)
        } else if tag == ARRAY_CONTAINER_TAG {
            let builder = Self::strip_nulls_array(header, value)?;
            builder.finish(buf)
        } else if tag == SCALAR_CONTAINER_TAG {
            buf.extend_from_slice(value);
            assert(buf@ == old(buf)@ + self@);
            Ok(())
        } else {
            Err(Error::InvalidJsonb)
        }
    }

    /// The builder of the array `value` with its nested containers stripped.
    pub fn strip_nulls_array(header: u32, value: &[u8]) -> (r: Result<ArrayBuilder, Error>)
        ensures
            match container_items(value@, header_len(header)) {
                Err(e) => r == Err::<ArrayBuilder, Error>(e),
                Ok(items) => match strip_items_from(items, 0, Seq::empty(), value@.len()) {
                    Err(e) => r == Err::<ArrayBuilder, Error>(e),
                    Ok(out) => r is Ok && r->Ok_0@ == out && r->Ok_0.wf(),
                },
            },
        decreases value@.len(), 1nat,
    {
        let items = iterate_array(value, header)?;
        let ghost raw = items_view(items@);
        let ghost bound = value@.len();
        let mut builder = ArrayBuilder::new(items.len());
        let mut i: usize = 0;
        while i < items.len()
            invariant
                i <= items@.len(),
                raw == items_view(items@),
                items_wf(raw),
                items_shorter(raw, bound),
                bound == value@.len(),
                container_items(value@, header_len(header)) == Ok::<Seq<RawItem>, Error>(raw),
                builder.wf(),
                strip_items_from(raw, i as nat, builder@, bound) == strip_items_from(
                    raw,
                    0,
                    Seq::empty(),
                    bound,
                ),
            decreases items@.len() - i,
        {
            let item = &items[i];
            assert(raw[i as int] == item@);
            assert(item_wf(raw[i as int]));
            assert(raw[i as int].data.len() < bound);
            if item.jentry.type_code == CONTAINER_TAG {
                let bytes = strip_nulls_nested(item.data, Ghost(bound))?;
                builder.push_raw(JEntry::make_container_jentry(bytes.len()), bytes.as_slice());
            } else {
                builder.push_raw(item.jentry, item.data);
            }
            i = i + 1;
        }
        Ok(builder)
    }

    /// The builder of the object `value` without its null members and with
    /// its nested containers stripped.
    pub fn strip_nulls_object(header: u32, value: &[u8]) -> (r: Result<ObjectBuilder, Error>)
        ensures
            match object_entries(value@, header_len(header)) {
                Err(e) => r == Err::<ObjectBuilder, Error>(e),
                Ok(es) => match strip_entries_from(es, 0, Seq::empty(), value@.len()) {
                    Err(e) => r == Err::<ObjectBuilder, Error>(e),
                    Ok(out) => r is Ok && r->Ok_0@ == build_entries(out) && r->Ok_0.wf(),
                },
            },
        decreases value@.len(), 1nat,
    {
        let entries = iterate_object_entries(value, header)?;
        let ghost es = entries_view(entries@);
        let ghost bound = value@.len();
        let ghost mut acc: Seq<RawEntry> = Seq::empty();
        let mut builder = ObjectBuilder::new();
        let mut i: usize = 0;
        while i < entries.len()
            invariant
                i <= entries@.len(),
                es == entries_view(entries@),
                entries_wf(es),
                entries_shorter(es, bound),
                bound == value@.len(),
                object_entries(value@, header_len(header)) == Ok::<Seq<RawEntry>, Error>(es),
                builder.wf(),
                builder@ == build_entries(acc),
                strip_entries_from(es, i as nat, acc, bound) == strip_entries_from(
                    es,
                    0,
                    Seq::empty(),
                    bound,
                ),
            decreases entries@.len() - i,
        {
            let e = &entries[i];
            assert(es[i as int] == e@);
            assert(entry_wf(es[i as int]));
            assert(es[i as int].data.len() < bound);
            if e.jentry.type_code == CONTAINER_TAG {
                let bytes = strip_nulls_nested(e.data, Ghost(bound))?;
                let jentry = JEntry::make_container_jentry(bytes.len());
                builder.push_raw(e.key, jentry, bytes.as_slice());
                proof {
                    let pushed = RawEntry { key: e.key@, jentry, data: bytes@ };
                    assert(acc.push(pushed).drop_last() =~= acc);
                    acc = acc.push(pushed);
                }
            } else if e.jentry.type_code == NULL_TAG {
            } else {
                builder.push_raw(e.key, e.jentry, e.data);
                proof {
                    assert(acc.push(e@).drop_last() =~= acc);
                    acc = acc.push(e@);
                }
            }
            i = i + 1;
        }
        Ok(builder)
    }
}

} // verus!
