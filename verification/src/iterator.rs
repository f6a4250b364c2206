//! The elements of a container, as its JEntry table and payload region lay
//! them out.

use vstd::prelude::*;
use vstd::slice::{slice_subrange, slice_to_vec};
use crate::error::Error;
use crate::codec::{
    JEntry, word_at, read_u32, read_word, valid_jentry_word, is_valid_jentry_word, header_len,
    header_tag, decode_header, be_bytes, put_u32, lemma_word_of_be_bytes,
};
use crate::constants::{
    STRING_TAG, CONTAINER_TAG, CONTAINER_HEADER_LEN_MASK, JENTRY_OFF_LEN_MASK, ARRAY_CONTAINER_TAG,
    OBJECT_CONTAINER_TAG, SCALAR_CONTAINER_TAG,
};

verus! {

/// One element of a container: its JEntry and its payload.
pub struct RawItem {
    pub jentry: JEntry,
    pub data: Seq<u8>,
}

/// One member of an object: its key, and the JEntry and payload of its value.
pub struct RawEntry {
    pub key: Seq<u8>,
    pub jentry: JEntry,
    pub data: Seq<u8>,
}

/// An element of a container, borrowed from the container's bytes.
#[derive(Debug, Clone, Copy)]
pub struct Item<'a> {
    pub jentry: JEntry,
    pub data: &'a [u8],
}

/// A member of an object, borrowed from the object's bytes.
#[derive(Debug, Clone, Copy)]
pub struct Entry<'a> {
    pub key: &'a [u8],
    pub jentry: JEntry,
    pub data: &'a [u8],
}

impl<'a> View for Item<'a> {
    type V = RawItem;

    open spec fn view(&self) -> RawItem {
        RawItem { jentry: self.jentry, data: self.data@ }
    }
}

impl<'a> View for Entry<'a> {
    type V = RawEntry;

    open spec fn view(&self) -> RawEntry {
        RawEntry { key: self.key@, jentry: self.jentry, data: self.data@ }
    }
}

/// The elements that a vector of borrowed elements stands for.
pub open spec fn items_view(v: Seq<Item>) -> Seq<RawItem> {
    v.map_values(|it: Item| it@)
}

/// The members that a vector of borrowed members stands for.
pub open spec fn entries_view(v: Seq<Entry>) -> Seq<RawEntry> {
    v.map_values(|e: Entry| e@)
}

/// The slot of a member's value.
pub open spec fn value_item(e: RawEntry) -> RawItem {
    RawItem { jentry: e.jentry, data: e.data }
}

/// An element whose JEntry is well formed and gives the length of its payload.
pub open spec fn item_wf(item: RawItem) -> bool {
    item.jentry.wf() && item.jentry.length == item.data.len()
}

/// A member whose key fits a JEntry and whose value is well formed.
pub open spec fn entry_wf(e: RawEntry) -> bool {
    e.key.len() <= JENTRY_OFF_LEN_MASK && item_wf(value_item(e))
}

/// Elements that are all well formed.
pub open spec fn items_wf(items: Seq<RawItem>) -> bool {
    forall|i: int| 0 <= i < items.len() ==> item_wf(#[trigger] items[i])
}

/// Members that are all well formed.
pub open spec fn entries_wf(entries: Seq<RawEntry>) -> bool {
    forall|i: int| 0 <= i < entries.len() ==> entry_wf(#[trigger] entries[i])
}

/// Elements that are all shorter than `len`.
pub open spec fn items_shorter(items: Seq<RawItem>, len: nat) -> bool {
    forall|i: int| 0 <= i < items.len() ==> (#[trigger] items[i]).data.len() < len
}

/// Members whose values are all shorter than `len`.
pub open spec fn entries_shorter(entries: Seq<RawEntry>, len: nat) -> bool {
    forall|i: int| 0 <= i < entries.len() ==> (#[trigger] entries[i]).data.len() < len
}

/// Where the JEntry table of a container with `count` slots ends and its
/// payload region starts.
pub open spec fn table_end(count: nat) -> int {
    4 + 4 * (count as int)
}

/// The first `k` slots of a container with `count` slots, and the position
/// where the payload of the next slot starts.
///
/// Slots are taken in order. The first slot whose JEntry word is not
/// accepted gives `InvalidJsonbJEntry`; the first whose payload ends after
/// the end of `s` gives `InvalidEOF`.
pub open spec fn items_upto(s: Seq<u8>, count: nat, k: nat) -> Result<(Seq<RawItem>, int), Error>
    decreases k,
{
    if k == 0 {
        Ok((Seq::empty(), table_end(count)))
    } else {
        match items_upto(s, count, (k - 1) as nat) {
            Err(e) => Err(e),
            Ok((items, start)) => {
                let w = word_at(s, 4 + 4 * (k - 1));
                let jentry = JEntry::decode_spec(w);
                if !valid_jentry_word(w) {
                    Err(Error::InvalidJsonbJEntry)
                } else if start + jentry.length > s.len() {
                    Err(Error::InvalidEOF)
                } else {
                    Ok(
                        (
                            items.push(
                                RawItem { jentry, data: s.subrange(start, start + jentry.length) },
                            ),
                            start + jentry.length,
                        ),
                    )
                }
            },
        }
    }
}

/// The slots of a container with `count` slots; `InvalidEOF` where the JEntry
/// table itself does not fit.
pub open spec fn container_items(s: Seq<u8>, count: nat) -> Result<Seq<RawItem>, Error> {
    if table_end(count) > s.len() {
        Err(Error::InvalidEOF)
    } else {
        match items_upto(s, count, count) {
            Ok((items, _)) => Ok(items),
            Err(e) => Err(e),
        }
    }
}

/// Whether the first `n` of `items` are all strings.
pub open spec fn keys_are_strings(items: Seq<RawItem>, n: nat) -> bool {
    forall|i: int| 0 <= i < n ==> (#[trigger] items[i]).jentry.type_code == STRING_TAG
}

/// The members of an object with `n` members: its `2 n` slots paired up, the
/// first `n` being the keys. A key slot that is not a string gives
/// `InvalidJsonbJEntry`.
pub open spec fn object_entries(s: Seq<u8>, n: nat) -> Result<Seq<RawEntry>, Error> {
    match container_items(s, 2 * n) {
        Err(e) => Err(e),
        Ok(items) => if keys_are_strings(items, n) {
            Ok(
                Seq::new(
                    n,
                    |i: int|
                        RawEntry {
                            key: items[i].data,
                            jentry: items[n + i].jentry,
                            data: items[n + i].data,
                        },
                ),
            )
        } else {
            Err(Error::InvalidJsonbJEntry)
        },
    }
}

/// The keys of an object with `n` members, in stored order.
pub open spec fn object_keys_of(s: Seq<u8>, n: nat) -> Result<Seq<Seq<u8>>, Error> {
    match object_entries(s, n) {
        Err(e) => Err(e),
        Ok(entries) => Ok(entries.map_values(|e: RawEntry| e.key)),
    }
}

/// Each element is described by its JEntry, and lies in the payload region.
pub open spec fn items_fit(s: Seq<u8>, count: nat, items: Seq<RawItem>) -> bool {
    forall|i: int|
        0 <= i < items.len() ==> {
            &&& (#[trigger] items[i]).jentry.wf()
            &&& items[i].jentry.length == items[i].data.len()
            &&& items[i].data.len() + table_end(count) <= s.len()
        }
}

/// What holds of the slots that were taken without failure.
pub proof fn lemma_items_upto(s: Seq<u8>, count: nat, k: nat)
    ensures
        match items_upto(s, count, k) {
            Ok((items, start)) => {
                &&& items.len() == k
                &&& table_end(count) <= start
                &&& k > 0 ==> start <= s.len()
                &&& forall|i: int|
                    0 <= i < k ==> {
                        &&& (#[trigger] items[i]).jentry.wf()
                        &&& items[i].jentry.length == items[i].data.len()
                        &&& items[i].data.len() + table_end(count) <= start
                    }
            },
            Err(_) => true,
        },
    decreases k,
{
    if k > 0 {
        lemma_items_upto(s, count, (k - 1) as nat);
        match items_upto(s, count, (k - 1) as nat) {
            Ok((items, start)) => {
                let w = word_at(s, 4 + 4 * (k - 1));
                if valid_jentry_word(w) {
                    JEntry::lemma_decode_valid(w);
                }
            },
            Err(_) => {},
        }
    }
}

/// The elements of a container are described by their JEntries and are
/// shorter than the container.
pub proof fn lemma_container_items(s: Seq<u8>, count: nat)
    ensures
        match container_items(s, count) {
            Ok(items) => items.len() == count && items_fit(s, count, items),
            Err(_) => true,
        },
{
    lemma_items_upto(s, count, count);
}

/// The members of an object are described by their JEntries and are shorter
/// than the object.
pub proof fn lemma_object_entries(s: Seq<u8>, n: nat)
    ensures
        match object_entries(s, n) {
            Ok(entries) => {
                &&& entries.len() == n
                &&& forall|i: int|
                    0 <= i < n ==> {
                        &&& (#[trigger] entries[i]).jentry.wf()
                        &&& entries[i].jentry.length == entries[i].data.len()
                        &&& entries[i].data.len() + table_end(2 * n) <= s.len()
                        &&& entries[i].key.len() <= JENTRY_OFF_LEN_MASK
                    }
            },
            Err(_) => true,
        },
{
    lemma_container_items(s, 2 * n);
    match container_items(s, 2 * n) {
        Ok(items) => {
            if keys_are_strings(items, n) {
                let entries = object_entries(s, n)->Ok_0;
                assert forall|i: int| 0 <= i < n implies {
                    &&& (#[trigger] entries[i]).jentry.wf()
                    &&& entries[i].jentry.length == entries[i].data.len()
                    &&& entries[i].data.len() + table_end(2 * n) <= s.len()
                    &&& entries[i].key.len() <= JENTRY_OFF_LEN_MASK
                } by {
                    assert(items[n + i].jentry.wf());
                    assert(items[i].jentry.wf());
                }
            }
        },
        Err(_) => {},
    }
}

/// A failure at one slot is the failure of every longer run of slots.
pub proof fn lemma_items_error_persists(s: Seq<u8>, count: nat, k: nat, m: nat)
    requires
        k <= m,
        items_upto(s, count, k) is Err,
    ensures
        items_upto(s, count, m) == items_upto(s, count, k),
    decreases m,
{
    if k < m {
        lemma_items_error_persists(s, count, k, (m - 1) as nat);
    }
}

/// Reads the `count` slots of a container.
pub fn scan_items<'a>(value: &'a [u8], count: usize) -> (r: Result<Vec<Item<'a>>, Error>)
    requires
        count <= 2 * CONTAINER_HEADER_LEN_MASK,
    ensures
        match container_items(value@, count as nat) {
            Ok(items) => r is Ok && items_view(r->Ok_0@) == items,
            Err(e) => r == Err::<Vec<Item<'a>>, Error>(e),
        },
        r is Ok ==> r->Ok_0@.len() == count && items_wf(items_view(r->Ok_0@)) && items_shorter(
            items_view(r->Ok_0@),
            value@.len(),
        ),
{
    proof {
        lemma_container_items(value@, count as nat);
    }
    let end: u64 = 4 + 4 * (count as u64);
    if end > value.len() as u64 {
        return Err(Error::InvalidEOF);
    }
    let mut start: usize = end as usize;
    let mut items: Vec<Item<'a>> = Vec::new();
    let mut i: usize = 0;
    proof {
        assert(items_view(items@) =~= Seq::<RawItem>::empty());
    }
    while i < count
        invariant
            i <= count,
            count <= 2 * CONTAINER_HEADER_LEN_MASK,
            table_end(count as nat) <= value@.len(),
            table_end(count as nat) <= start <= value@.len(),
            items_upto(value@, count as nat, i as nat) == Ok::<(Seq<RawItem>, int), Error>(
                (items_view(items@), start as int),
            ),
        decreases count - i,
    {
        let w = match read_u32(value, 4 + 4 * i) {
            Ok(w) => w,
            Err(e) => {
                return Err(e);
            },
        };
        if !is_valid_jentry_word(w) {
            proof {
                lemma_items_error_persists(value@, count as nat, (i + 1) as nat, count as nat);
            }
            return Err(Error::InvalidJsonbJEntry);
        }
        let jentry = JEntry::decode_jentry(w);
        let length = jentry.length as usize;
        if length > value.len() - start {
            proof {
                lemma_items_error_persists(value@, count as nat, (i + 1) as nat, count as nat);
            }
            return Err(Error::InvalidEOF);
        }
        let data = slice_subrange(value, start, start + length);
        proof {
            assert(items_view(items@.push(Item { jentry, data })) =~= items_view(items@).push(
                RawItem { jentry, data: data@ },
            ));
        }
        items.push(Item { jentry, data });
        start = start + length;
        i = i + 1;
    }
    Ok(items)
}

/// The elements of the array `value`, whose header word is `header`.
pub fn iterate_array<'a>(value: &'a [u8], header: u32) -> (r: Result<Vec<Item<'a>>, Error>)
    ensures
        match container_items(value@, header_len(header)) {
            Ok(items) => r is Ok && items_view(r->Ok_0@) == items,
            Err(e) => r == Err::<Vec<Item<'a>>, Error>(e),
        },
        r is Ok ==> r->Ok_0@.len() == header_len(header) && items_wf(items_view(r->Ok_0@))
            && items_shorter(items_view(r->Ok_0@), value@.len()),
{
    let (_, length) = decode_header(header);
    scan_items(value, length)
}

/// The members of the object `value`, whose header word is `header`, in
/// stored order.
pub fn iterate_object_entries<'a>(value: &'a [u8], header: u32) -> (r: Result<
    Vec<Entry<'a>>,
    Error,
>)
    ensures
        match object_entries(value@, header_len(header)) {
            Ok(entries) => r is Ok && entries_view(r->Ok_0@) == entries,
            Err(e) => r == Err::<Vec<Entry<'a>>, Error>(e),
        },
        r is Ok ==> r->Ok_0@.len() == header_len(header) && entries_wf(entries_view(r->Ok_0@))
            && entries_shorter(entries_view(r->Ok_0@), value@.len()),
{
    proof {
        lemma_object_entries(value@, header_len(header));
    }
    let (_, length) = decode_header(header);
    let items = match scan_items(value, 2 * length) {
        Ok(items) => items,
        Err(e) => {
            return Err(e);
        },
    };
    proof {
        lemma_container_items(value@, 2 * (length as nat));
    }
    let ghost raw = items_view(items@);
    let mut entries: Vec<Entry<'a>> = Vec::new();
    let mut i: usize = 0;
    while i < length
        invariant
            i <= length,
            length <= CONTAINER_HEADER_LEN_MASK,
            items@.len() == 2 * length,
            raw == items_view(items@),
            container_items(value@, 2 * (length as nat)) == Ok::<Seq<RawItem>, Error>(raw),
            length == header_len(header),
            entries@.len() == i,
            forall|j: int| 0 <= j < i ==> (#[trigger] raw[j]).jentry.type_code == STRING_TAG,
            forall|j: int|
                0 <= j < i ==> (#[trigger] entries@[j])@ == (RawEntry {
                    key: raw[j].data,
                    jentry: raw[length + j].jentry,
                    data: raw[length + j].data,
                }),
        decreases length - i,
    {
        let key = items[i];
        let val = items[length + i];
        assert(raw[i as int] == key@);
        assert(raw[length + i] == val@);
        if key.jentry.type_code != STRING_TAG {
            assert(!keys_are_strings(raw, length as nat));
            return Err(Error::InvalidJsonbJEntry);
        }
        entries.push(Entry { key: key.data, jentry: val.jentry, data: val.data });
        i = i + 1;
    }
    proof {
        assert(keys_are_strings(raw, length as nat));
        assert(entries_view(entries@) =~= object_entries(value@, length as nat)->Ok_0);
    }
    Ok(entries)
}

/// The keys of the object `value`, whose header word is `header`, in stored
/// order.
pub fn iterate_object_keys<'a>(value: &'a [u8], header: u32) -> (r: Result<Vec<&'a [u8]>, Error>)
    ensures
        match object_keys_of(value@, header_len(header)) {
            Ok(keys) => r is Ok && r->Ok_0@.map_values(|k: &[u8]| k@) == keys,
            Err(e) => r == Err::<Vec<&'a [u8]>, Error>(e),
        },
{
    let entries = match iterate_object_entries(value, header) {
        Ok(entries) => entries,
        Err(e) => {
            return Err(e);
        },
    };
    let mut keys: Vec<&'a [u8]> = Vec::new();
    let mut i: usize = 0;
    while i < entries.len()
        invariant
            i <= entries@.len(),
            keys@.len() == i,
            forall|j: int| 0 <= j < i ==> (#[trigger] keys@[j])@ == entries@[j].key@,
        decreases entries@.len() - i,
    {
        keys.push(entries[i].key);
        i = i + 1;
    }
    proof {
        assert(keys@.map_values(|k: &[u8]| k@) =~= entries_view(entries@).map_values(
            |e: RawEntry| e.key,
        ));
    }
    Ok(keys)
}

/// Whether `tag` is one of the three container tags.
pub open spec fn is_container_tag(tag: u32) -> bool {
    tag == ARRAY_CONTAINER_TAG || tag == OBJECT_CONTAINER_TAG || tag == SCALAR_CONTAINER_TAG
}

/// The one element of a scalar container.
pub open spec fn scalar_item(s: Seq<u8>) -> Result<RawItem, Error> {
    match container_items(s, 1) {
        Ok(items) => Ok(items[0]),
        Err(e) => Err(e),
    }
}

/// A value as one element of an array: an array or an object as a nested
/// container, a scalar by its JEntry and payload.
///
/// A header that does not fit gives `InvalidEOF`, a tag that is none of the
/// three `InvalidJsonb`, and an array or object too long for a JEntry
/// `InvalidJsonbJEntry`.
pub open spec fn element_of(s: Seq<u8>) -> Result<RawItem, Error> {
    match read_word(s, 0) {
        Err(e) => Err(e),
        Ok(h) => if header_tag(h) == SCALAR_CONTAINER_TAG {
            scalar_item(s)
        } else if header_tag(h) == ARRAY_CONTAINER_TAG || header_tag(h) == OBJECT_CONTAINER_TAG {
            if s.len() > JENTRY_OFF_LEN_MASK {
                Err(Error::InvalidJsonbJEntry)
            } else {
                Ok(RawItem { jentry: JEntry { type_code: CONTAINER_TAG, length: s.len() as u32 }, data: s })
            }
        } else {
            Err(Error::InvalidJsonb)
        },
    }
}

/// A value as a run of elements: the elements of an array, or the one
/// element that another value is.
pub open spec fn elements_of(s: Seq<u8>) -> Result<Seq<RawItem>, Error> {
    match read_word(s, 0) {
        Err(e) => Err(e),
        Ok(h) => if header_tag(h) == ARRAY_CONTAINER_TAG {
            container_items(s, header_len(h))
        } else {
            match element_of(s) {
                Ok(item) => Ok(seq![item]),
                Err(e) => Err(e),
            }
        },
    }
}

/// An element as a value of its own: a nested container as it is, a scalar
/// in a scalar container.
pub open spec fn extract(item: RawItem) -> Seq<u8> {
    if item.jentry.type_code == CONTAINER_TAG {
        item.data
    } else {
        be_bytes(SCALAR_CONTAINER_TAG) + be_bytes(item.jentry.encoded_spec()) + item.data
    }
}

/// The one element of the scalar container `value`.
pub fn read_scalar<'a>(value: &'a [u8]) -> (r: Result<Item<'a>, Error>)
    ensures
        match scalar_item(value@) {
            Ok(item) => r is Ok && r->Ok_0@ == item,
            Err(e) => r == Err::<Item<'a>, Error>(e),
        },
        r is Ok ==> item_wf(r->Ok_0@) && r->Ok_0@.data.len() < value@.len(),
{
    match scan_items(value, 1) {
        Ok(items) => {
            proof {
                lemma_container_items(value@, 1);
                assert(items_view(items@)[0] == items@[0]@);
            }
            Ok(items[0])
        },
        Err(e) => Err(e),
    }
}

/// The value as one element of an array.
pub fn as_element<'a>(value: &'a [u8]) -> (r: Result<Item<'a>, Error>)
    ensures
        match element_of(value@) {
            Ok(item) => r is Ok && r->Ok_0@ == item,
            Err(e) => r == Err::<Item<'a>, Error>(e),
        },
        r is Ok ==> item_wf(r->Ok_0@),
{
    let header = match read_u32(value, 0) {
        Ok(h) => h,
        Err(e) => {
            return Err(e);
        },
    };
    let (tag, _) = decode_header(header);
    if tag == SCALAR_CONTAINER_TAG {
        read_scalar(value)
    } else if tag == ARRAY_CONTAINER_TAG || tag == OBJECT_CONTAINER_TAG {
        if value.len() > JENTRY_OFF_LEN_MASK as usize {
            Err(Error::InvalidJsonbJEntry)
        } else {
            Ok(Item { jentry: JEntry::make_container_jentry(value.len()), data: value })
        }
    } else {
        Err(Error::InvalidJsonb)
    }
}

/// The value as a run of elements.
pub fn as_elements<'a>(value: &'a [u8]) -> (r: Result<Vec<Item<'a>>, Error>)
    ensures
        match elements_of(value@) {
            Ok(items) => r is Ok && items_view(r->Ok_0@) == items,
            Err(e) => r == Err::<Vec<Item<'a>>, Error>(e),
        },
        r is Ok ==> items_wf(items_view(r->Ok_0@)),
{
    let header = match read_u32(value, 0) {
        Ok(h) => h,
        Err(e) => {
            return Err(e);
        },
    };
    let (tag, _) = decode_header(header);
    if tag == ARRAY_CONTAINER_TAG {
        iterate_array(value, header)
    } else {
        match as_element(value) {
            Ok(item) => {
                let mut items: Vec<Item<'a>> = Vec::new();
                items.push(item);
                proof {
                    assert(items_view(items@) =~= seq![item@]);
                }
                Ok(items)
            },
            Err(e) => Err(e),
        }
    }
}

/// The element as a value of its own.
pub fn extract_by_jentry(item: &Item) -> (r: Vec<u8>)
    ensures
        r@ == extract(item@),
{
    if item.jentry.type_code == CONTAINER_TAG {
        slice_to_vec(item.data)
    } else {
        let mut buf: Vec<u8> = Vec::new();
        put_u32(&mut buf, SCALAR_CONTAINER_TAG);
        put_u32(&mut buf, item.jentry.encoded());
        buf.extend_from_slice(item.data);
        proof {
            assert(buf@ =~= extract(item@));
        }
        buf
    }
}

/// What a value of its own made from an element gives back as an element.
pub proof fn lemma_element_of_extract(item: RawItem)
    requires
        item.jentry.wf(),
        item.jentry.length == item.data.len(),
        item.jentry.type_code != CONTAINER_TAG,
    ensures
        element_of(extract(item)) == Ok::<RawItem, Error>(item),
{
    let s = extract(item);
    let w = item.jentry.encoded_spec();
    lemma_word_of_be_bytes(SCALAR_CONTAINER_TAG);
    lemma_word_of_be_bytes(w);
    item.jentry.lemma_encode_wf();
    assert(s.subrange(0, 4) =~= be_bytes(SCALAR_CONTAINER_TAG));
    assert(s.subrange(4, 8) =~= be_bytes(w));
    assert(word_at(s, 0) == word_at(be_bytes(SCALAR_CONTAINER_TAG), 0)) by {
        assert(s[0] == be_bytes(SCALAR_CONTAINER_TAG)[0] && s[1] == be_bytes(SCALAR_CONTAINER_TAG)[1]
            && s[2] == be_bytes(SCALAR_CONTAINER_TAG)[2] && s[3] == be_bytes(
            SCALAR_CONTAINER_TAG,
        )[3]);
    }
    assert(word_at(s, 4) == word_at(be_bytes(w), 0)) by {
        assert(s[4] == be_bytes(w)[0] && s[5] == be_bytes(w)[1] && s[6] == be_bytes(w)[2] && s[7]
            == be_bytes(w)[3]);
    }
    assert(0x20000000u32 & 0xE0000000 == 0x20000000u32) by (bit_vector);
    assert(items_upto(s, 1, 0) == Ok::<(Seq<RawItem>, int), Error>((Seq::empty(), 8int)));
    assert(s.subrange(8, 8 + item.data.len() as int) =~= item.data);
    assert(Seq::<RawItem>::empty().push(item)[0] == item);
}

} // verus!
