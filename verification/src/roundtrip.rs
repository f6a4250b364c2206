//! What is written is what is read back.

use vstd::prelude::*;
use crate::error::Error;
use crate::codec::{
    JEntry, be_bytes, word_at, read_word, header_tag, header_len, lemma_word_of_be_bytes,
    lemma_header_round_trip,
};
use crate::constants::{
    ARRAY_CONTAINER_TAG, OBJECT_CONTAINER_TAG, CONTAINER_HEADER_LEN_MASK, STRING_TAG,
};
use crate::iterator::{
    RawItem, RawEntry, container_items, object_entries, items_upto, table_end, items_wf, item_wf,
    entries_wf, entry_wf, value_item, keys_are_strings,
};
use crate::builder::{
    table_bytes, payload_bytes, encode_container, encode_array, encode_object, entry_slots, key_item,
    lemma_table_bytes_len, build_entries, sorted_keys, insert_entry, lemma_build_entries_sorted,
};
use crate::iterator::{element_of, lemma_object_entries, lemma_container_items};
use crate::mutate::{object_insert_spec, object_members, has_key};
use crate::bytes::{Order, lex_order};

verus! {

/// The JEntry word of the slot at position `i` stands at its place in the
/// table.
pub proof fn lemma_table_word(items: Seq<RawItem>, i: int)
    requires
        0 <= i < items.len(),
    ensures
        table_bytes(items).len() == 4 * items.len(),
        table_bytes(items).subrange(4 * i, 4 * i + 4) == be_bytes(items[i].jentry.encoded_spec()),
    decreases items.len(),
{
    lemma_table_bytes_len(items);
    let front = items.drop_last();
    lemma_table_bytes_len(front);
    if i < items.len() - 1 {
        lemma_table_word(front, i);
        assert(table_bytes(items).subrange(4 * i, 4 * i + 4) =~= table_bytes(front).subrange(
            4 * i,
            4 * i + 4,
        ));
        assert(front[i] == items[i]);
    } else {
        assert(table_bytes(items).subrange(4 * i, 4 * i + 4) =~= be_bytes(
            items.last().jentry.encoded_spec(),
        ));
    }
}

/// The payloads of the first `k` slots are the front of the payloads of
/// them all.
pub proof fn lemma_payload_prefix(items: Seq<RawItem>, k: int)
    requires
        0 <= k <= items.len(),
    ensures
        payload_bytes(items.take(k)).len() <= payload_bytes(items).len(),
        payload_bytes(items).subrange(0, payload_bytes(items.take(k)).len() as int) == payload_bytes(
            items.take(k),
        ),
    decreases items.len() - k,
{
    if k == items.len() {
        assert(items.take(k) =~= items);
        assert(payload_bytes(items).subrange(0, payload_bytes(items).len() as int) =~= payload_bytes(
            items,
        ));
    } else {
        lemma_payload_prefix(items, k + 1);
        assert(items.take(k + 1).drop_last() =~= items.take(k));
        let longer = payload_bytes(items.take(k + 1));
        let shorter = payload_bytes(items.take(k));
        assert(longer == shorter + items.take(k + 1).last().data);
        assert(payload_bytes(items).subrange(0, shorter.len() as int) =~= shorter) by {
            assert(payload_bytes(items).subrange(0, longer.len() as int) == longer);
            assert forall|j: int| 0 <= j < shorter.len() implies payload_bytes(items)[j]
                == shorter[j] by {
                assert(payload_bytes(items).subrange(0, longer.len() as int)[j] == longer[j]);
            }
        }
    }
}

/// The payload of the slot at position `i` stands behind the payloads of
/// the slots before it.
pub proof fn lemma_payload_at(items: Seq<RawItem>, i: int)
    requires
        0 <= i < items.len(),
    ensures
        payload_bytes(items.take(i)).len() + items[i].data.len() <= payload_bytes(items).len(),
        payload_bytes(items).subrange(
            payload_bytes(items.take(i)).len() as int,
            payload_bytes(items.take(i)).len() + items[i].data.len() as int,
        ) == items[i].data,
{
    lemma_payload_prefix(items, i + 1);
    assert(items.take(i + 1).drop_last() =~= items.take(i));
    assert(items.take(i + 1).last() == items[i]);
    let start = payload_bytes(items.take(i)).len() as int;
    let longer = payload_bytes(items.take(i + 1));
    assert(longer == payload_bytes(items.take(i)) + items[i].data);
    assert(payload_bytes(items).subrange(start, start + items[i].data.len()) =~= items[i].data) by {
        assert forall|j: int| 0 <= j < items[i].data.len() implies payload_bytes(items)[start + j]
            == items[i].data[j] by {
            assert(payload_bytes(items).subrange(0, longer.len() as int)[start + j] == longer[start
                + j]);
        }
    }
}

/// The first `k` slots of a written container are read back as they were
/// written.
pub proof fn lemma_slots_read_back(header: u32, slots: Seq<RawItem>, k: nat)
    requires
        items_wf(slots),
        k <= slots.len(),
    ensures
        items_upto(encode_container(header, slots), slots.len(), k) == Ok::<
            (Seq<RawItem>, int),
            Error,
        >((slots.take(k as int), table_end(slots.len()) + payload_bytes(slots.take(k as int)).len())),
    decreases k,
{
    let s = encode_container(header, slots);
    let n = slots.len();
    lemma_table_bytes_len(slots);
    if k == 0 {
        assert(slots.take(0) =~= Seq::<RawItem>::empty());
    } else {
        let i = (k - 1) as int;
        lemma_slots_read_back(header, slots, (k - 1) as nat);
        lemma_table_word(slots, i);
        lemma_payload_at(slots, i);
        let w = slots[i].jentry.encoded_spec();
        assert(item_wf(slots[i]));
        slots[i].jentry.lemma_encode_wf();
        lemma_word_of_be_bytes(w);
        let table = table_bytes(slots);
        assert(word_at(s, 4 + 4 * i) == word_at(be_bytes(w), 0)) by {
            let b = table.subrange(4 * i, 4 * i + 4);
            assert(b[0] == table[4 * i] && b[1] == table[4 * i + 1] && b[2] == table[4 * i + 2]
                && b[3] == table[4 * i + 3]);
            assert(s[4 + 4 * i] == table[4 * i]);
            assert(s[4 + 4 * i + 1] == table[4 * i + 1]);
            assert(s[4 + 4 * i + 2] == table[4 * i + 2]);
            assert(s[4 + 4 * i + 3] == table[4 * i + 3]);
        }
        let start = table_end(n) + payload_bytes(slots.take(i)).len();
        let len = slots[i].data.len() as int;
        assert(s.subrange(start, start + len) =~= slots[i].data) by {
            let p = payload_bytes(slots);
            let off = payload_bytes(slots.take(i)).len() as int;
            assert forall|j: int| 0 <= j < len implies s[start + j] == slots[i].data[j] by {
                assert(s[start + j] == p[off + j]);
                assert(p.subrange(off, off + len)[j] == p[off + j]);
            }
        }
        assert(slots.take(k as int) =~= slots.take(i).push(slots[i]));
        assert(slots.take(k as int).drop_last() =~= slots.take(i));
        assert(slots.take(k as int).last() == slots[i]);
    }
}

/// An array that is written is read back with the elements that were
/// written: its header gives the array tag and the number of elements, and
/// its slots are the elements.
pub proof fn lemma_array_round_trip(items: Seq<RawItem>)
    requires
        items_wf(items),
        items.len() <= CONTAINER_HEADER_LEN_MASK,
    ensures
        read_word(encode_array(items), 0) == Ok::<u32, Error>(
            ARRAY_CONTAINER_TAG | (items.len() as u32),
        ),
        header_tag(ARRAY_CONTAINER_TAG | (items.len() as u32)) == ARRAY_CONTAINER_TAG,
        header_len(ARRAY_CONTAINER_TAG | (items.len() as u32)) == items.len(),
        container_items(encode_array(items), items.len()) == Ok::<Seq<RawItem>, Error>(items),
{
    let header = ARRAY_CONTAINER_TAG | (items.len() as u32);
    let s = encode_array(items);
    lemma_header_round_trip(ARRAY_CONTAINER_TAG, items.len() as u32);
    lemma_header_word(header, items);
    lemma_slots_read_back(header, items, items.len());
    lemma_table_bytes_len(items);
    assert(items.take(items.len() as int) =~= items);
}

/// The header word of a written container is read back.
pub proof fn lemma_header_word(header: u32, slots: Seq<RawItem>)
    ensures
        read_word(encode_container(header, slots), 0) == Ok::<u32, Error>(header),
{
    let s = encode_container(header, slots);
    lemma_word_of_be_bytes(header);
    let b = be_bytes(header);
    assert(s[0] == b[0] && s[1] == b[1] && s[2] == b[2] && s[3] == b[3]);
}

/// An object that is written is read back with the members that were
/// written.
pub proof fn lemma_object_round_trip(entries: Seq<RawEntry>)
    requires
        entries_wf(entries),
        entries.len() <= CONTAINER_HEADER_LEN_MASK,
    ensures
        read_word(encode_object(entries), 0) == Ok::<u32, Error>(
            OBJECT_CONTAINER_TAG | (entries.len() as u32),
        ),
        header_tag(OBJECT_CONTAINER_TAG | (entries.len() as u32)) == OBJECT_CONTAINER_TAG,
        header_len(OBJECT_CONTAINER_TAG | (entries.len() as u32)) == entries.len(),
        object_entries(encode_object(entries), entries.len()) == Ok::<Seq<RawEntry>, Error>(entries),
{
    let n = entries.len();
    let header = OBJECT_CONTAINER_TAG | (n as u32);
    let slots = entry_slots(entries);
    lemma_header_round_trip(OBJECT_CONTAINER_TAG, n as u32);
    lemma_header_word(header, slots);
    assert forall|i: int| 0 <= i < slots.len() implies item_wf(#[trigger] slots[i]) by {
        if i < n {
            assert(slots[i] == key_item(entries[i].key));
            assert(entry_wf(entries[i]));
        } else {
            assert(slots[i] == value_item(entries[i - n]));
            assert(entry_wf(entries[i - n]));
        }
    }
    lemma_slots_read_back(header, slots, slots.len());
    lemma_table_bytes_len(slots);
    assert(slots.take(slots.len() as int) =~= slots);
    assert(slots.len() == 2 * n);
    assert(container_items(encode_object(entries), 2 * n) == Ok::<Seq<RawItem>, Error>(slots));
    assert(keys_are_strings(slots, n)) by {
        assert forall|i: int| 0 <= i < n implies (#[trigger] slots[i]).jentry.type_code
            == STRING_TAG by {
            assert(slots[i] == key_item(entries[i].key));
        }
    }
    assert(object_entries(encode_object(entries), n)->Ok_0 =~= entries) by {
        let got = object_entries(encode_object(entries), n)->Ok_0;
        assert forall|i: int| 0 <= i < n implies got[i] == entries[i] by {
            assert(slots[i] == key_item(entries[i].key));
            assert(slots[n + i] == value_item(entries[i]));
        }
    }
}

/// The first `k` slots of a written container that is cut short are read
/// back as they were written, as far as they lie in what is left, and give
/// `InvalidEOF` from the first that does not.
pub proof fn lemma_cut_slots(header: u32, slots: Seq<RawItem>, left: int, k: nat)
    requires
        items_wf(slots),
        k <= slots.len(),
        table_end(slots.len()) <= left <= encode_container(header, slots).len(),
    ensures
        ({
            let whole = encode_container(header, slots);
            let end = table_end(slots.len()) + payload_bytes(slots.take(k as int)).len();
            items_upto(whole.take(left), slots.len(), k) == if end <= left {
                items_upto(whole, slots.len(), k)
            } else {
                Err::<(Seq<RawItem>, int), Error>(Error::InvalidEOF)
            }
        }),
    decreases k,
{
    let whole = encode_container(header, slots);
    let part = whole.take(left);
    let n = slots.len();
    lemma_slots_read_back(header, slots, k);
    lemma_table_bytes_len(slots);
    if k > 0 {
        let i = (k - 1) as int;
        lemma_cut_slots(header, slots, left, (k - 1) as nat);
        lemma_slots_read_back(header, slots, (k - 1) as nat);
        assert(slots.take(k as int).drop_last() =~= slots.take(i));
        assert(slots.take(k as int).last() == slots[i]);
        assert(word_at(part, 4 + 4 * i) == word_at(whole, 4 + 4 * i)) by {
            assert(part[4 + 4 * i] == whole[4 + 4 * i]);
            assert(part[4 + 4 * i + 1] == whole[4 + 4 * i + 1]);
            assert(part[4 + 4 * i + 2] == whole[4 + 4 * i + 2]);
            assert(part[4 + 4 * i + 3] == whole[4 + 4 * i + 3]);
        }
        let before = table_end(n) + payload_bytes(slots.take(i)).len();
        let end = table_end(n) + payload_bytes(slots.take(k as int)).len();
        if end <= left {
            assert(part.subrange(before, end) =~= whole.subrange(before, end));
        }
    }
}

/// A written array from which bytes are cut off at its end is refused with
/// `InvalidEOF`.
pub proof fn lemma_cut_array_is_refused(items: Seq<RawItem>, left: int)
    requires
        items_wf(items),
        0 <= left < encode_array(items).len(),
    ensures
        container_items(encode_array(items).take(left), items.len()) == Err::<Seq<RawItem>, Error>(
            Error::InvalidEOF,
        ),
{
    let header = ARRAY_CONTAINER_TAG | (items.len() as u32);
    lemma_table_bytes_len(items);
    if left >= table_end(items.len()) {
        lemma_cut_slots(header, items, left, items.len());
        assert(items.take(items.len() as int) =~= items);
    }
}

/// Members that are well formed are held well formed, sorted by key, and
/// are read back from the object that is written for them.
pub proof fn lemma_built_object(pushes: Seq<RawEntry>)
    requires
        entries_wf(pushes),
        build_entries(pushes).len() <= CONTAINER_HEADER_LEN_MASK,
    ensures
        entries_wf(build_entries(pushes)),
        sorted_keys(build_entries(pushes)),
        object_entries(encode_object(build_entries(pushes)), build_entries(pushes).len()) == Ok::<
            Seq<RawEntry>,
            Error,
        >(build_entries(pushes)),
{
    let held = build_entries(pushes);
    lemma_build_entries_sorted(pushes);
    assert forall|k: int| 0 <= k < held.len() implies entry_wf(#[trigger] held[k]) by {
        assert(pushes.contains(held[k]));
        let m = choose|m: int| 0 <= m < pushes.len() && pushes[m] == held[k];
        assert(entry_wf(pushes[m]));
    }
    lemma_object_round_trip(held);
}

/// The object that `object_insert` writes has its keys in strictly
/// ascending order: read back, its members are the members of the object
/// with the new member, sorted by key.
pub proof fn lemma_object_insert_sorted(s: Seq<u8>, key: Seq<u8>, new_value: Seq<u8>, update: bool)
    requires
        object_insert_spec(s, key, new_value, update) is Ok,
    ensures
        ({
            let out = object_insert_spec(s, key, new_value, update)->Ok_0;
            &&& object_members(out) is Ok
            &&& sorted_keys(object_members(out)->Ok_0)
            &&& has_key(object_members(out)->Ok_0, key)
        }),
{
    let es = object_members(s)->Ok_0;
    let item = element_of(new_value)->Ok_0;
    let h = read_word(s, 0)->Ok_0;
    lemma_object_entries(s, header_len(h));
    lemma_element_wf(new_value);
    let e = RawEntry { key, jentry: item.jentry, data: item.data };
    let pushes = es.push(e);
    assert forall|i: int| 0 <= i < pushes.len() implies entry_wf(#[trigger] pushes[i]) by {
        if i < es.len() {
            assert(pushes[i] == es[i]);
        }
    }
    lemma_built_object(pushes);
    let held = build_entries(pushes);
    lemma_object_round_trip(held);
    assert(pushes.drop_last() =~= es);
    lemma_insert_entry_holds(build_entries(es), e);
}

/// A value as an element is well formed.
pub proof fn lemma_element_wf(s: Seq<u8>)
    ensures
        element_of(s) is Ok ==> item_wf(element_of(s)->Ok_0),
{
    lemma_container_items(s, 1);
    if element_of(s) is Ok {
        let h = read_word(s, 0)->Ok_0;
        if header_tag(h) == crate::constants::SCALAR_CONTAINER_TAG {
            let items = container_items(s, 1)->Ok_0;
            assert(item_wf(items[0]));
        }
    }
}

/// A member that is put in is held.
pub proof fn lemma_insert_entry_holds(es: Seq<RawEntry>, e: RawEntry)
    ensures
        has_key(insert_entry(es, e), e.key),
    decreases es.len(),
{
    let r = insert_entry(es, e);
    if es.len() == 0 {
        assert(r[0].key == e.key);
    } else {
        match lex_order(es.last().key, e.key) {
            Order::Less => {
                assert(r[r.len() - 1].key == e.key);
            },
            Order::Equal => {
                assert(r[r.len() - 1].key == e.key);
            },
            Order::Greater => {
                lemma_insert_entry_holds(es.drop_last(), e);
                let inner = insert_entry(es.drop_last(), e);
                let k = choose|k: int| 0 <= k < inner.len() && (#[trigger] inner[k]).key == e.key;
                assert(r[k].key == e.key);
            },
        }
    }
}

} // verus!
