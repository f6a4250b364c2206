//! What is put into a container is found in it.

use vstd::prelude::*;
use crate::error::Error;
use crate::codec::{read_word, header_tag, header_len};
use crate::constants::{ARRAY_CONTAINER_TAG};
use crate::iterator::{
    RawEntry, element_of, elements_of, extract, items_wf, item_wf, entry_wf, lemma_container_items,
    lemma_object_entries,
};
use crate::bytes::{Order, lex_order};
use crate::builder::{build_entries, insert_entry};
use crate::mutate::{
    array_insert_spec, insert_position, object_insert_spec, object_members,
};
use crate::access::{get_by_index_spec, get_by_name_spec};
use crate::contains_laws::lemma_find_own_key;
use crate::roundtrip::{
    lemma_array_round_trip, lemma_built_object, lemma_object_round_trip, lemma_element_wf,
};

verus! {

/// The elements that a value is seen as are well formed.
pub proof fn lemma_elements_wf(s: Seq<u8>)
    ensures
        elements_of(s) is Ok ==> items_wf(elements_of(s)->Ok_0),
{
    if elements_of(s) is Ok {
        let h = read_word(s, 0)->Ok_0;
        if header_tag(h) == ARRAY_CONTAINER_TAG {
            lemma_container_items(s, header_len(h));
        } else {
            lemma_element_wf(s);
        }
    }
}

/// The element that `array_insert` puts into an array is the element that
/// `get_by_index` finds at the position where it was put.
pub proof fn lemma_array_insert_then_get(s: Seq<u8>, pos: int, new_value: Seq<u8>)
    requires
        array_insert_spec(s, pos, new_value) is Ok,
    ensures
        get_by_index_spec(
            array_insert_spec(s, pos, new_value)->Ok_0,
            insert_position(elements_of(s)->Ok_0.len() as int, pos),
        ) == Ok::<Option<Seq<u8>>, Error>(Some(extract(element_of(new_value)->Ok_0))),
{
    let items = elements_of(s)->Ok_0;
    let item = element_of(new_value)->Ok_0;
    let at = insert_position(items.len() as int, pos);
    let all = items.insert(at, item);
    lemma_elements_wf(s);
    lemma_element_wf(new_value);
    assert forall|i: int| 0 <= i < all.len() implies item_wf(#[trigger] all[i]) by {
        if i < at {
            assert(all[i] == items[i]);
        } else if i > at {
            assert(all[i] == items[i - 1]);
        }
    }
    lemma_array_round_trip(all);
}

/// A member that is put into members is one of them afterwards.
pub proof fn lemma_insert_entry_keeps(es: Seq<RawEntry>, e: RawEntry)
    ensures
        insert_entry(es, e).contains(e),
    decreases es.len(),
{
    let r = insert_entry(es, e);
    if es.len() == 0 {
        assert(r[0] == e);
    } else {
        match lex_order(es.last().key, e.key) {
            Order::Less => {
                assert(r[r.len() - 1] == e);
            },
            Order::Equal => {
                assert(r[r.len() - 1] == e);
            },
            Order::Greater => {
                lemma_insert_entry_keeps(es.drop_last(), e);
                let inner = insert_entry(es.drop_last(), e);
                let k = choose|k: int| 0 <= k < inner.len() && inner[k] == e;
                assert(r[k] == e);
            },
        }
    }
}

/// The value that `object_insert` puts into an object under a key is the
/// value that `get_by_name` finds under that key.
pub proof fn lemma_object_insert_then_get(s: Seq<u8>, key: Seq<u8>, new_value: Seq<u8>, update: bool)
    requires
        object_insert_spec(s, key, new_value, update) is Ok,
    ensures
        get_by_name_spec(object_insert_spec(s, key, new_value, update)->Ok_0, key, false) == Ok::<
            Option<Seq<u8>>,
            Error,
        >(Some(extract(element_of(new_value)->Ok_0))),
{
    let es = object_members(s)->Ok_0;
    let item = element_of(new_value)->Ok_0;
    let h = read_word(s, 0)->Ok_0;
    lemma_object_entries(s, header_len(h));
    lemma_element_wf(new_value);
    let e = RawEntry { key, jentry: item.jentry, data: item.data };
    let pushes = es.push(e);
    assert forall|i: int| 0 <= i < pushes.len() implies entry_wf(#[trigger] pushes[i]) by {
        if i < es.len() {
            assert(pushes[i] == es[i]);
        }
    }
    lemma_built_object(pushes);
    let held = build_entries(pushes);
    lemma_object_round_trip(held);
    assert(pushes.drop_last() =~= es);
    lemma_insert_entry_keeps(build_entries(es), e);
    let j = choose|j: int| 0 <= j < held.len() && held[j] == e;
    lemma_find_own_key(held, j, 0);
}

} // verus!
