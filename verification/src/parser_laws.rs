//! What holds of the values that are read from JSON text.

use vstd::prelude::*;
use crate::error::Error;
use crate::codec::read_word;
use crate::constants::{CONTAINER_TAG, JENTRY_OFF_LEN_MASK, CONTAINER_HEADER_LEN_MASK};
use crate::iterator::{RawItem, RawEntry, item_wf, entry_wf, value_item, extract, items_wf, entries_wf};
use crate::builder::{
    array_result, object_result, nested_item, build_entries, encode_array, encode_object,
    lemma_build_entries_sorted,
};
use crate::parser::{
    value_at, elements_at, members_at, text_to_jsonb, skip_ws, number_at, string_at,
};
use crate::contains_laws::{
    well_formed, nested_well_formed, lemma_array_is_well_formed, lemma_object_is_well_formed,
    lemma_scalar_is_well_formed,
};
use crate::roundtrip::{lemma_array_round_trip, lemma_object_round_trip, lemma_built_object};
use crate::number::{Number, encode_number};

verus! {

/// An element that is well formed, down to what it holds.
pub open spec fn good_item(item: RawItem) -> bool {
    item_wf(item) && nested_well_formed(item)
}

/// A member that is well formed, down to what its value holds.
pub open spec fn good_entry(e: RawEntry) -> bool {
    entry_wf(e) && nested_well_formed(value_item(e))
}

/// The array of good elements is a good element.
pub proof fn lemma_good_array(items: Seq<RawItem>)
    requires
        forall|i: int| 0 <= i < items.len() ==> good_item(#[trigger] items[i]),
        nested_item(array_result(items)) is Ok,
    ensures
        good_item(nested_item(array_result(items))->Ok_0),
{
    lemma_array_round_trip(items);
    lemma_array_is_well_formed(items);
}

/// The object of good members is a good element.
pub proof fn lemma_good_object(pushes: Seq<RawEntry>)
    requires
        forall|i: int| 0 <= i < pushes.len() ==> good_entry(#[trigger] pushes[i]),
        nested_item(object_result(build_entries(pushes))) is Ok,
    ensures
        good_item(nested_item(object_result(build_entries(pushes)))->Ok_0),
{
    let held = build_entries(pushes);
    lemma_built_object(pushes);
    lemma_build_entries_sorted(pushes);
    assert forall|k: int| 0 <= k < held.len() implies nested_well_formed(
        value_item(#[trigger] held[k]),
    ) by {
        assert(pushes.contains(held[k]));
        let m = choose|m: int| 0 <= m < pushes.len() && pushes[m] == held[k];
        assert(good_entry(pushes[m]));
    }
    lemma_object_round_trip(held);
    lemma_object_is_well_formed(held);
}

/// A number has a payload of at most nine bytes.
pub proof fn lemma_number_payload_len(n: Number)
    ensures
        encode_number(n).len() <= 9,
{
}

/// The value that is read at a position is a good element.
pub proof fn lemma_value_at_good(text: Seq<u8>, pos: int)
    requires
        value_at(text, pos) is Ok,
    ensures
        good_item(value_at(text, pos)->Ok_0.0),
    decreases text.len() - pos, 0nat,
{
    if text[pos] == 0x5B {
        let at = skip_ws(text, pos + 1);
        if at < text.len() && text[at] == 0x5D {
            lemma_good_array(Seq::empty());
        } else {
            lemma_elements_at_good(text, at, Seq::empty());
            lemma_good_array(elements_at(text, at, Seq::empty())->Ok_0.0);
        }
    } else if text[pos] == 0x7B {
        let at = skip_ws(text, pos + 1);
        if at < text.len() && text[at] == 0x7D {
            assert(build_entries(Seq::<RawEntry>::empty()) =~= Seq::<RawEntry>::empty());
            lemma_good_object(Seq::empty());
        } else {
            lemma_members_at_good(text, at, Seq::empty());
            lemma_good_object(members_at(text, at, Seq::empty())->Ok_0.0);
        }
    } else if text[pos] == 0x2D || crate::parser::is_digit(text[pos]) {
        lemma_number_payload_len(number_at(text, pos)->Ok_0.0);
    } else {
    }
}

/// The elements that are read from a position on are good elements.
pub proof fn lemma_elements_at_good(text: Seq<u8>, pos: int, acc: Seq<RawItem>)
    requires
        forall|i: int| 0 <= i < acc.len() ==> good_item(#[trigger] acc[i]),
        elements_at(text, pos, acc) is Ok,
    ensures
        forall|i: int|
            0 <= i < elements_at(text, pos, acc)->Ok_0.0.len() ==> good_item(
                #[trigger] elements_at(text, pos, acc)->Ok_0.0[i],
            ),
    decreases text.len() - pos, 1nat,
{
    lemma_value_at_good(text, pos);
    let found = value_at(text, pos)->Ok_0;
    let at = skip_ws(text, found.1);
    let next = skip_ws(text, at + 1);
    let more = acc.push(found.0);
    assert forall|i: int| 0 <= i < more.len() implies good_item(#[trigger] more[i]) by {
        if i < acc.len() {
            assert(more[i] == acc[i]);
        }
    }
    if text[at] == 0x2C && pos < next <= text.len() {
        lemma_elements_at_good(text, next, more);
    }
}

/// The members that are read from a position on are good members.
pub proof fn lemma_members_at_good(text: Seq<u8>, pos: int, acc: Seq<RawEntry>)
    requires
        forall|i: int| 0 <= i < acc.len() ==> good_entry(#[trigger] acc[i]),
        members_at(text, pos, acc) is Ok,
    ensures
        forall|i: int|
            0 <= i < members_at(text, pos, acc)->Ok_0.0.len() ==> good_entry(
                #[trigger] members_at(text, pos, acc)->Ok_0.0[i],
            ),
    decreases text.len() - pos, 1nat,
{
    let key = string_at(text, pos + 1, Seq::empty())->Ok_0;
    let colon = skip_ws(text, key.1);
    let start = skip_ws(text, colon + 1);
    lemma_value_at_good(text, start);
    let found = value_at(text, start)->Ok_0;
    let at = skip_ws(text, found.1);
    let next = skip_ws(text, at + 1);
    let entry = RawEntry { key: key.0, jentry: found.0.jentry, data: found.0.data };
    let more = acc.push(entry);
    assert forall|i: int| 0 <= i < more.len() implies good_entry(#[trigger] more[i]) by {
        if i < acc.len() {
            assert(more[i] == acc[i]);
        }
    }
    if text[at] == 0x2C && pos < next <= text.len() {
        lemma_members_at_good(text, next, more);
    }
}

/// Every value that is read from JSON text is well formed.
pub proof fn lemma_text_gives_well_formed(text: Seq<u8>)
    requires
        text_to_jsonb(text) is Ok,
    ensures
        well_formed(text_to_jsonb(text)->Ok_0),
{
    let found = value_at(text, skip_ws(text, 0))->Ok_0;
    lemma_value_at_good(text, skip_ws(text, 0));
    if found.0.jentry.type_code != CONTAINER_TAG {
        lemma_scalar_is_well_formed(found.0);
    }
}

} // verus!
