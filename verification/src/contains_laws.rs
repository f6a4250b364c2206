//! What holds of containment.

use vstd::prelude::*;
use crate::error::Error;
use crate::codec::{read_word, header_tag, header_len};
use crate::constants::{
    ARRAY_CONTAINER_TAG, OBJECT_CONTAINER_TAG, SCALAR_CONTAINER_TAG, CONTAINER_TAG,
};
use crate::iterator::{
    RawItem, RawEntry, container_items, object_entries, scalar_item, value_item,
    lemma_container_items, lemma_object_entries,
};
use crate::bytes::{Order, lex_order, lemma_lex_equal};
use crate::builder::{sorted_keys, encode_array, encode_object};
use crate::iterator::{items_wf, entries_wf, item_wf, extract, lemma_element_of_extract};
use crate::roundtrip::{lemma_array_round_trip, lemma_object_round_trip};
use crate::constants::CONTAINER_HEADER_LEN_MASK;
use crate::codec::{be_bytes, lemma_word_of_be_bytes};
use crate::contains::{
    contains_spec, members_contained_from, elements_contained_from, nested_contains_from,
    has_element, find_key, find_key_from,
};

verus! {

/// An element that, where it is a nested container, is a well-formed array
/// or object that is shorter than `bound`.
pub open spec fn element_well_formed(item: RawItem, bound: nat) -> bool
    decreases bound, 0nat,
{
    item.jentry.type_code == CONTAINER_TAG ==> {
        &&& item.data.len() < bound
        &&& read_word(item.data, 0) is Ok
        &&& header_tag(read_word(item.data, 0)->Ok_0) != SCALAR_CONTAINER_TAG
        &&& well_formed(item.data)
    }
}

/// A value whose layout can be read at every depth: a scalar that is no
/// nested container, an array of well-formed elements, or an object whose
/// keys ascend strictly and whose values are well formed.
pub open spec fn well_formed(s: Seq<u8>) -> bool
    decreases s.len(), 1nat,
{
    match read_word(s, 0) {
        Err(_) => false,
        Ok(h) => if header_tag(h) == SCALAR_CONTAINER_TAG {
            scalar_item(s) is Ok && scalar_item(s)->Ok_0.jentry.type_code != CONTAINER_TAG
        } else if header_tag(h) == ARRAY_CONTAINER_TAG {
            match container_items(s, header_len(h)) {
                Err(_) => false,
                Ok(items) => forall|i: int|
                    0 <= i < items.len() ==> element_well_formed(#[trigger] items[i], s.len()),
            }
        } else if header_tag(h) == OBJECT_CONTAINER_TAG {
            match object_entries(s, header_len(h)) {
                Err(_) => false,
                Ok(es) => sorted_keys(es) && forall|i: int|
                    0 <= i < es.len() ==> element_well_formed(value_item(#[trigger] es[i]), s.len()),
            }
        } else {
            false
        },
    }
}

/// Among members whose keys ascend strictly, a key is found at the position
/// of its member.
pub proof fn lemma_find_own_key(es: Seq<RawEntry>, j: int, i: nat)
    requires
        sorted_keys(es),
        0 <= i <= j < es.len(),
    ensures
        find_key_from(es, es[j].key, i) == Some(j),
    decreases j - i,
{
    if i < j {
        assert(lex_order(es[i as int].key, es[j].key) == Order::Less);
        lemma_lex_equal(es[i as int].key, es[j].key);
        lemma_find_own_key(es, j, i + 1);
    }
}

/// Whether one well-formed value is contained in another can be told.
pub proof fn lemma_contains_total(l: Seq<u8>, r: Seq<u8>)
    requires
        well_formed(l),
        well_formed(r),
    ensures
        contains_spec(l, r) is Ok,
    decreases r.len(), 3nat, 0nat,
{
    let lh = read_word(l, 0)->Ok_0;
    let rh = read_word(r, 0)->Ok_0;
    if header_tag(lh) == ARRAY_CONTAINER_TAG && header_tag(rh) == SCALAR_CONTAINER_TAG {
    } else if header_tag(lh) != header_tag(rh) {
    } else if header_tag(rh) == OBJECT_CONTAINER_TAG {
        if header_len(lh) >= header_len(rh) {
            lemma_members_total(
                object_entries(l, header_len(lh))->Ok_0,
                object_entries(r, header_len(rh))->Ok_0,
                0,
                l.len(),
                r.len(),
            );
        }
    } else if header_tag(rh) == ARRAY_CONTAINER_TAG {
        lemma_elements_total(
            container_items(l, header_len(lh))->Ok_0,
            container_items(r, header_len(rh))->Ok_0,
            0,
            l.len(),
            r.len(),
        );
    } else {
    }
}

/// Whether well-formed members are contained in well-formed members can be
/// told.
pub proof fn lemma_members_total(le: Seq<RawEntry>, re: Seq<RawEntry>, j: nat, bl: nat, br: nat)
    requires
        forall|i: int| 0 <= i < le.len() ==> element_well_formed(value_item(#[trigger] le[i]), bl),
        forall|i: int| 0 <= i < re.len() ==> element_well_formed(value_item(#[trigger] re[i]), br),
    ensures
        members_contained_from(le, re, j, br) is Ok,
    decreases br, 2nat, re.len() - j,
{
    if j < re.len() {
        let e = re[j as int];
        assert(element_well_formed(value_item(e), br));
        crate::contains::lemma_find_key_from(le, e.key, 0);
        match find_key(le, e.key) {
            None => {},
            Some(k) => {
                assert(element_well_formed(value_item(le[k]), bl));
                if le[k].jentry.type_code == e.jentry.type_code {
                    if e.jentry.type_code == CONTAINER_TAG {
                        lemma_contains_total(le[k].data, e.data);
                    }
                    lemma_members_total(le, re, j + 1, bl, br);
                }
            },
        }
    }
}

/// Whether well-formed elements are contained in well-formed elements can
/// be told.
pub proof fn lemma_elements_total(li: Seq<RawItem>, ri: Seq<RawItem>, j: nat, bl: nat, br: nat)
    requires
        forall|i: int| 0 <= i < li.len() ==> element_well_formed(#[trigger] li[i], bl),
        forall|i: int| 0 <= i < ri.len() ==> element_well_formed(#[trigger] ri[i], br),
    ensures
        elements_contained_from(li, ri, j, br) is Ok,
    decreases br, 2nat, ri.len() - j,
{
    if j < ri.len() {
        let x = ri[j as int];
        assert(element_well_formed(x, br));
        if x.jentry.type_code == CONTAINER_TAG {
            lemma_nested_total(li, x.data, 0, bl, br);
        }
        lemma_elements_total(li, ri, j + 1, bl, br);
    }
}

/// Whether a well-formed container is contained in one of well-formed
/// elements can be told.
pub proof fn lemma_nested_total(li: Seq<RawItem>, d: Seq<u8>, k: nat, bl: nat, br: nat)
    requires
        forall|i: int| 0 <= i < li.len() ==> element_well_formed(#[trigger] li[i], bl),
        well_formed(d),
        d.len() < br,
    ensures
        nested_contains_from(li, d, k, br) is Ok,
    decreases br, 1nat, li.len() - k,
{
    if k < li.len() {
        assert(element_well_formed(li[k as int], bl));
        if li[k as int].jentry.type_code == CONTAINER_TAG {
            lemma_contains_total(li[k as int].data, d);
        }
        lemma_nested_total(li, d, k + 1, bl, br);
    }
}

/// A well-formed value contains itself.
pub proof fn lemma_contains_reflexive(s: Seq<u8>)
    requires
        well_formed(s),
    ensures
        contains_spec(s, s) == Ok::<bool, Error>(true),
    decreases s.len(), 3nat, 0nat,
{
    let h = read_word(s, 0)->Ok_0;
    if header_tag(h) == OBJECT_CONTAINER_TAG {
        lemma_members_reflexive(object_entries(s, header_len(h))->Ok_0, 0, s.len());
    } else if header_tag(h) == ARRAY_CONTAINER_TAG {
        lemma_elements_reflexive(container_items(s, header_len(h))->Ok_0, 0, s.len());
    } else {
    }
}

/// Well-formed members with strictly ascending keys are contained in
/// themselves.
pub proof fn lemma_members_reflexive(es: Seq<RawEntry>, j: nat, bound: nat)
    requires
        sorted_keys(es),
        forall|i: int| 0 <= i < es.len() ==> element_well_formed(value_item(#[trigger] es[i]), bound),
    ensures
        members_contained_from(es, es, j, bound) == Ok::<bool, Error>(true),
    decreases bound, 2nat, es.len() - j,
{
    if j < es.len() {
        let e = es[j as int];
        lemma_find_own_key(es, j as int, 0);
        assert(element_well_formed(value_item(e), bound));
        if e.jentry.type_code == CONTAINER_TAG {
            lemma_contains_reflexive(e.data);
        }
        lemma_members_reflexive(es, j + 1, bound);
    }
}

/// Well-formed elements are contained in themselves.
pub proof fn lemma_elements_reflexive(items: Seq<RawItem>, j: nat, bound: nat)
    requires
        forall|i: int| 0 <= i < items.len() ==> element_well_formed(#[trigger] items[i], bound),
    ensures
        elements_contained_from(items, items, j, bound) == Ok::<bool, Error>(true),
    decreases bound, 2nat, items.len() - j,
{
    if j < items.len() {
        let x = items[j as int];
        assert(element_well_formed(x, bound));
        if x.jentry.type_code == CONTAINER_TAG {
            lemma_contains_reflexive(x.data);
            lemma_nested_finds(items, x.data, 0, j as int, bound);
        } else {
            assert(has_element(items, x));
        }
        lemma_elements_reflexive(items, j + 1, bound);
    }
}

/// A container that one of well-formed elements contains is found to be
/// contained.
pub proof fn lemma_nested_finds(items: Seq<RawItem>, d: Seq<u8>, k: nat, j: int, bound: nat)
    requires
        forall|i: int| 0 <= i < items.len() ==> element_well_formed(#[trigger] items[i], bound),
        well_formed(d),
        d.len() < bound,
        k <= j < items.len(),
        items[j].jentry.type_code == CONTAINER_TAG,
        contains_spec(items[j].data, d) == Ok::<bool, Error>(true),
    ensures
        nested_contains_from(items, d, k, bound) == Ok::<bool, Error>(true),
    decreases j - k,
{
    if k < j {
        assert(element_well_formed(items[k as int], bound));
        if items[k as int].jentry.type_code == CONTAINER_TAG {
            lemma_contains_total(items[k as int].data, d);
        }
        lemma_nested_finds(items, d, k + 1, j, bound);
    }
}

/// An element that, where it is a nested container, is a well-formed array
/// or object.
pub open spec fn nested_well_formed(item: RawItem) -> bool {
    item.jentry.type_code == CONTAINER_TAG ==> {
        &&& read_word(item.data, 0) is Ok
        &&& header_tag(read_word(item.data, 0)->Ok_0) != SCALAR_CONTAINER_TAG
        &&& well_formed(item.data)
    }
}

/// The array that is written for well-formed elements is well formed.
pub proof fn lemma_array_is_well_formed(items: Seq<RawItem>)
    requires
        items_wf(items),
        items.len() <= CONTAINER_HEADER_LEN_MASK,
        forall|i: int| 0 <= i < items.len() ==> nested_well_formed(#[trigger] items[i]),
    ensures
        well_formed(encode_array(items)),
{
    let s = encode_array(items);
    lemma_array_round_trip(items);
    lemma_container_items(s, items.len());
    assert forall|i: int| 0 <= i < items.len() implies element_well_formed(
        #[trigger] items[i],
        s.len(),
    ) by {
        assert(nested_well_formed(items[i]));
    }
}

/// The object that is written for well-formed members with strictly
/// ascending keys is well formed.
pub proof fn lemma_object_is_well_formed(entries: Seq<RawEntry>)
    requires
        entries_wf(entries),
        sorted_keys(entries),
        entries.len() <= CONTAINER_HEADER_LEN_MASK,
        forall|i: int| 0 <= i < entries.len() ==> nested_well_formed(value_item(#[trigger] entries[i])),
    ensures
        well_formed(encode_object(entries)),
{
    let s = encode_object(entries);
    lemma_object_round_trip(entries);
    lemma_object_entries(s, entries.len());
    assert forall|i: int| 0 <= i < entries.len() implies element_well_formed(
        value_item(#[trigger] entries[i]),
        s.len(),
    ) by {
        assert(nested_well_formed(value_item(entries[i])));
    }
}

/// The scalar container that is written for a scalar is well formed.
pub proof fn lemma_scalar_is_well_formed(item: RawItem)
    requires
        item_wf(item),
        item.jentry.type_code != CONTAINER_TAG,
    ensures
        well_formed(extract(item)),
{
    lemma_element_of_extract(item);
    let s = extract(item);
    lemma_word_of_be_bytes(SCALAR_CONTAINER_TAG);
    let b = be_bytes(SCALAR_CONTAINER_TAG);
    assert(s[0] == b[0] && s[1] == b[1] && s[2] == b[2] && s[3] == b[3]);
    assert(0x20000000u32 & 0xE0000000 == 0x20000000u32) by (bit_vector);
}

} // verus!
