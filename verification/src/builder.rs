//! The wire form of a container, and the builders that write it.

use vstd::prelude::*;
use vstd::slice::slice_to_vec;
use crate::codec::{JEntry, be_bytes, put_u32};
use crate::error::Error;
use crate::constants::{
    ARRAY_CONTAINER_TAG, OBJECT_CONTAINER_TAG, SCALAR_CONTAINER_TAG, CONTAINER_HEADER_LEN_MASK,
    JENTRY_OFF_LEN_MASK, STRING_TAG, CONTAINER_TAG,
};
use crate::iterator::{
    RawItem, RawEntry, Item, Entry, items_view, entries_view, item_wf, entry_wf, value_item, items_wf,
    entries_wf,
};
use crate::bytes::{Order, lex_order, compare_bytes, lemma_lex_equal, lemma_lex_flip, lemma_lex_transitive};

verus! {

/// The JEntry words of `items`, in order.
pub open spec fn table_bytes(items: Seq<RawItem>) -> Seq<u8>
    decreases items.len(),
{
    if items.len() == 0 {
        Seq::empty()
    } else {
        table_bytes(items.drop_last()) + be_bytes(items.last().jentry.encoded_spec())
    }
}

/// The payloads of `items`, in order.
pub open spec fn payload_bytes(items: Seq<RawItem>) -> Seq<u8>
    decreases items.len(),
{
    if items.len() == 0 {
        Seq::empty()
    } else {
        payload_bytes(items.drop_last()) + items.last().data
    }
}

/// A container on the wire: the header word, the JEntry words of its slots,
/// then their payloads.
pub open spec fn encode_container(header: u32, slots: Seq<RawItem>) -> Seq<u8> {
    be_bytes(header) + table_bytes(slots) + payload_bytes(slots)
}

/// An array on the wire.
pub open spec fn encode_array(items: Seq<RawItem>) -> Seq<u8> {
    encode_container(ARRAY_CONTAINER_TAG | (items.len() as u32), items)
}

/// A scalar on the wire: the scalar header, the JEntry word, the payload.
pub open spec fn encode_scalar(item: RawItem) -> Seq<u8> {
    be_bytes(SCALAR_CONTAINER_TAG) + be_bytes(item.jentry.encoded_spec()) + item.data
}

/// The slot of a key.
pub open spec fn key_item(key: Seq<u8>) -> RawItem {
    RawItem { jentry: JEntry { type_code: STRING_TAG, length: key.len() as u32 }, data: key }
}

/// The slots of an object: the keys of its members, then their values.
pub open spec fn entry_slots(entries: Seq<RawEntry>) -> Seq<RawItem> {
    entries.map_values(|e: RawEntry| key_item(e.key)) + entries.map_values(
        |e: RawEntry| value_item(e),
    )
}

/// An object on the wire.
pub open spec fn encode_object(entries: Seq<RawEntry>) -> Seq<u8> {
    encode_container(OBJECT_CONTAINER_TAG | (entries.len() as u32), entry_slots(entries))
}

/// An element that a builder holds.
#[derive(Debug)]
pub struct OwnedItem {
    pub jentry: JEntry,
    pub data: Vec<u8>,
}

impl View for OwnedItem {
    type V = RawItem;

    open spec fn view(&self) -> RawItem {
        RawItem { jentry: self.jentry, data: self.data@ }
    }
}

/// The elements that a vector of held elements stands for.
pub open spec fn owned_view(v: Seq<OwnedItem>) -> Seq<RawItem> {
    v.map_values(|it: OwnedItem| it@)
}

/// Appends the JEntry words of `items`.
fn write_table(items: &Vec<OwnedItem>, buf: &mut Vec<u8>)
    ensures
        final(buf)@ == old(buf)@ + table_bytes(owned_view(items@)),
{
    let ghost slots = owned_view(items@);
    let mut i: usize = 0;
    while i < items.len()
        invariant
            i <= items@.len(),
            slots == owned_view(items@),
            buf@ == old(buf)@ + table_bytes(slots.take(i as int)),
        decreases items@.len() - i,
    {
        proof {
            assert(slots.take(i + 1).drop_last() =~= slots.take(i as int));
        }
        put_u32(buf, items[i].jentry.encoded());
        proof {
            assert(buf@ =~= old(buf)@ + table_bytes(slots.take(i + 1)));
        }
        i = i + 1;
    }
    proof {
        assert(slots.take(i as int) =~= slots);
    }
}

/// Appends the payloads of `items`.
fn write_payloads(items: &Vec<OwnedItem>, buf: &mut Vec<u8>)
    ensures
        final(buf)@ == old(buf)@ + payload_bytes(owned_view(items@)),
{
    let ghost slots = owned_view(items@);
    let mut i: usize = 0;
    while i < items.len()
        invariant
            i <= items@.len(),
            slots == owned_view(items@),
            buf@ == old(buf)@ + payload_bytes(slots.take(i as int)),
        decreases items@.len() - i,
    {
        proof {
            assert(slots.take(i + 1).drop_last() =~= slots.take(i as int));
        }
        buf.extend_from_slice(items[i].data.as_slice());
        proof {
            assert(buf@ =~= old(buf)@ + payload_bytes(slots.take(i + 1)));
        }
        i = i + 1;
    }
    proof {
        assert(slots.take(i as int) =~= slots);
    }
}

/// Collects the elements of an array and writes the array.
#[derive(Debug)]
pub struct ArrayBuilder {
    pub items: Vec<OwnedItem>,
}

impl View for ArrayBuilder {
    type V = Seq<RawItem>;

    open spec fn view(&self) -> Seq<RawItem> {
        owned_view(self.items@)
    }
}

impl ArrayBuilder {
    /// Every element is well formed.
    pub open spec fn wf(&self) -> bool {
        forall|i: int| 0 <= i < self@.len() ==> item_wf(#[trigger] self@[i])
    }

    /// A builder without elements; `capacity` says how many are expected.
    pub fn new(capacity: usize) -> (r: ArrayBuilder)
        ensures
            r.wf(),
            r@ == Seq::<RawItem>::empty(),
    {
        let r = ArrayBuilder { items: Vec::new() };
        assert(r@ =~= Seq::<RawItem>::empty());
        r
    }

    /// The number of elements.
    pub fn len(&self) -> (r: usize)
        ensures
            r == self@.len(),
    {
        self.items.len()
    }

    /// Adds an element given by its JEntry and its payload.
    pub fn push_raw(&mut self, jentry: JEntry, data: &[u8])
        requires
            old(self).wf(),
            item_wf(RawItem { jentry, data: data@ }),
        ensures
            final(self).wf(),
            final(self)@ == old(self)@.push(RawItem { jentry, data: data@ }),
    {
        let item = OwnedItem { jentry, data: slice_to_vec(data) };
        self.items.push(item);
        proof {
            assert(self@ =~= old(self)@.push(RawItem { jentry, data: data@ }));
        }
    }

    /// Writes the array after the bytes that `buf` holds.
    pub fn build_into(self, buf: &mut Vec<u8>)
        requires
            self.wf(),
            self@.len() <= CONTAINER_HEADER_LEN_MASK,
        ensures
            final(buf)@ == old(buf)@ + encode_array(self@),
    {
        let header = ARRAY_CONTAINER_TAG | (self.items.len() as u32);
        put_u32(buf, header);
        write_table(&self.items, buf);
        write_payloads(&self.items, buf);
        proof {
            assert(buf@ =~= old(buf)@ + encode_array(self@));
        }
    }
}

/// The members `entries` with `e` put in by its key: in front of the members
/// with a greater key, and in place of the member with the same key.
pub open spec fn insert_entry(entries: Seq<RawEntry>, e: RawEntry) -> Seq<RawEntry>
    decreases entries.len(),
{
    if entries.len() == 0 {
        seq![e]
    } else {
        match lex_order(entries.last().key, e.key) {
            Order::Less => entries.push(e),
            Order::Equal => entries.drop_last().push(e),
            Order::Greater => insert_entry(entries.drop_last(), e).push(entries.last()),
        }
    }
}

/// The members that an object builder holds after `pushes` were pushed in
/// order: sorted by key, and of two members with one key the later.
pub open spec fn build_entries(pushes: Seq<RawEntry>) -> Seq<RawEntry>
    decreases pushes.len(),
{
    if pushes.len() == 0 {
        Seq::empty()
    } else {
        insert_entry(build_entries(pushes.drop_last()), pushes.last())
    }
}

/// Keys in strictly ascending byte order.
pub open spec fn sorted_keys(entries: Seq<RawEntry>) -> bool {
    forall|i: int, j: int|
        0 <= i < j < entries.len() ==> lex_order(
            (#[trigger] entries[i]).key,
            (#[trigger] entries[j]).key,
        ) == Order::Less
}

/// Where a member goes that is put in by its key.
pub proof fn lemma_insert_entry_at(es: Seq<RawEntry>, e: RawEntry, i: int)
    requires
        0 <= i <= es.len(),
        forall|j: int| i <= j < es.len() ==> lex_order((#[trigger] es[j]).key, e.key) == Order::Greater,
        i > 0 ==> lex_order(es[i - 1].key, e.key) != Order::Greater,
    ensures
        insert_entry(es, e) == if i > 0 && lex_order(es[i - 1].key, e.key) == Order::Equal {
            es.update(i - 1, e)
        } else {
            es.insert(i, e)
        },
    decreases es.len() - i,
{
    if i == es.len() {
        if es.len() == 0 {
            assert(seq![e] =~= es.insert(0, e));
        } else {
            match lex_order(es.last().key, e.key) {
                Order::Less => {
                    assert(es.push(e) =~= es.insert(i, e));
                },
                Order::Equal => {
                    assert(es.drop_last().push(e) =~= es.update(i - 1, e));
                },
                Order::Greater => {},
            }
        }
    } else {
        let front = es.drop_last();
        assert(lex_order(es.last().key, e.key) == Order::Greater);
        assert forall|j: int| i <= j < front.len() implies lex_order(
            (#[trigger] front[j]).key,
            e.key,
        ) == Order::Greater by {
            assert(front[j] == es[j]);
        }
        lemma_insert_entry_at(front, e, i);
        if i > 0 && lex_order(es[i - 1].key, e.key) == Order::Equal {
            assert(front.update(i - 1, e).push(es.last()) =~= es.update(i - 1, e));
        } else {
            assert(front.insert(i, e).push(es.last()) =~= es.insert(i, e));
        }
    }
}

/// Putting a member into sorted members leaves them sorted, and holds the
/// member and the old members only.
pub proof fn lemma_insert_entry_sorted(es: Seq<RawEntry>, e: RawEntry)
    requires
        sorted_keys(es),
    ensures
        sorted_keys(insert_entry(es, e)),
        insert_entry(es, e).len() <= es.len() + 1,
        insert_entry(es, e).len() >= 1,
        forall|k: int|
            0 <= k < insert_entry(es, e).len() ==> (#[trigger] insert_entry(es, e)[k]) == e
                || es.contains(insert_entry(es, e)[k]),
    decreases es.len(),
{
    let r = insert_entry(es, e);
    if es.len() == 0 {
    } else {
        let last = es.last();
        let front = es.drop_last();
        match lex_order(last.key, e.key) {
            Order::Less => {
                assert forall|i: int, j: int| 0 <= i < j < r.len() implies lex_order(
                    (#[trigger] r[i]).key,
                    (#[trigger] r[j]).key,
                ) == Order::Less by {
                    if j == es.len() {
                        if i < es.len() - 1 {
                            assert(lex_order(es[i].key, es[es.len() - 1].key) == Order::Less);
                            lemma_lex_transitive(es[i].key, last.key, e.key);
                        }
                    } else {
                        assert(r[i] == es[i] && r[j] == es[j]);
                    }
                }
                assert forall|k: int| 0 <= k < r.len() implies (#[trigger] r[k]) == e || es.contains(
                    r[k],
                ) by {
                    if k < es.len() {
                        assert(es[k] == r[k]);
                    }
                }
            },
            Order::Equal => {
                lemma_lex_equal(last.key, e.key);
                assert forall|i: int, j: int| 0 <= i < j < r.len() implies lex_order(
                    (#[trigger] r[i]).key,
                    (#[trigger] r[j]).key,
                ) == Order::Less by {
                    if j == es.len() - 1 {
                        assert(lex_order(es[i].key, es[es.len() - 1].key) == Order::Less);
                    } else {
                        assert(r[i] == es[i] && r[j] == es[j]);
                    }
                }
                assert forall|k: int| 0 <= k < r.len() implies (#[trigger] r[k]) == e || es.contains(
                    r[k],
                ) by {
                    if k < es.len() - 1 {
                        assert(es[k] == r[k]);
                    }
                }
            },
            Order::Greater => {
                assert forall|i: int, j: int| 0 <= i < j < front.len() implies lex_order(
                    (#[trigger] front[i]).key,
                    (#[trigger] front[j]).key,
                ) == Order::Less by {
                    assert(front[i] == es[i] && front[j] == es[j]);
                }
                lemma_insert_entry_sorted(front, e);
                let inner = insert_entry(front, e);
                lemma_lex_flip(last.key, e.key);
                assert forall|k: int| 0 <= k < inner.len() implies lex_order(
                    (#[trigger] inner[k]).key,
                    last.key,
                ) == Order::Less by {
                    if inner[k] != e {
                        assert(front.contains(inner[k]));
                        let m = choose|m: int| 0 <= m < front.len() && front[m] == inner[k];
                        assert(es[m] == inner[k]);
                        assert(lex_order(es[m].key, es[es.len() - 1].key) == Order::Less);
                    }
                }
                assert forall|i: int, j: int| 0 <= i < j < r.len() implies lex_order(
                    (#[trigger] r[i]).key,
                    (#[trigger] r[j]).key,
                ) == Order::Less by {
                    if j == inner.len() {
                        assert(r[i] == inner[i]);
                    } else {
                        assert(r[i] == inner[i] && r[j] == inner[j]);
                    }
                }
                assert forall|k: int| 0 <= k < r.len() implies (#[trigger] r[k]) == e || es.contains(
                    r[k],
                ) by {
                    if k < inner.len() {
                        assert(r[k] == inner[k]);
                        if inner[k] != e {
                            let m = choose|m: int| 0 <= m < front.len() && front[m] == inner[k];
                            assert(es[m] == r[k]);
                        }
                    } else {
                        assert(es[es.len() - 1] == r[k]);
                    }
                }
            },
        }
    }
}

/// The members that a builder holds are sorted, however they were pushed.
pub proof fn lemma_build_entries_sorted(pushes: Seq<RawEntry>)
    ensures
        sorted_keys(build_entries(pushes)),
        build_entries(pushes).len() <= pushes.len(),
        forall|k: int|
            0 <= k < build_entries(pushes).len() ==> pushes.contains(
                #[trigger] build_entries(pushes)[k],
            ),
    decreases pushes.len(),
{
    if pushes.len() > 0 {
        let front = pushes.drop_last();
        lemma_build_entries_sorted(front);
        lemma_insert_entry_sorted(build_entries(front), pushes.last());
        let r = build_entries(pushes);
        assert forall|k: int| 0 <= k < r.len() implies pushes.contains(#[trigger] r[k]) by {
            if r[k] == pushes.last() {
                assert(pushes[pushes.len() - 1] == r[k]);
            } else {
                assert(build_entries(front).contains(r[k]));
                let m = choose|m: int|
                    0 <= m < build_entries(front).len() && build_entries(front)[m] == r[k];
                assert(front.contains(build_entries(front)[m]));
                let n = choose|n: int| 0 <= n < front.len() && front[n] == r[k];
                assert(pushes[n] == r[k]);
            }
        }
    }
}

/// Members that are pushed in ascending order of their keys are held as they
/// were pushed.
pub proof fn lemma_build_entries_of_sorted(pushes: Seq<RawEntry>)
    requires
        sorted_keys(pushes),
    ensures
        build_entries(pushes) == pushes,
    decreases pushes.len(),
{
    if pushes.len() > 0 {
        let front = pushes.drop_last();
        assert forall|i: int, j: int| 0 <= i < j < front.len() implies lex_order(
            (#[trigger] front[i]).key,
            (#[trigger] front[j]).key,
        ) == Order::Less by {
            assert(front[i] == pushes[i] && front[j] == pushes[j]);
        }
        lemma_build_entries_of_sorted(front);
        if front.len() > 0 {
            assert(front.last() == pushes[pushes.len() - 2]);
            assert(lex_order(pushes[pushes.len() - 2].key, pushes[pushes.len() - 1].key)
                == Order::Less);
        }
        assert(build_entries(pushes) =~= pushes);
    } else {
        assert(build_entries(pushes) =~= pushes);
    }
}

/// A JEntry table takes four bytes for each slot.
pub proof fn lemma_table_bytes_len(items: Seq<RawItem>)
    ensures
        table_bytes(items).len() == 4 * items.len(),
    decreases items.len(),
{
    if items.len() > 0 {
        lemma_table_bytes_len(items.drop_last());
    }
}

/// The payloads of well-formed slots take at most the greatest payload
/// length for each slot.
pub proof fn lemma_payload_bytes_len(items: Seq<RawItem>)
    requires
        forall|i: int| 0 <= i < items.len() ==> (#[trigger] items[i]).data.len() <= JENTRY_OFF_LEN_MASK,
    ensures
        payload_bytes(items).len() <= items.len() * JENTRY_OFF_LEN_MASK,
    decreases items.len(),
{
    if items.len() > 0 {
        let front = items.drop_last();
        assert forall|i: int| 0 <= i < front.len() implies (#[trigger] front[i]).data.len()
            <= JENTRY_OFF_LEN_MASK by {
            assert(front[i] == items[i]);
        }
        lemma_payload_bytes_len(front);
        assert(items.last() == items[items.len() - 1]);
        assert(payload_bytes(items).len() <= items.len() * JENTRY_OFF_LEN_MASK) by (nonlinear_arith)
            requires
                payload_bytes(items).len() == payload_bytes(front).len() + items.last().data.len(),
                payload_bytes(front).len() <= front.len() * JENTRY_OFF_LEN_MASK,
                items.last().data.len() <= JENTRY_OFF_LEN_MASK,
                front.len() == items.len() - 1,
        ;
    }
}

/// The number of payload bytes of `items`.
fn payload_size(items: &Vec<OwnedItem>) -> (r: u64)
    requires
        items@.len() <= 2 * CONTAINER_HEADER_LEN_MASK,
        forall|i: int|
            0 <= i < items@.len() ==> (#[trigger] owned_view(items@)[i]).data.len()
                <= JENTRY_OFF_LEN_MASK,
    ensures
        r == payload_bytes(owned_view(items@)).len(),
        r <= items@.len() * JENTRY_OFF_LEN_MASK,
{
    let ghost slots = owned_view(items@);
    let mut total: u64 = 0;
    let mut i: usize = 0;
    proof {
        lemma_payload_bytes_len(slots.take(0));
    }
    while i < items.len()
        invariant
            i <= items@.len(),
            items@.len() <= 2 * CONTAINER_HEADER_LEN_MASK,
            slots == owned_view(items@),
            forall|i: int| 0 <= i < slots.len() ==> (#[trigger] slots[i]).data.len() <= JENTRY_OFF_LEN_MASK,
            total == payload_bytes(slots.take(i as int)).len(),
            total <= i * JENTRY_OFF_LEN_MASK,
        decreases items@.len() - i,
    {
        proof {
            assert(slots.take(i + 1).drop_last() =~= slots.take(i as int));
            assert(slots.take(i + 1).last() == slots[i as int]);
            assert(i * JENTRY_OFF_LEN_MASK + JENTRY_OFF_LEN_MASK <= 0x1FFFFFFF00000000) by (nonlinear_arith)
                requires
                    i <= 2 * 0x1FFFFFFF,
                    JENTRY_OFF_LEN_MASK == 0x0FFFFFFF,
            ;
        }
        total = total + items[i].data.len() as u64;
        i = i + 1;
    }
    proof {
        assert(slots.take(i as int) =~= slots);
    }
    total
}

impl ArrayBuilder {
    /// The number of bytes that `build_into` writes.
    pub fn encoded_size(&self) -> (r: u64)
        requires
            self.wf(),
            self@.len() <= CONTAINER_HEADER_LEN_MASK,
        ensures
            r == encode_array(self@).len(),
    {
        proof {
            lemma_table_bytes_len(self@);
        }
        let payload = payload_size(&self.items);
        4 + 4 * (self.items.len() as u64) + payload
    }

    /// Adds an array as one element, in its wire form.
    pub fn push_array(&mut self, nested: ArrayBuilder)
        requires
            old(self).wf(),
            nested.wf(),
            nested@.len() <= CONTAINER_HEADER_LEN_MASK,
            encode_array(nested@).len() <= JENTRY_OFF_LEN_MASK,
        ensures
            final(self).wf(),
            final(self)@ == old(self)@.push(container_item(encode_array(nested@))),
    {
        let mut data: Vec<u8> = Vec::new();
        nested.build_into(&mut data);
        assert(data@ =~= encode_array(nested@));
        let jentry = JEntry::make_container_jentry(data.len());
        self.push_raw(jentry, data.as_slice());
    }

    /// Adds an object as one element, in its wire form.
    pub fn push_object(&mut self, nested: ObjectBuilder)
        requires
            old(self).wf(),
            nested.wf(),
            nested@.len() <= CONTAINER_HEADER_LEN_MASK,
            encode_object(nested@).len() <= JENTRY_OFF_LEN_MASK,
        ensures
            final(self).wf(),
            final(self)@ == old(self)@.push(container_item(encode_object(nested@))),
    {
        let mut data: Vec<u8> = Vec::new();
        nested.build_into(&mut data);
        assert(data@ =~= encode_object(nested@));
        let jentry = JEntry::make_container_jentry(data.len());
        self.push_raw(jentry, data.as_slice());
    }
}

/// The element that holds a nested container given in its wire form.
pub open spec fn container_item(data: Seq<u8>) -> RawItem {
    RawItem { jentry: JEntry { type_code: CONTAINER_TAG, length: data.len() as u32 }, data }
}

/// The member that holds a nested container given in its wire form.
pub open spec fn container_entry(key: Seq<u8>, data: Seq<u8>) -> RawEntry {
    RawEntry { key, jentry: JEntry { type_code: CONTAINER_TAG, length: data.len() as u32 }, data }
}

/// A member that a builder holds.
#[derive(Debug)]
pub struct OwnedEntry {
    pub key: Vec<u8>,
    pub jentry: JEntry,
    pub data: Vec<u8>,
}

impl View for OwnedEntry {
    type V = RawEntry;

    open spec fn view(&self) -> RawEntry {
        RawEntry { key: self.key@, jentry: self.jentry, data: self.data@ }
    }
}

/// The members that a vector of held members stands for.
pub open spec fn owned_entries_view(v: Seq<OwnedEntry>) -> Seq<RawEntry> {
    v.map_values(|e: OwnedEntry| e@)
}

/// Collects the members of an object, sorted by key and with one member for
/// each key, and writes the object.
#[derive(Debug)]
pub struct ObjectBuilder {
    pub entries: Vec<OwnedEntry>,
}

impl View for ObjectBuilder {
    type V = Seq<RawEntry>;

    open spec fn view(&self) -> Seq<RawEntry> {
        owned_entries_view(self.entries@)
    }
}

impl ObjectBuilder {
    /// Every member is well formed, and their keys ascend strictly.
    pub open spec fn wf(&self) -> bool {
        &&& forall|i: int| 0 <= i < self@.len() ==> entry_wf(#[trigger] self@[i])
        &&& sorted_keys(self@)
    }

    /// A builder without members.
    pub fn new() -> (r: ObjectBuilder)
        ensures
            r.wf(),
            r@ == Seq::<RawEntry>::empty(),
    {
        let r = ObjectBuilder { entries: Vec::new() };
        assert(r@ =~= Seq::<RawEntry>::empty());
        r
    }

    /// The number of members.
    pub fn len(&self) -> (r: usize)
        ensures
            r == self@.len(),
    {
        self.entries.len()
    }

    /// Adds a member given by its key and the JEntry and payload of its
    /// value. A member with the same key is replaced.
    pub fn push_raw(&mut self, key: &[u8], jentry: JEntry, data: &[u8])
        requires
            old(self).wf(),
            entry_wf(RawEntry { key: key@, jentry, data: data@ }),
        ensures
            final(self).wf(),
            final(self)@ == insert_entry(old(self)@, RawEntry { key: key@, jentry, data: data@ }),
    {
        let ghost e = RawEntry { key: key@, jentry, data: data@ };
        let ghost es = self@;
        let mut i: usize = self.entries.len();
        let mut same: bool = false;
        while i > 0
            invariant_except_break
                !same,
            invariant
                i <= es.len(),
                es == self@,
                self == old(self),
                forall|j: int| i <= j < es.len() ==> lex_order((#[trigger] es[j]).key, key@) == Order::Greater,
            ensures
                i <= es.len(),
                es == self@,
                self == old(self),
                forall|j: int| i <= j < es.len() ==> lex_order((#[trigger] es[j]).key, key@) == Order::Greater,
                i > 0 ==> lex_order(es[i - 1].key, key@) != Order::Greater,
                same == (i > 0 && lex_order(es[i - 1].key, key@) == Order::Equal),
            decreases i,
        {
            let o = compare_bytes(self.entries[i - 1].key.as_slice(), key);
            assert(es[i - 1] == self.entries@[i - 1]@);
            match o {
                Order::Greater => {
                    i = i - 1;
                },
                Order::Equal => {
                    same = true;
                    break ;
                },
                Order::Less => {
                    break ;
                },
            }
        }
        proof {
            lemma_insert_entry_at(es, e, i as int);
            lemma_insert_entry_sorted(es, e);
        }
        let item = OwnedEntry { key: slice_to_vec(key), jentry, data: slice_to_vec(data) };
        if same {
            self.entries[i - 1] = item;
            proof {
                assert(self@ =~= es.update(i - 1, e));
            }
        } else {
            self.entries.insert(i, item);
            proof {
                assert(self@ =~= es.insert(i as int, e));
            }
        }
        proof {
            let r = insert_entry(es, e);
            assert forall|k: int| 0 <= k < r.len() implies entry_wf(#[trigger] r[k]) by {
                if r[k] != e {
                    let m = choose|m: int| 0 <= m < es.len() && es[m] == r[k];
                    assert(entry_wf(es[m]));
                }
            }
        }
    }

    /// Adds a member whose value is an array, in its wire form.
    pub fn push_array(&mut self, key: &[u8], nested: ArrayBuilder)
        requires
            old(self).wf(),
            key@.len() <= JENTRY_OFF_LEN_MASK,
            nested.wf(),
            nested@.len() <= CONTAINER_HEADER_LEN_MASK,
            encode_array(nested@).len() <= JENTRY_OFF_LEN_MASK,
        ensures
            final(self).wf(),
            final(self)@ == insert_entry(old(self)@, container_entry(key@, encode_array(nested@))),
    {
        let mut data: Vec<u8> = Vec::new();
        nested.build_into(&mut data);
        assert(data@ =~= encode_array(nested@));
        let jentry = JEntry::make_container_jentry(data.len());
        self.push_raw(key, jentry, data.as_slice());
    }

    /// Adds a member whose value is an object, in its wire form.
    pub fn push_object(&mut self, key: &[u8], nested: ObjectBuilder)
        requires
            old(self).wf(),
            key@.len() <= JENTRY_OFF_LEN_MASK,
            nested.wf(),
            nested@.len() <= CONTAINER_HEADER_LEN_MASK,
            encode_object(nested@).len() <= JENTRY_OFF_LEN_MASK,
        ensures
            final(self).wf(),
            final(self)@ == insert_entry(old(self)@, container_entry(key@, encode_object(nested@))),
    {
        let mut data: Vec<u8> = Vec::new();
        nested.build_into(&mut data);
        assert(data@ =~= encode_object(nested@));
        let jentry = JEntry::make_container_jentry(data.len());
        self.push_raw(key, jentry, data.as_slice());
    }

    /// The slots of the members: their keys, then their values.
    fn slots(&self) -> (r: Vec<OwnedItem>)
        requires
            self.wf(),
        ensures
            r@.len() == 2 * self@.len(),
            owned_view(r@) == entry_slots(self@),
    {
        let ghost es = self@;
        let mut keys: Vec<OwnedItem> = Vec::new();
        let mut vals: Vec<OwnedItem> = Vec::new();
        let mut i: usize = 0;
        while i < self.entries.len()
            invariant
                i <= self.entries@.len(),
                es == self@,
                self.wf(),
                keys@.len() == i,
                vals@.len() == i,
                forall|j: int| 0 <= j < i ==> (#[trigger] keys@[j])@ == key_item(es[j].key),
                forall|j: int| 0 <= j < i ==> (#[trigger] vals@[j])@ == value_item(es[j]),
            decreases self.entries@.len() - i,
        {
            let e = &self.entries[i];
            assert(es[i as int] == e@);
            assert(entry_wf(es[i as int]));
            keys.push(
                OwnedItem {
                    jentry: JEntry::make_string_jentry(e.key.len()),
                    data: slice_to_vec(e.key.as_slice()),
                },
            );
            vals.push(OwnedItem { jentry: e.jentry, data: slice_to_vec(e.data.as_slice()) });
            i = i + 1;
        }
        let ghost k = keys@;
        let ghost v = vals@;
        keys.append(&mut vals);
        proof {
            assert(keys@ =~= k + v);
            assert(owned_view(keys@) =~= entry_slots(es));
        }
        keys
    }

    /// The number of bytes that `build_into` writes.
    pub fn encoded_size(&self) -> (r: u64)
        requires
            self.wf(),
            self@.len() <= CONTAINER_HEADER_LEN_MASK,
        ensures
            r == encode_object(self@).len(),
    {
        let slots = self.slots();
        proof {
            lemma_table_bytes_len(entry_slots(self@));
            assert forall|i: int| 0 <= i < slots@.len() implies (#[trigger] owned_view(
                slots@,
            )[i]).data.len() <= JENTRY_OFF_LEN_MASK by {
                let es = self@;
                let n = es.len() as int;
                if i < n {
                    assert(entry_slots(es)[i] == key_item(es[i].key));
                    assert(entry_wf(es[i]));
                } else {
                    assert(entry_slots(es)[i] == value_item(es[i - n]));
                    assert(entry_wf(es[i - n]));
                }
            }
        }
        let payload = payload_size(&slots);
        4 + 4 * (slots.len() as u64) + payload
    }

    /// Writes the object after the bytes that `buf` holds.
    pub fn build_into(self, buf: &mut Vec<u8>)
        requires
            self.wf(),
            self@.len() <= CONTAINER_HEADER_LEN_MASK,
        ensures
            final(buf)@ == old(buf)@ + encode_object(self@),
    {
        let header = OBJECT_CONTAINER_TAG | (self.entries.len() as u32);
        let slots = self.slots();
        put_u32(buf, header);
        write_table(&slots, buf);
        write_payloads(&slots, buf);
        proof {
            assert(buf@ =~= old(buf)@ + encode_object(self@));
        }
    }
}

/// What an operation leaves in its output buffer: on success the bytes it
/// was to write, after what the buffer held; on failure what the buffer held.
pub open spec fn appended(
    before: Seq<u8>,
    after: Seq<u8>,
    r: Result<(), Error>,
    expected: Result<Seq<u8>, Error>,
) -> bool {
    match expected {
        Ok(bytes) => r is Ok && after == before + bytes,
        Err(e) => r == Err::<(), Error>(e) && after == before,
    }
}

/// The wire form of the array of `items`; `InvalidJsonbHeader` where their
/// number does not fit a header.
pub open spec fn array_result(items: Seq<RawItem>) -> Result<Seq<u8>, Error> {
    if items.len() > CONTAINER_HEADER_LEN_MASK {
        Err(Error::InvalidJsonbHeader)
    } else {
        Ok(encode_array(items))
    }
}

/// The wire form of the object of `entries`; `InvalidJsonbHeader` where their
/// number does not fit a header.
pub open spec fn object_result(entries: Seq<RawEntry>) -> Result<Seq<u8>, Error> {
    if entries.len() > CONTAINER_HEADER_LEN_MASK {
        Err(Error::InvalidJsonbHeader)
    } else {
        Ok(encode_object(entries))
    }
}

/// A container in its wire form as one element; `InvalidJsonbJEntry` where
/// its length does not fit a JEntry.
pub open spec fn nested_item(encoded: Result<Seq<u8>, Error>) -> Result<RawItem, Error> {
    match encoded {
        Err(e) => Err(e),
        Ok(data) => if data.len() > JENTRY_OFF_LEN_MASK {
            Err(Error::InvalidJsonbJEntry)
        } else {
            Ok(container_item(data))
        },
    }
}

impl ArrayBuilder {
    /// Writes the array after the bytes that `buf` holds, unless it has more
    /// elements than a header can count.
    pub fn finish(self, buf: &mut Vec<u8>) -> (r: Result<(), Error>)
        requires
            self.wf(),
        ensures
            appended(old(buf)@, final(buf)@, r, array_result(self@)),
    {
        if self.items.len() > CONTAINER_HEADER_LEN_MASK as usize {
            return Err(Error::InvalidJsonbHeader);
        }
        self.build_into(buf);
        Ok(())
    }

    /// The array in its wire form.
    pub fn build(self) -> (r: Result<Vec<u8>, Error>)
        requires
            self.wf(),
        ensures
            match array_result(self@) {
                Ok(bytes) => r is Ok && r->Ok_0@ == bytes,
                Err(e) => r == Err::<Vec<u8>, Error>(e),
            },
    {
        let mut buf: Vec<u8> = Vec::new();
        match self.finish(&mut buf) {
            Ok(()) => {
                assert(buf@ =~= array_result(self@)->Ok_0);
                Ok(buf)
            },
            Err(e) => Err(e),
        }
    }
}

impl ObjectBuilder {
    /// Writes the object after the bytes that `buf` holds, unless it has more
    /// members than a header can count.
    pub fn finish(self, buf: &mut Vec<u8>) -> (r: Result<(), Error>)
        requires
            self.wf(),
        ensures
            appended(old(buf)@, final(buf)@, r, object_result(self@)),
    {
        if self.entries.len() > CONTAINER_HEADER_LEN_MASK as usize {
            return Err(Error::InvalidJsonbHeader);
        }
        self.build_into(buf);
        Ok(())
    }

    /// The object in its wire form.
    pub fn build(self) -> (r: Result<Vec<u8>, Error>)
        requires
            self.wf(),
        ensures
            match object_result(self@) {
                Ok(bytes) => r is Ok && r->Ok_0@ == bytes,
                Err(e) => r == Err::<Vec<u8>, Error>(e),
            },
    {
        let mut buf: Vec<u8> = Vec::new();
        match self.finish(&mut buf) {
            Ok(()) => {
                assert(buf@ =~= object_result(self@)->Ok_0);
                Ok(buf)
            },
            Err(e) => Err(e),
        }
    }
}

/// The members `base` after `pushes` were put in, in order.
pub open spec fn insert_all(base: Seq<RawEntry>, pushes: Seq<RawEntry>) -> Seq<RawEntry>
    decreases pushes.len(),
{
    if pushes.len() == 0 {
        base
    } else {
        insert_entry(insert_all(base, pushes.drop_last()), pushes.last())
    }
}

/// Pushing two runs of members one after the other is pushing their
/// concatenation.
pub proof fn lemma_insert_all_concat(base: Seq<RawEntry>, a: Seq<RawEntry>, b: Seq<RawEntry>)
    ensures
        insert_all(insert_all(base, a), b) == insert_all(base, a + b),
    decreases b.len(),
{
    if b.len() == 0 {
        assert(a + b =~= a);
    } else {
        lemma_insert_all_concat(base, a, b.drop_last());
        assert((a + b).drop_last() =~= a + b.drop_last());
        assert((a + b).last() == b.last());
    }
}

/// Pushing into an empty builder is building.
pub proof fn lemma_insert_all_empty(pushes: Seq<RawEntry>)
    ensures
        insert_all(Seq::empty(), pushes) == build_entries(pushes),
    decreases pushes.len(),
{
    if pushes.len() > 0 {
        lemma_insert_all_empty(pushes.drop_last());
    }
}

impl ArrayBuilder {
    /// Adds the elements `items`, in order.
    pub fn push_items(&mut self, items: &Vec<Item>)
        requires
            old(self).wf(),
            items_wf(items_view(items@)),
        ensures
            final(self).wf(),
            final(self)@ == old(self)@ + items_view(items@),
    {
        let ghost raw = items_view(items@);
        let mut i: usize = 0;
        proof {
            assert(self@ =~= old(self)@ + raw.take(0));
        }
        while i < items.len()
            invariant
                i <= items@.len(),
                raw == items_view(items@),
                items_wf(raw),
                self.wf(),
                self@ == old(self)@ + raw.take(i as int),
            decreases items@.len() - i,
        {
            let item = &items[i];
            assert(raw[i as int] == item@);
            assert(item_wf(raw[i as int]));
            self.push_raw(item.jentry, item.data);
            proof {
                assert(self@ =~= old(self)@ + raw.take(i + 1));
            }
            i = i + 1;
        }
        proof {
            assert(raw.take(i as int) =~= raw);
        }
    }
}

impl ObjectBuilder {
    /// Adds the members `entries`, in order.
    pub fn push_entries(&mut self, entries: &Vec<Entry>)
        requires
            old(self).wf(),
            entries_wf(entries_view(entries@)),
        ensures
            final(self).wf(),
            final(self)@ == insert_all(old(self)@, entries_view(entries@)),
    {
        let ghost raw = entries_view(entries@);
        let mut i: usize = 0;
        proof {
            assert(raw.take(0) =~= Seq::<RawEntry>::empty());
        }
        while i < entries.len()
            invariant
                i <= entries@.len(),
                raw == entries_view(entries@),
                entries_wf(raw),
                self.wf(),
                self@ == insert_all(old(self)@, raw.take(i as int)),
            decreases entries@.len() - i,
        {
            let e = &entries[i];
            assert(raw[i as int] == e@);
            assert(entry_wf(raw[i as int]));
            self.push_raw(e.key, e.jentry, e.data);
            proof {
                assert(raw.take(i + 1).drop_last() =~= raw.take(i as int));
                assert(raw.take(i + 1).last() == raw[i as int]);
            }
            i = i + 1;
        }
        proof {
            assert(raw.take(i as int) =~= raw);
        }
    }
}

} // verus!
