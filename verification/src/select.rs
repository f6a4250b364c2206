//! Choosing the elements of a sequence by their positions.

use vstd::prelude::*;
use crate::builder::{ArrayBuilder, ObjectBuilder, insert_all};
use crate::iterator::{
    Item, Entry, RawItem, RawEntry, items_view, entries_view, items_wf, entries_wf, item_wf, entry_wf,
};

verus! {

/// The elements of `s` at the positions that `keep` holds of, in order.
pub open spec fn keep_where<A>(s: Seq<A>, keep: spec_fn(int) -> bool) -> Seq<A>
    decreases s.len(),
{
    if s.len() == 0 {
        s
    } else {
        let front = keep_where(s.drop_last(), keep);
        if keep(s.len() - 1) {
            front.push(s.last())
        } else {
            front
        }
    }
}

/// Two choices that agree on the positions of `s` choose the same elements.
pub proof fn lemma_keep_where_agree<A>(s: Seq<A>, f: spec_fn(int) -> bool, g: spec_fn(int) -> bool)
    requires
        forall|i: int| 0 <= i < s.len() ==> #[trigger] f(i) == g(i),
    ensures
        keep_where(s, f) == keep_where(s, g),
    decreases s.len(),
{
    if s.len() > 0 {
        lemma_keep_where_agree(s.drop_last(), f, g);
    }
}

impl ArrayBuilder {
    /// Adds the elements of `items` whose flag is set, in order.
    pub fn push_selected(&mut self, items: &Vec<Item>, flags: &Vec<bool>)
        requires
            old(self).wf(),
            items_wf(items_view(items@)),
            flags@.len() == items@.len(),
        ensures
            final(self).wf(),
            final(self)@ == old(self)@ + keep_where(items_view(items@), |i: int| flags@[i]),
    {
        let ghost raw = items_view(items@);
        let ghost keep = |i: int| flags@[i];
        let mut i: usize = 0;
        proof {
            assert(self@ =~= old(self)@ + keep_where(raw.take(0), keep));
        }
        while i < items.len()
            invariant
                i <= items@.len(),
                flags@.len() == items@.len(),
                raw == items_view(items@),
                keep == (|i: int| flags@[i]),
                items_wf(raw),
                self.wf(),
                self@ == old(self)@ + keep_where(raw.take(i as int), keep),
            decreases items@.len() - i,
        {
            let item = &items[i];
            proof {
                assert(raw[i as int] == item@);
                assert(item_wf(raw[i as int]));
                assert(raw.take(i + 1).drop_last() =~= raw.take(i as int));
                assert(raw.take(i + 1).last() == raw[i as int]);
            }
            if flags[i] {
                self.push_raw(item.jentry, item.data);
                proof {
                    assert(self@ =~= old(self)@ + keep_where(raw.take(i + 1), keep));
                }
            }
            i = i + 1;
        }
        proof {
            assert(raw.take(i as int) =~= raw);
        }
    }
}

impl ObjectBuilder {
    /// Adds the members of `entries` whose flag is set, in order.
    pub fn push_selected(&mut self, entries: &Vec<Entry>, flags: &Vec<bool>)
        requires
            old(self).wf(),
            entries_wf(entries_view(entries@)),
            flags@.len() == entries@.len(),
        ensures
            final(self).wf(),
            final(self)@ == insert_all(
                old(self)@,
                keep_where(entries_view(entries@), |i: int| flags@[i]),
            ),
    {
        let ghost raw = entries_view(entries@);
        let ghost keep = |i: int| flags@[i];
        let mut i: usize = 0;
        while i < entries.len()
            invariant
                i <= entries@.len(),
                flags@.len() == entries@.len(),
                raw == entries_view(entries@),
                keep == (|i: int| flags@[i]),
                entries_wf(raw),
                self.wf(),
                self@ == insert_all(old(self)@, keep_where(raw.take(i as int), keep)),
            decreases entries@.len() - i,
        {
            let e = &entries[i];
            proof {
                assert(raw[i as int] == e@);
                assert(entry_wf(raw[i as int]));
                assert(raw.take(i + 1).drop_last() =~= raw.take(i as int));
                assert(raw.take(i + 1).last() == raw[i as int]);
                let kept = keep_where(raw.take(i as int), keep);
                if flags@[i as int] {
                    assert(kept.push(raw[i as int]).drop_last() =~= kept);
                }
            }
            if flags[i] {
                self.push_raw(e.key, e.jentry, e.data);
            }
            i = i + 1;
        }
        proof {
            assert(raw.take(i as int) =~= raw);
        }
    }
}

/// The elements `items` with the one at position `k` taken out, or with
/// `replacement` in its place.
pub open spec fn replaced_item(items: Seq<RawItem>, k: int, replacement: Option<RawItem>) -> Seq<
    RawItem,
> {
    match replacement {
        None => items.remove(k),
        Some(item) => items.update(k, item),
    }
}

/// The members `entries` with the one at position `k` taken out, or with its
/// value replaced.
pub open spec fn replaced_entry(entries: Seq<RawEntry>, k: int, replacement: Option<RawItem>) -> Seq<
    RawEntry,
> {
    match replacement {
        None => entries.remove(k),
        Some(item) => entries.update(
            k,
            RawEntry { key: entries[k].key, jentry: item.jentry, data: item.data },
        ),
    }
}

impl ArrayBuilder {
    /// A builder with the elements `items`, the one at position `k` taken
    /// out or replaced.
    pub fn with_replaced(items: &Vec<Item>, k: usize, replacement: Option<Item>) -> (r: ArrayBuilder)
        requires
            k < items@.len(),
            items_wf(items_view(items@)),
            replacement is Some ==> item_wf(replacement->Some_0@),
        ensures
            r.wf(),
            r@ == replaced_item(
                items_view(items@),
                k as int,
                match replacement {
                    Some(item) => Some(item@),
                    None => None,
                },
            ),
    {
        let ghost raw = items_view(items@);
        let ghost target = replaced_item(
            raw,
            k as int,
            match replacement {
                Some(item) => Some(item@),
                None => None,
            },
        );
        let mut builder = ArrayBuilder::new(items.len());
        let mut j: usize = 0;
        proof {
            assert(builder@ =~= target.take(0));
        }
        while j < items.len()
            invariant
                j <= items@.len(),
                k < items@.len(),
                raw == items_view(items@),
                items_wf(raw),
                replacement is Some ==> item_wf(replacement->Some_0@),
                target == replaced_item(
                    raw,
                    k as int,
                    match replacement {
                        Some(item) => Some(item@),
                        None => None,
                    },
                ),
                builder.wf(),
                builder@ == target.take(
                    if replacement is None && j > k {
                        j - 1
                    } else {
                        j as int
                    },
                ),
            decreases items@.len() - j,
        {
            let item = &items[j];
            assert(raw[j as int] == item@);
            assert(item_wf(raw[j as int]));
            if j == k {
                match &replacement {
                    Some(new_item) => {
                        builder.push_raw(new_item.jentry, new_item.data);
                        proof {
                            assert(builder@ =~= target.take(j + 1));
                        }
                    },
                    None => {},
                }
            } else {
                builder.push_raw(item.jentry, item.data);
                proof {
                    assert(builder@ =~= target.take(
                        if replacement is None && j + 1 > k {
                            j as int
                        } else {
                            j + 1
                        },
                    ));
                }
            }
            j = j + 1;
        }
        proof {
            assert(builder@ =~= target);
        }
        builder
    }
}

impl ObjectBuilder {
    /// A builder with the members `entries`, the one at position `k` taken
    /// out or given another value.
    pub fn with_replaced(entries: &Vec<Entry>, k: usize, replacement: Option<Item>) -> (r:
        ObjectBuilder)
        requires
            k < entries@.len(),
            entries_wf(entries_view(entries@)),
            replacement is Some ==> item_wf(replacement->Some_0@),
        ensures
            r.wf(),
            r@ == insert_all(
                Seq::empty(),
                replaced_entry(
                    entries_view(entries@),
                    k as int,
                    match replacement {
                        Some(item) => Some(item@),
                        None => None,
                    },
                ),
            ),
    {
        let ghost es = entries_view(entries@);
        let ghost target = replaced_entry(
            es,
            k as int,
            match replacement {
                Some(item) => Some(item@),
                None => None,
            },
        );
        let mut builder = ObjectBuilder::new();
        let mut j: usize = 0;
        proof {
            assert(target.take(0) =~= Seq::<RawEntry>::empty());
        }
        while j < entries.len()
            invariant
                j <= entries@.len(),
                k < entries@.len(),
                es == entries_view(entries@),
                entries_wf(es),
                replacement is Some ==> item_wf(replacement->Some_0@),
                target == replaced_entry(
                    es,
                    k as int,
                    match replacement {
                        Some(item) => Some(item@),
                        None => None,
                    },
                ),
                builder.wf(),
                builder@ == insert_all(
                    Seq::empty(),
                    target.take(
                        if replacement is None && j > k {
                            j - 1
                        } else {
                            j as int
                        },
                    ),
                ),
            decreases entries@.len() - j,
        {
            let e = &entries[j];
            assert(es[j as int] == e@);
            assert(entry_wf(es[j as int]));
            if j == k {
                match &replacement {
                    Some(new_item) => {
                        builder.push_raw(e.key, new_item.jentry, new_item.data);
                        proof {
                            assert(target.take(j + 1).drop_last() =~= target.take(j as int));
                            assert(target.take(j + 1).last() == target[j as int]);
                        }
                    },
                    None => {},
                }
            } else {
                builder.push_raw(e.key, e.jentry, e.data);
                proof {
                    let p: int = if replacement is None && j > k {
                        j - 1
                    } else {
                        j as int
                    };
                    assert(target.take(p + 1).drop_last() =~= target.take(p));
                    assert(target.take(p + 1).last() == target[p]);
                    assert(target[p] == es[j as int]);
                }
            }
            j = j + 1;
        }
        proof {
            let p: int = if replacement is None && j > k {
                j - 1
            } else {
                j as int
            };
            assert(target.take(p) =~= target);
        }
        builder
    }
}

} // verus!
