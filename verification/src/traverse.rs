//! A test of all the strings of a value, level by level.

use vstd::prelude::*;
use vstd::slice::slice_to_vec;
use crate::error::Error;
use crate::raw::RawJsonb;
use crate::access::vecs_view;
use crate::codec::{read_u32, read_word, header_tag, header_len, decode_header};
use crate::constants::{
    ARRAY_CONTAINER_TAG, OBJECT_CONTAINER_TAG, SCALAR_CONTAINER_TAG, CONTAINER_TAG, STRING_TAG,
};
use crate::iterator::{RawItem, items_view, container_items, scan_items};

verus! {

/// The slots of a value: the one of a scalar, the elements of an array, and
/// the keys and the values of an object.
pub open spec fn slots_of(s: Seq<u8>) -> Result<Seq<RawItem>, Error> {
    match read_word(s, 0) {
        Err(e) => Err(e),
        Ok(h) => if header_tag(h) == SCALAR_CONTAINER_TAG {
            container_items(s, 1)
        } else if header_tag(h) == ARRAY_CONTAINER_TAG {
            container_items(s, header_len(h))
        } else if header_tag(h) == OBJECT_CONTAINER_TAG {
            container_items(s, 2 * header_len(h))
        } else {
            Err(Error::InvalidJsonb)
        },
    }
}

/// Whether `pred` holds of a string among the slots from position `i` on.
pub open spec fn some_string_from(slots: Seq<RawItem>, i: nat, pred: spec_fn(Seq<u8>) -> bool) -> bool
    decreases slots.len() - i,
{
    if i >= slots.len() {
        false
    } else if slots[i as int].jentry.type_code == STRING_TAG && pred(slots[i as int].data) {
        true
    } else {
        some_string_from(slots, i + 1, pred)
    }
}

/// The containers `acc` with the nested containers among the slots from
/// position `i` on.
pub open spec fn nested_from(slots: Seq<RawItem>, i: nat, acc: Seq<Seq<u8>>) -> Seq<Seq<u8>>
    decreases slots.len() - i,
{
    if i >= slots.len() {
        acc
    } else if slots[i as int].jentry.type_code == CONTAINER_TAG {
        nested_from(slots, i + 1, acc.push(slots[i as int].data))
    } else {
        nested_from(slots, i + 1, acc)
    }
}

/// Whether `pred` holds of a string in the containers of one level from
/// position `i` on, or in a level below, for which `next` holds the
/// containers found so far. The containers are taken in order, each with
/// its strings in order, and a level before the level below it; `depth`
/// is the number of levels that may follow.
pub open spec fn check_level(
    level: Seq<Seq<u8>>,
    i: nat,
    next: Seq<Seq<u8>>,
    pred: spec_fn(Seq<u8>) -> bool,
    depth: nat,
) -> Result<bool, Error>
    decreases depth, level.len() - i,
{
    if i >= level.len() {
        if next.len() == 0 {
            Ok(false)
        } else if depth > 0 {
            check_level(next, 0, Seq::empty(), pred, (depth - 1) as nat)
        } else {
            Err(Error::InvalidJsonb)
        }
    } else {
        match slots_of(level[i as int]) {
            Err(e) => Err(e),
            Ok(slots) => if some_string_from(slots, 0, pred) {
                Ok(true)
            } else {
                check_level(level, i + 1, nested_from(slots, 0, next), pred, depth)
            },
        }
    }
}

/// What a function says of bytes: that it can give `true` for them.
pub open spec fn accepts<F: Fn(&[u8]) -> bool>(func: F) -> spec_fn(Seq<u8>) -> bool {
    |s: Seq<u8>| exists|x: &[u8]| x@ == s && #[trigger] func.ensures((x,), true)
}

/// A function that can be called on all bytes and that decides by the bytes
/// alone.
pub open spec fn decides<F: Fn(&[u8]) -> bool>(func: F) -> bool {
    &&& forall|x: &[u8]| #[trigger] func.requires((x,))
    &&& forall|x: &[u8], y: &[u8]|
        x@ == y@ && #[trigger] func.ensures((x,), true) ==> !#[trigger] func.ensures((y,), false)
}

impl<'a> RawJsonb<'a> {
    /// Whether `func` gives `true` for one of the strings of the value, its
    /// keys among them, taken level by level.
    pub fn traverse_check_string<F: Fn(&[u8]) -> bool>(&self, func: F) -> (r: Result<bool, Error>)
        requires
            decides(func),
        ensures
            r == check_level(seq![self@], 0, Seq::empty(), accepts(func), self@.len()),
    {
        let value = self.0;
        let mut level: Vec<Vec<u8>> = Vec::new();
        level.push(slice_to_vec(value));
        let mut depth: usize = value.len();
        let ghost pred = accepts(func);
        proof {
            assert(vecs_view(level@) =~= seq![self@]);
        }
        loop
            invariant
                decides(func),
                pred == accepts(func),
                check_level(vecs_view(level@), 0, Seq::empty(), pred, depth as nat) == check_level(
                    seq![self@],
                    0,
                    Seq::empty(),
                    pred,
                    self@.len(),
                ),
            decreases depth,
        {
            let mut next: Vec<Vec<u8>> = Vec::new();
            proof {
                assert(vecs_view(next@) =~= Seq::<Seq<u8>>::empty());
            }
            let ghost lv = vecs_view(level@);
            let mut i: usize = 0;
            while i < level.len()
                invariant
                    i <= level@.len(),
                    decides(func),
                    pred == accepts(func),
                    lv == vecs_view(level@),
                    check_level(lv, i as nat, vecs_view(next@), pred, depth as nat) == check_level(
                        seq![self@],
                        0,
                        Seq::empty(),
                        pred,
                        self@.len(),
                    ),
                decreases level@.len() - i,
            {
                assert(lv[i as int] == level@[i as int]@);
                let container = level[i].as_slice();
                let header = read_u32(container, 0)?;
                let (tag, length) = decode_header(header);
                let count = if tag == SCALAR_CONTAINER_TAG {
                    1
                } else if tag == ARRAY_CONTAINER_TAG {
                    length
                } else if tag == OBJECT_CONTAINER_TAG {
                    2 * length
                } else {
                    return Err(Error::InvalidJsonb);
                };
                let slots = scan_items(container, count)?;
                let ghost raw = items_view(slots@);
                let ghost next_before = vecs_view(next@);
                let mut j: usize = 0;
                while j < slots.len()
                    invariant
                        j <= slots@.len(),
                        i < level@.len(),
                        decides(func),
                        pred == accepts(func),
                        lv == vecs_view(level@),
                        raw == items_view(slots@),
                        slots_of(lv[i as int]) == Ok::<Seq<RawItem>, Error>(raw),
                        some_string_from(raw, j as nat, pred) == some_string_from(raw, 0, pred),
                        nested_from(raw, j as nat, vecs_view(next@)) == nested_from(
                            raw,
                            0,
                            next_before,
                        ),
                        check_level(lv, i as nat, next_before, pred, depth as nat) == check_level(
                            seq![self@],
                            0,
                            Seq::empty(),
                            pred,
                            self@.len(),
                        ),
                    decreases slots@.len() - j,
                {
                    let slot = &slots[j];
                    assert(raw[j as int] == slot@);
                    if slot.jentry.type_code == STRING_TAG {
                        let hit = func(slot.data);
                        proof {
                            if hit {
                                assert(pred(slot.data@));
                            } else {
                                assert(!pred(slot.data@));
                            }
                        }
                        if hit {
                            return Ok(true);
                        }
                    } else if slot.jentry.type_code == CONTAINER_TAG {
                        let c = slice_to_vec(slot.data);
                        proof {
                            assert(vecs_view(next@.push(c)) =~= vecs_view(next@).push(c@));
                        }
                        next.push(c);
                    }
                    j = j + 1;
                }
                i = i + 1;
            }
            if next.len() == 0 {
                return Ok(false);
            }
            if depth == 0 {
                return Err(Error::InvalidJsonb);
            }
            depth = depth - 1;
            level = next;
        }
    }
}

} // verus!
