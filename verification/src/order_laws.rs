//! What holds of the order of values.

use vstd::prelude::*;
use crate::error::Error;
use crate::codec::{read_word, header_tag, header_len};
use crate::constants::{
    ARRAY_CONTAINER_TAG, OBJECT_CONTAINER_TAG, SCALAR_CONTAINER_TAG, CONTAINER_TAG, STRING_TAG,
    NUMBER_TAG,
};
use crate::iterator::{
    RawItem, RawEntry, container_items, object_entries, scalar_item, value_item,
};
use crate::bytes::{Order, int_order, lex_order, lemma_lex_flip, lemma_lex_equal};
use crate::number::{decode_number, be_bytes64};
use crate::codec::{be_bytes, lemma_word_of_be_bytes};
use crate::comparable::item_key;
use crate::order::{
    level_of, item_order, container_order, items_order_from, entries_order_from, value_order,
};

verus! {

/// Two elements that are compared from either side stand to each other in
/// opposite orders.
pub proof fn lemma_item_order_flip(a: RawItem, b: RawItem, bound_a: nat, bound_b: nat)
    requires
        item_order(a, b, bound_a) is Ok,
        item_order(b, a, bound_b) is Ok,
    ensures
        item_order(b, a, bound_b)->Ok_0 == item_order(a, b, bound_a)->Ok_0.flip(),
    decreases bound_a, 1nat, 0nat,
{
    if level_of(a.jentry) != level_of(b.jentry) {
    } else if a.jentry.type_code == CONTAINER_TAG && b.jentry.type_code == CONTAINER_TAG {
        lemma_container_order_flip(a.data, b.data);
    } else if a.jentry.type_code == STRING_TAG && b.jentry.type_code == STRING_TAG {
        lemma_lex_flip(a.data, b.data);
    } else {
    }
}

/// Two arrays or objects that are compared from either side stand to each
/// other in opposite orders.
pub proof fn lemma_container_order_flip(l: Seq<u8>, r: Seq<u8>)
    requires
        container_order(l, r) is Ok,
        container_order(r, l) is Ok,
    ensures
        container_order(r, l)->Ok_0 == container_order(l, r)->Ok_0.flip(),
    decreases l.len(), 3nat, 0nat,
{
    let lh = read_word(l, 0)->Ok_0;
    let rh = read_word(r, 0)->Ok_0;
    if header_tag(lh) == ARRAY_CONTAINER_TAG && header_tag(rh) == ARRAY_CONTAINER_TAG {
        let li = container_items(l, header_len(lh))->Ok_0;
        let ri = container_items(r, header_len(rh))->Ok_0;
        lemma_items_order_flip(li, ri, 0, l.len(), r.len());
    } else if header_tag(lh) == OBJECT_CONTAINER_TAG && header_tag(rh) == OBJECT_CONTAINER_TAG {
        let le = object_entries(l, header_len(lh))->Ok_0;
        let re = object_entries(r, header_len(rh))->Ok_0;
        lemma_entries_order_flip(le, re, 0, l.len(), r.len());
    } else {
    }
}

/// Two runs of elements that are compared from either side stand to each
/// other in opposite orders.
pub proof fn lemma_items_order_flip(li: Seq<RawItem>, ri: Seq<RawItem>, i: nat, bl: nat, br: nat)
    requires
        items_order_from(li, ri, i, bl) is Ok,
        items_order_from(ri, li, i, br) is Ok,
    ensures
        items_order_from(ri, li, i, br)->Ok_0 == items_order_from(li, ri, i, bl)->Ok_0.flip(),
    decreases bl, 2nat, li.len() - i,
{
    if i >= li.len() || i >= ri.len() {
    } else {
        lemma_item_order_flip(li[i as int], ri[i as int], bl, br);
        if item_order(li[i as int], ri[i as int], bl)->Ok_0 == Order::Equal {
            lemma_items_order_flip(li, ri, i + 1, bl, br);
        }
    }
}

/// Two runs of members that are compared from either side stand to each
/// other in opposite orders.
pub proof fn lemma_entries_order_flip(le: Seq<RawEntry>, re: Seq<RawEntry>, i: nat, bl: nat, br: nat)
    requires
        entries_order_from(le, re, i, bl) is Ok,
        entries_order_from(re, le, i, br) is Ok,
    ensures
        entries_order_from(re, le, i, br)->Ok_0 == entries_order_from(le, re, i, bl)->Ok_0.flip(),
    decreases bl, 2nat, le.len() - i,
{
    if i >= le.len() || i >= re.len() {
    } else {
        lemma_lex_flip(le[i as int].key, re[i as int].key);
        if lex_order(le[i as int].key, re[i as int].key) == Order::Equal {
            lemma_item_order_flip(value_item(le[i as int]), value_item(re[i as int]), bl, br);
            if item_order(value_item(le[i as int]), value_item(re[i as int]), bl)->Ok_0
                == Order::Equal {
                lemma_entries_order_flip(le, re, i + 1, bl, br);
            }
        }
    }
}

/// The order of values is antisymmetric: two values that are compared from
/// either side stand to each other in opposite orders.
pub proof fn lemma_value_order_flip(l: Seq<u8>, r: Seq<u8>)
    requires
        value_order(l, r) is Ok,
        value_order(r, l) is Ok,
    ensures
        value_order(r, l)->Ok_0 == value_order(l, r)->Ok_0.flip(),
{
    let lh = read_word(l, 0)->Ok_0;
    let rh = read_word(r, 0)->Ok_0;
    let lt = header_tag(lh);
    let rt = header_tag(rh);
    if lt == SCALAR_CONTAINER_TAG && rt == SCALAR_CONTAINER_TAG {
        lemma_item_order_flip(scalar_item(l)->Ok_0, scalar_item(r)->Ok_0, l.len(), r.len());
    } else if lt == SCALAR_CONTAINER_TAG && (rt == ARRAY_CONTAINER_TAG || rt == OBJECT_CONTAINER_TAG) {
    } else if (lt == ARRAY_CONTAINER_TAG || lt == OBJECT_CONTAINER_TAG) && rt == SCALAR_CONTAINER_TAG {
    } else {
        lemma_container_order_flip(l, r);
    }
}

/// How the order of a first to a third thing follows from the orders of
/// the first to a second and of the second to the third: where neither is
/// greater, the first is not greater than the third; it is less where one of
/// the two is less, and equal where both are equal.
pub open spec fn composes(x: Order, y: Order, z: Order) -> bool {
    (x != Order::Greater && y != Order::Greater) ==> {
        &&& z != Order::Greater
        &&& (x == Order::Less || y == Order::Less) ==> z == Order::Less
        &&& (x == Order::Equal && y == Order::Equal) ==> z == Order::Equal
    }
}

/// The order of byte strings composes.
pub proof fn lemma_lex_composes(a: Seq<u8>, b: Seq<u8>, c: Seq<u8>)
    ensures
        composes(lex_order(a, b), lex_order(b, c), lex_order(a, c)),
{
    if lex_order(a, b) != Order::Greater && lex_order(b, c) != Order::Greater {
        crate::bytes::lemma_lex_transitive(a, b, c);
        lemma_lex_equal(a, b);
        lemma_lex_equal(b, c);
        lemma_lex_equal(a, c);
    }
}

/// The order of elements composes.
pub proof fn lemma_item_order_composes(a: RawItem, b: RawItem, c: RawItem, ba: nat, bb: nat)
    requires
        item_order(a, b, ba) is Ok,
        item_order(b, c, bb) is Ok,
        item_order(a, c, ba) is Ok,
    ensures
        composes(item_order(a, b, ba)->Ok_0, item_order(b, c, bb)->Ok_0, item_order(a, c, ba)->Ok_0),
    decreases ba, 1nat, 0nat,
{
    let la = level_of(a.jentry);
    let lb = level_of(b.jentry);
    let lc = level_of(c.jentry);
    if la == lb && lb == lc {
        if a.jentry.type_code == CONTAINER_TAG {
            lemma_container_order_composes(a.data, b.data, c.data);
        } else if a.jentry.type_code == STRING_TAG {
            lemma_lex_composes(a.data, b.data, c.data);
        } else {
        }
    } else {
    }
}

/// The order of arrays and objects composes.
pub proof fn lemma_container_order_composes(a: Seq<u8>, b: Seq<u8>, c: Seq<u8>)
    requires
        container_order(a, b) is Ok,
        container_order(b, c) is Ok,
        container_order(a, c) is Ok,
    ensures
        composes(container_order(a, b)->Ok_0, container_order(b, c)->Ok_0, container_order(a, c)->Ok_0),
    decreases a.len(), 3nat, 0nat,
{
    let ah = read_word(a, 0)->Ok_0;
    let bh = read_word(b, 0)->Ok_0;
    let ch = read_word(c, 0)->Ok_0;
    let at = header_tag(ah);
    let bt = header_tag(bh);
    let ct = header_tag(ch);
    if at == ARRAY_CONTAINER_TAG && bt == ARRAY_CONTAINER_TAG && ct == ARRAY_CONTAINER_TAG {
        lemma_items_order_composes(
            container_items(a, header_len(ah))->Ok_0,
            container_items(b, header_len(bh))->Ok_0,
            container_items(c, header_len(ch))->Ok_0,
            0,
            a.len(),
            b.len(),
        );
    } else if at == OBJECT_CONTAINER_TAG && bt == OBJECT_CONTAINER_TAG && ct
        == OBJECT_CONTAINER_TAG {
        lemma_entries_order_composes(
            object_entries(a, header_len(ah))->Ok_0,
            object_entries(b, header_len(bh))->Ok_0,
            object_entries(c, header_len(ch))->Ok_0,
            0,
            a.len(),
            b.len(),
        );
    } else {
    }
}

/// The order of runs of elements composes.
pub proof fn lemma_items_order_composes(
    a: Seq<RawItem>,
    b: Seq<RawItem>,
    c: Seq<RawItem>,
    i: nat,
    ba: nat,
    bb: nat,
)
    requires
        items_order_from(a, b, i, ba) is Ok,
        items_order_from(b, c, i, bb) is Ok,
        items_order_from(a, c, i, ba) is Ok,
    ensures
        composes(
            items_order_from(a, b, i, ba)->Ok_0,
            items_order_from(b, c, i, bb)->Ok_0,
            items_order_from(a, c, i, ba)->Ok_0,
        ),
    decreases ba, 2nat, a.len() - i,
{
    if i < a.len() && i < b.len() && i < c.len() {
        let x = item_order(a[i as int], b[i as int], ba)->Ok_0;
        let y = item_order(b[i as int], c[i as int], bb)->Ok_0;
        lemma_item_order_composes(a[i as int], b[i as int], c[i as int], ba, bb);
        if x == Order::Equal && y == Order::Equal {
            lemma_items_order_composes(a, b, c, i + 1, ba, bb);
        }
    }
}

/// The order of runs of members composes.
pub proof fn lemma_entries_order_composes(
    a: Seq<RawEntry>,
    b: Seq<RawEntry>,
    c: Seq<RawEntry>,
    i: nat,
    ba: nat,
    bb: nat,
)
    requires
        entries_order_from(a, b, i, ba) is Ok,
        entries_order_from(b, c, i, bb) is Ok,
        entries_order_from(a, c, i, ba) is Ok,
    ensures
        composes(
            entries_order_from(a, b, i, ba)->Ok_0,
            entries_order_from(b, c, i, bb)->Ok_0,
            entries_order_from(a, c, i, ba)->Ok_0,
        ),
    decreases ba, 2nat, a.len() - i,
{
    if i < a.len() && i < b.len() && i < c.len() {
        let ka = a[i as int].key;
        let kb = b[i as int].key;
        let kc = c[i as int].key;
        lemma_lex_composes(ka, kb, kc);
        if lex_order(ka, kb) == Order::Equal && lex_order(kb, kc) == Order::Equal {
            let x = item_order(value_item(a[i as int]), value_item(b[i as int]), ba)->Ok_0;
            let y = item_order(value_item(b[i as int]), value_item(c[i as int]), bb)->Ok_0;
            lemma_item_order_composes(
                value_item(a[i as int]),
                value_item(b[i as int]),
                value_item(c[i as int]),
                ba,
                bb,
            );
            if x == Order::Equal && y == Order::Equal {
                lemma_entries_order_composes(a, b, c, i + 1, ba, bb);
            }
        }
    }
}

/// The order of values is transitive: of three values that can be compared
/// with one another, the first is not greater than the third where it is not
/// greater than the second and the second not greater than the third; it
/// is less where one of the two is less, and equal where both are equal.
pub proof fn lemma_value_order_composes(a: Seq<u8>, b: Seq<u8>, c: Seq<u8>)
    requires
        value_order(a, b) is Ok,
        value_order(b, c) is Ok,
        value_order(a, c) is Ok,
    ensures
        composes(value_order(a, b)->Ok_0, value_order(b, c)->Ok_0, value_order(a, c)->Ok_0),
{
    let at = header_tag(read_word(a, 0)->Ok_0);
    let bt = header_tag(read_word(b, 0)->Ok_0);
    let ct = header_tag(read_word(c, 0)->Ok_0);
    if at == SCALAR_CONTAINER_TAG && bt == SCALAR_CONTAINER_TAG && ct == SCALAR_CONTAINER_TAG {
        lemma_item_order_composes(
            scalar_item(a)->Ok_0,
            scalar_item(b)->Ok_0,
            scalar_item(c)->Ok_0,
            a.len(),
            b.len(),
        );
    } else if at != SCALAR_CONTAINER_TAG && bt != SCALAR_CONTAINER_TAG && ct
        != SCALAR_CONTAINER_TAG {
        lemma_container_order_composes(a, b, c);
    } else {
    }
}

/// Of two byte strings that start with parts of one length, the parts
/// decide the order where they differ, and what follows them where they are
/// the same.
pub proof fn lemma_lex_concat(a: Seq<u8>, x: Seq<u8>, b: Seq<u8>, y: Seq<u8>)
    requires
        a.len() == b.len(),
    ensures
        lex_order(a + x, b + y) == if lex_order(a, b) != Order::Equal {
            lex_order(a, b)
        } else {
            lex_order(x, y)
        },
    decreases a.len(),
{
    if a.len() == 0 {
        assert(a + x =~= x);
        assert(b + y =~= y);
    } else {
        assert((a + x)[0] == a[0]);
        assert((b + y)[0] == b[0]);
        assert((a + x).drop_first() =~= a.drop_first() + x);
        assert((b + y).drop_first() =~= b.drop_first() + y);
        if a[0] == b[0] {
            lemma_lex_concat(a.drop_first(), x, b.drop_first(), y);
        }
    }
}

/// The order of two words is the order of their bytes, most significant
/// first.
pub proof fn lemma_word_bytes_order(x: u32, y: u32)
    ensures
        lex_order(be_bytes(x), be_bytes(y)) == int_order(x as int, y as int),
{
    let a = be_bytes(x);
    let b = be_bytes(y);
    lemma_word_of_be_bytes(x);
    lemma_word_of_be_bytes(y);
    assert(x == a[0] as int * 0x1000000 + a[1] as int * 0x10000 + a[2] as int * 0x100 + a[3] as int);
    assert(y == b[0] as int * 0x1000000 + b[1] as int * 0x10000 + b[2] as int * 0x100 + b[3] as int);
    let a1 = a.drop_first();
    let b1 = b.drop_first();
    let a2 = a1.drop_first();
    let b2 = b1.drop_first();
    let a3 = a2.drop_first();
    let b3 = b2.drop_first();
    assert(a1[0] == a[1] && a2[0] == a[2] && a3[0] == a[3]);
    assert(b1[0] == b[1] && b2[0] == b[2] && b3[0] == b[3]);
    assert(a3.drop_first().len() == 0 && b3.drop_first().len() == 0);
    assert(lex_order(a3.drop_first(), b3.drop_first()) == Order::Equal);
    assert(lex_order(a3, b3) == int_order(a[3] as int, b[3] as int));
    assert(lex_order(a2, b2) == if a[2] != b[2] {
        int_order(a[2] as int, b[2] as int)
    } else {
        lex_order(a3, b3)
    });
    assert(lex_order(a1, b1) == if a[1] != b[1] {
        int_order(a[1] as int, b[1] as int)
    } else {
        lex_order(a2, b2)
    });
    assert(lex_order(a, b) == if a[0] != b[0] {
        int_order(a[0] as int, b[0] as int)
    } else {
        lex_order(a1, b1)
    });
}

/// The order of two 64-bit words is the order of their bytes, most
/// significant first.
pub proof fn lemma_word64_bytes_order(x: u64, y: u64)
    ensures
        lex_order(be_bytes64(x), be_bytes64(y)) == int_order(x as int, y as int),
{
    let xh = (x / 0x1_0000_0000) as u32;
    let xl = (x % 0x1_0000_0000) as u32;
    let yh = (y / 0x1_0000_0000) as u32;
    let yl = (y % 0x1_0000_0000) as u32;
    lemma_word_bytes_order(xh, yh);
    lemma_word_bytes_order(xl, yl);
    lemma_word_of_be_bytes(xh);
    lemma_word_of_be_bytes(yh);
    lemma_lex_concat(be_bytes(xh), be_bytes(xl), be_bytes(yh), be_bytes(yl));
    assert(x == xh as int * 0x1_0000_0000 + xl as int);
    assert(y == yh as int * 0x1_0000_0000 + yl as int);
}

/// The key of a scalar at the outermost depth.
pub open spec fn scalar_key(item: RawItem) -> Result<Seq<u8>, Error> {
    item_key(item, 0, item.data.len() + 1)
}

/// For two scalars that are no nested containers, the order of the values
/// is the order of the bytes of their keys.
pub proof fn lemma_scalar_keys_order(a: RawItem, b: RawItem)
    requires
        a.jentry.type_code != CONTAINER_TAG,
        b.jentry.type_code != CONTAINER_TAG,
        item_order(a, b, a.data.len() + 1) is Ok,
        scalar_key(a) is Ok,
        scalar_key(b) is Ok,
    ensures
        lex_order(scalar_key(a)->Ok_0, scalar_key(b)->Ok_0) == item_order(
            a,
            b,
            a.data.len() + 1,
        )->Ok_0,
{
    let la = level_of(a.jentry);
    let lb = level_of(b.jentry);
    let ha = seq![0u8, la];
    let hb = seq![0u8, lb];
    assert(lex_order(ha, hb) == int_order(la as int, lb as int)) by {
        let ha1 = ha.drop_first();
        let hb1 = hb.drop_first();
        assert(ha1[0] == la && hb1[0] == lb);
        assert(ha1.drop_first().len() == 0 && hb1.drop_first().len() == 0);
        assert(lex_order(ha1.drop_first(), hb1.drop_first()) == Order::Equal);
        assert(lex_order(ha1, hb1) == int_order(la as int, lb as int));
    }
    let ta = if a.jentry.type_code == STRING_TAG {
        a.data
    } else if a.jentry.type_code == NUMBER_TAG {
        be_bytes64(decode_number(a.data)->Ok_0.order_key())
    } else {
        Seq::<u8>::empty()
    };
    let tb = if b.jentry.type_code == STRING_TAG {
        b.data
    } else if b.jentry.type_code == NUMBER_TAG {
        be_bytes64(decode_number(b.data)->Ok_0.order_key())
    } else {
        Seq::<u8>::empty()
    };
    assert(scalar_key(a)->Ok_0 =~= ha + ta);
    assert(scalar_key(b)->Ok_0 =~= hb + tb);
    lemma_lex_concat(ha, ta, hb, tb);
    if la == lb {
        if a.jentry.type_code == NUMBER_TAG {
            lemma_word64_bytes_order(
                decode_number(a.data)->Ok_0.order_key(),
                decode_number(b.data)->Ok_0.order_key(),
            );
        }
    }
}

} // verus!
