//! Operations on values as trees.

use vstd::prelude::*;
use crate::number::Number;
use crate::keypath::KeyPath;
use crate::mutate::{from_end, resolve_index};
use vstd::string::StringSliceAdditionalSpecFns;
use crate::value::{
    Value, Member, string_bytes, bytes_of, insert_member, insert_into, same_tree,
};
use crate::bytes::{Order, lex_order, bytes_eq};

verus! {

/// What a value is: a tree of scalars, sequences and keyed sequences.
pub enum Tree {
    Null,
    Bool(bool),
    String(Seq<char>),
    Number(Number),
    Array(Seq<Tree>),
    Object(Seq<(Seq<char>, Tree)>),
}

impl Value {
    /// What the value is.
    pub open spec fn tree(self) -> Tree
        decreases self, 0nat,
    {
        match self {
            Value::Null => Tree::Null,
            Value::Bool(v) => Tree::Bool(v),
            Value::String(s) => Tree::String(s@),
            Value::Number(n) => Tree::Number(n),
            Value::Array(vs) => Tree::Array(trees_upto(vs@, vs@.len())),
            Value::Object(ms) => Tree::Object(pairs_upto(ms@, ms@.len())),
        }
    }
}

/// What the first `k` values are.
pub open spec fn trees_upto(vs: Seq<Value>, k: nat) -> Seq<Tree>
    decreases vs, k,
{
    if k == 0 || k > vs.len() {
        Seq::empty()
    } else {
        trees_upto(vs, (k - 1) as nat).push(vs[k - 1].tree())
    }
}

/// What the first `k` members are.
pub open spec fn pairs_upto(ms: Seq<Member>, k: nat) -> Seq<(Seq<char>, Tree)>
    decreases ms, k,
{
    if k == 0 || k > ms.len() {
        Seq::empty()
    } else {
        pairs_upto(ms, (k - 1) as nat).push((ms[k - 1].key@, ms[k - 1].value.tree()))
    }
}

/// What values are.
pub open spec fn trees_of(vs: Seq<Value>) -> Seq<Tree> {
    trees_upto(vs, vs.len())
}

/// What members are.
pub open spec fn pairs_of(ms: Seq<Member>) -> Seq<(Seq<char>, Tree)> {
    pairs_upto(ms, ms.len())
}

/// What the first values are is, value by value, what each value is.
pub proof fn lemma_trees_upto(vs: Seq<Value>, k: nat)
    requires
        k <= vs.len(),
    ensures
        trees_upto(vs, k).len() == k,
        forall|i: int| 0 <= i < k ==> #[trigger] trees_upto(vs, k)[i] == vs[i].tree(),
    decreases k,
{
    if k > 0 {
        lemma_trees_upto(vs, (k - 1) as nat);
    }
}

/// What the first members are is, member by member, what each member is.
pub proof fn lemma_pairs_upto(ms: Seq<Member>, k: nat)
    requires
        k <= ms.len(),
    ensures
        pairs_upto(ms, k).len() == k,
        forall|i: int|
            0 <= i < k ==> #[trigger] pairs_upto(ms, k)[i] == (ms[i].key@, ms[i].value.tree()),
    decreases k,
{
    if k > 0 {
        lemma_pairs_upto(ms, (k - 1) as nat);
    }
}

/// What values are is, value by value, what each value is.
pub proof fn lemma_trees_of(vs: Seq<Value>)
    ensures
        trees_of(vs).len() == vs.len(),
        forall|i: int| 0 <= i < vs.len() ==> #[trigger] trees_of(vs)[i] == vs[i].tree(),
{
    lemma_trees_upto(vs, vs.len());
}

/// What members are is, member by member, what each member is.
pub proof fn lemma_pairs_of(ms: Seq<Member>)
    ensures
        pairs_of(ms).len() == ms.len(),
        forall|i: int|
            0 <= i < ms.len() ==> #[trigger] pairs_of(ms)[i] == (ms[i].key@, ms[i].value.tree()),
{
    lemma_pairs_upto(ms, ms.len());
}

/// The bytes of a key.
pub open spec fn key_bytes(key: Seq<char>) -> Seq<u8> {
    vstd::utf8::encode_utf8(key)
}

/// The pairs `pairs` with the pair of `key` and `tree` put in by its key: in
/// front of the pairs with a greater key, and in place of the pair with the
/// same key.
pub open spec fn insert_pair(pairs: Seq<(Seq<char>, Tree)>, key: Seq<char>, tree: Tree) -> Seq<
    (Seq<char>, Tree),
>
    decreases pairs.len(),
{
    if pairs.len() == 0 {
        seq![(key, tree)]
    } else {
        match lex_order(key_bytes(pairs.last().0), key_bytes(key)) {
            Order::Less => pairs.push((key, tree)),
            Order::Equal => pairs.drop_last().push((key, tree)),
            Order::Greater => insert_pair(pairs.drop_last(), key, tree).push(pairs.last()),
        }
    }
}

/// The pairs `base` with the pairs `more` put in, in order.
pub open spec fn insert_pairs(base: Seq<(Seq<char>, Tree)>, more: Seq<(Seq<char>, Tree)>) -> Seq<
    (Seq<char>, Tree),
>
    decreases more.len(),
{
    if more.len() == 0 {
        base
    } else {
        insert_pair(insert_pairs(base, more.drop_last()), more.last().0, more.last().1)
    }
}

/// What members are after a member is put in is what they were with its
/// pair put in.
pub proof fn lemma_insert_member_pairs(ms: Seq<Member>, m: Member)
    ensures
        pairs_of(insert_member(ms, m)) == insert_pair(pairs_of(ms), m.key@, m.value.tree()),
    decreases ms.len(),
{
    let r = insert_member(ms, m);
    lemma_pairs_of(ms);
    lemma_pairs_of(r);
    if ms.len() == 0 {
        assert(pairs_of(r) =~= seq![(m.key@, m.value.tree())]);
    } else {
        let front = ms.drop_last();
        lemma_pairs_of(front);
        assert(pairs_of(ms).last() == (ms.last().key@, ms.last().value.tree()));
        assert(pairs_of(ms).drop_last() =~= pairs_of(front));
        match lex_order(string_bytes(ms.last().key), string_bytes(m.key)) {
            Order::Less => {
                assert(pairs_of(r) =~= pairs_of(ms).push((m.key@, m.value.tree())));
            },
            Order::Equal => {
                assert(pairs_of(r) =~= pairs_of(front).push((m.key@, m.value.tree())));
            },
            Order::Greater => {
                lemma_insert_member_pairs(front, m);
                let inner = insert_member(front, m);
                lemma_pairs_of(inner);
                assert(pairs_of(r) =~= pairs_of(inner).push(
                    (ms.last().key@, ms.last().value.tree()),
                ));
            },
        }
    }
}

/// What concatenating two trees gives: of two objects the object with the
/// pairs of both, the right one's where a key is in both; else the array of
/// the elements of both, a tree that is no array being one element.
pub open spec fn concat_trees(left: Tree, right: Tree) -> Tree {
    match (left, right) {
        (Tree::Object(l), Tree::Object(r)) => Tree::Object(insert_pairs(l, r)),
        (Tree::Array(l), Tree::Array(r)) => Tree::Array(l + r),
        (l, Tree::Array(r)) => Tree::Array(seq![l] + r),
        (Tree::Array(l), r) => Tree::Array(l.push(r)),
        (l, r) => Tree::Array(seq![l, r]),
    }
}

/// Concatenates two values.
pub fn concat_values(left: Value, right: Value) -> (r: Value)
    ensures
        r.tree() == concat_trees(left.tree(), right.tree()),
{
    match (left, right) {
        (Value::Object(l), Value::Object(r)) => {
            let ghost lp = pairs_of(l@);
            let ghost rp = pairs_of(r@);
            let mut result = l;
            let mut rest = r;
            let ghost mut k: int = 0;
            proof {
                lemma_pairs_of(r@);
                assert(rp.take(0) =~= Seq::<(Seq<char>, Tree)>::empty());
                assert(rp.skip(0) =~= rp);
            }
            while rest.len() > 0
                invariant
                    0 <= k,
                    k + rest@.len() == rp.len(),
                    pairs_of(rest@) == rp.skip(k),
                    pairs_of(result@) == insert_pairs(lp, rp.take(k)),
                decreases rest@.len(),
            {
                let ghost before = rest@;
                let m = rest.remove(0);
                proof {
                    lemma_pairs_of(before);
                    lemma_pairs_of(rest@);
                    assert(rp[k] == rp.skip(k)[0]);
                    assert(rp[k] == (m.key@, m.value.tree()));
                    assert forall|i: int| 0 <= i < rest@.len() implies pairs_of(rest@)[i] == rp.skip(
                        k + 1,
                    )[i] by {
                        assert(rest@[i] == before[i + 1]);
                        assert(pairs_of(before)[i + 1] == rp.skip(k)[i + 1]);
                    }
                    assert(pairs_of(rest@) =~= rp.skip(k + 1));
                    lemma_insert_member_pairs(result@, m);
                    assert(rp.take(k + 1).drop_last() =~= rp.take(k));
                    assert(rp.take(k + 1).last() == rp[k]);
                }
                insert_into(&mut result, m.key, m.value);
                proof {
                    k = k + 1;
                }
            }
            proof {
                assert(rp.take(k) =~= rp);
            }
            Value::Object(result)
        },
        (Value::Array(l), Value::Array(r)) => {
            let ghost lt = trees_of(l@);
            let ghost rt = trees_of(r@);
            let mut result = l;
            let mut rest = r;
            result.append(&mut rest);
            proof {
                lemma_trees_of(l@);
                lemma_trees_of(r@);
                lemma_trees_of(result@);
                assert(trees_of(result@) =~= lt + rt);
            }
            Value::Array(result)
        },
        (l, Value::Array(r)) => {
            let ghost rt = trees_of(r@);
            let mut result: Vec<Value> = Vec::new();
            let mut rest = r;
            result.push(l);
            result.append(&mut rest);
            proof {
                lemma_trees_of(r@);
                lemma_trees_of(result@);
                assert(trees_of(result@) =~= seq![l.tree()] + rt);
            }
            Value::Array(result)
        },
        (Value::Array(l), r) => {
            let ghost lt = trees_of(l@);
            let mut result = l;
            result.push(r);
            proof {
                lemma_trees_of(l@);
                lemma_trees_of(result@);
                assert(trees_of(result@) =~= lt.push(r.tree()));
            }
            Value::Array(result)
        },
        (l, r) => {
            let mut result: Vec<Value> = Vec::new();
            result.push(l);
            result.push(r);
            proof {
                lemma_trees_of(result@);
                assert(trees_of(result@) =~= seq![l.tree(), r.tree()]);
            }
            Value::Array(result)
        },
    }
}

/// Two values that are the same tree are the same as trees.
pub proof fn lemma_same_tree(a: Value, b: Value)
    requires
        same_tree(a, b),
    ensures
        a.tree() == b.tree(),
    decreases a,
{
    match a {
        Value::Array(x) => {
            let y = b->Array_0;
            lemma_trees_of(x@);
            lemma_trees_of(y@);
            assert forall|i: int| 0 <= i < x@.len() implies trees_of(x@)[i] == trees_of(y@)[i] by {
                assert(same_tree(x@[i], y@[i]));
                lemma_same_tree(x@[i], y@[i]);
            }
            assert(trees_of(x@) =~= trees_of(y@));
        },
        Value::Object(x) => {
            let y = b->Object_0;
            lemma_pairs_of(x@);
            lemma_pairs_of(y@);
            assert forall|i: int| 0 <= i < x@.len() implies pairs_of(x@)[i] == pairs_of(y@)[i] by {
                assert(x@[i].key@ == y@[i].key@ && same_tree(x@[i].value, y@[i].value));
                lemma_same_tree(x@[i].value, y@[i].value);
            }
            assert(pairs_of(x@) =~= pairs_of(y@));
        },
        _ => {},
    }
}

/// A copy of a value, which is the same tree.
pub fn copy_value(v: &Value) -> (r: Value)
    ensures
        r.tree() == v.tree(),
{
    let r = v.clone();
    proof {
        lemma_same_tree(*v, r);
    }
    r
}

/// A tree without the pairs of its objects, at any depth, whose tree is
/// null.
pub open spec fn strip_tree(t: Tree) -> Tree
    decreases t, 0nat,
{
    match t {
        Tree::Array(a) => Tree::Array(strip_trees_upto(a, a.len())),
        Tree::Object(ps) => Tree::Object(strip_pairs_upto(ps, ps.len())),
        _ => t,
    }
}

/// The first `k` trees, stripped.
pub open spec fn strip_trees_upto(a: Seq<Tree>, k: nat) -> Seq<Tree>
    decreases a, k,
{
    if k == 0 || k > a.len() {
        Seq::empty()
    } else {
        strip_trees_upto(a, (k - 1) as nat).push(strip_tree(a[k - 1]))
    }
}

/// The first `k` pairs without those whose tree is null, stripped.
pub open spec fn strip_pairs_upto(ps: Seq<(Seq<char>, Tree)>, k: nat) -> Seq<(Seq<char>, Tree)>
    decreases ps, k,
{
    if k == 0 || k > ps.len() {
        Seq::empty()
    } else if ps[k - 1].1 is Null {
        strip_pairs_upto(ps, (k - 1) as nat)
    } else {
        strip_pairs_upto(ps, (k - 1) as nat).push((ps[k - 1].0, strip_tree(ps[k - 1].1)))
    }
}

/// The value without the members of its objects, at any depth, whose value
/// is null.
pub fn strip_value_nulls(val: &Value) -> (r: Value)
    ensures
        r.tree() == strip_tree(val.tree()),
    decreases *val,
{
    match val {
        Value::Array(vs) => {
            let ghost a = trees_of(vs@);
            proof {
                assert(val->Array_0 == *vs);
                assert(decreases_to!(*val => val->Array_0));
                lemma_trees_of(vs@);
            }
            let mut out: Vec<Value> = Vec::new();
            let mut i: usize = 0;
            proof {
                lemma_trees_of(out@);
                assert(trees_of(out@) =~= strip_trees_upto(a, 0));
            }
            while i < vs.len()
                invariant
                    i <= vs@.len(),
                    decreases_to!(*val => *vs),
                    a == trees_of(vs@),
                    a.len() == vs@.len(),
                    forall|j: int| 0 <= j < vs@.len() ==> #[trigger] a[j] == vs@[j].tree(),
                    trees_of(out@) == strip_trees_upto(a, i as nat),
                decreases vs@.len() - i,
            {
                proof {
                    assert(decreases_to!(*vs => vs[i as int]));
                }
                let v = strip_value_nulls(&vs[i]);
                proof {
                    assert(a[i as int] == vs@[i as int].tree());
                    lemma_trees_of(out@);
                    lemma_trees_of(out@.push(v));
                    assert(trees_of(out@.push(v)) =~= trees_of(out@).push(v.tree()));
                }
                out.push(v);
                i = i + 1;
            }
            Value::Array(out)
        },
        Value::Object(ms) => {
            let ghost ps = pairs_of(ms@);
            proof {
                assert(val->Object_0 == *ms);
                assert(decreases_to!(*val => val->Object_0));
                lemma_pairs_of(ms@);
            }
            let mut out: Vec<Member> = Vec::new();
            let mut i: usize = 0;
            proof {
                lemma_pairs_of(out@);
                assert(pairs_of(out@) =~= strip_pairs_upto(ps, 0));
            }
            while i < ms.len()
                invariant
                    i <= ms@.len(),
                    decreases_to!(*val => *ms),
                    ps == pairs_of(ms@),
                    ps.len() == ms@.len(),
                    forall|j: int|
                        0 <= j < ms@.len() ==> #[trigger] ps[j] == (ms@[j].key@, ms@[j].value.tree()),
                    pairs_of(out@) == strip_pairs_upto(ps, i as nat),
                decreases ms@.len() - i,
            {
                let m = &ms[i];
                proof {
                    assert(decreases_to!(*ms => ms[i as int]));
                    assert(decreases_to!(ms[i as int] => ms[i as int].value));
                    assert(ps[i as int] == (ms@[i as int].key@, ms@[i as int].value.tree()));
                }
                if !m.value.is_null() {
                    let v = strip_value_nulls(&m.value);
                    let member = Member { key: m.key.clone(), value: v };
                    proof {
                        lemma_pairs_of(out@);
                        lemma_pairs_of(out@.push(member));
                        assert(pairs_of(out@.push(member)) =~= pairs_of(out@).push(
                            (member.key@, member.value.tree()),
                        ));
                    }
                    out.push(member);
                }
                i = i + 1;
            }
            Value::Object(out)
        },
        _ => copy_value(val),
    }
}

/// The position of the first pair from position `i` on whose key is `name`.
pub open spec fn pair_from(ps: Seq<(Seq<char>, Tree)>, name: Seq<u8>, i: nat) -> Option<int>
    decreases ps.len() - i,
{
    if i >= ps.len() {
        None
    } else if key_bytes(ps[i as int].0) == name {
        Some(i as int)
    } else {
        pair_from(ps, name, i + 1)
    }
}

/// A position that is found is a position of a pair.
pub proof fn lemma_pair_from(ps: Seq<(Seq<char>, Tree)>, name: Seq<u8>, i: nat)
    ensures
        match pair_from(ps, name, i) {
            Some(k) => i <= k < ps.len(),
            None => true,
        },
    decreases ps.len() - i,
{
    if i < ps.len() {
        lemma_pair_from(ps, name, i + 1);
    }
}

/// A tree without what the steps of `path` from position `i` on lead to;
/// the tree as it is where they lead nowhere.
pub open spec fn delete_in_tree(t: Tree, path: Seq<KeyPath>, i: nat) -> Tree
    decreases path.len() - i,
{
    if i >= path.len() {
        t
    } else {
        match t {
            Tree::Array(a) => match path[i as int] {
                KeyPath::Index(idx) => {
                    let k = from_end(a.len() as int, idx as int);
                    if k < 0 || k >= a.len() {
                        t
                    } else if i + 1 == path.len() {
                        Tree::Array(a.remove(k))
                    } else {
                        Tree::Array(a.update(k, delete_in_tree(a[k], path, i + 1)))
                    }
                },
                _ => t,
            },
            Tree::Object(ps) => match path[i as int] {
                KeyPath::Index(_) => t,
                KeyPath::QuotedName(name) | KeyPath::Name(name) => match pair_from(
                    ps,
                    name.spec_bytes(),
                    0,
                ) {
                    None => t,
                    Some(k) => if i + 1 == path.len() {
                        Tree::Object(ps.remove(k))
                    } else {
                        Tree::Object(ps.update(k, (ps[k].0, delete_in_tree(ps[k].1, path, i + 1))))
                    },
                },
            },
            _ => t,
        }
    }
}

/// Copies of values, which are the same trees.
fn copy_values(vs: &Vec<Value>) -> (r: Vec<Value>)
    ensures
        trees_of(r@) == trees_of(vs@),
        r@.len() == vs@.len(),
{
    let mut out: Vec<Value> = Vec::new();
    let mut i: usize = 0;
    while i < vs.len()
        invariant
            i <= vs@.len(),
            out@.len() == i,
            forall|j: int| 0 <= j < i ==> #[trigger] out@[j].tree() == vs@[j].tree(),
        decreases vs@.len() - i,
    {
        out.push(copy_value(&vs[i]));
        i = i + 1;
    }
    proof {
        lemma_trees_of(out@);
        lemma_trees_of(vs@);
        assert(trees_of(out@) =~= trees_of(vs@));
    }
    out
}

/// Copies of members, which are the same pairs.
fn copy_members(ms: &Vec<Member>) -> (r: Vec<Member>)
    ensures
        pairs_of(r@) == pairs_of(ms@),
        r@.len() == ms@.len(),
{
    let mut out: Vec<Member> = Vec::new();
    let mut i: usize = 0;
    while i < ms.len()
        invariant
            i <= ms@.len(),
            out@.len() == i,
            forall|j: int|
                0 <= j < i ==> (#[trigger] out@[j]).key@ == ms@[j].key@ && out@[j].value.tree()
                    == ms@[j].value.tree(),
        decreases ms@.len() - i,
    {
        let m = &ms[i];
        out.push(Member { key: m.key.clone(), value: copy_value(&m.value) });
        i = i + 1;
    }
    proof {
        lemma_pairs_of(out@);
        lemma_pairs_of(ms@);
        assert(pairs_of(out@) =~= pairs_of(ms@));
    }
    out
}

/// The value without what the steps of `keypath` from position `i` on lead
/// to.
pub fn delete_value_by_keypath(val: &Value, keypath: &[KeyPath], i: usize) -> (r: Value)
    ensures
        r.tree() == delete_in_tree(val.tree(), keypath@, i as nat),
    decreases keypath@.len() - i, 1nat,
{
    if i >= keypath.len() {
        return copy_value(val);
    }
    match val {
        Value::Array(arr) => Value::Array(delete_value_array_by_keypath(arr, keypath, i)),
        Value::Object(obj) => Value::Object(delete_value_object_by_keypath(obj, keypath, i)),
        _ => copy_value(val),
    }
}

/// The elements of an array without what the steps of `keypath` from
/// position `i` on lead to.
pub fn delete_value_array_by_keypath(arr: &Vec<Value>, keypath: &[KeyPath], i: usize) -> (r: Vec<
    Value,
>)
    requires
        i < keypath@.len(),
    ensures
        Tree::Array(trees_of(r@)) == delete_in_tree(
            Tree::Array(trees_of(arr@)),
            keypath@,
            i as nat,
        ),
    decreases keypath@.len() - i, 0nat,
{
    let ghost a = trees_of(arr@);
    proof {
        lemma_trees_of(arr@);
    }
    let mut out = copy_values(arr);
    match &keypath[i] {
        KeyPath::Index(idx) => {
            match resolve_index(arr.len(), *idx) {
                None => out,
                Some(k) => {
                    if i + 1 == keypath.len() {
                        let ghost copied = out@;
                        let _ = out.remove(k);
                        proof {
                            lemma_trees_of(copied);
                            lemma_trees_of(out@);
                            assert(trees_of(out@) =~= a.remove(k as int)) by {
                                assert forall|j: int| 0 <= j < out@.len() implies trees_of(out@)[j]
                                    == a.remove(k as int)[j] by {
                                    if j < k {
                                        assert(out@[j] == copied[j]);
                                        assert(trees_of(copied)[j] == a[j]);
                                    } else {
                                        assert(out@[j] == copied[j + 1]);
                                        assert(trees_of(copied)[j + 1] == a[j + 1]);
                                    }
                                }
                            }
                        }
                        out
                    } else {
                        let child = delete_value_by_keypath(&arr[k], keypath, i + 1);
                        proof {
                            lemma_trees_of(out@);
                            lemma_trees_of(out@.update(k as int, child));
                            assert(trees_of(out@.update(k as int, child)) =~= a.update(
                                k as int,
                                child.tree(),
                            ));
                        }
                        out[k] = child;
                        out
                    }
                },
            }
        },
        _ => out,
    }
}

/// The position of the first member whose key is `key`.
fn find_member(obj: &Vec<Member>, key: &[u8]) -> (r: Option<usize>)
    ensures
        match pair_from(pairs_of(obj@), key@, 0) {
            Some(k) => r == Some(k as usize) && 0 <= k < obj@.len(),
            None => r is None,
        },
        r is Some ==> pair_from(pairs_of(obj@), key@, 0) == Some(r->Some_0 as int),
{
    let ghost ps = pairs_of(obj@);
    proof {
        lemma_pairs_of(obj@);
        lemma_pair_from(ps, key@, 0);
    }
    let mut k: usize = 0;
    while k < obj.len()
        invariant
            k <= obj@.len(),
            ps == pairs_of(obj@),
            ps.len() == obj@.len(),
            forall|j: int|
                0 <= j < obj@.len() ==> #[trigger] ps[j] == (obj@[j].key@, obj@[j].value.tree()),
            pair_from(ps, key@, k as nat) == pair_from(ps, key@, 0),
        decreases obj@.len() - k,
    {
        assert(ps[k as int] == (obj@[k as int].key@, obj@[k as int].value.tree()));
        if bytes_eq(bytes_of(&obj[k].key), key) {
            return Some(k);
        }
        k = k + 1;
    }
    None
}

/// The members of an object without what the steps of `keypath` from
/// position `i` on lead to.
pub fn delete_value_object_by_keypath(obj: &Vec<Member>, keypath: &[KeyPath], i: usize) -> (r: Vec<
    Member,
>)
    requires
        i < keypath@.len(),
    ensures
        Tree::Object(pairs_of(r@)) == delete_in_tree(
            Tree::Object(pairs_of(obj@)),
            keypath@,
            i as nat,
        ),
    decreases keypath@.len() - i, 0nat,
{
    let ghost ps = pairs_of(obj@);
    proof {
        lemma_pairs_of(obj@);
    }
    let mut out = copy_members(obj);
    match &keypath[i] {
        KeyPath::Index(_) => out,
        KeyPath::QuotedName(name) | KeyPath::Name(name) => {
            let key = name.as_bytes();
            proof {
                lemma_pair_from(ps, key@, 0);
            }
            let k = match find_member(obj, key) {
                Some(k) => k,
                None => {
                    return out;
                },
            };
            if i + 1 == keypath.len() {
                let ghost copied = out@;
                let _ = out.remove(k);
                proof {
                    lemma_pairs_of(copied);
                    lemma_pairs_of(out@);
                    assert(pairs_of(out@) =~= ps.remove(k as int)) by {
                        assert forall|j: int| 0 <= j < out@.len() implies pairs_of(out@)[j]
                            == ps.remove(k as int)[j] by {
                            if j < k {
                                assert(out@[j] == copied[j]);
                                assert(pairs_of(copied)[j] == ps[j]);
                            } else {
                                assert(out@[j] == copied[j + 1]);
                                assert(pairs_of(copied)[j + 1] == ps[j + 1]);
                            }
                        }
                    }
                }
                out
            } else {
                let child = delete_value_by_keypath(&obj[k].value, keypath, i + 1);
                let member = Member { key: obj[k].key.clone(), value: child };
                proof {
                    lemma_pairs_of(out@);
                    lemma_pairs_of(out@.update(k as int, member));
                    assert(pairs_of(out@.update(k as int, member)) =~= ps.update(
                        k as int,
                        (ps[k as int].0, child.tree()),
                    ));
                }
                out[k] = member;
                out
            }
        },
    }
}

} // verus!
