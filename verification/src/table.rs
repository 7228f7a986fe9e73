//! Tables: a dense array part for the keys 1, 2, 3, ... and a hash part for
//! every other key.

use vstd::prelude::*;
use crate::assoc::{
    as_map, distinct_keys, has_key, lemma_entry, lemma_push, lemma_remove, lemma_update,
};
use crate::error::ValueError;
use crate::number::{float_is_nan, float_to_int, float_to_integer, is_nan};
use crate::value::{values_view, LuaValue, ValueView};

verus! {

/// A table as mathematics sees it: the array part as a sequence, whose
/// element `i` belongs to the key `i + 1`, and the hash part as a map.
pub struct TableView {
    pub arr: Seq<ValueView>,
    pub map: Map<ValueView, ValueView>,
}

/// The place in the array part that a key asks for: a positive integer, or a
/// float that is a positive whole number in the range of the integers.
pub open spec fn key_index(k: ValueView) -> Option<int> {
    match k {
        ValueView::Integer(i) => if i >= 1 {
            Some(i as int)
        } else {
            None
        },
        ValueView::Number(n) => match float_to_int(n) {
            Some(i) => if i >= 1 {
                Some(i as int)
            } else {
                None
            },
            None => None,
        },
        _ => None,
    }
}

/// Whether a value can be a key: anything but nil and NaN.
pub open spec fn key_ok(k: ValueView) -> bool {
    match k {
        ValueView::Nil => false,
        ValueView::Number(n) => !float_is_nan(n),
        _ => true,
    }
}

/// The key of the array place `i`, counted from 1.
pub open spec fn int_key(i: int) -> ValueView {
    ValueView::Integer(i as i64)
}

/// The key of element `i` of the array part, counted from 0.
pub open spec fn slot_key(i: int) -> ValueView {
    int_key(i + 1)
}

/// The key that continues an array part of `len` elements.
pub open spec fn next_key(len: nat) -> ValueView {
    slot_key(len as int)
}

/// The sequence without the nils at its end.
pub open spec fn trimmed(arr: Seq<ValueView>) -> Seq<ValueView>
    decreases arr.len(),
{
    if arr.len() > 0 && arr.last() is Nil {
        trimmed(arr.drop_last())
    } else {
        arr
    }
}

/// The table after the array part has taken over, one by one and in rising
/// order, the entries of the hash part whose integer keys continue it, up to
/// the first key that is missing.
pub open spec fn absorbed(arr: Seq<ValueView>, map: Map<ValueView, ValueView>) -> TableView
    decreases i64::MAX - arr.len(),
{
    if arr.len() < i64::MAX && map.contains_key(next_key(arr.len())) {
        absorbed(arr.push(map[next_key(arr.len())]), map.remove(next_key(arr.len())))
    } else {
        TableView { arr, map }
    }
}

impl TableView {
    /// What holds of every table: the array part does not end in nil; the
    /// hash part holds no nil and no key that cannot be one; and no integer
    /// key of the hash part belongs to the array part or continues it.
    pub open spec fn wf(self) -> bool {
        &&& self.arr.len() <= i64::MAX
        &&& self.arr.len() > 0 ==> !(self.arr.last() is Nil)
        &&& forall|k: ValueView| #[trigger]
            self.map.contains_key(k) ==> key_ok(k) && !(self.map[k] is Nil)
        &&& forall|i: i64|
            1 <= i <= self.arr.len() + 1 ==> !(#[trigger] self.map.contains_key(
                ValueView::Integer(i),
            ))
    }

    /// The value under a key; nil where there is none.
    pub open spec fn get(self, k: ValueView) -> ValueView {
        match key_index(k) {
            Some(i) if i <= self.arr.len() => self.arr[i - 1],
            _ => if self.map.contains_key(k) {
                self.map[k]
            } else {
                ValueView::Nil
            },
        }
    }

    /// The table after `v` has been put under the key `k`.
    pub open spec fn put(self, k: ValueView, v: ValueView) -> TableView {
        match key_index(k) {
            Some(i) if i <= self.arr.len() => {
                if i == self.arr.len() && v is Nil {
                    TableView { arr: trimmed(self.arr.update(i - 1, v)), map: self.map }
                } else {
                    TableView { arr: self.arr.update(i - 1, v), map: self.map }
                }
            },
            Some(i) if i == self.arr.len() + 1 => {
                if v is Nil {
                    TableView { arr: self.arr, map: self.map.remove(k) }
                } else {
                    absorbed(self.arr.push(v), self.map.remove(k))
                }
            },
            _ => {
                if v is Nil {
                    TableView { arr: self.arr, map: self.map.remove(k) }
                } else {
                    TableView { arr: self.arr, map: self.map.insert(k, v) }
                }
            },
        }
    }

    /// The array part holds no nil at all.
    pub open spec fn dense(self) -> bool {
        forall|i: int| 0 <= i < self.arr.len() ==> !(#[trigger] self.arr[i] is Nil)
    }

    /// Whether the hash part holds an entry for `k` that the last place of
    /// the array part hides: when that place goes, the entry comes back to
    /// light. By `wf` such a key is a float.
    pub open spec fn hides(self, k: ValueView) -> bool {
        key_index(k) == Some(self.arr.len() as int) && self.map.contains_key(k)
    }
}

/// Trimming leaves a beginning of the sequence that does not end in nil, and
/// what it takes away is nil.
pub proof fn lemma_trimmed(arr: Seq<ValueView>)
    ensures
        trimmed(arr).len() <= arr.len(),
        trimmed(arr) == arr.take(trimmed(arr).len() as int),
        trimmed(arr).len() > 0 ==> !(trimmed(arr).last() is Nil),
        forall|i: int| trimmed(arr).len() <= i < arr.len() ==> #[trigger] arr[i] is Nil,
    decreases arr.len(),
{
    if arr.len() > 0 && arr.last() is Nil {
        lemma_trimmed(arr.drop_last());
        let t = trimmed(arr.drop_last());
        assert(t =~= arr.take(t.len() as int));
        assert forall|i: int| t.len() <= i < arr.len() implies #[trigger] arr[i] is Nil by {
            if i < arr.len() - 1 {
                assert(arr.drop_last()[i] is Nil);
            }
        }
    } else {
        assert(arr =~= arr.take(arr.len() as int));
    }
}

/// Whether `k` is an integer key above `lo` and not above `hi`.
pub open spec fn in_span(k: ValueView, lo: nat, hi: nat) -> bool {
    k matches ValueView::Integer(j) && lo < j <= hi
}

/// What the array part has after taking over entries of the hash part, and
/// what the hash part has left.
#[verifier::rlimit(50)]
pub proof fn lemma_absorbed(arr: Seq<ValueView>, map: Map<ValueView, ValueView>)
    requires
        arr.len() <= i64::MAX,
    ensures
        ({
            let t = absorbed(arr, map);
            &&& arr.len() <= t.arr.len() <= i64::MAX
            &&& t.arr.take(arr.len() as int) == arr
            &&& forall|i: int|
                arr.len() <= i < t.arr.len() ==> map.contains_key(#[trigger] slot_key(i))
                    && t.arr[i] == map[slot_key(i)]
            &&& t.arr.len() < i64::MAX ==> !map.contains_key(next_key(t.arr.len()))
            &&& forall|k: ValueView| #[trigger]
                t.map.contains_key(k) <==> map.contains_key(k) && !in_span(
                    k,
                    arr.len(),
                    t.arr.len(),
                )
            &&& forall|k: ValueView| #[trigger] t.map.contains_key(k) ==> t.map[k] == map[k]
        }),
    decreases i64::MAX - arr.len(),
{
    let t = absorbed(arr, map);
    if arr.len() < i64::MAX && map.contains_key(next_key(arr.len())) {
        let key = next_key(arr.len());
        let arr2 = arr.push(map[key]);
        let map2 = map.remove(key);
        lemma_absorbed(arr2, map2);
        assert(t == absorbed(arr2, map2));
        assert(t.arr.take(arr.len() as int) =~= arr) by {
            assert(t.arr.take(arr2.len() as int) == arr2);
            assert forall|i: int| 0 <= i < arr.len() implies t.arr[i] == arr[i] by {
                assert(t.arr.take(arr2.len() as int)[i] == arr2[i]);
            }
        }
        assert forall|i: int| arr.len() <= i < t.arr.len() implies map.contains_key(
            #[trigger] slot_key(i),
        ) && t.arr[i] == map[slot_key(i)] by {
            if i == arr.len() {
                assert(t.arr.take(arr2.len() as int)[i] == arr2[i]);
            } else {
                assert(map2.contains_key(slot_key(i)));
            }
        }
        assert forall|k: ValueView| #[trigger]
            t.map.contains_key(k) <==> map.contains_key(k) && !in_span(
                k,
                arr.len(),
                t.arr.len(),
            ) by {
            if t.map.contains_key(k) {
                assert(map2.contains_key(k));
            }
            if map.contains_key(k) && !in_span(k, arr.len(), t.arr.len()) {
                assert(map2.contains_key(k));
            }
        }
        assert(t.arr.len() < i64::MAX ==> !map.contains_key(next_key(t.arr.len())));
        assert forall|k: ValueView| #[trigger] t.map.contains_key(k) implies t.map[k] == map[k] by {
            assert(map2.contains_key(k));
        }
    } else {
        assert(t.arr.take(arr.len() as int) =~= arr);
    }
}

/// Every table that `put` makes from a table is a table.
#[verifier::rlimit(50)]
pub proof fn lemma_put_wf(t: TableView, k: ValueView, v: ValueView)
    requires
        t.wf(),
        key_ok(k),
    ensures
        t.put(k, v).wf(),
{
    let len = t.arr.len();
    let r = t.put(k, v);
    match key_index(k) {
        Some(i) if i <= len => {
            let arr2 = t.arr.update(i - 1, v);
            if i == len && v is Nil {
                lemma_trimmed(arr2);
            } else if i < len {
                assert(arr2.last() == t.arr.last());
            }
            assert(r.map == t.map);
            assert forall|j: i64| 1 <= j <= r.arr.len() + 1 implies !(#[trigger] r.map.contains_key(
                ValueView::Integer(j),
            )) by {
                assert(!t.map.contains_key(ValueView::Integer(j)));
            }
        },
        Some(i) if i == len + 1 => {
            let map2 = t.map.remove(k);
            if v is Nil {
                assert forall|j: i64| 1 <= j <= len + 1 implies !(#[trigger] map2.contains_key(
                    ValueView::Integer(j),
                )) by {
                    assert(!t.map.contains_key(ValueView::Integer(j)));
                }
                assert forall|x: ValueView| #[trigger] map2.contains_key(x) implies key_ok(x) && !(
                map2[x] is Nil) by {
                    assert(t.map.contains_key(x));
                }
            } else {
                let arr2 = t.arr.push(v);
                lemma_absorbed(arr2, map2);
                assert(r == absorbed(arr2, map2));
                assert(r.arr.take(arr2.len() as int)[len as int] == arr2[len as int]);
                if r.arr.len() > arr2.len() {
                    let last = r.arr.len() - 1;
                    assert(map2.contains_key(slot_key(last)));
                    assert(t.map.contains_key(slot_key(last)));
                }
                assert forall|x: ValueView| #[trigger] r.map.contains_key(x) implies key_ok(x) && !(
                r.map[x] is Nil) by {
                    assert(map2.contains_key(x));
                    assert(t.map.contains_key(x));
                }
                assert forall|j: i64| 1 <= j <= r.arr.len() + 1 implies !(
                #[trigger] r.map.contains_key(ValueView::Integer(j))) by {
                    if j <= len + 1 {
                        assert(!t.map.contains_key(ValueView::Integer(j)));
                    } else if j <= r.arr.len() {
                        assert(in_span(ValueView::Integer(j), arr2.len(), r.arr.len()));
                    } else {
                        assert(ValueView::Integer(j) == next_key(r.arr.len()));
                    }
                }
            }
        },
        _ => {
            if v is Nil {
                let map2 = t.map.remove(k);
                assert forall|j: i64| 1 <= j <= len + 1 implies !(#[trigger] map2.contains_key(
                    ValueView::Integer(j),
                )) by {
                    assert(!t.map.contains_key(ValueView::Integer(j)));
                }
                assert forall|x: ValueView| #[trigger] map2.contains_key(x) implies key_ok(x) && !(
                map2[x] is Nil) by {
                    assert(t.map.contains_key(x));
                }
            } else {
                let map2 = t.map.insert(k, v);
                assert forall|j: i64| 1 <= j <= len + 1 implies !(#[trigger] map2.contains_key(
                    ValueView::Integer(j),
                )) by {
                    assert(!t.map.contains_key(ValueView::Integer(j)));
                    assert(key_index(ValueView::Integer(j)) == Some(j as int));
                }
                assert forall|x: ValueView| #[trigger] map2.contains_key(x) implies key_ok(x) && !(
                map2[x] is Nil) by {
                    if x != k {
                        assert(t.map.contains_key(x));
                    }
                }
            }
        },
    }
}

/// After a value has been put under a key, the key gives that value.
///
/// One case is left out. Where the key is a float that asks for the last
/// place of the array part, the hash part may still hold an older entry under
/// that float (`hides`); putting nil then takes the place away and brings the
/// older entry back.
pub proof fn lemma_get_after_put(t: TableView, k: ValueView, v: ValueView)
    requires
        t.wf(),
        key_ok(k),
        !(v is Nil && t.hides(k)),
    ensures
        t.put(k, v).get(k) == v,
{
    let len = t.arr.len();
    match key_index(k) {
        Some(i) if i <= len => {
            let arr2 = t.arr.update(i - 1, v);
            if i == len && v is Nil {
                lemma_trimmed(arr2);
                assert(trimmed(arr2).len() < len) by {
                    if trimmed(arr2).len() == len {
                        assert(trimmed(arr2) =~= arr2);
                    }
                }
            }
        },
        Some(i) if i == len + 1 => {
            let map2 = t.map.remove(k);
            if !(v is Nil) {
                let arr2 = t.arr.push(v);
                lemma_absorbed(arr2, map2);
                let r = absorbed(arr2, map2);
                assert(r.arr.take(arr2.len() as int)[len as int] == arr2[len as int]);
            }
        },
        _ => {},
    }
}

/// A `put` under one key leaves what the table gives under another key as it
/// was. The other key must not be a float that is a whole number, whose
/// place in the hash part the array part may hide, and the two keys must not
/// ask for the same place in the array part.
pub proof fn lemma_put_keeps_other(t: TableView, k: ValueView, v: ValueView, other: ValueView)
    requires
        t.wf(),
        key_ok(k),
        other != k,
        !(other is Number && key_index(other) is Some),
        key_index(k) is Some ==> key_index(k) != key_index(other),
    ensures
        t.put(k, v).get(other) == t.get(other),
{
    let len = t.arr.len();
    let r = t.put(k, v);
    match key_index(k) {
        Some(i) if i <= len => {
            let arr2 = t.arr.update(i - 1, v);
            if i == len && v is Nil {
                lemma_trimmed(arr2);
                let cut = trimmed(arr2);
                match key_index(other) {
                    Some(j) if j <= len => {
                        if j <= cut.len() {
                            assert(cut[j - 1] == arr2.take(cut.len() as int)[j - 1]);
                        } else {
                            assert(arr2[j - 1] is Nil);
                            assert(!t.map.contains_key(ValueView::Integer(j as i64)));
                        }
                    },
                    _ => {},
                }
            }
        },
        Some(i) if i == len + 1 => {
            let map2 = t.map.remove(k);
            if !(v is Nil) {
                let arr2 = t.arr.push(v);
                lemma_absorbed(arr2, map2);
                assert(r == absorbed(arr2, map2));
                match key_index(other) {
                    Some(j) => {
                        assert(other == ValueView::Integer(j as i64));
                        if j <= len {
                            assert(r.arr.take(arr2.len() as int)[j - 1] == arr2[j - 1]);
                        } else if j <= r.arr.len() {
                            assert(other == slot_key(j - 1));
                            assert(map2.contains_key(slot_key(j - 1)));
                        } else {
                            assert(!in_span(other, arr2.len(), r.arr.len()));
                            assert(r.map.contains_key(other) <==> map2.contains_key(other));
                        }
                    },
                    None => {
                        assert(!in_span(other, arr2.len(), r.arr.len()));
                        assert(r.map.contains_key(other) <==> map2.contains_key(other));
                    },
                }
            }
        },
        _ => {},
    }
}

/// A key that `hides` speaks of is never an integer, nor anything but a
/// float.
pub proof fn lemma_hidden_keys_are_floats(t: TableView, k: ValueView)
    requires
        t.wf(),
        t.hides(k),
    ensures
        k is Number,
{
    if k is Integer {
        assert(!t.map.contains_key(ValueView::Integer(k->Integer_0)));
    }
}

/// The table with nothing in it.
pub open spec fn empty_table() -> TableView {
    TableView { arr: Seq::empty(), map: Map::empty() }
}

/// The table that a sequence of `put`s makes from the empty table.
pub open spec fn after_puts(ops: Seq<(ValueView, ValueView)>) -> TableView
    decreases ops.len(),
{
    if ops.len() == 0 {
        empty_table()
    } else {
        after_puts(ops.drop_last()).put(ops.last().0, ops.last().1)
    }
}

/// Whatever is put into a table, and in whatever order, what holds of every
/// table holds of the result.
pub proof fn lemma_after_puts_wf(ops: Seq<(ValueView, ValueView)>)
    requires
        forall|i: int| 0 <= i < ops.len() ==> key_ok((#[trigger] ops[i]).0),
    ensures
        after_puts(ops).wf(),
    decreases ops.len(),
{
    if ops.len() > 0 {
        assert forall|i: int| 0 <= i < ops.drop_last().len() implies key_ok(
            (#[trigger] ops.drop_last()[i]).0,
        ) by {
            assert(ops.drop_last()[i] == ops[i]);
        }
        lemma_after_puts_wf(ops.drop_last());
        lemma_put_wf(after_puts(ops.drop_last()), ops.last().0, ops.last().1);
    }
}

/// After any sequence of `put`s, a further `put` of a value under a key is
/// followed by a `get` of that value under that key, but for the case that
/// `lemma_get_after_put` leaves out.
pub proof fn lemma_get_after_puts(ops: Seq<(ValueView, ValueView)>, k: ValueView, v: ValueView)
    requires
        forall|i: int| 0 <= i < ops.len() ==> key_ok((#[trigger] ops[i]).0),
        key_ok(k),
        !(v is Nil && after_puts(ops).hides(k)),
    ensures
        after_puts(ops.push((k, v))).get(k) == v,
{
    lemma_after_puts_wf(ops);
    lemma_get_after_put(after_puts(ops), k, v);
    assert(ops.push((k, v)).drop_last() =~= ops);
}

/// In a table whose array part holds no nil, the length of the array part is
/// the greatest `n` for which the keys 1 to `n` all have a value: each of
/// them has one, and the key behind them has none.
pub proof fn lemma_border(t: TableView)
    requires
        t.wf(),
        t.dense(),
    ensures
        forall|i: i64| 1 <= i <= t.arr.len() ==> !(#[trigger] t.get(ValueView::Integer(i)) is Nil),
        t.arr.len() < i64::MAX ==> t.get(next_key(t.arr.len())) is Nil,
{
    assert forall|i: i64| 1 <= i <= t.arr.len() implies !(#[trigger] t.get(
        ValueView::Integer(i),
    ) is Nil) by {
        assert(key_index(ValueView::Integer(i)) == Some(i as int));
        assert(!(t.arr[i - 1] is Nil));
    }
    if t.arr.len() < i64::MAX {
        let k = (t.arr.len() + 1) as i64;
        assert(next_key(t.arr.len()) == ValueView::Integer(k));
        assert(!t.map.contains_key(ValueView::Integer(k)));
    }
}

/// A `put` keeps the array part free of nil, unless it puts nil under a key
/// that lies inside the array part and before its last place.
pub proof fn lemma_put_dense(t: TableView, k: ValueView, v: ValueView)
    requires
        t.wf(),
        t.dense(),
        key_ok(k),
        !(v is Nil && key_index(k) is Some && key_index(k)->Some_0 < t.arr.len()),
    ensures
        t.put(k, v).dense(),
{
    let len = t.arr.len();
    match key_index(k) {
        Some(i) if i <= len => {
            let arr2 = t.arr.update(i - 1, v);
            if i == len && v is Nil {
                lemma_trimmed(arr2);
                let r = trimmed(arr2);
                assert(r.len() < len) by {
                    if r.len() == len {
                        assert(r =~= arr2);
                    }
                }
                assert forall|j: int| 0 <= j < r.len() implies !(#[trigger] r[j] is Nil) by {
                    assert(r[j] == arr2.take(r.len() as int)[j]);
                    assert(arr2[j] == t.arr[j]);
                }
            } else {
                assert forall|j: int| 0 <= j < arr2.len() implies !(#[trigger] arr2[j] is Nil) by {
                    if j != i - 1 {
                        assert(arr2[j] == t.arr[j]);
                    }
                }
            }
        },
        Some(i) if i == len + 1 => {
            let map2 = t.map.remove(k);
            if !(v is Nil) {
                let arr2 = t.arr.push(v);
                lemma_absorbed(arr2, map2);
                let r = absorbed(arr2, map2);
                assert forall|j: int| 0 <= j < r.arr.len() implies !(
                #[trigger] r.arr[j] is Nil) by {
                    if j < arr2.len() {
                        assert(r.arr.take(arr2.len() as int)[j] == arr2[j]);
                        if j < len {
                            assert(arr2[j] == t.arr[j]);
                        }
                    } else {
                        assert(map2.contains_key(slot_key(j)));
                        assert(t.map.contains_key(slot_key(j)));
                    }
                }
            }
        },
        _ => {},
    }
}

/// The views of the pairs of a hash part.
pub open spec fn pairs_view(v: Seq<(LuaValue, LuaValue)>) -> Seq<(ValueView, ValueView)> {
    v.map_values(|e: (LuaValue, LuaValue)| (e.0@, e.1@))
}

/// A table. The hash part is a list of pairs in which no key occurs twice.
#[derive(Debug)]
pub struct LuaTable {
    arr: Vec<LuaValue>,
    map: Vec<(LuaValue, LuaValue)>,
}

impl View for LuaTable {
    type V = TableView;

    closed spec fn view(&self) -> TableView {
        TableView { arr: values_view(self.arr@), map: as_map(pairs_view(self.map@)) }
    }
}

/// The place in the array part that a key asks for.
pub fn to_index(key: &LuaValue) -> (r: Option<i64>)
    ensures
        match r {
            Some(i) => key_index(key@) == Some(i as int),
            None => key_index(key@) is None,
        },
{
    match key {
        LuaValue::Integer(i) => {
            if *i >= 1 {
                return Some(*i);
            }
        },
        LuaValue::Number(n) => {
            if let Some(i) = float_to_integer(*n) {
                if i >= 1 {
                    return Some(i);
                }
            }
        },
        _ => {},
    }
    None
}

impl LuaTable {
    /// No key occurs twice in the list that holds the hash part.
    pub closed spec fn keys_once(&self) -> bool {
        distinct_keys(pairs_view(self.map@))
    }

    pub open spec fn wf(&self) -> bool {
        self.keys_once() && self@.wf()
    }

    /// An empty table. The two numbers say how many entries each part is
    /// expected to get.
    pub fn new(narr: usize, nrec: usize) -> (t: LuaTable)
        ensures
            t.wf(),
            t@.arr == Seq::<ValueView>::empty(),
            t@.map == Map::<ValueView, ValueView>::empty(),
    {
        let t = LuaTable { arr: Vec::with_capacity(narr), map: Vec::with_capacity(nrec) };
        assert(t@.arr =~= Seq::<ValueView>::empty());
        assert(t@.map =~= Map::<ValueView, ValueView>::empty());
        t
    }

    /// The length of the array part.
    pub fn len(&self) -> (n: usize)
        ensures
            n == self@.arr.len(),
    {
        self.arr.len()
    }

    fn find(&self, key: &LuaValue) -> (r: Option<usize>)
        ensures
            match r {
                Some(i) => i < self.map@.len() && pairs_view(self.map@)[i as int].0 == key@,
                None => !has_key(pairs_view(self.map@), key@),
            },
    {
        let mut i: usize = 0;
        while i < self.map.len()
            invariant
                i <= self.map@.len(),
                forall|j: int| 0 <= j < i ==> (#[trigger] pairs_view(self.map@)[j]).0 != key@,
            decreases self.map@.len() - i,
        {
            if self.map[i].0.same(key) {
                return Some(i);
            }
            i += 1;
        }
        None
    }

    pub fn get(&self, key: &LuaValue) -> (r: LuaValue)
        requires
            self.wf(),
        ensures
            r@ == self@.get(key@),
    {
        if let Some(idx) = to_index(key) {
            if idx as u64 <= self.arr.len() as u64 {
                return self.arr[(idx - 1) as usize].clone();
            }
        }
        match self.find(key) {
            Some(i) => {
                proof {
                    lemma_entry(pairs_view(self.map@), i as int);
                }
                self.map[i].1.clone()
            },
            None => LuaValue::Nil,
        }
    }

    /// Puts `val` under `key`; nil takes the key out. Nil and NaN cannot be
    /// keys: the table is then left as it was.
    #[verifier::rlimit(50)]
    pub fn put(&mut self, key: LuaValue, val: LuaValue) -> (r: Result<(), ValueError>)
        requires
            old(self).wf(),
        ensures
            final(self).wf(),
            match r {
                Ok(_) => key_ok(key@) && final(self)@ == old(self)@.put(key@, val@),
                Err(e) => !key_ok(key@) && final(self)@ == old(self)@ && e == if key@ is Nil {
                    ValueError::TableIndexNil
                } else {
                    ValueError::TableIndexNan
                },
            },
    {
        if key.is_nil() {
            return Err(ValueError::TableIndexNil);
        }
        if let LuaValue::Number(n) = &key {
            if is_nan(*n) {
                return Err(ValueError::TableIndexNan);
            }
        }
        proof {
            lemma_put_wf(self@, key@, val@);
        }
        if let Some(idx) = to_index(&key) {
            let arr_len = self.arr.len();
            if idx as u64 <= arr_len as u64 {
                let val_is_nil = val.is_nil();
                self.arr[(idx - 1) as usize] = val;
                assert(values_view(self.arr@) =~= old(self)@.arr.update(idx - 1, val@));
                if idx as u64 == arr_len as u64 && val_is_nil {
                    self.shrink_array();
                }
                return Ok(());
            }
            if idx as u64 == arr_len as u64 + 1 {
                self.remove_key(&key);
                if !val.is_nil() {
                    self.arr.push(val);
                    assert(values_view(self.arr@) =~= old(self)@.arr.push(val@));
                    self.expand_array();
                }
                return Ok(());
            }
        }
        if !val.is_nil() {
            self.insert(key, val);
        } else {
            self.remove_key(&key);
        }
        Ok(())
    }

    /// Takes the key out of the hash part.
    fn remove_key(&mut self, key: &LuaValue)
        requires
            old(self).keys_once(),
        ensures
            final(self).keys_once(),
            final(self)@ == (TableView { arr: old(self)@.arr, map: old(self)@.map.remove(key@) }),
    {
        let ghost before = pairs_view(self.map@);
        match self.find(key) {
            Some(i) => {
                proof {
                    lemma_remove(before, i as int);
                }
                self.map.remove(i);
                assert(pairs_view(self.map@) =~= before.remove(i as int));
            },
            None => {
                assert(self@.map.remove(key@) =~= self@.map);
            },
        }
    }

    /// Puts a value that is not nil under the key in the hash part.
    fn insert(&mut self, key: LuaValue, val: LuaValue)
        requires
            old(self).keys_once(),
        ensures
            final(self).keys_once(),
            final(self)@ == (TableView {
                arr: old(self)@.arr,
                map: old(self)@.map.insert(key@, val@),
            }),
    {
        let ghost before = pairs_view(self.map@);
        match self.find(&key) {
            Some(i) => {
                proof {
                    lemma_update(before, i as int, val@);
                }
                self.map[i] = (key, val);
                assert(pairs_view(self.map@) =~= before.update(i as int, (key@, val@)));
            },
            None => {
                proof {
                    lemma_push(before, key@, val@);
                }
                self.map.push((key, val));
                assert(pairs_view(self.map@) =~= before.push((key@, val@)));
            },
        }
    }

    /// Takes the nils off the end of the array part.
    fn shrink_array(&mut self)
        ensures
            final(self).keys_once() == old(self).keys_once(),
            final(self)@ == (TableView { arr: trimmed(old(self)@.arr), map: old(self)@.map }),
    {
        while self.arr.len() > 0 && self.arr[self.arr.len() - 1].is_nil()
            invariant
                self.map == old(self).map,
                trimmed(values_view(self.arr@)) == trimmed(old(self)@.arr),
            decreases self.arr@.len(),
        {
            let ghost before = values_view(self.arr@);
            self.arr.pop();
            assert(values_view(self.arr@) =~= before.drop_last());
        }
    }

    /// Moves into the array part the entries of the hash part that continue
    /// it.
    #[verifier::rlimit(50)]
    fn expand_array(&mut self)
        requires
            old(self).keys_once(),
            old(self)@.arr.len() <= i64::MAX,
        ensures
            final(self).keys_once(),
            final(self)@ == absorbed(old(self)@.arr, old(self)@.map),
    {
        loop
            invariant
                self.keys_once(),
                self@.arr.len() <= i64::MAX,
                absorbed(self@.arr, self@.map) == absorbed(old(self)@.arr, old(self)@.map),
            ensures
                self.keys_once(),
                self@ == absorbed(old(self)@.arr, old(self)@.map),
            decreases i64::MAX - self@.arr.len(),
        {
            let n = self.arr.len();
            if n as u64 >= i64::MAX as u64 {
                break;
            }
            let key = LuaValue::Integer(n as i64 + 1);
            assert(key@ == next_key(self@.arr.len()));
            let ghost pairs = pairs_view(self.map@);
            let ghost arr = values_view(self.arr@);
            match self.find(&key) {
                Some(i) => {
                    proof {
                        lemma_entry(pairs, i as int);
                        lemma_remove(pairs, i as int);
                    }
                    let entry = self.map.remove(i);
                    assert(pairs_view(self.map@) =~= pairs.remove(i as int));
                    self.arr.push(entry.1);
                    assert(values_view(self.arr@) =~= arr.push(entry.1@));
                },
                None => {
                    break;
                },
            }
        }
    }
}

} // verus!
