//! Merging one document into another.

use vstd::prelude::*;
use crate::value::{
    find, lemma_find, lemma_find_first, lemma_find_none, lemma_find_unique, lemma_view_entries,
    lemma_view_entries_push, lemma_view_entries_update, lemma_view_items, lemma_view_items_push,
    lemma_view_items_update, lemma_wf_array, lemma_wf_object, position, unique_keys, view_entries,
    view_items, Json, Member, Value,
};

verus! {

/// The document `a` after `b` was merged into it.
///
/// Two objects merge key by key, two arrays position by position. Null
/// changes nothing. An array does not replace an object, nor an object an
/// array: there `a` stays. Anything else replaces what was there.
pub open spec fn merged(a: Json, b: Json) -> Json
    decreases b, 0nat,
{
    match (a, b) {
        (Json::Object(x), Json::Object(y)) => Json::Object(merged_entries(x, y, y.len())),
        (Json::Array(x), Json::Array(y)) => Json::Array(merged_items(x, y, y.len())),
        (_, Json::Null) => a,
        (Json::Object(_), Json::Array(_)) => a,
        (Json::Array(_), Json::Object(_)) => a,
        _ => b,
    }
}

/// The entries `x` after the first `count` entries of `y` were merged into
/// them, one after the other: an entry whose key is there merges into the
/// value under that key, and another is appended.
pub open spec fn merged_entries(x: Seq<Member>, y: Seq<Member>, count: nat) -> Seq<Member>
    decreases y, count,
{
    if count == 0 || count > y.len() {
        x
    } else {
        let before = merged_entries(x, y, (count - 1) as nat);
        let entry = y[count - 1];
        match find(before, entry.0) {
            Some(at) => before.update(at, (entry.0, merged(before[at].1, entry.1))),
            None => before.push(entry),
        }
    }
}

/// The items `x` after the first `count` items of `y` were merged into them,
/// each into the item at its own position, and appended where `x` has none.
pub open spec fn merged_items(x: Seq<Json>, y: Seq<Json>, count: nat) -> Seq<Json>
    decreases y, count,
{
    if count == 0 || count > y.len() {
        x
    } else {
        let before = merged_items(x, y, (count - 1) as nat);
        if count - 1 < before.len() {
            before.update(count - 1, merged(before[count - 1], y[count - 1]))
        } else {
            before.push(y[count - 1])
        }
    }
}

/// Whether merging `b` into `a` meets a conflict: whether somewhere in it an
/// array is to merge into an object, or an object into an array.
pub open spec fn conflicting(a: Json, b: Json) -> bool
    decreases b, 0nat,
{
    match (a, b) {
        (Json::Object(x), Json::Object(y)) => conflicting_entries(x, y, y.len()),
        (Json::Array(x), Json::Array(y)) => conflicting_items(x, y, y.len()),
        (Json::Object(_), Json::Array(_)) => true,
        (Json::Array(_), Json::Object(_)) => true,
        _ => false,
    }
}

/// Whether merging the first `count` entries of `y` into the entries `x`,
/// one after the other, meets a conflict.
pub open spec fn conflicting_entries(x: Seq<Member>, y: Seq<Member>, count: nat) -> bool
    decreases y, count,
{
    if count == 0 || count > y.len() {
        false
    } else {
        let before = merged_entries(x, y, (count - 1) as nat);
        let entry = y[count - 1];
        conflicting_entries(x, y, (count - 1) as nat) || (find(before, entry.0) matches Some(at)
            && conflicting(before[at].1, entry.1))
    }
}

/// Whether merging the first `count` items of `y` into the items `x`, each
/// into the item at its own position, meets a conflict.
pub open spec fn conflicting_items(x: Seq<Json>, y: Seq<Json>, count: nat) -> bool
    decreases y, count,
{
    if count == 0 || count > y.len() {
        false
    } else {
        let before = merged_items(x, y, (count - 1) as nat);
        conflicting_items(x, y, (count - 1) as nat) || (count - 1 < before.len() && conflicting(
            before[count - 1],
            y[count - 1],
        ))
    }
}

/// Merges the entries `b`, in order, into the entries `a`.
fn merge_entries(a: &mut Vec<(String, Value)>, b: Vec<(String, Value)>) -> (conflict: bool)
    ensures
        view_entries(final(a)@) == merged_entries(
            view_entries(old(a)@),
            view_entries(b@),
            b@.len(),
        ),
        conflict == conflicting_entries(view_entries(old(a)@), view_entries(b@), b@.len()),
    decreases b,
{
    let ghost x = view_entries(a@);
    let ghost y = view_entries(b@);
    proof {
        lemma_view_entries(b@);
    }
    let mut conflict = false;
    for entry in it: b
        invariant
            it.seq() == b@,
            y == view_entries(b@),
            y.len() == b@.len(),
            view_entries(a@) == merged_entries(x, y, it.index() as nat),
            conflict == conflicting_entries(x, y, it.index() as nat),
    {
        let ghost n = it.index() as int;
        let ghost before = a@;
        proof {
            lemma_view_entries(b@);
            lemma_view_entries(before);
            lemma_find(view_entries(before), entry.0@);
            vstd::std_specs::vec::axiom_vec_index_decreases(b, n);
        }
        let (key, value) = entry;
        match position(a, &key) {
            Some(at) => {
                let met = a[at].1.deep_merge(value);
                conflict = conflict || met;
                proof {
                    lemma_view_entries_update(before, at as int, a@[at as int]);
                    assert(a@ =~= before.update(at as int, a@[at as int]));
                }
            },
            None => {
                proof {
                    lemma_view_entries_push(before, (key, value));
                }
                a.push((key, value));
            },
        }
    }
    conflict
}

/// Merges the items `b`, in order, into the items `a`.
fn merge_items(a: &mut Vec<Value>, b: Vec<Value>) -> (conflict: bool)
    ensures
        view_items(final(a)@) == merged_items(view_items(old(a)@), view_items(b@), b@.len()),
        conflict == conflicting_items(view_items(old(a)@), view_items(b@), b@.len()),
    decreases b,
{
    let ghost x = view_items(a@);
    let ghost y = view_items(b@);
    proof {
        lemma_view_items(b@);
        assert(b.len() <= usize::MAX);
    }
    let mut at: usize = 0;
    let mut conflict = false;
    for item in it: b
        invariant
            it.seq() == b@,
            y == view_items(b@),
            y.len() == b@.len(),
            at == it.index(),
            y.len() <= usize::MAX,
            view_items(a@) == merged_items(x, y, it.index() as nat),
            conflict == conflicting_items(x, y, it.index() as nat),
    {
        let ghost n = it.index() as int;
        let ghost before = a@;
        proof {
            lemma_view_items(b@);
            lemma_view_items(before);
            vstd::std_specs::vec::axiom_vec_index_decreases(b, n);
        }
        if at < a.len() {
            let met = a[at].deep_merge(item);
            conflict = conflict || met;
            proof {
                lemma_view_items_update(before, at as int, a@[at as int]);
                assert(a@ =~= before.update(at as int, a@[at as int]));
            }
        } else {
            proof {
                lemma_view_items_push(before, item);
            }
            a.push(item);
        }
        at += 1;
    }
    conflict
}

impl Value {
    /// Merges `other` into this document (see [`merged`]), and tells whether
    /// a conflict was met on the way (see [`conflicting`]).
    ///
    /// Nothing that the document held is lost to a null. Where an array
    /// meets an object the document keeps its own, and the merge goes on:
    /// a conflict is for the caller to report, not a failure.
    pub fn deep_merge(&mut self, other: Value) -> (conflict: bool)
        ensures
            final(self)@ == merged(old(self)@, other@),
            conflict == conflicting(old(self)@, other@),
            other@ is Null ==> final(self)@ == old(self)@ && !conflict,
            old(self).wf() && other.wf() ==> final(self).wf(),
        decreases other,
    {
        proof {
            if self.wf() && other.wf() {
                lemma_merged_wf(self@, other@);
            }
        }
        match other {
            Value::Null => false,
            Value::Object(b) => {
                proof {
                    lemma_view_entries(b@);
                }
                match self {
                    Value::Object(a) => merge_entries(a, b),
                    Value::Array(_) => true,
                    _ => {
                        *self = Value::Object(b);
                        false
                    },
                }
            },
            Value::Array(b) => {
                proof {
                    lemma_view_items(b@);
                }
                match self {
                    Value::Array(a) => merge_items(a, b),
                    Value::Object(_) => true,
                    _ => {
                        *self = Value::Array(b);
                        false
                    },
                }
            },
            scalar => {
                *self = scalar;
                false
            },
        }
    }
}

/// Merging null into a document meets no conflict and leaves the document
/// as it was.
pub proof fn lemma_merge_null(v: Json)
    ensures
        merged(v, Json::Null) == v,
        !conflicting(v, Json::Null),
{
}

/// Merging a valid document into itself meets no conflict and leaves the
/// document as it was, the order of its entries and elements included.
pub proof fn lemma_merge_self(v: Json)
    requires
        v.wf(),
    ensures
        merged(v, v) == v,
        !conflicting(v, v),
    decreases v, 0nat,
{
    match v {
        Json::Object(x) => {
            lemma_merge_entries_self(x, x.len());
        },
        Json::Array(x) => {
            lemma_merge_items_self(x, x.len());
        },
        _ => {},
    }
}

/// Merging the first entries of an object without a repeated key into the
/// object leaves it as it was.
proof fn lemma_merge_entries_self(x: Seq<Member>, count: nat)
    requires
        Json::Object(x).wf(),
        count <= x.len(),
    ensures
        merged_entries(x, x, count) == x,
        !conflicting_entries(x, x, count),
    decreases x, count,
{
    if count > 0 {
        lemma_merge_entries_self(x, (count - 1) as nat);
        lemma_find_unique(x, count - 1);
        lemma_merge_self(x[count - 1].1);
        assert(x.update(count - 1, (x[count - 1].0, x[count - 1].1)) =~= x);
    }
}

/// Merging the first items of an array into the array leaves it as it was.
proof fn lemma_merge_items_self(x: Seq<Json>, count: nat)
    requires
        Json::Array(x).wf(),
        count <= x.len(),
    ensures
        merged_items(x, x, count) == x,
        !conflicting_items(x, x, count),
    decreases x, count,
{
    if count > 0 {
        lemma_merge_items_self(x, (count - 1) as nat);
        assert(Json::Array(x)->Array_0 == x);
        lemma_merge_self(x[count - 1]);
        assert(x.update(count - 1, x[count - 1]) =~= x);
    }
}

/// Merging a valid document into a valid document gives a valid document.
pub proof fn lemma_merged_wf(a: Json, b: Json)
    requires
        a.wf(),
        b.wf(),
    ensures
        merged(a, b).wf(),
    decreases b, 0nat,
{
    match (a, b) {
        (Json::Object(x), Json::Object(y)) => {
            lemma_wf_object(y);
            lemma_merged_entries_wf(x, y, y.len());
        },
        (Json::Array(x), Json::Array(y)) => {
            lemma_wf_array(y);
            lemma_merged_items_wf(x, y, y.len());
        },
        _ => {},
    }
}

/// Merging valid values into a valid object gives a valid object.
proof fn lemma_merged_entries_wf(x: Seq<Member>, y: Seq<Member>, count: nat)
    requires
        Json::Object(x).wf(),
        forall|i: int| 0 <= i < y.len() ==> (#[trigger] y[i]).1.wf(),
        count <= y.len(),
    ensures
        Json::Object(merged_entries(x, y, count)).wf(),
    decreases y, count,
{
    if count > 0 {
        let before = merged_entries(x, y, (count - 1) as nat);
        let entry = y[count - 1];
        lemma_merged_entries_wf(x, y, (count - 1) as nat);
        lemma_wf_object(before);
        lemma_find(before, entry.0);
        let after = merged_entries(x, y, count);
        match find(before, entry.0) {
            Some(at) => {
                lemma_merged_wf(before[at].1, entry.1);
                assert(after == before.update(at, (entry.0, merged(before[at].1, entry.1))));
                assert forall|i: int| 0 <= i < after.len() implies (#[trigger] after[i]).1.wf() by {
                    if i != at {
                        assert(after[i] == before[i]);
                    }
                }
                assert forall|i: int, j: int| 0 <= i < j < after.len() implies after[i].0
                    != after[j].0 by {
                    assert(after[i].0 == before[i].0);
                    assert(after[j].0 == before[j].0);
                }
            },
            None => {
                assert(after == before.push(entry));
                assert forall|i: int| 0 <= i < after.len() implies (#[trigger] after[i]).1.wf() by {
                    if i < before.len() {
                        assert(after[i] == before[i]);
                    }
                }
                assert forall|i: int, j: int| 0 <= i < j < after.len() implies after[i].0
                    != after[j].0 by {
                    assert(after[i].0 == before[i].0);
                    if j < before.len() {
                        assert(after[j].0 == before[j].0);
                    }
                }
            },
        }
        lemma_wf_object(after);
    }
}

/// Merging valid items into a valid array gives a valid array.
proof fn lemma_merged_items_wf(x: Seq<Json>, y: Seq<Json>, count: nat)
    requires
        Json::Array(x).wf(),
        forall|i: int| 0 <= i < y.len() ==> (#[trigger] y[i]).wf(),
        count <= y.len(),
    ensures
        Json::Array(merged_items(x, y, count)).wf(),
    decreases y, count,
{
    if count > 0 {
        let before = merged_items(x, y, (count - 1) as nat);
        lemma_merged_items_wf(x, y, (count - 1) as nat);
        lemma_wf_array(before);
        let after = merged_items(x, y, count);
        if count - 1 < before.len() {
            lemma_merged_wf(before[count - 1], y[count - 1]);
            assert forall|i: int| 0 <= i < after.len() implies (#[trigger] after[i]).wf() by {
                if i != count - 1 {
                    assert(after[i] == before[i]);
                }
            }
        } else {
            assert forall|i: int| 0 <= i < after.len() implies (#[trigger] after[i]).wf() by {
                if i < before.len() {
                    assert(after[i] == before[i]);
                }
            }
        }
        lemma_wf_array(after);
    }
}

/// Two arrays merge position by position: where both hold an item the two
/// merge, and where only one does its item stays.
pub proof fn lemma_merged_arrays(x: Seq<Json>, y: Seq<Json>)
    ensures
        merged(Json::Array(x), Json::Array(y)) is Array,
        merged(Json::Array(x), Json::Array(y))->Array_0.len() == if x.len() < y.len() {
            y.len()
        } else {
            x.len()
        },
        forall|i: int|
            0 <= i < x.len() && i < y.len() ==> (#[trigger] merged(
                Json::Array(x),
                Json::Array(y),
            )->Array_0[i]) == merged(x[i], y[i]),
        forall|i: int|
            y.len() <= i < x.len() ==> (#[trigger] merged(
                Json::Array(x),
                Json::Array(y),
            )->Array_0[i]) == x[i],
        forall|i: int|
            x.len() <= i < y.len() ==> (#[trigger] merged(
                Json::Array(x),
                Json::Array(y),
            )->Array_0[i]) == y[i],
{
    lemma_merged_items(x, y, y.len());
}

/// The first `count` items of `y`, merged into `x`.
proof fn lemma_merged_items(x: Seq<Json>, y: Seq<Json>, count: nat)
    requires
        count <= y.len(),
    ensures
        merged_items(x, y, count).len() == if x.len() < count {
            count
        } else {
            x.len()
        },
        forall|i: int|
            0 <= i < x.len() && i < count ==> (#[trigger] merged_items(x, y, count)[i]) == merged(
                x[i],
                y[i],
            ),
        forall|i: int| count <= i < x.len() ==> (#[trigger] merged_items(x, y, count)[i]) == x[i],
        forall|i: int| x.len() <= i < count ==> (#[trigger] merged_items(x, y, count)[i]) == y[i],
    decreases count,
{
    if count > 0 {
        lemma_merged_items(x, y, (count - 1) as nat);
    }
}

/// The entries of `x`, each with its value merged with the value that `y`
/// holds under the same key, if it holds one.
pub open spec fn merged_shared(x: Seq<Member>, y: Seq<Member>) -> Seq<Member> {
    Seq::new(
        x.len(),
        |i: int|
            (
                x[i].0,
                match find(y, x[i].0) {
                    Some(j) => merged(x[i].1, y[j].1),
                    None => x[i].1,
                },
            ),
    )
}

/// Whether the key of an entry is none of the keys of `x`.
pub open spec fn is_new_to(x: Seq<Member>) -> spec_fn(Member) -> bool {
    |entry: Member| find(x, entry.0) is None
}

/// Two objects without a repeated key merge key by key. The entries of the
/// first keep their keys and their places; where the second holds the key
/// too, the two values merge. The entries of the second whose keys are new
/// come after them, in the order they had.
pub proof fn lemma_merged_objects(x: Seq<Member>, y: Seq<Member>)
    requires
        unique_keys(x),
        unique_keys(y),
    ensures
        merged(Json::Object(x), Json::Object(y)) == Json::Object(
            merged_shared(x, y) + y.filter(is_new_to(x)),
        ),
{
    lemma_merged_entries(x, y, y.len());
    assert(y.take(y.len() as int) =~= y);
}

/// The first `count` entries of `y`, merged into `x`.
proof fn lemma_merged_entries(x: Seq<Member>, y: Seq<Member>, count: nat)
    requires
        unique_keys(x),
        unique_keys(y),
        count <= y.len(),
    ensures
        merged_entries(x, y, count) == merged_shared(x, y.take(count as int)) + y.take(
            count as int,
        ).filter(is_new_to(x)),
    decreases count,
{
    reveal(Seq::filter);
    let part = y.take(count as int);
    let after = merged_entries(x, y, count);
    if count == 0 {
        assert(part.filter(is_new_to(x)) =~= Seq::<Member>::empty());
        assert forall|i: int| 0 <= i < x.len() implies (#[trigger] merged_shared(x, part)[i])
            == x[i] by {
            lemma_find_none(part, x[i].0);
        }
        assert(after =~= merged_shared(x, part) + part.filter(is_new_to(x)));
    } else {
        let shorter = y.take(count - 1);
        let entry = y[count - 1];
        let before = merged_entries(x, y, (count - 1) as nat);
        let appended = shorter.filter(is_new_to(x));
        lemma_merged_entries(x, y, (count - 1) as nat);
        assert(part.drop_last() =~= shorter);
        assert(part.last() == entry);
        assert(before == merged_shared(x, shorter) + appended);
        // the key of the entry is none of the keys that went before it
        assert forall|j: int| 0 <= j < shorter.len() implies shorter[j].0 != entry.0 by {
            assert(shorter[j] == y[j]);
        }
        lemma_find_none(shorter, entry.0);
        lemma_find_first(part, entry.0, count - 1);
        // the other keys are found in the longer part where they were found
        assert forall|key: Seq<char>| key != entry.0 implies find(part, key) == find(
            shorter,
            key,
        ) by {
            lemma_find(shorter, key);
            match find(shorter, key) {
                Some(j) => {
                    assert forall|k: int| 0 <= k < j implies part[k].0 != key by {
                        assert(part[k] == shorter[k]);
                    }
                    assert(part[j] == shorter[j]);
                    lemma_find_first(part, key, j);
                },
                None => {
                    assert forall|k: int| 0 <= k < part.len() implies part[k].0 != key by {
                        if k < shorter.len() {
                            assert(part[k] == shorter[k]);
                        }
                    }
                    lemma_find_none(part, key);
                },
            }
        }
        lemma_find(x, entry.0);
        match find(x, entry.0) {
            Some(at) => {
                assert(!is_new_to(x)(entry));
                assert(part.filter(is_new_to(x)) == appended);
                assert forall|k: int| 0 <= k < at implies before[k].0 != entry.0 by {
                    assert(before[k] == merged_shared(x, shorter)[k]);
                }
                assert(before[at] == merged_shared(x, shorter)[at]);
                lemma_find_first(before, entry.0, at);
                assert(after == before.update(at, (entry.0, merged(before[at].1, entry.1))));
                assert forall|i: int| 0 <= i < x.len() implies (#[trigger] merged_shared(x, part)[i])
                    == after[i] by {
                    assert(before[i] == merged_shared(x, shorter)[i]);
                    if i != at {
                        assert(x[i].0 != entry.0);
                        if find(shorter, x[i].0) is Some {
                            lemma_find(shorter, x[i].0);
                            assert(part[find(shorter, x[i].0)->0] == shorter[find(
                                shorter,
                                x[i].0,
                            )->0]);
                        }
                    }
                }
                assert(after =~= merged_shared(x, part) + part.filter(is_new_to(x)));
            },
            None => {
                assert(is_new_to(x)(entry));
                assert(part.filter(is_new_to(x)) == appended.push(entry));
                assert forall|k: int| 0 <= k < before.len() implies before[k].0 != entry.0 by {
                    if k < x.len() {
                        assert(before[k] == merged_shared(x, shorter)[k]);
                    } else {
                        let old = appended[k - x.len()];
                        assert(before[k] == old);
                        assert(appended.contains(old));
                        shorter.lemma_filter_contains_rev(is_new_to(x), old);
                        let j = choose|j: int| 0 <= j < shorter.len() && shorter[j] == old;
                        assert(shorter[j].0 != entry.0);
                    }
                }
                lemma_find_none(before, entry.0);
                assert(after == before.push(entry));
                assert forall|i: int| 0 <= i < x.len() implies (#[trigger] merged_shared(x, part)[i])
                    == after[i] by {
                    assert(before[i] == merged_shared(x, shorter)[i]);
                    assert(x[i].0 != entry.0);
                    if find(shorter, x[i].0) is Some {
                        lemma_find(shorter, x[i].0);
                        assert(part[find(shorter, x[i].0)->0] == shorter[find(
                            shorter,
                            x[i].0,
                        )->0]);
                    }
                }
                assert(after =~= merged_shared(x, part) + part.filter(is_new_to(x)));
            },
        }
    }
}

} // verus!
