//! Order-sensitive equality and containment of documents.

use vstd::prelude::*;
use crate::value::{
    find, lemma_element_decreases, lemma_entry_decreases, lemma_find, lemma_find_unique,
    lemma_view_entries, lemma_view_items, position, view_entries, view_items, Json, Value,
};

verus! {

/// Whether `sub` is contained in `sup`.
///
/// Two arrays must have the same length and be contained position by
/// position. Every key of an object `sub` must be a key of the object `sup`,
/// with a value that contains it; `sup` may hold more keys. Anything else
/// must be equal.
pub open spec fn contained(sub: Json, sup: Json) -> bool
    decreases sub,
{
    match (sub, sup) {
        (Json::Object(x), Json::Object(y)) => forall|i: int|
            0 <= i < x.len() ==> (find(y, (#[trigger] x[i]).0) matches Some(j) && contained(
                x[i].1,
                y[j].1,
            )),
        (Json::Array(x), Json::Array(y)) => x.len() == y.len() && forall|i: int|
            0 <= i < x.len() ==> contained(#[trigger] x[i], y[i]),
        _ => sub == sup,
    }
}

/// Whether two documents are equal whatever the order of the entries in
/// their objects.
///
/// Two objects are equal when they hold the same number of entries and every
/// key of the one is a key of the other, with an equal value. Two arrays are
/// equal when they are equal position by position.
pub open spec fn equal(a: Json, b: Json) -> bool
    decreases a,
{
    match (a, b) {
        (Json::Object(x), Json::Object(y)) => x.len() == y.len() && forall|i: int|
            0 <= i < x.len() ==> (find(y, (#[trigger] x[i]).0) matches Some(j) && equal(
                x[i].1,
                y[j].1,
            )),
        (Json::Array(x), Json::Array(y)) => x.len() == y.len() && forall|i: int|
            0 <= i < x.len() ==> equal(#[trigger] x[i], y[i]),
        _ => a == b,
    }
}

impl Value {
    /// Whether the two documents are equal with the entries of every object
    /// and the elements of every array in the same order.
    pub fn eq_and_ordered(&self, other: &Value) -> (r: bool)
        ensures
            r == (self@ == other@),
        decreases self,
    {
        match (self, other) {
            (Value::Null, Value::Null) => true,
            (Value::Bool(a), Value::Bool(b)) => *a == *b,
            (Value::Number(a), Value::Number(b)) => *a == *b,
            (Value::String(a), Value::String(b)) => *a == *b,
            (Value::Array(a), Value::Array(b)) => {
                proof {
                    lemma_view_items(a@);
                    lemma_view_items(b@);
                }
                if a.len() != b.len() {
                    return false;
                }
                let mut i: usize = 0;
                while i < a.len()
                    invariant
                        i <= a.len(),
                        a.len() == b.len(),
                        *self == Value::Array(*a),
                        *other == Value::Array(*b),
                        forall|j: int| 0 <= j < i ==> a@[j]@ == b@[j]@,
                    decreases a.len() - i,
                {
                    proof {
                        lemma_view_items(a@);
                        lemma_view_items(b@);
                        lemma_element_decreases(*self, i as int);
                    }
                    if !a[i].eq_and_ordered(&b[i]) {
                        assert(view_items(a@)[i as int] != view_items(b@)[i as int]);
                        return false;
                    }
                    i += 1;
                }
                assert(view_items(a@) =~= view_items(b@));
                true
            },
            (Value::Object(a), Value::Object(b)) => {
                proof {
                    lemma_view_entries(a@);
                    lemma_view_entries(b@);
                }
                if a.len() != b.len() {
                    return false;
                }
                let mut i: usize = 0;
                while i < a.len()
                    invariant
                        i <= a.len(),
                        a.len() == b.len(),
                        *self == Value::Object(*a),
                        *other == Value::Object(*b),
                        forall|j: int|
                            0 <= j < i ==> a@[j].0@ == b@[j].0@ && a@[j].1@ == b@[j].1@,
                    decreases a.len() - i,
                {
                    proof {
                        lemma_view_entries(a@);
                        lemma_view_entries(b@);
                        lemma_entry_decreases(*self, i as int);
                    }
                    if !(a[i].0 == b[i].0) || !a[i].1.eq_and_ordered(&b[i].1) {
                        assert(view_entries(a@)[i as int] != view_entries(b@)[i as int]);
                        return false;
                    }
                    i += 1;
                }
                assert(view_entries(a@) =~= view_entries(b@));
                true
            },
            _ => false,
        }
    }

    /// Whether `other` holds all that this document holds, and, where
    /// `exact`, no entry more.
    fn compare(&self, other: &Value, exact: bool) -> (r: bool)
        ensures
            r == if exact {
                equal(self@, other@)
            } else {
                contained(self@, other@)
            },
        decreases self,
    {
        match (self, other) {
            (Value::Object(x), Value::Object(y)) => {
                proof {
                    lemma_view_entries(x@);
                    lemma_view_entries(y@);
                }
                if exact && x.len() != y.len() {
                    return false;
                }
                let mut i: usize = 0;
                while i < x.len()
                    invariant
                        i <= x.len(),
                        exact ==> x.len() == y.len(),
                        *self == Value::Object(*x),
                        *other == Value::Object(*y),
                        forall|k: int|
                            0 <= k < i ==> (find(
                                view_entries(y@),
                                (#[trigger] view_entries(x@)[k]).0,
                            ) matches Some(j) && if exact {
                                equal(view_entries(x@)[k].1, view_entries(y@)[j].1)
                            } else {
                                contained(view_entries(x@)[k].1, view_entries(y@)[j].1)
                            }),
                    decreases x.len() - i,
                {
                    proof {
                        lemma_view_entries(x@);
                        lemma_view_entries(y@);
                        lemma_entry_decreases(*self, i as int);
                    }
                    let held = match position(y, &x[i].0) {
                        Some(j) => {
                            proof {
                                lemma_find(view_entries(y@), x@[i as int].0@);
                            }
                            x[i].1.compare(&y[j].1, exact)
                        },
                        None => false,
                    };
                    assert(held == (find(view_entries(y@), view_entries(x@)[i as int].0) matches Some(
                        j,
                    ) && if exact {
                        equal(view_entries(x@)[i as int].1, view_entries(y@)[j].1)
                    } else {
                        contained(view_entries(x@)[i as int].1, view_entries(y@)[j].1)
                    }));
                    if !held {
                        return false;
                    }
                    i += 1;
                }
                true
            },
            (Value::Array(x), Value::Array(y)) => {
                proof {
                    lemma_view_items(x@);
                    lemma_view_items(y@);
                }
                if x.len() != y.len() {
                    return false;
                }
                let mut i: usize = 0;
                while i < x.len()
                    invariant
                        i <= x.len(),
                        x.len() == y.len(),
                        *self == Value::Array(*x),
                        *other == Value::Array(*y),
                        forall|k: int|
                            0 <= k < i ==> if exact {
                                equal(#[trigger] view_items(x@)[k], view_items(y@)[k])
                            } else {
                                contained(view_items(x@)[k], view_items(y@)[k])
                            },
                    decreases x.len() - i,
                {
                    proof {
                        lemma_view_items(x@);
                        lemma_view_items(y@);
                        lemma_element_decreases(*self, i as int);
                    }
                    if !x[i].compare(&y[i], exact) {
                        assert(!equal(view_items(x@)[i as int], view_items(y@)[i as int])
                            || !contained(view_items(x@)[i as int], view_items(y@)[i as int]));
                        return false;
                    }
                    i += 1;
                }
                proof {
                    lemma_view_items(x@);
                }
                true
            },
            _ => self.eq_and_ordered(other),
        }
    }

    /// Whether `superset` holds at least all that this document holds (see
    /// [`contained`]).
    pub fn is_subset(&self, superset: &Value) -> (r: bool)
        ensures
            r == contained(self@, superset@),
    {
        self.compare(superset, false)
    }
}

impl PartialEq for Value {
    /// Whether the two documents are equal whatever the order of the entries
    /// in their objects (see [`equal`]).
    fn eq(&self, other: &Value) -> (r: bool)
        ensures
            r == equal(self@, other@),
    {
        self.compare(other, true)
    }
}

impl vstd::std_specs::cmp::PartialEqSpecImpl for Value {
    open spec fn obeys_eq_spec() -> bool {
        true
    }

    open spec fn eq_spec(&self, other: &Value) -> bool {
        equal(self@, other@)
    }
}

/// Every valid document is contained in itself.
pub proof fn lemma_contained_reflexive(v: Json)
    requires
        v.wf(),
    ensures
        contained(v, v),
    decreases v,
{
    match v {
        Json::Object(x) => {
            assert forall|i: int| 0 <= i < x.len() implies (find(x, (#[trigger] x[i]).0) matches Some(
                j,
            ) && contained(x[i].1, x[j].1)) by {
                lemma_find_unique(x, i);
                lemma_contained_reflexive(x[i].1);
            }
        },
        Json::Array(x) => {
            assert forall|i: int| 0 <= i < x.len() implies contained(#[trigger] x[i], x[i]) by {
                lemma_contained_reflexive(x[i]);
            }
        },
        _ => {},
    }
}

/// Every valid document is equal to itself.
pub proof fn lemma_equal_reflexive(v: Json)
    requires
        v.wf(),
    ensures
        equal(v, v),
    decreases v,
{
    match v {
        Json::Object(x) => {
            assert forall|i: int| 0 <= i < x.len() implies (find(x, (#[trigger] x[i]).0) matches Some(
                j,
            ) && equal(x[i].1, x[j].1)) by {
                lemma_find_unique(x, i);
                lemma_equal_reflexive(x[i].1);
            }
        },
        Json::Array(x) => {
            assert forall|i: int| 0 <= i < x.len() implies equal(#[trigger] x[i], x[i]) by {
                lemma_equal_reflexive(x[i]);
            }
        },
        _ => {},
    }
}

/// A document is contained in every document that it is equal to.
pub proof fn lemma_equal_contained(a: Json, b: Json)
    requires
        equal(a, b),
    ensures
        contained(a, b),
    decreases a,
{
    match (a, b) {
        (Json::Object(x), Json::Object(y)) => {
            assert forall|i: int| 0 <= i < x.len() implies (find(y, (#[trigger] x[i]).0) matches Some(
                j,
            ) && contained(x[i].1, y[j].1)) by {
                lemma_equal_contained(x[i].1, y[find(y, x[i].0)->0].1);
            }
        },
        (Json::Array(x), Json::Array(y)) => {
            assert forall|i: int| 0 <= i < x.len() implies contained(#[trigger] x[i], y[i]) by {
                lemma_equal_contained(x[i], y[i]);
            }
        },
        _ => {},
    }
}

/// Of two arrays of different lengths neither is contained in the other,
/// whatever they hold.
pub proof fn lemma_arrays_of_different_lengths(x: Seq<Json>, y: Seq<Json>)
    requires
        x.len() != y.len(),
    ensures
        !contained(Json::Array(x), Json::Array(y)),
        !contained(Json::Array(y), Json::Array(x)),
{
}

} // verus!
