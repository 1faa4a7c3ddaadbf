//! Building the smallest document that holds a value at a path.

use vstd::prelude::*;
use crate::insert::nulls;
use crate::path::{Path, PathElement, Segment};
use crate::value::{
    lemma_view_entries_push, lemma_view_items_push, lemma_wf_array, lemma_wf_object, view_entries,
    view_items, Json, Member, Value,
};

verus! {

/// The smallest document that holds `leaf` at `path`.
///
/// A key wraps what follows in an object of one entry, an index in an array
/// whose earlier positions hold null. At a `Flatten` the document ends in
/// null: what follows it, the leaf included, is left out.
pub open spec fn built(path: Seq<Segment>, leaf: Json) -> Json
    decreases path.len(),
{
    if path.len() == 0 {
        leaf
    } else {
        match path[0] {
            Segment::Flatten => Json::Null,
            Segment::Index(index) => Json::Array(nulls(index).push(built(path.drop_first(), leaf))),
            Segment::Key(key) => Json::Object(seq![(key, built(path.drop_first(), leaf))]),
        }
    }
}

/// The document for the steps of `path` from `from` on.
fn build_from(path: &Path, from: usize, value: Value) -> (r: Value)
    requires
        from <= path.0@.len(),
    ensures
        r@ == built(path@.skip(from as int), value@),
    decreases path.0@.len() - from,
{
    let ghost steps = path@.skip(from as int);
    if from == path.0.len() {
        return value;
    }
    assert(steps[0] == path.0@[from as int]@);
    assert(steps.drop_first() =~= path@.skip(from + 1));
    match &path.0[from] {
        PathElement::Flatten => Value::Null,
        PathElement::Index(index) => {
            let inner = build_from(path, from + 1, value);
            let mut items: Vec<Value> = Vec::new();
            assert(view_items(items@) =~= nulls(0));
            while items.len() < *index
                invariant
                    items@.len() <= *index,
                    view_items(items@) == nulls(items@.len()),
                decreases *index - items.len(),
            {
                proof {
                    lemma_view_items_push(items@, Value::Null);
                    assert(nulls(items@.len()).push(Json::Null) =~= nulls(items@.len() + 1));
                }
                items.push(Value::Null);
            }
            proof {
                lemma_view_items_push(items@, inner);
            }
            items.push(inner);
            Value::Array(items)
        },
        PathElement::Key(key) => {
            let inner = build_from(path, from + 1, value);
            let mut entries: Vec<(String, Value)> = Vec::new();
            proof {
                assert(view_entries(entries@) =~= Seq::<Member>::empty());
                lemma_view_entries_push(entries@, (*key, inner));
                assert(Seq::<Member>::empty().push((key@, inner@)) =~= seq![(key@, inner@)]);
            }
            entries.push((key.clone(), inner));
            Value::Object(entries)
        },
    }
}

impl Value {
    /// The smallest document that holds `value` at `path` (see [`built`]),
    /// made to be merged into a document that holds the rest.
    pub fn from_path(path: &Path, value: Value) -> (r: Value)
        ensures
            r@ == built(path@, value@),
            value.wf() ==> r.wf(),
    {
        proof {
            if value.wf() {
                lemma_built_wf(path@, value@);
            }
        }
        assert(path@.skip(0) =~= path@);
        build_from(path, 0, value)
    }
}

/// The smallest document that holds a valid leaf is valid.
pub proof fn lemma_built_wf(path: Seq<Segment>, leaf: Json)
    requires
        leaf.wf(),
    ensures
        built(path, leaf).wf(),
    decreases path.len(),
{
    if path.len() > 0 {
        let below = built(path.drop_first(), leaf);
        lemma_built_wf(path.drop_first(), leaf);
        match path[0] {
            Segment::Flatten => {},
            Segment::Index(index) => {
                let items = nulls(index).push(below);
                assert forall|i: int| 0 <= i < items.len() implies (#[trigger] items[i]).wf() by {}
                lemma_wf_array(items);
            },
            Segment::Key(key) => {
                let entries = seq![(key, below)];
                assert forall|i: int| 0 <= i < entries.len() implies (#[trigger] entries[i]).1.wf() by {}
                lemma_wf_object(entries);
            },
        }
    }
}

} // verus!
