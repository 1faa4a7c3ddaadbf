//! Writing a value at a path inside a document.

use vstd::prelude::*;
use crate::path::{Path, PathElement, Segment};
use crate::select::selected;
use crate::value::{
    find, lemma_find, lemma_view_entries, lemma_view_entries_push, lemma_view_entries_update,
    lemma_view_items, lemma_view_items_push, lemma_view_items_update, lemma_wf_array,
    lemma_wf_object, position, view_entries, view_items, Json, Member, Value,
};

verus! {

/// Why a value could not be placed: the document already holds, somewhere
/// along the path, a value of a shape that the path cannot pass through.
#[derive(Clone, Copy, Debug, PartialEq, Eq)]
pub enum PathConflict {
    /// The path needs an array here.
    ExpectedArray,
    /// The path needs an object here.
    ExpectedObject,
}

/// What an insertion leaves behind: the document after it, and the conflict
/// that stopped it, if one did.
pub struct Inserted {
    pub document: Json,
    pub conflict: Option<PathConflict>,
}

/// The elements of an array; of any other value, none.
pub open spec fn items_of(node: Json) -> Seq<Json> {
    if node is Array {
        node->Array_0
    } else {
        Seq::empty()
    }
}

/// The entries of an object; of any other value, none.
pub open spec fn entries_of(node: Json) -> Seq<Member> {
    if node is Object {
        node->Object_0
    } else {
        Seq::empty()
    }
}

/// `count` nulls.
pub open spec fn nulls(count: nat) -> Seq<Json> {
    Seq::new(count, |i: int| Json::Null)
}

/// `items`, followed by as many nulls as it takes to make `index` a position
/// of the sequence.
pub open spec fn padded(items: Seq<Json>, index: nat) -> Seq<Json> {
    if index < items.len() {
        items
    } else {
        items + nulls((index + 1 - items.len()) as nat)
    }
}

/// `entries`, followed by an entry for `key` with a null value unless the key
/// is already there.
pub open spec fn with_key(entries: Seq<Member>, key: Seq<char>) -> Seq<Member> {
    if find(entries, key) is Some {
        entries
    } else {
        entries.push((key, Json::Null))
    }
}

/// In `with_key(entries, key)` the key is found: where it was, or at the
/// end.
pub proof fn lemma_with_key(entries: Seq<Member>, key: Seq<char>)
    ensures
        find(with_key(entries, key), key) == Some(
            match find(entries, key) {
                Some(at) => at,
                None => entries.len() as int,
            },
        ),
        0 <= find(with_key(entries, key), key)->0 < with_key(entries, key).len(),
        with_key(entries, key)[find(with_key(entries, key), key)->0].0 == key,
{
    lemma_find(entries, key);
    lemma_find(with_key(entries, key), key);
    if find(entries, key) is None {
        assert(with_key(entries, key)[entries.len() as int].0 == key);
    }
}

/// The outcome of writing `value` at `path` below `node`.
///
/// Each step of the path descends by one level, except `Flatten`, which
/// stays at the same node and only demands an array there. A null on the way
/// becomes the array or the object that the step needs; an array grows by
/// nulls up to the index of the step; an object gains the key of the step.
/// Another shape on the way is a conflict, which leaves that node as it is
/// and the containers made above it in place.
pub open spec fn inserted(node: Json, path: Seq<Segment>, value: Json) -> Inserted
    decreases path.len(),
{
    if path.len() == 0 {
        Inserted { document: value, conflict: None }
    } else {
        let rest = path.drop_first();
        match path[0] {
            Segment::Flatten => match node {
                Json::Null => inserted(Json::Array(Seq::empty()), rest, value),
                Json::Array(_) => inserted(node, rest, value),
                _ => Inserted { document: node, conflict: Some(PathConflict::ExpectedArray) },
            },
            Segment::Index(index) => if node is Null || node is Array {
                let items = padded(items_of(node), index);
                let below = inserted(items[index as int], rest, value);
                Inserted {
                    document: Json::Array(items.update(index as int, below.document)),
                    conflict: below.conflict,
                }
            } else {
                Inserted { document: node, conflict: Some(PathConflict::ExpectedArray) }
            },
            Segment::Key(key) => if node is Null || node is Object {
                let entries = with_key(entries_of(node), key);
                let at = find(entries, key)->0;
                let below = inserted(entries[at].1, rest, value);
                Inserted {
                    document: Json::Object(entries.update(at, (key, below.document))),
                    conflict: below.conflict,
                }
            } else {
                Inserted { document: node, conflict: Some(PathConflict::ExpectedObject) }
            },
        }
    }
}

impl PathConflict {
    /// The reason in words.
    pub fn reason(&self) -> (r: String)
        ensures
            r@ == match *self {
                PathConflict::ExpectedArray => "expected an array"@,
                PathConflict::ExpectedObject => "expected an object"@,
            },
    {
        match self {
            PathConflict::ExpectedArray => String::from_str("expected an array"),
            PathConflict::ExpectedObject => String::from_str("expected an object"),
        }
    }
}

/// Appends nulls to `items` until `index` is a position of it.
fn pad(items: &mut Vec<Value>, index: usize)
    ensures
        view_items(final(items)@) == padded(view_items(old(items)@), index as nat),
        index < final(items)@.len(),
{
    proof {
        lemma_view_items(items@);
    }
    while items.len() <= index
        invariant
            view_items(items@) =~= view_items(old(items)@) + nulls(
                (items@.len() - old(items)@.len()) as nat,
            ),
            old(items)@.len() <= items@.len(),
            items@.len() <= old(items)@.len() || items@.len() <= index + 1,
        decreases index + 1 - items.len(),
    {
        let ghost before = items@;
        items.push(Value::Null);
        proof {
            lemma_view_items_push(before, Value::Null);
        }
    }
    proof {
        lemma_view_items(items@);
        lemma_view_items(old(items)@);
    }
}

/// Writes `value` at the steps of `path` from `from` on, below `node`.
fn insert_from(node: &mut Value, path: &Path, from: usize, value: Value) -> (r: Result<
    (),
    PathConflict,
>)
    requires
        from <= path.0@.len(),
    ensures
        final(node)@ == inserted(old(node)@, path@.skip(from as int), value@).document,
        r == match inserted(old(node)@, path@.skip(from as int), value@).conflict {
            Some(conflict) => Err::<(), PathConflict>(conflict),
            None => Ok(()),
        },
    decreases path.0@.len() - from,
{
    let ghost steps = path@.skip(from as int);
    if from == path.0.len() {
        *node = value;
        return Ok(());
    }
    proof {
        assert(steps[0] == path.0@[from as int]@);
        assert(steps.drop_first() =~= path@.skip(from + 1));
        assert(view_items(Seq::<Value>::empty()) == Seq::<Json>::empty());
        assert(view_entries(Seq::<(String, Value)>::empty()) == Seq::<Member>::empty());
    }
    match &path.0[from] {
        PathElement::Flatten => {
            match node {
                Value::Null => {
                    *node = Value::Array(Vec::new());
                },
                Value::Array(_) => {},
                _ => {
                    return Err(PathConflict::ExpectedArray);
                },
            }
            insert_from(node, path, from + 1, value)
        },
        PathElement::Index(index) => {
            if let Value::Null = node {
                *node = Value::Array(Vec::new());
            }
            match node {
                Value::Array(items) => {
                    pad(items, *index);
                    let ghost grown = items@;
                    let r = insert_from(&mut items[*index], path, from + 1, value);
                    proof {
                        lemma_view_items(grown);
                        lemma_view_items_update(grown, *index as int, items@[*index as int]);
                        assert(items@ =~= grown.update(*index as int, items@[*index as int]));
                    }
                    r
                },
                _ => Err(PathConflict::ExpectedArray),
            }
        },
        PathElement::Key(key) => {
            if let Value::Null = node {
                *node = Value::Object(Vec::new());
            }
            match node {
                Value::Object(entries) => {
                    proof {
                        lemma_with_key(view_entries(entries@), key@);
                        lemma_view_entries_push(entries@, (*key, Value::Null));
                    }
                    let at = match position(entries, key) {
                        Some(at) => at,
                        None => {
                            entries.push((key.clone(), Value::Null));
                            entries.len() - 1
                        },
                    };
                    let ghost grown = entries@;
                    proof {
                        lemma_view_entries(grown);
                    }
                    let r = insert_from(&mut entries[at].1, path, from + 1, value);
                    proof {
                        lemma_view_entries_update(grown, at as int, entries@[at as int]);
                        assert(entries@ =~= grown.update(at as int, entries@[at as int]));
                    }
                    r
                },
                _ => Err(PathConflict::ExpectedObject),
            }
        },
    }
}

impl Value {
    /// Writes `value` at `path`, making the arrays and objects on the way
    /// where the document holds null or nothing yet.
    ///
    /// Fails where the document already holds another shape than a step of
    /// the path needs; the containers made before that point stay.
    pub fn insert(&mut self, path: &Path, value: Value) -> (r: Result<(), PathConflict>)
        ensures
            final(self)@ == inserted(old(self)@, path@, value@).document,
            r == match inserted(old(self)@, path@, value@).conflict {
                Some(conflict) => Err::<(), PathConflict>(conflict),
                None => Ok(()),
            },
            old(self).wf() && value.wf() ==> final(self).wf(),
    {
        proof {
            if self.wf() && value.wf() {
                lemma_inserted_wf(self@, path@, value@);
            }
        }
        assert(path@.skip(0) =~= path@);
        insert_from(self, path, 0, value)
    }
}

/// Writing a valid value into a valid document leaves a valid document,
/// whether or not the writing met a conflict.
pub proof fn lemma_inserted_wf(node: Json, path: Seq<Segment>, value: Json)
    requires
        node.wf(),
        value.wf(),
    ensures
        inserted(node, path, value).document.wf(),
    decreases path.len(),
{
    if path.len() > 0 {
        let rest = path.drop_first();
        match path[0] {
            Segment::Flatten => {
                match node {
                    Json::Null => {
                        lemma_wf_array(Seq::empty());
                        lemma_inserted_wf(Json::Array(Seq::empty()), rest, value);
                    },
                    Json::Array(_) => {
                        lemma_inserted_wf(node, rest, value);
                    },
                    _ => {},
                }
            },
            Segment::Index(index) => {
                if node is Null || node is Array {
                    let old_items = items_of(node);
                    lemma_wf_array(old_items);
                    let items = padded(old_items, index);
                    assert forall|i: int| 0 <= i < items.len() implies (#[trigger] items[i]).wf() by {
                        if i < old_items.len() {
                            assert(items[i] == old_items[i]);
                        }
                    }
                    let below = inserted(items[index as int], rest, value);
                    lemma_inserted_wf(items[index as int], rest, value);
                    let after = items.update(index as int, below.document);
                    assert forall|i: int| 0 <= i < after.len() implies (#[trigger] after[i]).wf() by {
                        if i != index {
                            assert(after[i] == items[i]);
                        }
                    }
                    lemma_wf_array(after);
                }
            },
            Segment::Key(key) => {
                if node is Null || node is Object {
                    let old_entries = entries_of(node);
                    lemma_wf_object(old_entries);
                    lemma_find(old_entries, key);
                    let entries = with_key(old_entries, key);
                    lemma_with_key(old_entries, key);
                    let at = find(entries, key)->0;
                    assert forall|i: int| 0 <= i < entries.len() implies (#[trigger] entries[i]).1.wf() by {
                        if i < old_entries.len() {
                            assert(entries[i] == old_entries[i]);
                        }
                    }
                    assert forall|i: int, j: int| 0 <= i < j < entries.len() implies entries[i].0
                        != entries[j].0 by {
                        assert(entries[i].0 == old_entries[i].0);
                        if j < old_entries.len() {
                            assert(entries[j].0 == old_entries[j].0);
                        }
                    }
                    let below = inserted(entries[at].1, rest, value);
                    lemma_inserted_wf(entries[at].1, rest, value);
                    let after = entries.update(at, (key, below.document));
                    assert forall|i: int| 0 <= i < after.len() implies (#[trigger] after[i]).1.wf() by {
                        if i != at {
                            assert(after[i] == entries[i]);
                        }
                    }
                    assert forall|i: int, j: int| 0 <= i < j < after.len() implies after[i].0
                        != after[j].0 by {
                        assert(after[i].0 == entries[i].0);
                        assert(after[j].0 == entries[j].0);
                    }
                    lemma_wf_object(after);
                }
            },
        }
    }
}

/// What was written can be read: after a value was written at a path
/// without `Flatten`, and no conflict was met, the path addresses that value
/// and nothing else.
pub proof fn lemma_selected_after_inserted(
    node: Json,
    path: Seq<Segment>,
    value: Json,
    prefix: Seq<Segment>,
)
    requires
        forall|i: int| 0 <= i < path.len() ==> !((#[trigger] path[i]) is Flatten),
        inserted(node, path, value).conflict is None,
    ensures
        selected(inserted(node, path, value).document, path, prefix) == seq![(prefix + path, value)],
    decreases path.len(),
{
    if path.len() == 0 {
        assert(prefix + path =~= prefix);
    } else {
        let rest = path.drop_first();
        let below = prefix.push(path[0]);
        assert(below + rest =~= prefix + path);
        assert forall|i: int| 0 <= i < rest.len() implies !((#[trigger] rest[i]) is Flatten) by {
            assert(rest[i] == path[i + 1]);
        }
        match path[0] {
            Segment::Flatten => {},
            Segment::Index(index) => {
                let items = padded(items_of(node), index);
                lemma_selected_after_inserted(items[index as int], rest, value, below);
            },
            Segment::Key(key) => {
                let entries = with_key(entries_of(node), key);
                lemma_with_key(entries_of(node), key);
                let at = find(entries, key)->0;
                let written = inserted(entries[at].1, rest, value).document;
                let updated = entries.update(at, (key, written));
                lemma_find(entries, key);
                lemma_find(updated, key);
                assert(updated[at].0 == key);
                lemma_selected_after_inserted(entries[at].1, rest, value, below);
            },
        }
    }
}

} // verus!
