//! Reading the values that a path addresses in a document.

use vstd::prelude::*;
use crate::path::{Path, PathElement, Segment, view_elements};
use crate::value::{
    find, lemma_find, lemma_view_entries, lemma_view_items, position, view_entries, view_items,
    Json, Value,
};

verus! {

/// What a traversal finds: the place, as a path of keys and indices, and the
/// value there.
pub type Found = (Seq<Segment>, Json);

/// Everything that `path` addresses below `node`, depth first and from left
/// to right, where `prefix` is the place of `node` itself.
///
/// An index or a key that the node does not have, and a step that does not
/// fit the shape of the node, address nothing. `Flatten` addresses every
/// element of an array, each at its index.
pub open spec fn selected(node: Json, path: Seq<Segment>, prefix: Seq<Segment>) -> Seq<Found>
    decreases path.len(), 0nat,
{
    if path.len() == 0 {
        seq![(prefix, node)]
    } else {
        let rest = path.drop_first();
        match path[0] {
            Segment::Flatten => if node is Array {
                selected_each(node->Array_0, node->Array_0.len(), rest, prefix)
            } else {
                Seq::empty()
            },
            Segment::Index(index) => if node is Array && index < node->Array_0.len() {
                selected(node->Array_0[index as int], rest, prefix.push(Segment::Index(index)))
            } else {
                Seq::empty()
            },
            Segment::Key(key) => if node is Object && find(node->Object_0, key) is Some {
                selected(
                    node->Object_0[find(node->Object_0, key)->0].1,
                    rest,
                    prefix.push(Segment::Key(key)),
                )
            } else {
                Seq::empty()
            },
        }
    }
}

/// What `path` addresses below each of the first `count` of `items` in turn,
/// where `prefix` is the place of the array that holds them.
pub open spec fn selected_each(
    items: Seq<Json>,
    count: nat,
    path: Seq<Segment>,
    prefix: Seq<Segment>,
) -> Seq<Found>
    decreases path.len(), count + 1,
{
    if count == 0 {
        Seq::empty()
    } else {
        selected_each(items, (count - 1) as nat, path, prefix) + selected(
            items[count - 1],
            path,
            prefix.push(Segment::Index((count - 1) as nat)),
        )
    }
}

/// The models of what a traversal returned.
pub open spec fn view_found(found: Seq<(Path, &Value)>) -> Seq<Found> {
    Seq::new(found.len(), |i: int| (found[i].0@, found[i].1@))
}

/// `parent` with one more step.
fn child(parent: &Path, step: PathElement) -> (r: Path)
    ensures
        r@ == parent@.push(step@),
{
    let mut steps = parent.clone().0;
    steps.push(step);
    assert(view_elements(steps@) =~= view_elements(parent.0@).push(step@));
    Path(steps)
}

/// Appends to `out` what the steps of `path` from `from` on address below
/// `data`, which lies at `parent`.
fn collect<'a>(
    parent: &Path,
    path: &Path,
    from: usize,
    data: &'a Value,
    out: &mut Vec<(Path, &'a Value)>,
)
    requires
        from <= path.0@.len(),
    ensures
        view_found(final(out)@) == view_found(old(out)@) + selected(
            data@,
            path@.skip(from as int),
            parent@,
        ),
    decreases path.0@.len() - from,
{
    let ghost steps = path@.skip(from as int);
    let ghost rest = path@.skip(from + 1);
    if from == path.0.len() {
        out.push((parent.clone(), data));
        assert(view_found(out@) =~= view_found(old(out)@) + seq![(parent@, data@)]);
        return;
    }
    assert(steps[0] == path.0@[from as int]@);
    assert(steps.drop_first() =~= rest);
    assert(view_found(out@) =~= view_found(old(out)@) + Seq::<Found>::empty());
    match &path.0[from] {
        PathElement::Flatten => {
            if let Value::Array(items) = data {
                let ghost models = view_items(items@);
                proof {
                    lemma_view_items(items@);
                }
                let mut i: usize = 0;
                while i < items.len()
                    invariant
                        i <= items.len(),
                        from < path.0@.len() <= usize::MAX,
                        rest == path@.skip(from + 1),
                        models == view_items(items@),
                        models.len() == items@.len(),
                        view_found(out@) == view_found(old(out)@) + selected_each(
                            models,
                            i as nat,
                            rest,
                            parent@,
                        ),
                    decreases items.len() - i,
                {
                    proof {
                        lemma_view_items(items@);
                    }
                    let place = child(parent, PathElement::Index(i));
                    collect(&place, path, from + 1, &items[i], out);
                    assert(view_found(out@) =~= view_found(old(out)@) + selected_each(
                        models,
                        (i + 1) as nat,
                        rest,
                        parent@,
                    ));
                    i += 1;
                }
            }
        },
        PathElement::Index(index) => {
            if let Value::Array(items) = data {
                proof {
                    lemma_view_items(items@);
                }
                if *index < items.len() {
                    let place = child(parent, PathElement::Index(*index));
                    collect(&place, path, from + 1, &items[*index], out);
                }
            }
        },
        PathElement::Key(key) => {
            if let Value::Object(entries) = data {
                proof {
                    lemma_view_entries(entries@);
                    lemma_find(view_entries(entries@), key@);
                }
                if let Some(at) = position(entries, key) {
                    let place = child(parent, PathElement::Key(key.clone()));
                    collect(&place, path, from + 1, &entries[at].1, out);
                }
            }
        },
    }
}

impl Value {
    /// Every value that `path` addresses in this document, each with its
    /// place, depth first and from left to right (see [`selected`]).
    ///
    /// What the document does not hold is passed over: the result may be
    /// empty, and nothing fails.
    pub fn select_values_and_paths<'a>(&'a self, path: &Path) -> (r: Vec<(Path, &'a Value)>)
        ensures
            view_found(r@) == selected(self@, path@, Seq::empty()),
            self.wf() ==> forall|i: int| 0 <= i < r@.len() ==> (#[trigger] r@[i]).1.wf(),
    {
        let mut out: Vec<(Path, &'a Value)> = Vec::new();
        let root = Path::empty();
        assert(path@.skip(0) =~= path@);
        assert(view_found(out@) =~= Seq::<Found>::empty());
        collect(&root, path, 0, self, &mut out);
        assert(view_found(out@) =~= selected(self@, path@, Seq::empty()));
        assert forall|i: int| 0 <= i < out@.len() && self.wf() implies (#[trigger] out@[i]).1.wf() by {
            lemma_selected_wf(self@, path@, Seq::empty(), i);
            assert(view_found(out@)[i].1 == out@[i].1@);
        }
        out
    }
}

/// Whether `place` is a place that `path` can lead to: as many steps, each
/// the same as the step of the path, or an index where the path has
/// `Flatten`.
pub open spec fn resolves(place: Seq<Segment>, path: Seq<Segment>) -> bool {
    &&& place.len() == path.len()
    &&& forall|i: int|
        0 <= i < path.len() ==> if path[i] is Flatten {
            (#[trigger] place[i]) is Index
        } else {
            place[i] == path[i]
        }
}

/// What a traversal finds lies where the traversal says. Each place that it
/// returns is the place of the node followed by keys and indices that
/// follow the path, and read as a path it addresses the value returned with
/// it and nothing else.
pub proof fn lemma_selected_places(node: Json, path: Seq<Segment>, prefix: Seq<Segment>, k: int)
    requires
        0 <= k < selected(node, path, prefix).len(),
    ensures
        ({
            let found = selected(node, path, prefix)[k];
            let place = found.0.skip(prefix.len() as int);
            &&& found.0 == prefix + place
            &&& resolves(place, path)
            &&& selected(node, place, prefix) == seq![found]
        }),
    decreases path.len(), 0nat,
{
    let found = selected(node, path, prefix)[k];
    let place = found.0.skip(prefix.len() as int);
    if path.len() == 0 {
        assert(place =~= Seq::<Segment>::empty());
        assert(found.0 =~= prefix + place);
    } else {
        let rest = path.drop_first();
        match path[0] {
            Segment::Flatten => {
                assert(node is Array);
                let items = node->Array_0;
                let (i, at) = lemma_selected_each_places(items, items.len(), rest, prefix, k);
                let below = prefix.push(Segment::Index(i as nat));
                lemma_selected_places(items[i], rest, below, at);
                lemma_descend(node, path, prefix, Segment::Index(i as nat), items[i], found);
            },
            Segment::Index(index) => {
                assert(node is Array && index < node->Array_0.len());
                let below = prefix.push(path[0]);
                lemma_selected_places(node->Array_0[index as int], rest, below, k);
                lemma_descend(node, path, prefix, path[0], node->Array_0[index as int], found);
            },
            Segment::Key(key) => {
                assert(node is Object && find(node->Object_0, key) is Some);
                let below = prefix.push(path[0]);
                let child = node->Object_0[find(node->Object_0, key)->0].1;
                lemma_selected_places(child, rest, below, k);
                lemma_descend(node, path, prefix, path[0], child, found);
            },
        }
    }
}

/// Whether `step` leads from `node` to `child`.
spec fn leads(node: Json, step: Segment, child: Json) -> bool {
    match step {
        Segment::Flatten => false,
        Segment::Index(index) => node is Array && index < node->Array_0.len() && child
            == node->Array_0[index as int],
        Segment::Key(key) => node is Object && find(node->Object_0, key) is Some && child
            == node->Object_0[find(node->Object_0, key)->0].1,
    }
}

/// From a place below a child of `node` to the place below `node` itself.
proof fn lemma_descend(
    node: Json,
    path: Seq<Segment>,
    prefix: Seq<Segment>,
    step: Segment,
    child: Json,
    found: Found,
)
    requires
        path.len() > 0,
        leads(node, step, child),
        if path[0] is Flatten {
            step is Index
        } else {
            step == path[0]
        },
        ({
            let below = prefix.push(step);
            let place = found.0.skip(below.len() as int);
            &&& found.0 == below + place
            &&& resolves(place, path.drop_first())
            &&& selected(child, place, below) == seq![found]
        }),
    ensures
        ({
            let place = found.0.skip(prefix.len() as int);
            &&& found.0 == prefix + place
            &&& resolves(place, path)
            &&& selected(node, place, prefix) == seq![found]
        }),
{
    let below = prefix.push(step);
    let tail = found.0.skip(below.len() as int);
    let place = found.0.skip(prefix.len() as int);
    assert(place =~= seq![step] + tail);
    assert(found.0 =~= prefix + place);
    assert(place.drop_first() =~= tail);
    assert(place[0] == step);
    assert forall|i: int| 0 <= i < path.len() implies if path[i] is Flatten {
        (#[trigger] place[i]) is Index
    } else {
        place[i] == path[i]
    } by {
        if i > 0 {
            assert(place[i] == tail[i - 1]);
            assert(path[i] == path.drop_first()[i - 1]);
        }
    }
}

/// Which of the items, and which of the values found below it, stands at a
/// position of what was found below all of them.
proof fn lemma_selected_each_places(
    items: Seq<Json>,
    count: nat,
    path: Seq<Segment>,
    prefix: Seq<Segment>,
    k: int,
) -> (r: (int, int))
    requires
        0 <= k < selected_each(items, count, path, prefix).len(),
    ensures
        0 <= r.0 < count,
        0 <= r.1 < selected(items[r.0], path, prefix.push(Segment::Index(r.0 as nat))).len(),
        selected(items[r.0], path, prefix.push(Segment::Index(r.0 as nat)))[r.1] == selected_each(
            items,
            count,
            path,
            prefix,
        )[k],
    decreases count,
{
    let before = selected_each(items, (count - 1) as nat, path, prefix);
    if k < before.len() {
        lemma_selected_each_places(items, (count - 1) as nat, path, prefix, k)
    } else {
        (count - 1, k - before.len())
    }
}

/// What a traversal finds in a valid document is valid.
pub proof fn lemma_selected_wf(node: Json, path: Seq<Segment>, prefix: Seq<Segment>, k: int)
    requires
        node.wf(),
        0 <= k < selected(node, path, prefix).len(),
    ensures
        selected(node, path, prefix)[k].1.wf(),
    decreases path.len(),
{
    if path.len() > 0 {
        let rest = path.drop_first();
        match path[0] {
            Segment::Flatten => {
                assert(node is Array);
                let items = node->Array_0;
                let (i, at) = lemma_selected_each_places(items, items.len(), rest, prefix, k);
                lemma_selected_wf(items[i], rest, prefix.push(Segment::Index(i as nat)), at);
            },
            Segment::Index(index) => {
                assert(node is Array && index < node->Array_0.len());
                lemma_selected_wf(node->Array_0[index as int], rest, prefix.push(path[0]), k);
            },
            Segment::Key(key) => {
                assert(node is Object && find(node->Object_0, key) is Some);
                lemma_find(node->Object_0, key);
                let child = node->Object_0[find(node->Object_0, key)->0].1;
                lemma_selected_wf(child, rest, prefix.push(path[0]), k);
            },
        }
    }
}

} // verus!
