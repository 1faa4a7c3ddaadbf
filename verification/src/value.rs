//! The document value and its mathematical model.

use vstd::prelude::*;

verus! {

/// A JSON number.
///
/// Integers are held exactly. A floating-point number is held by the bit
/// pattern of a finite IEEE-754 double, zero always as positive zero, so that
/// two numbers are equal by value exactly when their representations are
/// equal.
#[derive(Clone, Copy, Debug, PartialEq, Eq, Structural)]
pub enum Number {
    /// A non-negative integer.
    PosInt(u64),
    /// A negative integer.
    NegInt(i64),
    /// The bits of a finite double.
    Float(u64),
}

impl Number {
    /// A valid number: a `NegInt` is negative, and a `Float` is finite and
    /// not the negative zero.
    pub open spec fn wf(self) -> bool {
        match self {
            Number::PosInt(_) => true,
            Number::NegInt(n) => n < 0,
            Number::Float(bits) => bits % 0x8000_0000_0000_0000 < 0x7ff0_0000_0000_0000 && bits
                != 0x8000_0000_0000_0000,
        }
    }
}

/// One entry of an object's model: a key and the model of its value.
pub type Member = (Seq<char>, Json);

/// The mathematical model of a document: what a [`Value`] stands for.
///
/// An array is the sequence of its elements. An object is the sequence of its
/// entries in insertion order.
pub enum Json {
    Null,
    Bool(bool),
    Number(Number),
    String(Seq<char>),
    Array(Seq<Json>),
    Object(Seq<Member>),
}

/// A dynamically typed document.
///
/// An object holds its entries in insertion order; in a valid document (see
/// [`Json::wf`]) no key occurs twice in one object.
#[derive(Debug)]
pub enum Value {
    Null,
    Bool(bool),
    Number(Number),
    String(String),
    Array(Vec<Value>),
    Object(Vec<(String, Value)>),
}

impl View for Value {
    type V = Json;

    open spec fn view(&self) -> Json
        decreases self,
    {
        match self {
            Value::Null => Json::Null,
            Value::Bool(b) => Json::Bool(*b),
            Value::Number(n) => Json::Number(*n),
            Value::String(s) => Json::String(s@),
            Value::Array(a) => Json::Array(view_items(a@)),
            Value::Object(o) => Json::Object(view_entries(o@)),
        }
    }
}

/// The models of a sequence of values, in order.
pub open spec fn view_items(items: Seq<Value>) -> Seq<Json>
    decreases items,
{
    if items.len() == 0 {
        Seq::empty()
    } else {
        view_items(items.drop_last()).push(items.last()@)
    }
}

/// The models of a sequence of object entries, in order.
pub open spec fn view_entries(entries: Seq<(String, Value)>) -> Seq<Member>
    decreases entries,
{
    if entries.len() == 0 {
        Seq::empty()
    } else {
        view_entries(entries.drop_last()).push((entries.last().0@, entries.last().1@))
    }
}

/// `view_items` maps position by position.
pub proof fn lemma_view_items(items: Seq<Value>)
    ensures
        view_items(items).len() == items.len(),
        forall|i: int| 0 <= i < items.len() ==> (#[trigger] view_items(items)[i]) == items[i]@,
    decreases items.len(),
{
    if items.len() > 0 {
        lemma_view_items(items.drop_last());
        assert(view_items(items) == view_items(items.drop_last()).push(items.last()@));
    } else {
        assert(view_items(items) == Seq::<Json>::empty());
    }
}

/// `view_entries` maps position by position.
pub proof fn lemma_view_entries(entries: Seq<(String, Value)>)
    ensures
        view_entries(entries).len() == entries.len(),
        forall|i: int|
            0 <= i < entries.len() ==> (#[trigger] view_entries(entries)[i]) == (
                entries[i].0@,
                entries[i].1@,
            ),
    decreases entries.len(),
{
    if entries.len() > 0 {
        lemma_view_entries(entries.drop_last());
        assert(view_entries(entries) == view_entries(entries.drop_last()).push(
            (entries.last().0@, entries.last().1@),
        ));
    } else {
        assert(view_entries(entries) == Seq::<Member>::empty());
    }
}

/// An element of an array is smaller than the array: what lets a function
/// on documents call itself on an element.
pub proof fn lemma_element_decreases(value: Value, i: int)
    requires
        value is Array,
        0 <= i < value->Array_0@.len(),
    ensures
        decreases_to!(value => value->Array_0@[i]),
{
    vstd::std_specs::vec::axiom_vec_index_decreases(value->Array_0, i);
}

/// The value of an entry of an object is smaller than the object.
pub proof fn lemma_entry_decreases(value: Value, i: int)
    requires
        value is Object,
        0 <= i < value->Object_0@.len(),
    ensures
        decreases_to!(value => value->Object_0@[i].1),
{
    vstd::std_specs::vec::axiom_vec_index_decreases(value->Object_0, i);
}

/// The model of a sequence of values that grew by one.
pub proof fn lemma_view_items_push(items: Seq<Value>, value: Value)
    ensures
        view_items(items.push(value)) == view_items(items).push(value@),
{
    assert(items.push(value).drop_last() =~= items);
    assert(view_items(items.push(value)) == view_items(items.push(value).drop_last()).push(
        items.push(value).last()@,
    ));
}

/// The model of a sequence of values of which one was replaced.
pub proof fn lemma_view_items_update(items: Seq<Value>, i: int, value: Value)
    requires
        0 <= i < items.len(),
    ensures
        view_items(items.update(i, value)) == view_items(items).update(i, value@),
{
    lemma_view_items(items);
    lemma_view_items(items.update(i, value));
    assert(view_items(items.update(i, value)) =~= view_items(items).update(i, value@));
}

/// The model of a sequence of entries that grew by one.
pub proof fn lemma_view_entries_push(entries: Seq<(String, Value)>, entry: (String, Value))
    ensures
        view_entries(entries.push(entry)) == view_entries(entries).push((entry.0@, entry.1@)),
{
    assert(entries.push(entry).drop_last() =~= entries);
    assert(view_entries(entries.push(entry)) == view_entries(
        entries.push(entry).drop_last(),
    ).push((entries.push(entry).last().0@, entries.push(entry).last().1@)));
}

/// The model of a sequence of entries of which one was replaced.
pub proof fn lemma_view_entries_update(entries: Seq<(String, Value)>, i: int, entry: (String, Value))
    requires
        0 <= i < entries.len(),
    ensures
        view_entries(entries.update(i, entry)) == view_entries(entries).update(
            i,
            (entry.0@, entry.1@),
        ),
{
    lemma_view_entries(entries);
    lemma_view_entries(entries.update(i, entry));
    assert(view_entries(entries.update(i, entry)) =~= view_entries(entries).update(
        i,
        (entry.0@, entry.1@),
    ));
}

/// The position of the first entry from `from` on whose key is `key`.
pub open spec fn find_from(entries: Seq<Member>, key: Seq<char>, from: int) -> Option<int>
    decreases entries.len() - from,
{
    if from < 0 || from >= entries.len() {
        None
    } else if entries[from].0 == key {
        Some(from)
    } else {
        find_from(entries, key, from + 1)
    }
}

/// The position of the first entry whose key is `key`.
pub open spec fn find(entries: Seq<Member>, key: Seq<char>) -> Option<int> {
    find_from(entries, key, 0)
}

/// No key occurs twice.
pub open spec fn unique_keys(entries: Seq<Member>) -> bool {
    forall|i: int, j: int| 0 <= i < j < entries.len() ==> entries[i].0 != entries[j].0
}

impl Json {
    /// A valid document: every number is valid and no object holds a key
    /// twice.
    pub open spec fn wf(self) -> bool
        decreases self,
    {
        match self {
            Json::Number(n) => n.wf(),
            Json::Array(items) => forall|i: int| 0 <= i < items.len() ==> (#[trigger] items[i]).wf(),
            Json::Object(entries) => unique_keys(entries) && forall|i: int|
                0 <= i < entries.len() ==> (#[trigger] entries[i]).1.wf(),
            _ => true,
        }
    }
}

/// An array is valid exactly when each of its elements is.
pub proof fn lemma_wf_array(items: Seq<Json>)
    ensures
        Json::Array(items).wf() <==> forall|i: int| 0 <= i < items.len() ==> (#[trigger] items[i]).wf(),
{
    assert(Json::Array(items)->Array_0 == items);
}

/// An object is valid exactly when no key occurs twice and each of its
/// values is valid.
pub proof fn lemma_wf_object(entries: Seq<Member>)
    ensures
        Json::Object(entries).wf() <==> unique_keys(entries) && forall|i: int|
            0 <= i < entries.len() ==> (#[trigger] entries[i]).1.wf(),
{
    assert(Json::Object(entries)->Object_0 == entries);
}

/// What `find_from` finds is the first match at or after `from`.
pub proof fn lemma_find_from(entries: Seq<Member>, key: Seq<char>, from: int)
    requires
        0 <= from,
    ensures
        match find_from(entries, key, from) {
            Some(i) => from <= i < entries.len() && entries[i].0 == key && forall|j: int|
                from <= j < i ==> entries[j].0 != key,
            None => forall|j: int| from <= j < entries.len() ==> entries[j].0 != key,
        },
    decreases entries.len() - from,
{
    if from < entries.len() && entries[from].0 != key {
        lemma_find_from(entries, key, from + 1);
    }
}

/// What `find` finds is the first entry with the key; it finds none only if
/// there is none.
pub proof fn lemma_find(entries: Seq<Member>, key: Seq<char>)
    ensures
        match find(entries, key) {
            Some(i) => 0 <= i < entries.len() && entries[i].0 == key && forall|j: int|
                0 <= j < i ==> entries[j].0 != key,
            None => forall|j: int| 0 <= j < entries.len() ==> entries[j].0 != key,
        },
{
    lemma_find_from(entries, key, 0);
}

/// An entry with the key, before which no entry has the key, is the one that
/// `find` finds.
pub proof fn lemma_find_first(entries: Seq<Member>, key: Seq<char>, i: int)
    requires
        0 <= i < entries.len(),
        entries[i].0 == key,
        forall|j: int| 0 <= j < i ==> entries[j].0 != key,
    ensures
        find(entries, key) == Some(i),
{
    lemma_find(entries, key);
}

/// Where no entry has the key, `find` finds none.
pub proof fn lemma_find_none(entries: Seq<Member>, key: Seq<char>)
    requires
        forall|j: int| 0 <= j < entries.len() ==> entries[j].0 != key,
    ensures
        find(entries, key) is None,
{
    lemma_find(entries, key);
}

/// Among unique keys, an entry is found at its own position.
pub proof fn lemma_find_unique(entries: Seq<Member>, i: int)
    requires
        unique_keys(entries),
        0 <= i < entries.len(),
    ensures
        find(entries, entries[i].0) == Some(i),
{
    lemma_find(entries, entries[i].0);
}

/// The position of the first entry of `entries` whose key is `key`.
pub fn position(entries: &Vec<(String, Value)>, key: &String) -> (r: Option<usize>)
    ensures
        match r {
            Some(i) => find(view_entries(entries@), key@) == Some(i as int),
            None => find(view_entries(entries@), key@) is None,
        },
{
    let ghost model = view_entries(entries@);
    let mut i: usize = 0;
    while i < entries.len()
        invariant
            i <= entries.len(),
            model == view_entries(entries@),
            find(model, key@) == find_from(model, key@, i as int),
        decreases entries.len() - i,
    {
        proof {
            lemma_view_entries(entries@);
        }
        if entries[i].0 == *key {
            return Some(i);
        }
        i += 1;
    }
    proof {
        lemma_view_entries(entries@);
    }
    None
}

impl Number {
    /// Whether the number is valid (see [`Number::wf`]).
    pub fn is_valid(&self) -> (r: bool)
        ensures
            r == self.wf(),
    {
        match *self {
            Number::PosInt(_) => true,
            Number::NegInt(n) => n < 0,
            Number::Float(bits) => bits % 0x8000_0000_0000_0000 < 0x7ff0_0000_0000_0000 && bits
                != 0x8000_0000_0000_0000,
        }
    }
}

impl Value {
    /// A valid document (see [`Json::wf`]).
    pub open spec fn wf(&self) -> bool {
        self@.wf()
    }

    /// Whether the document is valid: whether every number in it is valid
    /// and no object in it holds a key twice.
    pub fn is_valid(&self) -> (r: bool)
        ensures
            r == self.wf(),
        decreases self,
    {
        match self {
            Value::Number(n) => n.is_valid(),
            Value::Array(items) => {
                let ghost models = view_items(items@);
                proof {
                    lemma_view_items(items@);
                    lemma_wf_array(models);
                }
                let mut i: usize = 0;
                while i < items.len()
                    invariant
                        i <= items.len(),
                        *self == Value::Array(*items),
                        models == view_items(items@),
                        models.len() == items@.len(),
                        Json::Array(models).wf() <==> forall|k: int|
                            0 <= k < models.len() ==> (#[trigger] models[k]).wf(),
                        forall|k: int| 0 <= k < i ==> (#[trigger] models[k]).wf(),
                    decreases items.len() - i,
                {
                    proof {
                        lemma_view_items(items@);
                        lemma_element_decreases(*self, i as int);
                    }
                    if !items[i].is_valid() {
                        assert(!models[i as int].wf());
                        return false;
                    }
                    i += 1;
                }
                true
            },
            Value::Object(entries) => {
                let ghost models = view_entries(entries@);
                proof {
                    lemma_view_entries(entries@);
                    lemma_wf_object(models);
                }
                let mut i: usize = 0;
                while i < entries.len()
                    invariant
                        i <= entries.len(),
                        *self == Value::Object(*entries),
                        models == view_entries(entries@),
                        models.len() == entries@.len(),
                        Json::Object(models).wf() <==> unique_keys(models) && forall|k: int|
                            0 <= k < models.len() ==> (#[trigger] models[k]).1.wf(),
                        forall|k: int| 0 <= k < i ==> (#[trigger] models[k]).1.wf(),
                        forall|j: int, k: int| 0 <= j < k < i ==> models[j].0 != models[k].0,
                    decreases entries.len() - i,
                {
                    proof {
                        lemma_view_entries(entries@);
                        lemma_entry_decreases(*self, i as int);
                        lemma_find(models, models[i as int].0);
                    }
                    let first = position(entries, &entries[i].0);
                    if first != Some(i) {
                        assert(!unique_keys(models));
                        return false;
                    }
                    if !entries[i].1.is_valid() {
                        assert(!models[i as int].1.wf());
                        return false;
                    }
                    i += 1;
                }
                true
            },
            _ => true,
        }
    }
}

impl Default for Value {
    fn default() -> (r: Value)
        ensures
            r@ == Json::Null,
    {
        Value::Null
    }
}

impl Clone for Value {
    /// A copy of the whole document.
    fn clone(&self) -> (r: Value)
        ensures
            r@ == self@,
        decreases self,
    {
        match self {
            Value::Null => Value::Null,
            Value::Bool(b) => Value::Bool(*b),
            Value::Number(n) => Value::Number(*n),
            Value::String(s) => Value::String(s.clone()),
            Value::Array(items) => {
                let mut out: Vec<Value> = Vec::new();
                let mut i: usize = 0;
                while i < items.len()
                    invariant
                        i <= items.len(),
                        *self == Value::Array(*items),
                        view_items(out@) == view_items(items@.take(i as int)),
                    decreases items.len() - i,
                {
                    proof {
                        lemma_element_decreases(*self, i as int);
                    }
                    let item = items[i].clone();
                    proof {
                        lemma_view_items_push(out@, item);
                        lemma_view_items_push(items@.take(i as int), items@[i as int]);
                        assert(items@.take(i as int).push(items@[i as int]) =~= items@.take(i + 1));
                    }
                    out.push(item);
                    i += 1;
                }
                assert(items@.take(items@.len() as int) =~= items@);
                Value::Array(out)
            },
            Value::Object(entries) => {
                let mut out: Vec<(String, Value)> = Vec::new();
                let mut i: usize = 0;
                while i < entries.len()
                    invariant
                        i <= entries.len(),
                        *self == Value::Object(*entries),
                        view_entries(out@) == view_entries(entries@.take(i as int)),
                    decreases entries.len() - i,
                {
                    proof {
                        lemma_entry_decreases(*self, i as int);
                    }
                    let entry = (entries[i].0.clone(), entries[i].1.clone());
                    proof {
                        lemma_view_entries_push(out@, entry);
                        lemma_view_entries_push(entries@.take(i as int), entries@[i as int]);
                        assert(entries@.take(i as int).push(entries@[i as int]) =~= entries@.take(
                            i + 1,
                        ));
                    }
                    out.push(entry);
                    i += 1;
                }
                assert(entries@.take(entries@.len() as int) =~= entries@);
                Value::Object(out)
            },
        }
    }
}

} // verus!
