use apollo_router::path::Path;
use apollo_router::value::{Number, Value};

fn num(n: u64) -> Value {
    Value::Number(Number::PosInt(n))
}

fn neg(n: i64) -> Value {
    Value::Number(Number::NegInt(n))
}

fn arr(items: Vec<Value>) -> Value {
    Value::Array(items)
}

fn obj(entries: Vec<(&str, Value)>) -> Value {
    Value::Object(entries.into_iter().map(|(k, v)| (k.to_string(), v)).collect())
}

fn select_values<'a>(path: &Path, data: &'a Value) -> Vec<&'a Value> {
    data.select_values_and_paths(path).into_iter().map(|(_, value)| value).collect()
}

#[test]
fn test_get_at_path() {
    let json = obj(vec![(
        "obj",
        obj(vec![("arr", arr(vec![obj(vec![("prop1", num(1))]), obj(vec![("prop1", num(2))])]))]),
    )]);
    let path = Path::from("obj/arr/1/prop1");
    let result = select_values(&path, &json);
    assert_eq!(result, vec![&Value::Number(Number::PosInt(2))]);
}

#[test]
fn test_get_at_path_flatmap() {
    let json = obj(vec![(
        "obj",
        obj(vec![("arr", arr(vec![obj(vec![("prop1", num(1))]), obj(vec![("prop1", num(2))])]))]),
    )]);
    let path = Path::from("obj/arr/@");
    let result = select_values(&path, &json);
    assert_eq!(result, vec![&obj(vec![("prop1", num(1))]), &obj(vec![("prop1", num(2))])]);
}

#[test]
fn test_get_at_path_flatmap_nested() {
    let json = obj(vec![(
        "obj",
        obj(vec![(
            "arr",
            arr(vec![
                obj(vec![(
                    "prop1",
                    arr(vec![
                        obj(vec![("prop2", obj(vec![("prop3", num(1))])), ("prop4", neg(-1))]),
                        obj(vec![("prop2", obj(vec![("prop3", num(2))])), ("prop4", neg(-2))]),
                    ]),
                )]),
                obj(vec![(
                    "prop1",
                    arr(vec![
                        obj(vec![("prop2", obj(vec![("prop3", num(3))])), ("prop4", neg(-3))]),
                        obj(vec![("prop2", obj(vec![("prop3", num(4))])), ("prop4", neg(-4))]),
                    ]),
                )]),
            ]),
        )]),
    )]);
    let path = Path::from("obj/arr/@/prop1/@/prop2");
    let result = select_values(&path, &json);
    assert_eq!(
        result,
        vec![
            &obj(vec![("prop3", num(1))]),
            &obj(vec![("prop3", num(2))]),
            &obj(vec![("prop3", num(3))]),
            &obj(vec![("prop3", num(4))]),
        ],
    );
}

#[test]
fn test_deep_merge() {
    let mut json = obj(vec![(
        "obj",
        obj(vec![("arr", arr(vec![obj(vec![("prop1", num(1))]), obj(vec![("prop2", num(2))])]))]),
    )]);
    json.deep_merge(obj(vec![(
        "obj",
        obj(vec![(
            "arr",
            arr(vec![
                obj(vec![("prop1", num(2)), ("prop3", num(3))]),
                obj(vec![("prop4", num(4))]),
            ]),
        )]),
    )]));
    assert_eq!(
        json,
        obj(vec![(
            "obj",
            obj(vec![(
                "arr",
                arr(vec![
                    obj(vec![("prop1", num(2)), ("prop3", num(3))]),
                    obj(vec![("prop2", num(2)), ("prop4", num(4))]),
                ]),
            )]),
        )])
    );
}

fn subset_left() -> Value {
    obj(vec![(
        "obj",
        obj(vec![("arr", arr(vec![obj(vec![("prop1", num(1))]), obj(vec![("prop4", num(4))])]))]),
    )])
}

fn subset_right() -> Value {
    obj(vec![(
        "obj",
        obj(vec![(
            "arr",
            arr(vec![
                obj(vec![("prop1", num(1)), ("prop3", num(3))]),
                obj(vec![("prop4", num(4))]),
            ]),
        )]),
    )])
}

#[test]
fn test_is_subset_eq() {
    assert!(subset_left().is_subset(&subset_left()));
}

#[test]
fn test_is_subset_missing_pop() {
    assert!(subset_left().is_subset(&subset_right()));
}

#[test]
fn test_is_subset_array_lengths_differ() {
    let shorter = obj(vec![("obj", obj(vec![("arr", arr(vec![obj(vec![("prop1", num(1))])]))]))]);
    assert!(!shorter.is_subset(&subset_right()));
}

#[test]
fn test_is_subset_extra_prop() {
    assert!(!subset_right().is_subset(&subset_left()));
}

#[test]
fn eq_and_ordered() {
    // test not objects
    assert!(arr(vec![num(1), num(2), num(3)]).eq_and_ordered(&arr(vec![num(1), num(2), num(3)])));
    assert!(!arr(vec![num(1), num(3), num(2)]).eq_and_ordered(&arr(vec![num(1), num(2), num(3)])));

    // test objects not nested
    assert!(obj(vec![("foo", num(1)), ("bar", num(2))])
        .eq_and_ordered(&obj(vec![("foo", num(1)), ("bar", num(2))])));
    assert!(!obj(vec![("foo", num(1)), ("bar", num(2))])
        .eq_and_ordered(&obj(vec![("foo", num(1)), ("bar", num(3))])));
    assert!(!obj(vec![("foo", num(1)), ("bar", num(2))])
        .eq_and_ordered(&obj(vec![("foo", num(1)), ("bar", num(2)), ("baz", num(3))])));
    assert!(!obj(vec![("foo", num(1)), ("bar", num(2)), ("baz", num(3))])
        .eq_and_ordered(&obj(vec![("foo", num(1)), ("bar", num(2))])));
    assert!(!obj(vec![("bar", num(2)), ("foo", num(1))])
        .eq_and_ordered(&obj(vec![("foo", num(1)), ("bar", num(2))])));

    // test objects nested
    assert!(obj(vec![("baz", obj(vec![("foo", num(1)), ("bar", num(2))]))])
        .eq_and_ordered(&obj(vec![("baz", obj(vec![("foo", num(1)), ("bar", num(2))]))])));
    assert!(!obj(vec![("baz", obj(vec![("bar", num(2)), ("foo", num(1))]))])
        .eq_and_ordered(&obj(vec![("baz", obj(vec![("foo", num(1)), ("bar", num(2))]))])));
    assert!(!arr(vec![num(1), obj(vec![("bar", num(2)), ("foo", num(1))]), num(2)])
        .eq_and_ordered(&arr(vec![num(1), obj(vec![("foo", num(1)), ("bar", num(2))]), num(2)])));
}

#[test]
fn test_from_path() {
    let json = arr(vec![obj(vec![("prop1", num(1))]), obj(vec![("prop1", num(2))])]);
    let path = Path::from("obj/arr");
    let result = Value::from_path(&path, json);
    assert_eq!(
        result,
        obj(vec![(
            "obj",
            obj(vec![("arr", arr(vec![obj(vec![("prop1", num(1))]), obj(vec![("prop1", num(2))])]))]),
        )])
    );
}

#[test]
fn test_from_path_index() {
    let json = obj(vec![("prop1", num(1))]);
    let path = Path::from("obj/arr/1");
    let result = Value::from_path(&path, json);
    assert_eq!(
        result,
        obj(vec![("obj", obj(vec![("arr", arr(vec![Value::Null, obj(vec![("prop1", num(1))])]))]))])
    );
}

#[test]
fn test_from_path_flatten() {
    let json = obj(vec![("prop1", num(1))]);
    let path = Path::from("obj/arr/@/obj2");
    let result = Value::from_path(&path, json);
    assert_eq!(result, obj(vec![("obj", obj(vec![("arr", Value::Null)]))]));
}
