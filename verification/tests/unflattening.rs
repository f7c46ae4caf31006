use json_unflattening::flattening::flatten;
use json_unflattening::unflattening::unflatten;
use json_unflattening::value::Value;

fn s(t: &str) -> Value {
    Value::Str(t.to_string())
}

fn arr(items: Vec<Value>) -> Value {
    Value::Array(items)
}

fn obj(fields: Vec<(&str, Value)>) -> Value {
    Value::Object(fields.into_iter().map(|(k, v)| (k.to_string(), v)).collect())
}

#[test]
fn unflattening_nested_arrays_and_objects_1() {
    let json = obj(vec![(
        "x",
        arr(vec![
            arr(vec![s("y"), s("z")]),
            obj(vec![("p", s("q"))]),
            arr(vec![s("r"), s("s")]),
            arr(vec![obj(vec![("u", s("v"))]), obj(vec![("w", s("x"))])]),
            arr(vec![s("y"), s("z")]),
        ]),
    )]);

    let flat = flatten(&json).unwrap();
    let unflat = unflatten(&flat).unwrap();

    println!("got:\n{:?}\nexpected:\n{:?}\n", unflat, json);

    assert_eq!(json, unflat);
}

#[test]
fn unflattening_nested_arrays_and_objects_2() {
    let json = obj(vec![(
        "x",
        arr(vec![
            s("y"),
            arr(vec![s("z"), s("w")]),
            obj(vec![("v", arr(vec![s("u"), s("t")]))]),
            arr(vec![
                obj(vec![("s", s("r"))]),
                obj(vec![("v", arr(vec![s("q"), obj(vec![("y", s("x"))])]))]),
            ]),
            arr(vec![s("a")]),
            s("b"),
        ]),
    )]);

    let flat = flatten(&json).unwrap();
    let unflat = unflatten(&flat).unwrap();

    println!("got:\n{:?}\nexpected:\n{:?}\n", unflat, json);

    assert_eq!(unflat, json);
}

#[test]
fn unflattening_nested_arrays_and_objects_3() {
    let json = obj(vec![
        (
            "a",
            obj(vec![
                ("b", s("c")),
                (
                    "d",
                    arr(vec![
                        obj(vec![("e", s("f")), ("g", arr(vec![s("h"), s("i")]))]),
                        obj(vec![("j", s("k")), ("l", arr(vec![s("m"), s("n")]))]),
                    ]),
                ),
                ("o", obj(vec![("p", s("q")), ("r", arr(vec![s("s"), s("t")]))])),
            ]),
        ),
        (
            "u",
            arr(vec![
                obj(vec![("v", s("w")), ("x", arr(vec![s("y"), s("z")]))]),
                obj(vec![
                    ("aa", s("ab")),
                    (
                        "ac",
                        arr(vec![
                            obj(vec![("ad", s("ae")), ("af", arr(vec![s("ag"), s("ah")]))]),
                            s("ai"),
                        ]),
                    ),
                ]),
            ]),
        ),
        ("aj", s("ak")),
    ]);

    let flat = flatten(&json).unwrap();
    let unflat = unflatten(&flat).unwrap();

    println!("got:\n{:?}\nexpected:\n{:?}\n", unflat, json);

    assert_eq!(unflat, json);
}
