use json_unflattening::flattening::flatten;
use json_unflattening::value::Value;

fn s(t: &str) -> Value {
    Value::Str(t.to_string())
}

fn arr(items: Vec<Value>) -> Value {
    Value::Array(items)
}

fn obj(fields: Vec<(&str, Value)>) -> Value {
    Value::Object(fields.into_iter().map(|(k, v)| (k.to_string(), v)).collect())
}

fn fm(entries: Vec<(&str, Value)>) -> Vec<(String, Value)> {
    entries.into_iter().map(|(k, v)| (k.to_string(), v)).collect()
}

#[test]
fn flattening_nested_arrays_and_objects_1() {
    let json = obj(vec![(
        "x",
        arr(vec![
            arr(vec![s("y"), s("z")]),
            obj(vec![("p", s("q"))]),
            arr(vec![s("r"), s("s")]),
            arr(vec![obj(vec![("u", s("v"))]), obj(vec![("w", s("x"))])]),
            arr(vec![s("y"), s("z")]),
        ]),
    )]);

    let flat = flatten(&json).unwrap();
    let expected = fm(vec![
        ("x[0][0]", s("y")),
        ("x[0][1]", s("z")),
        ("x[1].p", s("q")),
        ("x[2][0]", s("r")),
        ("x[2][1]", s("s")),
        ("x[3][0].u", s("v")),
        ("x[3][1].w", s("x")),
        ("x[4][0]", s("y")),
        ("x[4][1]", s("z")),
    ]);

    println!("got:\n{:?}\nexpected:\n{:?}\n", flat, expected);

    assert_eq!(flat, expected);
}

#[test]
fn flattening_nested_arrays_and_objects_2() {
    let json = obj(vec![(
        "x",
        arr(vec![
            s("y"),
            arr(vec![s("z"), s("w")]),
            obj(vec![("v", arr(vec![s("u"), s("t")]))]),
            arr(vec![
                obj(vec![("s", s("r"))]),
                obj(vec![("v", arr(vec![s("q"), obj(vec![("y", s("x"))])]))]),
            ]),
            arr(vec![s("a")]),
            s("b"),
        ]),
    )]);

    let flat = flatten(&json).unwrap();
    let expected = fm(vec![
        ("x[0]", s("y")),
        ("x[1][0]", s("z")),
        ("x[1][1]", s("w")),
        ("x[2].v[0]", s("u")),
        ("x[2].v[1]", s("t")),
        ("x[3][0].s", s("r")),
        ("x[3][1].v[0]", s("q")),
        ("x[3][1].v[1].y", s("x")),
        ("x[4][0]", s("a")),
        ("x[5]", s("b")),
    ]);

    println!("got:\n{:?}\nexpected:\n{:?}\n", flat, expected);

    assert_eq!(flat, expected);
}

#[test]
fn flattening_nested_arrays_and_objects_3() {
    let json = obj(vec![
        (
            "a",
            obj(vec![
                ("b", s("c")),
                (
                    "d",
                    arr(vec![
                        obj(vec![("e", s("f")), ("g", arr(vec![s("h"), s("i")]))]),
                        obj(vec![("j", s("k")), ("l", arr(vec![s("m"), s("n")]))]),
                    ]),
                ),
                ("o", obj(vec![("p", s("q")), ("r", arr(vec![s("s"), s("t")]))])),
            ]),
        ),
        (
            "u",
            arr(vec![
                obj(vec![("v", s("w")), ("x", arr(vec![s("y"), s("z")]))]),
                obj(vec![
                    ("aa", s("ab")),
                    (
                        "ac",
                        arr(vec![
                            obj(vec![("ad", s("ae")), ("af", arr(vec![s("ag"), s("ah")]))]),
                            s("ai"),
                        ]),
                    ),
                ]),
            ]),
        ),
        ("aj", s("ak")),
    ]);

    let flat = flatten(&json).unwrap();
    let expected = fm(vec![
        ("a.b", s("c")),
        ("a.d[0].e", s("f")),
        ("a.d[0].g[0]", s("h")),
        ("a.d[0].g[1]", s("i")),
        ("a.d[1].j", s("k")),
        ("a.d[1].l[0]", s("m")),
        ("a.d[1].l[1]", s("n")),
        ("a.o.p", s("q")),
        ("a.o.r[0]", s("s")),
        ("a.o.r[1]", s("t")),
        ("u[0].v", s("w")),
        ("u[0].x[0]", s("y")),
        ("u[0].x[1]", s("z")),
        ("u[1].aa", s("ab")),
        ("u[1].ac[0].ad", s("ae")),
        ("u[1].ac[0].af[0]", s("ag")),
        ("u[1].ac[0].af[1]", s("ah")),
        ("u[1].ac[1]", s("ai")),
        ("aj", s("ak")),
    ]);

    println!("got:\n{:?}\nexpected:\n{:?}\n", flat, expected);

    assert_eq!(flat, expected);
}
