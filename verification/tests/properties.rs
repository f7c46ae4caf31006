use json_unflattening::errors::Error;
use json_unflattening::flattening::flatten;
use json_unflattening::unflattening::unflatten;
use json_unflattening::value::Value;

fn s(t: &str) -> Value {
    Value::Str(t.to_string())
}

fn arr(items: Vec<Value>) -> Value {
    Value::Array(items)
}

fn obj(fields: Vec<(&str, Value)>) -> Value {
    Value::Object(fields.into_iter().map(|(k, v)| (k.to_string(), v)).collect())
}

fn fm(entries: Vec<(&str, Value)>) -> Vec<(String, Value)> {
    entries.into_iter().map(|(k, v)| (k.to_string(), v)).collect()
}

#[test]
fn array_ordering_preserved() {
    let json = obj(vec![("x", arr(vec![s("p"), s("q"), s("r")]))]);
    let flat = flatten(&json).unwrap();
    let expected = fm(vec![("x[0]", s("p")), ("x[1]", s("q")), ("x[2]", s("r"))]);
    assert_eq!(flat, expected);
    let unflat = unflatten(&expected).unwrap();
    assert_eq!(unflat, json);
}

#[test]
fn mixed_nesting_exact_and_round_trip() {
    let json = obj(vec![(
        "x",
        arr(vec![arr(vec![s("y"), s("z")]), obj(vec![("p", s("q"))])]),
    )]);
    let flat = flatten(&json).unwrap();
    let expected = fm(vec![
        ("x[0][0]", s("y")),
        ("x[0][1]", s("z")),
        ("x[1].p", s("q")),
    ]);
    assert_eq!(flat, expected);
    assert_eq!(unflatten(&flat).unwrap(), json);
}

#[test]
fn deep_mixed_nesting_exact_and_round_trip() {
    let json = obj(vec![(
        "a",
        obj(vec![
            ("b", s("c")),
            (
                "d",
                arr(vec![obj(vec![
                    ("e", s("f")),
                    ("g", arr(vec![s("h"), s("i")])),
                ])]),
            ),
        ]),
    )]);
    let flat = flatten(&json).unwrap();
    let expected = fm(vec![
        ("a.b", s("c")),
        ("a.d[0].e", s("f")),
        ("a.d[0].g[0]", s("h")),
        ("a.d[0].g[1]", s("i")),
    ]);
    assert_eq!(flat, expected);
    assert_eq!(unflatten(&flat).unwrap(), json);
}

#[test]
fn top_level_not_object_rejected() {
    assert_eq!(flatten(&s("bare")), Err(Error::NotAnObject));
    assert_eq!(flatten(&arr(vec![s("a")])), Err(Error::NotAnObject));
    assert_eq!(flatten(&Value::Null), Err(Error::NotAnObject));
    assert_eq!(flatten(&Value::Bool(true)), Err(Error::NotAnObject));
    assert_eq!(flatten(&Value::Num(7)), Err(Error::NotAnObject));
}

#[test]
fn empty_object_both_ways() {
    assert_eq!(flatten(&obj(vec![])), Ok(vec![]));
    assert_eq!(unflatten(&Vec::new()), Ok(obj(vec![])));
}

#[test]
fn malformed_path_rejected() {
    assert!(unflatten(&fm(vec![("x[[", s("v"))])).is_err());
    assert!(unflatten(&fm(vec![("", s("v"))])).is_err());
    assert!(unflatten(&fm(vec![("a..b", s("v"))])).is_err());
    assert!(unflatten(&fm(vec![("a[01]", s("v"))])).is_err());
    assert!(unflatten(&fm(vec![("a[1", s("v"))])).is_err());
    assert!(unflatten(&fm(vec![("a]b", s("v"))])).is_err());
    assert_eq!(
        unflatten(&fm(vec![("x[[", s("v"))])),
        Err(Error::InvalidProperty)
    );
}

#[test]
fn idempotent_redescent_shared_prefix() {
    let flat = fm(vec![("a.b", s("1")), ("a.c", s("2"))]);
    let unflat = unflatten(&flat).unwrap();
    let expected = obj(vec![("a", obj(vec![("b", s("1")), ("c", s("2"))]))]);
    assert_eq!(unflat, expected);
}

#[test]
fn scalar_kinds_round_trip() {
    let json = obj(vec![
        ("name", obj(vec![("first", s("John")), ("last", s("Doe"))])),
        ("age", Value::Num(30)),
        ("ok", Value::Bool(false)),
        ("missing", Value::Null),
        ("hobbies", arr(vec![s("Reading"), s("Hiking")])),
    ]);
    let flat = flatten(&json).unwrap();
    let expected = fm(vec![
        ("name.first", s("John")),
        ("name.last", s("Doe")),
        ("age", Value::Num(30)),
        ("ok", Value::Bool(false)),
        ("missing", Value::Null),
        ("hobbies[0]", s("Reading")),
        ("hobbies[1]", s("Hiking")),
    ]);
    assert_eq!(flat, expected);
    assert_eq!(unflatten(&flat).unwrap(), json);
}

#[test]
fn duplicate_keys_merge_into_array() {
    let two = obj(vec![("a", s("x")), ("a", s("y"))]);
    let flat = flatten(&two).unwrap();
    assert_eq!(flat, fm(vec![("a", arr(vec![s("x"), s("y")]))]));

    let three = obj(vec![("a", s("x")), ("a", s("y")), ("a", s("z"))]);
    let flat3 = flatten(&three).unwrap();
    assert_eq!(flat3, fm(vec![("a", arr(vec![s("x"), s("y"), s("z")]))]));
}

#[test]
fn index_gap_is_format_error() {
    let flat = fm(vec![("a[1][0]", s("v"))]);
    assert_eq!(unflatten(&flat), Err(Error::FormatError));
}

#[test]
fn scalar_in_the_way_is_invalid_type() {
    let flat = fm(vec![("a", s("x")), ("a.b", s("y"))]);
    assert_eq!(unflatten(&flat), Err(Error::InvalidType));
}

#[test]
fn key_segment_on_array_must_be_numeric() {
    let flat = fm(vec![("a[0]", s("x")), ("a.b[0]", s("y"))]);
    assert_eq!(unflatten(&flat), Err(Error::InvalidProperty));
}

#[test]
fn numeric_key_segment_acts_as_array_index() {
    let flat = fm(vec![("a[0].x", s("p")), ("a.0.y", s("q"))]);
    let unflat = unflatten(&flat).unwrap();
    let expected = obj(vec![("a", arr(vec![obj(vec![("x", s("p")), ("y", s("q"))])]))]);
    assert_eq!(unflat, expected);
}

#[test]
fn out_of_order_indices_append_in_encounter_order() {
    let flat = fm(vec![("x[1]", s("a")), ("x[0]", s("b"))]);
    let unflat = unflatten(&flat).unwrap();
    assert_eq!(unflat, obj(vec![("x", arr(vec![s("a"), s("b")]))]));
}

#[test]
fn final_array_step_appends() {
    let flat = fm(vec![("x[0]", s("a")), ("x[5]", s("b"))]);
    let unflat = unflatten(&flat).unwrap();
    assert_eq!(unflat, obj(vec![("x", arr(vec![s("a"), s("b")]))]));
}

#[test]
fn large_index_path_round_trip() {
    let json = obj(vec![("k", arr(vec![
        s("0"), s("1"), s("2"), s("3"), s("4"), s("5"), s("6"), s("7"), s("8"), s("9"),
        s("ten"), s("eleven"),
    ]))]);
    let flat = flatten(&json).unwrap();
    assert_eq!(flat[10].0, "k[10]");
    assert_eq!(flat[11].0, "k[11]");
    assert_eq!(unflatten(&flat).unwrap(), json);
}
