use json_unflattening::errors::Error;
use json_unflattening::paths::{parse_index, tokenize, usize_to_string, Segment};

fn key(t: &str) -> Segment {
    Segment::Key(t.to_string())
}

fn idx(t: &str) -> Segment {
    Segment::Idx(t.to_string())
}

#[test]
fn tokenize_mixed_path() {
    let segs = tokenize(&"x[3][1].w".to_string()).unwrap();
    assert_eq!(segs, vec![key("x"), idx("3"), idx("1"), key("w")]);
}

#[test]
fn tokenize_bare_key_and_zero_index() {
    assert_eq!(tokenize(&"name".to_string()).unwrap(), vec![key("name")]);
    assert_eq!(
        tokenize(&"hobbies[0]".to_string()).unwrap(),
        vec![key("hobbies"), idx("0")]
    );
}

#[test]
fn tokenize_keys_may_hold_spaces_and_dashes() {
    let segs = tokenize(&"a b.c-d[0]".to_string()).unwrap();
    assert_eq!(segs, vec![key("a b"), key("c-d"), idx("0")]);
}

#[test]
fn tokenize_rejects_paths_outside_the_grammar() {
    let bad = [
        "", ".", "a.", ".a", "a[]", "a[01]", "a[1", "a]1", "[0]", "a[[", "a.b]", "a[x]",
        "a..b",
    ];
    for p in bad {
        assert_eq!(
            tokenize(&p.to_string()),
            Err(Error::InvalidProperty),
            "path {:?}",
            p
        );
    }
}

#[test]
fn parse_index_reads_digit_runs() {
    assert_eq!(parse_index(&"0".to_string()), Ok(0));
    assert_eq!(parse_index(&"007".to_string()), Ok(7));
    assert_eq!(parse_index(&"12345".to_string()), Ok(12345));
    assert_eq!(parse_index(&"".to_string()), Err(Error::InvalidProperty));
    assert_eq!(parse_index(&"12a".to_string()), Err(Error::InvalidProperty));
    assert_eq!(parse_index(&"+5".to_string()), Err(Error::InvalidProperty));
    assert_eq!(
        parse_index(&"99999999999999999999999999999999".to_string()),
        Err(Error::InvalidProperty)
    );
}

#[test]
fn renders_indices_in_decimal() {
    assert_eq!(usize_to_string(0), "0");
    assert_eq!(usize_to_string(7), "7");
    assert_eq!(usize_to_string(10), "10");
    assert_eq!(usize_to_string(905), "905");
}
