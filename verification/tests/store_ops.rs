use mcwr::config::{deserialize, serialize, Types};
use mcwr::errors::{ParseError, StoreError};
use mcwr::mconf;

#[test]
fn store_two_quoted_entries() {
    let m = serialize(String::from("key:'value'\nkey2:'value2'")).unwrap();
    let expected = vec![
        (String::from("key"), Types::Text(String::from("value"))),
        (String::from("key2"), Types::Text(String::from("value2"))),
    ];
    assert_eq!(m, expected);
}

#[test]
fn get_or_missing_returns_default() {
    // A defaulted lookup is pure text work: no backing file is involved,
    // so nothing can be written anywhere.
    let r = mconf::get_or("a:'1'", "missing", Types::Text(String::from("def"))).unwrap();
    assert_eq!(r, Types::Text(String::from("def")));
}

#[test]
fn get_or_present_returns_value() {
    let r = mconf::get_or("a:'1'", "a", Types::Text(String::from("def"))).unwrap();
    assert_eq!(r, Types::Text(String::from("1")));
}

#[test]
fn set_then_get_round_trip() {
    // The new store text stands for the backing file's content after the
    // write; reading the key back from it yields the written value.
    let out = mconf::set("", "k", Types::Text(String::from("v"))).unwrap();
    let r = mconf::get(&out, "k").unwrap();
    assert_eq!(r, Types::Text(String::from("v")));
}

#[test]
fn set_preserves_other_entries() {
    let out = mconf::set("k:'a'\nj:'b'", "k", Types::Text(String::from("c"))).unwrap();
    assert_eq!(out, "k:'c'\nj:'b'");
    let j = mconf::get(&out, "j").unwrap();
    assert_eq!(j, Types::Text(String::from("b")));
}

#[test]
fn set_appends_new_key() {
    let out = mconf::set("k:'a'", "j", Types::Number(String::from("2"))).unwrap();
    assert_eq!(out, "k:'a'\nj:*2*");
}

#[test]
fn get_missing_key_is_an_error() {
    let r = mconf::get("a:'1'", "b");
    assert_eq!(r, Err(StoreError::KeyNotFound));
}

#[test]
fn get_surfaces_parse_errors() {
    let r = mconf::get("k:*bad*", "k");
    assert_eq!(r, Err(StoreError::Parse(ParseError::MalformedNumber)));
}

#[test]
fn config_returns_all_entries() {
    let m = mconf::config("a:'1'\nb:*2*").unwrap();
    let expected = vec![
        (String::from("a"), Types::Text(String::from("1"))),
        (String::from("b"), Types::Number(String::from("2"))),
    ];
    assert_eq!(m, expected);
}

#[test]
fn lines_without_colon_are_skipped() {
    let m = serialize(String::from("junk\n\nk:'v'")).unwrap();
    assert_eq!(m, vec![(String::from("k"), Types::Text(String::from("v")))]);
}

#[test]
fn later_duplicate_store_key_wins() {
    let m = serialize(String::from("k:'a'\nk:'b'")).unwrap();
    assert_eq!(m, vec![(String::from("k"), Types::Text(String::from("b")))]);
}

#[test]
fn store_value_parse_error_propagates() {
    let r = serialize(String::from("k:*bad*"));
    assert_eq!(r, Err(ParseError::MalformedNumber));
}

#[test]
fn deserialize_renders_lines() {
    let m = vec![
        (String::from("k"), Types::Text(String::from("v"))),
        (
            String::from("list"),
            Types::List(vec![Types::Number(String::from("1"))]),
        ),
    ];
    assert_eq!(deserialize(m), "k:'v'\nlist:[*1*]");
}

#[test]
fn deserialize_empty_store_is_empty_text() {
    assert_eq!(deserialize(Vec::new()), "");
}

#[test]
fn composite_value_survives_the_store() {
    let group = Types::Group(vec![
        (String::from("path"), Types::Text(String::from("/tmp/x"))),
        (String::from("size"), Types::Number(String::from("42"))),
    ]);
    let out = mconf::set("", "meta", group).unwrap();
    let back = mconf::get(&out, "meta").unwrap();
    let expected = Types::Group(vec![
        (String::from("path"), Types::Text(String::from("/tmp/x"))),
        (String::from("size"), Types::Number(String::from("42"))),
    ]);
    assert_eq!(back, expected);
}

#[test]
fn accessors_check_the_variant() {
    let t = Types::Text(String::from("x"));
    assert_eq!(t.get_string().unwrap(), "x");
    assert!(t.get_number().is_err());
    assert!(t.get_vec().is_err());
    assert!(t.get_map().is_err());

    let n = Types::Number(String::from("1.5"));
    assert_eq!(n.get_number().unwrap(), "1.5");
    assert!(n.get_string().is_err());

    let l = Types::List(vec![Types::Text(String::from("a"))]);
    assert_eq!(l.get_vec().unwrap(), vec![Types::Text(String::from("a"))]);
    assert!(l.get_map().is_err());

    let g = Types::Group(vec![(String::from("k"), Types::Text(String::from("v")))]);
    assert_eq!(
        g.get_map().unwrap(),
        vec![(String::from("k"), Types::Text(String::from("v")))]
    );
    assert!(g.get_string().is_err());
}

#[test]
fn duplicate_copies_deeply() {
    let v = Types::List(vec![
        Types::Group(vec![(String::from("k"), Types::Text(String::from("v")))]),
        Types::Number(String::from("7")),
    ]);
    let copy = v.duplicate();
    assert_eq!(copy, v);
}

#[test]
fn format_accessors_render_each_variant() {
    let t = Types::Text(String::from("x"));
    assert_eq!(Types::format_string(&t), "'x'");
    let n = Types::Number(String::from("2"));
    assert_eq!(Types::format_number(&n), "*2*");
    let l = Types::List(vec![t, n]);
    assert_eq!(Types::format_vec(&l), "['x',*2*]");
    let g = Types::Group(vec![(String::from("k"), l)]);
    assert_eq!(Types::format_map(&g), "{k:['x',*2*];}");
}
