use mcwr::config::{serialize, Types};
use mcwr::errors::ParseError;

#[test]
fn config_serialize() {
    let test = r#"
    key:'value'
    key2:'value2'
    "#
    .to_string();
    let serial = serialize(test).unwrap();
    let mut result = Vec::new();
    result.push((String::from("key"), Types::Text(String::from("value"))));
    result.push((String::from("key2"), Types::Text(String::from("value2"))));
    assert_eq!(result, serial);
}

#[test]
fn config_deserialize() {
    let mut test = Vec::new();
    test.push((String::from("key"), Types::Text(String::from("value"))));
    test.push((String::from("key2"), Types::Text(String::from("value2"))));

    // The store's entry order across serializations is unspecified; what
    // is promised is that the logical content survives the round trip.
    let text = mcwr::config::deserialize(test);
    let reparsed = serialize(text).unwrap();

    let mut result = Vec::new();
    result.push((String::from("key"), Types::Text(String::from("value"))));
    result.push((String::from("key2"), Types::Text(String::from("value2"))));
    assert_eq!(result, reparsed);
}

#[test]
fn config_string_parse() {
    let string = String::from("'hello'");
    assert_eq!(Types::is_string(&string), true);
    let typ = Types::into_string(string).unwrap();
    assert_eq!(typ, Types::Text(String::from("hello")));
}

#[test]
fn config_vec_parse() {
    let vec = String::from("[*1*, *1*, ['1', '2']]");
    assert_eq!(Types::is_vec(&vec), true);
    let typ = Types::into_vec(vec);
    println!("{:?}", typ);
}

#[test]
fn mixed_list_structure() {
    let vec = String::from("[*1*, *1*, ['1', '2']]");
    let typ = Types::into_vec(vec).unwrap();
    let expected = Types::List(vec![
        Types::Number(String::from("1")),
        Types::Number(String::from("1")),
        Types::List(vec![
            Types::Text(String::from("1")),
            Types::Text(String::from("2")),
        ]),
    ]);
    assert_eq!(typ, expected);
}

#[test]
fn quoted_texts_in_list() {
    let typ = Types::from(String::from("['1', '2']")).unwrap();
    let expected = Types::List(vec![
        Types::Text(String::from("1")),
        Types::Text(String::from("2")),
    ]);
    assert_eq!(typ, expected);
}

#[test]
fn nested_list_of_same_kind() {
    let typ = Types::from(String::from("[[1],[2]]")).unwrap();
    let expected = Types::List(vec![
        Types::List(vec![Types::Text(String::from("1"))]),
        Types::List(vec![Types::Text(String::from("2"))]),
    ]);
    assert_eq!(typ, expected);
}

#[test]
fn nested_list_round_trip() {
    let typ = Types::from(String::from("[[1],[2]]")).unwrap();
    let text = typ.format();
    let again = Types::from(text).unwrap();
    assert_eq!(again, typ);
}

#[test]
fn malformed_number_is_rejected() {
    let r = Types::from(String::from("*abc*"));
    assert_eq!(r, Err(ParseError::MalformedNumber));
}

#[test]
fn comma_stands_between_list_elements() {
    let list = Types::List(vec![
        Types::Number(String::from("1")),
        Types::Number(String::from("2")),
    ]);
    assert_eq!(list.format(), "[*1*,*2*]");
}

#[test]
fn scalar_round_trips() {
    // Exponent forms and the special words round-trip exactly: the
    // literal text between the stars is kept as written.
    for sample in ["'hello'", "''", "'a b c'", "*1.5*", "*-3*", "*2e10*", "*inf*", "*NaN*", "*-Infinity*"] {
        let v = Types::from(String::from(sample)).unwrap();
        let text = v.format();
        assert_eq!(Types::from(text).unwrap(), v);
    }
}

#[test]
fn group_round_trip() {
    let group = Types::Group(vec![
        (String::from("a"), Types::Text(String::from("x"))),
        (String::from("b"), Types::Number(String::from("1"))),
    ]);
    let text = group.format();
    assert_eq!(text, "{a:'x';b:*1*;}");
    assert_eq!(Types::from(text).unwrap(), group);
}

#[test]
fn empty_composites() {
    assert_eq!(
        Types::from(String::from("[]")).unwrap(),
        Types::List(Vec::new())
    );
    assert_eq!(
        Types::from(String::from("{}")).unwrap(),
        Types::Group(Vec::new())
    );
}

#[test]
fn group_trailing_separator_is_optional() {
    let with = Types::from(String::from("{k:'v';}")).unwrap();
    let without = Types::from(String::from("{k:'v'}")).unwrap();
    let expected = Types::Group(vec![(String::from("k"), Types::Text(String::from("v")))]);
    assert_eq!(with, expected);
    assert_eq!(without, expected);
}

#[test]
fn later_duplicate_group_key_wins() {
    let g = Types::from(String::from("{k:'a';k:'b';}")).unwrap();
    let expected = Types::Group(vec![(String::from("k"), Types::Text(String::from("b")))]);
    assert_eq!(g, expected);
}

#[test]
fn group_entry_without_colon_is_rejected() {
    let r = Types::from(String::from("{k}"));
    assert_eq!(r, Err(ParseError::MalformedEntry));
}

#[test]
fn unterminated_delimiters_are_rejected() {
    assert_eq!(
        Types::from(String::from("['a'")),
        Err(ParseError::UnterminatedDelimiter)
    );
    assert_eq!(
        Types::from(String::from("'abc")),
        Err(ParseError::UnterminatedDelimiter)
    );
    assert_eq!(
        Types::from(String::from("{k:'v'")),
        Err(ParseError::UnterminatedDelimiter)
    );
}

#[test]
fn bare_scalar_is_text() {
    assert_eq!(
        Types::from(String::from("hello")).unwrap(),
        Types::Text(String::from("hello"))
    );
}

#[test]
fn surrounding_whitespace_is_trimmed() {
    let typ = Types::from(String::from("  [ '1' , '2' ]  ")).unwrap();
    let expected = Types::List(vec![
        Types::Text(String::from("1")),
        Types::Text(String::from("2")),
    ]);
    assert_eq!(typ, expected);
}

#[test]
fn delimiters_inside_quotes_stay_verbatim() {
    assert_eq!(
        Types::from(String::from("'a*b'")).unwrap(),
        Types::Text(String::from("a*b"))
    );
    assert_eq!(
        Types::from(String::from("'a:b;c'")).unwrap(),
        Types::Text(String::from("a:b;c"))
    );
}

#[test]
fn number_interior_must_be_exact() {
    // The interior of a starred literal is not trimmed.
    assert_eq!(
        Types::from(String::from("* 1.5*")),
        Err(ParseError::MalformedNumber)
    );
    assert_eq!(
        Types::from(String::from("*1.5*")).unwrap(),
        Types::Number(String::from("1.5"))
    );
}

#[test]
fn float_literal_grammar_matches_float_parsing() {
    let accepted = ["1", "1.5", "-3.25", "+0.5", ".5", "5.", "1e5", "1E-10", "inf", "Infinity", "NaN", "+inf", "-nan"];
    for sample in accepted {
        let starred = format!("*{}*", sample);
        assert!(Types::is_num(&starred), "expected a number: {}", sample);
        assert!(sample.parse::<f32>().is_ok(), "rust rejects: {}", sample);
    }
    let rejected = ["", "abc", "1.2.3", "1e", "e5", "--1", "0x10", "1 2", "in", "infin"];
    for sample in rejected {
        let starred = format!("*{}*", sample);
        assert!(!Types::is_num(&starred), "expected rejection: {}", sample);
        assert!(sample.parse::<f32>().is_err(), "rust accepts: {}", sample);
    }
}

#[test]
fn is_predicates_dispatch() {
    assert!(Types::is_map(&String::from(" {a:'1';} ")));
    assert!(!Types::is_map(&String::from("[1]")));
    assert!(Types::is_vec(&String::from("[1]")));
    assert!(!Types::is_vec(&String::from("{a:'1';}")));
    assert!(Types::is_num(&String::from("*1*")));
    assert!(!Types::is_num(&String::from("*abc*")));
    assert!(Types::is_string(&String::from("'x'")));
    assert!(!Types::is_string(&String::from("x")));
}

#[test]
fn from_value_reads_user_input() {
    assert_eq!(
        Types::from_value(String::from("1.5")).unwrap(),
        Types::Number(String::from("1.5"))
    );
    assert_eq!(
        Types::from_value(String::from("hello")).unwrap(),
        Types::Text(String::from("hello"))
    );
    assert_eq!(
        Types::from_value(String::from("['1']")).unwrap(),
        Types::List(vec![Types::Text(String::from("1"))])
    );
    assert_eq!(
        Types::from_value(String::from("{a:'1';}")).unwrap(),
        Types::Group(vec![(String::from("a"), Types::Text(String::from("1")))])
    );
}

#[test]
fn into_number_strips_stars() {
    let typ = Types::into_number(String::from("*2.5*")).unwrap();
    assert_eq!(typ, Types::Number(String::from("2.5")));
}

#[test]
fn into_map_reads_group() {
    let typ = Types::into_map(String::from("{a:'1';b:['2'];}")).unwrap();
    let expected = Types::Group(vec![
        (String::from("a"), Types::Text(String::from("1"))),
        (
            String::from("b"),
            Types::List(vec![Types::Text(String::from("2"))]),
        ),
    ]);
    assert_eq!(typ, expected);
}
