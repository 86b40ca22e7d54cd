use agprefs::errors::{Errors, Rule};
use agprefs::number::{int_to_text, is_float_token, parse_int};
use agprefs::types::{Agpref, OrderedMap, Value};
use indexmap::IndexMap;

#[test]
fn insert_keeps_the_place_of_a_key() {
    let mut m = OrderedMap::new();
    assert!(m.is_empty());
    assert_eq!(m.insert("a".to_string(), Value::Int(1)), None);
    assert_eq!(m.insert("b".to_string(), Value::Int(2)), None);
    assert_eq!(m.insert("c".to_string(), Value::Int(3)), None);
    assert_eq!(m.insert("a".to_string(), Value::Int(4)), Some(Value::Int(1)));
    assert_eq!(m.len(), 3);
    assert_eq!(
        m.keys(),
        vec!["a".to_string(), "b".to_string(), "c".to_string()]
    );
    assert_eq!(m.get("a"), Some(&Value::Int(4)));
    assert_eq!(m.get_index_of("b"), Some(1));
    assert_eq!(m.get_index_of("z"), None);
    assert!(m.contains_key("c"));
    assert!(!m.contains_key("d"));
    assert_eq!(m.get_index(2), Some((&"c".to_string(), &Value::Int(3))));
    assert_eq!(m.get_index(3), None);
}

#[test]
fn insert_orders_keys_as_an_index_map_does() {
    let keys = ["q", "a", "z", "a", "m", "q", "b", "z", "z", "c"];
    let mut ours = OrderedMap::new();
    let mut theirs: IndexMap<String, i64> = IndexMap::new();
    for (i, k) in keys.iter().enumerate() {
        let old_ours = ours.insert(k.to_string(), Value::Int(i as i64));
        let old_theirs = theirs.insert(k.to_string(), i as i64);
        assert_eq!(old_ours, old_theirs.map(Value::Int));
    }
    let theirs_keys: Vec<String> = theirs.keys().cloned().collect();
    assert_eq!(ours.keys(), theirs_keys);
    for (k, v) in theirs.iter() {
        assert_eq!(ours.get(k), Some(&Value::Int(*v)));
        assert_eq!(ours.get_index_of(k), theirs.get_index_of(k));
    }
}

#[test]
fn getters_answer_for_their_own_kind_only() {
    let values = vec![
        Value::Unit,
        Value::Int(3),
        Value::Float("1.5".to_string()),
        Value::Bool(true),
        Value::String("s".to_string()),
        Value::Values(vec![Value::Int(1)]),
        Value::Struct(OrderedMap::new()),
    ];
    for (i, v) in values.iter().enumerate() {
        assert_eq!(v.is_unit(), i == 0);
        assert_eq!(v.get_int().is_some(), i == 1);
        assert_eq!(v.get_float().is_some(), i == 2);
        assert_eq!(v.get_bool().is_some(), i == 3);
        assert_eq!(v.get_string().is_some(), i == 4);
        assert_eq!(v.get_values().is_some(), i == 5);
        assert_eq!(v.get_struct().is_some(), i == 6);
        assert_eq!(v.clone().into_int().is_some(), i == 1);
        assert_eq!(v.clone().into_float().is_some(), i == 2);
        assert_eq!(v.clone().into_bool().is_some(), i == 3);
        assert_eq!(v.clone().into_string().is_some(), i == 4);
        assert_eq!(v.clone().into_values().is_some(), i == 5);
        assert_eq!(v.clone().into_struct().is_some(), i == 6);
        assert_eq!(&v.clone(), v);
    }
    assert_eq!(values[1].get_int(), Some(3));
    assert_eq!(values[2].get_float(), Some("1.5"));
    assert_eq!(values[3].get_bool(), Some(true));
    assert_eq!(values[4].get_string(), Some("s"));
    assert_eq!(values[5].get_values(), Some(&vec![Value::Int(1)]));
}

#[test]
fn new_documents() {
    assert_eq!(Agpref::new(), Agpref { name: String::new(), values: Value::Unit });
    assert_eq!(Agpref::default(), Agpref::new());
    assert_eq!(
        Agpref::with_name("n"),
        Agpref { name: "n".to_string(), values: Value::Unit }
    );
    assert_eq!(Value::default(), Value::Unit);
    let doc = Agpref { name: "n".to_string(), values: Value::Values(vec![Value::Int(1)]) };
    assert_eq!(doc.clone(), doc);
}

#[test]
fn integer_tokens() {
    let t = |s: &str| s.chars().collect::<Vec<char>>();
    assert_eq!(parse_int(&t("0")), Some(0));
    assert_eq!(parse_int(&t("-0")), Some(0));
    assert_eq!(parse_int(&t("+123")), Some(123));
    assert_eq!(parse_int(&t("000000000000000000000000012")), Some(12));
    assert_eq!(parse_int(&t("9223372036854775807")), Some(i64::MAX));
    assert_eq!(parse_int(&t("9223372036854775808")), None);
    assert_eq!(parse_int(&t("-9223372036854775808")), Some(i64::MIN));
    assert_eq!(parse_int(&t("-9223372036854775809")), None);
    assert_eq!(parse_int(&t("18446744073709551616")), None);
    assert_eq!(parse_int(&t("")), None);
    assert_eq!(parse_int(&t("1 ")), None);
    assert_eq!(parse_int(&t("\u{661}")), None);
    for i in [0i64, 1, -1, 9, 10, -10, 12345, i64::MAX, i64::MIN, i64::MIN + 1] {
        assert_eq!(int_to_text(i), i.to_string());
        assert_eq!(parse_int(&t(&int_to_text(i))), Some(i));
    }
}

#[test]
fn integer_tokens_are_those_of_the_standard_library() {
    for s in [
        "0", "-0", "+0", "12", "-12", "+12", "0012", "", "-", "+", "1-", "1+1", "12a", " 12",
        "9223372036854775807", "9223372036854775808", "-9223372036854775808",
        "-9223372036854775809", "1e3", "1.0", "++1", "\u{662}",
    ] {
        let t: Vec<char> = s.chars().collect();
        assert_eq!(parse_int(&t), s.parse::<i64>().ok(), "{:?}", s);
    }
}

#[test]
fn float_tokens_are_those_of_the_standard_library() {
    for s in [
        "0", "1", "-1", "+1", "1.", ".1", "1.5", "-1.5e10", "1e5", "1E5", "1e+5", "1e-5", "1.e5",
        ".5e5", "inf", "INF", "-inf", "+Inf", "infinity", "INFINITY", "-Infinity", "nan", "NaN",
        "-nan", "", ".", "-", "+", "e", "e5", "1e", "1e+", "1e5.", "1.5.5", "--1", "+-1", "1_0",
        "0x1p3", "infinit", "infinityy", "in", "na", "nane", "1f", " 1", "1 ", "1,5", "\u{661}",
        ".e5", "-.e5", "5.e", "ınf",
    ] {
        let t: Vec<char> = s.chars().collect();
        assert_eq!(is_float_token(&t), s.parse::<f64>().is_ok(), "{:?}", s);
    }
}

#[test]
fn error_messages() {
    assert_eq!(
        Errors::Syntax { rule: Rule::Key, position: 0 }.message(),
        "the text does not match the grammar"
    );
    assert_eq!(
        Errors::TrailingInput { position: 3 }.message(),
        "the text goes on after the document"
    );
    assert_eq!(Errors::Utf8.message(), "the composed bytes are no valid UTF-8 text");
    assert_eq!(Errors::Compose.message(), "the output buffer refused the composed bytes");
}
