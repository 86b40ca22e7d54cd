use agprefs::errors::{Errors, Rule};
use agprefs::grammar::MAX_DEPTH;
use agprefs::parser::{
    close, comma, equals, get_bool, get_float, get_key, get_key_value, get_num, get_string,
    get_struct, get_unit, get_value, get_vec, open, take_eov,
};
use agprefs::types::{Agpref, OrderedMap, Value};

fn text(s: &str) -> Value {
    Value::String(s.to_string())
}

fn mapping(entries: Vec<(&str, Value)>) -> Value {
    let mut m = OrderedMap::new();
    for (k, v) in entries {
        m.insert(k.to_string(), v);
    }
    Value::Struct(m)
}

#[test]
fn unit_document() {
    let doc = Agpref::parse("name = { }").unwrap();
    assert_eq!(doc.name, "name");
    assert_eq!(doc.values, Value::Unit);
    assert_eq!(doc.to_str().unwrap(), "name = { }\n");
}

#[test]
fn unit_takes_any_whitespace_between_the_braces() {
    assert_eq!(Agpref::parse("name = {}").unwrap().values, Value::Unit);
    assert_eq!(Agpref::parse("name = { \t\r\n }\n").unwrap().values, Value::Unit);
}

#[test]
fn mapping_keeps_the_order_of_its_keys() {
    let doc = Agpref::parse("k = { a = 1, b = \"x\" }").unwrap();
    assert_eq!(doc.name, "k");
    let m = doc.values.get_struct().unwrap();
    assert_eq!(m.keys(), vec!["a".to_string(), "b".to_string()]);
    assert_eq!(m.get("a"), Some(&Value::Int(1)));
    assert_eq!(m.get("b"), Some(&text("x")));
    assert_eq!(m.get("c"), None);
}

#[test]
fn keys_are_not_sorted() {
    let doc = Agpref::parse("k = { zeta = 1, alpha = 2, mid = 3 }").unwrap();
    let m = doc.values.get_struct().unwrap();
    assert_eq!(
        m.keys(),
        vec!["zeta".to_string(), "alpha".to_string(), "mid".to_string()]
    );
}

#[test]
fn a_later_entry_replaces_the_value_of_an_earlier_key() {
    let doc = Agpref::parse("k = { a = 1, b = 2, a = 3 }").unwrap();
    assert_eq!(
        doc.values,
        mapping(vec![("a", Value::Int(3)), ("b", Value::Int(2))])
    );
}

#[test]
fn list_of_integers() {
    let doc = Agpref::parse("k = { 1, 2, 3 }").unwrap();
    assert_eq!(
        doc.values,
        Value::Values(vec![Value::Int(1), Value::Int(2), Value::Int(3)])
    );
}

#[test]
fn list_of_mixed_values() {
    let doc = Agpref::parse("k = { 1, -2.5, true, \"s\", { }, { a = false } }").unwrap();
    assert_eq!(
        doc.values,
        Value::Values(vec![
            Value::Int(1),
            Value::Float("-2.5".to_string()),
            Value::Bool(true),
            text("s"),
            Value::Unit,
            mapping(vec![("a", Value::Bool(false))]),
        ])
    );
}

#[test]
fn trailing_comma_is_accepted() {
    assert_eq!(
        Agpref::parse("k = { 1, 2, }").unwrap().values,
        Value::Values(vec![Value::Int(1), Value::Int(2)])
    );
    assert_eq!(
        Agpref::parse("k = { a = 1, }").unwrap().values,
        mapping(vec![("a", Value::Int(1))])
    );
}

#[test]
fn a_lone_comma_between_braces_is_an_empty_mapping() {
    assert_eq!(Agpref::parse("k = { , }").unwrap().values, mapping(vec![]));
}

#[test]
fn escaped_backslashes_in_a_path() {
    let doc = Agpref::parse("p = \"C:\\\\Users\\\\x\"").unwrap();
    assert_eq!(doc.values.get_string(), Some("C:\\Users\\x"));
}

#[test]
fn whitespace_inside_a_string_is_kept() {
    let doc = Agpref::parse("p = \"  two spaces \t\"").unwrap();
    assert_eq!(doc.values.get_string(), Some("  two spaces \t"));
}

#[test]
fn empty_string() {
    let doc = Agpref::parse("p = \"\"").unwrap();
    assert_eq!(doc.values.get_string(), Some(""));
}

#[test]
fn missing_value_is_a_syntax_error() {
    assert_eq!(
        Agpref::parse("name = "),
        Err(Errors::Syntax { rule: Rule::Value, position: 7 })
    );
}

#[test]
fn missing_parts_of_the_root_entry() {
    assert_eq!(
        Agpref::parse(""),
        Err(Errors::Syntax { rule: Rule::Key, position: 0 })
    );
    assert_eq!(
        Agpref::parse("  = 1"),
        Err(Errors::Syntax { rule: Rule::Key, position: 2 })
    );
    assert_eq!(
        Agpref::parse("name 1"),
        Err(Errors::Syntax { rule: Rule::Equals, position: 5 })
    );
}

#[test]
fn trailing_input_is_its_own_error() {
    assert_eq!(
        Agpref::parse("a = { b = 1 } c = { }"),
        Err(Errors::TrailingInput { position: 14 })
    );
    assert_eq!(
        Agpref::parse("a = { }x"),
        Err(Errors::TrailingInput { position: 7 })
    );
}

#[test]
fn the_deepest_failure_is_reported() {
    assert_eq!(
        Agpref::parse("a = { b = 1 c }"),
        Err(Errors::Syntax { rule: Rule::Close, position: 12 })
    );
    assert_eq!(
        Agpref::parse("a = { 1, 2 x }"),
        Err(Errors::Syntax { rule: Rule::Close, position: 11 })
    );
    assert_eq!(
        Agpref::parse("a = \"open"),
        Err(Errors::Syntax { rule: Rule::Quote, position: 9 })
    );
    assert_eq!(
        Agpref::parse("a = \"bad \\q\""),
        Err(Errors::Syntax { rule: Rule::Escape, position: 9 })
    );
    assert_eq!(
        Agpref::parse("a = word"),
        Err(Errors::Syntax { rule: Rule::Value, position: 4 })
    );
}

#[test]
fn raw_line_break_ends_a_string_too_early() {
    assert_eq!(
        Agpref::parse("a = \"line\nbreak\""),
        Err(Errors::Syntax { rule: Rule::Quote, position: 9 })
    );
}

fn nested(levels: usize) -> String {
    let mut s = String::from("a = ");
    for _ in 0..levels {
        s.push_str("{ ");
    }
    s.push('1');
    for _ in 0..levels {
        s.push_str(" }");
    }
    s
}

#[test]
fn nesting_is_capped() {
    assert!(Agpref::parse(&nested(MAX_DEPTH)).is_ok());
    assert_eq!(
        Agpref::parse(&nested(MAX_DEPTH + 1)),
        Err(Errors::Syntax { rule: Rule::Depth, position: 4 + 2 * MAX_DEPTH })
    );
    assert!(matches!(
        Agpref::parse(&nested(100_000)),
        Err(Errors::Syntax { rule: Rule::Depth, .. })
    ));
}

#[test]
fn the_unit_value_needs_no_depth() {
    let mut s = String::from("a = ");
    for _ in 0..MAX_DEPTH {
        s.push_str("{ ");
    }
    s.push_str("{ }");
    for _ in 0..MAX_DEPTH {
        s.push_str(" }");
    }
    assert!(Agpref::parse(&s).is_ok());
}

#[test]
fn integers() {
    assert_eq!(get_num("0"), Ok(("", 0)));
    assert_eq!(get_num("-12, 3"), Ok((", 3", -12)));
    assert_eq!(get_num("+5 }"), Ok(("}", 5)));
    assert_eq!(get_num("007"), Ok(("", 7)));
    assert_eq!(get_num("9223372036854775807"), Ok(("", i64::MAX)));
    assert_eq!(get_num("-9223372036854775808"), Ok(("", i64::MIN)));
    assert_eq!(get_num("  42  \n}"), Ok(("}", 42)));
    let miss = Err(Errors::Syntax { rule: Rule::Value, position: 0 });
    assert_eq!(get_num("9223372036854775808"), miss);
    assert_eq!(get_num("-9223372036854775809"), miss);
    assert_eq!(get_num("99999999999999999999999999999999"), miss);
    assert_eq!(get_num("1.5"), miss);
    assert_eq!(get_num("-"), miss);
    assert_eq!(get_num("+"), miss);
    assert_eq!(get_num("12a"), miss);
    assert_eq!(get_num("1\t"), miss);
    assert_eq!(get_num(""), miss);
    assert_eq!(get_num("--1"), miss);
}

#[test]
fn floats() {
    for t in [
        "1.5", "-0.25", "+3.", ".5", "1e5", "1E-5", "2.5e+10", "inf", "-inf", "Infinity", "NaN",
        "nan", "+infinity", "9223372036854775808", "0",
    ] {
        assert_eq!(get_float(t), Ok(("", t.to_string())), "{}", t);
    }
    let miss = Err(Errors::Syntax { rule: Rule::Value, position: 0 });
    for t in [
        ".", "e5", "1e", "1e+", "1.5.2", "1_000", "0x10", "infinit", "nano", "-", "+", "", "1.5f",
        "1 e5x", "tru",
    ] {
        if t == "1 e5x" {
            assert_eq!(get_float(t), Ok(("e5x", "1".to_string())));
        } else {
            assert_eq!(get_float(t), miss, "{}", t);
        }
    }
}

#[test]
fn a_number_too_large_for_an_integer_is_a_float() {
    let doc = Agpref::parse("a = 9223372036854775808").unwrap();
    assert_eq!(doc.values.get_float(), Some("9223372036854775808"));
    assert_eq!(doc.values.get_int(), None);
}

#[test]
fn booleans() {
    assert_eq!(get_bool("true"), Ok(("", true)));
    assert_eq!(get_bool(" false ,"), Ok((",", false)));
    assert_eq!(get_bool("true}"), Ok(("}", true)));
    let miss = Err(Errors::Syntax { rule: Rule::Value, position: 0 });
    assert_eq!(get_bool("True"), miss);
    assert_eq!(get_bool("truex"), miss);
    assert_eq!(get_bool("tru"), miss);
    assert_eq!(get_bool("1"), miss);
    assert_eq!(get_bool(""), miss);
}

#[test]
fn tokens() {
    assert_eq!(take_eov("abc,def"), Ok((",def", "abc")));
    assert_eq!(take_eov("abc def"), Ok((" def", "abc")));
    assert_eq!(take_eov("abc}"), Ok(("}", "abc")));
    assert_eq!(take_eov("abc\ndef"), Ok(("\ndef", "abc")));
    assert_eq!(take_eov("a\tb\rc"), Ok(("", "a\tb\rc")));
    assert_eq!(
        take_eov(",abc"),
        Err(Errors::Syntax { rule: Rule::Value, position: 0 })
    );
    assert_eq!(
        take_eov(""),
        Err(Errors::Syntax { rule: Rule::Value, position: 0 })
    );
}

#[test]
fn keys() {
    assert_eq!(get_key("  name = 1"), Ok(("= 1", "name".to_string())));
    assert_eq!(get_key("name=1"), Ok(("=1", "name".to_string())));
    assert_eq!(get_key("a,b{}\" = 1"), Ok(("= 1", "a,b{}\"".to_string())));
    assert_eq!(get_key("na\tme"), Ok(("me", "na".to_string())));
    assert_eq!(get_key("na\nme"), Ok(("me", "na".to_string())));
    assert_eq!(
        get_key(" =1"),
        Err(Errors::Syntax { rule: Rule::Key, position: 1 })
    );
}

#[test]
fn punctuation() {
    assert_eq!(open(" { x"), Ok(("x", ())));
    assert_eq!(close("\n}\n"), Ok(("", ())));
    assert_eq!(comma(" ,\n x"), Ok(("x", ())));
    assert_eq!(equals(" = 1"), Ok(("1", ())));
    assert_eq!(
        open(" x"),
        Err(Errors::Syntax { rule: Rule::Open, position: 1 })
    );
    assert_eq!(
        close("x"),
        Err(Errors::Syntax { rule: Rule::Close, position: 0 })
    );
    assert_eq!(
        comma(" ;"),
        Err(Errors::Syntax { rule: Rule::Comma, position: 1 })
    );
    assert_eq!(
        equals(""),
        Err(Errors::Syntax { rule: Rule::Equals, position: 0 })
    );
}

#[test]
fn strings() {
    assert_eq!(get_string(" \"a b\" ,"), Ok((",", "a b".to_string())));
    assert_eq!(get_string("\"\""), Ok(("", String::new())));
    assert_eq!(get_string("\"a\\\"b\""), Ok(("", "a\"b".to_string())));
    assert_eq!(
        get_string("abc"),
        Err(Errors::Syntax { rule: Rule::Quote, position: 0 })
    );
    assert_eq!(
        get_string("\"abc"),
        Err(Errors::Syntax { rule: Rule::Quote, position: 4 })
    );
}

#[test]
fn units_mappings_and_lists() {
    assert_eq!(get_unit("{ } x"), Ok(("x", ())));
    assert_eq!(
        get_unit("{ 1 }"),
        Err(Errors::Syntax { rule: Rule::Close, position: 2 })
    );
    assert_eq!(
        get_struct("{ a = 1 } x"),
        Ok(("x", mapping(vec![("a", Value::Int(1))])))
    );
    assert_eq!(get_struct("{ }"), Ok(("", mapping(vec![]))));
    assert_eq!(
        get_vec("{ 1, 2 } x"),
        Ok(("x", Value::Values(vec![Value::Int(1), Value::Int(2)])))
    );
    assert_eq!(get_vec("{ }"), Ok(("", Value::Values(vec![]))));
}

#[test]
fn the_order_of_the_alternatives() {
    // The unit value comes before the empty mapping and the empty list.
    assert_eq!(get_value("{ }"), Ok(("", Value::Unit)));
    // A mapping comes before a list.
    assert_eq!(
        get_value("{ \"a = 1 }"),
        Ok(("", mapping(vec![("\"a", Value::Int(1))])))
    );
    // An integer comes before a floating-point number.
    assert_eq!(get_value("12"), Ok(("", Value::Int(12))));
    assert_eq!(get_value("12.0"), Ok(("", Value::Float("12.0".to_string()))));
    // A string that looks like an entry is still a string in a list.
    assert_eq!(
        get_value("{ \"a = b\" }"),
        Ok(("", Value::Values(vec![text("a = b")])))
    );
}

#[test]
fn entries() {
    assert_eq!(
        get_key_value("a = 1, b"),
        Ok((", b", ("a".to_string(), Value::Int(1))))
    );
    assert_eq!(
        get_key_value("a = "),
        Err(Errors::Syntax { rule: Rule::Value, position: 4 })
    );
}

#[test]
fn positions_count_characters() {
    assert_eq!(
        Agpref::parse("h\u{e9}llo = \u{1F600}"),
        Err(Errors::Syntax { rule: Rule::Value, position: 8 })
    );
    let doc = Agpref::parse("h\u{e9}llo = \"\u{1F600}\"").unwrap();
    assert_eq!(doc.name, "h\u{e9}llo");
    assert_eq!(doc.values.get_string(), Some("\u{1F600}"));
}

#[test]
fn from_str_is_parse() {
    let t = "k = { a = 1 }";
    assert_eq!(Agpref::from_str(t), Agpref::parse(t));
    assert_eq!(Agpref::from_str("k ="), Agpref::parse("k ="));
}

#[test]
fn a_document_inside_a_string() {
    let outer = Agpref::parse(
        "prefs = {\nrecentLibraries20 = \"recentLibraries20 = {\\\n\\\"C:\\\\\\\\Users\\\\\\\\harsh\\\\\\\\Pictures\\\\\\\\Lightroom\\\\\\\\Lightroom Catalog.lrcat\\\" }\\\n\"\n}\n",
    )
    .unwrap();
    let recents = outer
        .values
        .get_struct()
        .unwrap()
        .get("recentLibraries20")
        .unwrap()
        .get_string()
        .unwrap();
    let inner = Agpref::parse(recents).unwrap();
    let ss: Vec<&str> = inner
        .values
        .get_values()
        .unwrap()
        .iter()
        .flat_map(|p| p.get_string())
        .collect();
    assert_eq!(
        ["C:\\Users\\harsh\\Pictures\\Lightroom\\Lightroom Catalog.lrcat"].as_slice(),
        &ss
    );
}
