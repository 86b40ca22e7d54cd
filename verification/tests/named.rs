use agprefs::errors::{Errors, Rule};
use agprefs::parser::get_namedlist;
use agprefs::types::{Agpref, NamedList, OrderedMap, Value};

#[test]
fn a_named_list_is_a_document_with_a_list() {
    let n = NamedList::parse("recent = {\n\"a\",\n\"b\" }\n").unwrap();
    assert_eq!(n.name, "recent");
    assert_eq!(
        n.values,
        vec![Value::String("a".to_string()), Value::String("b".to_string())]
    );
    assert_eq!(NamedList::parse("recent = { a = 1 }"), None);
    assert_eq!(NamedList::parse("recent = 1"), None);
    assert_eq!(NamedList::parse("recent = { }"), None);
    assert_eq!(NamedList::parse("recent = { 1 } x"), None);
    assert_eq!(NamedList::parse(""), None);
}

#[test]
fn a_named_list_inside_a_string() {
    let (rest, n) = get_namedlist(" \"n = { 1,\\\n2 }\" , x").unwrap();
    assert_eq!(rest, ", x");
    assert_eq!(n, NamedList { name: "n".to_string(), values: vec![Value::Int(1), Value::Int(2)] });
    assert_eq!(
        get_namedlist("  \"n = 1\""),
        Err(Errors::Syntax { rule: Rule::Value, position: 2 })
    );
    assert_eq!(
        get_namedlist("n = { 1 }"),
        Err(Errors::Syntax { rule: Rule::Quote, position: 0 })
    );
    assert_eq!(
        get_namedlist("\"n = { 1 }"),
        Err(Errors::Syntax { rule: Rule::Quote, position: 10 })
    );
}

#[test]
fn a_named_list_becomes_a_string_and_comes_back() {
    let n = NamedList {
        name: "recentLibraries20".to_string(),
        values: vec![Value::String(
            "C:\\Users\\harsh\\Pictures\\Lightroom\\Lightroom Catalog.lrcat".to_string(),
        )],
    };
    let v = n.clone().into_value().unwrap();
    assert_eq!(
        v.get_string(),
        Some("recentLibraries20 = {\n\"C:\\\\Users\\\\harsh\\\\Pictures\\\\Lightroom\\\\Lightroom Catalog.lrcat\" }\n")
    );
    assert_eq!(NamedList::parse(v.get_string().unwrap()), Some(n));
    let mut m = OrderedMap::new();
    m.insert("recentLibraries20".to_string(), v);
    let doc = Agpref { name: "prefs".to_string(), values: Value::Struct(m) };
    let back = Agpref::parse(&doc.to_str().unwrap()).unwrap();
    assert_eq!(back, doc);
}

#[test]
fn values_from_plain_values() {
    assert_eq!(Value::from(()), Value::Unit);
    assert_eq!(Value::from(5i64), Value::Int(5));
    assert_eq!(Value::from(true), Value::Bool(true));
    assert_eq!(Value::from("s".to_string()), Value::String("s".to_string()));
    assert_eq!(
        Value::from(vec![Value::Int(1)]),
        Value::Values(vec![Value::Int(1)])
    );
    assert_eq!(Value::from(OrderedMap::new()), Value::Struct(OrderedMap::new()));
    let v: Value = 7i64.into();
    assert_eq!(v, Value::Int(7));
}
