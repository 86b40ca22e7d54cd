use agprefs::composer::{compose_value, gen_agpref, Info};
use agprefs::types::{Agpref, OrderedMap, Value};

fn text(s: &str) -> Value {
    Value::String(s.to_string())
}

fn mapping(entries: Vec<(&str, Value)>) -> Value {
    let mut m = OrderedMap::new();
    for (k, v) in entries {
        m.insert(k.to_string(), v);
    }
    Value::Struct(m)
}

fn document(name: &str, values: Value) -> Agpref {
    Agpref { name: name.to_string(), values }
}

fn written(value: &Value, info: Info) -> String {
    String::from_utf8(compose_value(value, info, Vec::new()).unwrap()).unwrap()
}

#[test]
fn scalars() {
    let info = Info::default();
    assert_eq!(written(&Value::Unit, info), "{ }");
    assert_eq!(written(&Value::Int(0), info), "0");
    assert_eq!(written(&Value::Int(-17), info), "-17");
    assert_eq!(written(&Value::Int(i64::MAX), info), "9223372036854775807");
    assert_eq!(written(&Value::Int(i64::MIN), info), "-9223372036854775808");
    assert_eq!(written(&Value::Float("1.50".to_string()), info), "1.50");
    assert_eq!(written(&Value::Float("1e5".to_string()), info), "1e5");
    assert_eq!(written(&Value::Bool(true), info), "true");
    assert_eq!(written(&Value::Bool(false), info), "false");
    assert_eq!(written(&text("a b"), info), "\"a b\"");
    assert_eq!(written(&text(""), info), "\"\"");
    assert_eq!(
        written(&text("q\"b\\n\nr\r\t"), info),
        "\"q\\\"b\\\\n\\\nr\\\r\t\""
    );
}

#[test]
fn string_escapes_are_written_with_a_backslash_before_the_character() {
    let info = Info::default();
    assert_eq!(written(&text("\\"), info), "\"\\\\\"");
    assert_eq!(written(&text("\""), info), "\"\\\"\"");
    assert_eq!(written(&text("\n"), info), "\"\\\n\"");
    assert_eq!(written(&text("\r"), info), "\"\\\r\"");
    assert_eq!(written(&text("\t"), info), "\"\t\"");
}

#[test]
fn collections_on_one_level() {
    let info = Info::default();
    let list = Value::Values(vec![Value::Int(1), Value::Int(2), Value::Int(3)]);
    assert_eq!(written(&list, info), "{ 1,\n2,\n3 }");
    let m = mapping(vec![("a", Value::Int(1)), ("b", text("x"))]);
    assert_eq!(written(&m, info), "{ a = 1,\nb = \"x\" }");
    assert_eq!(written(&Value::Values(vec![Value::Bool(true)]), info), "{ true }");
    assert_eq!(written(&Value::Values(vec![]), info), "{  }");
    assert_eq!(written(&mapping(vec![]), info), "{  }");
}

#[test]
fn braces_on_lines_of_their_own() {
    let info = Info { newline: true, inherit: false, depth: 0 };
    let m = mapping(vec![
        ("a", Value::Int(1)),
        ("b", mapping(vec![("c", Value::Unit)])),
    ]);
    assert_eq!(written(&m, info), "{\na = 1,\nb = { c = { } }\n}");
    let list = Value::Values(vec![Value::Int(1), Value::Values(vec![Value::Int(2)])]);
    assert_eq!(written(&list, info), "{\n1,\n{ 2 } }");
}

#[test]
fn the_layout_is_handed_down_as_deep_as_it_says() {
    let nested = mapping(vec![("a", mapping(vec![("b", mapping(vec![("c", Value::Int(1))]))]))]);
    let two = Info { newline: true, inherit: true, depth: 1 };
    assert_eq!(written(&nested, two), "{\na = {\nb = { c = 1 }\n}\n}");
    let three = Info { newline: true, inherit: true, depth: 2 };
    assert_eq!(written(&nested, three), "{\na = {\nb = {\nc = 1\n}\n}\n}");
}

#[test]
fn compose_value_writes_behind_what_the_buffer_holds() {
    let out = compose_value(&Value::Int(7), Info::default(), b"x = ".to_vec()).unwrap();
    assert_eq!(out, b"x = 7".to_vec());
}

#[test]
fn documents() {
    let doc = document(
        "prefs",
        mapping(vec![
            ("name", text("Caf\u{e9}")),
            ("sizes", Value::Values(vec![Value::Int(1), Value::Float("2.5".to_string())])),
            ("on", Value::Bool(true)),
            ("none", Value::Unit),
        ]),
    );
    let expected = "prefs = {\nname = \"Caf\u{e9}\",\nsizes = { 1,\n2.5 },\non = true,\nnone = { }\n}\n";
    assert_eq!(doc.to_str().unwrap(), expected);
    assert_eq!(
        String::from_utf8(gen_agpref(&doc, Vec::new()).unwrap()).unwrap(),
        expected
    );
    assert_eq!(document("n", Value::Int(3)).to_str().unwrap(), "n = 3\n");
}

#[test]
fn parsing_what_was_composed_gives_the_document_back() {
    let docs = vec![
        document("a", Value::Unit),
        document("a", Value::Int(-5)),
        document("a", Value::Float("1e-7".to_string())),
        document("a", Value::Bool(false)),
        document("a", text("x \" \\ \n \r \r\n y = { }")),
        document("a", Value::Values(vec![Value::Int(1), text("s"), Value::Unit])),
        document(
            "a,b",
            mapping(vec![
                ("k1", mapping(vec![("k2", Value::Values(vec![Value::Bool(true)]))])),
                ("{", text("")),
                (",", Value::Float("inf".to_string())),
            ]),
        ),
    ];
    for doc in docs {
        let t = doc.to_str().unwrap();
        let back = Agpref::parse(&t).unwrap();
        assert_eq!(back, doc, "{}", t);
        assert_eq!(back.to_str().unwrap(), t);
    }
}

#[test]
fn composing_what_was_parsed_gives_the_text_back() {
    let texts = [
        "name = { }\n",
        "k = {\na = 1,\nb = \"x\"\n}\n",
        "k = {\n1,\n2,\n3 }\n",
        "k = {\na = { b = { c = -1.5e3 } },\nd = { true,\nfalse,\n\"C:\\\\Users\\\\x\" }\n}\n",
        "k = \"two\\\nlines\"\n",
    ];
    for t in texts {
        let doc = Agpref::parse(t).unwrap();
        assert_eq!(doc.to_str().unwrap(), t);
    }
}

#[test]
fn composing_twice_gives_the_same_text() {
    let texts = [
        "k={a=1,b={1,2,}, c=\"x\",}",
        "  k  =  {  a  =  +7  ,  b  =  007  }  ",
        "k = { \"a = b\" }",
        "k = \"\\\r\n\"",
    ];
    for t in texts {
        let once = Agpref::parse(t).unwrap().to_str().unwrap();
        let twice = Agpref::parse(&once).unwrap().to_str().unwrap();
        assert_eq!(once, twice, "{}", t);
    }
}

#[test]
fn an_empty_mapping_is_composed_differently_the_second_time() {
    let first = Agpref::parse("a = { , }").unwrap();
    assert_eq!(first.values, mapping(vec![]));
    let once = first.to_str().unwrap();
    assert_eq!(once, "a = {\n\n}\n");
    let second = Agpref::parse(&once).unwrap();
    assert_eq!(second.values, Value::Unit);
    assert_eq!(second.to_str().unwrap(), "a = { }\n");
    assert!(!first.can_be_read_back());
}

#[test]
fn other_spacing_is_not_kept() {
    let doc = Agpref::parse("k = { a = 1, b = \"x\" }").unwrap();
    assert_eq!(doc.to_str().unwrap(), "k = {\na = 1,\nb = \"x\"\n}\n");
    assert!(doc.can_be_read_back());
}

#[test]
fn what_cannot_be_read_back() {
    // An empty mapping is written like the unit value with two spaces.
    let doc = document("a", mapping(vec![("b", mapping(vec![]))]));
    let t = doc.to_str().unwrap();
    assert_eq!(t, "a = {\nb = {  }\n}\n");
    let back = Agpref::parse(&t).unwrap();
    assert_eq!(back, document("a", mapping(vec![("b", Value::Unit)])));
    // A key with a space in it is read as a shorter key.
    let doc = document("a b", Value::Int(1));
    assert!(Agpref::parse(&doc.to_str().unwrap()).is_err());
}
