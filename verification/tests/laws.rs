use agprefs::grammar::MAX_DEPTH;
use agprefs::roundtrip::{has_distinct_keys, is_plain_key, string_begins_like_pair};
use agprefs::types::{Agpref, OrderedMap, Value};

fn text(s: &str) -> Value {
    Value::String(s.to_string())
}

fn mapping(entries: Vec<(&str, Value)>) -> Value {
    Value::Struct(OrderedMap {
        entries: entries.into_iter().map(|(k, v)| (k.to_string(), v)).collect(),
    })
}

#[test]
fn plain_keys() {
    assert!(is_plain_key("name"));
    assert!(is_plain_key("a,b{}\"\\"));
    assert!(is_plain_key("h\u{e9}"));
    assert!(!is_plain_key(""));
    assert!(!is_plain_key("a b"));
    assert!(!is_plain_key("a\tb"));
    assert!(!is_plain_key("a\nb"));
    assert!(!is_plain_key("a\rb"));
    assert!(!is_plain_key("a=b"));
}

#[test]
fn strings_that_begin_like_an_entry() {
    assert!(string_begins_like_pair("a = 1"));
    assert!(string_begins_like_pair("a=1"));
    assert!(string_begins_like_pair("a \t= 1"));
    assert!(string_begins_like_pair("=x"));
    assert!(string_begins_like_pair(" = 1"));
    assert!(string_begins_like_pair("a\n= 1"));
    assert!(string_begins_like_pair("a\"= 1"));
    assert!(!string_begins_like_pair(""));
    assert!(!string_begins_like_pair("a"));
    assert!(!string_begins_like_pair("a b = 1"));
    assert!(!string_begins_like_pair("a , = 1"));
    assert!(!string_begins_like_pair("a\tb=1"));
}

#[test]
fn distinct_keys() {
    let m = |keys: &[&str]| OrderedMap {
        entries: keys.iter().map(|k| (k.to_string(), Value::Unit)).collect(),
    };
    assert!(has_distinct_keys(&m(&[])));
    assert!(has_distinct_keys(&m(&["a"])));
    assert!(has_distinct_keys(&m(&["a", "b", "c"])));
    assert!(!has_distinct_keys(&m(&["a", "a"])));
    assert!(!has_distinct_keys(&m(&["a", "b", "a"])));
    assert!(!has_distinct_keys(&m(&["a", "b", "c", "b"])));
}

#[test]
fn what_can_be_read_back() {
    let yes = vec![
        Value::Unit,
        Value::Int(1),
        Value::Bool(true),
        text(""),
        text("a = 1 }"),
        Value::Float("1.5".to_string()),
        Value::Float("9223372036854775808".to_string()),
        Value::Values(vec![Value::Int(1), text("a = 1 }")]),
        Value::Values(vec![text("a b = 1")]),
        mapping(vec![("a", Value::Int(1)), ("}", Value::Int(2))]),
    ];
    for v in yes {
        assert!(v.can_be_read_back(MAX_DEPTH), "{:?}", v);
    }
    let no = vec![
        Value::Float("1".to_string()),
        Value::Float("x".to_string()),
        Value::Float("".to_string()),
        Value::Values(vec![]),
        Value::Values(vec![text("a = 1 }")]),
        Value::Values(vec![Value::Values(vec![])]),
        mapping(vec![]),
        mapping(vec![("}", Value::Int(1))]),
        mapping(vec![("a b", Value::Int(1))]),
        mapping(vec![("", Value::Int(1))]),
        mapping(vec![("a", Value::Int(1)), ("a", Value::Int(2))]),
        mapping(vec![("a", Value::Float("1".to_string()))]),
    ];
    for v in no {
        assert!(!v.can_be_read_back(MAX_DEPTH), "{:?}", v);
    }
    assert!(Value::Unit.can_be_read_back(0));
    assert!(!Value::Values(vec![Value::Unit]).can_be_read_back(0));
    assert!(Value::Values(vec![Value::Unit]).can_be_read_back(1));
    assert!(!Value::Values(vec![Value::Values(vec![Value::Unit])]).can_be_read_back(1));
    assert!(Agpref { name: "n".to_string(), values: Value::Unit }.can_be_read_back());
    assert!(!Agpref { name: "n n".to_string(), values: Value::Unit }.can_be_read_back());
    assert!(!Agpref { name: "n".to_string(), values: mapping(vec![]) }.can_be_read_back());
}

struct Dice(u64);

impl Dice {
    fn roll(&mut self, sides: u64) -> u64 {
        self.0 = self
            .0
            .wrapping_mul(6364136223846793005)
            .wrapping_add(1442695040888963407);
        (self.0 >> 33) % sides
    }

    fn pick<'a>(&mut self, from: &[&'a str]) -> &'a str {
        from[self.roll(from.len() as u64) as usize]
    }

    fn word(&mut self, alphabet: &[&str], longest: u64) -> String {
        let n = self.roll(longest + 1);
        (0..n).map(|_| self.pick(alphabet)).collect()
    }

    fn value(&mut self, depth: u64) -> Value {
        let keys = ["a", "b", "k", "}", "{", ",", "\"", "=", " ", "x", "1", "\u{e9}", "\\"];
        let chars = [
            "a", "b", " ", "=", "1", "{", "}", ",", "\"", "\\", "\n", "\r", "\t", "\u{1F600}", "x",
        ];
        let floats = ["1.5", "-2e3", "inf", "NaN", "1", ".", "0.0", "+7.", "1e", "99999999999999999999"];
        let kinds = if depth == 0 { 5 } else { 7 };
        match self.roll(kinds) {
            0 => Value::Unit,
            1 => Value::Int(self.roll(2000) as i64 - 1000),
            2 => Value::Float(self.pick(&floats).to_string()),
            3 => Value::Bool(self.roll(2) == 0),
            4 => Value::String(self.word(&chars, 8)),
            5 => {
                let n = self.roll(4);
                Value::Values((0..n).map(|_| self.value(depth - 1)).collect())
            }
            _ => {
                let n = self.roll(4);
                Value::Struct(OrderedMap {
                    entries: (0..n)
                        .map(|_| (self.word(&keys, 3), self.value(depth - 1)))
                        .collect(),
                })
            }
        }
    }
}

#[test]
fn documents_that_can_be_read_back_are_read_back() {
    let mut dice = Dice(7);
    let keys = ["a", "b", "}", "=", " ", "x"];
    let mut read_back = 0;
    for _ in 0..4000 {
        let doc = Agpref { name: dice.word(&keys, 3), values: dice.value(3) };
        let t = doc.to_str().unwrap();
        if doc.can_be_read_back() {
            read_back += 1;
            assert_eq!(Agpref::parse(&t), Ok(doc), "{:?}", t);
        }
    }
    assert!(read_back > 400, "{}", read_back);
}

#[test]
fn parsed_documents_are_composed_the_same_way_twice() {
    let mut dice = Dice(11);
    let keys = ["a", "b", "x"];
    let mut accepted = 0;
    for _ in 0..4000 {
        let doc = Agpref { name: dice.word(&keys, 3), values: dice.value(3) };
        let t = doc.to_str().unwrap();
        if let Ok(parsed) = Agpref::parse(&t) {
            let once = parsed.to_str().unwrap();
            if parsed.can_be_read_back() {
                accepted += 1;
                let again = Agpref::parse(&once).unwrap();
                assert_eq!(again, parsed, "{:?}", once);
                assert_eq!(again.to_str().unwrap(), once);
            }
        }
    }
    assert!(accepted > 400, "{}", accepted);
}

#[test]
fn a_large_document_is_read_and_written() {
    let mut entries = Vec::new();
    for i in 0..20000 {
        entries.push((
            format!("key{}", i),
            Value::Values(vec![
                Value::Int(i),
                Value::String(format!("value \"{}\"\n", i)),
                Value::Float(format!("{}.5", i)),
            ]),
        ));
    }
    let doc = Agpref { name: "big".to_string(), values: Value::Struct(OrderedMap { entries }) };
    let t = doc.to_str().unwrap();
    assert!(t.len() > 500_000);
    let back = Agpref::parse(&t).unwrap();
    assert_eq!(back, doc);
}
