use agprefs::errors::{Errors, Rule};
use agprefs::escape::escape_string;
use agprefs::parser::esc;

#[test]
fn parser_esc_test() {
    let s = esc(r#"C:\\Users\\harsh\\Pictures\\Lightroom\\Lightroom Catalog.lrcat"#).unwrap();
    assert_eq!(
        s,
        (
            "",
            "C:\\Users\\harsh\\Pictures\\Lightroom\\Lightroom Catalog.lrcat".to_string()
        )
    );
    let s = "d 0.578103 0.415124";
    assert_eq!(esc(s).unwrap(), ("", s.to_string()));
}

#[test]
fn parser_esc_test_empty() {
    let s = esc(r#"""#).unwrap();
    assert_eq!(s, (r#"""#, String::new()));
}

#[test]
fn nom_esc_test() {
    let s = esc(r#"C:\\Users\\harsh\\Pictures\\Lightroom\\Lightroom Catalog.lrcat"#).unwrap();
    assert_eq!(
        s,
        (
            "",
            "C:\\Users\\harsh\\Pictures\\Lightroom\\Lightroom Catalog.lrcat".into()
        )
    );
    let s = "d 0.578103 0.415124";
    assert_eq!(esc(s).unwrap(), ("", s.to_string().into()));
}

#[test]
fn nom_esc_test_empty() {
    let s = esc(r#"""#).unwrap();
    assert_eq!(s, (r#"""#, String::new().into()));
}

#[test]
fn esc_resolves_each_escape() {
    assert_eq!(esc("a\\\\b").unwrap(), ("", "a\\b".to_string()));
    assert_eq!(esc("a\\\"b").unwrap(), ("", "a\"b".to_string()));
    assert_eq!(esc("a\\\nb").unwrap(), ("", "a\nb".to_string()));
    assert_eq!(esc("a\\\r\nb").unwrap(), ("", "a\nb".to_string()));
    assert_eq!(esc("a\\\rb").unwrap(), ("", "a\rb".to_string()));
}

#[test]
fn esc_stops_at_quote_and_raw_line_breaks() {
    assert_eq!(esc("ab\" rest").unwrap(), ("\" rest", "ab".to_string()));
    assert_eq!(esc("ab\ncd").unwrap(), ("\ncd", "ab".to_string()));
    assert_eq!(esc("ab\rcd").unwrap(), ("\rcd", "ab".to_string()));
    assert_eq!(esc("").unwrap(), ("", String::new()));
}

#[test]
fn esc_rejects_unknown_and_dangling_escapes() {
    assert_eq!(
        esc("ab\\tcd"),
        Err(Errors::Syntax { rule: Rule::Escape, position: 2 })
    );
    assert_eq!(
        esc("ab\\"),
        Err(Errors::Syntax { rule: Rule::Escape, position: 2 })
    );
}

#[test]
fn escape_string_escapes_only_what_needs_it() {
    assert_eq!(escape_string("plain text"), "plain text");
    assert_eq!(escape_string("tab\there"), "tab\there");
    assert_eq!(escape_string("a\\b"), "a\\\\b");
    assert_eq!(escape_string("say \"hi\""), "say \\\"hi\\\"");
    assert_eq!(escape_string("line\nfeed"), "line\\\nfeed");
    assert_eq!(escape_string("carriage\rreturn"), "carriage\\\rreturn");
    assert_eq!(escape_string(""), "");
    assert_eq!(escape_string("h\u{e9}llo \u{1F600}"), "h\u{e9}llo \u{1F600}");
}

#[test]
fn escape_then_esc_gives_the_string_back() {
    let samples = [
        "",
        "plain",
        "\\",
        "\"",
        "\n",
        "\r",
        "\r\n",
        "\n\r",
        "a\\b\"c\nd\re\tf",
        "\\\\\"\"",
        "C:\\Users\\x",
        "h\u{e9}llo \u{1F600}\r\n",
    ];
    for s in samples {
        let escaped = escape_string(s);
        assert_eq!(esc(&escaped).unwrap(), ("", s.to_string()));
    }
}
