use toml_edit::document::{Decor, Document, Item, Repr, TableKeyValue, Value, ValueKind};
use toml_edit::error::{CustomError, Expected, TomlError};
use toml_edit::parser::TomlParser;

fn value_of<'a>(kv: &'a TableKeyValue) -> &'a Value {
    match &kv.value {
        Item::Value(v) => v,
        other => panic!("expected a value, found {:?}", other),
    }
}

fn parse_ok(s: &str) -> Document {
    match TomlParser::parse(s) {
        Ok(d) => d,
        Err(e) => panic!("parse of {:?} failed: {:?}", s, e),
    }
}

#[test]
fn empty_input_gives_empty_document() {
    let d = parse_ok("");
    assert!(d.root.items.is_empty());
    assert_eq!(d.trailing, "");
    assert_eq!(d.to_text(), "");
}

#[test]
fn duplicate_key_in_same_table_fails() {
    let r = TomlParser::parse("a = 1\na = 2\n");
    assert_eq!(
        r,
        Err(TomlError::DuplicateKey { key: "a".to_string(), table: "".to_string() })
    );
}

#[test]
fn same_key_in_two_tables_is_no_duplicate() {
    let d = parse_ok("a = 1\n[t]\na = 2\n");
    assert_eq!(d.root.items.len(), 2);
    assert_eq!(d.root.items[0].0, "a");
    assert_eq!(value_of(&d.root.items[0].1).kind, ValueKind::Integer(1));
    assert_eq!(d.root.items[1].0, "t");
    match &d.root.items[1].1.value {
        Item::Table(t) => {
            assert_eq!(t.items.len(), 1);
            assert_eq!(t.items[0].0, "a");
            assert_eq!(value_of(&t.items[0].1).kind, ValueKind::Integer(2));
        }
        other => panic!("expected a table, found {:?}", other),
    }
}

#[test]
fn trailing_decoration_is_kept() {
    let d = parse_ok("# trailing\n\n");
    assert!(d.root.items.is_empty());
    assert_eq!(d.trailing, "# trailing\n\n");
}

#[test]
fn decoration_before_key_keeps_its_order() {
    let d = parse_ok("\n\n# c\nkey = 1\n");
    assert_eq!(d.root.items.len(), 1);
    assert_eq!(d.root.items[0].0, "key");
    assert_eq!(d.root.items[0].1.key.decor.prefix, "\n\n# c\n");
    assert_eq!(d.trailing, "");
}

#[test]
fn stray_character_after_document_fails_there() {
    let r = TomlParser::parse("a = 1\n!");
    assert_eq!(r, Err(TomlError::Unparsed { offset: 6, byte: 6, line: 2, column: 1 }));
    let r = TomlParser::parse("# c\n  \t!x");
    assert_eq!(r, Err(TomlError::Unparsed { offset: 7, byte: 7, line: 2, column: 4 }));
    let r = TomlParser::parse("[t]\nb = true\n\n%");
    assert_eq!(r, Err(TomlError::Unparsed { offset: 14, byte: 14, line: 4, column: 1 }));
}

#[test]
fn stray_character_alone_is_a_syntax_error() {
    let r = TomlParser::parse("  !");
    assert_eq!(
        r,
        Err(TomlError::Syntax { offset: 2, byte: 2, line: 1, column: 3, expected: Expected::Expression })
    );
}

#[test]
fn round_trip_reproduces_input() {
    let inputs = [
        "",
        "\n",
        "a=1",
        "  a = 1   # one\r\nb=\t\"two\"\n\n# tables\n[ t ] # header\n  x = true\ny=-3\n\n[\"q k\"]\n",
        "# only a comment",
        "[t]\n[u]\nk = false # end",
        "key = \"é ü\" # ünïcode\n",
    ];
    for s in inputs.iter() {
        let d = parse_ok(s);
        assert_eq!(d.to_text(), *s);
    }
}

#[test]
fn values_are_cooked() {
    let d = parse_ok("a = 42\nb = -7\nc = +3\nd = true\ne = false\nf = \"hi there\"\n");
    let kinds: Vec<ValueKind> =
        d.root.items.iter().map(|(_, kv)| value_of(kv).kind.clone()).collect();
    assert_eq!(
        kinds,
        vec![
            ValueKind::Integer(42),
            ValueKind::Integer(-7),
            ValueKind::Integer(3),
            ValueKind::Boolean(true),
            ValueKind::Boolean(false),
            ValueKind::String("hi there".to_string()),
        ]
    );
}

#[test]
fn integer_limits() {
    let d = parse_ok("lo = -9223372036854775808\nhi = 9223372036854775807\n");
    assert_eq!(value_of(&d.root.items[0].1).kind, ValueKind::Integer(i64::MIN));
    assert_eq!(value_of(&d.root.items[1].1).kind, ValueKind::Integer(i64::MAX));
    let r = TomlParser::parse("big = 9223372036854775808\n");
    assert_eq!(
        r,
        Err(TomlError::Syntax { offset: 6, byte: 6, line: 1, column: 7, expected: Expected::Value })
    );
    let r = TomlParser::parse("big = 99999999999999999999999\n");
    assert!(matches!(r, Err(TomlError::Syntax { offset: 6, expected: Expected::Value, .. })));
}

#[test]
fn decoration_is_split_between_key_and_value() {
    let d = parse_ok("  k  =  \"v\"  # c\nnext = 1\n");
    let kv = &d.root.items[0].1;
    assert_eq!(kv.key.raw, "k");
    assert_eq!(kv.key.decor.prefix, "  ");
    assert_eq!(kv.key.decor.suffix, "  ");
    let v = value_of(kv);
    assert_eq!(v.raw, "\"v\"");
    assert_eq!(v.decor.prefix, "  ");
    assert_eq!(v.decor.suffix, "  # c\n");
}

#[test]
fn quoted_key_is_cooked() {
    let d = parse_ok("\"a b\" = 1\n");
    assert_eq!(d.root.items[0].0, "a b");
    assert_eq!(d.root.items[0].1.key.raw, "\"a b\"");
}

#[test]
fn header_decoration() {
    let d = parse_ok("# before\n[ t ]  # after\n");
    match &d.root.items[0].1.value {
        Item::Table(t) => {
            assert_eq!(t.decor.prefix, "# before\n");
            assert_eq!(t.decor.suffix, "  # after\n");
        }
        other => panic!("expected a table, found {:?}", other),
    }
    assert_eq!(d.root.items[0].1.key.decor.prefix, " ");
    assert_eq!(d.root.items[0].1.key.decor.suffix, " ");
}

#[test]
fn missing_separator_is_reported() {
    let r = TomlParser::parse("a 1\n");
    assert_eq!(
        r,
        Err(TomlError::Syntax { offset: 2, byte: 2, line: 1, column: 3, expected: Expected::KeyValSep })
    );
    let r = TomlParser::parse("a = 1\nb");
    assert_eq!(
        r,
        Err(TomlError::Syntax { offset: 7, byte: 7, line: 2, column: 2, expected: Expected::KeyValSep })
    );
}

#[test]
fn bad_value_is_reported() {
    let r = TomlParser::parse("a = @\n");
    assert_eq!(
        r,
        Err(TomlError::Syntax { offset: 4, byte: 4, line: 1, column: 5, expected: Expected::Value })
    );
    let r = TomlParser::parse("a = \"open\n");
    assert_eq!(
        r,
        Err(TomlError::Syntax { offset: 9, byte: 9, line: 1, column: 10, expected: Expected::Value })
    );
    let r = TomlParser::parse("a = -\n");
    assert_eq!(
        r,
        Err(TomlError::Syntax { offset: 5, byte: 5, line: 1, column: 6, expected: Expected::Value })
    );
}

#[test]
fn junk_after_value_is_reported() {
    let r = TomlParser::parse("a = 1 2\n");
    assert_eq!(
        r,
        Err(TomlError::Syntax { offset: 6, byte: 6, line: 1, column: 7, expected: Expected::LineEnd })
    );
    let r = TomlParser::parse("a = 1\rb = 2\n");
    assert_eq!(
        r,
        Err(TomlError::Syntax { offset: 5, byte: 5, line: 1, column: 6, expected: Expected::LineEnd })
    );
}

#[test]
fn bad_header_is_reported() {
    let r = TomlParser::parse("[t\n");
    assert_eq!(
        r,
        Err(TomlError::Syntax { offset: 2, byte: 2, line: 1, column: 3, expected: Expected::CloseBracket })
    );
    let r = TomlParser::parse("[]\n");
    assert_eq!(
        r,
        Err(TomlError::Syntax { offset: 1, byte: 1, line: 1, column: 2, expected: Expected::Key })
    );
}

#[test]
fn duplicate_inside_table_names_the_table() {
    let r = TomlParser::parse("[t]\nx = 1\nx = 2\n");
    assert_eq!(
        r,
        Err(TomlError::DuplicateKey { key: "x".to_string(), table: "t".to_string() })
    );
}

#[test]
fn header_repeating_a_key_fails() {
    let r = TomlParser::parse("[t]\n[t]\n");
    assert_eq!(
        r,
        Err(TomlError::DuplicateKey { key: "t".to_string(), table: "".to_string() })
    );
    let r = TomlParser::parse("t = 1\n[t]\n");
    assert_eq!(
        r,
        Err(TomlError::DuplicateKey { key: "t".to_string(), table: "".to_string() })
    );
}

#[test]
fn comment_without_line_break_at_end() {
    let d = parse_ok("a = 1\n# end");
    assert_eq!(d.trailing, "# end");
    assert_eq!(d.root.items.len(), 1);
}

fn plain_kv(raw: &str, prefix: &str) -> TableKeyValue {
    TableKeyValue {
        key: Repr {
            raw: raw.to_string(),
            decor: Decor { prefix: prefix.to_string(), suffix: " ".to_string() },
        },
        value: Item::Value(Value {
            raw: "1".to_string(),
            kind: ValueKind::Integer(1),
            decor: Decor { prefix: " ".to_string(), suffix: "\n".to_string() },
        }),
    }
}

#[test]
fn handlers_collect_and_drain_decoration() {
    let mut p = TomlParser::new();
    p.on_ws("  ");
    p.on_comment("# c", "\n");
    assert_eq!(p.document.trailing, "  # c\n");
    assert_eq!(p.on_keyval("k".to_string(), plain_kv("k", "\t")), Ok(()));
    assert_eq!(p.document.trailing, "");
    assert_eq!(p.document.root.items[0].1.key.decor.prefix, "  # c\n\t");
    assert_eq!(
        p.on_keyval("k".to_string(), plain_kv("k", "")),
        Err(CustomError::DuplicateKey { key: "k".to_string(), table: "".to_string() })
    );
    assert_eq!(p.document.to_text(), "  # c\n\tk = 1\n");
}

#[test]
fn header_handler_opens_a_table() {
    let mut p = TomlParser::new();
    p.on_ws("\n");
    let repr = Repr {
        raw: "s".to_string(),
        decor: Decor { prefix: "".to_string(), suffix: "".to_string() },
    };
    assert_eq!(p.on_std_header("s".to_string(), repr, "\n".to_string()), Ok(()));
    assert_eq!(p.current_table_path, vec!["s".to_string()]);
    assert_eq!(p.on_keyval("k".to_string(), plain_kv("k", "")), Ok(()));
    assert_eq!(p.document.to_text(), "\n[s]\nk = 1\n");
    assert!(!p.document.root.contains_key(&"k".to_string()));
    assert!(p.document.root.contains_key(&"s".to_string()));
}

#[test]
fn table_lookup() {
    let d = parse_ok("a = 1\nb = 2\n");
    let root = d.as_table();
    assert_eq!(root.len(), 2);
    assert!(!root.is_empty());
    assert_eq!(value_of(root.get(&"b".to_string()).unwrap()).raw, "2");
    assert!(root.get(&"c".to_string()).is_none());
}


#[test]
fn byte_offset_counts_utf8_bytes() {
    let r = TomlParser::parse("k = \"\u{e9}\"\n!");
    assert_eq!(r, Err(TomlError::Unparsed { offset: 8, byte: 9, line: 2, column: 1 }));
}

#[test]
fn stray_characters_of_every_kind_fail() {
    for c in ['!', '%', '=', ']', '.', '\u{e9}'] {
        let text = format!("a = 1\n[t]\nb = 2\n{}", c);
        let r = TomlParser::parse(&text);
        assert!(
            matches!(r, Err(TomlError::Unparsed { offset: 16, line: 4, column: 1, .. })),
            "{:?}: {:?}",
            c,
            r
        );
    }
    let r = TomlParser::parse("a = 1\n\r");
    assert_eq!(r, Err(TomlError::Unparsed { offset: 6, byte: 6, line: 2, column: 1 }));
}

#[test]
fn duplicate_leaves_tree_and_drains_buffer() {
    let mut p = TomlParser::new();
    assert_eq!(p.on_keyval("k".to_string(), plain_kv("k", "")), Ok(()));
    p.on_ws("\n# pending\n");
    assert!(p.on_keyval("k".to_string(), plain_kv("k", "")).is_err());
    assert_eq!(p.document.trailing, "");
    assert_eq!(p.document.root.items.len(), 1);
    assert_eq!(p.document.to_text(), "k = 1\n");
}

#[test]
fn end_of_line_comment_goes_to_value_suffix() {
    let d = parse_ok("a = 1 # c\n");
    let kv = &d.root.items[0].1;
    assert_eq!(kv.key.raw, "a");
    assert_eq!(kv.key.decor.prefix, "");
    assert_eq!(kv.key.decor.suffix, " ");
    let v = value_of(kv);
    assert_eq!(v.decor.prefix, " ");
    assert_eq!(v.decor.suffix, " # c\n");
    assert_eq!(d.trailing, "");
}

#[test]
fn stray_bracket_fails_at_its_position() {
    let r = TomlParser::parse("a = 1\n]");
    assert_eq!(r, Err(TomlError::Unparsed { offset: 6, byte: 6, line: 2, column: 1 }));
}
