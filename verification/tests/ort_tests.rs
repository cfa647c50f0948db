use ort_rs::{escape, unescape, parse_ort, generate_ort, from_str, to_string, OrtValue};
use ort_rs::parser::{is_header, parse_header, parse_fields, parse_data_values, split_pairs, Field};
use ort_rs::generator::is_uniform_object_array;
use ort_rs::error::OrtError;

fn num(t: &str) -> OrtValue {
    OrtValue::Number(t.to_string())
}

fn text(t: &str) -> OrtValue {
    OrtValue::String(t.to_string())
}

fn obj(entries: Vec<(&str, OrtValue)>) -> OrtValue {
    OrtValue::Object(entries.into_iter().map(|(k, v)| (k.to_string(), v)).collect())
}

#[test]
fn tabular_example_parses() {
    let v = parse_ort("users:id,name:\n1,John\n2,Jane").unwrap();
    let expected = obj(vec![(
        "users",
        OrtValue::Array(vec![
            obj(vec![("id", num("1")), ("name", text("John"))]),
            obj(vec![("id", num("2")), ("name", text("Jane"))]),
        ]),
    )]);
    assert_eq!(v, expected);
}

#[test]
fn tabular_example_regenerates() {
    let v = parse_ort("users:id,name:\n1,John\n2,Jane").unwrap();
    let out = generate_ort(&v);
    assert_eq!(out, "users:id,name:\n1,John\n2,Jane");
}

#[test]
fn inline_object_section() {
    let v = parse_ort("point:\n(x:1,y:2)").unwrap();
    let expected = obj(vec![("point", obj(vec![("x", num("1")), ("y", num("2"))]))]);
    assert_eq!(v, expected);
}

#[test]
fn anonymous_single_row_unwraps() {
    let v = parse_ort(":id,name:\n1,Alice").unwrap();
    let expected = obj(vec![("id", num("1")), ("name", text("Alice"))]);
    assert_eq!(v, expected);
}

#[test]
fn anonymous_multi_row_stays_array() {
    let v = parse_ort(":id:\n1\n2").unwrap();
    let expected = OrtValue::Array(vec![
        obj(vec![("id", num("1"))]),
        obj(vec![("id", num("2"))]),
    ]);
    assert_eq!(v, expected);
}

#[test]
fn escaped_comma_decodes() {
    let v = parse_ort("k:\na\\,b").unwrap();
    assert_eq!(v, obj(vec![("k", text("a,b"))]));
}

#[test]
fn escaped_comma_encodes() {
    let out = generate_ort(&obj(vec![("k", text("a,b"))]));
    assert_eq!(out, "k:\na\\,b");
}

#[test]
fn empty_array_round_trip() {
    let v = parse_ort("tags:\n[]").unwrap();
    assert_eq!(v, obj(vec![("tags", OrtValue::Array(vec![]))]));
    let out = generate_ort(&obj(vec![("tags", OrtValue::Array(vec![]))]));
    assert_eq!(out, "tags:\n[]");
}

#[test]
fn tabular_round_trip() {
    let arr = OrtValue::Array(vec![
        obj(vec![("a", num("1")), ("b", text("x"))]),
        obj(vec![("b", text("y")), ("a", num("2"))]),
    ]);
    let v = obj(vec![("rows", arr)]);
    let out = generate_ort(&v);
    let back = parse_ort(&out).unwrap();
    // Column order follows the first element; the second row's keys are
    // looked up by name, so the tree is reproduced with the first row's
    // key order everywhere.
    let expected = obj(vec![(
        "rows",
        OrtValue::Array(vec![
            obj(vec![("a", num("1")), ("b", text("x"))]),
            obj(vec![("a", num("2")), ("b", text("y"))]),
        ]),
    )]);
    assert_eq!(back, expected);
}

#[test]
fn scalar_round_trips() {
    for v in [
        OrtValue::Bool(true),
        OrtValue::Bool(false),
        num("42"),
        num("-3.5"),
        text("plain"),
        text("with space inside"),
    ] {
        let doc = obj(vec![("k", v)]);
        let out = generate_ort(&doc);
        let back = parse_ort(&out).unwrap();
        assert_eq!(back, doc);
    }
}

#[test]
fn null_round_trips_as_row_token() {
    // A bare null section renders as an empty data-line run, which reads
    // back as an empty array; inside a row the empty token stays null.
    let v = parse_ort(":a,b:\n,1").unwrap();
    let expected = obj(vec![("a", OrtValue::Null), ("b", num("1"))]);
    assert_eq!(v, expected);
    assert_eq!(parse_ort("k:\n").unwrap(), obj(vec![("k", OrtValue::Array(vec![]))]));
}

#[test]
fn escaping_is_involutive() {
    for s in ["", "plain", "(a,b)[c]\\d", "line\nbreak\ttab\rcr", "a,b,c", "))(("] {
        assert_eq!(unescape(&escape(s)), s);
    }
}

#[test]
fn escape_table() {
    assert_eq!(escape("(a)"), "\\(a\\)");
    assert_eq!(escape("[a]"), "\\[a\\]");
    assert_eq!(escape("a,b"), "a\\,b");
    assert_eq!(escape("a\\b"), "a\\\\b");
    assert_eq!(escape("a\nb\tc\rd"), "a\\nb\\tc\\rd");
    assert_eq!(unescape("\\(a\\)"), "(a)");
    assert_eq!(unescape("\\x"), "x");
}

#[test]
fn uniform_detection_ignores_key_order() {
    let a = vec![
        obj(vec![("a", num("1")), ("b", num("2"))]),
        obj(vec![("b", num("3")), ("a", num("4"))]),
    ];
    let b = vec![
        obj(vec![("a", num("1")), ("b", num("2"))]),
        obj(vec![("a", num("4")), ("b", num("3"))]),
    ];
    assert!(is_uniform_object_array(&a));
    assert!(is_uniform_object_array(&b));
}

#[test]
fn uniform_detection_sees_key_set_changes() {
    let a = vec![
        obj(vec![("a", num("1")), ("b", num("2"))]),
        obj(vec![("a", num("3")), ("c", num("4"))]),
    ];
    assert!(!is_uniform_object_array(&a));
    let b = vec![obj(vec![("a", num("1"))]), num("2")];
    assert!(!is_uniform_object_array(&b));
    let empty: Vec<OrtValue> = vec![];
    assert!(!is_uniform_object_array(&empty));
}

#[test]
fn nested_headers_round_trip() {
    let v = obj(vec![(
        "x",
        OrtValue::Array(vec![obj(vec![
            ("a", obj(vec![("b", obj(vec![("c", num("5"))]))])),
            ("d", num("7")),
        ])]),
    )]);
    let out = generate_ort(&v);
    assert_eq!(out, "x:a(b(c)),d:\n((5)),7");
    let back = parse_ort(&out).unwrap();
    assert_eq!(back, v);
}

#[test]
fn nested_field_parses() {
    let v = parse_ort("p:pos(x,y),name:\n(1,2),origin").unwrap();
    let expected = obj(vec![(
        "p",
        OrtValue::Array(vec![obj(vec![
            ("pos", obj(vec![("x", num("1")), ("y", num("2"))])),
            ("name", text("origin")),
        ])]),
    )]);
    assert_eq!(v, expected);
}

#[test]
fn value_count_mismatch_errors() {
    let e = parse_ort("k:a,b:\n1").unwrap_err();
    assert_eq!(e.line, 2);
    assert_eq!(e.code, "1");
    assert_eq!(e.message, "Expected 2 values but got 1");
}

#[test]
fn nested_count_mismatch_errors() {
    let e = parse_ort("k:a(b,c):\n(1)").unwrap_err();
    assert_eq!(e.line, 2);
    assert_eq!(e.code, "(1)");
    assert_eq!(e.message, "Expected 2 nested values but got 1");
}

#[test]
fn unmatched_close_paren_errors() {
    let e = parse_ort("k:a):\nx").unwrap_err();
    assert_eq!(e.line, 1);
    assert_eq!(e.code, "k:a):");
    assert_eq!(e.message, "Unmatched closing parenthesis");
}

#[test]
fn header_without_colon_errors() {
    let e = parse_header("plain", 7).unwrap_err();
    assert_eq!(e.line, 7);
    assert_eq!(e.code, "plain");
    assert_eq!(e.message, "Invalid header format");
}

#[test]
fn header_shapes() {
    assert!(is_header(":a,b:"));
    assert!(is_header("key:a,b:"));
    assert!(is_header("key: "));
    assert!(!is_header("1,John"));
    assert!(!is_header(""));
    assert!(!is_header("a:b"));
}

#[test]
fn parse_header_named_and_anonymous() {
    let (k, f) = parse_header("users:id,name:", 1).unwrap();
    assert_eq!(k.as_deref(), Some("users"));
    assert_eq!(f, "id,name");
    let (k, f) = parse_header(":id,name:", 1).unwrap();
    assert!(k.is_none());
    assert_eq!(f, "id,name");
}

#[test]
fn field_spec_grammar() {
    let fs = parse_fields("a,b(c,d),e", "line", 1).unwrap();
    assert_eq!(
        fs,
        vec![
            Field::Simple("a".to_string()),
            Field::Nested(
                "b".to_string(),
                vec![Field::Simple("c".to_string()), Field::Simple("d".to_string())],
            ),
            Field::Simple("e".to_string()),
        ]
    );
    assert!(parse_fields("a),b", "line", 3).is_err());
    assert_eq!(parse_fields("", "line", 1).unwrap(), vec![]);
}

#[test]
fn data_values_split_at_top_level() {
    let vs = parse_data_values("1,(a:2,b:3),[4,5],x\\,y", 1).unwrap();
    assert_eq!(vs, vec!["1", "(a:2,b:3)", "[4,5]", "x\\,y"]);
}

#[test]
fn split_pairs_drops_blank_tail() {
    let ps = split_pairs("a:1,b:2,").unwrap();
    assert_eq!(ps, vec!["a:1", "b:2"]);
    let ps = split_pairs("a:[1,2],b:(c:3)").unwrap();
    assert_eq!(ps, vec!["a:[1,2]", "b:(c:3)"]);
}

#[test]
fn comments_and_blanks_skipped() {
    let v = parse_ort("# heading\n\nk:\n5\n").unwrap();
    assert_eq!(v, obj(vec![("k", num("5"))]));
}

#[test]
fn no_headers_gives_empty_object() {
    let v = parse_ort("just text without colon\n").unwrap();
    assert_eq!(v, OrtValue::Object(vec![]));
    let v = parse_ort("").unwrap();
    assert_eq!(v, OrtValue::Object(vec![]));
}

#[test]
fn multi_section_sorted_output() {
    let v = obj(vec![("b", num("2")), ("a", num("1"))]);
    let out = generate_ort(&v);
    assert_eq!(out, "a:\n1\n\nb:\n2\n");
    let back = parse_ort(&out).unwrap();
    assert_eq!(back, obj(vec![("a", num("1")), ("b", num("2"))]));
}

#[test]
fn top_level_array_renders_anonymous() {
    let v = OrtValue::Array(vec![
        obj(vec![("id", num("1"))]),
        obj(vec![("id", num("2"))]),
    ]);
    let out = generate_ort(&v);
    assert_eq!(out, ":id:\n1\n2");
    let mixed = OrtValue::Array(vec![num("1"), text("x")]);
    assert_eq!(generate_ort(&mixed), ":[1,x]");
}

#[test]
fn scalar_kinds_parse() {
    let v = parse_ort("k:\n[1,2.5,true,false,,hello]").unwrap();
    let expected = obj(vec![(
        "k",
        OrtValue::Array(vec![
            num("1"),
            num("2.5"),
            OrtValue::Bool(true),
            OrtValue::Bool(false),
            OrtValue::Null,
            text("hello"),
        ]),
    )]);
    assert_eq!(v, expected);
}

#[test]
fn numeric_spellings() {
    let v = parse_ort("k:\n[1e3,-0.5,+7,.5,2.,inf,NaN]").unwrap();
    let expected = obj(vec![(
        "k",
        OrtValue::Array(vec![
            num("1e3"),
            num("-0.5"),
            num("+7"),
            num(".5"),
            num("2."),
            num("inf"),
            num("NaN"),
        ]),
    )]);
    assert_eq!(v, expected);
}

#[test]
fn non_numbers_stay_strings() {
    let v = parse_ort("k:\n[1.2.3,e5,12a,--3,.]").unwrap();
    let expected = obj(vec![(
        "k",
        OrtValue::Array(vec![text("1.2.3"), text("e5"), text("12a"), text("--3"), text(".")]),
    )]);
    assert_eq!(v, expected);
}

#[test]
fn value_api_matches() {
    let v = from_str("k:\n1").unwrap();
    assert_eq!(v, obj(vec![("k", num("1"))]));
    assert_eq!(to_string(&v), "k:\n1");
}

#[test]
fn accessors() {
    let v = obj(vec![("a", num("1")), ("b", OrtValue::Bool(true))]);
    assert!(v.is_object());
    assert!(!v.is_array());
    assert_eq!(v.get("a"), Some(&num("1")));
    assert_eq!(v.get("b").unwrap().as_bool(), Some(true));
    assert_eq!(v.get("missing"), None);
    assert_eq!(num("1").as_number_str(), Some("1"));
    assert_eq!(text("x").as_str(), Some("x"));
    assert!(OrtValue::Null.is_null());
    assert!(num("1").is_number());
    assert!(text("x").is_string());
    assert!(OrtValue::Bool(true).is_bool());
    let arr = OrtValue::Array(vec![num("1")]);
    assert_eq!(arr.as_array().unwrap().len(), 1);
    assert_eq!(v.as_object().unwrap().len(), 2);
}

#[test]
fn error_constructor_keeps_parts() {
    let e = OrtError::new(3, "code".to_string(), "message".to_string());
    assert_eq!(e.line, 3);
    assert_eq!(e.code, "code");
    assert_eq!(e.message, "message");
}

#[test]
fn duplicate_section_keys_replace() {
    let v = parse_ort("k:\n1\nk:\n2").unwrap();
    assert_eq!(v, obj(vec![("k", num("2"))]));
}

#[test]
fn blank_lines_between_data_lines() {
    let v = parse_ort("t:id:\n1\n\n2").unwrap();
    let expected = obj(vec![(
        "t",
        OrtValue::Array(vec![obj(vec![("id", num("1"))]), obj(vec![("id", num("2"))])]),
    )]);
    assert_eq!(v, expected);
}

#[test]
fn deep_inline_nesting_round_trips() {
    let v = obj(vec![(
        "k",
        OrtValue::Array(vec![
            num("1"),
            OrtValue::Array(vec![num("2"), obj(vec![("a", OrtValue::Array(vec![num("3")]))])]),
        ]),
    )]);
    let out = generate_ort(&v);
    assert_eq!(out, "k:\n[1,[2,(a:[3])]]");
    let back = parse_ort(&out).unwrap();
    assert_eq!(back, v);
}

#[test]
fn empty_object_value() {
    let v = parse_ort("k:\n()").unwrap();
    assert_eq!(v, obj(vec![("k", OrtValue::Object(vec![]))]));
    assert_eq!(generate_ort(&obj(vec![("k", OrtValue::Object(vec![]))])), "k:\n()");
}

#[test]
fn generated_strings_survive_reserved_chars() {
    let v = obj(vec![("k", text("a(b)[c],d\\e"))]);
    let out = generate_ort(&v);
    let back = parse_ort(&out).unwrap();
    assert_eq!(back, v);
}

#[test]
fn section_reading() {
    let lines = ["users:id,name:", "1,John", "2,Jane", "next:"];
    let (key, fields, count) = ort_rs::parser::parse_section(&lines, 0).unwrap();
    assert_eq!(key.as_deref(), Some("users"));
    assert_eq!(
        fields,
        vec![Field::Simple("id".to_string()), Field::Simple("name".to_string())]
    );
    assert_eq!(count, 2);
    let e = ort_rs::parser::parse_section(&lines, 1).unwrap_err();
    assert_eq!(e.message, "Invalid header format");
}
