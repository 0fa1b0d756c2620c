//! Tests for JSON span parsing.

use spansy::json::{parse_slice, parse_str, Array, Bool, JsonKey, JsonValue, KeyValue, Null,
    Number, Object, String as JsonString, JsonVisit, walk_value};
use spansy::range::RangeSet;
use spansy::{ErrorKind, Spanned};

/// Slices the source at the indices of a range set and concatenates the
/// pieces.
fn index_ranges(src: &str, indices: &RangeSet) -> std::string::String {
    let mut out = std::string::String::new();
    for r in indices.ranges.iter() {
        out.push_str(&src[r.start..r.end]);
    }
    out
}

#[test]
fn test_json_spanner() {
    let src = r#"{"foo": "bar", "baz": 123, "quux": { "a": "b", "c": "d" }, "arr": [1, 2, 3]}"#;

    let value = parse_str(src).unwrap();

    assert_eq!(value.get("foo").unwrap().span().as_str(), "bar");
    assert_eq!(value.get("baz").unwrap().span().as_str(), "123");
    assert_eq!(value.get("quux.a").unwrap().span().as_str(), "b");
    assert_eq!(value.get("arr").unwrap().span().as_str(), "[1, 2, 3]");
}

#[test]
fn test_obj_index() {
    let src = "{\"foo\": \"bar\"}";

    let value = parse_str(src).unwrap();

    assert_eq!(value.get("foo").unwrap().span().as_str(), "bar");
}

#[test]
fn test_array_index() {
    let src = "{\"foo\": [42, 14]}";

    let value = parse_str(src).unwrap();

    assert_eq!(value.get("foo.1").unwrap().span().as_str(), "14");
}

#[test]
fn test_nested_index() {
    let src = "{\"foo\": {\"bar\": [42, 14]}}";

    let value = parse_str(src).unwrap();

    assert_eq!(value.get("foo.bar.1").unwrap().span().as_str(), "14");
}

#[test]
fn test_key_value_without_value() {
    let src = "{\"foo\": \"bar\"\n}";

    let JsonValue::Object(value) = parse_str(src).unwrap() else {
        panic!("expected object");
    };

    let indices = value.elems[0].without_value();

    assert_eq!(index_ranges(src, &indices), "\"foo\": \"\"");
}

#[test]
fn test_array_without_values() {
    let src = "[42, 14]";

    let JsonValue::Array(value) = parse_str(src).unwrap() else {
        panic!("expected object");
    };

    let indices = value.without_values();

    assert_eq!(index_ranges(src, &indices), "[]");
}

#[test]
fn test_object_without_pairs() {
    let src = "{\"foo\": \"bar\"\n}";

    let JsonValue::Object(value) = parse_str(src).unwrap() else {
        panic!("expected object");
    };

    let indices = value.without_pairs();

    assert_eq!(index_ranges(src, &indices), "{\n}");
}

#[test]
fn test_json_leaf_kinds() {
    let value = parse_str("null").unwrap();
    assert!(matches!(value, JsonValue::Null(_)));
    assert_eq!(value.span().as_str(), "null");

    let value = parse_str("true").unwrap();
    assert!(matches!(value, JsonValue::Bool(_)));
    let value = parse_str("false").unwrap();
    assert!(matches!(value, JsonValue::Bool(_)));

    let value = parse_str("-12.5e+3").unwrap();
    assert!(matches!(value, JsonValue::Number(_)));
    assert_eq!(value.span().as_str(), "-12.5e+3");

    let value = parse_str("\"a\\n\\u0041b\"").unwrap();
    assert!(matches!(value, JsonValue::String(_)));
    assert_eq!(value.span().as_str(), "a\\n\\u0041b");
}

#[test]
fn test_json_whitespace_policy() {
    // Insignificant whitespace is accepted around the single top-level
    // value, and inside containers.
    let value = parse_str(" \t\r\n {\"a\" : [ 1 , 2 ] } \n").unwrap();
    assert_eq!(value.get("a.0").unwrap().span().as_str(), "1");
}

#[test]
fn test_json_syntax_errors() {
    // Leading zeros are rejected.
    assert_eq!(parse_str("01").unwrap_err().kind(), ErrorKind::JsonSyntax);
    // A decimal point needs a digit after it.
    assert_eq!(parse_str("1.").unwrap_err().kind(), ErrorKind::JsonSyntax);
    // Trailing content after the value is rejected.
    assert_eq!(parse_str("{} x").unwrap_err().kind(), ErrorKind::JsonSyntax);
    // An unterminated string is rejected.
    assert_eq!(parse_str("\"abc").unwrap_err().kind(), ErrorKind::JsonSyntax);
    // An empty document is rejected.
    assert_eq!(parse_str("").unwrap_err().kind(), ErrorKind::JsonSyntax);
    // Non-UTF-8 bytes are their own kind of error.
    assert_eq!(
        parse_slice(&[0x22, 0xff, 0x22]).unwrap_err().kind(),
        ErrorKind::InvalidUtf8
    );
}

#[test]
fn test_json_error_position() {
    // The syntax error for a failure on the second line carries a
    // 1-based line and column.
    let err = parse_str("{\"a\":\n@}").unwrap_err();
    assert_eq!(err.kind(), ErrorKind::JsonSyntax);
    assert_eq!(err.line, 2);
    assert_eq!(err.column, 1);
}

#[test]
fn test_json_span_indices() {
    let src = "{\"foo\": {\"bar\": [42, 14]}}";
    let value = parse_str(src).unwrap();
    let bar = value.get("foo.bar").unwrap();
    let indices = bar.span().indices();
    assert_eq!(indices.ranges.len(), 1);
    assert_eq!(indices.ranges[0].start, 16);
    assert_eq!(indices.ranges[0].end, 24);
    assert_eq!(bar.span().as_str(), "[42, 14]");
}

#[test]
fn test_json_reparse_sub_entity() {
    // Re-parsing the exact byte range of an already-parsed sub-entity
    // yields an equivalent result to the original sub-parse.
    let src = "{\"foo\": {\"bar\": [42, 14]}}";
    let value = parse_str(src).unwrap();
    let bar = value.get("foo.bar").unwrap();
    let again = parse_str(bar.span().as_str()).unwrap();
    assert_eq!(again.span().as_str(), bar.span().as_str());
    assert_eq!(again.get("1").unwrap().span().as_str(), "14");
    assert_eq!(
        again.get("0").unwrap().span().as_str(),
        bar.get("0").unwrap().span().as_str()
    );
}

#[test]
fn test_json_offset() {
    // Offsetting shifts every span's indices without changing content.
    let src = "{\"foo\": [42, 14]}";
    let mut value = parse_str(src).unwrap();
    let before = value.get("foo.1").unwrap().span().indices().ranges.clone();
    value.offset(10);
    let after = value.get("foo.1").unwrap().span().indices().ranges.clone();
    assert_eq!(value.get("foo.1").unwrap().span().as_str(), "14");
    assert_eq!(before.len(), 1);
    assert_eq!(after.len(), 1);
    assert_eq!(after[0].start, before[0].start + 10);
    assert_eq!(after[0].end, before[0].end + 10);
}

struct Counter {
    numbers: usize,
    strings: usize,
    keys: usize,
    pairs: usize,
    arrays: usize,
    objects: usize,
    nulls: usize,
    bools: usize,
    values: usize,
}

impl JsonVisit for Counter {
    fn visit_key_value(&mut self, _node: &KeyValue) {
        self.pairs += 1;
    }

    fn visit_key(&mut self, _node: &JsonKey) {
        self.keys += 1;
    }

    fn visit_value(&mut self, _node: &JsonValue) {
        self.values += 1;
    }

    fn visit_array(&mut self, _node: &Array) {
        self.arrays += 1;
    }

    fn visit_object(&mut self, _node: &Object) {
        self.objects += 1;
    }

    fn visit_null(&mut self, _node: &Null) {
        self.nulls += 1;
    }

    fn visit_bool(&mut self, _node: &Bool) {
        self.bools += 1;
    }

    fn visit_number(&mut self, _node: &Number) {
        self.numbers += 1;
    }

    fn visit_string(&mut self, _node: &JsonString) {
        self.strings += 1;
    }
}

#[test]
fn test_json_visitor_walk() {
    let src = "{\"a\": [1, 2, true], \"b\": null, \"c\": \"s\"}";
    let value = parse_str(src).unwrap();
    let mut c = Counter {
        numbers: 0,
        strings: 0,
        keys: 0,
        pairs: 0,
        arrays: 0,
        objects: 0,
        nulls: 0,
        bools: 0,
        values: 0,
    };
    walk_value(&mut c, &value);
    assert_eq!(c.numbers, 2);
    assert_eq!(c.strings, 1);
    assert_eq!(c.keys, 3);
    assert_eq!(c.pairs, 3);
    assert_eq!(c.arrays, 1);
    assert_eq!(c.objects, 1);
    assert_eq!(c.nulls, 1);
    assert_eq!(c.bools, 1);
    assert_eq!(c.values, 7);
}

#[test]
fn test_json_redaction_slicing() {
    // Object redaction keeps the braces and surrounding whitespace.
    let src = "{ \"k\": [7, 8] }";
    let JsonValue::Object(obj) = parse_str(src).unwrap() else {
        panic!("expected object");
    };
    assert_eq!(index_ranges(src, &obj.without_pairs()), "{  }");

    let JsonValue::Array(arr) = parse_str("[7, 8]").unwrap() else {
        panic!("expected array");
    };
    assert_eq!(index_ranges("[7, 8]", &arr.without_values()), "[]");
}

#[test]
fn test_json_index_accessors() {
    let src = "{\"foo\": [42, 14]}";
    let JsonValue::Object(obj) = parse_str(src).unwrap() else {
        panic!("expected object");
    };
    assert_eq!(obj.index("foo").span().as_str(), "[42, 14]");
    let JsonValue::Array(arr) = obj.index("foo") else {
        panic!("expected array");
    };
    assert_eq!(arr.index(1).span().as_str(), "14");
}
