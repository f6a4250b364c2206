use jsonb::parser::parse_value;
use jsonb::random::{
    number_kind, rand_scalar_value, rand_value, scalar_kind, value_kind, NumberKind, ScalarKind,
    ValueKind,
};
use jsonb::keypath::KeyPath;
use jsonb::tree::{concat_values, copy_value, delete_value_by_keypath, strip_value_nulls};
use jsonb::value::{insert_into, object_from_members, Member, Value};
use jsonb::{Error, Number, RawJsonb};

fn j(text: &str) -> Vec<u8> {
    parse_value(text.as_bytes()).unwrap()
}

fn text(value: &[u8]) -> String {
    RawJsonb::new(value).to_string()
}

#[test]
fn json_text_is_read() {
    assert_eq!(j("null"), vec![0x20, 0, 0, 0, 0x00, 0, 0, 0]);
    assert_eq!(j(" true\n"), vec![0x20, 0, 0, 0, 0x40, 0, 0, 0]);
    assert_eq!(j("\tfalse\r"), vec![0x20, 0, 0, 0, 0x30, 0, 0, 0]);
    assert_eq!(j("\"a\""), vec![0x20, 0, 0, 0, 0x10, 0, 0, 1, b'a']);
    assert_eq!(j("0"), vec![0x20, 0, 0, 0, 0x20, 0, 0, 1, 0x00]);
    assert_eq!(j("-0"), vec![0x20, 0, 0, 0, 0x20, 0, 0, 9, 0x40, 0, 0, 0, 0, 0, 0, 0, 0]);
    assert_eq!(j("7"), vec![0x20, 0, 0, 0, 0x20, 0, 0, 9, 0x50, 0, 0, 0, 0, 0, 0, 0, 7]);
    assert_eq!(j("[]"), vec![0x80, 0, 0, 0]);
    assert_eq!(j("{}"), vec![0x40, 0, 0, 0]);
    assert_eq!(j("[ ]"), vec![0x80, 0, 0, 0]);
    assert_eq!(j("{\n}"), vec![0x40, 0, 0, 0]);
    assert_eq!(
        j("[[],{}]"),
        vec![0x80, 0, 0, 2, 0x50, 0, 0, 4, 0x50, 0, 0, 4, 0x80, 0, 0, 0, 0x40, 0, 0, 0]
    );
    assert_eq!(text(&j("1.25e2")), "125.0");
    assert_eq!(text(&j("1E-2")), "0.01");
    assert_eq!(text(&j("-9223372036854775808")), "-9223372036854775808");
    assert_eq!(text(&j("-9223372036854775809")), "-9.223372036854776e+18");
    assert_eq!(text(&j("18446744073709551615")), "18446744073709551615");
    assert_eq!(text(&j("18446744073709551616")), "1.8446744073709552e+19");
    assert_eq!(text(&j("0.0")), "0.0");
}

#[test]
fn escapes_in_strings_are_read() {
    let s = |t: &str| RawJsonb::new(&j(t)).as_str().unwrap().unwrap();
    assert_eq!(s(r#""a\"b\\c\/d\b\f\n\r\t""#), "a\"b\\c/d\u{8}\u{c}\n\r\t");
    assert_eq!(s(r#""\u0041\u00e9\u20AC""#), "A\u{e9}\u{20ac}");
    assert_eq!(s(r#""\ud83d\ude00""#), "\u{1f600}");
    assert_eq!(s(r#""\uD834\uDD1E""#), "\u{1d11e}");
    assert_eq!(s("\"\u{1f600}\u{e9}\""), "\u{1f600}\u{e9}");
    assert_eq!(s(r#""\u0000""#), "\u{0}");
    assert_eq!(s(r#""""#), "");
}

#[test]
fn text_that_is_no_json_is_refused() {
    let bad = [
        "", " ", "nul", "nulll", "tru", "fals", "True", "[", "]", "[1", "[1,", "[1,]", "[,1]",
        "[1 2]", "{", "}", "{\"a\"}", "{\"a\":}", "{\"a\":1,}", "{a:1}", "{\"a\" 1}",
        "{\"a\":1 \"b\":2}", "{1:2}", "\"", "\"a", "\"\\x\"", "\"\\u12\"", "\"\\u12G4\"",
        "\"\\ud83d\"", "\"\\ud83d\\u0041\"", "\"\\ude00\"", "\"a\nb\"", "\"a\tb\"", "01", "-",
        "+1", "1.", ".5", "1e", "1e+", "1.e3", "--1", "1 2", "[1]]", "{}{}", "nan", "Infinity",
        "'a'", "[1,2,\u{0}]",
    ];
    for t in bad {
        assert_eq!(parse_value(t.as_bytes()), Err(Error::InvalidJson), "for {:?}", t);
    }
    assert_eq!(parse_value(b"\"\xff\""), Err(Error::InvalidJson));
    assert_eq!(parse_value(b"[\"\xc3\"]"), Err(Error::InvalidJson));
}

#[test]
fn text_goes_round() {
    let texts = [
        "null",
        "true",
        "[1,2.5,-3,\"x\",[true,[false,[null]]],{\"a\":{\"b\":{\"c\":[]}}}]",
        "{\"a\":1,\"b\":[{\"c\":\"d\"},{\"e\":1e+300}],\"f\":\"\u{e9}\\n\"}",
        "\"\"",
        "[[[[[[[[[[0]]]]]]]]]]",
    ];
    for t in texts {
        let once = j(t);
        let shown = text(&once);
        assert_eq!(shown, t);
        assert_eq!(j(&shown), once);
        let pretty = RawJsonb::new(&once).to_pretty_string();
        assert_eq!(j(&pretty), once);
    }
}

#[test]
fn text_of_a_deep_value() {
    let depth = 300;
    let t = format!("{}{}", "[".repeat(depth), "]".repeat(depth));
    let v = j(&t);
    assert_eq!(text(&v), t);
    let mut key = Vec::new();
    jsonb::convert_to_comparable(&v, &mut key);
    assert_eq!(key.len(), 2 * depth);
    assert_eq!(key[2 * depth - 2], 255);
    assert_eq!(key[2 * 254], 254);
    assert_eq!(key[2 * 255], 255);
}

fn object(members: Vec<(&str, Value)>) -> Value {
    let mut ms = Vec::new();
    for (k, v) in members {
        insert_into(&mut ms, k.to_string(), v);
    }
    Value::Object(ms)
}

#[test]
fn values_as_trees() {
    let v = object(vec![
        ("b", Value::Array(vec![Value::Null, Value::Bool(true), Value::Number(Number::Int64(-1))])),
        ("a", Value::String("x".to_string())),
        ("b", Value::Number(Number::UInt64(2))),
        ("C", Value::Null),
    ]);
    match &v {
        Value::Object(ms) => {
            let keys: Vec<&str> = ms.iter().map(|m| m.key.as_str()).collect();
            assert_eq!(keys, vec!["C", "a", "b"]);
            assert_eq!(ms[2].value, Value::Number(Number::UInt64(2)));
        }
        _ => panic!("no object"),
    }
    assert_eq!(v.to_vec().unwrap(), j("{\"C\":null,\"a\":\"x\",\"b\":2}"));
    assert!(v.is_object());
    assert!(!v.is_scalar());
    assert!(!v.is_array());
    assert_eq!(v.as_object().map(|ms| ms.len()), Some(3));
    assert_eq!(v.type_of(), "object");
    assert_eq!(v.get_by_name("a", false), Some(&Value::String("x".to_string())));
    assert_eq!(v.get_by_name("c", false), None);
    assert_eq!(v.get_by_name("c", true), Some(&Value::Null));
    assert_eq!(v.get_by_name("A", true), Some(&Value::String("x".to_string())));
    assert_eq!(v.get_by_index(0), None);
    assert_eq!(v.array_length(), None);
    assert_eq!(
        v.object_keys(),
        Some(Value::Array(vec![
            Value::String("C".to_string()),
            Value::String("a".to_string()),
            Value::String("b".to_string()),
        ]))
    );
    assert!(v.eq_variant(&object(vec![])));
    assert!(!v.eq_variant(&Value::Null));

    let a = Value::Array(vec![Value::Number(Number::UInt64(1)), Value::String("s".to_string())]);
    assert!(a.is_array());
    assert_eq!(a.as_array().map(|x| x.len()), Some(2));
    assert_eq!(a.array_length(), Some(2));
    assert_eq!(a.get_by_index(1), Some(&Value::String("s".to_string())));
    assert_eq!(a.get_by_index(2), None);
    assert_eq!(a.get_by_name("s", true), None);
    assert_eq!(a.object_keys(), None);
    assert_eq!(a.as_object(), None);
    assert_eq!(a.type_of(), "array");
    assert_eq!(a.to_vec().unwrap(), j("[1,\"s\"]"));
    let mut buf = vec![5u8];
    a.write_to_vec(&mut buf).unwrap();
    assert_eq!(&buf[1..], &j("[1,\"s\"]")[..]);

    let nested = Value::Array(vec![object(vec![("k", Value::Array(vec![]))]), Value::Array(vec![a])]);
    assert_eq!(nested.to_vec().unwrap(), j("[{\"k\":[]},[[1,\"s\"]]]"));
}

#[test]
fn scalars_as_trees() {
    let n = Value::Number(Number::Int64(-3));
    assert!(n.is_scalar() && n.is_number() && n.is_i64() && !n.is_u64() && n.is_f64());
    assert_eq!(n.as_number(), Some(&Number::Int64(-3)));
    assert_eq!(n.as_i64(), Some(-3));
    assert_eq!(n.as_u64(), None);
    assert_eq!(n.to_i64(), Ok(-3));
    assert_eq!(n.to_u64(), Err(Error::InvalidCast));
    assert_eq!(n.to_bool(), Err(Error::InvalidCast));
    assert_eq!(n.to_str(), Ok("-3".to_string()));
    assert_eq!(n.type_of(), "number");
    assert_eq!(n.to_vec().unwrap(), j("-3"));
    let f = Value::Number(Number::Float64(0.5f64.to_bits()));
    assert_eq!(f.to_str(), Ok("0.5".to_string()));
    assert_eq!(f.to_i64(), Err(Error::InvalidCast));
    assert_eq!(f.to_vec().unwrap(), j("0.5"));

    let s = Value::String("TRUE".to_string());
    assert!(s.is_string() && s.is_scalar() && !s.is_number());
    assert_eq!(s.as_str(), Some(&"TRUE".to_string()));
    assert_eq!(s.to_bool(), Ok(true));
    assert_eq!(Value::String("false".to_string()).to_bool(), Ok(false));
    assert_eq!(Value::String("no".to_string()).to_bool(), Err(Error::InvalidCast));
    assert_eq!(Value::String("42".to_string()).to_i64(), Ok(42));
    assert_eq!(Value::String("42".to_string()).to_u64(), Ok(42));
    assert_eq!(Value::String("-42".to_string()).to_u64(), Err(Error::InvalidCast));
    assert_eq!(Value::String("4 2".to_string()).to_i64(), Err(Error::InvalidCast));
    assert_eq!(s.to_str(), Ok("TRUE".to_string()));
    assert_eq!(s.type_of(), "string");
    assert_eq!(s.to_vec().unwrap(), j("\"TRUE\""));

    let b = Value::Bool(true);
    assert!(b.is_boolean());
    assert_eq!(b.as_bool(), Some(true));
    assert_eq!(b.to_bool(), Ok(true));
    assert_eq!(b.to_i64(), Ok(1));
    assert_eq!(Value::Bool(false).to_u64(), Ok(0));
    assert_eq!(b.to_str(), Ok("true".to_string()));
    assert_eq!(Value::Bool(false).to_str(), Ok("false".to_string()));
    assert_eq!(b.type_of(), "boolean");
    assert_eq!(b.to_vec().unwrap(), j("true"));
    assert_eq!(Value::Bool(false).to_vec().unwrap(), j("false"));

    let n = Value::Null;
    assert!(n.is_null() && n.is_scalar());
    assert_eq!(n.as_null(), Some(()));
    assert_eq!(b.as_null(), None);
    assert_eq!(n.as_bool(), None);
    assert_eq!(n.as_str(), None);
    assert_eq!(n.as_number(), None);
    assert_eq!(n.as_array(), None);
    assert_eq!(n.to_str(), Err(Error::InvalidCast));
    assert_eq!(n.to_i64(), Err(Error::InvalidCast));
    assert_eq!(n.type_of(), "null");
    assert_eq!(n.to_vec().unwrap(), j("null"));
    assert_eq!(Value::default(), Value::Null);
    let m = Member { key: "k".to_string(), value: Value::Null };
    assert_eq!(m.key, "k");
}

fn check_scalar(v: &Value) {
    match v {
        Value::Null | Value::Bool(_) => {}
        Value::String(s) => {
            assert_eq!(s.len(), 5);
            assert!(s.bytes().all(|b| b.is_ascii_alphanumeric()));
        }
        Value::Number(Number::UInt64(n)) => assert!(*n <= 100000),
        Value::Number(Number::Int64(n)) => assert!((-100000..=100000).contains(n)),
        Value::Number(Number::Float64(bits)) => {
            let x = f64::from_bits(*bits);
            assert!((-4000.0..1.3e5).contains(&x));
        }
        _ => panic!("no scalar"),
    }
}

#[test]
fn values_made_by_chance() {
    let mut kinds = [false; 3];
    for _ in 0..500 {
        check_scalar(&rand_scalar_value());
        let v = rand_value();
        match &v {
            Value::Array(vs) => {
                kinds[0] = true;
                assert!(vs.len() <= 5);
                vs.iter().for_each(check_scalar);
            }
            Value::Object(ms) => {
                kinds[1] = true;
                assert!(ms.len() <= 5);
                for w in ms.windows(2) {
                    assert!(w[0].key < w[1].key);
                }
                ms.iter().for_each(|m| check_scalar(&m.value));
            }
            other => {
                kinds[2] = true;
                check_scalar(other);
            }
        }
        let bytes = v.to_vec().unwrap();
        let shown = RawJsonb::new(&bytes).to_string();
        assert_eq!(parse_value(shown.as_bytes()).map(|b| RawJsonb::new(&b).to_string()), Ok(shown));
        assert_eq!(jsonb::compare(&bytes, &bytes), Ok(std::cmp::Ordering::Equal));
        assert_eq!(RawJsonb::new(&bytes).contains(RawJsonb::new(&bytes)), Ok(true));
    }
    assert_eq!(kinds, [true, true, true]);
}

fn num(n: u64) -> Value {
    Value::Number(Number::UInt64(n))
}

fn sample_trees() -> Vec<Value> {
    vec![
        Value::Null,
        Value::Bool(true),
        num(1),
        Value::String("s".to_string()),
        Value::Array(vec![]),
        Value::Array(vec![num(1), Value::Null, Value::Array(vec![Value::Null, num(2)])]),
        object(vec![]),
        object(vec![("a", num(1)), ("b", Value::Null)]),
        object(vec![
            ("b", num(2)),
            ("c", object(vec![("d", Value::Null), ("e", Value::Array(vec![Value::Null]))])),
            ("n", Value::Null),
        ]),
    ]
}

#[test]
fn trees_are_copied() {
    for v in sample_trees() {
        assert_eq!(v.clone(), v);
        assert_eq!(copy_value(&v), v);
    }
}

#[test]
fn concatenating_trees_is_concatenating_their_binary_forms() {
    for l in sample_trees() {
        for r in sample_trees() {
            let (lb, rb) = (l.to_vec().unwrap(), r.to_vec().unwrap());
            let mut expected = Vec::new();
            RawJsonb::new(&lb).concat(RawJsonb::new(&rb), &mut expected).unwrap();
            let got = concat_values(l.clone(), r).to_vec().unwrap();
            assert_eq!(text(&got), text(&expected));
            assert_eq!(got, expected);
        }
    }
    let merged = concat_values(
        object(vec![("a", num(1)), ("b", num(2))]),
        object(vec![("b", num(3)), ("0", num(4))]),
    );
    assert_eq!(merged, object(vec![("0", num(4)), ("a", num(1)), ("b", num(3))]));
    assert_eq!(concat_values(num(1), num(2)), Value::Array(vec![num(1), num(2)]));
}

#[test]
fn stripping_trees_is_stripping_their_binary_forms() {
    for v in sample_trees() {
        let bytes = v.to_vec().unwrap();
        let mut expected = Vec::new();
        RawJsonb::new(&bytes).strip_nulls(&mut expected).unwrap();
        let got = strip_value_nulls(&v).to_vec().unwrap();
        assert_eq!(got, expected, "for {}", text(&bytes));
    }
    let v = object(vec![("a", Value::Null), ("b", Value::Array(vec![Value::Null]))]);
    assert_eq!(strip_value_nulls(&v), object(vec![("b", Value::Array(vec![Value::Null]))]));
}

#[test]
fn deleting_in_trees_is_deleting_in_their_binary_forms() {
    let paths: Vec<Vec<KeyPath>> = vec![
        vec![],
        vec![KeyPath::Index(0)],
        vec![KeyPath::Index(-1)],
        vec![KeyPath::Index(7)],
        vec![KeyPath::Index(2), KeyPath::Index(0)],
        vec![KeyPath::Index(2), KeyPath::Index(-1)],
        vec![KeyPath::Index(0), KeyPath::Index(0)],
        vec![KeyPath::Name("a")],
        vec![KeyPath::Name("zz")],
        vec![KeyPath::QuotedName("c"), KeyPath::Name("d")],
        vec![KeyPath::Name("c"), KeyPath::Name("e"), KeyPath::Index(0)],
        vec![KeyPath::Name("c"), KeyPath::Index(0)],
        vec![KeyPath::Name("b"), KeyPath::Name("x")],
    ];
    for v in sample_trees() {
        if v.is_scalar() {
            continue;
        }
        let bytes = v.to_vec().unwrap();
        for p in &paths {
            let got = delete_value_by_keypath(&v, p, 0).to_vec().unwrap();
            let absent = RawJsonb::new(&bytes).get_by_keypath(p).unwrap().is_none();
            if p.is_empty() || absent {
                assert_eq!(got, bytes);
            } else {
                let mut expected = Vec::new();
                RawJsonb::new(&bytes).delete_by_keypath(p, &mut expected).unwrap();
                assert_eq!(got, expected, "for {} and {:?}", text(&bytes), p);
            }
        }
    }
    let v = Value::Array(vec![num(1), Value::Array(vec![num(2), num(3)])]);
    assert_eq!(
        delete_value_by_keypath(&v, &[KeyPath::Index(1), KeyPath::Index(0)], 0),
        Value::Array(vec![num(1), Value::Array(vec![num(3)])])
    );
}

#[test]
fn failures_have_names() {
    let all = [
        (Error::InvalidJsonb, "invalid jsonb"),
        (Error::InvalidJsonbHeader, "invalid jsonb header"),
        (Error::InvalidJsonbJEntry, "invalid jsonb jentry"),
        (Error::InvalidEOF, "invalid eof"),
        (Error::InvalidJson, "invalid json"),
        (Error::InvalidJsonPath, "invalid json path"),
        (Error::InvalidJsonType, "invalid json type"),
        (Error::InvalidCast, "invalid cast"),
        (Error::InvalidNumber, "invalid number"),
        (Error::InvalidObject, "invalid object"),
        (Error::ObjectDuplicateKey, "object duplicate key"),
    ];
    for (e, name) in all {
        assert_eq!(e.message(), name);
    }
}

#[test]
fn draws_stand_for_kinds() {
    assert_eq!(scalar_kind(0), ScalarKind::Bool);
    assert_eq!(scalar_kind(1), ScalarKind::String);
    assert_eq!(scalar_kind(2), ScalarKind::Number);
    assert_eq!(scalar_kind(3), ScalarKind::Null);
    assert_eq!(scalar_kind(u64::MAX), ScalarKind::Null);
    assert_eq!(number_kind(0), NumberKind::UInt64);
    assert_eq!(number_kind(1), NumberKind::Int64);
    assert_eq!(number_kind(2), NumberKind::Float64);
    assert_eq!(number_kind(9), NumberKind::Float64);
    assert_eq!(value_kind(0), ValueKind::Array);
    assert_eq!(value_kind(1), ValueKind::Object);
    assert_eq!(value_kind(2), ValueKind::Scalar);
    assert_eq!(value_kind(7), ValueKind::Scalar);
}

#[test]
fn an_object_is_made_of_members_in_any_order() {
    let member = |k: &str, n: u64| Member { key: k.to_string(), value: num(n) };
    let v = object_from_members(vec![member("b", 1), member("a", 2), member("c", 3), member("b", 4)]);
    assert_eq!(v, Value::Object(vec![member("a", 2), member("b", 4), member("c", 3)]));
    assert_eq!(object_from_members(vec![]), Value::Object(vec![]));
    assert_eq!(v.to_vec().unwrap(), j("{\"a\":2,\"b\":4,\"c\":3}"));
}
