use std::cmp::Ordering;

use jsonb::parser::parse_value;
use jsonb::{build_array, compare, Error, RawJsonb};

fn j(text: &str) -> Vec<u8> {
    parse_value(text.as_bytes()).unwrap()
}

fn text(value: &[u8]) -> String {
    RawJsonb::new(value).to_string()
}

#[test]
fn build_array_has_length_and_type() {
    let one = j("1");
    let x = j("\"x\"");
    let t = j("true");
    let mut buf = Vec::new();
    build_array(&[&one[..], &x[..], &t[..]], &mut buf).unwrap();
    let raw = RawJsonb::new(&buf);
    assert_eq!(raw.array_length().unwrap(), Some(3));
    assert_eq!(raw.type_of().unwrap(), "array");
    assert_eq!(text(&buf), "[1,\"x\",true]");
    assert_eq!(buf, j("[1, \"x\", true]"));
}

#[test]
fn get_by_name_prefers_the_exact_key() {
    let both = j("{\"Foo\":1,\"foo\":2}");
    let got = RawJsonb::new(&both).get_by_name("foo", true).unwrap().unwrap();
    assert_eq!(got, j("2"));
    let one = j("{\"Foo\":1}");
    let got = RawJsonb::new(&one).get_by_name("foo", true).unwrap().unwrap();
    assert_eq!(got, j("1"));
    assert_eq!(RawJsonb::new(&one).get_by_name("foo", false).unwrap(), None);
    assert_eq!(RawJsonb::new(&j("[1]")).get_by_name("foo", true).unwrap(), None);
}

#[test]
fn compare_follows_the_levels() {
    assert_eq!(compare(&j("null"), &j("[]")).unwrap(), Ordering::Greater);
    assert_eq!(compare(&j("[1,2]"), &j("[1,2,3]")).unwrap(), Ordering::Less);
    assert_eq!(compare(&j("{\"a\":1}"), &j("{\"a\":2}")).unwrap(), Ordering::Less);
    assert_eq!(compare(&j("\"10\""), &j("10")).unwrap(), Ordering::Greater);
    assert_eq!(compare(&j("[]"), &j("{}")).unwrap(), Ordering::Greater);
    assert_eq!(compare(&j("true"), &j("false")).unwrap(), Ordering::Greater);
    assert_eq!(compare(&j("1"), &j("true")).unwrap(), Ordering::Greater);
    assert_eq!(compare(&j("{\"a\":1}"), &j("{\"b\":0}")).unwrap(), Ordering::Less);
    assert_eq!(compare(&j("[[1],0]"), &j("[[1,2]]")).unwrap(), Ordering::Less);
    assert_eq!(compare(&j("-1"), &j("1")).unwrap(), Ordering::Less);
    assert_eq!(compare(&j("1.5"), &j("1")).unwrap(), Ordering::Greater);
    assert_eq!(compare(&j("2"), &j("2.0")).unwrap(), Ordering::Equal);
    assert_eq!(compare(&j("\"ab\""), &j("\"b\"")).unwrap(), Ordering::Less);
}

#[test]
fn compare_reads_text_on_either_side() {
    assert_eq!(compare(b"[1,2]", &j("[1,2,3]")).unwrap(), Ordering::Less);
    assert_eq!(compare(&j("[1,2,3]"), b"[1, 2] ").unwrap(), Ordering::Greater);
    assert_eq!(compare(b"1", b"2").unwrap(), Ordering::Less);
    assert_eq!(compare(b"not json", b"1").unwrap(), Ordering::Less);
    assert_eq!(compare(b"1", b"not json").unwrap(), Ordering::Greater);
    assert_eq!(compare(b"abc", b"abd").unwrap(), Ordering::Less);
    assert_eq!(compare(&j("1"), b"x").unwrap(), Ordering::Greater);
    assert_eq!(compare(b"x", &j("1")).unwrap(), Ordering::Less);
}

#[test]
fn compare_rejects_a_bad_header() {
    let bad = [0x80u8, 0x00];
    assert_eq!(compare(&bad, &j("1")), Err(Error::InvalidEOF));
    let tag = [0x20u8, 0x00, 0x00, 0x00, 0x70, 0x00, 0x00, 0x00];
    assert_eq!(compare(&tag, &j("1")), Err(Error::InvalidJsonbJEntry));
}

#[test]
fn strip_nulls_drops_null_members_only() {
    let value = j("{\"a\":null,\"b\":[null,{\"c\":null,\"d\":1}]}");
    let mut buf = Vec::new();
    RawJsonb::new(&value).strip_nulls(&mut buf).unwrap();
    assert_eq!(buf, j("{\"b\":[null,{\"d\":1}]}"));
    assert_eq!(text(&buf), "{\"b\":[null,{\"d\":1}]}");
    let mut buf = Vec::new();
    RawJsonb::new(&j("null")).strip_nulls(&mut buf).unwrap();
    assert_eq!(buf, j("null"));
    let mut buf = Vec::new();
    jsonb::strip_nulls(b"{\"a\":null,\"b\":1}", &mut buf).unwrap();
    assert_eq!(buf, j("{\"b\":1}"));
}

#[test]
fn array_except_is_multiset_aware() {
    let mut buf = Vec::new();
    RawJsonb::new(&j("[1,1,2,3]")).array_except(RawJsonb::new(&j("[1,3]")), &mut buf).unwrap();
    assert_eq!(buf, j("[1,2]"));
}

#[test]
fn array_intersection_is_multiset_aware() {
    let mut buf = Vec::new();
    RawJsonb::new(&j("[1,1,2,3]"))
        .array_intersection(RawJsonb::new(&j("[1,3,3]")), &mut buf)
        .unwrap();
    assert_eq!(buf, j("[1,3]"));
    let mut buf = Vec::new();
    RawJsonb::new(&j("[1,1,1]")).array_intersection(RawJsonb::new(&j("[1,1]")), &mut buf).unwrap();
    assert_eq!(buf, j("[1,1]"));
    let mut buf = Vec::new();
    RawJsonb::new(&j("5")).array_intersection(RawJsonb::new(&j("[4,5]")), &mut buf).unwrap();
    assert_eq!(buf, j("[5]"));
}
