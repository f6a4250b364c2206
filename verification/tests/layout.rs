use jsonb::builder::{ArrayBuilder, ObjectBuilder};
use jsonb::bytes::{compare_bytes, eq_ignore_ascii_case, Order};
use jsonb::codec::{decode_header, read_u32, JEntry};
use jsonb::iterator::{
    as_element, extract_by_jentry, iterate_object_keys, iterate_array, iterate_object_entries, Item,
};
use jsonb::parser::parse_value;
use jsonb::{build_object, Error, RawJsonb};

fn j(text: &str) -> Vec<u8> {
    parse_value(text.as_bytes()).unwrap()
}

#[test]
fn words_are_big_endian() {
    let buf = [0x12u8, 0x34, 0x56, 0x78, 0x9A];
    assert_eq!(read_u32(&buf, 0), Ok(0x12345678));
    assert_eq!(read_u32(&buf, 1), Ok(0x3456789A));
    assert_eq!(read_u32(&buf, 2), Err(Error::InvalidEOF));
    assert_eq!(read_u32(&buf, usize::MAX), Err(Error::InvalidEOF));
    assert_eq!(decode_header(0x80000003), (0x80000000, 3));
    assert_eq!(decode_header(0x5FFFFFFF), (0x40000000, 0x1FFFFFFF));
    let e = JEntry::decode_jentry(0x10000005);
    assert_eq!(e, JEntry { type_code: 0x10000000, length: 5 });
    assert_eq!(e.encoded(), 0x10000005);
    assert_eq!(JEntry::make_container_jentry(7).encoded(), 0x50000007);
}

#[test]
fn the_wire_form_of_an_array() {
    let mut builder = ArrayBuilder::new(2);
    builder.push_raw(JEntry::make_string_jentry(2), b"hi");
    builder.push_raw(JEntry::make_true_jentry(), b"");
    builder.push_raw(JEntry::make_null_jentry(), b"");
    assert_eq!(builder.len(), 3);
    assert_eq!(builder.encoded_size(), 18);
    let mut buf = vec![0xEEu8];
    builder.build_into(&mut buf);
    assert_eq!(
        buf,
        vec![
            0xEE, 0x80, 0, 0, 3, 0x10, 0, 0, 2, 0x40, 0, 0, 0, 0x00, 0, 0, 0, b'h', b'i'
        ]
    );
    assert_eq!(&buf[1..], &j("[\"hi\",true,null]")[..]);
}

#[test]
fn the_wire_form_of_an_object_is_sorted_and_keeps_the_last() {
    let mut builder = ObjectBuilder::new();
    builder.push_raw(b"b", JEntry::make_true_jentry(), b"");
    builder.push_raw(b"a", JEntry::make_false_jentry(), b"");
    builder.push_raw(b"c", JEntry::make_null_jentry(), b"");
    builder.push_raw(b"b", JEntry::make_string_jentry(1), b"x");
    assert_eq!(builder.len(), 3);
    assert_eq!(builder.encoded_size(), 32);
    let mut buf = Vec::new();
    builder.build_into(&mut buf);
    assert_eq!(
        buf,
        vec![
            0x40, 0, 0, 3, 0x10, 0, 0, 1, 0x10, 0, 0, 1, 0x10, 0, 0, 1, 0x30, 0, 0, 0, 0x10, 0, 0,
            1, 0x00, 0, 0, 0, b'a', b'b', b'c', b'x'
        ]
    );
    assert_eq!(buf, j("{\"b\":true,\"a\":false,\"c\":null,\"b\":\"x\"}"));
}

#[test]
fn nested_builders_are_pushed_in_their_wire_form() {
    let mut inner = ArrayBuilder::new(1);
    inner.push_raw(JEntry::make_true_jentry(), b"");
    let mut obj = ObjectBuilder::new();
    obj.push_array(b"k", inner);
    let mut outer = ArrayBuilder::new(2);
    outer.push_object(obj);
    let mut inner2 = ArrayBuilder::new(0);
    inner2.push_raw(JEntry::make_null_jentry(), b"");
    outer.push_array(inner2);
    let mut nested_obj = ObjectBuilder::new();
    nested_obj.push_object(b"o", ObjectBuilder::new());
    outer.push_object(nested_obj);
    let bytes = outer.build().unwrap();
    assert_eq!(bytes, j("[{\"k\":[true]},[null],{\"o\":{}}]"));
}

#[test]
fn elements_and_members_are_read_back() {
    let value = j("[1,\"ab\",[true],{\"k\":null}]");
    let header = read_u32(&value, 0).unwrap();
    let items = iterate_array(&value, header).unwrap();
    assert_eq!(items.len(), 4);
    assert_eq!(items[1].jentry, JEntry { type_code: 0x10000000, length: 2 });
    assert_eq!(items[1].data, b"ab");
    assert_eq!(items[2].data, &j("[true]")[..]);
    assert_eq!(extract_by_jentry(&items[0]), j("1"));
    assert_eq!(extract_by_jentry(&items[3]), j("{\"k\":null}"));

    let value = j("{\"b\":1,\"a\":\"x\"}");
    let header = read_u32(&value, 0).unwrap();
    let entries = iterate_object_entries(&value, header).unwrap();
    assert_eq!(entries.len(), 2);
    assert_eq!(entries[0].key, b"a");
    assert_eq!(entries[0].data, b"x");
    assert_eq!(entries[1].key, b"b");
    let keys = iterate_object_keys(&value, header).unwrap();
    assert_eq!(keys, vec![&b"a"[..], &b"b"[..]]);
}

#[test]
fn a_container_that_is_cut_short_is_refused() {
    let value = j("[1,\"ab\",[true]]");
    for cut in 1..value.len() {
        let part = &value[..value.len() - cut];
        let r = RawJsonb::new(part).array_values();
        assert_eq!(r, Err(Error::InvalidEOF), "cut {}", cut);
    }
    let value = j("{\"a\":{\"b\":[1,2]}}");
    let header = read_u32(&value, 0).unwrap();
    let nested = iterate_object_entries(&value, header).unwrap()[0].data;
    assert_eq!(nested, &j("{\"b\":[1,2]}")[..]);
    let short = &nested[..nested.len() - 1];
    let h = read_u32(short, 0).unwrap();
    assert_eq!(iterate_object_entries(short, h).err(), Some(Error::InvalidEOF));
}

#[test]
fn jentry_words_that_are_not_accepted() {
    let offset_flag = [0x80u8, 0, 0, 1, 0x90, 0, 0, 0];
    assert_eq!(RawJsonb::new(&offset_flag).array_values(), Err(Error::InvalidJsonbJEntry));
    let unknown_type = [0x80u8, 0, 0, 1, 0x60, 0, 0, 0];
    assert_eq!(RawJsonb::new(&unknown_type).array_values(), Err(Error::InvalidJsonbJEntry));
    let key_not_string = [0x40u8, 0, 0, 1, 0x20, 0, 0, 1, 0x00, 0, 0, 0, 0x00];
    assert_eq!(RawJsonb::new(&key_not_string).object_each(), Err(Error::InvalidJsonbJEntry));
}

#[test]
fn a_value_as_an_element() {
    let s = j("\"ab\"");
    let e = as_element(&s).unwrap();
    assert_eq!(e.jentry, JEntry { type_code: 0x10000000, length: 2 });
    assert_eq!(e.data, b"ab");
    let a = j("[1]");
    let e = as_element(&a).unwrap();
    assert_eq!(e.jentry, JEntry { type_code: 0x50000000, length: a.len() as u32 });
    assert_eq!(e.data, &a[..]);
    assert_eq!(as_element(&[0x00, 0, 0, 0]).err(), Some(Error::InvalidJsonb));
    assert_eq!(as_element(&[0x20, 0, 0]).err(), Some(Error::InvalidEOF));
    let item = Item { jentry: JEntry::make_true_jentry(), data: b"" };
    assert_eq!(extract_by_jentry(&item), vec![0x20, 0, 0, 0, 0x40, 0, 0, 0]);
}

#[test]
fn byte_strings_are_ordered_and_compared() {
    assert_eq!(compare_bytes(b"", b""), Order::Equal);
    assert_eq!(compare_bytes(b"", b"a"), Order::Less);
    assert_eq!(compare_bytes(b"a", b""), Order::Greater);
    assert_eq!(compare_bytes(b"ab", b"abc"), Order::Less);
    assert_eq!(compare_bytes(b"abd", b"abc"), Order::Greater);
    assert_eq!(compare_bytes(b"\xff", b"a"), Order::Greater);
    assert!(eq_ignore_ascii_case(b"TrUe", b"true"));
    assert!(!eq_ignore_ascii_case(b"true", b"tru"));
    assert!(!eq_ignore_ascii_case(b"[", b"{"));
    assert!(!eq_ignore_ascii_case(b"@", b"`"));
}

#[test]
fn build_object_sorts_its_members() {
    let one = j("1");
    let arr = j("[true]");
    let mut buf = Vec::new();
    build_object(&[("b", &one[..]), ("a", &arr[..]), ("b", &arr[..])], &mut buf).unwrap();
    assert_eq!(buf, j("{\"a\":[true],\"b\":[true]}"));
    let mut buf = vec![1u8];
    let bad = [0x00u8, 0, 0, 0];
    assert_eq!(build_object(&[("a", &bad[..])], &mut buf), Err(Error::InvalidJsonbHeader));
    assert_eq!(buf, vec![1u8]);
    let mut buf = vec![1u8];
    assert_eq!(jsonb::build_array(&[&one[..], &bad[..]], &mut buf), Err(Error::InvalidJsonbHeader));
    assert_eq!(buf, vec![1u8]);
    assert_eq!(jsonb::build_array(&[&one[..1]], &mut buf), Err(Error::InvalidEOF));
}
