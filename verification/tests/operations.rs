use jsonb::bytes::Order;
use jsonb::comparable::value_convert_to_comparable;
use jsonb::keypath::KeyPath;
use jsonb::order::compare_values;
use jsonb::parser::parse_value;
use jsonb::text::PrettyOpts;
use jsonb::{compare, convert_to_comparable, Error, Number, RawJsonb};

fn j(text: &str) -> Vec<u8> {
    parse_value(text.as_bytes()).unwrap()
}

fn text(value: &[u8]) -> String {
    RawJsonb::new(value).to_string()
}

fn with_buf(f: impl Fn(&mut Vec<u8>) -> Result<(), Error>) -> Result<String, Error> {
    let mut buf = vec![0xAAu8, 0xBB];
    match f(&mut buf) {
        Ok(()) => {
            assert_eq!(&buf[..2], &[0xAA, 0xBB]);
            Ok(text(&buf[2..]))
        }
        Err(e) => {
            assert_eq!(buf, vec![0xAA, 0xBB]);
            Err(e)
        }
    }
}

#[test]
fn kinds_and_scalars() {
    let raw = |v: &Vec<u8>| -> (String, bool, bool) {
        let r = RawJsonb::new(v);
        (r.type_of().unwrap().to_string(), r.is_array().unwrap(), r.is_object().unwrap())
    };
    assert_eq!(raw(&j("null")), ("null".to_string(), false, false));
    assert_eq!(raw(&j("true")), ("boolean".to_string(), false, false));
    assert_eq!(raw(&j("false")), ("boolean".to_string(), false, false));
    assert_eq!(raw(&j("1.5")), ("number".to_string(), false, false));
    assert_eq!(raw(&j("\"s\"")), ("string".to_string(), false, false));
    assert_eq!(raw(&j("[]")), ("array".to_string(), true, false));
    assert_eq!(raw(&j("{}")), ("object".to_string(), false, true));

    let n = j("null");
    let r = RawJsonb::new(&n);
    assert_eq!(r.len(), 8);
    assert_eq!(r.is_null(), Ok(true));
    assert_eq!(r.as_null(), Ok(Some(())));
    assert_eq!(r.as_bool(), Ok(None));
    assert_eq!(r.is_number(), Ok(false));
    assert_eq!(r.array_length(), Ok(None));

    let t = j("true");
    let r = RawJsonb::new(&t);
    assert_eq!(r.is_boolean(), Ok(true));
    assert_eq!(r.as_bool(), Ok(Some(true)));
    assert_eq!(RawJsonb::new(&j("false")).as_bool(), Ok(Some(false)));
    assert_eq!(r.is_null(), Ok(false));

    let v = j("-7");
    let r = RawJsonb::new(&v);
    assert_eq!(r.as_number(), Ok(Some(Number::Int64(-7))));
    assert_eq!(r.is_i64(), Ok(true));
    assert_eq!(r.as_i64(), Ok(Some(-7)));
    assert_eq!(r.is_u64(), Ok(false));
    assert_eq!(r.as_u64(), Ok(None));
    assert_eq!(r.is_f64(), Ok(true));
    assert_eq!(RawJsonb::new(&j("7")).as_number(), Ok(Some(Number::UInt64(7))));
    assert_eq!(RawJsonb::new(&j("0")).as_number(), Ok(Some(Number::UInt64(0))));
    assert_eq!(
        RawJsonb::new(&j("18446744073709551616")).as_number(),
        Ok(Some(Number::Float64(18446744073709551616f64.to_bits())))
    );
    assert_eq!(
        RawJsonb::new(&j("-1e2")).as_number(),
        Ok(Some(Number::Float64((-100f64).to_bits())))
    );

    let s = j("\"h\u{e9}\"");
    let r = RawJsonb::new(&s);
    assert_eq!(r.is_string(), Ok(true));
    assert_eq!(r.as_str(), Ok(Some("h\u{e9}".to_string())));
    assert_eq!(r.as_str_bytes(), Ok(Some("h\u{e9}".as_bytes())));
    assert_eq!(RawJsonb::new(&j("[1]")).as_str(), Ok(None));
    assert_eq!(RawJsonb::new(&j("[1]")).is_f64(), Ok(false));

    let bad = [0x00u8, 0, 0, 0];
    assert_eq!(RawJsonb::new(&bad).type_of(), Err(Error::InvalidJsonbHeader));
    assert_eq!(RawJsonb::new(&bad).is_array(), Err(Error::InvalidJsonb));
    assert_eq!(RawJsonb::new(&bad).as_null(), Err(Error::InvalidJsonb));
    assert_eq!(RawJsonb::new(&bad[..3]).is_object(), Err(Error::InvalidEOF));
    let bad_number = [0x20u8, 0, 0, 0, 0x20, 0, 0, 1, 0x70];
    assert_eq!(RawJsonb::new(&bad_number).as_number(), Err(Error::InvalidNumber));
    assert_eq!(RawJsonb::new(&bad_number).to_i64(), Err(Error::InvalidNumber));
}

#[test]
fn casts() {
    let c = |t: &str| j(t);
    assert_eq!(RawJsonb::new(&c("true")).to_bool(), Ok(true));
    assert_eq!(RawJsonb::new(&c("\"TRUE\"")).to_bool(), Ok(true));
    assert_eq!(RawJsonb::new(&c("\"False\"")).to_bool(), Ok(false));
    assert_eq!(RawJsonb::new(&c("\"yes\"")).to_bool(), Err(Error::InvalidCast));
    assert_eq!(RawJsonb::new(&c("1")).to_bool(), Err(Error::InvalidCast));
    assert_eq!(RawJsonb::new(&c("[]")).to_bool(), Err(Error::InvalidCast));

    assert_eq!(RawJsonb::new(&c("-5")).to_i64(), Ok(-5));
    assert_eq!(RawJsonb::new(&c("true")).to_i64(), Ok(1));
    assert_eq!(RawJsonb::new(&c("false")).to_i64(), Ok(0));
    assert_eq!(RawJsonb::new(&c("\"-12\"")).to_i64(), Ok(-12));
    assert_eq!(RawJsonb::new(&c("\"1.5\"")).to_i64(), Err(Error::InvalidCast));
    assert_eq!(RawJsonb::new(&c("1.5")).to_i64(), Err(Error::InvalidCast));
    assert_eq!(RawJsonb::new(&c("null")).to_i64(), Err(Error::InvalidCast));
    assert_eq!(RawJsonb::new(&c("18446744073709551615")).to_i64(), Err(Error::InvalidCast));

    assert_eq!(RawJsonb::new(&c("5")).to_u64(), Ok(5));
    assert_eq!(RawJsonb::new(&c("-5")).to_u64(), Err(Error::InvalidCast));
    assert_eq!(RawJsonb::new(&c("true")).to_u64(), Ok(1));
    assert_eq!(RawJsonb::new(&c("\"12\"")).to_u64(), Ok(12));
    assert_eq!(RawJsonb::new(&c("\"-12\"")).to_u64(), Err(Error::InvalidCast));
    assert_eq!(RawJsonb::new(&c("{}")).to_u64(), Err(Error::InvalidCast));

    assert_eq!(RawJsonb::new(&c("\"ab\"")).to_str(), Ok("ab".to_string()));
    assert_eq!(RawJsonb::new(&c("true")).to_str(), Ok("true".to_string()));
    assert_eq!(RawJsonb::new(&c("false")).to_str(), Ok("false".to_string()));
    assert_eq!(RawJsonb::new(&c("-12")).to_str(), Ok("-12".to_string()));
    assert_eq!(RawJsonb::new(&c("0.5")).to_str(), Ok("0.5".to_string()));
    assert_eq!(RawJsonb::new(&c("null")).to_str(), Err(Error::InvalidCast));
    assert_eq!(RawJsonb::new(&c("[1]")).to_str(), Err(Error::InvalidCast));
}

#[test]
fn elements_and_members() {
    let a = j("[1,\"x\",[2],{\"k\":3}]");
    let r = RawJsonb::new(&a);
    assert_eq!(r.array_length(), Ok(Some(4)));
    assert_eq!(r.get_by_index(0), Ok(Some(j("1"))));
    assert_eq!(r.get_by_index(2), Ok(Some(j("[2]"))));
    assert_eq!(r.get_by_index(4), Ok(None));
    assert_eq!(r.get_by_name("k", false), Ok(None));
    assert_eq!(r.array_values(), Ok(Some(vec![j("1"), j("\"x\""), j("[2]"), j("{\"k\":3}")])));
    assert_eq!(r.object_keys(), Ok(None));
    assert_eq!(r.object_each(), Ok(None));

    let o = j("{\"b\":1,\"a\":[true],\"C\":null}");
    let r = RawJsonb::new(&o);
    assert_eq!(r.get_by_index(0), Ok(None));
    assert_eq!(r.array_values(), Ok(None));
    assert_eq!(r.get_by_name("a", false), Ok(Some(j("[true]"))));
    assert_eq!(r.get_by_name("c", false), Ok(None));
    assert_eq!(r.get_by_name("c", true), Ok(Some(j("null"))));
    assert_eq!(r.get_by_name("B", true), Ok(Some(j("1"))));
    assert_eq!(r.object_keys(), Ok(Some(j("[\"C\",\"a\",\"b\"]"))));
    assert_eq!(
        r.object_each(),
        Ok(Some(vec![
            (b"C".to_vec(), j("null")),
            (b"a".to_vec(), j("[true]")),
            (b"b".to_vec(), j("1")),
        ]))
    );
    assert_eq!(RawJsonb::new(&j("5")).object_keys(), Ok(None));
    let bad = [0x00u8, 0, 0, 0];
    assert_eq!(RawJsonb::new(&bad).get_by_index(0), Err(Error::InvalidJsonb));
    assert_eq!(RawJsonb::new(&bad).get_by_name("a", false), Err(Error::InvalidJsonb));
    assert_eq!(RawJsonb::new(&bad).object_keys(), Err(Error::InvalidJsonb));
    assert_eq!(RawJsonb::new(&bad).object_each(), Err(Error::InvalidJsonb));
    assert_eq!(RawJsonb::new(&bad).array_values(), Err(Error::InvalidJsonb));
    assert_eq!(RawJsonb::new(&bad).array_length(), Err(Error::InvalidJsonb));
}

#[test]
fn key_existence() {
    let o = j("{\"a\":1,\"b\":2}");
    let r = RawJsonb::new(&o);
    assert_eq!(r.exists_all_keys(&[b"a", b"b"]), Ok(true));
    assert_eq!(r.exists_all_keys(&[b"a", b"c"]), Ok(false));
    assert_eq!(r.exists_all_keys(&[]), Ok(true));
    assert_eq!(r.exists_all_keys(&[b"a", b"\xff"]), Ok(false));
    assert_eq!(r.exists_any_keys(&[b"x", b"b"]), Ok(true));
    assert_eq!(r.exists_any_keys(&[b"x", b"y"]), Ok(false));
    assert_eq!(r.exists_any_keys(&[]), Ok(false));
    assert_eq!(r.exists_any_keys(&[b"\xff", b"a"]), Ok(true));
    let a = j("[\"a\",1,\"b\"]");
    let r = RawJsonb::new(&a);
    assert_eq!(r.exists_all_keys(&[b"a", b"b"]), Ok(true));
    assert_eq!(r.exists_all_keys(&[b"1"]), Ok(false));
    assert_eq!(r.exists_any_keys(&[b"1", b"b"]), Ok(true));
    let s = j("\"a\"");
    assert_eq!(RawJsonb::new(&s).exists_all_keys(&[b"a"]), Ok(false));
    assert_eq!(RawJsonb::new(&s).exists_any_keys(&[b"a"]), Ok(false));
    let bad = [0x00u8, 0, 0, 0];
    assert_eq!(RawJsonb::new(&bad).exists_any_keys(&[b"a"]), Err(Error::InvalidJsonb));
    assert_eq!(RawJsonb::new(&bad).exists_all_keys(&[b"a"]), Err(Error::InvalidJsonb));
    assert_eq!(RawJsonb::exists_key(&a, 0x80000003, b"b"), Ok(true));
}

#[test]
fn concat_of_values() {
    let c = |l: &str, r: &str| {
        let (l, r) = (j(l), j(r));
        with_buf(|buf| RawJsonb::new(&l).concat(RawJsonb::new(&r), buf))
    };
    assert_eq!(c("{\"a\":1,\"b\":2}", "{\"b\":3,\"c\":4}").unwrap(), "{\"a\":1,\"b\":3,\"c\":4}");
    assert_eq!(c("[1,2]", "[3]").unwrap(), "[1,2,3]");
    assert_eq!(c("1", "[2,3]").unwrap(), "[1,2,3]");
    assert_eq!(c("{\"a\":1}", "[2]").unwrap(), "[{\"a\":1},2]");
    assert_eq!(c("[1]", "\"x\"").unwrap(), "[1,\"x\"]");
    assert_eq!(c("[1]", "{\"a\":1}").unwrap(), "[1,{\"a\":1}]");
    assert_eq!(c("1", "2").unwrap(), "[1,2]");
    assert_eq!(c("{\"a\":1}", "null").unwrap(), "[{\"a\":1},null]");
    assert_eq!(c("null", "{\"a\":1}").unwrap(), "[null,{\"a\":1}]");
    let bad = [0x00u8, 0, 0, 0];
    let one = j("1");
    assert_eq!(
        with_buf(|buf| RawJsonb::new(&bad).concat(RawJsonb::new(&one), buf)),
        Err(Error::InvalidJsonb)
    );
    assert_eq!(
        with_buf(|buf| RawJsonb::new(&one).concat(RawJsonb::new(&bad[..2]), buf)),
        Err(Error::InvalidEOF)
    );
    assert_eq!(with_buf(|buf| jsonb::concat(b"[1]", b"[2]", buf)).unwrap(), "[1,2]");
    assert_eq!(with_buf(|buf| jsonb::concat(&one, b"[2]", buf)).unwrap(), "[1,2]");
    assert_eq!(with_buf(|buf| jsonb::concat(b"[1", b"[2]", buf)), Err(Error::InvalidJson));
}

#[test]
fn array_operations() {
    let ins = |v: &str, pos: i32, n: &str| {
        let (v, n) = (j(v), j(n));
        with_buf(|buf| RawJsonb::new(&v).array_insert(pos, RawJsonb::new(&n), buf)).unwrap()
    };
    assert_eq!(ins("[1,2,3]", 0, "9"), "[9,1,2,3]");
    assert_eq!(ins("[1,2,3]", 1, "9"), "[1,9,2,3]");
    assert_eq!(ins("[1,2,3]", 3, "9"), "[1,2,3,9]");
    assert_eq!(ins("[1,2,3]", 10, "9"), "[1,2,3,9]");
    assert_eq!(ins("[1,2,3]", -1, "9"), "[1,2,9,3]");
    assert_eq!(ins("[1,2,3]", -3, "9"), "[9,1,2,3]");
    assert_eq!(ins("[1,2,3]", -10, "9"), "[9,1,2,3]");
    assert_eq!(ins("[1,2,3]", i32::MIN, "[9]"), "[[9],1,2,3]");
    assert_eq!(ins("[1,2,3]", i32::MAX, "{\"a\":1}"), "[1,2,3,{\"a\":1}]");
    assert_eq!(ins("[]", 0, "9"), "[9]");
    assert_eq!(ins("5", 0, "9"), "[9,5]");
    assert_eq!(ins("5", 1, "9"), "[5,9]");
    assert_eq!(ins("{\"a\":1}", -1, "9"), "[9,{\"a\":1}]");

    let one = |f: &dyn Fn(&RawJsonb, &mut Vec<u8>) -> Result<(), Error>, v: &str| {
        let v = j(v);
        with_buf(|buf| f(&RawJsonb::new(&v), buf)).unwrap()
    };
    let distinct = |r: &RawJsonb, buf: &mut Vec<u8>| r.array_distinct(buf);
    assert_eq!(one(&distinct, "[1,2,1,\"1\",[1],[1],2,null,null]"), "[1,2,\"1\",[1],null]");
    assert_eq!(one(&distinct, "[]"), "[]");
    assert_eq!(one(&distinct, "7"), "[7]");
    assert_eq!(one(&distinct, "{\"a\":1}"), "[{\"a\":1}]");

    let two = |f: &dyn Fn(&RawJsonb, RawJsonb, &mut Vec<u8>) -> Result<(), Error>, l: &str, r: &str| {
        let (l, r) = (j(l), j(r));
        with_buf(|buf| f(&RawJsonb::new(&l), RawJsonb::new(&r), buf)).unwrap()
    };
    let inter = |a: &RawJsonb, b: RawJsonb, buf: &mut Vec<u8>| a.array_intersection(b, buf);
    let except = |a: &RawJsonb, b: RawJsonb, buf: &mut Vec<u8>| a.array_except(b, buf);
    assert_eq!(two(&inter, "[1,2,3,2]", "[2,4,2,2]"), "[2,2]");
    assert_eq!(two(&inter, "[1,2]", "[3]"), "[]");
    assert_eq!(two(&inter, "[[1],{\"a\":1}]", "[{\"a\":1}]"), "[{\"a\":1}]");
    assert_eq!(two(&inter, "{\"a\":1}", "[{\"a\":1}]"), "[{\"a\":1}]");
    assert_eq!(two(&inter, "1", "2"), "[]");
    assert_eq!(two(&inter, "[1,\"1\"]", "\"1\""), "[\"1\"]");
    assert_eq!(two(&except, "[1,2,3,2]", "[2,4]"), "[1,3,2]");
    assert_eq!(two(&except, "[1,2]", "[1,2,3]"), "[]");
    assert_eq!(two(&except, "1", "[1]"), "[]");
    assert_eq!(two(&except, "1", "[2]"), "[1]");
    assert_eq!(two(&except, "[1,1,1]", "1"), "[1,1]");

    let overlap = |l: &str, r: &str| RawJsonb::new(&j(l)).array_overlap(RawJsonb::new(&j(r)));
    assert_eq!(overlap("[1,2]", "[2,3]"), Ok(true));
    assert_eq!(overlap("[1,2]", "[3,4]"), Ok(false));
    assert_eq!(overlap("[]", "[]"), Ok(false));
    assert_eq!(overlap("1", "[1]"), Ok(true));
    assert_eq!(overlap("[[1]]", "[1]"), Ok(false));
    assert_eq!(overlap("{\"a\":1}", "[{\"a\":1}]"), Ok(true));
    let bad = [0x00u8, 0, 0, 0];
    assert_eq!(RawJsonb::new(&bad).array_overlap(RawJsonb::new(&j("1"))), Err(Error::InvalidJsonb));
    assert_eq!(with_buf(|buf| RawJsonb::new(&bad).array_distinct(buf)), Err(Error::InvalidJsonb));
}

#[test]
fn deletions() {
    let by_name = |v: &str, name: &str| {
        let v = j(v);
        with_buf(|buf| RawJsonb::new(&v).delete_by_name(name, buf))
    };
    assert_eq!(by_name("{\"a\":1,\"b\":2}", "a").unwrap(), "{\"b\":2}");
    assert_eq!(by_name("{\"a\":1,\"b\":2}", "c").unwrap(), "{\"a\":1,\"b\":2}");
    assert_eq!(by_name("[\"a\",1,\"b\",\"a\"]", "a").unwrap(), "[1,\"b\"]");
    assert_eq!(by_name("\"a\"", "a"), Err(Error::InvalidJsonType));
    let by_index = |v: &str, i: i32| {
        let v = j(v);
        with_buf(|buf| RawJsonb::new(&v).delete_by_index(i, buf))
    };
    assert_eq!(by_index("[1,2,3]", 0).unwrap(), "[2,3]");
    assert_eq!(by_index("[1,2,3]", 2).unwrap(), "[1,2]");
    assert_eq!(by_index("[1,2,3]", 3).unwrap(), "[1,2,3]");
    assert_eq!(by_index("[1,2,3]", -1).unwrap(), "[1,2]");
    assert_eq!(by_index("[1,2,3]", -3).unwrap(), "[2,3]");
    assert_eq!(by_index("[1,2,3]", -4).unwrap(), "[1,2,3]");
    assert_eq!(by_index("[1,2,3]", i32::MIN).unwrap(), "[1,2,3]");
    assert_eq!(by_index("{\"a\":1}", 0), Err(Error::InvalidJsonType));
    assert_eq!(by_index("1", 0), Err(Error::InvalidJsonType));
    let bad = [0x00u8, 0, 0, 0];
    assert_eq!(with_buf(|buf| RawJsonb::new(&bad).delete_by_index(0, buf)), Err(Error::InvalidJsonb));
    assert_eq!(with_buf(|buf| RawJsonb::new(&bad).delete_by_name("a", buf)), Err(Error::InvalidJsonb));
}

#[test]
fn object_operations() {
    let insert = |v: &str, k: &str, n: &str, update: bool| {
        let (v, n) = (j(v), j(n));
        with_buf(|buf| RawJsonb::new(&v).object_insert(k, RawJsonb::new(&n), update, buf))
    };
    assert_eq!(insert("{\"a\":1,\"c\":3}", "b", "2", false).unwrap(), "{\"a\":1,\"b\":2,\"c\":3}");
    assert_eq!(insert("{\"a\":1,\"c\":3}", "0", "[2]", false).unwrap(), "{\"0\":[2],\"a\":1,\"c\":3}");
    assert_eq!(insert("{\"a\":1,\"c\":3}", "d", "{}", false).unwrap(), "{\"a\":1,\"c\":3,\"d\":{}}");
    assert_eq!(insert("{}", "d", "null", false).unwrap(), "{\"d\":null}");
    assert_eq!(insert("{\"a\":1,\"c\":3}", "c", "9", false), Err(Error::ObjectDuplicateKey));
    assert_eq!(insert("{\"a\":1,\"c\":3}", "c", "9", true).unwrap(), "{\"a\":1,\"c\":9}");
    assert_eq!(insert("[1]", "c", "9", true), Err(Error::InvalidObject));
    assert_eq!(insert("1", "c", "9", true), Err(Error::InvalidObject));
    let bad = [0x00u8, 0, 0, 0];
    let obj = j("{}");
    assert_eq!(
        with_buf(|buf| RawJsonb::new(&obj).object_insert("a", RawJsonb::new(&bad), false, buf)),
        Err(Error::InvalidJsonb)
    );
    assert_eq!(
        with_buf(|buf| RawJsonb::new(&bad).object_insert("a", RawJsonb::new(&obj), false, buf)),
        Err(Error::InvalidJsonb)
    );

    let del = |v: &str, keys: &[&str]| {
        let v = j(v);
        with_buf(|buf| RawJsonb::new(&v).object_delete(keys, buf))
    };
    let pick = |v: &str, keys: &[&str]| {
        let v = j(v);
        with_buf(|buf| RawJsonb::new(&v).object_pick(keys, buf))
    };
    assert_eq!(del("{\"a\":1,\"b\":2,\"c\":3}", &["a", "c", "x"]).unwrap(), "{\"b\":2}");
    assert_eq!(del("{\"a\":1}", &[]).unwrap(), "{\"a\":1}");
    assert_eq!(del("[1]", &["a"]), Err(Error::InvalidObject));
    assert_eq!(pick("{\"a\":1,\"b\":2,\"c\":3}", &["a", "c", "x"]).unwrap(), "{\"a\":1,\"c\":3}");
    assert_eq!(pick("{\"a\":1}", &[]).unwrap(), "{}");
    assert_eq!(pick("1", &["a"]), Err(Error::InvalidObject));
    assert_eq!(with_buf(|buf| RawJsonb::new(&bad).object_pick(&["a"], buf)), Err(Error::InvalidJsonb));
}

#[test]
fn key_paths() {
    let v = j("{\"a\":[1,{\"b\":[true,null]},3],\"c\":\"x\"}");
    let r = RawJsonb::new(&v);
    let get = |p: &[KeyPath]| r.get_by_keypath(p).unwrap().map(|b| text(&b));
    assert_eq!(get(&[]), Some(text(&v)));
    assert_eq!(get(&[KeyPath::Name("c")]), Some("\"x\"".to_string()));
    assert_eq!(get(&[KeyPath::QuotedName("a"), KeyPath::Index(0)]), Some("1".to_string()));
    assert_eq!(get(&[KeyPath::Name("a"), KeyPath::Index(-1)]), Some("3".to_string()));
    assert_eq!(get(&[KeyPath::Name("a"), KeyPath::Index(-3)]), Some("1".to_string()));
    assert_eq!(get(&[KeyPath::Name("a"), KeyPath::Index(-4)]), None);
    assert_eq!(get(&[KeyPath::Name("a"), KeyPath::Index(3)]), None);
    assert_eq!(
        get(&[KeyPath::Name("a"), KeyPath::Index(1), KeyPath::Name("b"), KeyPath::Index(1)]),
        Some("null".to_string())
    );
    assert_eq!(get(&[KeyPath::Name("a"), KeyPath::Index(1)]), Some("{\"b\":[true,null]}".to_string()));
    assert_eq!(get(&[KeyPath::Name("c"), KeyPath::Index(0)]), None);
    assert_eq!(get(&[KeyPath::Index(0)]), None);
    assert_eq!(get(&[KeyPath::Name("a"), KeyPath::Name("b")]), None);
    assert_eq!(get(&[KeyPath::Name("zz")]), None);
    assert_eq!(RawJsonb::new(&j("5")).get_by_keypath(&[KeyPath::Index(0)]), Ok(None));

    let del = |p: &[KeyPath]| with_buf(|buf| r.delete_by_keypath(p, buf));
    assert_eq!(del(&[KeyPath::Name("c")]).unwrap(), "{\"a\":[1,{\"b\":[true,null]},3]}");
    assert_eq!(del(&[KeyPath::Name("zz")]).unwrap(), text(&v));
    assert_eq!(del(&[]).unwrap(), text(&v));
    assert_eq!(del(&[KeyPath::Index(0)]).unwrap(), text(&v));
    assert_eq!(
        del(&[KeyPath::Name("a"), KeyPath::Index(0)]).unwrap(),
        "{\"a\":[{\"b\":[true,null]},3],\"c\":\"x\"}"
    );
    assert_eq!(
        del(&[KeyPath::Name("a"), KeyPath::Index(-2), KeyPath::Name("b"), KeyPath::Index(0)]).unwrap(),
        "{\"a\":[1,{\"b\":[null]},3],\"c\":\"x\"}"
    );
    assert_eq!(
        del(&[KeyPath::Name("a"), KeyPath::Index(1), KeyPath::Name("b")]).unwrap(),
        "{\"a\":[1,{},3],\"c\":\"x\"}"
    );
    assert_eq!(del(&[KeyPath::Name("a"), KeyPath::Index(5)]).unwrap(), text(&v));
    assert_eq!(del(&[KeyPath::Name("c"), KeyPath::Index(0)]).unwrap(), text(&v));
    assert_eq!(del(&[KeyPath::Name("a"), KeyPath::Index(0), KeyPath::Index(0)]).unwrap(), text(&v));
    let s = j("1");
    assert_eq!(
        with_buf(|buf| RawJsonb::new(&s).delete_by_keypath(&[KeyPath::Index(0)], buf)),
        Err(Error::InvalidJsonType)
    );
    assert_eq!(
        with_buf(|buf| jsonb::delete_by_keypath(b"[1,[2,3]]", &[KeyPath::Index(1), KeyPath::Index(0)], buf))
            .unwrap(),
        "[1,[3]]"
    );
    assert_eq!(
        with_buf(|buf| jsonb::delete_by_keypath(b"[1,", &[KeyPath::Index(1)], buf)),
        Err(Error::InvalidJson)
    );
}

#[test]
fn containment() {
    let c = |l: &str, r: &str| RawJsonb::new(&j(l)).contains(RawJsonb::new(&j(r))).unwrap();
    assert!(c("[1,2,3]", "2"));
    assert!(!c("[1,2,3]", "4"));
    assert!(!c("[1,2,3]", "\"1\""));
    assert!(c("[1,2,3]", "[3,1]"));
    assert!(c("[1,2,3]", "[]"));
    assert!(!c("[1,2,3]", "[4]"));
    assert!(c("[[1,2],[3]]", "[[2]]"));
    assert!(!c("[[1,2],[3]]", "[[2,3]]"));
    assert!(!c("[[1,2],[3]]", "[1]"));
    assert!(c("{\"a\":1,\"b\":{\"c\":[1,2]}}", "{\"b\":{\"c\":[2]}}"));
    assert!(c("{\"a\":1,\"b\":2}", "{}"));
    assert!(!c("{\"a\":1}", "{\"a\":2}"));
    assert!(!c("{\"a\":1}", "{\"a\":\"1\"}"));
    assert!(!c("{\"a\":1}", "{\"a\":1,\"b\":2}"));
    assert!(!c("{\"a\":1}", "{\"b\":1}"));
    assert!(!c("{\"a\":1}", "[1]"));
    assert!(!c("{\"a\":[1]}", "{\"a\":{}}"));
    assert!(c("1", "1"));
    assert!(!c("1", "2"));
    assert!(!c("1", "[1]"));
    assert!(c("\"a\"", "\"a\""));
    for t in ["1", "[1,[2,{\"a\":null}]]", "{\"a\":{\"b\":[1,2]},\"c\":\"x\"}", "[]", "{}"] {
        assert!(c(t, t));
    }
    assert!(c("{\"a\":{\"b\":[1,2,3]},\"c\":1}", "{\"a\":{\"b\":[1,2]}}"));
    assert!(c("{\"a\":{\"b\":[1,2]}}", "{\"a\":{\"b\":[2]}}"));
    assert!(c("{\"a\":{\"b\":[1,2,3]},\"c\":1}", "{\"a\":{\"b\":[2]}}"));
    let bad = [0x80u8, 0, 0, 1];
    assert_eq!(RawJsonb::new(&bad).contains(RawJsonb::new(&j("1"))), Err(Error::InvalidEOF));
    assert_eq!(RawJsonb::container_contains(&j("[1]"), &bad[..3]), Err(Error::InvalidEOF));
}

fn key(v: &[u8]) -> Vec<u8> {
    let mut buf = Vec::new();
    convert_to_comparable(v, &mut buf);
    buf
}

#[test]
fn comparable_keys() {
    assert_eq!(key(&j("null")), vec![0, 7]);
    assert_eq!(key(&j("true")), vec![0, 2]);
    assert_eq!(key(&j("false")), vec![0, 1]);
    assert_eq!(key(&j("\"ab\"")), vec![0, 4, b'a', b'b']);
    assert_eq!(key(&j("1")), vec![0, 3, 0xBF, 0xF0, 0, 0, 0, 0, 0, 0]);
    assert_eq!(key(&j("-1")), vec![0, 3, 0x40, 0x0F, 0xFF, 0xFF, 0xFF, 0xFF, 0xFF, 0xFF]);
    assert_eq!(key(&j("[]")), vec![0, 6]);
    assert_eq!(key(&j("{}")), vec![0, 5]);
    assert_eq!(key(&j("[true,[null]]")), vec![0, 6, 1, 2, 1, 6, 2, 7]);
    assert_eq!(key(&j("{\"k\":false}")), vec![0, 5, 1, 4, b'k', 1, 1]);
    assert_eq!(key(b"[true]"), vec![0, 6, 1, 2]);
    assert_eq!(key(b"no json"), vec![0, 0, b'n', b'o', b' ', b'j', b's', b'o', b'n']);
    assert_eq!(key(&[0x80, 0, 0, 1]), Vec::<u8>::new());
    let mut buf = vec![9u8];
    assert_eq!(value_convert_to_comparable(3, &j("true"), &mut buf), Ok(()));
    assert_eq!(buf, vec![9, 3, 2]);
    let mut buf = Vec::new();
    assert_eq!(value_convert_to_comparable(0, &[0x00, 0, 0, 0], &mut buf), Err(Error::InvalidJsonb));
}

#[test]
fn the_order_of_values_is_the_order_of_their_keys() {
    let corpus = [
        "null", "true", "false", "0", "1", "-1", "1.5", "2", "1e10", "-1e10", "100000", "\"\"",
        "\"a\"", "\"ab\"", "\"b\"", "\"B\"", "[]", "[1]", "[1,2]", "[2]", "[[1]]", "[[1],0]",
        "[[1,2]]", "[null]", "[{}]", "[\"a\"]", "[\"a\",\"b\"]", "[true,false]", "{}",
        "{\"a\":1}", "{\"a\":2}", "{\"a\":1,\"b\":1}", "{\"b\":0}", "{\"a\":[1]}", "{\"a\":{}}",
        "{\"a\":null}", "{\"ab\":1}", "[1,[2,[3]]]", "[1,[2,[3,4]]]", "[[],[]]", "[[],[],[]]",
    ];
    let values: Vec<Vec<u8>> = corpus.iter().map(|t| j(t)).collect();
    let keys: Vec<Vec<u8>> = values.iter().map(|v| key(v)).collect();
    for a in 0..values.len() {
        for b in 0..values.len() {
            let by_value = compare(&values[a], &values[b]).unwrap();
            let by_key = keys[a].cmp(&keys[b]);
            assert_eq!(by_value, by_key, "{} against {}", corpus[a], corpus[b]);
            let back = compare(&values[b], &values[a]).unwrap();
            assert_eq!(by_value, back.reverse(), "{} against {}", corpus[a], corpus[b]);
            for c in 0..values.len() {
                let bc = compare(&values[b], &values[c]).unwrap();
                if by_value != std::cmp::Ordering::Greater && bc != std::cmp::Ordering::Greater {
                    let ac = compare(&values[a], &values[c]).unwrap();
                    assert_ne!(ac, std::cmp::Ordering::Greater);
                }
            }
        }
    }
    assert_eq!(compare_values(&j("[1]"), &j("[1]")), Ok(Order::Equal));
    assert_eq!(compare_values(&j("[1]"), &[0x00, 0, 0, 0]), Err(Error::InvalidJsonbHeader));
}

#[test]
fn json_text_of_values() {
    let t = "{\"a\":[1,-2,0.5,\"x\\\"y\\\\z\\n\\t\\r\\b\\f/\",true,false,null,[],{}],\"b\":{\"c\":\"\u{e9}\"}}";
    assert_eq!(
        text(&j(t)),
        "{\"a\":[1,-2,0.5,\"x\\\"y\\\\z\\n\\t\\r\\b\\f/\",true,false,null,[],{}],\"b\":{\"c\":\"\u{e9}\"}}"
    );
    assert_eq!(text(&j(" [ 1 , 2 ] ")), "[1,2]");
    assert_eq!(RawJsonb::new(b"[ 1 , 2 ]").to_string(), "[1,2]");
    assert_eq!(RawJsonb::new(b"{\"b\":1,\"a\":2}").to_string(), "{\"a\":2,\"b\":1}");
    assert_eq!(RawJsonb::new(b"not json").to_string(), "null");
    assert_eq!(RawJsonb::new(&[0x80, 0, 0, 9]).to_string(), "null");
    let v = j("{\"a\":[1,{\"b\":null}],\"c\":[],\"d\":{}}");
    assert_eq!(
        RawJsonb::new(&v).to_pretty_string(),
        "{\n  \"a\": [\n    1,\n    {\n      \"b\": null\n    }\n  ],\n  \"c\": [\n\n  ],\n  \"d\": {\n\n  }\n}"
    );
    assert_eq!(RawJsonb::new(&j("7")).to_pretty_string(), "7");
    assert_eq!(RawJsonb::new(b"[1]").to_pretty_string(), "[\n  1\n]");
    assert_eq!(RawJsonb::new(b"[1").to_pretty_string(), "null");
    let bad_utf8 = [0x20u8, 0, 0, 0, 0x10, 0, 0, 2, 0xFF, b'a'];
    assert_eq!(RawJsonb::new(&bad_utf8).to_string(), "\"\u{fffd}a\"");
    assert_eq!(RawJsonb::new(&bad_utf8).as_str(), Ok(Some("\u{fffd}a".to_string())));
    let opts = PrettyOpts::new(true).inc_indent().inc_indent();
    assert_eq!(opts.indent, 4);
    assert_eq!(opts.generate_indent(), b"    ".to_vec());
    let mut out = vec![b'>'];
    RawJsonb::container_to_string(&j("[1]"), &mut out, &opts).unwrap();
    assert_eq!(out, b">[\n      1\n    ]".to_vec());
    let mut out = Vec::new();
    assert_eq!(
        RawJsonb::container_to_string(&[0x00, 0, 0, 0], &mut out, &opts),
        Err(Error::InvalidJsonb)
    );
}

#[test]
fn strings_are_traversed_level_by_level() {
    let v = j("{\"k\":[\"deep\",{\"x\":\"deeper\"}],\"top\":\"s\"}");
    let r = RawJsonb::new(&v);
    let seen = std::cell::RefCell::new(Vec::new());
    let found = r
        .traverse_check_string(|s| {
            seen.borrow_mut().push(String::from_utf8(s.to_vec()).unwrap());
            false
        })
        .unwrap();
    assert!(!found);
    assert_eq!(*seen.borrow(), vec!["k", "top", "s", "deep", "x", "deeper"]);
    assert_eq!(r.traverse_check_string(|s| s == b"deeper"), Ok(true));
    assert_eq!(r.traverse_check_string(|s| s == b"none"), Ok(false));
    assert_eq!(RawJsonb::new(&j("\"a\"")).traverse_check_string(|s| s == b"a"), Ok(true));
    assert_eq!(RawJsonb::new(&j("1")).traverse_check_string(|_| true), Ok(false));
    assert_eq!(
        RawJsonb::new(&[0x00, 0, 0, 0]).traverse_check_string(|_| true),
        Err(Error::InvalidJsonb)
    );
    let cut = &v[..v.len() - 1];
    assert_eq!(RawJsonb::new(cut).traverse_check_string(|_| true), Err(Error::InvalidEOF));
}
