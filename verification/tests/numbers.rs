use jsonb::cast::{parse_i64, parse_u64};
use jsonb::number::{promote_signed, promote_unsigned, sort_key_of, Number};
use jsonb::bytes::Order;
use jsonb::text::{push_decimal, push_number_text};
use jsonb::Error;

fn key_by_xor(bits: u64) -> u64 {
    let s = bits as i64;
    let v = s ^ ((((s >> 63) as u64) >> 1) as i64);
    (v as u64) ^ 0x8000_0000_0000_0000
}

fn samples() -> Vec<u64> {
    let mut v = vec![0u64, 1, 2, 3, 7, 8, 9, 10, 255, 256, 1000, 100000, 130000];
    for e in 50..64u32 {
        let p = 1u64 << e;
        for d in [0u64, 1, 2, 3, 4, 5, 6, 7, 8, 9, 255, 256, 257, 511, 512, 513, 1023, 1024, 1025, 2047, 2048, 2049, 3071, 3072, 3073] {
            v.push(p.wrapping_add(d));
            v.push(p.wrapping_sub(d));
            v.push(p.wrapping_add(p / 2).wrapping_add(d));
            v.push(p.wrapping_add(p / 2).wrapping_sub(d));
        }
    }
    v.push(u64::MAX);
    v.push(u64::MAX - 1);
    v.push(u64::MAX - 1023);
    v.push(u64::MAX - 1024);
    v.push(u64::MAX - 2047);
    v.push(i64::MAX as u64);
    let mut x: u64 = 0x9E37_79B9_7F4A_7C15;
    for _ in 0..2000 {
        x ^= x << 13;
        x ^= x >> 7;
        x ^= x << 17;
        v.push(x);
        v.push(x >> 3);
        v.push(x >> 11);
        v.push(x >> 20);
    }
    v
}

#[test]
fn promotion_of_unsigned_integers_is_the_nearest_double() {
    for m in samples() {
        assert_eq!(promote_unsigned(m), (m as f64).to_bits(), "for {}", m);
    }
    assert_eq!(promote_unsigned(130000), 0x40FF_BD00_0000_0000);
    assert_eq!(promote_unsigned(9007199254740993), 9007199254740992f64.to_bits());
    assert_eq!(promote_unsigned(9007199254740995), 9007199254740996f64.to_bits());
}

#[test]
fn promotion_of_signed_integers_is_the_nearest_double() {
    for m in samples() {
        let v = m as i64;
        assert_eq!(promote_signed(v), (v as f64).to_bits(), "for {}", v);
    }
    assert_eq!(promote_signed(i64::MIN), (i64::MIN as f64).to_bits());
    assert_eq!(promote_signed(-1), (-1f64).to_bits());
    assert_eq!(promote_signed(-4000), 0xC0AF_4000_0000_0000);
}

#[test]
fn sort_key_is_the_xor_formula() {
    for m in samples() {
        assert_eq!(sort_key_of(m), key_by_xor(m));
    }
    let ordered =
        [f64::NEG_INFINITY, -1e300, -2.5, -1.0, -1e-300, -0.0, 0.0, 1e-300, 1.0, 2.5, 1e300, f64::INFINITY];
    for w in ordered.windows(2) {
        assert!(sort_key_of(w[0].to_bits()) < sort_key_of(w[1].to_bits()));
    }
}

#[test]
fn numbers_are_ordered_as_doubles() {
    let n = |bits: f64| Number::Float64(bits.to_bits());
    assert_eq!(Number::Int64(-1).order(&Number::UInt64(0)), Order::Less);
    assert_eq!(Number::UInt64(3).order(&Number::Int64(3)), Order::Equal);
    assert_eq!(Number::UInt64(3).order(&n(2.5)), Order::Greater);
    assert_eq!(n(2.5).order(&Number::Int64(3)), Order::Less);
    assert_eq!(n(f64::NEG_INFINITY).order(&Number::Int64(i64::MIN)), Order::Less);
    assert_eq!(n(f64::INFINITY).order(&Number::UInt64(u64::MAX)), Order::Greater);
    assert_eq!(Number::UInt64(9007199254740993).order(&Number::UInt64(9007199254740992)), Order::Equal);
    assert_eq!(n(f64::NAN).order(&n(f64::INFINITY)), Order::Greater);
}

#[test]
fn numbers_round_trip_through_their_payload() {
    let all = [
        Number::UInt64(0),
        Number::UInt64(1),
        Number::UInt64(u64::MAX),
        Number::Int64(0),
        Number::Int64(-1),
        Number::Int64(i64::MIN),
        Number::Int64(i64::MAX),
        Number::Float64(1.5f64.to_bits()),
        Number::Float64((-0.0f64).to_bits()),
        Number::Float64(f64::NAN.to_bits()),
    ];
    for n in all {
        assert_eq!(Number::decode(&n.encode()), Ok(n));
    }
    assert_eq!(Number::UInt64(0).encode(), vec![0x00]);
    assert_eq!(Number::UInt64(258).encode(), vec![0x50, 0, 0, 0, 0, 0, 0, 1, 2]);
    assert_eq!(Number::Int64(-2).encode(), vec![0x40, 0xFF, 0xFF, 0xFF, 0xFF, 0xFF, 0xFF, 0xFF, 0xFE]);
    assert_eq!(
        Number::Float64(1.0f64.to_bits()).encode(),
        vec![0x60, 0x3F, 0xF0, 0, 0, 0, 0, 0, 0]
    );
}

#[test]
fn number_payloads_without_a_number_are_refused() {
    assert_eq!(Number::decode(&[]), Err(Error::InvalidNumber));
    assert_eq!(Number::decode(&[0x70]), Err(Error::InvalidNumber));
    assert_eq!(Number::decode(&[0x40, 1, 2]), Err(Error::InvalidNumber));
    assert_eq!(Number::decode(&[0x00, 0, 0, 0, 0, 0, 0, 0, 0]), Err(Error::InvalidNumber));
    assert_eq!(Number::decode(&[0x10]), Ok(Number::Float64(f64::NAN.to_bits())));
    assert_eq!(Number::decode(&[0x20]), Ok(Number::Float64(f64::INFINITY.to_bits())));
    assert_eq!(Number::decode(&[0x30]), Ok(Number::Float64(f64::NEG_INFINITY.to_bits())));
}

#[test]
fn numbers_as_integers() {
    assert_eq!(Number::UInt64(5).as_i64(), Some(5));
    assert_eq!(Number::UInt64(u64::MAX).as_i64(), None);
    assert_eq!(Number::Int64(-5).as_u64(), None);
    assert_eq!(Number::Int64(5).as_u64(), Some(5));
    assert_eq!(Number::Float64(5f64.to_bits()).as_i64(), None);
    assert_eq!(Number::Float64(5f64.to_bits()).as_u64(), None);
}

fn decimal(v: u64) -> String {
    let mut buf = Vec::new();
    push_decimal(&mut buf, v);
    String::from_utf8(buf).unwrap()
}

fn number_text(n: Number) -> String {
    let mut buf = Vec::new();
    push_number_text(&mut buf, &n);
    String::from_utf8(buf).unwrap()
}

#[test]
fn decimal_text_of_integers() {
    for v in samples() {
        assert_eq!(decimal(v), v.to_string());
        assert_eq!(number_text(Number::Int64(v as i64)), (v as i64).to_string());
    }
    assert_eq!(decimal(0), "0");
    assert_eq!(decimal(10), "10");
    assert_eq!(decimal(u64::MAX), "18446744073709551615");
    assert_eq!(number_text(Number::Int64(i64::MIN)), "-9223372036854775808");
}

#[test]
fn text_of_doubles() {
    assert_eq!(number_text(Number::Float64(1.5f64.to_bits())), "1.5");
    assert_eq!(number_text(Number::Float64(100f64.to_bits())), "100.0");
    assert_eq!(number_text(Number::Float64((-0.25f64).to_bits())), "-0.25");
    assert_eq!(number_text(Number::Float64(1e30f64.to_bits())), "1e+30");
    assert_eq!(number_text(Number::Float64(f64::NAN.to_bits())), "null");
    assert_eq!(number_text(Number::Float64(f64::INFINITY.to_bits())), "null");
}

#[test]
fn strict_integer_parsing() {
    assert_eq!(parse_u64(b"0"), Some(0));
    assert_eq!(parse_u64(b"+17"), Some(17));
    assert_eq!(parse_u64(b"007"), Some(7));
    assert_eq!(parse_u64(b"18446744073709551615"), Some(u64::MAX));
    assert_eq!(parse_u64(b"18446744073709551616"), None);
    assert_eq!(parse_u64(b"99999999999999999999999"), None);
    assert_eq!(parse_u64(b""), None);
    assert_eq!(parse_u64(b"+"), None);
    assert_eq!(parse_u64(b"-1"), None);
    assert_eq!(parse_u64(b" 1"), None);
    assert_eq!(parse_u64(b"1 "), None);
    assert_eq!(parse_u64(b"1.0"), None);
    assert_eq!(parse_i64(b"-9223372036854775808"), Some(i64::MIN));
    assert_eq!(parse_i64(b"-9223372036854775809"), None);
    assert_eq!(parse_i64(b"9223372036854775807"), Some(i64::MAX));
    assert_eq!(parse_i64(b"9223372036854775808"), None);
    assert_eq!(parse_i64(b"+5"), Some(5));
    assert_eq!(parse_i64(b"-0"), Some(0));
    assert_eq!(parse_i64(b"-"), None);
    assert_eq!(parse_i64(b"--1"), None);
    assert_eq!(parse_i64(b"1e3"), None);
    for v in samples() {
        assert_eq!(parse_u64(v.to_string().as_bytes()), Some(v));
        assert_eq!(parse_i64((v as i64).to_string().as_bytes()), Some(v as i64));
    }
}
