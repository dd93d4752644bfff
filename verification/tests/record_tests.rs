use shunyadb::error::Error;
use shunyadb::storage::fields::FieldMap;
use shunyadb::storage::record::{FieldValue, Record};

#[test]
fn record_roundtrip_ser_de() {
    let mut m = FieldMap::new();
    m.insert("name", FieldValue::Str("alice".into()));
    m.insert("age", FieldValue::Int(30));
    let rec = Record::new("user_1", 42, m.clone());

    let bytes = rec.encode();
    let rec2 = Record::decode(&bytes).expect("deserialize");

    assert_eq!(rec, rec2);
    assert_eq!(rec2.id, "user_1");
    assert_eq!(rec2.seqno, 42);
    assert!(!rec2.is_tombstone);
    assert_eq!(rec2.data, m);
}

#[test]
fn tombstone_behaviour() {
    let t = Record::new_tombstone("user_2", 100);
    let bytes = t.encode();
    let t2 = Record::decode(&bytes).unwrap();

    assert!(t2.is_tombstone);
    assert_eq!(t2.data.len(), 0);
}

#[test]
fn from_pairs_constructor() {
    let pairs = vec![("a", FieldValue::Int(1)), ("b", FieldValue::Str("x".into()))];
    let r = Record::from_pairs("row1", 7, pairs);
    assert_eq!(r.id, "row1");
    assert_eq!(r.seqno, 7);
    assert!(!r.is_tombstone);
    assert_eq!(r.data.get("a").unwrap(), &FieldValue::Int(1));
    assert_eq!(r.data.get("b").unwrap(), &FieldValue::Str("x".into()));
}

#[test]
fn float_tryfrom_ok_roundtrip() {
    let f = 3.14159f64;
    let fv = FieldValue::from_float_bits(f.to_bits()).expect("should accept normal float");
    let mut map = FieldMap::new();
    map.insert("pi", fv.clone());
    let r = Record::new("float_row", 10, map);

    let bytes = r.encode();
    let r2 = Record::decode(&bytes).expect("deserialize float record");

    assert_eq!(r, r2);
    match r2.data.get("pi").unwrap() {
        FieldValue::Float(n) => assert_eq!(f64::from_bits(n.to_bits()), 3.14159f64),
        _ => panic!("expected float"),
    }
}

#[test]
fn float_tryfrom_rejects_nan() {
    let nan = f64::NAN;
    let res = FieldValue::from_float_bits(nan.to_bits());
    assert!(res.is_err(), "NaN must be rejected for FieldValue::Float");
}

#[test]
fn record_layout_is_fixed_width_little_endian() {
    let r = Record::from_pairs("k", 0x0102, vec![("n", FieldValue::UInt(7))]);
    let expected: Vec<u8> = vec![
        1, 0, 0, 0, 0, 0, 0, 0, b'k', // id
        2, 1, 0, 0, 0, 0, 0, 0, // seqno
        0, // live
        1, 0, 0, 0, 0, 0, 0, 0, // one field
        1, 0, 0, 0, 0, 0, 0, 0, b'n', // its name
        3, 0, 0, 0, 7, 0, 0, 0, 0, 0, 0, 0, // its value
    ];
    assert_eq!(r.encode(), expected);
}

#[test]
fn record_layout_agrees_with_bincode() {
    let r = Record::from_pairs(
        "user_1",
        42,
        vec![("name", FieldValue::Str("alice".into())), ("city", FieldValue::Str("oslo".into()))],
    );
    let mut data = std::collections::BTreeMap::new();
    data.insert("name".to_string(), (5u32, "alice".to_string()));
    data.insert("city".to_string(), (5u32, "oslo".to_string()));
    let plain = ("user_1".to_string(), 42u64, false, data);
    assert_eq!(r.encode(), bincode::serialize(&plain).unwrap());

    let t = Record::from_pairs("t", 9, vec![("i", FieldValue::Int(-2)), ("j", FieldValue::Int(5))]);
    let mut ints = std::collections::BTreeMap::new();
    ints.insert("i".to_string(), (2u32, -2i64));
    ints.insert("j".to_string(), (2u32, 5i64));
    assert_eq!(t.encode(), bincode::serialize(&("t".to_string(), 9u64, false, ints)).unwrap());
}

#[test]
fn from_pairs_keeps_the_later_of_two_values() {
    let r = Record::from_pairs("k", 1, vec![("a", FieldValue::Int(1)), ("a", FieldValue::Int(2))]);
    assert_eq!(r.data.len(), 1);
    assert_eq!(r.get("a"), Some(&FieldValue::Int(2)));
    assert_eq!(r.get("b"), None);
}

#[test]
fn fields_are_kept_in_the_order_of_their_names() {
    let r = Record::from_pairs(
        "k",
        1,
        vec![("b", FieldValue::Null), ("a", FieldValue::Bool(true)), ("ab", FieldValue::UInt(3))],
    );
    assert_eq!(r.data.entry(0).0, "a");
    assert_eq!(r.data.entry(1).0, "ab");
    assert_eq!(r.data.entry(2).0, "b");
}

#[test]
fn decode_refuses_bytes_that_are_no_record() {
    let r = Record::from_pairs("k", 1, vec![("a", FieldValue::Int(1))]);
    let good = r.encode();
    // trailing byte
    let mut long = good.clone();
    long.push(0);
    assert_eq!(Record::decode(&long), Err(Error::Corrupt));
    // truncated
    assert_eq!(Record::decode(&good[..good.len() - 1]), Err(Error::Corrupt));
    // a tombstone flag that is neither 0 nor 1
    let mut flag = good.clone();
    flag[17] = 2;
    assert_eq!(Record::decode(&flag), Err(Error::Corrupt));
    // an id that is not UTF-8
    let mut id = good.clone();
    id[8] = 0xff;
    assert_eq!(Record::decode(&id), Err(Error::Corrupt));
    // a NaN
    let nan = Record::from_pairs("k", 1, vec![("a", FieldValue::UInt(f64::NAN.to_bits()))]);
    let mut bytes = nan.encode();
    let tag = bytes.len() - 12;
    bytes[tag] = 4;
    assert_eq!(Record::decode(&bytes), Err(Error::Corrupt));
    assert_eq!(Record::decode(&good), Ok(r));
}

#[test]
fn decode_refuses_names_out_of_order() {
    let a = Record::from_pairs("k", 1, vec![("a", FieldValue::Null), ("b", FieldValue::Null)]);
    let mut bytes = a.encode();
    let n = bytes.len();
    // swap the two names
    bytes[n - 17] = b'b';
    bytes[n - 5] = b'a';
    assert_eq!(Record::decode(&bytes), Err(Error::Corrupt));
}

#[test]
fn field_values_from_plain_values() {
    assert_eq!(FieldValue::from("x".to_string()), FieldValue::Str("x".to_string()));
    assert_eq!(FieldValue::from(-3i64), FieldValue::Int(-3));
    assert_eq!(FieldValue::from(3u64), FieldValue::UInt(3));
}

#[test]
fn a_nan_is_an_invalid_value() {
    let err = FieldValue::from_float_bits(f64::NAN.to_bits()).unwrap_err();
    assert_eq!(err.kind(), Error::InvalidValue);
    // every NaN, quiet or signalling, of either sign
    for bits in [0x7ff0_0000_0000_0001u64, 0x7ff8_0000_0000_0000, 0xfff0_0000_0000_0001, 0xffff_ffff_ffff_ffff] {
        assert!(f64::from_bits(bits).is_nan());
        assert!(FieldValue::from_float_bits(bits).is_err());
    }
    // the infinities and the zeros are numbers
    for v in [f64::INFINITY, f64::NEG_INFINITY, 0.0, -0.0, f64::MAX, f64::MIN_POSITIVE, 1.5] {
        assert!(FieldValue::from_float_bits(v.to_bits()).is_ok());
    }
}

#[test]
fn every_kind_of_value_is_laid_out_as_bincode_lays_it_out() {
    let one = |name: &str, v: FieldValue| Record::from_pairs("k", 1, vec![(name, v)]).encode();
    fn plain<T: Clone + serde::Serialize>(name: &str, value: T) -> Vec<u8> {
        let mut data = std::collections::BTreeMap::new();
        data.insert(name.to_string(), value);
        bincode::serialize(&("k".to_string(), 1u64, false, data)).unwrap()
    }
    assert_eq!(one("n", FieldValue::Null), plain("n", 0u32));
    assert_eq!(one("b", FieldValue::Bool(true)), plain("b", (1u32, true)));
    assert_eq!(one("b", FieldValue::Bool(false)), plain("b", (1u32, false)));
    assert_eq!(one("i", FieldValue::Int(i64::MIN)), plain("i", (2u32, i64::MIN)));
    assert_eq!(one("i", FieldValue::Int(-1)), plain("i", (2u32, -1i64)));
    assert_eq!(one("u", FieldValue::UInt(u64::MAX)), plain("u", (3u32, u64::MAX)));
    let f = FieldValue::from_float_bits(3.5f64.to_bits()).unwrap();
    assert_eq!(one("f", f), plain("f", (4u32, 3.5f64)));
    assert_eq!(one("s", FieldValue::Str("é".into())), plain("s", (5u32, "é".to_string())));
    for v in [
        FieldValue::Null,
        FieldValue::Bool(true),
        FieldValue::Int(i64::MIN),
        FieldValue::Int(i64::MAX),
        FieldValue::UInt(u64::MAX),
        FieldValue::from_float_bits((-0.0f64).to_bits()).unwrap(),
        FieldValue::Str("日本語".into()),
        FieldValue::Str(String::new()),
    ] {
        let r = Record::from_pairs("k", 1, vec![("x", v)]);
        assert_eq!(Record::decode(&r.encode()), Ok(r));
    }
}
