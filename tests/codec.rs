use scribunto::codec::{decode_bool, decode_float, decode_integer, decode_keyed_table, decode_null, decode_string};
use scribunto::{decode, encode, DecodeError, LuaBool, LuaFloat, LuaInteger, LuaKey, LuaNull, LuaString, LuaTable, LuaValue};

fn float_of(f: &LuaFloat) -> f32 {
    std::str::from_utf8(f.as_text()).unwrap().parse::<f32>().unwrap()
}

fn text_of(s: &LuaString) -> &str {
    std::str::from_utf8(s.as_raw()).unwrap()
}

#[test]
fn lib_test() {
    let src = br#"s:6:"A to Z";"#;
    let (val, last) = decode_string(src, 0).unwrap();
    assert!(last == src.len());
    assert_eq!(val, LuaString::new("A to Z"));
    let src = b"d:-1.23;";
    let (val, last) = decode_float(src, 0).unwrap();
    assert!(last == src.len());
    assert_eq!(float_of(&val), -1.23);
    let src = b"i:-882;";
    let (val, last) = decode_integer(src, 0).unwrap();
    assert!(last == src.len());
    assert_eq!(val, -882);
    let src = b"b:0;";
    let (val, last) = decode_bool(src, 0).unwrap();
    assert!(last == src.len());
    assert_eq!(val, false);
    let src = b"b:1;";
    let (val, last) = decode_bool(src, 0).unwrap();
    assert!(last == src.len());
    assert_eq!(val, true);
    let src = b"N;";
    let last = decode_null(src, 0).unwrap();
    assert!(last == src.len());
    let src = br#"a:4:{i:0;b:1;i:1;N;i:2;d:-421000000;i:3;s:6:"A to Z";}"#;
    let (val, last) = decode_keyed_table::<LuaInteger>(src, 0).unwrap();
    assert!(last == src.len());
    assert!(val.class().is_none());
    {
        assert_eq!(val.get_bool(&LuaKey::index(0)).unwrap().to_raw(), true);
        assert!(val.get_null(&LuaKey::index(1)).is_some());
        assert_eq!(float_of(val.get_float(&LuaKey::index(2)).unwrap()), -421000000.0);
        assert_eq!(text_of(val.get_string(&LuaKey::index(3)).unwrap()), "A to Z");
    }
    let src = br#"a:2:{i:42;b:1;s:6:"A to Z";a:3:{i:0;i:1;i:1;i:2;i:2;i:3;}}"#;
    let (val, last) = decode_keyed_table::<LuaString>(src, 0).unwrap();
    assert!(last == src.len());
    assert!(val.class().is_none());
    {
        assert_eq!(val.get_bool(&LuaKey::name("42")).unwrap().to_raw(), true);
        let val = val.get_table(&LuaKey::name("A to Z")).unwrap();
        for i in 0..=2 {
            assert_eq!(val.get_integer(&LuaKey::index(i)).unwrap().to_raw(), i + 1);
        }
    }
    let src = br#"O:8:"stdClass":2:{s:4:"John";d:3.14;s:4:"Jane";d:2.718;}"#;
    let (val, last) = decode_keyed_table::<LuaString>(src, 0).unwrap();
    assert!(last == src.len());
    assert!(val.class().map(|v| text_of(v).to_owned()) == Some("stdClass".to_owned()));
    {
        assert_eq!(float_of(val.get_float(&LuaKey::name("John")).unwrap()), 3.14);
        assert_eq!(float_of(val.get_float(&LuaKey::name("Jane")).unwrap()), 2.718);
    }
}

#[test]
fn encode_string_scenario() {
    let v = LuaValue::String(LuaString::new("A to Z"));
    assert_eq!(encode(&v), br#"s:6:"A to Z";"#.to_vec());
    match decode(br#"s:6:"A to Z";"#).unwrap() {
        LuaValue::String(s) => assert_eq!(s, LuaString::new("A to Z")),
        other => panic!("unexpected {:?}", other),
    }
}

#[test]
fn decode_scalars_whole() {
    match decode(b"d:-1.23;").unwrap() {
        LuaValue::Float(f) => assert_eq!(float_of(&f), -1.23),
        other => panic!("unexpected {:?}", other),
    }
    match decode(b"i:-882;").unwrap() {
        LuaValue::Integer(i) => assert_eq!(i.to_raw(), -882),
        other => panic!("unexpected {:?}", other),
    }
    match decode(b"b:0;").unwrap() {
        LuaValue::Bool(b) => assert!(!b.to_raw()),
        other => panic!("unexpected {:?}", other),
    }
    match decode(b"b:1;").unwrap() {
        LuaValue::Bool(b) => assert!(b.to_raw()),
        other => panic!("unexpected {:?}", other),
    }
    assert!(matches!(decode(b"N;").unwrap(), LuaValue::Null(_)));
}

#[test]
fn encode_scalars_exact() {
    assert_eq!(encode(&LuaValue::Integer(LuaInteger::new(-882))), b"i:-882;".to_vec());
    assert_eq!(encode(&LuaValue::Integer(LuaInteger::new(0))), b"i:0;".to_vec());
    assert_eq!(encode(&LuaValue::Bool(LuaBool::new(true))), b"b:1;".to_vec());
    assert_eq!(encode(&LuaValue::Null(LuaNull::new())), b"N;".to_vec());
    assert_eq!(encode(&LuaValue::Float(LuaFloat::infinity())), b"d:inf;".to_vec());
    assert_eq!(encode(&LuaValue::Float(LuaFloat::neg_infinity())), b"d:-inf;".to_vec());
    assert_eq!(encode(&LuaValue::Float(LuaFloat::nan())), b"d:nan;".to_vec());
    assert_eq!(encode(&LuaValue::String(LuaString::new("a\"b\\c"))), br#"s:7:"a\"b\\c";"#.to_vec());
}

fn same(a: &LuaValue, b: &LuaValue) -> bool {
    encode(a) == encode(b)
}

fn round_trip(v: LuaValue) {
    let text = encode(&v);
    let back = decode(&text).unwrap();
    assert!(same(&v, &back), "{:?} came back as {:?}", v, back);
}

#[test]
fn round_trip_scalars() {
    round_trip(LuaValue::String(LuaString::new("")));
    round_trip(LuaValue::String(LuaString::new("quote \" and backslash \\ and ünïcödé ✓")));
    round_trip(LuaValue::String(LuaString::new("\\\\\"\";:{}")));
    round_trip(LuaValue::Integer(LuaInteger::new(i32::MIN)));
    round_trip(LuaValue::Integer(LuaInteger::new(i32::MAX)));
    round_trip(LuaValue::Integer(LuaInteger::new(0)));
    round_trip(LuaValue::Integer(LuaInteger::new(-1)));
    round_trip(LuaValue::Float(LuaFloat::infinity()));
    round_trip(LuaValue::Float(LuaFloat::neg_infinity()));
    round_trip(LuaValue::Float(LuaFloat::nan()));
    round_trip(LuaValue::Float(LuaFloat::from_text(b"-0.5").unwrap()));
    round_trip(LuaValue::Bool(LuaBool::new(false)));
    round_trip(LuaValue::Null(LuaNull::new()));
}

#[test]
fn round_trip_nested_tables() {
    let mut inner = LuaTable::new();
    inner.insert(LuaKey::index(1), LuaValue::String(LuaString::new("deep \"one\"")));
    inner.insert(LuaKey::name("x"), LuaValue::Float(LuaFloat::from_text(b"2.5").unwrap()));
    let mut middle = LuaTable::with_class(LuaString::new("stdClass"));
    middle.insert(LuaKey::name("inner"), LuaValue::Table(inner));
    middle.insert(LuaKey::index(-7), LuaValue::Null(LuaNull::new()));
    let mut outer = LuaTable::new();
    outer.insert(LuaKey::name("middle"), LuaValue::Table(middle));
    outer.insert(LuaKey::index(i32::MIN), LuaValue::Bool(LuaBool::new(true)));
    outer.insert(LuaKey::name(""), LuaValue::Table(LuaTable::new()));
    round_trip(LuaValue::Table(outer));
}

#[test]
fn table_insert_replaces() {
    let mut t = LuaTable::new();
    t.insert(LuaKey::name("k"), LuaValue::Integer(LuaInteger::new(1)));
    t.insert(LuaKey::name("k"), LuaValue::Integer(LuaInteger::new(2)));
    assert_eq!(t.len(), 1);
    assert_eq!(t.get_integer(&LuaKey::name("k")).unwrap().to_raw(), 2);
    assert!(t.remove(&LuaKey::name("k")).is_some());
    assert_eq!(t.len(), 0);
}

#[test]
fn decode_errors() {
    assert_eq!(decode(b"x:1;").unwrap_err(), DecodeError::UnexpectedPrefix);
    assert_eq!(decode(br#"s:10:"abc";"#).unwrap_err(), DecodeError::BadLength);
    assert_eq!(decode(br#"s:2:"abc";"#).unwrap_err(), DecodeError::BadLength);
    assert_eq!(decode(br#"s:999:"abc";"#).unwrap_err(), DecodeError::BadLength);
    assert_eq!(decode(b"a:2:{i:1;N;}").unwrap_err(), DecodeError::BadLength);
    assert_eq!(decode(b"a:1:{b:1;i:1;}").unwrap_err(), DecodeError::UnexpectedPrefix);
    assert_eq!(decode(br#"s:2:"ab";"#).is_ok(), true);
    assert_eq!(decode_keyed_table::<LuaString>(br#"s:2:"ab";"#, 0).unwrap_err(), DecodeError::UnexpectedPrefix);
    assert_eq!(decode(b"a:3:{i:0;b:1;}").unwrap_err(), DecodeError::BadLength);
    assert_eq!(decode(b"a:1:{i:0;b:1;i:1;b:0;}").unwrap_err(), DecodeError::BadLength);
    assert_eq!(decode(b"a:9999:{i:0;b:1;}").unwrap_err(), DecodeError::BadLength);
    assert_eq!(decode(b"i:abc;").unwrap_err(), DecodeError::BadNumber);
    assert_eq!(decode(b"i:99999999999;").unwrap_err(), DecodeError::BadNumber);
    assert_eq!(decode(b"d:1.2.3;").unwrap_err(), DecodeError::BadNumber);
    assert_eq!(decode(b"i:5").unwrap_err(), DecodeError::Malformed);
    assert_eq!(decode(b"a:2:{i:1;N;i:1;N;}").unwrap_err(), DecodeError::DuplicateKey);
    assert!(decode(b"N;N;").is_err());
}

#[test]
fn keyed_tables_convert_keys() {
    assert_eq!(
        decode_keyed_table::<LuaInteger>(br#"a:1:{s:1:"x";b:1;}"#, 0).unwrap_err(),
        DecodeError::BadType
    );
    let (t, _) = decode_keyed_table::<LuaInteger>(br#"a:2:{s:2:"-7";b:1;i:3;N;}"#, 0).unwrap();
    assert!(t.get_bool(&LuaKey::index(-7)).unwrap().to_raw());
    assert!(t.get_null(&LuaKey::index(3)).is_some());
    let (t, _) = decode_keyed_table::<LuaString>(br#"a:2:{i:42;b:1;i:-1;N;}"#, 0).unwrap();
    assert!(t.get_bool(&LuaKey::name("42")).unwrap().to_raw());
    assert!(t.get_null(&LuaKey::name("-1")).is_some());
    assert!(t.get_bool(&LuaKey::index(42)).is_none());
    let (t, _) = decode_keyed_table::<LuaString>(br#"a:2:{i:1;b:1;s:1:"1";b:0;}"#, 0).unwrap();
    assert_eq!(t.len(), 1);
    assert!(!t.get_bool(&LuaKey::name("1")).unwrap().to_raw());
}

#[test]
fn control_escapes() {
    assert_eq!(encode(&LuaValue::String(LuaString::new("a\nb\r\t"))), br#"s:8:"a\nb\r\t";"#.to_vec());
    match decode(br#"s:6:"a\nb\t";"#).unwrap() {
        LuaValue::String(s) => assert_eq!(s, LuaString::new("a\nb\t")),
        other => panic!("unexpected {:?}", other),
    }
    assert_eq!(decode(b"s:3:\"a\nb\";").unwrap_err(), DecodeError::Malformed);
    assert_eq!(decode(br#"s:2:"\q";"#).unwrap_err(), DecodeError::Malformed);
    round_trip(LuaValue::String(LuaString::new("line\none\r\n\ttab \\n")));
}
