use scribunto::session::search_path;
use scribunto::{LuaArray, LuaBool, LuaChunk, LuaFloat, LuaInteger, LuaNameType, LuaNull, LuaString};

#[test]
fn scalar_accessors() {
    let b = LuaBool::new(true);
    assert!(*b.as_raw());
    assert!(b.to_raw());
    let i = LuaInteger::new(-5);
    assert_eq!(*i.as_raw(), -5);
    assert_eq!(i.to_raw(), -5);
    assert_eq!(i.to_taw(), -5);
    let n = LuaNull::new();
    assert_eq!(*n.as_raw(), ());
    n.to_raw();
    let s = LuaString::new("héllo");
    assert_eq!(s.as_raw(), "héllo".as_bytes());
    assert_eq!(s.len(), 6);
    assert_eq!(s.to_raw(), "héllo".as_bytes().to_vec());
}

#[test]
fn chunk_handles() {
    let c = LuaChunk::new(&LuaInteger::new(12));
    assert_eq!(*c.as_raw(), 12);
    assert_eq!(c.to_integer().to_raw(), 12);
    assert_eq!(c.to_raw(), 12);
    assert_eq!(LuaInteger::new(3).to_chunk().to_raw(), 3);
}

#[test]
fn float_tokens() {
    for ok in [&b"1"[..], b"-1", b"1.5", b"-0.25", b"inf", b"-inf", b"nan", b"-nan", b"INF", b"-INF", b"NAN"] {
        assert!(LuaFloat::from_text(ok).is_some(), "{:?}", ok);
    }
    for bad in [&b""[..], b"-", b"1.", b".5", b"1.2.3", b"1e5", b"Inf", b"--1", b"1;"] {
        assert!(LuaFloat::from_text(bad).is_none(), "{:?}", bad);
    }
    assert_eq!(LuaFloat::infinity().as_text(), b"inf");
}

#[test]
fn name_type_conversions() {
    let k = <LuaInteger as LuaNameType>::try_from_string(LuaString::new("42")).unwrap();
    assert_eq!(k.to_raw(), 42);
    let k = <LuaInteger as LuaNameType>::try_from_string(LuaString::new("-2147483648")).unwrap();
    assert_eq!(k.to_raw(), i32::MIN);
    assert!(<LuaInteger as LuaNameType>::try_from_string(LuaString::new("2147483648")).is_err());
    assert!(<LuaInteger as LuaNameType>::try_from_string(LuaString::new("007")).is_err());
    assert!(<LuaInteger as LuaNameType>::try_from_string(LuaString::new("-0")).is_err());
    assert!(<LuaInteger as LuaNameType>::try_from_string(LuaString::new("x")).is_err());
    let s = <LuaString as LuaNameType>::try_from_integer(LuaInteger::new(-17)).unwrap();
    assert_eq!(s, LuaString::new("-17"));
    let s = <LuaString as LuaNameType>::try_from_string(LuaString::new("k")).unwrap();
    assert_eq!(s, LuaString::new("k"));
    assert_eq!(LuaInteger::parse_text(b"0"), Some(0));
}

#[test]
fn array_keeps_order() {
    let mut a: LuaArray<LuaString, LuaInteger> = LuaArray::new();
    a.insert(LuaString::new("b"), LuaInteger::new(2));
    a.insert(LuaString::new("a"), LuaInteger::new(1));
    a.insert(LuaString::new("b"), LuaInteger::new(3));
    assert_eq!(a.len(), 2);
    let pairs = a.into_iter();
    assert_eq!(pairs[0].0, LuaString::new("b"));
    assert_eq!(pairs[0].1.to_raw(), 3);
    assert_eq!(pairs[1].1.to_raw(), 1);
}

#[test]
fn search_path_exact() {
    let dirs = vec![b"/a".to_vec(), b"b".to_vec()];
    assert_eq!(search_path(&dirs, b"x;"), b"/a/?.lua;b/?.lua;x;".to_vec());
    assert_eq!(search_path(&vec![], b""), Vec::<u8>::new());
}
