use kvs::sled_engine::decode_value;
use kvs::{resolve_engine, server_start, DbError, GetResponse, RemoveResponse, SetResponse, SledEngine};

fn temp_engine() -> SledEngine {
    let db = sled::Config::new().temporary(true).open().expect("temporary sled db");
    SledEngine::new(db)
}

#[test]
fn sled_get_after_set() {
    let mut e = temp_engine();
    assert!(e.set("key1".to_string(), "value1".to_string()).is_ok());
    match e.get("key1".to_string()) {
        Ok(Some(v)) => assert_eq!(v, "value1"),
        _ => panic!("value was set"),
    }
    assert!(e.set("key1".to_string(), "value2".to_string()).is_ok());
    match e.get("key1".to_string()) {
        Ok(Some(v)) => assert_eq!(v, "value2"),
        _ => panic!("value was overwritten"),
    }
    assert!(matches!(e.get("key2".to_string()), Ok(None)));
}

#[test]
fn sled_remove() {
    let mut e = temp_engine();
    assert!(e.set("k".to_string(), "v".to_string()).is_ok());
    assert!(e.remove("k".to_string()).is_ok());
    assert!(matches!(e.get("k".to_string()), Ok(None)));
    assert!(matches!(e.remove("k".to_string()), Err(DbError::KeyNotFoundErr)));
}

#[test]
fn non_utf8_values_are_reported() {
    assert!(matches!(decode_value(None), Ok(None)));
    match decode_value(Some(vec![0x68, 0xc3, 0xa9])) {
        Ok(Some(s)) => assert_eq!(s, "hé"),
        _ => panic!("valid UTF-8"),
    }
    assert!(matches!(decode_value(Some(vec![0xff, 0xfe])), Err(DbError::FromU8Err(_))));
}

#[test]
fn responses_become_results() {
    match GetResponse::Done(Some("v".to_string())).into_result() {
        Ok(Some(v)) => assert_eq!(v, "v"),
        _ => panic!("found"),
    }
    assert!(matches!(GetResponse::Done(None).into_result(), Ok(None)));
    match GetResponse::Failed("boom".to_string()).into_result() {
        Err(DbError::StrErr(m)) => assert_eq!(m, "boom"),
        _ => panic!("failed"),
    }
    assert!(SetResponse::Done.into_result().is_ok());
    assert!(matches!(SetResponse::Failed("x".to_string()).into_result(), Err(DbError::StrErr(_))));
    assert!(RemoveResponse::Done.into_result().is_ok());
    match RemoveResponse::Failed("key not found".to_string()).into_result() {
        Err(DbError::StrErr(m)) => assert_eq!(m, "key not found"),
        _ => panic!("failed"),
    }
}

#[test]
fn engine_choice() {
    assert_eq!(resolve_engine(None, "".to_string()), Some("".to_string()));
    assert_eq!(resolve_engine(None, "sled".to_string()), Some("sled".to_string()));
    assert_eq!(resolve_engine(Some("kvs".to_string()), "".to_string()), Some("kvs".to_string()));
    assert_eq!(resolve_engine(Some("kvs".to_string()), "kvs".to_string()), Some("kvs".to_string()));
    assert_eq!(resolve_engine(Some("kvs".to_string()), "sled".to_string()), None);
    assert!(server_start().is_ok());
}

#[test]
fn errors_convert() {
    let io = std::io::Error::new(std::io::ErrorKind::Other, "x");
    assert!(matches!(DbError::from(io), DbError::IoErr(_)));
    let json = serde_json::from_str::<u8>("x").unwrap_err();
    assert!(matches!(DbError::from(json), DbError::SerdeErr(_)));
    let utf8 = String::from_utf8(vec![0xff]).unwrap_err();
    assert!(matches!(DbError::from(utf8), DbError::FromU8Err(_)));
}

#[test]
fn both_engines_hold_the_same_keys() {
    let mut e = temp_engine();
    let mut s = kvs::KvStore::open(&vec![], &vec![]).unwrap();
    s.switch_writer(0);
    for (k, v) in [("a", "1"), ("b", "2"), ("a", "3")] {
        assert!(e.set(k.to_string(), v.to_string()).is_ok());
        s.set(k.to_string(), v, 10);
    }
    assert!(e.remove("b".to_string()).is_ok());
    assert!(s.remove("b").is_ok());
    assert!(matches!(e.remove("z".to_string()), Err(DbError::KeyNotFoundErr)));
    assert!(matches!(s.remove("z"), Err(DbError::KeyNotFoundErr)));
    for k in ["a", "b", "z"] {
        let found = match e.get(k.to_string()) {
            Ok(v) => v,
            Err(_) => panic!("sled read failed"),
        };
        assert_eq!(found.is_some(), s.get(k).is_some());
    }
    match e.get("a".to_string()) {
        Ok(Some(v)) => assert_eq!(v, "3"),
        _ => panic!("a holds 3"),
    }
}
