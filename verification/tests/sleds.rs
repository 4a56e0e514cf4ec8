use simple_kv::engine::sleds::{removed, sled_outcome, stored_text};
use simple_kv::{KvsEngine, KvsError, SledStore};

fn temporary() -> SledStore {
    SledStore::new(sled::Config::new().temporary(true).open().unwrap())
}

#[test]
fn stored_bytes_are_read_as_text() {
    assert_eq!(stored_text(None), Ok(None));
    assert_eq!(stored_text(Some(b"value".to_vec())), Ok(Some("value".to_string())));
    assert_eq!(stored_text(Some("clé 値".as_bytes().to_vec())), Ok(Some("clé 値".to_string())));
    assert_eq!(stored_text(Some(Vec::new())), Ok(Some(String::new())));
}

#[test]
fn stored_bytes_that_are_no_text_are_a_utf8_error() {
    assert!(matches!(stored_text(Some(vec![0xff, 0xfe])), Err(KvsError::Utf8Error(_))));
    assert!(matches!(stored_text(Some(vec![b'a', 0xc3])), Err(KvsError::Utf8Error(_))));
}

#[test]
fn removing_what_was_not_there_is_key_not_found() {
    assert_eq!(removed(None), Err(KvsError::KeyNotFound));
    assert_eq!(removed(Some(b"old".to_vec())), Ok(()));
}

#[test]
fn what_the_store_gave_is_handed_on() {
    assert_eq!(sled_outcome(Ok(3)), Ok(3));
    assert_eq!(sled_outcome(Ok(Some(b"v".to_vec()))), Ok(Some(b"v".to_vec())));
}

#[test]
fn an_error_of_the_store_is_a_sled_error() {
    let failed: Result<u8, sled::Error> = Err(sled::Error::Unsupported("not here".to_string()));
    match sled_outcome(failed) {
        Err(KvsError::SledErr(text)) => assert!(text.contains("not here")),
        other => panic!("{:?}", other),
    }
}

#[test]
fn sled_roundtrip() {
    let store = temporary();
    assert_eq!(store.get("k".to_string()), Ok(None));
    assert_eq!(store.set("k".to_string(), "v1".to_string()), Ok(()));
    assert_eq!(store.get("k".to_string()), Ok(Some("v1".to_string())));
    assert_eq!(store.set("k".to_string(), "v2".to_string()), Ok(()));
    assert_eq!(store.get("k".to_string()), Ok(Some("v2".to_string())));
    assert_eq!(store.remove("k".to_string()), Ok(()));
    assert_eq!(store.get("k".to_string()), Ok(None));
    assert_eq!(store.remove("k".to_string()), Err(KvsError::KeyNotFound));
}

#[test]
fn clones_of_a_sled_store_speak_to_the_same_store() {
    let store = temporary();
    let other = store.clone();
    store.set("k".to_string(), "v".to_string()).unwrap();
    assert_eq!(other.get("k".to_string()), Ok(Some("v".to_string())));
}
