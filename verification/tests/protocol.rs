use simple_kv::kv_client::{get_result, remove_result, set_result};
use simple_kv::kv_server::{
    dispatch, get_response, recorded_engine, remove_response, select_engine, serve, set_response,
    Engine,
};
use simple_kv::protocol::{Request, Response};
use simple_kv::{KvsEngine, KvsError};
use std::collections::HashMap;
use std::sync::{Arc, Mutex};

/// An engine that keeps its data in memory.
#[derive(Clone)]
struct MemoryEngine {
    data: Arc<Mutex<HashMap<String, String>>>,
}

impl MemoryEngine {
    fn new() -> MemoryEngine {
        MemoryEngine { data: Arc::new(Mutex::new(HashMap::new())) }
    }
}

impl KvsEngine for MemoryEngine {
    fn set(&self, key: String, value: String) -> Result<(), KvsError> {
        self.data.lock().unwrap().insert(key, value);
        Ok(())
    }

    fn get(&self, key: String) -> Result<Option<String>, KvsError> {
        Ok(self.data.lock().unwrap().get(&key).cloned())
    }

    fn remove(&self, key: String) -> Result<(), KvsError> {
        match self.data.lock().unwrap().remove(&key) {
            Some(_) => Ok(()),
            None => Err(KvsError::KeyNotFound),
        }
    }
}

fn get(key: &str) -> Request {
    Request::Get { key: key.to_string() }
}

fn set(key: &str, value: &str) -> Request {
    Request::Put { key: key.to_string(), value: value.to_string() }
}

fn remove(key: &str) -> Request {
    Request::Remove { key: key.to_string() }
}

#[test]
fn requests_are_written_as_json() {
    assert_eq!(get("a").encode(), b"{\"Get\":{\"key\":\"a\"}}".to_vec());
    assert_eq!(set("a", "1").encode(), b"{\"Set\":{\"key\":\"a\",\"value\":\"1\"}}".to_vec());
    assert_eq!(remove("a").encode(), b"{\"Remove\":{\"key\":\"a\"}}".to_vec());
}

#[test]
fn responses_are_written_as_json() {
    let cases: Vec<(Response, &[u8])> = vec![
        (Response::Get(Ok(None)), b"{\"Get\":{\"Ok\":null}}"),
        (Response::Get(Ok(Some("1".to_string()))), b"{\"Get\":{\"Ok\":\"1\"}}"),
        (Response::Get(Err("bad".to_string())), b"{\"Get\":{\"Err\":\"bad\"}}"),
        (Response::Put(Ok(())), b"{\"Set\":{\"Ok\":null}}"),
        (Response::Put(Err("bad".to_string())), b"{\"Set\":{\"Err\":\"bad\"}}"),
        (Response::Remove(Ok(())), b"{\"Remove\":{\"Ok\":null}}"),
        (
            Response::Remove(Err("Key not found".to_string())),
            b"{\"Remove\":{\"Err\":\"Key not found\"}}",
        ),
    ];
    for (response, bytes) in cases {
        assert_eq!(response.encode(), bytes.to_vec());
        assert_eq!(Response::decode_at(bytes, 0), Ok((response, bytes.len())));
    }
}

#[test]
fn requests_read_back() {
    for request in [get("k"), get(""), set("k", "v"), set("a\"b", "new\nline"), remove("clé")] {
        let bytes = request.encode();
        assert_eq!(Request::decode_at(&bytes, 0), Ok((request, bytes.len())));
    }
}

#[test]
fn a_value_that_spells_null_is_no_missing_value() {
    let response = Response::Get(Ok(Some("null".to_string())));
    let bytes = response.encode();
    assert_eq!(bytes, b"{\"Get\":{\"Ok\":\"null\"}}".to_vec());
    assert_eq!(Response::decode_at(&bytes, 0), Ok((response, bytes.len())));
}

#[test]
fn messages_that_have_not_come_in_full_are_serde_errors() {
    let bytes = set("key", "value").encode();
    for cut in 0..bytes.len() {
        assert!(matches!(Request::decode_at(&bytes[..cut], 0), Err(KvsError::SerdeError(_))));
    }
    let bytes = Response::Get(Ok(Some("value".to_string()))).encode();
    for cut in 0..bytes.len() {
        assert!(matches!(Response::decode_at(&bytes[..cut], 0), Err(KvsError::SerdeError(_))));
    }
}

#[test]
fn a_record_of_the_log_is_no_remove_request() {
    assert!(matches!(Request::decode_at(b"{\"Rm\":{\"key\":\"k\"}}", 0), Err(KvsError::SerdeError(_))));
}

#[test]
fn the_server_answers_with_what_the_engine_returned() {
    assert_eq!(get_response(Ok(Some("v".to_string()))), Response::Get(Ok(Some("v".to_string()))));
    assert_eq!(get_response(Ok(None)), Response::Get(Ok(None)));
    assert_eq!(
        get_response(Err(KvsError::UndefCmdline)),
        Response::Get(Err("Undefined Command Error".to_string()))
    );
    assert_eq!(set_response(Ok(())), Response::Put(Ok(())));
    assert_eq!(
        set_response(Err(KvsError::Io("disk full".to_string()))),
        Response::Put(Err("disk full".to_string()))
    );
    assert_eq!(remove_response(Ok(())), Response::Remove(Ok(())));
    assert_eq!(
        remove_response(Err(KvsError::KeyNotFound)),
        Response::Remove(Err("Key not found".to_string()))
    );
}

#[test]
fn dispatch_hands_the_request_to_the_engine() {
    let engine = MemoryEngine::new();
    assert_eq!(dispatch(&engine, set("a", "1")), Response::Put(Ok(())));
    assert_eq!(dispatch(&engine, get("a")), Response::Get(Ok(Some("1".to_string()))));
    assert_eq!(dispatch(&engine, remove("a")), Response::Remove(Ok(())));
    assert_eq!(dispatch(&engine, get("a")), Response::Get(Ok(None)));
    assert_eq!(
        dispatch(&engine, remove("a")),
        Response::Remove(Err("Key not found".to_string()))
    );
}

#[test]
fn server_roundtrip() {
    let engine = MemoryEngine::new();
    let mut wire = Vec::new();
    for request in [set("a", "1"), get("a"), remove("a"), get("a")] {
        wire.extend_from_slice(&request.encode());
    }
    let (responses, read) = serve(&engine, &wire);
    assert_eq!(read, wire.len());
    let mut results = Vec::new();
    let mut answer = Vec::new();
    for response in &responses {
        answer.extend_from_slice(&response.encode());
    }
    let mut pos = 0;
    while pos < answer.len() {
        let (response, end) = Response::decode_at(&answer, pos).unwrap();
        results.push(response);
        pos = end;
    }
    assert_eq!(results.len(), 4);
    let mut results = results.into_iter();
    assert_eq!(set_result(results.next().unwrap()), Ok(()));
    assert_eq!(get_result(results.next().unwrap()), Ok(Some("1".to_string())));
    assert_eq!(remove_result(results.next().unwrap()), Ok(()));
    assert_eq!(get_result(results.next().unwrap()), Ok(None));
}

#[test]
fn serve_stops_at_a_request_that_has_not_come_in_full() {
    let engine = MemoryEngine::new();
    let mut wire = set("a", "1").encode();
    let whole = wire.len();
    wire.extend_from_slice(&get("a").encode()[..10]);
    let (responses, read) = serve(&engine, &wire);
    assert_eq!(read, whole);
    assert_eq!(responses, vec![Response::Put(Ok(()))]);
    let (responses, read) = serve(&engine, b"");
    assert_eq!((responses.len(), read), (0, 0));
}

#[test]
fn the_client_turns_the_servers_error_into_a_string_error() {
    assert_eq!(
        get_result(Response::Get(Err("boom".to_string()))),
        Err(KvsError::StringErr("boom".to_string()))
    );
    assert_eq!(
        set_result(Response::Put(Err("boom".to_string()))),
        Err(KvsError::StringErr("boom".to_string()))
    );
    assert_eq!(
        remove_result(Response::Remove(Err("Key not found".to_string()))),
        Err(KvsError::StringErr("Key not found".to_string()))
    );
}

#[test]
fn engine_names_are_parsed() {
    assert_eq!(Engine::parse("kvs"), Ok(Engine::Kvs));
    assert_eq!(Engine::parse("sled"), Ok(Engine::Sled));
    for name in ["", "KVS", "kvs ", "sleds", "rocksdb"] {
        assert_eq!(Engine::parse(name), Err(KvsError::ParseEngineNameErr));
    }
    assert_eq!(Engine::Kvs.name(), "kvs");
    assert_eq!(Engine::Sled.name(), "sled");
}

#[test]
fn the_engine_file_records_the_engine() {
    assert_eq!(recorded_engine(None), None);
    assert_eq!(recorded_engine(Some("kvs")), Some(Engine::Kvs));
    assert_eq!(recorded_engine(Some("sled")), Some(Engine::Sled));
    assert_eq!(recorded_engine(Some("kvs\n")), None);
    assert_eq!(recorded_engine(Some("")), None);
}

#[test]
fn the_engine_asked_for_must_be_the_one_recorded() {
    assert_eq!(select_engine(None, None), Some(Engine::Kvs));
    assert_eq!(select_engine(Some(Engine::Sled), None), Some(Engine::Sled));
    assert_eq!(select_engine(None, Some(Engine::Sled)), Some(Engine::Sled));
    assert_eq!(select_engine(Some(Engine::Kvs), Some(Engine::Kvs)), Some(Engine::Kvs));
    assert_eq!(select_engine(Some(Engine::Kvs), Some(Engine::Sled)), None);
    assert_eq!(select_engine(Some(Engine::Sled), Some(Engine::Kvs)), None);
}

#[test]
fn messages_that_have_not_come_in_full_may_go_on() {
    for request in [get("k"), set("key", "value"), remove("k")] {
        let bytes = request.encode();
        for cut in 0..bytes.len() {
            assert!(Request::may_go_on(&bytes[..cut], 0));
        }
        assert!(!Request::may_go_on(&bytes, 0));
    }
    for response in [
        Response::Get(Ok(None)),
        Response::Get(Ok(Some("v".to_string()))),
        Response::Get(Err("e".to_string())),
        Response::Put(Ok(())),
        Response::Put(Err("e".to_string())),
        Response::Remove(Ok(())),
        Response::Remove(Err("e".to_string())),
    ] {
        let bytes = response.encode();
        for cut in 0..bytes.len() {
            assert!(Response::may_go_on(&bytes[..cut], 0));
        }
        assert!(!Response::may_go_on(&bytes, 0));
    }
}

#[test]
fn bytes_that_are_no_message_do_not_go_on() {
    assert!(!Request::may_go_on(b"GET / HTTP/1.1", 0));
    assert!(!Request::may_go_on(b"{\"Rm\":{\"key\":", 0));
    assert!(!Response::may_go_on(b"{\"Get\":{\"Ok\":7", 0));
    assert!(!Response::may_go_on(b"{\"Get\":{\"key\":", 0));
}
