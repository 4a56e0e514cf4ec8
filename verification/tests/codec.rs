use simple_kv::engine::command::Cmd;
use simple_kv::engine::kvs::read_value;
use simple_kv::KvsError;

fn set(key: &str, value: &str) -> Cmd {
    Cmd::Put { key: key.to_string(), value: value.to_string() }
}

fn rm(key: &str) -> Cmd {
    Cmd::Rm { key: key.to_string() }
}

#[test]
fn set_record_is_written_as_json() {
    assert_eq!(set("k", "v1").encode(), b"{\"Set\":{\"key\":\"k\",\"value\":\"v1\"}}".to_vec());
}

#[test]
fn rm_record_is_written_as_json() {
    assert_eq!(rm("k").encode(), b"{\"Rm\":{\"key\":\"k\"}}".to_vec());
}

#[test]
fn empty_key_and_value_are_written() {
    assert_eq!(set("", "").encode(), b"{\"Set\":{\"key\":\"\",\"value\":\"\"}}".to_vec());
    assert_eq!(Cmd::decode(&set("", "").encode()), Ok(set("", "")));
}

#[test]
fn quotes_backslashes_and_control_characters_are_escaped() {
    let cmd = set("a\"b\\c", "line\nbreak\ttab\u{1}");
    assert_eq!(
        cmd.encode(),
        b"{\"Set\":{\"key\":\"a\\\"b\\\\c\",\"value\":\"line\\nbreak\\ttab\\u0001\"}}".to_vec()
    );
}

#[test]
fn records_read_back() {
    for cmd in [
        set("k", "v"),
        set("a\"b\\c", "line\nbreak\ttab\u{1}\u{8}\u{c}\r"),
        set("clé", "値 \u{1F600}"),
        set("}}", "{\"Set\":{\"key\":\"x\"}}"),
        rm("k"),
        rm(""),
        rm("\\\""),
    ] {
        assert_eq!(Cmd::decode(&cmd.encode()), Ok(cmd));
    }
}

#[test]
fn escapes_that_the_writer_does_not_use_are_read() {
    let bytes = b"{\"Set\":{\"key\":\"\\u0041\\/\",\"value\":\"\\ud83d\\ude00\"}}";
    assert_eq!(Cmd::decode(bytes), Ok(set("A/", "\u{1F600}")));
}

#[test]
fn a_record_is_read_from_the_middle_of_a_segment() {
    let first = set("k", "v1").encode();
    let second = rm("k").encode();
    let mut segment = first.clone();
    segment.extend_from_slice(&second);
    assert_eq!(Cmd::decode_at(&segment, 0), Ok((set("k", "v1"), first.len())));
    assert_eq!(Cmd::decode_at(&segment, first.len()), Ok((rm("k"), segment.len())));
}

#[test]
fn trailing_bytes_are_refused_where_one_record_is_expected() {
    let mut bytes = set("k", "v").encode();
    bytes.push(b' ');
    assert!(matches!(Cmd::decode(&bytes), Err(KvsError::SerdeError(_))));
}

#[test]
fn malformed_records_are_serde_errors() {
    for bytes in [
        &b""[..],
        &b"{"[..],
        &b"{\"Set\":{\"key\":\"k\"}}"[..],
        &b"{\"Set\":{\"key\":\"k\",\"value\":\"v\"}"[..],
        &b"{\"Set\":{\"key\":\"k\",\"value\":\"v}}"[..],
        &b"{\"Set\":{\"key\":\"k\",\"value\":\"\\x\"}}"[..],
        &b"{\"Set\":{\"key\":\"k\",\"value\":\"\xff\"}}"[..],
        &b"{\"Rm\":{\"key\":k}}"[..],
        &b"{\"Get\":{\"key\":\"k\"}}"[..],
        &b" {\"Rm\":{\"key\":\"k\"}}"[..],
    ] {
        assert!(matches!(Cmd::decode(bytes), Err(KvsError::SerdeError(_))));
    }
}

#[test]
fn read_value_gives_the_value_of_a_set_record() {
    assert_eq!(read_value(&set("k", "v1").encode()), Ok("v1".to_string()));
}

#[test]
fn read_value_of_a_rm_record_is_an_undefined_command() {
    assert_eq!(read_value(&rm("k").encode()), Err(KvsError::UndefCmdline));
}

#[test]
fn read_value_of_garbage_is_a_serde_error() {
    assert!(matches!(read_value(b"garbage"), Err(KvsError::SerdeError(_))));
}

#[test]
fn a_record_that_has_not_come_in_full_may_go_on() {
    for cmd in [set("key", "va\\\"lue"), rm("key")] {
        let bytes = cmd.encode();
        for cut in 0..bytes.len() {
            assert!(Cmd::may_go_on(&bytes[..cut], 0));
            assert!(matches!(Cmd::decode_at(&bytes[..cut], 0), Err(KvsError::SerdeError(_))));
        }
        assert!(!Cmd::may_go_on(&bytes, 0));
        assert!(Cmd::may_go_on(&bytes, bytes.len()));
    }
}

#[test]
fn bytes_that_are_no_record_do_not_go_on() {
    for bytes in [
        &b"x"[..],
        &b"{\"Get\":"[..],
        &b"{\"Set\":{\"key\":7"[..],
        &b"{\"Set\":{\"key\":\"k\";"[..],
        &b"{\"Rm\":{\"key\":\"k\"}x"[..],
        &b"{\"Rm\":{\"key\":\"k\"}}"[..],
    ] {
        assert!(!Cmd::may_go_on(bytes, 0));
    }
}
