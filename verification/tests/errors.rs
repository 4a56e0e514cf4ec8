use simple_kv::KvsError;

#[test]
fn errors_show_their_text() {
    assert_eq!(KvsError::Io("no such file".to_string()).message(), "no such file");
    assert_eq!(KvsError::SerdeError("EOF".to_string()).message(), "EOF");
    assert_eq!(KvsError::UndefCmdline.message(), "Undefined Command Error");
    assert_eq!(KvsError::KeyNotFound.message(), "Key not found");
    assert_eq!(KvsError::ParseEngineNameErr.message(), "Parse Engine Name Fail");
    assert_eq!(KvsError::StringErr("from the server".to_string()).message(), "from the server");
    assert_eq!(KvsError::SledErr("corrupt".to_string()).message(), "sled error: corrupt");
    assert_eq!(KvsError::Utf8Error("bad byte".to_string()).message(), "UTF-8 error: bad byte");
}
