use crossbeam_skiplist::SkipMap;
use simple_kv::engine::command::Cmd;
use simple_kv::engine::index::CmdPos;
use simple_kv::engine::kvs::{load, load_part, KvStore};
use simple_kv::KvsError;

fn segment() -> Vec<u8> {
    let mut bytes = Vec::new();
    for cmd in [
        Cmd::Put { key: "a".to_string(), value: "1".to_string() },
        Cmd::Put { key: "b".to_string(), value: "22".to_string() },
        Cmd::Put { key: "a".to_string(), value: "333".to_string() },
        Cmd::Rm { key: "b".to_string() },
        Cmd::Put { key: "c".to_string(), value: "é\n".to_string() },
    ] {
        bytes.extend_from_slice(&cmd.encode());
    }
    bytes
}

fn entries(index: &SkipMap<String, CmdPos>) -> Vec<(String, CmdPos)> {
    index.iter().map(|e| (e.key().clone(), *e.value())).collect()
}

#[test]
fn load_replays_a_whole_segment() {
    let mut index = SkipMap::new();
    assert_eq!(load(5, &segment(), &mut index), Ok(31 + 32 + 18));
    assert_eq!(
        entries(&index),
        vec![
            ("a".to_string(), CmdPos { gen: 5, pos: 63, len: 33 }),
            ("c".to_string(), CmdPos { gen: 5, pos: 114, len: 34 }),
        ]
    );
}

#[test]
fn load_of_a_segment_that_was_cut_short_is_a_serde_error() {
    let bytes = segment();
    let mut index = SkipMap::new();
    assert!(matches!(load(5, &bytes[..bytes.len() - 1], &mut index), Err(KvsError::SerdeError(_))));
    assert_eq!(entries(&index).len(), 1);
}

#[test]
fn load_part_stops_at_a_record_that_has_not_come_in_full() {
    let bytes = segment();
    let mut index = SkipMap::new();
    assert_eq!(load_part(5, 0, &bytes[..70], &mut index, 7), (7, 63));
    assert_eq!(
        entries(&index),
        vec![
            ("a".to_string(), CmdPos { gen: 5, pos: 0, len: 31 }),
            ("b".to_string(), CmdPos { gen: 5, pos: 31, len: 32 }),
        ]
    );
    assert_eq!(load_part(5, 63, &bytes[63..], &mut index, 7), (7 + 31 + 32 + 18, bytes.len() - 63));
}

#[test]
fn load_part_of_no_bytes_reads_nothing() {
    let mut index = SkipMap::new();
    assert_eq!(load_part(1, 0, b"", &mut index, 3), (3, 0));
    assert_eq!(load_part(1, 9, b"{\"Se", &mut index, 3), (3, 0));
    assert!(index.is_empty());
}

#[test]
fn loading_in_pieces_is_loading_whole() {
    let bytes = segment();
    let mut whole = SkipMap::new();
    let stale = load(5, &bytes, &mut whole).unwrap();
    for size in [1, 2, 3, 7, 16, 31, 32, 64, 1000] {
        let mut index = SkipMap::new();
        let mut pending: Vec<u8> = Vec::new();
        let mut base = 0u64;
        let mut found = 0u64;
        for piece in bytes.chunks(size) {
            pending.extend_from_slice(piece);
            let (next, read) = load_part(5, base, &pending, &mut index, found);
            found = next;
            base += read as u64;
            pending.drain(..read);
        }
        assert!(pending.is_empty());
        assert_eq!(found, stale);
        assert_eq!(entries(&index), entries(&whole));
    }
}

#[test]
fn a_store_on_a_loaded_index_writes_to_the_next_generation() {
    let mut index = SkipMap::new();
    let stale = load(5, &segment(), &mut index).unwrap();
    let store = KvStore::with_index(index, stale, Some(5), 1000).unwrap();
    assert_eq!(store.cur_gen(), 6);
    assert_eq!(store.writer_pos(), 0);
    assert_eq!(store.compaction_size(), stale);
    assert_eq!(store.safe_point(), 0);
    assert_eq!(store.get("a".to_string()), Some(CmdPos { gen: 5, pos: 63, len: 33 }));
    let empty = KvStore::with_index(SkipMap::new(), 0, None, 1000).unwrap();
    assert_eq!(empty.cur_gen(), 1);
    assert!(matches!(KvStore::with_index(SkipMap::new(), 0, Some(u64::MAX), 1000), Err(KvsError::Io(_))));
}
