use simple_kv::engine::index::CmdPos;
use simple_kv::engine::kvs::{read_value, KvStore, LogWrite, Move, COMPACTION};
use simple_kv::engine::segment::stale_gens;
use simple_kv::KvsError;
use std::collections::BTreeMap;

/// A directory of segments, held in memory.
struct Disk {
    segments: BTreeMap<u64, Vec<u8>>,
}

impl Disk {
    fn new() -> Disk {
        Disk { segments: BTreeMap::new() }
    }

    /// Does what a mutation of the store asks of the owner of the files.
    fn append(&mut self, write: &LogWrite) {
        let segment = self.segments.entry(write.gen).or_default();
        assert_eq!(segment.len() as u64, write.pos);
        segment.extend_from_slice(&write.record);
    }

    /// Creates the new active segment where the writer rotated.
    fn follow(&mut self, rotated: Option<u64>) -> Option<u64> {
        if let Some(gen) = rotated {
            self.segments.entry(gen + 1).or_default();
        }
        rotated
    }

    fn read(&self, at: CmdPos) -> Vec<u8> {
        let segment = &self.segments[&at.gen];
        segment[at.pos as usize..(at.pos + at.len) as usize].to_vec()
    }

    fn listing(&self) -> Vec<(u64, Vec<u8>)> {
        self.segments.iter().map(|(gen, bytes)| (*gen, bytes.clone())).collect()
    }

    fn size(&self) -> u64 {
        self.segments.values().map(|bytes| bytes.len() as u64).sum()
    }
}

/// A set as the owner of the files carries it out: the record first, then
/// the index.
fn set(store: &mut KvStore, disk: &mut Disk, key: &str, value: &str) -> Option<u64> {
    let write = store.set_record(key, value).unwrap();
    disk.append(&write);
    let rotated = store.set(key.to_string(), &write).unwrap();
    disk.follow(rotated)
}

fn remove(store: &mut KvStore, disk: &mut Disk, key: &str) -> Result<Option<u64>, KvsError> {
    let write = store.remove_record(key)?;
    disk.append(&write);
    let rotated = store.remove(key.to_string(), &write)?;
    Ok(disk.follow(rotated))
}

/// A set without a directory: the record and what `set` returned.
fn put(store: &mut KvStore, key: &str, value: &str) -> (LogWrite, Option<u64>) {
    let write = store.set_record(key, value).unwrap();
    let rotated = store.set(key.to_string(), &write).unwrap();
    (write, rotated)
}

/// A remove without a directory: the record and what `remove` returned.
fn take(store: &mut KvStore, key: &str) -> Result<(LogWrite, Option<u64>), KvsError> {
    let write = store.remove_record(key)?;
    let rotated = store.remove(key.to_string(), &write)?;
    Ok((write, rotated))
}

fn get(store: &KvStore, disk: &Disk, key: &str) -> Option<String> {
    store.get(key.to_string()).map(|at| read_value(&disk.read(at)).unwrap())
}

/// Runs the compaction into `gen` to its end, as the background worker does.
fn compact(store: &mut KvStore, disk: &mut Disk, gen: u64) -> Vec<Move> {
    let plan = store.plan_compaction(gen).unwrap();
    for mv in &plan {
        let record = disk.read(mv.from);
        let target = disk.segments.entry(gen).or_default();
        assert_eq!(target.len() as u64, mv.to.pos);
        target.extend_from_slice(&record);
        store.relocate(mv);
    }
    assert!(store.finish_compaction(gen));
    let gens: Vec<u64> = disk.segments.keys().copied().collect();
    for stale in stale_gens(&gens, gen) {
        disk.segments.remove(&stale);
    }
    plan
}

#[test]
fn a_new_store_writes_to_the_first_generation() {
    let store = KvStore::open(&Vec::new()).unwrap();
    assert_eq!(store.cur_gen(), 1);
    assert_eq!(store.writer_pos(), 0);
    assert_eq!(store.compaction_size(), 0);
    assert_eq!(store.safe_point(), 0);
    assert_eq!(COMPACTION, 1024 * 1024);
}

#[test]
fn basic_roundtrip() {
    let mut disk = Disk::new();
    let mut store = KvStore::open(&Vec::new()).unwrap();
    set(&mut store, &mut disk, "k", "v1");
    assert_eq!(get(&store, &disk, "k"), Some("v1".to_string()));
    set(&mut store, &mut disk, "k", "v2");
    assert_eq!(get(&store, &disk, "k"), Some("v2".to_string()));
    assert_eq!(remove(&mut store, &mut disk, "k"), Ok(None));
    assert_eq!(get(&store, &disk, "k"), None);
    assert_eq!(remove(&mut store, &mut disk, "k"), Err(KvsError::KeyNotFound));
}

#[test]
fn set_says_where_the_record_goes() {
    let mut store = KvStore::open(&Vec::new()).unwrap();
    let (first, rotated) = put(&mut store, "k", "v1");
    assert_eq!(first.gen, 1);
    assert_eq!(first.pos, 0);
    assert_eq!(first.record, b"{\"Set\":{\"key\":\"k\",\"value\":\"v1\"}}".to_vec());
    assert_eq!(rotated, None);
    assert_eq!(store.get("k".to_string()), Some(CmdPos { gen: 1, pos: 0, len: 32 }));
    assert_eq!(store.writer_pos(), 32);
    let (second, _) = put(&mut store, "other", "x");
    assert_eq!(second.pos, 32);
    assert_eq!(store.get("other".to_string()), Some(CmdPos { gen: 1, pos: 32, len: 35 }));
    assert_eq!(store.get("k".to_string()), Some(CmdPos { gen: 1, pos: 0, len: 32 }));
    assert_eq!(store.compaction_size(), 0);
}

#[test]
fn an_overwritten_record_is_stale() {
    let mut store = KvStore::open(&Vec::new()).unwrap();
    put(&mut store, "k", "v1");
    put(&mut store, "k", "longer");
    assert_eq!(store.compaction_size(), 32);
    assert_eq!(store.get("k".to_string()), Some(CmdPos { gen: 1, pos: 32, len: 36 }));
}

#[test]
fn a_removed_record_and_its_tombstone_are_stale() {
    let mut store = KvStore::open(&Vec::new()).unwrap();
    put(&mut store, "k", "v1");
    let (write, _) = take(&mut store, "k").unwrap();
    assert_eq!(write.record, b"{\"Rm\":{\"key\":\"k\"}}".to_vec());
    assert_eq!(write.pos, 32);
    assert_eq!(store.compaction_size(), 32 + 18);
    assert_eq!(store.writer_pos(), 50);
    assert_eq!(store.get("k".to_string()), None);
}

#[test]
fn remove_of_a_missing_key_writes_nothing() {
    let mut store = KvStore::open(&Vec::new()).unwrap();
    put(&mut store, "k", "v");
    let before = (store.writer_pos(), store.compaction_size());
    assert_eq!(take(&mut store, "absent").err(), Some(KvsError::KeyNotFound));
    assert_eq!((store.writer_pos(), store.compaction_size()), before);
}

#[test]
fn setting_twice_reads_as_setting_once() {
    let mut disk = Disk::new();
    let mut store = KvStore::open(&Vec::new()).unwrap();
    set(&mut store, &mut disk, "k", "v");
    set(&mut store, &mut disk, "k", "v");
    assert_eq!(get(&store, &disk, "k"), Some("v".to_string()));
}

#[test]
fn other_keys_keep_their_values() {
    let mut disk = Disk::new();
    let mut store = KvStore::open(&Vec::new()).unwrap();
    set(&mut store, &mut disk, "a", "1");
    set(&mut store, &mut disk, "b", "2");
    set(&mut store, &mut disk, "a", "3");
    remove(&mut store, &mut disk, "a").unwrap();
    assert_eq!(get(&store, &disk, "b"), Some("2".to_string()));
}

#[test]
fn the_last_of_several_values_is_read() {
    let mut disk = Disk::new();
    let mut store = KvStore::open(&Vec::new()).unwrap();
    for i in 0..20 {
        set(&mut store, &mut disk, "k", &format!("v{}", i));
        assert_eq!(get(&store, &disk, "k"), Some(format!("v{}", i)));
    }
}

#[test]
fn persistence() {
    let mut disk = Disk::new();
    let mut store = KvStore::open(&Vec::new()).unwrap();
    for i in 0..100 {
        set(&mut store, &mut disk, &format!("key{}", i), &format!("val{}", i));
    }
    drop(store);
    let reopened = KvStore::open(&disk.listing()).unwrap();
    assert_eq!(reopened.cur_gen(), 2);
    for i in 0..100 {
        assert_eq!(get(&reopened, &disk, &format!("key{}", i)), Some(format!("val{}", i)));
    }
}

#[test]
fn reopening_gives_the_index_and_the_stale_bytes_of_the_running_store() {
    let mut disk = Disk::new();
    let mut store = KvStore::open(&Vec::new()).unwrap();
    set(&mut store, &mut disk, "a", "1");
    set(&mut store, &mut disk, "b", "2");
    set(&mut store, &mut disk, "a", "3");
    remove(&mut store, &mut disk, "b").unwrap();
    let reopened = KvStore::open(&disk.listing()).unwrap();
    for key in ["a", "b", "c"] {
        assert_eq!(reopened.get(key.to_string()), store.get(key.to_string()));
    }
    assert_eq!(reopened.compaction_size(), store.compaction_size());
    assert_eq!(reopened.writer_pos(), 0);
}

#[test]
fn reopening_replays_the_segments_in_the_order_given() {
    let older = b"{\"Set\":{\"key\":\"k\",\"value\":\"old\"}}".to_vec();
    let newer = b"{\"Set\":{\"key\":\"k\",\"value\":\"new\"}}{\"Rm\":{\"key\":\"gone\"}}".to_vec();
    let store = KvStore::open(&vec![(3, older.clone()), (8, newer.clone())]).unwrap();
    assert_eq!(store.cur_gen(), 9);
    assert_eq!(store.get("k".to_string()), Some(CmdPos { gen: 8, pos: 0, len: 33 }));
    assert_eq!(store.get("gone".to_string()), None);
    assert_eq!(store.compaction_size(), 33 + 21);
}

#[test]
fn a_malformed_segment_is_a_serde_error() {
    let bytes = b"{\"Set\":{\"key\":\"k\",\"value\":\"v\"}}{\"Set\":".to_vec();
    assert!(matches!(KvStore::open(&vec![(1, bytes)]), Err(KvsError::SerdeError(_))));
}

#[test]
fn no_generation_after_the_largest_is_an_io_error() {
    assert!(matches!(KvStore::open(&vec![(u64::MAX, Vec::new())]), Err(KvsError::Io(_))));
}

#[test]
fn the_writer_rotates_when_the_stale_bytes_exceed_the_threshold() {
    let mut store = KvStore::open_with_threshold(&Vec::new(), 40).unwrap();
    assert_eq!(put(&mut store, "k", "v1").1, None);
    assert_eq!(put(&mut store, "k", "v2").1, None);
    assert_eq!(store.compaction_size(), 32);
    let (write, rotated) = put(&mut store, "k", "v3");
    assert_eq!((write.gen, write.pos), (1, 64));
    assert_eq!(rotated, Some(2));
    assert_eq!(store.cur_gen(), 3);
    assert_eq!(store.writer_pos(), 0);
    assert_eq!(store.compaction_size(), 0);
    assert_eq!(store.get("k".to_string()), Some(CmdPos { gen: 1, pos: 64, len: 32 }));
}

#[test]
fn stale_bytes_at_the_threshold_do_not_rotate() {
    let mut store = KvStore::open_with_threshold(&Vec::new(), 32).unwrap();
    put(&mut store, "k", "v1");
    assert_eq!(put(&mut store, "k", "v2").1, None);
    assert_eq!(store.cur_gen(), 1);
}

#[test]
fn compaction_rotates_on_demand() {
    let mut store = KvStore::open(&Vec::new()).unwrap();
    put(&mut store, "k", "v");
    assert_eq!(store.compaction(), Some(2));
    assert_eq!(store.cur_gen(), 3);
    assert_eq!(store.writer_pos(), 0);
    assert_eq!(store.compaction(), Some(4));
    assert_eq!(store.cur_gen(), 5);
}

#[test]
fn a_store_at_the_last_generations_does_not_rotate() {
    let mut store = KvStore::open(&vec![(u64::MAX - 2, Vec::new())]).unwrap();
    assert_eq!(store.cur_gen(), u64::MAX - 1);
    assert_eq!(store.compaction(), None);
    assert_eq!(store.cur_gen(), u64::MAX - 1);
}

#[test]
fn a_plan_lays_the_live_records_out_one_after_the_other() {
    let mut disk = Disk::new();
    let mut store = KvStore::open(&Vec::new()).unwrap();
    set(&mut store, &mut disk, "a", "1");
    set(&mut store, &mut disk, "b", "22");
    set(&mut store, &mut disk, "a", "333");
    assert_eq!(store.compaction(), Some(2));
    let plan = store.plan_compaction(2).unwrap();
    assert_eq!(
        plan,
        vec![
            Move {
                key: "a".to_string(),
                from: CmdPos { gen: 1, pos: 63, len: 33 },
                to: CmdPos { gen: 2, pos: 0, len: 33 },
            },
            Move {
                key: "b".to_string(),
                from: CmdPos { gen: 1, pos: 31, len: 32 },
                to: CmdPos { gen: 2, pos: 33, len: 32 },
            },
        ]
    );
}

#[test]
fn a_plan_takes_the_keys_in_ascending_order() {
    let mut store = KvStore::open(&Vec::new()).unwrap();
    for key in ["b", "ab", "", "a", "B", "é", "aa"] {
        put(&mut store, key, "v");
    }
    store.compaction();
    let keys: Vec<String> = store.plan_compaction(2).unwrap().into_iter().map(|mv| mv.key).collect();
    assert_eq!(keys, vec!["", "B", "a", "aa", "ab", "b", "é"]);
}

#[test]
fn a_plan_moves_what_lies_in_the_new_active_segment_too() {
    let mut store = KvStore::open(&Vec::new()).unwrap();
    put(&mut store, "old", "1");
    assert_eq!(store.compaction(), Some(2));
    put(&mut store, "new", "2");
    let plan = store.plan_compaction(2).unwrap();
    assert_eq!(
        plan,
        vec![
            Move {
                key: "new".to_string(),
                from: CmdPos { gen: 3, pos: 0, len: 33 },
                to: CmdPos { gen: 2, pos: 0, len: 33 },
            },
            Move {
                key: "old".to_string(),
                from: CmdPos { gen: 1, pos: 0, len: 33 },
                to: CmdPos { gen: 2, pos: 33, len: 33 },
            },
        ]
    );
}

#[test]
fn after_a_quiet_round_every_key_points_into_the_compaction_segment() {
    let mut disk = Disk::new();
    let mut store = KvStore::open(&Vec::new()).unwrap();
    for (key, value) in [("b", "2"), ("a", "1"), ("c", "333"), ("a", "11")] {
        set(&mut store, &mut disk, key, value);
    }
    let gen = store.compaction().unwrap();
    disk.follow(Some(gen));
    set(&mut store, &mut disk, "d", "4");
    compact(&mut store, &mut disk, gen);
    assert_eq!(store.get("a".to_string()), Some(CmdPos { gen: 2, pos: 0, len: 32 }));
    assert_eq!(store.get("b".to_string()), Some(CmdPos { gen: 2, pos: 32, len: 31 }));
    assert_eq!(store.get("c".to_string()), Some(CmdPos { gen: 2, pos: 63, len: 33 }));
    assert_eq!(store.get("d".to_string()), Some(CmdPos { gen: 2, pos: 96, len: 31 }));
    assert_eq!(disk.segments[&2].len(), 127);
    assert_eq!(disk.segments.keys().copied().collect::<Vec<u64>>(), vec![2, 3]);
    for (key, value) in [("a", "11"), ("b", "2"), ("c", "333"), ("d", "4")] {
        assert_eq!(get(&store, &disk, key), Some(value.to_string()));
    }
}

#[test]
fn a_record_that_is_not_for_the_end_of_the_segment_is_refused() {
    let mut store = KvStore::open(&Vec::new()).unwrap();
    let stale = store.set_record("k", "v").unwrap();
    put(&mut store, "other", "x");
    assert!(matches!(store.set("k".to_string(), &stale), Err(KvsError::Io(_))));
    assert_eq!(store.get("k".to_string()), None);
    let wrong_segment = LogWrite { gen: 9, pos: store.writer_pos(), record: stale.record.clone() };
    assert!(matches!(store.set("k".to_string(), &wrong_segment), Err(KvsError::Io(_))));
    assert!(matches!(store.remove("other".to_string(), &stale), Err(KvsError::Io(_))));
    assert_eq!(store.remove("k".to_string(), &stale), Err(KvsError::KeyNotFound));
}

#[test]
fn a_record_that_was_not_appended_leaves_the_store_as_it_was() {
    let mut store = KvStore::open(&Vec::new()).unwrap();
    put(&mut store, "k", "v1");
    let before = (store.get("k".to_string()), store.writer_pos(), store.compaction_size());
    let _lost = store.set_record("k", "v2").unwrap();
    let _lost = store.remove_record("k").unwrap();
    assert_eq!((store.get("k".to_string()), store.writer_pos(), store.compaction_size()), before);
    assert_eq!(store.remove_record("absent"), Err(KvsError::KeyNotFound));
}

#[test]
fn relocate_moves_an_entry_that_is_unchanged() {
    let mut store = KvStore::open(&Vec::new()).unwrap();
    put(&mut store, "k", "v");
    store.compaction();
    let plan = store.plan_compaction(2).unwrap();
    assert!(store.relocate(&plan[0]));
    assert_eq!(store.get("k".to_string()), Some(CmdPos { gen: 2, pos: 0, len: 31 }));
}

#[test]
fn relocate_leaves_an_entry_that_was_written_since() {
    let mut store = KvStore::open(&Vec::new()).unwrap();
    put(&mut store, "k", "v");
    store.compaction();
    let plan = store.plan_compaction(2).unwrap();
    put(&mut store, "k", "newer");
    assert!(!store.relocate(&plan[0]));
    assert_eq!(store.get("k".to_string()), Some(CmdPos { gen: 3, pos: 0, len: 35 }));
}

#[test]
fn relocate_leaves_an_entry_that_was_removed_since() {
    let mut store = KvStore::open(&Vec::new()).unwrap();
    put(&mut store, "k", "v");
    store.compaction();
    let plan = store.plan_compaction(2).unwrap();
    take(&mut store, "k").unwrap();
    assert!(!store.relocate(&plan[0]));
    assert_eq!(store.get("k".to_string()), None);
}

#[test]
fn a_compaction_is_not_closed_before_its_moves_are_done() {
    let mut store = KvStore::open(&Vec::new()).unwrap();
    put(&mut store, "k", "v");
    store.compaction();
    assert!(!store.finish_compaction(2));
    assert_eq!(store.safe_point(), 0);
    let plan = store.plan_compaction(2).unwrap();
    store.relocate(&plan[0]);
    assert!(store.finish_compaction(2));
    assert_eq!(store.safe_point(), 2);
}

#[test]
fn a_compaction_above_the_active_segment_is_not_closed() {
    let mut store = KvStore::open(&Vec::new()).unwrap();
    assert!(!store.finish_compaction(2));
    assert!(store.finish_compaction(1));
    assert_eq!(store.safe_point(), 1);
}

#[test]
fn the_safe_point_never_falls() {
    let mut store = KvStore::open(&Vec::new()).unwrap();
    store.compaction();
    store.compaction();
    assert!(store.finish_compaction(4));
    assert!(store.finish_compaction(2));
    assert_eq!(store.safe_point(), 4);
}

#[test]
fn values_survive_a_compaction_and_a_reopening() {
    let mut disk = Disk::new();
    let mut store = KvStore::open_with_threshold(&Vec::new(), 100).unwrap();
    let mut compactions = 0;
    for round in 0..10 {
        for key in ["a", "b", "c"] {
            if let Some(gen) = set(&mut store, &mut disk, key, &format!("{}{}", key, round)) {
                compact(&mut store, &mut disk, gen);
                compactions += 1;
            }
        }
    }
    assert!(compactions > 0);
    remove(&mut store, &mut disk, "b").unwrap();
    for (key, value) in [("a", Some("a9")), ("b", None), ("c", Some("c9"))] {
        assert_eq!(get(&store, &disk, key), value.map(|v| v.to_string()));
    }
    let reopened = KvStore::open(&disk.listing()).unwrap();
    for (key, value) in [("a", Some("a9")), ("b", None), ("c", Some("c9"))] {
        assert_eq!(get(&reopened, &disk, key), value.map(|v| v.to_string()));
    }
}

#[test]
fn compaction_trigger() {
    let mut disk = Disk::new();
    let mut store = KvStore::open(&Vec::new()).unwrap();
    let filler = "x".repeat(4096);
    for i in 0..512 {
        let value = format!("{}{}", filler, i);
        if let Some(gen) = set(&mut store, &mut disk, "k", &value) {
            compact(&mut store, &mut disk, gen);
        }
        assert_eq!(get(&store, &disk, "k"), Some(value));
    }
    assert!(disk.segments.len() <= 2);
    assert!(disk.size() < 3 * COMPACTION);
}

#[test]
fn writes_during_a_compaction_are_kept() {
    let mut disk = Disk::new();
    let mut store = KvStore::open(&Vec::new()).unwrap();
    set(&mut store, &mut disk, "a", "1");
    set(&mut store, &mut disk, "b", "2");
    set(&mut store, &mut disk, "c", "3");
    let gen = store.compaction().unwrap();
    disk.segments.entry(gen + 1).or_default();
    let plan = store.plan_compaction(gen).unwrap();
    set(&mut store, &mut disk, "a", "newer");
    remove(&mut store, &mut disk, "b").unwrap();
    for mv in &plan {
        let record = disk.read(mv.from);
        disk.segments.entry(gen).or_default().extend_from_slice(&record);
        store.relocate(mv);
    }
    assert!(store.finish_compaction(gen));
    disk.segments.remove(&1);
    assert_eq!(get(&store, &disk, "a"), Some("newer".to_string()));
    assert_eq!(get(&store, &disk, "b"), None);
    assert_eq!(get(&store, &disk, "c"), Some("3".to_string()));
    let reopened = KvStore::open(&disk.listing()).unwrap();
    assert_eq!(get(&reopened, &disk, "a"), Some("newer".to_string()));
    assert_eq!(get(&reopened, &disk, "b"), None);
    assert_eq!(get(&reopened, &disk, "c"), Some("3".to_string()));
}

#[test]
fn readers_between_writes_see_only_values_that_were_set() {
    let mut disk = Disk::new();
    let mut store = KvStore::open_with_threshold(&Vec::new(), 4096).unwrap();
    let mut latest: BTreeMap<String, String> = BTreeMap::new();
    for i in 0..10_000u32 {
        let key = format!("key{}", i % 100);
        let value = format!("value{}", i);
        if let Some(gen) = set(&mut store, &mut disk, &key, &value) {
            compact(&mut store, &mut disk, gen);
        }
        latest.insert(key, value);
        for reader in 0..8u32 {
            let probe = format!("key{}", (i * 7 + reader * 13) % 100);
            assert_eq!(get(&store, &disk, &probe), latest.get(&probe).cloned());
        }
    }
}
