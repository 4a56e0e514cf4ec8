//! The log-structured store: the index, the writer's bookkeeping and the
//! decisions of compaction.
//!
//! The store does no I/O. For each mutation it hands out the record to
//! append and says where it goes; whoever owns the files appends and flushes
//! it, and only then the store carries the mutation out.

use crate::engine::command::{decoded, decoded_at, encoded, Cmd, Record};
use crate::engine::command_lemmas::lemma_decoded_at_advances;
use crate::engine::index::{
    entries, key_before, lists, skipmap_get, skipmap_insert, skipmap_items, skipmap_new,
    skipmap_remove, CmdPos,
};
use crate::kvs_error::KvsError;
use crossbeam_skiplist::SkipMap;
use vstd::prelude::*;
use vstd::string::*;

verus! {

/// The number of stale bytes above which the writer asks for a compaction,
/// unless the store is opened with another.
pub const COMPACTION: u64 = 1024 * 1024;

/// The state of a store as a mathematical value.
pub struct StoreState {
    /// The position of the latest record of each live key.
    pub index: Map<Seq<char>, CmdPos>,
    /// The generation of the active segment.
    pub cur_gen: u64,
    /// The length of the active segment: where the next record goes.
    pub writer_pos: u64,
    /// The bytes of records known to be superseded, up to `u64::MAX`.
    pub stale: u64,
    /// The stale bytes above which a compaction is due.
    pub threshold: u64,
    /// Segments of a generation below this one are retired.
    pub safe_point: u64,
}

/// The length of the record that `index` holds for `key`; 0 where it holds none.
pub open spec fn len_of(index: Map<Seq<char>, CmdPos>, key: Seq<char>) -> u64 {
    if index.contains_key(key) {
        index[key].len
    } else {
        0
    }
}

/// The state after a `Set` record of `len` bytes for `key` went to the end of
/// the active segment: the record that `key` had before, if any, is stale now.
pub open spec fn after_put(v: StoreState, key: Seq<char>, len: u64) -> StoreState {
    StoreState {
        index: v.index.insert(key, CmdPos { gen: v.cur_gen, pos: v.writer_pos, len }),
        writer_pos: (v.writer_pos + len) as u64,
        stale: v.stale.saturating_add(len_of(v.index, key)),
        ..v
    }
}

/// The state after a `Rm` record of `len` bytes for `key` went to the end of
/// the active segment: the record that `key` had and the `Rm` record itself
/// are both stale.
pub open spec fn after_rm(v: StoreState, key: Seq<char>, len: u64) -> StoreState {
    StoreState {
        index: v.index.remove(key),
        writer_pos: (v.writer_pos + len) as u64,
        stale: v.stale.saturating_add(len_of(v.index, key)).saturating_add(len),
        ..v
    }
}

/// Whether the writer can rotate: two more generation numbers are left.
pub open spec fn can_rotate(v: StoreState) -> bool {
    v.cur_gen + 2 <= u64::MAX
}

/// The state after the writer rotated: the generation after the current one
/// is left to the compactor, the one after that is the new, empty active
/// segment, and the count of stale bytes starts again.
pub open spec fn rotated(v: StoreState) -> StoreState {
    StoreState { cur_gen: (v.cur_gen + 2) as u64, writer_pos: 0, stale: 0, ..v }
}

/// Whether a compaction is due: the stale bytes exceed the threshold, and the
/// writer can rotate.
pub open spec fn due(v: StoreState) -> bool {
    v.stale > v.threshold && can_rotate(v)
}

/// The state after the look at the stale bytes that follows each mutation.
pub open spec fn settled(v: StoreState) -> StoreState {
    if due(v) {
        rotated(v)
    } else {
        v
    }
}

/// The generation to compact into, where a compaction is due after a
/// mutation.
pub open spec fn triggered(v: StoreState) -> Option<u64> {
    if due(v) {
        Some((v.cur_gen + 1) as u64)
    } else {
        None
    }
}

/// One step of a compaction: the record of `key` that lies at `from` is
/// copied to `to`.
#[derive(Debug, Clone, PartialEq, Eq)]
pub struct Move {
    pub key: String,
    pub from: CmdPos,
    pub to: CmdPos,
}

/// The offset of the `i`-th move's target in the compaction segment: the
/// lengths of the records before it, summed.
pub open spec fn offset_of(moves: Seq<Move>, i: int) -> int
    decreases i,
{
    if i <= 0 {
        0
    } else {
        offset_of(moves, i - 1) + moves[i - 1].from.len
    }
}

/// Whether `moves` is the plan to compact `index` into generation `gen`: it
/// moves each entry once, from where the index has it, in the ascending
/// order of the keys, and lays the records out in the new segment one after
/// the other, each with its old length.
pub open spec fn is_plan(moves: Seq<Move>, index: Map<Seq<char>, CmdPos>, gen: u64) -> bool {
    &&& forall|i: int|
        0 <= i < moves.len() ==> {
            &&& index.contains_key(#[trigger] moves[i].key@)
            &&& index[moves[i].key@] == moves[i].from
            &&& offset_of(moves, i) + moves[i].from.len <= u64::MAX
            &&& moves[i].to == CmdPos {
                gen,
                pos: offset_of(moves, i) as u64,
                len: moves[i].from.len,
            }
        }
    &&& forall|k: Seq<char>| #[trigger]
        index.contains_key(k) ==> exists|i: int| 0 <= i < moves.len() && #[trigger] moves[i].key@ == k
    &&& forall|i: int, j: int|
        0 <= i < j < moves.len() ==> #[trigger] moves[i].key@ != #[trigger] moves[j].key@
    &&& forall|i: int, j: int|
        0 <= i < j < moves.len() ==> key_before(#[trigger] moves[i].key@, #[trigger] moves[j].key@)
}

/// The bytes that the first `n` items take together.
pub open spec fn live_bytes(items: Seq<(String, CmdPos)>, n: int) -> int
    decreases n,
{
    if n <= 0 {
        0
    } else {
        live_bytes(items, n - 1) + items[n - 1].1.len
    }
}

/// The index after the move `mv` was carried out: the entry of its key points
/// at the copy, unless the key was written or removed since the plan was made.
pub open spec fn relocated(index: Map<Seq<char>, CmdPos>, mv: Move) -> Map<Seq<char>, CmdPos> {
    if index.get(mv.key@) == Some(mv.from) {
        index.insert(mv.key@, mv.to)
    } else {
        index
    }
}

/// Whether every entry of `index` lies in generation `gen` or above.
pub open spec fn all_at_or_above(index: Map<Seq<char>, CmdPos>, gen: u64) -> bool {
    forall|k: Seq<char>| #[trigger] index.contains_key(k) ==> index[k].gen >= gen
}

/// Whether the compaction into `gen` can be closed: every entry has left the
/// segments below `gen`, and `gen` is not above the active segment.
pub open spec fn compacted(v: StoreState, gen: u64) -> bool {
    gen <= v.cur_gen && all_at_or_above(v.index, gen)
}

/// What a mutation asks of the owner of the files before it is carried out:
/// a record to append to the active segment.
#[derive(Debug, Clone, PartialEq, Eq)]
pub struct LogWrite {
    /// The generation of the segment to append to.
    pub gen: u64,
    /// The offset at which the record starts: the segment's length before.
    pub pos: u64,
    /// The bytes to append.
    pub record: Vec<u8>,
}

/// Whether a record of `len` bytes for the offset `pos` of the segment of
/// generation `gen` is one for the end of the active segment, and the segment
/// has room for it.
pub open spec fn lands(v: StoreState, gen: u64, pos: u64, len: nat) -> bool {
    gen == v.cur_gen && pos == v.writer_pos && v.writer_pos + len <= u64::MAX
}

/// The store: the index and the writer's bookkeeping.
pub struct KvStore {
    /// The position of the latest record of each live key.
    key_gen_map: SkipMap<String, CmdPos>,
    /// The generation of the active segment.
    cur_gen: u64,
    /// The length of the active segment.
    writer_pos: u64,
    /// The stale bytes counted since the last rotation.
    compaction_size: u64,
    /// The stale bytes above which a compaction is due.
    compaction_threshold: u64,
    /// Segments of a generation below this one are retired.
    safe_point: u64,
}

impl View for KvStore {
    type V = StoreState;

    closed spec fn view(&self) -> StoreState {
        StoreState {
            index: entries(self.key_gen_map),
            cur_gen: self.cur_gen,
            writer_pos: self.writer_pos,
            stale: self.compaction_size,
            threshold: self.compaction_threshold,
            safe_point: self.safe_point,
        }
    }
}

/// The index and the stale bytes after the records of `bytes` from `pos` on
/// were replayed as the segment of generation `gen`; `None` where a record is
/// malformed.
pub open spec fn replayed(
    gen: u64,
    bytes: Seq<u8>,
    pos: int,
    index: Map<Seq<char>, CmdPos>,
    stale: u64,
) -> Option<(Map<Seq<char>, CmdPos>, u64)>
    decreases bytes.len() - pos,
{
    if pos < 0 || pos >= bytes.len() {
        Some((index, stale))
    } else {
        match decoded_at(bytes, pos) {
            Some((rec, end)) => if pos < end <= bytes.len() {
                let len = (end - pos) as u64;
                match rec {
                    Record::Put { key, value } => replayed(
                        gen,
                        bytes,
                        end,
                        index.insert(key, CmdPos { gen, pos: pos as u64, len }),
                        stale.saturating_add(len_of(index, key)),
                    ),
                    Record::Rm { key } => replayed(
                        gen,
                        bytes,
                        end,
                        index.remove(key),
                        stale.saturating_add(len_of(index, key)).saturating_add(len),
                    ),
                }
            } else {
                None
            },
            None => None,
        }
    }
}

/// What the replay of the records that stand in full in `bytes`, from `pos`
/// on, makes of the index and of the stale bytes, and the index in `bytes`
/// at which it stops: the first place where no well-formed record starts,
/// or the end. The bytes are those at the offset `base` of the segment of
/// generation `gen`.
pub open spec fn replayed_part(
    gen: u64,
    base: u64,
    bytes: Seq<u8>,
    pos: int,
    index: Map<Seq<char>, CmdPos>,
    stale: u64,
) -> (Map<Seq<char>, CmdPos>, u64, int)
    decreases bytes.len() - pos,
{
    if pos < 0 || pos >= bytes.len() {
        (index, stale, pos)
    } else {
        match decoded_at(bytes, pos) {
            Some((rec, end)) => if pos < end <= bytes.len() {
                let len = (end - pos) as u64;
                let at = CmdPos { gen, pos: (base + pos) as u64, len };
                match rec {
                    Record::Put { key, value } => replayed_part(
                        gen,
                        base,
                        bytes,
                        end,
                        index.insert(key, at),
                        stale.saturating_add(len_of(index, key)),
                    ),
                    Record::Rm { key } => replayed_part(
                        gen,
                        base,
                        bytes,
                        end,
                        index.remove(key),
                        stale.saturating_add(len_of(index, key)).saturating_add(len),
                    ),
                }
            } else {
                (index, stale, pos)
            },
            None => (index, stale, pos),
        }
    }
}

/// The replay of a whole segment is the replay of its records as far as they
/// go, where that is to the end; it fails where a place is met at which no
/// well-formed record starts.
pub proof fn lemma_part_of_whole(
    gen: u64,
    bytes: Seq<u8>,
    pos: int,
    index: Map<Seq<char>, CmdPos>,
    stale: u64,
)
    requires
        0 <= pos <= bytes.len(),
    ensures
        ({
            let part = replayed_part(gen, 0, bytes, pos, index, stale);
            &&& pos <= part.2 <= bytes.len()
            &&& part.2 < bytes.len() ==> decoded_at(bytes, part.2) is None
            &&& replayed(gen, bytes, pos, index, stale) == (if part.2 == bytes.len() {
                Some((part.0, part.1))
            } else {
                None
            })
        }),
    decreases bytes.len() - pos,
{
    if pos < bytes.len() {
        match decoded_at(bytes, pos) {
            Some((rec, end)) => {
                lemma_decoded_at_advances(bytes, pos);
                let len = (end - pos) as u64;
                match rec {
                    Record::Put { key, value } => {
                        lemma_part_of_whole(
                            gen,
                            bytes,
                            end,
                            index.insert(key, CmdPos { gen, pos: pos as u64, len }),
                            stale.saturating_add(len_of(index, key)),
                        );
                    },
                    Record::Rm { key } => {
                        lemma_part_of_whole(
                            gen,
                            bytes,
                            end,
                            index.remove(key),
                            stale.saturating_add(len_of(index, key)).saturating_add(len),
                        );
                    },
                }
            },
            None => {},
        }
    }
}

/// Replays the records that stand in full at the start of `bytes` into the
/// index, in order: a `Set` record takes the place of what the key had, a
/// `Rm` record removes the key. The bytes are those at the offset `base` of
/// the segment of generation `gen`, and `stale` is the count of stale bytes
/// so far.
///
/// The result is the count of stale bytes after these records, which adds
/// the records that they superseded and the `Rm` records themselves, and the
/// number of bytes that were read as records. What follows them is the start
/// of a record that has not come in full, or no record at all: a caller that
/// reads a segment piece by piece keeps it and puts the next piece behind it.
pub fn load_part(
    gen: u64,
    base: u64,
    bytes: &[u8],
    key_gen_map: &mut SkipMap<String, CmdPos>,
    stale: u64,
) -> (r: (u64, usize))
    requires
        base + bytes@.len() <= u64::MAX,
    ensures
        (entries(*final(key_gen_map)), r.0, r.1 as int) == replayed_part(
            gen,
            base,
            bytes@,
            0,
            entries(*old(key_gen_map)),
            stale,
        ),
{
    let mut pos: usize = 0;
    let mut compaction_size: u64 = stale;
    while pos < bytes.len()
        invariant
            pos <= bytes@.len(),
            base + bytes@.len() <= u64::MAX,
            replayed_part(gen, base, bytes@, pos as int, entries(*key_gen_map), compaction_size)
                == replayed_part(gen, base, bytes@, 0, entries(*old(key_gen_map)), stale),
        decreases bytes@.len() - pos,
    {
        let (cmd, new_pos) = match Cmd::decode_at(bytes, pos) {
            Ok(found) => found,
            Err(_) => {
                return (compaction_size, pos);
            },
        };
        let len = (new_pos - pos) as u64;
        let cmd_pos = CmdPos { gen, pos: base + pos as u64, len };
        match cmd {
            Cmd::Put { key, value } => {
                if let Some(old_cmd) = skipmap_get(key_gen_map, &key) {
                    compaction_size = compaction_size.saturating_add(old_cmd.len);
                }
                skipmap_insert(key_gen_map, key, cmd_pos);
            },
            Cmd::Rm { key } => {
                if let Some(old_cmd) = skipmap_remove(key_gen_map, &key) {
                    compaction_size = compaction_size.saturating_add(old_cmd.len);
                }
                compaction_size = compaction_size.saturating_add(len);
            },
        }
        pos = new_pos;
    }
    (compaction_size, pos)
}

/// Replays the records of one segment, given whole, into the index. The
/// result is the number of bytes that the replay found stale: the records
/// that it superseded and the `Rm` records themselves.
///
/// A `SerdeError` where a record is malformed; the index then holds what the
/// records before the first malformed one made of it.
pub fn load(gen: u64, bytes: &[u8], key_gen_map: &mut SkipMap<String, CmdPos>) -> (r: Result<
    u64,
    KvsError,
>)
    ensures
        match replayed(gen, bytes@, 0, entries(*old(key_gen_map)), 0) {
            Some((index, stale)) => r == Ok::<u64, KvsError>(stale) && entries(*final(key_gen_map))
                == index,
            None => r is Err && r->Err_0 is SerdeError && entries(*final(key_gen_map))
                == replayed_part(gen, 0, bytes@, 0, entries(*old(key_gen_map)), 0).0,
        },
{
    proof {
        lemma_part_of_whole(gen, bytes@, 0, entries(*key_gen_map), 0);
    }
    let total = bytes.len();
    assert(bytes@.len() <= u64::MAX);
    let (compaction_size, read) = load_part(gen, 0, bytes, key_gen_map, 0);
    if read == total {
        Ok(compaction_size)
    } else {
        match Cmd::decode_at(bytes, read) {
            Err(e) => Err(e),
            Ok(_) => Err(KvsError::SerdeError("expected a record".to_string())),
        }
    }
}

/// The segments of a directory as mathematical values: each generation with
/// the bytes of its segment.
pub open spec fn logs_of(segments: Seq<(u64, Vec<u8>)>) -> Seq<(u64, Seq<u8>)> {
    Seq::new(segments.len(), |i: int| (segments[i].0, segments[i].1@))
}

/// The index and the stale bytes after the segments from the `i`-th on were
/// replayed in the order given.
pub open spec fn replayed_all(
    logs: Seq<(u64, Seq<u8>)>,
    i: int,
    index: Map<Seq<char>, CmdPos>,
    stale: u64,
) -> Option<(Map<Seq<char>, CmdPos>, u64)>
    decreases logs.len() - i,
{
    if i < 0 || i >= logs.len() {
        Some((index, stale))
    } else {
        match replayed(logs[i].0, logs[i].1, 0, index, 0) {
            Some((next, more)) => replayed_all(logs, i + 1, next, stale.saturating_add(more)),
            None => None,
        }
    }
}

/// Whether the generations of the segments ascend.
pub open spec fn gens_ascend(logs: Seq<(u64, Seq<u8>)>) -> bool {
    forall|i: int, j: int| 0 <= i <= j < logs.len() ==> logs[i].0 <= logs[j].0
}

/// The generation of the segment that a store writes to after it was opened
/// on `logs`: the one after the last, or 1 where there is none.
pub open spec fn next_gen(logs: Seq<(u64, Seq<u8>)>) -> int {
    if logs.len() == 0 {
        1
    } else {
        logs.last().0 + 1
    }
}

impl KvStore {
    /// The generation of the active segment.
    pub fn cur_gen(&self) -> (r: u64)
        ensures
            r == self@.cur_gen,
    {
        self.cur_gen
    }

    /// The length of the active segment: the offset of the next record.
    pub fn writer_pos(&self) -> (r: u64)
        ensures
            r == self@.writer_pos,
    {
        self.writer_pos
    }

    /// The stale bytes counted since the last rotation.
    pub fn compaction_size(&self) -> (r: u64)
        ensures
            r == self@.stale,
    {
        self.compaction_size
    }

    /// The generation below which segments are retired.
    pub fn safe_point(&self) -> (r: u64)
        ensures
            r == self@.safe_point,
    {
        self.safe_point
    }

    /// Opens a store on the segments of a directory, given with their
    /// generations in ascending order, with the default threshold.
    pub fn open(segments: &Vec<(u64, Vec<u8>)>) -> (r: Result<KvStore, KvsError>)
        requires
            gens_ascend(logs_of(segments@)),
        ensures
            KvStore::opens(logs_of(segments@), COMPACTION, r),
    {
        KvStore::open_with_threshold(segments, COMPACTION)
    }

    /// What `open_with_threshold` returns on `logs`: the store that the
    /// replay of all segments gives, writing to the next generation; a
    /// `SerdeError` where a record is malformed; an `Io` error where no
    /// generation number is left for the active segment.
    pub open spec fn opens(
        logs: Seq<(u64, Seq<u8>)>,
        threshold: u64,
        r: Result<KvStore, KvsError>,
    ) -> bool {
        match replayed_all(logs, 0, Map::empty(), 0) {
            Some((index, stale)) => if next_gen(logs) <= u64::MAX {
                r is Ok && r->Ok_0@ == (StoreState {
                    index,
                    cur_gen: next_gen(logs) as u64,
                    writer_pos: 0,
                    stale,
                    threshold,
                    safe_point: 0,
                })
            } else {
                r is Err && r->Err_0 is Io
            },
            None => r is Err && r->Err_0 is SerdeError,
        }
    }

    /// Opens a store on the segments of a directory, given with their
    /// generations in ascending order: replays each segment in turn to
    /// rebuild the index and to count the stale bytes. The store writes to a
    /// new segment, of the generation after the last.
    pub fn open_with_threshold(segments: &Vec<(u64, Vec<u8>)>, threshold: u64) -> (r: Result<
        KvStore,
        KvsError,
    >)
        requires
            gens_ascend(logs_of(segments@)),
        ensures
            KvStore::opens(logs_of(segments@), threshold, r),
    {
        let mut key_gen_map = skipmap_new();
        let mut compaction_size: u64 = 0;
        let mut i: usize = 0;
        while i < segments.len()
            invariant
                i <= segments@.len(),
                replayed_all(logs_of(segments@), i as int, entries(key_gen_map), compaction_size)
                    == replayed_all(logs_of(segments@), 0, Map::empty(), 0),
            decreases segments@.len() - i,
        {
            let more = match load(segments[i].0, segments[i].1.as_slice(), &mut key_gen_map) {
                Ok(more) => more,
                Err(e) => {
                    return Err(e);
                },
            };
            compaction_size = compaction_size.saturating_add(more);
            i += 1;
        }
        let last_gen = if segments.len() == 0 {
            None
        } else {
            Some(segments[segments.len() - 1].0)
        };
        KvStore::with_index(key_gen_map, compaction_size, last_gen, threshold)
    }

    /// The store on an index that was loaded already: `key_gen_map` is what
    /// the replay of the segments gave, `compaction_size` the stale bytes
    /// that it found, and `last_gen` the generation of the last segment, if
    /// there is any. The store writes to a new segment, of the generation
    /// after the last, or 1.
    ///
    /// An `Io` error where no generation number is left for the active
    /// segment.
    pub fn with_index(
        key_gen_map: SkipMap<String, CmdPos>,
        compaction_size: u64,
        last_gen: Option<u64>,
        threshold: u64,
    ) -> (r: Result<KvStore, KvsError>)
        ensures
            match last_gen {
                Some(last) if last == u64::MAX => r is Err && r->Err_0 is Io,
                _ => r is Ok && r->Ok_0@ == (StoreState {
                    index: entries(key_gen_map),
                    cur_gen: match last_gen {
                        Some(last) => (last + 1) as u64,
                        None => 1,
                    },
                    writer_pos: 0,
                    stale: compaction_size,
                    threshold,
                    safe_point: 0,
                }),
            },
    {
        let cur_gen: u64 = match last_gen {
            None => 1,
            Some(last) => {
                if last == u64::MAX {
                    return Err(KvsError::Io("no generation is left for a new segment".to_string()));
                }
                last + 1
            },
        };
        Ok(
            KvStore {
                key_gen_map,
                cur_gen,
                writer_pos: 0,
                compaction_size,
                compaction_threshold: threshold,
                safe_point: 0,
            },
        )
    }

    /// Where the latest record of `key` lies; `None` where the key is not in
    /// the store.
    pub fn get(&self, key: String) -> (r: Option<CmdPos>)
        ensures
            r == self@.index.get(key@),
    {
        skipmap_get(&self.key_gen_map, &key)
    }

    /// Rotates the active segment: leaves the next generation to the
    /// compactor and moves the writer to the one after it, with the count of
    /// stale bytes back at 0. The result is the generation to compact into;
    /// `None`, with the store unchanged, where the generation numbers are
    /// used up.
    pub fn compaction(&mut self) -> (r: Option<u64>)
        ensures
            can_rotate(old(self)@) ==> r == Some((old(self)@.cur_gen + 1) as u64) && final(self)@
                == rotated(old(self)@),
            !can_rotate(old(self)@) ==> r is None && final(self)@ == old(self)@,
    {
        if self.cur_gen > u64::MAX - 2 {
            return None;
        }
        let compaction_gen = self.cur_gen + 1;
        self.cur_gen = self.cur_gen + 2;
        self.writer_pos = 0;
        self.compaction_size = 0;
        Some(compaction_gen)
    }

    /// What follows each mutation: rotates where the stale bytes exceed the
    /// threshold.
    fn settle(&mut self) -> (r: Option<u64>)
        ensures
            r == triggered(old(self)@),
            final(self)@ == settled(old(self)@),
    {
        if self.compaction_size > self.compaction_threshold {
            self.compaction()
        } else {
            None
        }
    }

    /// The `Set` record for `key` and `value`, and where it goes: to the end
    /// of the active segment. The store stays as it is; once the record was
    /// appended and flushed, `set` carries the mutation out.
    ///
    /// An `Io` error where the record would take the active segment past the
    /// largest offset.
    pub fn set_record(&self, key: &str, value: &str) -> (r: Result<LogWrite, KvsError>)
        ensures
            ({
                let rec = encoded(Record::Put { key: key@, value: value@ });
                if self@.writer_pos + rec.len() <= u64::MAX {
                    &&& r is Ok
                    &&& r->Ok_0.gen == self@.cur_gen
                    &&& r->Ok_0.pos == self@.writer_pos
                    &&& r->Ok_0.record@ == rec
                } else {
                    r is Err && r->Err_0 is Io
                }
            }),
    {
        let cmd = Cmd::Put { key: String::from_str(key), value: String::from_str(value) };
        let record = cmd.encode();
        if record.len() as u64 > u64::MAX - self.writer_pos {
            return Err(KvsError::Io("the active segment is full".to_string()));
        }
        Ok(LogWrite { gen: self.cur_gen, pos: self.writer_pos, record })
    }

    /// Sets `key` to the value of the record `write`, after that record was
    /// appended and flushed: the index points at it from now on, and what the
    /// key had before is stale. Where the stale bytes then exceed the
    /// threshold, the writer rotates, and the result is `Some(g)`: the active
    /// segment is now that of generation `g + 1`, to be created empty, and the
    /// compactor is to rewrite the live records into generation `g`.
    ///
    /// An `Io` error, with the store unchanged, where the record is not one
    /// for the end of the active segment.
    pub fn set(&mut self, key: String, write: &LogWrite) -> (r: Result<Option<u64>, KvsError>)
        ensures
            ({
                let len = write.record@.len();
                if lands(old(self)@, write.gen, write.pos, len) {
                    let next = after_put(old(self)@, key@, len as u64);
                    &&& r == Ok::<Option<u64>, KvsError>(triggered(next))
                    &&& final(self)@ == settled(next)
                } else {
                    r is Err && r->Err_0 is Io && final(self)@ == old(self)@
                }
            }),
    {
        let pos = self.writer_pos;
        let gen = self.cur_gen;
        if write.gen != gen || write.pos != pos || write.record.len() as u64 > u64::MAX - pos {
            return Err(KvsError::Io("the record is not for the end of the segment".to_string()));
        }
        let len = write.record.len() as u64;
        if let Some(old_cmd_pos) = skipmap_get(&self.key_gen_map, &key) {
            self.compaction_size = self.compaction_size.saturating_add(old_cmd_pos.len);
        }
        skipmap_insert(&mut self.key_gen_map, key, CmdPos { gen, pos, len });
        self.writer_pos = pos + len;
        Ok(self.settle())
    }

    /// The `Rm` record for `key`, and where it goes: to the end of the active
    /// segment. The store stays as it is; once the record was appended and
    /// flushed, `remove` carries the mutation out.
    ///
    /// `KeyNotFound`, with nothing to append, where the key is not in the
    /// store. An `Io` error where the record would take the active segment
    /// past the largest offset.
    pub fn remove_record(&self, key: &str) -> (r: Result<LogWrite, KvsError>)
        ensures
            ({
                let rec = encoded(Record::Rm { key: key@ });
                if !self@.index.contains_key(key@) {
                    r is Err && r->Err_0 is KeyNotFound
                } else if self@.writer_pos + rec.len() <= u64::MAX {
                    &&& r is Ok
                    &&& r->Ok_0.gen == self@.cur_gen
                    &&& r->Ok_0.pos == self@.writer_pos
                    &&& r->Ok_0.record@ == rec
                } else {
                    r is Err && r->Err_0 is Io
                }
            }),
    {
        let key = String::from_str(key);
        if skipmap_get(&self.key_gen_map, &key).is_none() {
            return Err(KvsError::KeyNotFound);
        }
        let cmd = Cmd::Rm { key };
        let record = cmd.encode();
        if record.len() as u64 > u64::MAX - self.writer_pos {
            return Err(KvsError::Io("the active segment is full".to_string()));
        }
        Ok(LogWrite { gen: self.cur_gen, pos: self.writer_pos, record })
    }

    /// Removes `key`, after the `Rm` record `write` was appended and flushed:
    /// the key leaves the index, and both its last record and the `Rm` record
    /// are stale. Where the stale bytes then exceed the threshold, the writer
    /// rotates, and the result is `Some(g)` as for `set`.
    ///
    /// `KeyNotFound`, with the store unchanged, where the key is not in the
    /// store. An `Io` error, with the store unchanged, where the record is not
    /// one for the end of the active segment.
    pub fn remove(&mut self, key: String, write: &LogWrite) -> (r: Result<Option<u64>, KvsError>)
        ensures
            ({
                let len = write.record@.len();
                if !old(self)@.index.contains_key(key@) {
                    r is Err && r->Err_0 is KeyNotFound && final(self)@ == old(self)@
                } else if lands(old(self)@, write.gen, write.pos, len) {
                    let next = after_rm(old(self)@, key@, len as u64);
                    &&& r == Ok::<Option<u64>, KvsError>(triggered(next))
                    &&& final(self)@ == settled(next)
                } else {
                    r is Err && r->Err_0 is Io && final(self)@ == old(self)@
                }
            }),
    {
        if skipmap_get(&self.key_gen_map, &key).is_none() {
            return Err(KvsError::KeyNotFound);
        }
        let pos = self.writer_pos;
        let gen = self.cur_gen;
        if write.gen != gen || write.pos != pos || write.record.len() as u64 > u64::MAX - pos {
            return Err(KvsError::Io("the record is not for the end of the segment".to_string()));
        }
        let len = write.record.len() as u64;
        if let Some(old_cmd) = skipmap_remove(&mut self.key_gen_map, &key) {
            self.compaction_size = self.compaction_size.saturating_add(old_cmd.len);
        }
        self.compaction_size = self.compaction_size.saturating_add(len);
        self.writer_pos = pos + len;
        Ok(self.settle())
    }

    /// Plans the compaction into `compaction_gen`: one move for each entry of
    /// the index, in the ascending order of the keys, with the offsets at
    /// which the copies follow one another in the new segment.
    ///
    /// An `Io` error where the records to move are longer, together, than the
    /// largest offset: where the entries, as the index lists them, take more
    /// than `u64::MAX` bytes.
    pub fn plan_compaction(&self, compaction_gen: u64) -> (r: Result<Vec<Move>, KvsError>)
        ensures
            match r {
                Ok(moves) => is_plan(moves@, self@.index, compaction_gen) && exists|
                    items: Seq<(String, CmdPos)>,
                |
                    lists(items, self@.index) && live_bytes(items, items.len() as int) <= u64::MAX,
                Err(e) => e is Io && exists|items: Seq<(String, CmdPos)>|
                    lists(items, self@.index) && live_bytes(items, items.len() as int) > u64::MAX,
            },
    {
        let items = skipmap_items(&self.key_gen_map);
        let ghost index = self@.index;
        let mut moves: Vec<Move> = Vec::new();
        let mut new_pos: u64 = 0;
        let mut i: usize = 0;
        while i < items.len()
            invariant
                i <= items@.len(),
                index == self@.index,
                lists(items@, index),
                moves@.len() == i,
                new_pos == offset_of(moves@, i as int),
                new_pos == live_bytes(items@, i as int),
                forall|j: int|
                    0 <= j < i ==> {
                        &&& (#[trigger] moves@[j]).key@ == items@[j].0@
                        &&& moves@[j].from == items@[j].1
                        &&& offset_of(moves@, j) + moves@[j].from.len <= u64::MAX
                        &&& moves@[j].to == CmdPos {
                            gen: compaction_gen,
                            pos: offset_of(moves@, j) as u64,
                            len: moves@[j].from.len,
                        }
                    },
            decreases items@.len() - i,
        {
            let key = items[i].0.clone();
            let from = items[i].1;
            if from.len > u64::MAX - new_pos {
                proof {
                    lemma_live_bytes_grow(items@, i as int + 1, items@.len() as int);
                    assert(live_bytes(items@, i as int + 1) > u64::MAX);
                    assert(lists(items@, self@.index) && live_bytes(items@, items@.len() as int)
                        > u64::MAX);
                }
                return Err(
                    KvsError::Io("the records to compact exceed the largest offset".to_string()),
                );
            }
            let to = CmdPos { gen: compaction_gen, pos: new_pos, len: from.len };
            let ghost before = moves@;
            moves.push(Move { key, from, to });
            proof {
                lemma_offset_of_prefix(before, moves@, before.len() as int);
                assert forall|j: int| 0 <= j < i + 1 implies {
                    &&& (#[trigger] moves@[j]).key@ == items@[j].0@
                    &&& moves@[j].from == items@[j].1
                    &&& offset_of(moves@, j) + moves@[j].from.len <= u64::MAX
                    &&& moves@[j].to == CmdPos {
                        gen: compaction_gen,
                        pos: offset_of(moves@, j) as u64,
                        len: moves@[j].from.len,
                    }
                } by {
                    if j < i {
                        assert(moves@[j] == before[j]);
                        lemma_offset_of_prefix(before, moves@, j);
                    }
                }
            }
            new_pos = new_pos + from.len;
            i += 1;
        }
        proof {
            assert forall|j: int| 0 <= j < moves@.len() implies {
                &&& index.contains_key(#[trigger] moves@[j].key@)
                &&& index[moves@[j].key@] == moves@[j].from
                &&& offset_of(moves@, j) + moves@[j].from.len <= u64::MAX
                &&& moves@[j].to == CmdPos {
                    gen: compaction_gen,
                    pos: offset_of(moves@, j) as u64,
                    len: moves@[j].from.len,
                }
            } by {
                assert(moves@[j].key@ == items@[j].0@);
                assert(index.contains_key(items@[j].0@) && index[items@[j].0@] == items@[j].1);
            }
            assert forall|k: Seq<char>| #[trigger] index.contains_key(k) implies exists|j: int|
                0 <= j < moves@.len() && #[trigger] moves@[j].key@ == k by {
                let t = choose|t: int| 0 <= t < items@.len() && #[trigger] items@[t].0@ == k;
                assert(moves@[t].key@ == k);
            }
            assert forall|j: int, l: int| 0 <= j < l < moves@.len() implies #[trigger] moves@[j].key@
                != #[trigger] moves@[l].key@ by {
                assert(moves@[j].key@ == items@[j].0@ && moves@[l].key@ == items@[l].0@);
                assert(items@[j].0@ != items@[l].0@);
            }
            assert forall|j: int, l: int| 0 <= j < l < moves@.len() implies key_before(
                #[trigger] moves@[j].key@,
                #[trigger] moves@[l].key@,
            ) by {
                assert(moves@[j].key@ == items@[j].0@ && moves@[l].key@ == items@[l].0@);
                assert(key_before(items@[j].0@, items@[l].0@));
            }
            assert(lists(items@, self@.index) && live_bytes(items@, items@.len() as int)
                <= u64::MAX);
        }
        Ok(moves)
    }

    /// Carries out one move of a plan in the index, after the record was
    /// copied: the entry of the key points at the copy from now on. Where the
    /// key was written or removed since the plan was made, the index stays as
    /// it is and the result is `false`.
    pub fn relocate(&mut self, mv: &Move) -> (r: bool)
        ensures
            r == (old(self)@.index.get(mv.key@) == Some(mv.from)),
            final(self)@ == (StoreState { index: relocated(old(self)@.index, *mv), ..old(self)@ }),
    {
        match skipmap_get(&self.key_gen_map, &mv.key) {
            Some(now) => {
                if now == mv.from {
                    skipmap_insert(&mut self.key_gen_map, mv.key.clone(), mv.to);
                    true
                } else {
                    false
                }
            },
            None => false,
        }
    }

    /// Closes the compaction into `compaction_gen`: where every entry of the
    /// index has left the segments below it, raises the safe point to it, so
    /// that those segments count as retired. Otherwise the store stays as it
    /// is and the result is `false`.
    pub fn finish_compaction(&mut self, compaction_gen: u64) -> (r: bool)
        ensures
            r == compacted(old(self)@, compaction_gen),
            r ==> final(self)@ == (StoreState {
                safe_point: if old(self)@.safe_point < compaction_gen {
                    compaction_gen
                } else {
                    old(self)@.safe_point
                },
                ..old(self)@
            }),
            !r ==> final(self)@ == old(self)@,
    {
        if compaction_gen > self.cur_gen {
            return false;
        }
        let items = skipmap_items(&self.key_gen_map);
        let ghost index = self@.index;
        let mut i: usize = 0;
        while i < items.len()
            invariant
                i <= items@.len(),
                *self == *old(self),
                index == self@.index,
                compaction_gen <= self.cur_gen,
                lists(items@, index),
                forall|t: int| 0 <= t < i ==> (#[trigger] items@[t]).1.gen >= compaction_gen,
            decreases items@.len() - i,
        {
            if items[i].1.gen < compaction_gen {
                assert(index.contains_key(items@[i as int].0@) && index[items@[i as int].0@]
                    == items@[i as int].1);
                return false;
            }
            i += 1;
        }
        proof {
            assert forall|k: Seq<char>| #[trigger] index.contains_key(k) implies index[k].gen
                >= compaction_gen by {
                let t = choose|t: int| 0 <= t < items@.len() && #[trigger] items@[t].0@ == k;
                assert(items@[t].1.gen >= compaction_gen);
            }
        }
        if self.safe_point < compaction_gen {
            self.safe_point = compaction_gen;
        }
        true
    }
}

/// The offset of a move does not depend on the moves after it.
pub proof fn lemma_offset_of_prefix(a: Seq<Move>, b: Seq<Move>, i: int)
    requires
        0 <= i <= a.len() <= b.len(),
        forall|j: int| 0 <= j < a.len() ==> a[j] == b[j],
    ensures
        offset_of(a, i) == offset_of(b, i),
    decreases i,
{
    if i > 0 {
        lemma_offset_of_prefix(a, b, i - 1);
    }
}

/// The bytes to move do not shrink as more items are counted.
pub proof fn lemma_live_bytes_grow(items: Seq<(String, CmdPos)>, n: int, m: int)
    requires
        0 <= n <= m,
    ensures
        live_bytes(items, n) <= live_bytes(items, m),
    decreases m - n,
{
    if n < m {
        lemma_live_bytes_grow(items, n, m - 1);
    }
}

/// The value that the record in `bytes` gives to its key.
pub open spec fn value_in(bytes: Seq<u8>) -> Option<Seq<char>> {
    match decoded(bytes) {
        Some(Record::Put { key, value }) => Some(value),
        _ => None,
    }
}

/// Reads the value out of the bytes that the index pointed at. They hold
/// exactly one record: a `Set` record gives its value. A `Rm` record there
/// means that index and log disagree, which is `UndefCmdline`; bytes that are
/// no record are a `SerdeError`.
pub fn read_value(bytes: &[u8]) -> (r: Result<String, KvsError>)
    ensures
        match decoded(bytes@) {
            Some(Record::Put { key, value }) => r is Ok && r->Ok_0@ == value,
            Some(Record::Rm { key }) => r is Err && r->Err_0 is UndefCmdline,
            None => r is Err && r->Err_0 is SerdeError,
        },
{
    match Cmd::decode(bytes) {
        Ok(Cmd::Put { key, value }) => Ok(value),
        Ok(Cmd::Rm { key }) => Err(KvsError::UndefCmdline),
        Err(e) => Err(e),
    }
}

} // verus!
