//! What holds of the store, stated over its mathematical state and over the
//! bytes that the segments hold.
//!
//! The store hands out records and the owner of the files appends them; a
//! directory is modelled here as a map from generation to the bytes of its
//! segment, and each law says what an operation of the store and the matching
//! change of the directory give together.

use crate::engine::command::{decoded, decoded_at, encoded, Record};
use crate::engine::command_lemmas::{
    lemma_decoded_at_advances, lemma_decoded_at_extended, lemma_decoded_at_shifted,
    lemma_decoded_encoded,
};
use crate::engine::index::CmdPos;
use crate::engine::kvs::{
    after_put, after_rm, can_rotate, compacted, due, is_plan, len_of, relocated, replayed,
    replayed_all, rotated, settled, value_in, Move, StoreState,
};
use vstd::prelude::*;

verus! {

/// The bytes of the segment of generation `gen`; none where the directory has
/// no such segment.
pub open spec fn segment(disk: Map<u64, Seq<u8>>, gen: u64) -> Seq<u8> {
    if disk.contains_key(gen) {
        disk[gen]
    } else {
        Seq::empty()
    }
}

/// The directory after `bytes` were appended to the segment of generation
/// `gen`.
pub open spec fn with_appended(disk: Map<u64, Seq<u8>>, gen: u64, bytes: Seq<u8>) -> Map<
    u64,
    Seq<u8>,
> {
    disk.insert(gen, segment(disk, gen) + bytes)
}

/// The bytes that a position points at.
pub open spec fn bytes_at(disk: Map<u64, Seq<u8>>, p: CmdPos) -> Seq<u8> {
    segment(disk, p.gen).subrange(p.pos as int, p.pos + p.len)
}

/// Whether `p` points at a `Set` record for `key` that the directory holds.
pub open spec fn points_to(disk: Map<u64, Seq<u8>>, key: Seq<char>, p: CmdPos) -> bool {
    &&& p.pos + p.len <= segment(disk, p.gen).len()
    &&& match decoded(bytes_at(disk, p)) {
        Some(Record::Put { key: k, value }) => k == key,
        _ => false,
    }
}

/// Whether store and directory agree: each entry of the index points at a
/// `Set` record for its key, the writer stands at the end of the active
/// segment, and no segment lies above the active one.
pub open spec fn consistent(v: StoreState, disk: Map<u64, Seq<u8>>) -> bool {
    &&& forall|k: Seq<char>| #[trigger] v.index.contains_key(k) ==> points_to(disk, k, v.index[k])
    &&& segment(disk, v.cur_gen).len() == v.writer_pos
    &&& forall|g: u64| #[trigger] disk.contains_key(g) ==> g <= v.cur_gen
}

/// What a `get` of `key` gives: the value of the record that the index points
/// at, `None` where the key has no entry.
pub open spec fn stored(v: StoreState, disk: Map<u64, Seq<u8>>, key: Seq<char>) -> Option<
    Seq<char>,
> {
    match v.index.get(key) {
        Some(p) => value_in(bytes_at(disk, p)),
        None => None,
    }
}

/// Appending to a segment leaves what positions in the directory point at as
/// it was.
pub proof fn lemma_append_keeps_bytes(disk: Map<u64, Seq<u8>>, gen: u64, more: Seq<u8>, p: CmdPos)
    requires
        p.pos + p.len <= segment(disk, p.gen).len(),
    ensures
        bytes_at(with_appended(disk, gen, more), p) == bytes_at(disk, p),
        p.pos + p.len <= segment(with_appended(disk, gen, more), p.gen).len(),
{
    let d2 = with_appended(disk, gen, more);
    if p.gen == gen {
        assert(segment(d2, gen) == segment(disk, gen) + more);
        assert(bytes_at(d2, p) =~= bytes_at(disk, p));
    } else {
        assert(segment(d2, p.gen) == segment(disk, p.gen));
    }
}

/// Rotating keeps store and directory in agreement: the new active segment
/// does not exist yet.
pub proof fn lemma_settled_consistent(v: StoreState, disk: Map<u64, Seq<u8>>)
    requires
        consistent(v, disk),
    ensures
        consistent(settled(v), disk),
        forall|k: Seq<char>| stored(settled(v), disk, k) == stored(v, disk, k),
{
    if due(v) {
        let g = (v.cur_gen + 2) as u64;
        if disk.contains_key(g) {
            assert(g <= v.cur_gen);
        }
    }
}

/// After a successful `set(k, v)`, a `get(k)` gives `v`, and a `get` of any
/// other key gives what it gave before. Store and directory still agree.
pub proof fn lemma_set_then_get(
    v: StoreState,
    disk: Map<u64, Seq<u8>>,
    key: Seq<char>,
    value: Seq<char>,
)
    requires
        consistent(v, disk),
        v.writer_pos + encoded(Record::Put { key, value }).len() <= u64::MAX,
    ensures
        ({
            let rec = encoded(Record::Put { key, value });
            let v2 = settled(after_put(v, key, rec.len() as u64));
            let d2 = with_appended(disk, v.cur_gen, rec);
            &&& consistent(v2, d2)
            &&& stored(v2, d2, key) == Some(value)
            &&& forall|k: Seq<char>| k != key ==> stored(v2, d2, k) == stored(v, disk, k)
        }),
{
    let rec = encoded(Record::Put { key, value });
    let v1 = after_put(v, key, rec.len() as u64);
    let d2 = with_appended(disk, v.cur_gen, rec);
    let p = CmdPos { gen: v.cur_gen, pos: v.writer_pos, len: rec.len() as u64 };
    lemma_decoded_encoded(Record::Put { key, value });
    assert(segment(d2, v.cur_gen) == segment(disk, v.cur_gen) + rec);
    assert(bytes_at(d2, p) =~= rec);
    assert forall|k: Seq<char>| #[trigger] v1.index.contains_key(k) implies points_to(
        d2,
        k,
        v1.index[k],
    ) by {
        if k != key {
            assert(v.index.contains_key(k));
            lemma_append_keeps_bytes(disk, v.cur_gen, rec, v.index[k]);
        }
    }
    assert forall|k: Seq<char>| k != key implies stored(v1, d2, k) == stored(v, disk, k) by {
        if v.index.contains_key(k) {
            lemma_append_keeps_bytes(disk, v.cur_gen, rec, v.index[k]);
        }
    }
    assert(consistent(v1, d2));
    lemma_settled_consistent(v1, d2);
}

/// After a successful `remove(k)`, a `get(k)` gives `None` and the key is
/// not in the index, so that a second `remove(k)` fails with `KeyNotFound`;
/// a `get` of any other key gives what it gave before. Store and directory
/// still agree.
pub proof fn lemma_remove_then_get(v: StoreState, disk: Map<u64, Seq<u8>>, key: Seq<char>)
    requires
        consistent(v, disk),
        v.index.contains_key(key),
        v.writer_pos + encoded(Record::Rm { key }).len() <= u64::MAX,
    ensures
        ({
            let rec = encoded(Record::Rm { key });
            let v2 = settled(after_rm(v, key, rec.len() as u64));
            let d2 = with_appended(disk, v.cur_gen, rec);
            &&& consistent(v2, d2)
            &&& !v2.index.contains_key(key)
            &&& stored(v2, d2, key) is None
            &&& forall|k: Seq<char>| k != key ==> stored(v2, d2, k) == stored(v, disk, k)
        }),
{
    let rec = encoded(Record::Rm { key });
    let v1 = after_rm(v, key, rec.len() as u64);
    let d2 = with_appended(disk, v.cur_gen, rec);
    assert(segment(d2, v.cur_gen) == segment(disk, v.cur_gen) + rec);
    assert forall|k: Seq<char>| #[trigger] v1.index.contains_key(k) implies points_to(
        d2,
        k,
        v1.index[k],
    ) by {
        assert(v.index.contains_key(k));
        lemma_append_keeps_bytes(disk, v.cur_gen, rec, v.index[k]);
    }
    assert forall|k: Seq<char>| k != key implies stored(v1, d2, k) == stored(v, disk, k) by {
        if v.index.contains_key(k) {
            lemma_append_keeps_bytes(disk, v.cur_gen, rec, v.index[k]);
        }
    }
    assert(consistent(v1, d2));
    lemma_settled_consistent(v1, d2);
}

/// Setting a key twice to the same value reads as setting it once.
pub proof fn lemma_set_twice(
    v: StoreState,
    disk: Map<u64, Seq<u8>>,
    key: Seq<char>,
    value: Seq<char>,
)
    requires
        consistent(v, disk),
        v.writer_pos + 2 * encoded(Record::Put { key, value }).len() <= u64::MAX,
    ensures
        ({
            let rec = encoded(Record::Put { key, value });
            let v2 = settled(after_put(v, key, rec.len() as u64));
            let d2 = with_appended(disk, v.cur_gen, rec);
            let v3 = settled(after_put(v2, key, rec.len() as u64));
            let d3 = with_appended(d2, v2.cur_gen, rec);
            &&& stored(v3, d3, key) == Some(value)
            &&& forall|k: Seq<char>| k != key ==> stored(v3, d3, k) == stored(v, disk, k)
        }),
{
    let rec = encoded(Record::Put { key, value });
    let v2 = settled(after_put(v, key, rec.len() as u64));
    let d2 = with_appended(disk, v.cur_gen, rec);
    lemma_set_then_get(v, disk, key, value);
    lemma_set_then_get(v2, d2, key, value);
}

/// Carrying out a move of a compaction changes no value: once the record was
/// copied to the end of the compaction segment, every `get` gives what it
/// gave before, whether the index took the move or not.
pub proof fn lemma_relocate_keeps_values(
    v: StoreState,
    disk: Map<u64, Seq<u8>>,
    mv: Move,
    copy: Seq<u8>,
)
    requires
        consistent(v, disk),
        mv.to.gen < v.cur_gen,
        mv.to.len == mv.from.len,
        mv.to.pos == segment(disk, mv.to.gen).len(),
        copy.len() == mv.from.len,
        v.index.get(mv.key@) == Some(mv.from) ==> copy == bytes_at(disk, mv.from),
    ensures
        ({
            let v2 = StoreState { index: relocated(v.index, mv), ..v };
            let d2 = with_appended(disk, mv.to.gen, copy);
            &&& consistent(v2, d2)
            &&& forall|k: Seq<char>| stored(v2, d2, k) == stored(v, disk, k)
        }),
{
    let v2 = StoreState { index: relocated(v.index, mv), ..v };
    let d2 = with_appended(disk, mv.to.gen, copy);
    assert(segment(d2, mv.to.gen) == segment(disk, mv.to.gen) + copy);
    assert(bytes_at(d2, mv.to) =~= copy);
    assert forall|k: Seq<char>| #[trigger] v2.index.contains_key(k) implies points_to(
        d2,
        k,
        v2.index[k],
    ) && stored(v2, d2, k) == stored(v, disk, k) by {
        assert(v.index.contains_key(k));
        if k == mv.key@ && v.index.get(mv.key@) == Some(mv.from) {
            assert(points_to(disk, k, mv.from));
        } else {
            lemma_append_keeps_bytes(disk, mv.to.gen, copy, v.index[k]);
        }
    }
    assert forall|g: u64| #[trigger] d2.contains_key(g) implies g <= v2.cur_gen by {
        if g != mv.to.gen {
            assert(disk.contains_key(g));
        }
    }
    assert(segment(d2, v.cur_gen) == segment(disk, v.cur_gen));
}

/// What one record makes of the index and of the count of stale bytes when
/// it is replayed from position `p`.
pub open spec fn applied(index: Map<Seq<char>, CmdPos>, stale: u64, rec: Record, p: CmdPos) -> (
    Map<Seq<char>, CmdPos>,
    u64,
) {
    match rec {
        Record::Put { key, value } => (
            index.insert(key, p),
            stale.saturating_add(len_of(index, key)),
        ),
        Record::Rm { key } => (
            index.remove(key),
            stale.saturating_add(len_of(index, key)).saturating_add(p.len),
        ),
    }
}

/// Replaying a segment to which the bytes of one more record were appended
/// gives what the replay of the segment gave, with that record applied at the
/// old end.
pub proof fn lemma_replay_extended(
    gen: u64,
    bytes: Seq<u8>,
    more: Seq<u8>,
    pos: int,
    index: Map<Seq<char>, CmdPos>,
    stale: u64,
)
    requires
        0 <= pos <= bytes.len(),
        replayed(gen, bytes, pos, index, stale) is Some,
        decoded(more) is Some,
        bytes.len() + more.len() <= u64::MAX,
    ensures
        ({
            let before = replayed(gen, bytes, pos, index, stale).unwrap();
            let p = CmdPos { gen, pos: bytes.len() as u64, len: more.len() as u64 };
            replayed(gen, bytes + more, pos, index, stale) == Some(
                applied(before.0, before.1, decoded(more).unwrap(), p),
            )
        }),
    decreases bytes.len() - pos,
{
    let rec = decoded(more).unwrap();
    let all = bytes + more;
    if pos == bytes.len() {
        lemma_decoded_at_shifted(bytes, more, 0);
        lemma_decoded_at_advances(more, 0);
        let end = pos + more.len();
        assert(end == all.len());
        let p = CmdPos { gen, pos: bytes.len() as u64, len: more.len() as u64 };
        let (index2, stale2) = applied(index, stale, rec, p);
        assert(replayed(gen, all, end, index2, stale2) == Some((index2, stale2)));
        assert(replayed(gen, bytes, pos, index, stale) == Some((index, stale)));
        assert(decoded_at(all, pos) == Some((rec, end)));
    } else {
        assert(decoded_at(bytes, pos) is Some);
        lemma_decoded_at_extended(bytes, more, pos);
        let (r, end) = decoded_at(bytes, pos).unwrap();
        assert(pos < end <= bytes.len());
        assert(decoded_at(all, pos) == Some((r, end)));
        let len = (end - pos) as u64;
        match r {
            Record::Put { key, value } => {
                lemma_replay_extended(
                    gen,
                    bytes,
                    more,
                    end,
                    index.insert(key, CmdPos { gen, pos: pos as u64, len }),
                    stale.saturating_add(len_of(index, key)),
                );
            },
            Record::Rm { key } => {
                lemma_replay_extended(
                    gen,
                    bytes,
                    more,
                    end,
                    index.remove(key),
                    stale.saturating_add(len_of(index, key)).saturating_add(len),
                );
            },
        }
    }
}

/// Replaying a segment to which one more record was appended gives what the
/// replay of the segment gave, with that record applied at the old end.
pub proof fn lemma_replay_appended(
    gen: u64,
    bytes: Seq<u8>,
    rec: Record,
    pos: int,
    index: Map<Seq<char>, CmdPos>,
    stale: u64,
)
    requires
        0 <= pos <= bytes.len(),
        replayed(gen, bytes, pos, index, stale) is Some,
        bytes.len() + encoded(rec).len() <= u64::MAX,
    ensures
        ({
            let before = replayed(gen, bytes, pos, index, stale).unwrap();
            let p = CmdPos { gen, pos: bytes.len() as u64, len: encoded(rec).len() as u64 };
            replayed(gen, bytes + encoded(rec), pos, index, stale) == Some(
                applied(before.0, before.1, rec, p),
            )
        }),
{
    lemma_decoded_encoded(rec);
    lemma_replay_extended(gen, bytes, encoded(rec), pos, index, stale);
}

/// Whether the index of a store is what the replay of its active segment
/// gives, on top of the index `older` that the segments before it gave: what
/// a reopening would rebuild.
pub open spec fn replays_to(v: StoreState, active: Seq<u8>, older: Map<Seq<char>, CmdPos>) -> bool {
    &&& active.len() == v.writer_pos
    &&& replayed(v.cur_gen, active, 0, older, 0) is Some
    &&& replayed(v.cur_gen, active, 0, older, 0).unwrap().0 == v.index
}

/// A store that a reopening would rebuild is still one after a `set`: the
/// replay of the active segment with the new record gives the index that the
/// store has after the call.
pub proof fn lemma_set_survives_reopening(
    v: StoreState,
    active: Seq<u8>,
    older: Map<Seq<char>, CmdPos>,
    key: Seq<char>,
    value: Seq<char>,
)
    requires
        replays_to(v, active, older),
        v.writer_pos + encoded(Record::Put { key, value }).len() <= u64::MAX,
    ensures
        ({
            let rec = encoded(Record::Put { key, value });
            replays_to(after_put(v, key, rec.len() as u64), active + rec, older)
        }),
{
    lemma_replay_appended(v.cur_gen, active, Record::Put { key, value }, 0, older, 0);
}

/// A store that a reopening would rebuild is still one after a `remove`.
pub proof fn lemma_remove_survives_reopening(
    v: StoreState,
    active: Seq<u8>,
    older: Map<Seq<char>, CmdPos>,
    key: Seq<char>,
)
    requires
        replays_to(v, active, older),
        v.writer_pos + encoded(Record::Rm { key }).len() <= u64::MAX,
    ensures
        ({
            let rec = encoded(Record::Rm { key });
            replays_to(after_rm(v, key, rec.len() as u64), active + rec, older)
        }),
{
    lemma_replay_appended(v.cur_gen, active, Record::Rm { key }, 0, older, 0);
}

/// A store as it is opened is one that a reopening would rebuild: its
/// active segment is empty, and the index is what the segments of the
/// directory gave.
pub proof fn lemma_opened_survives_reopening(v: StoreState)
    requires
        v.writer_pos == 0,
    ensures
        replays_to(v, Seq::empty(), v.index),
{
}

/// After a rotation the store is what the replay of the new, empty active
/// segment gives on top of its own index.
pub proof fn lemma_rotation_survives_reopening(v: StoreState)
    requires
        can_rotate(v),
    ensures
        replays_to(rotated(v), Seq::empty(), v.index),
{
}

/// Replaying a directory with one more segment at its end gives what the
/// replay of the directory gave, with the new segment replayed on top.
pub proof fn lemma_replayed_all_push(
    logs: Seq<(u64, Seq<u8>)>,
    gen: u64,
    bytes: Seq<u8>,
    i: int,
    index: Map<Seq<char>, CmdPos>,
    stale: u64,
)
    requires
        0 <= i <= logs.len(),
    ensures
        replayed_all(logs.push((gen, bytes)), i, index, stale) == (match replayed_all(
            logs,
            i,
            index,
            stale,
        ) {
            Some((older, s)) => match replayed(gen, bytes, 0, older, 0) {
                Some((next, more)) => Some((next, s.saturating_add(more))),
                None => None,
            },
            None => None,
        }),
    decreases logs.len() - i,
{
    let all = logs.push((gen, bytes));
    if i == logs.len() {
        assert(all[i] == (gen, bytes));
        match replayed(gen, bytes, 0, index, 0) {
            Some((next, more)) => {
                assert(replayed_all(all, i + 1, next, stale.saturating_add(more)) == Some(
                    (next, stale.saturating_add(more)),
                ));
            },
            None => {},
        }
    } else {
        assert(all[i] == logs[i]);
        match replayed(logs[i].0, logs[i].1, 0, index, 0) {
            Some((next, more)) => {
                lemma_replayed_all_push(logs, gen, bytes, i + 1, next, stale.saturating_add(more));
            },
            None => {},
        }
    }
}

/// Reopening rebuilds the index. Where the store is what the replay of its
/// active segment gives on top of the older segments, opening the directory
/// again, with the active segment as its last, gives the index that the
/// store has.
pub proof fn lemma_reopening_rebuilds_index(
    logs: Seq<(u64, Seq<u8>)>,
    v: StoreState,
    active: Seq<u8>,
)
    requires
        replayed_all(logs, 0, Map::empty(), 0) is Some,
        replays_to(v, active, replayed_all(logs, 0, Map::empty(), 0).unwrap().0),
    ensures
        replayed_all(logs.push((v.cur_gen, active)), 0, Map::empty(), 0) is Some,
        replayed_all(logs.push((v.cur_gen, active)), 0, Map::empty(), 0).unwrap().0 == v.index,
{
    lemma_replayed_all_push(logs, v.cur_gen, active, 0, Map::empty(), 0);
}

/// The stale bytes never stay above the threshold: once a mutation is done
/// they are at most the threshold, unless the generation numbers are used
/// up.
pub proof fn lemma_stale_bounded(v: StoreState)
    ensures
        settled(v).stale <= v.threshold || !can_rotate(v),
{
}

/// Whether the moves from the `i`-th on still cover the index: each entry
/// lies in generation `gen` or above, or one of those moves will take it
/// from where it lies.
pub open spec fn covered(index: Map<Seq<char>, CmdPos>, gen: u64, moves: Seq<Move>, i: int) -> bool {
    forall|k: Seq<char>| #[trigger]
        index.contains_key(k) ==> index[k].gen >= gen || exists|j: int|
            i <= j < moves.len() && #[trigger] moves[j].key@ == k && moves[j].from == index[k]
}

/// Whether no two moves have the same key and every move leads into `gen`.
pub open spec fn well_aimed(moves: Seq<Move>, gen: u64) -> bool {
    &&& forall|i: int| 0 <= i < moves.len() ==> (#[trigger] moves[i]).to.gen == gen
    &&& forall|i: int, j: int|
        0 <= i < j < moves.len() ==> #[trigger] moves[i].key@ != #[trigger] moves[j].key@
}

/// A plan covers the index that it was made for.
pub proof fn lemma_plan_covers(moves: Seq<Move>, index: Map<Seq<char>, CmdPos>, gen: u64)
    requires
        is_plan(moves, index, gen),
    ensures
        covered(index, gen, moves, 0),
        well_aimed(moves, gen),
{
    assert forall|k: Seq<char>| #[trigger] index.contains_key(k) implies index[k].gen >= gen
        || exists|j: int|
        0 <= j < moves.len() && #[trigger] moves[j].key@ == k && moves[j].from == index[k] by {
        if index[k].gen < gen {
            let j = choose|j: int| 0 <= j < moves.len() && #[trigger] moves[j].key@ == k;
            assert(index[moves[j].key@] == moves[j].from);
        }
    }
    assert forall|i: int| 0 <= i < moves.len() implies (#[trigger] moves[i]).to.gen == gen by {
        assert(index.contains_key(moves[i].key@));
    }
}

/// Carrying out the `i`-th move leaves the rest of the plan covering the
/// index.
pub proof fn lemma_relocate_covers(
    index: Map<Seq<char>, CmdPos>,
    gen: u64,
    moves: Seq<Move>,
    i: int,
)
    requires
        0 <= i < moves.len(),
        well_aimed(moves, gen),
        covered(index, gen, moves, i),
    ensures
        covered(relocated(index, moves[i]), gen, moves, i + 1),
{
    let next = relocated(index, moves[i]);
    assert forall|k: Seq<char>| #[trigger] next.contains_key(k) implies next[k].gen >= gen
        || exists|j: int|
        i + 1 <= j < moves.len() && #[trigger] moves[j].key@ == k && moves[j].from == next[k] by {
        assert(index.contains_key(k));
        if k == moves[i].key@ {
            if index.get(k) == Some(moves[i].from) {
                assert(next[k] == moves[i].to);
            } else if index[k].gen < gen {
                let j = choose|j: int|
                    i <= j < moves.len() && #[trigger] moves[j].key@ == k && moves[j].from
                        == index[k];
                if j > i {
                    assert(moves[i].key@ != moves[j].key@);
                }
            }
        } else if index[k].gen < gen {
            let j = choose|j: int|
                i <= j < moves.len() && #[trigger] moves[j].key@ == k && moves[j].from == index[k];
            assert(j != i);
        }
    }
}

/// A `set` or a `remove` that comes while a compaction runs leaves the rest
/// of the plan covering the index: the writer is past the generation that is
/// compacted into.
pub proof fn lemma_writes_keep_cover(
    v: StoreState,
    gen: u64,
    moves: Seq<Move>,
    i: int,
    key: Seq<char>,
    len: u64,
)
    requires
        covered(v.index, gen, moves, i),
        gen <= v.cur_gen,
    ensures
        covered(settled(after_put(v, key, len)).index, gen, moves, i),
        covered(settled(after_rm(v, key, len)).index, gen, moves, i),
{
    let put = after_put(v, key, len).index;
    assert forall|k: Seq<char>| #[trigger] put.contains_key(k) implies put[k].gen >= gen
        || exists|j: int|
        i <= j < moves.len() && #[trigger] moves[j].key@ == k && moves[j].from == put[k] by {
        if k != key {
            assert(v.index.contains_key(k));
        }
    }
    let rm = after_rm(v, key, len).index;
    assert forall|k: Seq<char>| #[trigger] rm.contains_key(k) implies rm[k].gen >= gen
        || exists|j: int|
        i <= j < moves.len() && #[trigger] moves[j].key@ == k && moves[j].from == rm[k] by {
        assert(v.index.contains_key(k));
    }
}

/// Once every move of a plan was carried out, the compaction can be closed:
/// no entry of the index lies below the generation compacted into, so no
/// `get` is sent to a segment that the compaction retires.
pub proof fn lemma_cover_ends(v: StoreState, gen: u64, moves: Seq<Move>)
    requires
        covered(v.index, gen, moves, moves.len() as int),
        gen <= v.cur_gen,
    ensures
        compacted(v, gen),
{
}

} // verus!
