//! What holds of a compaction when the directory is opened again: the
//! compaction segment and the active segment, replayed one after the other,
//! give the index that the store has.
//!
//! The laws follow one compaction from its plan to its last move. A round
//! that no set or remove comes into leaves every key pointing into the
//! compaction segment. For a round that sets and removes come into, the
//! laws hold where the plan is made before the writer has set a key in the
//! new active segment, and as long as the writer does not rotate again
//! before the compaction is done.

use crate::engine::command::{decoded, decoded_at, encoded, Record};
use crate::engine::command_lemmas::{lemma_decoded_at_extended, lemma_decoded_encoded};
use crate::engine::index::CmdPos;
use crate::engine::kvs::{
    after_put, after_rm, compacted, is_plan, len_of, offset_of, relocated, replayed, Move,
    StoreState,
};
use crate::engine::kvs_laws::{applied, lemma_replay_extended};
use vstd::prelude::*;

verus! {

/// The key that a record speaks of.
pub open spec fn key_of(rec: Record) -> Seq<char> {
    match rec {
        Record::Put { key, value } => key,
        Record::Rm { key } => key,
    }
}

/// Whether a record for `key` stands among the records of `bytes` from `pos`
/// on.
pub open spec fn touches(bytes: Seq<u8>, pos: int, key: Seq<char>) -> bool
    decreases bytes.len() - pos,
{
    if pos < 0 || pos >= bytes.len() {
        false
    } else {
        match decoded_at(bytes, pos) {
            Some((rec, end)) => pos < end <= bytes.len() && (key_of(rec) == key || touches(
                bytes,
                end,
                key,
            )),
            None => false,
        }
    }
}

/// A replay leaves the entry of a key that the segment does not touch as it
/// was.
pub proof fn lemma_untouched_key(
    gen: u64,
    bytes: Seq<u8>,
    pos: int,
    base: Map<Seq<char>, CmdPos>,
    stale: u64,
    key: Seq<char>,
)
    requires
        replayed(gen, bytes, pos, base, stale) is Some,
        !touches(bytes, pos, key),
    ensures
        replayed(gen, bytes, pos, base, stale).unwrap().0.get(key) == base.get(key),
    decreases bytes.len() - pos,
{
    if pos < 0 || pos >= bytes.len() {
    } else {
        let (rec, end) = decoded_at(bytes, pos).unwrap();
        let len = (end - pos) as u64;
        match rec {
            Record::Put { key: k, value } => {
                lemma_untouched_key(
                    gen,
                    bytes,
                    end,
                    base.insert(k, CmdPos { gen, pos: pos as u64, len }),
                    stale.saturating_add(len_of(base, k)),
                    key,
                );
            },
            Record::Rm { key: k } => {
                lemma_untouched_key(
                    gen,
                    bytes,
                    end,
                    base.remove(k),
                    stale.saturating_add(len_of(base, k)).saturating_add(len),
                    key,
                );
            },
        }
    }
}

/// A replay gives a key that the segment touches the same entry whatever the
/// index was before, and whether the replay goes through does not depend on
/// the index either.
pub proof fn lemma_touched_key(
    gen: u64,
    bytes: Seq<u8>,
    pos: int,
    base1: Map<Seq<char>, CmdPos>,
    stale1: u64,
    base2: Map<Seq<char>, CmdPos>,
    stale2: u64,
)
    requires
        replayed(gen, bytes, pos, base1, stale1) is Some,
    ensures
        replayed(gen, bytes, pos, base2, stale2) is Some,
        forall|key: Seq<char>| #[trigger]
            touches(bytes, pos, key) ==> replayed(gen, bytes, pos, base2, stale2).unwrap().0.get(
                key,
            ) == replayed(gen, bytes, pos, base1, stale1).unwrap().0.get(key),
    decreases bytes.len() - pos,
{
    if pos < 0 || pos >= bytes.len() {
    } else {
        let (rec, end) = decoded_at(bytes, pos).unwrap();
        let len = (end - pos) as u64;
        let p = CmdPos { gen, pos: pos as u64, len };
        let (next1, s1) = applied(base1, stale1, rec, p);
        let (next2, s2) = applied(base2, stale2, rec, p);
        assert(replayed(gen, bytes, pos, base1, stale1) == replayed(gen, bytes, end, next1, s1));
        assert(replayed(gen, bytes, pos, base2, stale2) == replayed(gen, bytes, end, next2, s2));
        lemma_touched_key(gen, bytes, end, next1, s1, next2, s2);
        assert forall|key: Seq<char>| #[trigger] touches(bytes, pos, key) implies replayed(
            gen,
            bytes,
            pos,
            base2,
            stale2,
        ).unwrap().0.get(key) == replayed(gen, bytes, pos, base1, stale1).unwrap().0.get(key) by {
            if !touches(bytes, end, key) {
                assert(key_of(rec) == key);
                lemma_untouched_key(gen, bytes, end, next1, s1, key);
                lemma_untouched_key(gen, bytes, end, next2, s2, key);
            }
        }
    }
}

/// A key that a replay put into the index lies in the segment replayed:
/// the entry of a key that the segment touches has the segment's generation.
pub proof fn lemma_touched_key_lands(
    gen: u64,
    bytes: Seq<u8>,
    pos: int,
    base: Map<Seq<char>, CmdPos>,
    stale: u64,
    key: Seq<char>,
)
    requires
        replayed(gen, bytes, pos, base, stale) is Some,
        touches(bytes, pos, key),
    ensures
        ({
            let index = replayed(gen, bytes, pos, base, stale).unwrap().0;
            index.contains_key(key) ==> index[key].gen == gen
        }),
    decreases bytes.len() - pos,
{
    let (rec, end) = decoded_at(bytes, pos).unwrap();
    let len = (end - pos) as u64;
    let p = CmdPos { gen, pos: pos as u64, len };
    let (next, s) = applied(base, stale, rec, p);
    assert(replayed(gen, bytes, pos, base, stale) == replayed(gen, bytes, end, next, s));
    if touches(bytes, end, key) {
        lemma_touched_key_lands(gen, bytes, end, next, s, key);
    } else {
        lemma_untouched_key(gen, bytes, end, next, s, key);
    }
}

/// A segment that touches a key still touches it when more bytes follow.
pub proof fn lemma_touches_extended(bytes: Seq<u8>, more: Seq<u8>, pos: int, key: Seq<char>)
    requires
        touches(bytes, pos, key),
    ensures
        touches(bytes + more, pos, key),
    decreases bytes.len() - pos,
{
    lemma_decoded_at_extended(bytes, more, pos);
    let (rec, end) = decoded_at(bytes, pos).unwrap();
    if key_of(rec) != key {
        lemma_touches_extended(bytes, more, end, key);
    }
}

/// The index `base` after the first `i` moves were carried out, each whether
/// or not the index still had the entry where the plan found it.
pub open spec fn moved(base: Map<Seq<char>, CmdPos>, moves: Seq<Move>, i: int) -> Map<
    Seq<char>,
    CmdPos,
>
    decreases i,
{
    if i <= 0 {
        base
    } else {
        moved(base, moves, i - 1).insert(moves[i - 1].key@, moves[i - 1].to)
    }
}

/// The compaction segment after the first `i` records were copied into it.
pub open spec fn joined(copies: Seq<Seq<u8>>, i: int) -> Seq<u8>
    decreases i,
{
    if i <= 0 {
        Seq::empty()
    } else {
        joined(copies, i - 1) + copies[i - 1]
    }
}

/// Whether the moves lead into generation `gen`, no two for the same key,
/// with the targets one after the other.
pub open spec fn laid_out(moves: Seq<Move>, gen: u64) -> bool {
    &&& forall|i: int|
        0 <= i < moves.len() ==> {
            &&& offset_of(moves, i) + (#[trigger] moves[i]).from.len <= u64::MAX
            &&& moves[i].to == CmdPos {
                gen,
                pos: offset_of(moves, i) as u64,
                len: moves[i].from.len,
            }
        }
    &&& forall|i: int, j: int|
        0 <= i < j < moves.len() ==> #[trigger] moves[i].key@ != #[trigger] moves[j].key@
}

/// Whether the compaction into `gen` stands after its first `i` moves.
/// `older` is the index as the writer had it when it rotated, all of it
/// below `gen`, and `active` the bytes of the active segment. The plan was
/// made of entries that `older` has; every other entry of `older` was
/// written or removed since; and the store is what the replay of the active
/// segment gives on top of `older` with the first `i` moves carried out.
pub open spec fn compacting(
    older: Map<Seq<char>, CmdPos>,
    moves: Seq<Move>,
    i: int,
    gen: u64,
    v: StoreState,
    active: Seq<u8>,
) -> bool {
    &&& 0 <= i <= moves.len()
    &&& gen < v.cur_gen
    &&& active.len() == v.writer_pos
    &&& laid_out(moves, gen)
    &&& forall|k: Seq<char>| #[trigger] older.contains_key(k) ==> older[k].gen < gen
    &&& forall|j: int|
        0 <= j < moves.len() ==> older.get(#[trigger] moves[j].key@) == Some(moves[j].from)
    &&& forall|k: Seq<char>| #[trigger]
        older.contains_key(k) ==> touches(active, 0, k) || exists|j: int|
            0 <= j < moves.len() && #[trigger] moves[j].key@ == k
    &&& replayed(v.cur_gen, active, 0, moved(older, moves, i), 0) is Some
    &&& replayed(v.cur_gen, active, 0, moved(older, moves, i), 0).unwrap().0 == v.index
}

/// After the first `i` moves the key of each of them points at its target.
pub proof fn lemma_moved_plan_key(
    base: Map<Seq<char>, CmdPos>,
    moves: Seq<Move>,
    gen: u64,
    i: int,
    j: int,
)
    requires
        laid_out(moves, gen),
        0 <= j < i <= moves.len(),
    ensures
        moved(base, moves, i).get(moves[j].key@) == Some(moves[j].to),
    decreases i,
{
    if j < i - 1 {
        lemma_moved_plan_key(base, moves, gen, i - 1, j);
        assert(moves[j].key@ != moves[i - 1].key@);
    }
}

/// The first `i` moves leave the entry of a key that is not theirs as it was.
pub proof fn lemma_moved_other_key(
    base: Map<Seq<char>, CmdPos>,
    moves: Seq<Move>,
    i: int,
    key: Seq<char>,
)
    requires
        0 <= i <= moves.len(),
        forall|j: int| 0 <= j < i ==> #[trigger] moves[j].key@ != key,
    ensures
        moved(base, moves, i).get(key) == base.get(key),
    decreases i,
{
    if i > 0 {
        lemma_moved_other_key(base, moves, i - 1, key);
        assert(moves[i - 1].key@ != key);
    }
}

/// A compaction starts well. Where the store is what the replay of the
/// active segment gives on top of `older`, every entry of `older` and of the
/// store lies below `gen`, and `moves` is the plan for the store's index,
/// the compaction stands before its first move.
pub proof fn lemma_compaction_starts(
    older: Map<Seq<char>, CmdPos>,
    moves: Seq<Move>,
    gen: u64,
    v: StoreState,
    active: Seq<u8>,
)
    requires
        replayed(v.cur_gen, active, 0, older, 0) is Some,
        replayed(v.cur_gen, active, 0, older, 0).unwrap().0 == v.index,
        active.len() == v.writer_pos,
        gen < v.cur_gen,
        forall|k: Seq<char>| #[trigger] older.contains_key(k) ==> older[k].gen < gen,
        forall|k: Seq<char>| #[trigger] v.index.contains_key(k) ==> v.index[k].gen < gen,
        is_plan(moves, v.index, gen),
    ensures
        compacting(older, moves, 0, gen, v, active),
{
    assert forall|j: int| 0 <= j < moves.len() implies older.get(#[trigger] moves[j].key@) == Some(
        moves[j].from,
    ) by {
        let k = moves[j].key@;
        assert(v.index.contains_key(k) && v.index[k] == moves[j].from);
        if touches(active, 0, k) {
            lemma_touched_key_lands(v.cur_gen, active, 0, older, 0, k);
        } else {
            lemma_untouched_key(v.cur_gen, active, 0, older, 0, k);
        }
    }
    assert forall|k: Seq<char>| #[trigger] older.contains_key(k) implies touches(active, 0, k)
        || exists|j: int| 0 <= j < moves.len() && #[trigger] moves[j].key@ == k by {
        if !touches(active, 0, k) {
            lemma_untouched_key(v.cur_gen, active, 0, older, 0, k);
            assert(v.index.contains_key(k));
        }
    }
    assert forall|i: int| 0 <= i < moves.len() implies {
        &&& offset_of(moves, i) + (#[trigger] moves[i]).from.len <= u64::MAX
        &&& moves[i].to == CmdPos { gen, pos: offset_of(moves, i) as u64, len: moves[i].from.len }
    } by {
        assert(v.index.contains_key(moves[i].key@));
    }
}

/// A `set` that comes while a compaction runs leaves it standing, as long
/// as the writer does not rotate.
pub proof fn lemma_compaction_takes_set(
    older: Map<Seq<char>, CmdPos>,
    moves: Seq<Move>,
    i: int,
    gen: u64,
    v: StoreState,
    active: Seq<u8>,
    key: Seq<char>,
    value: Seq<char>,
)
    requires
        compacting(older, moves, i, gen, v, active),
        v.writer_pos + encoded(Record::Put { key, value }).len() <= u64::MAX,
    ensures
        ({
            let rec = encoded(Record::Put { key, value });
            compacting(older, moves, i, gen, after_put(v, key, rec.len() as u64), active + rec)
        }),
{
    let rec = encoded(Record::Put { key, value });
    lemma_decoded_encoded(Record::Put { key, value });
    lemma_replay_extended(v.cur_gen, active, rec, 0, moved(older, moves, i), 0);
    assert forall|k: Seq<char>| #[trigger] older.contains_key(k) implies touches(active + rec, 0, k)
        || exists|j: int| 0 <= j < moves.len() && #[trigger] moves[j].key@ == k by {
        if touches(active, 0, k) {
            lemma_touches_extended(active, rec, 0, k);
        }
    }
}

/// A `remove` that comes while a compaction runs leaves it standing, as
/// long as the writer does not rotate.
pub proof fn lemma_compaction_takes_remove(
    older: Map<Seq<char>, CmdPos>,
    moves: Seq<Move>,
    i: int,
    gen: u64,
    v: StoreState,
    active: Seq<u8>,
    key: Seq<char>,
)
    requires
        compacting(older, moves, i, gen, v, active),
        v.writer_pos + encoded(Record::Rm { key }).len() <= u64::MAX,
    ensures
        ({
            let rec = encoded(Record::Rm { key });
            compacting(older, moves, i, gen, after_rm(v, key, rec.len() as u64), active + rec)
        }),
{
    let rec = encoded(Record::Rm { key });
    lemma_decoded_encoded(Record::Rm { key });
    lemma_replay_extended(v.cur_gen, active, rec, 0, moved(older, moves, i), 0);
    assert forall|k: Seq<char>| #[trigger] older.contains_key(k) implies touches(active + rec, 0, k)
        || exists|j: int| 0 <= j < moves.len() && #[trigger] moves[j].key@ == k by {
        if touches(active, 0, k) {
            lemma_touches_extended(active, rec, 0, k);
        }
    }
}

/// Two indexes that have the same entry, or none, for every key are the same.
pub proof fn lemma_same_entries(a: Map<Seq<char>, CmdPos>, b: Map<Seq<char>, CmdPos>)
    requires
        forall|k: Seq<char>| a.get(k) == b.get(k),
    ensures
        a == b,
{
    assert forall|k: Seq<char>| #[trigger] a.dom().contains(k) == b.dom().contains(k) by {
        assert(a.get(k) == b.get(k));
    }
    assert forall|k: Seq<char>| #[trigger] a.dom().contains(k) implies a[k] == b[k] by {
        assert(a.get(k) == b.get(k));
    }
    assert(a =~= b);
}

/// Two indexes give the same replay where they agree on every key that the
/// segment does not touch.
pub proof fn lemma_replay_of_like_bases(
    gen: u64,
    bytes: Seq<u8>,
    base1: Map<Seq<char>, CmdPos>,
    base2: Map<Seq<char>, CmdPos>,
)
    requires
        replayed(gen, bytes, 0, base1, 0) is Some,
        forall|k: Seq<char>| !touches(bytes, 0, k) ==> #[trigger] base1.get(k) == base2.get(k),
    ensures
        replayed(gen, bytes, 0, base2, 0) is Some,
        replayed(gen, bytes, 0, base2, 0).unwrap().0 == replayed(gen, bytes, 0, base1, 0).unwrap().0,
{
    lemma_touched_key(gen, bytes, 0, base1, 0, base2, 0);
    let r1 = replayed(gen, bytes, 0, base1, 0).unwrap().0;
    let r2 = replayed(gen, bytes, 0, base2, 0).unwrap().0;
    assert forall|k: Seq<char>| r1.get(k) == r2.get(k) by {
        if !touches(bytes, 0, k) {
            lemma_untouched_key(gen, bytes, 0, base1, 0, k);
            lemma_untouched_key(gen, bytes, 0, base2, 0, k);
            assert(base1.get(k) == base2.get(k));
        }
    }
    lemma_same_entries(r1, r2);
}

/// Carrying out the next move of the plan leaves the compaction standing.
pub proof fn lemma_compaction_takes_move(
    older: Map<Seq<char>, CmdPos>,
    moves: Seq<Move>,
    i: int,
    gen: u64,
    v: StoreState,
    active: Seq<u8>,
)
    requires
        compacting(older, moves, i, gen, v, active),
        i < moves.len(),
    ensures
        compacting(
            older,
            moves,
            i + 1,
            gen,
            StoreState { index: relocated(v.index, moves[i]), ..v },
            active,
        ),
{
    let mv = moves[i];
    let k = mv.key@;
    let base1 = moved(older, moves, i);
    let base2 = moved(older, moves, i + 1);
    assert(base2 == base1.insert(k, mv.to));
    let next = relocated(v.index, mv);
    if touches(active, 0, k) {
        lemma_touched_key_lands(v.cur_gen, active, 0, base1, 0, k);
        assert(next == v.index);
        assert forall|k2: Seq<char>| !touches(active, 0, k2) implies #[trigger] base1.get(k2)
            == base2.get(k2) by {
            assert(k2 != k);
        }
        lemma_replay_of_like_bases(v.cur_gen, active, base1, base2);
    } else {
        lemma_untouched_key(v.cur_gen, active, 0, base1, 0, k);
        assert forall|j: int| 0 <= j < i implies #[trigger] moves[j].key@ != k by {
            assert(moves[j].key@ != moves[i].key@);
        }
        lemma_moved_other_key(older, moves, i, k);
        assert(v.index.get(k) == Some(mv.from));
        assert(next == v.index.insert(k, mv.to));
        lemma_touched_key(v.cur_gen, active, 0, base1, 0, base2, 0);
        let r1 = replayed(v.cur_gen, active, 0, base1, 0).unwrap().0;
        let r2 = replayed(v.cur_gen, active, 0, base2, 0).unwrap().0;
        assert forall|k2: Seq<char>| r2.get(k2) == next.get(k2) by {
            if !touches(active, 0, k2) {
                lemma_untouched_key(v.cur_gen, active, 0, base1, 0, k2);
                lemma_untouched_key(v.cur_gen, active, 0, base2, 0, k2);
            }
        }
        lemma_same_entries(r2, next);
    }
}

/// The compaction segment replays to the targets of the moves: where each
/// copy holds a `Set` record for the key of its move and is as long as the
/// record that the move takes, replaying the first `i` copies gives an index
/// in which the key of each of the first `i` moves points at its target.
pub proof fn lemma_copies_replay(moves: Seq<Move>, copies: Seq<Seq<u8>>, gen: u64, i: int)
    requires
        laid_out(moves, gen),
        copies.len() == moves.len(),
        0 <= i <= moves.len(),
        forall|j: int|
            0 <= j < moves.len() ==> (#[trigger] copies[j]).len() == moves[j].from.len
                && decoded(copies[j]) is Some && decoded(copies[j]).unwrap() is Put && key_of(
                decoded(copies[j]).unwrap(),
            ) == moves[j].key@,
    ensures
        joined(copies, i).len() == offset_of(moves, i),
        replayed(gen, joined(copies, i), 0, Map::empty(), 0) == Some(
            (moved(Map::empty(), moves, i), 0u64),
        ),
    decreases i,
{
    if i > 0 {
        lemma_copies_replay(moves, copies, gen, i - 1);
        let front = joined(copies, i - 1);
        let copy = copies[i - 1];
        let mv = moves[i - 1];
        assert(mv.to == CmdPos { gen, pos: offset_of(moves, i - 1) as u64, len: mv.from.len });
        lemma_replay_extended(gen, front, copy, 0, Map::empty(), 0);
        assert forall|j: int| 0 <= j < i - 1 implies #[trigger] moves[j].key@ != mv.key@ by {
            assert(moves[j].key@ != moves[i - 1].key@);
        }
        lemma_moved_other_key(Map::empty(), moves, i - 1, mv.key@);
    }
}

/// Reopening after a compaction rebuilds the index. Once every move of the
/// plan was carried out and the segments below the compaction are gone, the
/// compaction segment and the active segment, replayed one after the other
/// on an empty index, give the index that the store has.
pub proof fn lemma_reopening_after_compaction(
    older: Map<Seq<char>, CmdPos>,
    moves: Seq<Move>,
    copies: Seq<Seq<u8>>,
    gen: u64,
    v: StoreState,
    active: Seq<u8>,
)
    requires
        compacting(older, moves, moves.len() as int, gen, v, active),
        copies.len() == moves.len(),
        forall|j: int|
            0 <= j < moves.len() ==> (#[trigger] copies[j]).len() == moves[j].from.len
                && decoded(copies[j]) is Some && decoded(copies[j]).unwrap() is Put && key_of(
                decoded(copies[j]).unwrap(),
            ) == moves[j].key@,
    ensures
        ({
            let compacted = replayed(gen, joined(copies, moves.len() as int), 0, Map::empty(), 0);
            &&& compacted is Some
            &&& replayed(v.cur_gen, active, 0, compacted.unwrap().0, 0) is Some
            &&& replayed(v.cur_gen, active, 0, compacted.unwrap().0, 0).unwrap().0 == v.index
        }),
{
    let m = moves.len() as int;
    lemma_copies_replay(moves, copies, gen, m);
    let targets = moved(Map::empty(), moves, m);
    let full = moved(older, moves, m);
    assert forall|k: Seq<char>| !touches(active, 0, k) implies #[trigger] full.get(k)
        == targets.get(k) by {
        if exists|j: int| 0 <= j < m && #[trigger] moves[j].key@ == k {
            let j = choose|j: int| 0 <= j < m && #[trigger] moves[j].key@ == k;
            lemma_moved_plan_key(older, moves, gen, m, j);
            lemma_moved_plan_key(Map::empty(), moves, gen, m, j);
        } else {
            lemma_moved_other_key(older, moves, m, k);
            lemma_moved_other_key(Map::empty(), moves, m, k);
            assert(!older.contains_key(k));
        }
    }
    lemma_replay_of_like_bases(v.cur_gen, active, full, targets);
}

/// The index after the first `i` moves of a plan were asked of it, one
/// after the other.
pub open spec fn relocated_all(index: Map<Seq<char>, CmdPos>, moves: Seq<Move>, i: int) -> Map<
    Seq<char>,
    CmdPos,
>
    decreases i,
{
    if i <= 0 {
        index
    } else {
        relocated(relocated_all(index, moves, i - 1), moves[i - 1])
    }
}

/// A plan is laid out.
pub proof fn lemma_plan_is_laid_out(moves: Seq<Move>, index: Map<Seq<char>, CmdPos>, gen: u64)
    requires
        is_plan(moves, index, gen),
    ensures
        laid_out(moves, gen),
{
    assert forall|i: int| 0 <= i < moves.len() implies {
        &&& offset_of(moves, i) + (#[trigger] moves[i]).from.len <= u64::MAX
        &&& moves[i].to == CmdPos { gen, pos: offset_of(moves, i) as u64, len: moves[i].from.len }
    } by {
        assert(index.contains_key(moves[i].key@));
    }
}

/// While no set and no remove comes in, the index takes every move of its
/// plan.
pub proof fn lemma_quiet_moves(moves: Seq<Move>, index: Map<Seq<char>, CmdPos>, gen: u64, i: int)
    requires
        is_plan(moves, index, gen),
        0 <= i <= moves.len(),
    ensures
        relocated_all(index, moves, i) == moved(index, moves, i),
    decreases i,
{
    if i > 0 {
        lemma_quiet_moves(moves, index, gen, i - 1);
        let k = moves[i - 1].key@;
        assert forall|j: int| 0 <= j < i - 1 implies #[trigger] moves[j].key@ != k by {
            assert(moves[j].key@ != moves[i - 1].key@);
        }
        lemma_moved_other_key(index, moves, i - 1, k);
        assert(index.contains_key(k) && index[k] == moves[i - 1].from);
    }
}

/// After a quiet round every key points into the compaction segment. Where
/// every move of the plan was carried out and no set or remove came in
/// between, the index holds the keys that it held, and each points at the
/// target of its move: into the generation compacted into, at the offset
/// where the records before it end, with the length that it had. So the
/// targets tile the compaction segment from its start, one record for each
/// key.
pub proof fn lemma_quiet_round(moves: Seq<Move>, index: Map<Seq<char>, CmdPos>, gen: u64)
    requires
        is_plan(moves, index, gen),
    ensures
        ({
            let done = relocated_all(index, moves, moves.len() as int);
            &&& done.dom() == index.dom()
            &&& forall|j: int|
                0 <= j < moves.len() ==> done.get(#[trigger] moves[j].key@) == Some(
                    CmdPos {
                        gen,
                        pos: offset_of(moves, j) as u64,
                        len: index[moves[j].key@].len,
                    },
                )
            &&& forall|k: Seq<char>| #[trigger]
                done.contains_key(k) ==> exists|j: int|
                    0 <= j < moves.len() && #[trigger] moves[j].key@ == k
        }),
{
    let m = moves.len() as int;
    let done = relocated_all(index, moves, m);
    lemma_quiet_moves(moves, index, gen, m);
    lemma_plan_is_laid_out(moves, index, gen);
    assert forall|k: Seq<char>| #[trigger] done.dom().contains(k) == index.dom().contains(k) by {
        if exists|j: int| 0 <= j < m && #[trigger] moves[j].key@ == k {
            let j = choose|j: int| 0 <= j < m && #[trigger] moves[j].key@ == k;
            lemma_moved_plan_key(index, moves, gen, m, j);
            assert(index.contains_key(moves[j].key@));
        } else {
            lemma_moved_other_key(index, moves, m, k);
        }
    }
    assert(done.dom() =~= index.dom());
    assert forall|j: int| 0 <= j < m implies done.get(#[trigger] moves[j].key@) == Some(
        CmdPos { gen, pos: offset_of(moves, j) as u64, len: index[moves[j].key@].len },
    ) by {
        lemma_moved_plan_key(index, moves, gen, m, j);
        assert(index.contains_key(moves[j].key@));
    }
}

/// A quiet round can be closed: once every move of the plan was carried
/// out with no set or remove in between, no entry of the index lies below
/// the generation compacted into, so that `finish_compaction` raises the safe
/// point and every older segment can go.
pub proof fn lemma_quiet_round_closes(v: StoreState, moves: Seq<Move>, gen: u64)
    requires
        is_plan(moves, v.index, gen),
        gen <= v.cur_gen,
    ensures
        compacted(
            StoreState { index: relocated_all(v.index, moves, moves.len() as int), ..v },
            gen,
        ),
{
    let done = relocated_all(v.index, moves, moves.len() as int);
    lemma_quiet_round(moves, v.index, gen);
    assert forall|k: Seq<char>| #[trigger] done.contains_key(k) implies done[k].gen >= gen by {
        let j = choose|j: int| 0 <= j < moves.len() && #[trigger] moves[j].key@ == k;
        assert(done.get(moves[j].key@) is Some);
    }
}

} // verus!
