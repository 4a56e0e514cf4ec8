//! What holds of the safe point: the index never points below it nor above
//! the active segment, so that no read is sent to a segment that a
//! compaction retired, and none of the segments that a compaction unlinks
//! is still in use.

use crate::engine::compaction_laws::{lemma_touched_key_lands, lemma_untouched_key, touches};
use crate::engine::index::CmdPos;
use crate::engine::kvs::{
    after_put, after_rm, compacted, gens_ascend, next_gen, relocated, replayed, replayed_all,
    settled, Move, StoreState,
};
use crate::engine::kvs_laws::{consistent, points_to, segment, stored};
use vstd::prelude::*;

verus! {

/// Whether every entry of the index lies in a segment from the safe point
/// up to the active one.
pub open spec fn in_range(v: StoreState) -> bool {
    &&& v.safe_point <= v.cur_gen
    &&& forall|k: Seq<char>| #[trigger]
        v.index.contains_key(k) ==> v.safe_point <= v.index[k].gen <= v.cur_gen
}

/// The state after a compaction into `gen` was closed: the safe point is at
/// `gen`, unless it was above already.
pub open spec fn closed(v: StoreState, gen: u64) -> StoreState {
    StoreState {
        safe_point: if v.safe_point < gen {
            gen
        } else {
            v.safe_point
        },
        ..v
    }
}

/// Sets and removes keep the index in range, also where the writer rotates.
pub proof fn lemma_writes_stay_in_range(v: StoreState, key: Seq<char>, len: u64)
    requires
        in_range(v),
    ensures
        in_range(settled(after_put(v, key, len))),
        in_range(settled(after_rm(v, key, len))),
{
    let put = settled(after_put(v, key, len));
    assert forall|k: Seq<char>| #[trigger] put.index.contains_key(k) implies put.safe_point
        <= put.index[k].gen <= put.cur_gen by {
        if k != key {
            assert(v.index.contains_key(k));
        }
    }
    let rm = settled(after_rm(v, key, len));
    assert forall|k: Seq<char>| #[trigger] rm.index.contains_key(k) implies rm.safe_point
        <= rm.index[k].gen <= rm.cur_gen by {
        assert(v.index.contains_key(k));
    }
}

/// A move into a generation from the safe point up to the active segment
/// keeps the index in range.
pub proof fn lemma_move_stays_in_range(v: StoreState, mv: Move)
    requires
        in_range(v),
        v.safe_point <= mv.to.gen <= v.cur_gen,
    ensures
        in_range(StoreState { index: relocated(v.index, mv), ..v }),
{
    let next = relocated(v.index, mv);
    assert forall|k: Seq<char>| #[trigger] next.contains_key(k) implies v.safe_point
        <= next[k].gen <= v.cur_gen by {
        if k != mv.key@ {
            assert(v.index.contains_key(k));
        }
    }
}

/// Closing a compaction keeps the index in range: the safe point is raised
/// only where every entry has left the segments below it.
pub proof fn lemma_closing_stays_in_range(v: StoreState, gen: u64)
    requires
        in_range(v),
        compacted(v, gen),
    ensures
        in_range(closed(v, gen)),
        v.safe_point <= closed(v, gen).safe_point,
{
}

/// No segment that a closed compaction leaves stale is in use: each lies
/// below the safe point, where the index has no entry and the writer does
/// not write.
pub proof fn lemma_stale_segments_are_unused(v: StoreState, gens: Seq<u64>, gen: u64, i: int)
    requires
        in_range(v),
        gen <= v.safe_point,
        0 <= i < gens.filter(|g: u64| g < gen).len(),
    ensures
        gens.filter(|g: u64| g < gen)[i] < v.safe_point,
        gens.filter(|g: u64| g < gen)[i] != v.cur_gen,
        forall|k: Seq<char>| #[trigger]
            v.index.contains_key(k) ==> v.index[k].gen != gens.filter(|g: u64| g < gen)[i],
{
    let below = |g: u64| g < gen;
    gens.lemma_filter_pred(below, i);
}

/// A replay puts entries of the segment's own generation into the index and
/// leaves the others as they were: where every entry lay at or below `top`
/// before and the segment's generation is at most `top`, every entry lies at
/// or below `top` after.
pub proof fn lemma_replay_stays_below(
    gen: u64,
    bytes: Seq<u8>,
    base: Map<Seq<char>, CmdPos>,
    top: u64,
)
    requires
        replayed(gen, bytes, 0, base, 0) is Some,
        gen <= top,
        forall|k: Seq<char>| #[trigger] base.contains_key(k) ==> base[k].gen <= top,
    ensures
        forall|k: Seq<char>| #[trigger]
            replayed(gen, bytes, 0, base, 0).unwrap().0.contains_key(k) ==> replayed(
                gen,
                bytes,
                0,
                base,
                0,
            ).unwrap().0[k].gen <= top,
{
    let index = replayed(gen, bytes, 0, base, 0).unwrap().0;
    assert forall|k: Seq<char>| #[trigger] index.contains_key(k) implies index[k].gen <= top by {
        if touches(bytes, 0, k) {
            lemma_touched_key_lands(gen, bytes, 0, base, 0, k);
        } else {
            lemma_untouched_key(gen, bytes, 0, base, 0, k);
            assert(base.contains_key(k));
        }
    }
}

/// Replaying the segments of a directory in ascending order gives an index
/// whose entries lie at or below the last generation.
pub proof fn lemma_replay_all_stays_below(
    logs: Seq<(u64, Seq<u8>)>,
    i: int,
    index: Map<Seq<char>, CmdPos>,
    stale: u64,
)
    requires
        gens_ascend(logs),
        0 <= i <= logs.len(),
        logs.len() > 0,
        replayed_all(logs, i, index, stale) is Some,
        forall|k: Seq<char>| #[trigger] index.contains_key(k) ==> index[k].gen <= logs.last().0,
    ensures
        forall|k: Seq<char>| #[trigger]
            replayed_all(logs, i, index, stale).unwrap().0.contains_key(k) ==> replayed_all(
                logs,
                i,
                index,
                stale,
            ).unwrap().0[k].gen <= logs.last().0,
    decreases logs.len() - i,
{
    if i < logs.len() {
        let (next, more) = replayed(logs[i].0, logs[i].1, 0, index, 0).unwrap();
        lemma_replay_stays_below(logs[i].0, logs[i].1, index, logs.last().0);
        lemma_replay_all_stays_below(logs, i + 1, next, stale.saturating_add(more));
    }
}

/// A store as it is opened on a directory whose segments come in ascending
/// order has its index in range.
pub proof fn lemma_opened_in_range(logs: Seq<(u64, Seq<u8>)>, threshold: u64)
    requires
        gens_ascend(logs),
        replayed_all(logs, 0, Map::empty(), 0) is Some,
        next_gen(logs) <= u64::MAX,
    ensures
        in_range(
            StoreState {
                index: replayed_all(logs, 0, Map::empty(), 0).unwrap().0,
                cur_gen: next_gen(logs) as u64,
                writer_pos: 0,
                stale: replayed_all(logs, 0, Map::empty(), 0).unwrap().1,
                threshold,
                safe_point: 0,
            },
        ),
{
    if logs.len() > 0 {
        lemma_replay_all_stays_below(logs, 0, Map::empty(), 0);
    }
}

/// The directory after the segments below `gen` were unlinked.
pub open spec fn unlinked(disk: Map<u64, Seq<u8>>, gen: u64) -> Map<u64, Seq<u8>> {
    disk.restrict(Set::new(|g: u64| g >= gen))
}

/// Unlinking what a closed compaction left stale is safe. Where every entry
/// of the index has left the segments below `gen`, the store agrees with the
/// directory without those segments as it did with them, every `get` gives
/// what it gave, and the directory holds only segments from `gen` up to the
/// active one: two at most where the writer rotated once since.
pub proof fn lemma_unlinking_is_safe(v: StoreState, disk: Map<u64, Seq<u8>>, gen: u64)
    requires
        consistent(v, disk),
        compacted(v, gen),
    ensures
        consistent(closed(v, gen), unlinked(disk, gen)),
        forall|key: Seq<char>|
            stored(closed(v, gen), unlinked(disk, gen), key) == stored(v, disk, key),
        forall|g: u64| #[trigger] unlinked(disk, gen).contains_key(g) ==> gen <= g <= v.cur_gen,
{
    let left = unlinked(disk, gen);
    assert forall|g: u64| g >= gen implies segment(left, g) == segment(disk, g) by {}
    assert forall|k: Seq<char>| #[trigger] v.index.contains_key(k) implies points_to(
        left,
        k,
        v.index[k],
    ) by {
        assert(points_to(disk, k, v.index[k]));
        assert(segment(left, v.index[k].gen) == segment(disk, v.index[k].gen));
    }
    assert forall|key: Seq<char>| stored(closed(v, gen), left, key) == stored(v, disk, key) by {
        if v.index.contains_key(key) {
            assert(segment(left, v.index[key].gen) == segment(disk, v.index[key].gen));
        }
    }
    assert(segment(left, v.cur_gen) == segment(disk, v.cur_gen));
    assert forall|g: u64| #[trigger] left.contains_key(g) implies gen <= g <= v.cur_gen by {
        assert(disk.contains_key(g));
    }
}

} // verus!
