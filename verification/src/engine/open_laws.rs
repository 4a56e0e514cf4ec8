//! What holds of a store as it is opened: its index points at the records
//! that the segments of the directory hold, so that the laws on sets, gets
//! and removes start from every store that `open` gives.

use crate::engine::command::{decoded, decoded_at, Record};
use crate::engine::command_lemmas::lemma_decoded_alone;
use crate::engine::index::CmdPos;
use crate::engine::kvs::{len_of, next_gen, replayed, replayed_all, StoreState};
use crate::engine::kvs_laws::{consistent, points_to, segment};
use vstd::prelude::*;

verus! {

/// Whether `p` points at a `Set` record for `key` in the bytes of a segment.
pub open spec fn holds_record(bytes: Seq<u8>, key: Seq<char>, p: CmdPos) -> bool {
    &&& p.pos + p.len <= bytes.len()
    &&& match decoded(bytes.subrange(p.pos as int, p.pos + p.len)) {
        Some(Record::Put { key: k, value }) => k == key,
        _ => false,
    }
}

/// Each entry that a replay leaves in the index is one that the index had,
/// or points at a `Set` record for its key in the segment replayed.
pub proof fn lemma_replay_points(
    gen: u64,
    bytes: Seq<u8>,
    pos: int,
    base: Map<Seq<char>, CmdPos>,
    stale: u64,
)
    requires
        0 <= pos,
        bytes.len() <= u64::MAX,
        replayed(gen, bytes, pos, base, stale) is Some,
    ensures
        forall|k: Seq<char>| #[trigger]
            replayed(gen, bytes, pos, base, stale).unwrap().0.contains_key(k) ==> {
                let index = replayed(gen, bytes, pos, base, stale).unwrap().0;
                index.get(k) == base.get(k) || (index[k].gen == gen && holds_record(
                    bytes,
                    k,
                    index[k],
                ))
            },
    decreases bytes.len() - pos,
{
    if pos < bytes.len() {
        let (rec, end) = decoded_at(bytes, pos).unwrap();
        lemma_decoded_alone(bytes, pos);
        let len = (end - pos) as u64;
        let at = CmdPos { gen, pos: pos as u64, len };
        let index = replayed(gen, bytes, pos, base, stale).unwrap().0;
        match rec {
            Record::Put { key, value } => {
                let next = base.insert(key, at);
                lemma_replay_points(
                    gen,
                    bytes,
                    end,
                    next,
                    stale.saturating_add(len_of(base, key)),
                );
                assert(holds_record(bytes, key, at));
                assert forall|k: Seq<char>| #[trigger] index.contains_key(k) implies index.get(k)
                    == base.get(k) || (index[k].gen == gen && holds_record(bytes, k, index[k])) by {
                    if index.get(k) == next.get(k) && k != key {
                        assert(next.get(k) == base.get(k));
                    }
                }
            },
            Record::Rm { key } => {
                let next = base.remove(key);
                lemma_replay_points(
                    gen,
                    bytes,
                    end,
                    next,
                    stale.saturating_add(len_of(base, key)).saturating_add(len),
                );
                assert forall|k: Seq<char>| #[trigger] index.contains_key(k) implies index.get(k)
                    == base.get(k) || (index[k].gen == gen && holds_record(bytes, k, index[k])) by {
                    if index.get(k) == next.get(k) && k != key {
                        assert(next.get(k) == base.get(k));
                    }
                }
            },
        }
    }
}

/// Whether the generations of the segments rise: no two segments have the
/// same.
pub open spec fn gens_rise(logs: Seq<(u64, Seq<u8>)>) -> bool {
    forall|i: int, j: int| 0 <= i < j < logs.len() ==> logs[i].0 < logs[j].0
}

/// The directory that holds the first `n` segments.
pub open spec fn disk_of(logs: Seq<(u64, Seq<u8>)>, n: int) -> Map<u64, Seq<u8>>
    decreases n,
{
    if n <= 0 {
        Map::empty()
    } else {
        disk_of(logs, n - 1).insert(logs[n - 1].0, logs[n - 1].1)
    }
}

/// The directory holds each of its segments under its generation, and no
/// others.
pub proof fn lemma_disk_of(logs: Seq<(u64, Seq<u8>)>, n: int)
    requires
        gens_rise(logs),
        0 <= n <= logs.len(),
    ensures
        forall|j: int|
            0 <= j < n ==> disk_of(logs, n).contains_key(#[trigger] logs[j].0) && disk_of(
                logs,
                n,
            )[logs[j].0] == logs[j].1,
        forall|g: u64| #[trigger]
            disk_of(logs, n).contains_key(g) ==> exists|j: int|
                0 <= j < n && (#[trigger] logs[j]).0 == g,
    decreases n,
{
    if n > 0 {
        lemma_disk_of(logs, n - 1);
        assert forall|j: int| 0 <= j < n implies disk_of(logs, n).contains_key(
            #[trigger] logs[j].0,
        ) && disk_of(logs, n)[logs[j].0] == logs[j].1 by {
            if j < n - 1 {
                assert(logs[j].0 < logs[n - 1].0);
            }
        }
        assert forall|g: u64| #[trigger] disk_of(logs, n).contains_key(g) implies exists|j: int|
            0 <= j < n && (#[trigger] logs[j]).0 == g by {
            if g == logs[n - 1].0 {
                assert(logs[n - 1].0 == g);
            } else {
                assert(disk_of(logs, n - 1).contains_key(g));
                let j = choose|j: int| 0 <= j < n - 1 && (#[trigger] logs[j]).0 == g;
                assert(logs[j].0 == g);
            }
        }
    }
}

/// Whether each entry of the index points at a `Set` record for its key in
/// one of the first `i` segments.
pub open spec fn points_into(index: Map<Seq<char>, CmdPos>, logs: Seq<(u64, Seq<u8>)>, i: int) -> bool {
    forall|k: Seq<char>| #[trigger]
        index.contains_key(k) ==> exists|j: int|
            0 <= j < i && #[trigger] logs[j].0 == index[k].gen && holds_record(
                logs[j].1,
                k,
                index[k],
            )
}

/// Replaying the segments of a directory gives an index whose entries point
/// at `Set` records for their keys in those segments.
pub proof fn lemma_replay_all_points(
    logs: Seq<(u64, Seq<u8>)>,
    i: int,
    index: Map<Seq<char>, CmdPos>,
    stale: u64,
)
    requires
        0 <= i <= logs.len(),
        forall|j: int| 0 <= j < logs.len() ==> (#[trigger] logs[j]).1.len() <= u64::MAX,
        replayed_all(logs, i, index, stale) is Some,
        points_into(index, logs, i),
    ensures
        points_into(replayed_all(logs, i, index, stale).unwrap().0, logs, logs.len() as int),
    decreases logs.len() - i,
{
    if i < logs.len() {
        let (next, more) = replayed(logs[i].0, logs[i].1, 0, index, 0).unwrap();
        assert(logs[i].1.len() <= u64::MAX);
        lemma_replay_points(logs[i].0, logs[i].1, 0, index, 0);
        assert forall|k: Seq<char>| #[trigger] next.contains_key(k) implies exists|j: int|
            0 <= j < i + 1 && #[trigger] logs[j].0 == next[k].gen && holds_record(
                logs[j].1,
                k,
                next[k],
            ) by {
            if next.get(k) == index.get(k) {
                assert(index.contains_key(k));
                let j = choose|j: int|
                    0 <= j < i && #[trigger] logs[j].0 == index[k].gen && holds_record(
                        logs[j].1,
                        k,
                        index[k],
                    );
                assert(logs[j].0 == next[k].gen);
            } else {
                assert(logs[i].0 == next[k].gen);
            }
        }
        lemma_replay_all_points(logs, i + 1, next, stale.saturating_add(more));
    }
}

/// A store as it is opened agrees with its directory. Where the segments
/// come with rising generations and replay, the store that `open` gives has
/// each entry of its index pointing at a `Set` record for its key, and
/// stands at the start of an active segment that is not there yet.
pub proof fn lemma_opened_is_consistent(logs: Seq<(u64, Seq<u8>)>, threshold: u64)
    requires
        gens_rise(logs),
        forall|j: int| 0 <= j < logs.len() ==> (#[trigger] logs[j]).1.len() <= u64::MAX,
        replayed_all(logs, 0, Map::empty(), 0) is Some,
        next_gen(logs) <= u64::MAX,
    ensures
        consistent(
            StoreState {
                index: replayed_all(logs, 0, Map::empty(), 0).unwrap().0,
                cur_gen: next_gen(logs) as u64,
                writer_pos: 0,
                stale: replayed_all(logs, 0, Map::empty(), 0).unwrap().1,
                threshold,
                safe_point: 0,
            },
            disk_of(logs, logs.len() as int),
        ),
{
    let n = logs.len() as int;
    let index = replayed_all(logs, 0, Map::empty(), 0).unwrap().0;
    let disk = disk_of(logs, n);
    let cur_gen = next_gen(logs) as u64;
    lemma_replay_all_points(logs, 0, Map::empty(), 0);
    lemma_disk_of(logs, n);
    assert forall|k: Seq<char>| #[trigger] index.contains_key(k) implies points_to(
        disk,
        k,
        index[k],
    ) by {
        let j = choose|j: int|
            0 <= j < n && #[trigger] logs[j].0 == index[k].gen && holds_record(
                logs[j].1,
                k,
                index[k],
            );
        assert(disk.contains_key(logs[j].0) && disk[logs[j].0] == logs[j].1);
    }
    assert forall|g: u64| #[trigger] disk.contains_key(g) implies g < cur_gen by {
        let j = choose|j: int| 0 <= j < n && (#[trigger] logs[j]).0 == g;
        if j < n - 1 {
            assert(logs[j].0 < logs[n - 1].0);
        }
    }
    if disk.contains_key(cur_gen) {
        assert(cur_gen < cur_gen);
    }
    assert(segment(disk, cur_gen).len() == 0);
}

} // verus!
