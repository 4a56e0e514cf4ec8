//! What holds of a whole run of the store: however sets, removes and the
//! moves of compactions follow one another, a `get` gives what the last set
//! or remove of its key left.

use crate::engine::command::{encoded, Record};
use crate::engine::kvs::{after_put, after_rm, relocated, settled, Move, StoreState};
use crate::engine::kvs_laws::{
    bytes_at, consistent, lemma_relocate_keeps_values, lemma_remove_then_get,
    lemma_set_then_get, segment, stored, with_appended,
};
use vstd::prelude::*;

verus! {

/// One step of a run: a set or a remove that was carried out, or a move of a
/// compaction with the bytes that were copied for it.
pub enum Step {
    Put { key: Seq<char>, value: Seq<char> },
    Rm { key: Seq<char> },
    Move { mv: Move, copy: Seq<u8> },
}

/// Whether a step can be taken: the record of a set or a remove fits into
/// the active segment, a remove finds its key, and a move leads to the end
/// of a segment below the active one with a copy as long as the record that
/// it takes, which holds what the index points at where the index still has
/// the entry.
pub open spec fn allowed(v: StoreState, disk: Map<u64, Seq<u8>>, step: Step) -> bool {
    match step {
        Step::Put { key, value } => v.writer_pos + encoded(Record::Put { key, value }).len()
            <= u64::MAX,
        Step::Rm { key } => v.index.contains_key(key) && v.writer_pos + encoded(
            Record::Rm { key },
        ).len() <= u64::MAX,
        Step::Move { mv, copy } => {
            &&& mv.to.gen < v.cur_gen
            &&& mv.to.len == mv.from.len
            &&& mv.to.pos == segment(disk, mv.to.gen).len()
            &&& copy.len() == mv.from.len
            &&& v.index.get(mv.key@) == Some(mv.from) ==> copy == bytes_at(disk, mv.from)
        },
    }
}

/// Store and directory after a step.
pub open spec fn stepped(v: StoreState, disk: Map<u64, Seq<u8>>, step: Step) -> (
    StoreState,
    Map<u64, Seq<u8>>,
) {
    match step {
        Step::Put { key, value } => {
            let rec = encoded(Record::Put { key, value });
            (settled(after_put(v, key, rec.len() as u64)), with_appended(disk, v.cur_gen, rec))
        },
        Step::Rm { key } => {
            let rec = encoded(Record::Rm { key });
            (settled(after_rm(v, key, rec.len() as u64)), with_appended(disk, v.cur_gen, rec))
        },
        Step::Move { mv, copy } => (
            StoreState { index: relocated(v.index, mv), ..v },
            with_appended(disk, mv.to.gen, copy),
        ),
    }
}

/// Store and directory after the first `n` steps.
pub open spec fn ran(v: StoreState, disk: Map<u64, Seq<u8>>, steps: Seq<Step>, n: int) -> (
    StoreState,
    Map<u64, Seq<u8>>,
)
    decreases n,
{
    if n <= 0 {
        (v, disk)
    } else {
        let before = ran(v, disk, steps, n - 1);
        stepped(before.0, before.1, steps[n - 1])
    }
}

/// Whether each of the first `n` steps can be taken when its turn comes.
pub open spec fn all_allowed(v: StoreState, disk: Map<u64, Seq<u8>>, steps: Seq<Step>, n: int) -> bool
    decreases n,
{
    n <= 0 || (all_allowed(v, disk, steps, n - 1) && allowed(
        ran(v, disk, steps, n - 1).0,
        ran(v, disk, steps, n - 1).1,
        steps[n - 1],
    ))
}

/// What the first `n` steps left for `key`: the value of its last set, none
/// after its last remove, and `first` where no step set or removed it.
pub open spec fn written(steps: Seq<Step>, n: int, key: Seq<char>, first: Option<Seq<char>>) -> Option<
    Seq<char>,
>
    decreases n,
{
    if n <= 0 {
        first
    } else {
        match steps[n - 1] {
            Step::Put { key: k, value } => if k == key {
                Some(value)
            } else {
                written(steps, n - 1, key, first)
            },
            Step::Rm { key: k } => if k == key {
                None
            } else {
                written(steps, n - 1, key, first)
            },
            Step::Move { mv, copy } => written(steps, n - 1, key, first),
        }
    }
}

/// A `get` gives what the last set or remove of its key left. After any run
/// of sets, removes and moves of compactions, from a store that agrees with
/// its directory, the store still agrees with it, and a `get` of a key gives
/// the value of the last set of that key, none where a remove came after
/// it, and what the key had at the start where the run did not touch it. So
/// a key that was set to `v1, .., vn` in turn reads as one of them all the
/// time, and as `vn` in the end.
pub proof fn lemma_get_gives_the_last_value(
    v: StoreState,
    disk: Map<u64, Seq<u8>>,
    steps: Seq<Step>,
    n: int,
)
    requires
        consistent(v, disk),
        0 <= n <= steps.len(),
        all_allowed(v, disk, steps, n),
    ensures
        consistent(ran(v, disk, steps, n).0, ran(v, disk, steps, n).1),
        forall|key: Seq<char>|
            stored(ran(v, disk, steps, n).0, ran(v, disk, steps, n).1, key) == written(
                steps,
                n,
                key,
                stored(v, disk, key),
            ),
    decreases n,
{
    if n > 0 {
        lemma_get_gives_the_last_value(v, disk, steps, n - 1);
        let before = ran(v, disk, steps, n - 1);
        let after = ran(v, disk, steps, n);
        match steps[n - 1] {
            Step::Put { key, value } => {
                lemma_set_then_get(before.0, before.1, key, value);
            },
            Step::Rm { key } => {
                lemma_remove_then_get(before.0, before.1, key);
            },
            Step::Move { mv, copy } => {
                lemma_relocate_keeps_values(before.0, before.1, mv, copy);
            },
        }
        assert forall|key: Seq<char>| stored(after.0, after.1, key) == written(
            steps,
            n,
            key,
            stored(v, disk, key),
        ) by {
            assert(stored(before.0, before.1, key) == written(
                steps,
                n - 1,
                key,
                stored(v, disk, key),
            ));
        }
    }
}

} // verus!
