//! What holds of loading a segment piece by piece: it gives what loading the
//! segment whole gives.

use crate::engine::command::{decoded_at, Record};
use crate::engine::command_lemmas::{
    lemma_decoded_at_advances, lemma_decoded_at_extended, lemma_decoded_at_shifted,
    lemma_decoded_at_unshifted,
};
use crate::engine::index::CmdPos;
use crate::engine::kvs::{len_of, replayed_part};
use vstd::prelude::*;

verus! {

/// The records that stand in full in the first piece read the same when the
/// next piece stands behind it: replaying both pieces together goes on from
/// where the replay of the first stopped.
pub proof fn lemma_part_extended(
    gen: u64,
    base: u64,
    first: Seq<u8>,
    next: Seq<u8>,
    pos: int,
    index: Map<Seq<char>, CmdPos>,
    stale: u64,
)
    requires
        0 <= pos <= first.len(),
    ensures
        ({
            let part = replayed_part(gen, base, first, pos, index, stale);
            &&& pos <= part.2 <= first.len()
            &&& replayed_part(gen, base, first + next, pos, index, stale) == replayed_part(
                gen,
                base,
                first + next,
                part.2,
                part.0,
                part.1,
            )
        }),
    decreases first.len() - pos,
{
    if pos < first.len() {
        match decoded_at(first, pos) {
            Some((rec, end)) => {
                lemma_decoded_at_advances(first, pos);
                lemma_decoded_at_extended(first, next, pos);
                let len = (end - pos) as u64;
                let at = CmdPos { gen, pos: (base + pos) as u64, len };
                match rec {
                    Record::Put { key, value } => {
                        lemma_part_extended(
                            gen,
                            base,
                            first,
                            next,
                            end,
                            index.insert(key, at),
                            stale.saturating_add(len_of(index, key)),
                        );
                    },
                    Record::Rm { key } => {
                        lemma_part_extended(
                            gen,
                            base,
                            first,
                            next,
                            end,
                            index.remove(key),
                            stale.saturating_add(len_of(index, key)).saturating_add(len),
                        );
                    },
                }
            },
            None => {},
        }
    }
}

/// Replaying bytes from a place on gives what replaying the bytes from that
/// place on, taken by themselves at their own offset, gives.
pub proof fn lemma_part_shifted(
    gen: u64,
    base: u64,
    front: Seq<u8>,
    rest: Seq<u8>,
    pos: int,
    index: Map<Seq<char>, CmdPos>,
    stale: u64,
)
    requires
        0 <= pos <= rest.len(),
        base + front.len() + rest.len() <= u64::MAX,
    ensures
        ({
            let alone = replayed_part(
                gen,
                (base + front.len()) as u64,
                rest,
                pos,
                index,
                stale,
            );
            replayed_part(gen, base, front + rest, front.len() + pos, index, stale) == (
                alone.0,
                alone.1,
                front.len() + alone.2,
            )
        }),
    decreases rest.len() - pos,
{
    let all = front + rest;
    let n = front.len() as int;
    if pos < rest.len() {
        if decoded_at(rest, pos) is Some {
            lemma_decoded_at_shifted(front, rest, pos);
            lemma_decoded_at_advances(rest, pos);
            let (rec, end) = decoded_at(rest, pos).unwrap();
            let len = (end - pos) as u64;
            let at = CmdPos { gen, pos: (base + n + pos) as u64, len };
            match rec {
                Record::Put { key, value } => {
                    lemma_part_shifted(
                        gen,
                        base,
                        front,
                        rest,
                        end,
                        index.insert(key, at),
                        stale.saturating_add(len_of(index, key)),
                    );
                },
                Record::Rm { key } => {
                    lemma_part_shifted(
                        gen,
                        base,
                        front,
                        rest,
                        end,
                        index.remove(key),
                        stale.saturating_add(len_of(index, key)).saturating_add(len),
                    );
                },
            }
        } else {
            if decoded_at(all, n + pos) is Some {
                lemma_decoded_at_unshifted(front, rest, pos);
            }
        }
    }
}

/// Loading in pieces is loading whole. Where the first piece was replayed
/// as far as its records go, and what it left is replayed together with the
/// next piece, at the offset where the first replay stopped, the result is
/// that of replaying both pieces at once.
pub proof fn lemma_loading_in_pieces(
    gen: u64,
    base: u64,
    first: Seq<u8>,
    next: Seq<u8>,
    index: Map<Seq<char>, CmdPos>,
    stale: u64,
)
    requires
        base + first.len() + next.len() <= u64::MAX,
    ensures
        ({
            let part = replayed_part(gen, base, first, 0, index, stale);
            let left = (first + next).subrange(part.2, (first + next).len() as int);
            let rest = replayed_part(gen, (base + part.2) as u64, left, 0, part.0, part.1);
            &&& 0 <= part.2 <= first.len()
            &&& replayed_part(gen, base, first + next, 0, index, stale) == (
                rest.0,
                rest.1,
                part.2 + rest.2,
            )
        }),
{
    let all = first + next;
    let part = replayed_part(gen, base, first, 0, index, stale);
    lemma_part_extended(gen, base, first, next, 0, index, stale);
    let front = all.subrange(0, part.2);
    let left = all.subrange(part.2, all.len() as int);
    assert(all =~= front + left);
    lemma_part_shifted(gen, base, front, left, 0, part.0, part.1);
}

} // verus!
