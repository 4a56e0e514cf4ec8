//! The in-memory index: a map from key to the position of its latest record,
//! kept in a skip list.

use crossbeam_skiplist::SkipMap;
use vstd::prelude::*;
use vstd::utf8::encode_utf8;

verus! {

/// Where one command record lies on disk: the generation of its segment,
/// the byte offset within the segment and the record's length in bytes.
#[derive(Clone, Copy, Debug, PartialEq, Eq, Structural)]
pub struct CmdPos {
    pub gen: u64,
    pub pos: u64,
    pub len: u64,
}

/// `crossbeam_skiplist::SkipMap`, taken as it is: nothing of its inside is
/// known here.
#[verifier::external_type_specification]
#[verifier::external_body]
#[verifier::reject_recursive_types(K)]
#[verifier::reject_recursive_types(V)]
pub struct ExSkipMap<K, V>(SkipMap<K, V>);

/// The entries of a skip map, as a mathematical map from key to position.
pub uninterp spec fn entries(m: SkipMap<String, CmdPos>) -> Map<Seq<char>, CmdPos>;

/// The index that holds no key.
pub open spec fn empty_index() -> Map<Seq<char>, CmdPos> {
    Map::empty()
}

/// Whether `a` comes before `b` in the order of strings: byte by byte, the
/// shorter of two first where it starts the longer.
pub open spec fn bytes_before(a: Seq<u8>, b: Seq<u8>) -> bool
    decreases a.len(),
{
    if b.len() == 0 {
        false
    } else if a.len() == 0 {
        true
    } else if a[0] != b[0] {
        a[0] < b[0]
    } else {
        bytes_before(a.drop_first(), b.drop_first())
    }
}

/// Whether the key `a` comes before the key `b` in the order of the index.
pub open spec fn key_before(a: Seq<char>, b: Seq<char>) -> bool {
    bytes_before(encode_utf8(a), encode_utf8(b))
}

/// Whether `items` lists the entries of `index`: each item is an entry, each
/// entry is an item, no key comes twice, and the keys ascend.
pub open spec fn lists(items: Seq<(String, CmdPos)>, index: Map<Seq<char>, CmdPos>) -> bool {
    &&& forall|i: int|
        0 <= i < items.len() ==> index.contains_key(#[trigger] items[i].0@) && index[items[i].0@]
            == items[i].1
    &&& forall|k: Seq<char>| #[trigger]
        index.contains_key(k) ==> exists|i: int| 0 <= i < items.len() && #[trigger] items[i].0@ == k
    &&& forall|i: int, j: int|
        0 <= i < j < items.len() ==> #[trigger] items[i].0@ != #[trigger] items[j].0@
    &&& forall|i: int, j: int|
        0 <= i < j < items.len() ==> key_before(#[trigger] items[i].0@, #[trigger] items[j].0@)
}

/// `SkipMap::new`: the new map has no entry.
#[verifier::external_body]
pub(crate) fn skipmap_new() -> (r: SkipMap<String, CmdPos>)
    ensures
        entries(r) == empty_index(),
{
    SkipMap::new()
}

/// `SkipMap::get`, with the entry's value copied out: the position stored
/// under `key`, if there is one.
#[verifier::external_body]
pub(crate) fn skipmap_get(m: &SkipMap<String, CmdPos>, key: &String) -> (r: Option<CmdPos>)
    ensures
        r == entries(*m).get(key@),
{
    m.get(key).map(|e| *e.value())
}

/// `SkipMap::insert`: afterwards `key` maps to `value`, whether or not it had
/// an entry before; the other keys are untouched.
#[verifier::external_body]
pub(crate) fn skipmap_insert(m: &mut SkipMap<String, CmdPos>, key: String, value: CmdPos)
    ensures
        entries(*final(m)) == entries(*old(m)).insert(key@, value),
{
    m.insert(key, value);
}

/// `SkipMap::remove`, with the entry's value copied out: afterwards `key` has
/// no entry, and the result is the position it had, if it had one.
#[verifier::external_body]
pub(crate) fn skipmap_remove(m: &mut SkipMap<String, CmdPos>, key: &String) -> (r: Option<CmdPos>)
    ensures
        r == entries(*old(m)).get(key@),
        entries(*final(m)) == entries(*old(m)).remove(key@),
{
    m.remove(key).map(|e| *e.value())
}

/// `SkipMap::iter`, with each entry copied out as a pair: the result lists
/// the map's entries, in the ascending order of their keys.
#[verifier::external_body]
pub(crate) fn skipmap_items(m: &SkipMap<String, CmdPos>) -> (r: Vec<(String, CmdPos)>)
    ensures
        lists(r@, entries(*m)),
{
    m.iter().map(|e| (e.key().clone(), *e.value())).collect()
}

} // verus!
