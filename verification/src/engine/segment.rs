//! The segments of a directory: how a segment file is named after its
//! generation, which file names are segments, and which segments a
//! compaction leaves stale.

use crate::json::ascii;
use vstd::prelude::*;
use vstd::string::*;
use vstd::utf8::{encode_utf8, is_ascii_chars, is_ascii_chars_encode_utf8};

verus! {

/// The decimal digits of `n`, most significant first, as ASCII bytes: no
/// sign, and no leading zero but for 0 itself.
pub open spec fn decimal(n: nat) -> Seq<u8>
    decreases n,
{
    if n < 10 {
        seq![(0x30 + n) as u8]
    } else {
        decimal(n / 10).push((0x30 + n % 10) as u8)
    }
}

/// The text that ASCII bytes spell.
pub open spec fn as_text(bytes: Seq<u8>) -> Seq<char> {
    Seq::new(bytes.len(), |i: int| bytes[i] as char)
}

/// What ends the name of every segment file.
pub open spec fn log_suffix() -> Seq<u8> {
    ascii(".log"@)
}

/// The name of the segment file of generation `gen`, as bytes.
pub open spec fn log_name(gen: u64) -> Seq<u8> {
    decimal(gen as nat) + log_suffix()
}

/// The path of a file called `name` in the directory `path`; the name alone
/// where the path is empty.
pub open spec fn in_dir(path: Seq<char>, name: Seq<char>) -> Seq<char> {
    if path.len() == 0 {
        name
    } else {
        path + seq!['/'] + name
    }
}

/// The number that `digits` spell in decimal; `None` where they are no
/// digits, are none at all, or start with a zero that others follow.
pub open spec fn number(digits: Seq<u8>) -> Option<nat>
    decreases digits.len(),
{
    if digits.len() == 0 {
        None
    } else if !(0x30 <= digits.last() <= 0x39) {
        None
    } else if digits.len() == 1 {
        Some((digits.last() - 0x30) as nat)
    } else {
        match number(digits.drop_last()) {
            Some(high) => if high >= 1 {
                Some((high * 10 + (digits.last() - 0x30)) as nat)
            } else {
                None
            },
            None => None,
        }
    }
}

/// The generation of the segment file called `name`; `None` where the name
/// is not that of a segment file.
pub open spec fn gen_of(name: Seq<u8>) -> Option<u64> {
    if name.len() >= log_suffix().len() && name.subrange(
        name.len() - log_suffix().len(),
        name.len() as int,
    ) == log_suffix() {
        match number(name.subrange(0, name.len() - log_suffix().len())) {
            Some(n) => if n <= u64::MAX {
                Some(n as u64)
            } else {
                None
            },
            None => None,
        }
    } else {
        None
    }
}

/// The generations of the segment files among the first `n` names, in the
/// order of the names.
pub open spec fn gens_among(names: Seq<String>, n: int) -> Seq<u64>
    decreases n,
{
    if n <= 0 {
        Seq::empty()
    } else {
        match gen_of(encode_utf8(names[n - 1]@)) {
            Some(g) => gens_among(names, n - 1).push(g),
            None => gens_among(names, n - 1),
        }
    }
}

/// Whether the numbers come in ascending order.
pub open spec fn ascending(s: Seq<u64>) -> bool {
    forall|i: int, j: int| 0 <= i <= j < s.len() ==> s[i] <= s[j]
}

/// The digits of a number spell that number.
pub proof fn lemma_number_of_decimal(n: nat)
    ensures
        number(decimal(n)) == Some(n),
        decimal(n).len() >= 1,
    decreases n,
{
    if n >= 10 {
        lemma_number_of_decimal(n / 10);
        let d = decimal(n);
        assert(d.drop_last() =~= decimal(n / 10));
    }
}

/// Digits that spell a number are the digits of that number.
pub proof fn lemma_decimal_of_number(digits: Seq<u8>)
    requires
        number(digits) is Some,
    ensures
        decimal(number(digits).unwrap()) == digits,
    decreases digits.len(),
{
    if digits.len() == 1 {
        assert(digits =~= seq![digits.last()]);
    } else {
        lemma_decimal_of_number(digits.drop_last());
        assert(digits =~= digits.drop_last().push(digits.last()));
    }
}

/// A file name is that of the segment of generation `gen` exactly where it
/// is the name that `log_path` gives to that generation.
pub proof fn lemma_gen_of_log_name(name: Seq<u8>, gen: u64)
    ensures
        gen_of(name) == Some(gen) <==> name == log_name(gen),
{
    let k = log_suffix().len();
    if name == log_name(gen) {
        lemma_number_of_decimal(gen as nat);
        assert(name.subrange(name.len() - k, name.len() as int) =~= log_suffix());
        assert(name.subrange(0, name.len() - k) =~= decimal(gen as nat));
    }
    if gen_of(name) == Some(gen) {
        let digits = name.subrange(0, name.len() - k);
        lemma_decimal_of_number(digits);
        assert(name =~= digits + name.subrange(name.len() - k, name.len() as int));
    }
}

/// The digits that spell a number start with digits that spell a number no
/// greater.
pub proof fn lemma_number_of_prefix(digits: Seq<u8>, n: int)
    requires
        number(digits) is Some,
        1 <= n <= digits.len(),
    ensures
        number(digits.take(n)) is Some,
        number(digits.take(n)).unwrap() <= number(digits).unwrap(),
    decreases digits.len(),
{
    if n == digits.len() {
        assert(digits.take(n) =~= digits);
    } else {
        lemma_number_of_prefix(digits.drop_last(), n);
        assert(digits.drop_last().take(n) =~= digits.take(n));
    }
}

/// ASCII bytes are the UTF-8 form of the text that they spell.
pub proof fn lemma_text_bytes(bytes: Seq<u8>)
    requires
        forall|i: int| 0 <= i < bytes.len() ==> bytes[i] < 0x80,
    ensures
        encode_utf8(as_text(bytes)) == bytes,
{
    let text = as_text(bytes);
    assert(is_ascii_chars(text)) by {
        assert forall|i: int| 0 <= i < text.len() implies '\0' <= #[trigger] text[i]
            <= '\u{7f}' by {
            assert(text[i] == bytes[i] as char);
        }
    }
    is_ascii_chars_encode_utf8(text);
    assert(encode_utf8(text) =~= bytes) by {
        assert forall|i: int| 0 <= i < bytes.len() implies encode_utf8(text)[i] == bytes[i] by {
            assert(text[i] as u8 == encode_utf8(text)[i]);
        }
    }
}

/// The digits of a number are ASCII bytes.
pub proof fn lemma_decimal_is_ascii(n: nat)
    ensures
        forall|i: int| 0 <= i < decimal(n).len() ==> decimal(n)[i] < 0x80,
    decreases n,
{
    if n >= 10 {
        lemma_decimal_of_tail(n);
        lemma_decimal_is_ascii(n / 10);
    }
}

proof fn lemma_decimal_of_tail(n: nat)
    requires
        n >= 10,
    ensures
        decimal(n) == decimal(n / 10).push((0x30 + n % 10) as u8),
{
}

/// The path that `log_path` gives names a file that reads back as the
/// segment of that generation.
pub proof fn lemma_log_name_reads_back(gen: u64)
    ensures
        gen_of(encode_utf8(as_text(log_name(gen)))) == Some(gen),
{
    reveal_strlit(".log");
    lemma_decimal_is_ascii(gen as nat);
    lemma_text_bytes(log_name(gen));
    lemma_gen_of_log_name(log_name(gen), gen);
}

/// `u64`'s `to_string`: the decimal digits of the number, as `Display`
/// prints an unsigned integer.
#[verifier::external_body]
fn decimal_string(n: u64) -> (r: String)
    ensures
        r@ == as_text(decimal(n as nat)),
{
    n.to_string()
}

/// `sort_unstable` on a slice of integers: afterwards the same numbers stand
/// in ascending order.
#[verifier::external_body]
fn sort_gens(gens: &mut Vec<u64>)
    ensures
        ascending(final(gens)@),
        final(gens)@.to_multiset() == old(gens)@.to_multiset(),
{
    gens.sort_unstable();
}

/// The path of the segment file of generation `gen` in the directory `path`:
/// the generation in decimal, followed by `.log`.
pub fn log_path(path: &str, gen: u64) -> (r: String)
    ensures
        r@ == in_dir(path@, as_text(log_name(gen))),
{
    proof {
        reveal_strlit(".log");
        reveal_strlit("/");
    }
    let name = decimal_string(gen).concat(".log");
    assert(name@ =~= as_text(log_name(gen)));
    if path.is_empty() {
        name
    } else {
        let r = String::from_str(path).concat("/").concat(name.as_str());
        assert(r@ =~= path@ + seq!['/'] + name@);
        r
    }
}

/// The generation of the segment file called `name`; `None` where the name
/// is not that of a segment file: where it is not a generation in decimal
/// followed by `.log`.
pub fn parse_gen(name: &str) -> (r: Option<u64>)
    ensures
        r == gen_of(encode_utf8(name@)),
{
    proof {
        reveal_strlit(".log");
    }
    let bytes = name.as_bytes();
    let n = bytes.len();
    if n < 4 {
        return None;
    }
    let k = n - 4;
    if bytes[k] != 0x2e || bytes[k + 1] != 0x6c || bytes[k + 2] != 0x6f || bytes[k + 3] != 0x67 {
        assert(bytes@.subrange(n - 4, n as int)[0] == bytes@[k as int]);
        assert(bytes@.subrange(n - 4, n as int)[1] == bytes@[k + 1]);
        assert(bytes@.subrange(n - 4, n as int)[2] == bytes@[k + 2]);
        assert(bytes@.subrange(n - 4, n as int)[3] == bytes@[k + 3]);
        return None;
    }
    assert(bytes@.subrange(n - 4, n as int) =~= log_suffix());
    let ghost digits = bytes@.subrange(0, k as int);
    if k == 0 {
        return None;
    }
    let mut acc: u64 = 0;
    let mut i: usize = 0;
    while i < k
        invariant
            i <= k,
            k + 4 == n,
            n == bytes@.len(),
            digits == bytes@.subrange(0, k as int),
            bytes@ == encode_utf8(name@),
            log_suffix().len() == 4,
            bytes@.subrange(n - 4, n as int) == log_suffix(),
            i > 0 ==> number(digits.take(i as int)) == Some(acc as nat),
            i == 0 ==> acc == 0,
        decreases k - i,
    {
        let b = bytes[i];
        assert(digits.take(i + 1).last() == b);
        assert(digits.take(i + 1).drop_last() =~= digits.take(i as int));
        if b < 0x30 || b > 0x39 {
            proof {
                assert(number(digits.take(i + 1)) is None);
                if number(digits) is Some {
                    lemma_number_of_prefix(digits, i + 1);
                }
            }
            return None;
        }
        let d = (b - 0x30) as u64;
        if i > 0 {
            if acc == 0 || acc > (u64::MAX - d) / 10 {
                proof {
                    if acc != 0 {
                        assert(acc * 10 + d > u64::MAX);
                        assert(number(digits.take(i + 1)) == Some((acc * 10 + d) as nat));
                    } else {
                        assert(number(digits.take(i + 1)) is None);
                    }
                    if number(digits) is Some {
                        lemma_number_of_prefix(digits, i + 1);
                    }
                }
                return None;
            }
            acc = acc * 10 + d;
        } else {
            acc = d;
        }
        i += 1;
    }
    assert(digits.take(k as int) =~= digits);
    Some(acc)
}

/// The generations of the segment files among `names`, in ascending order.
/// Names that are not those of segment files are passed over.
pub fn get_sorted_gen_list(names: &Vec<String>) -> (r: Vec<u64>)
    ensures
        ascending(r@),
        r@.to_multiset() == gens_among(names@, names@.len() as int).to_multiset(),
{
    let mut gen_list: Vec<u64> = Vec::new();
    let mut i: usize = 0;
    while i < names.len()
        invariant
            i <= names@.len(),
            gen_list@ == gens_among(names@, i as int),
        decreases names@.len() - i,
    {
        if let Some(gen) = parse_gen(names[i].as_str()) {
            gen_list.push(gen);
        }
        i += 1;
    }
    sort_gens(&mut gen_list);
    gen_list
}

/// The generations that a compaction into `compaction_gen` leaves stale:
/// those below it, in the order given.
pub fn stale_gens(gens: &Vec<u64>, compaction_gen: u64) -> (r: Vec<u64>)
    ensures
        r@ == gens@.filter(|g: u64| g < compaction_gen),
{
    let mut stale: Vec<u64> = Vec::new();
    let mut i: usize = 0;
    while i < gens.len()
        invariant
            i <= gens@.len(),
            stale@ == gens@.take(i as int).filter(|g: u64| g < compaction_gen),
        decreases gens@.len() - i,
    {
        proof {
            reveal(Seq::filter);
            assert(gens@.take(i + 1).drop_last() =~= gens@.take(i as int));
        }
        if gens[i] < compaction_gen {
            stale.push(gens[i]);
        }
        i += 1;
    }
    assert(gens@.take(gens@.len() as int) =~= gens@);
    stale
}

} // verus!
