//! Windows of fixed length over a sequence of symbols.

use crate::file_parser_utils::{records_of, Fasta, Record};
use vstd::hash_map::StringHashMap;
use vstd::prelude::*;
use vstd::string::*;

verus! {

/// The number of windows of length `k` that fit into a sequence of length
/// `len`: `len - k + 1`, and none where the sequence is shorter than `k`.
pub open spec fn k_mer_count(len: nat, k: nat) -> nat {
    if len >= k {
        (len - k + 1) as nat
    } else {
        0
    }
}

/// The window of length `k` that starts at position `start`.
pub open spec fn k_mer_at(sequence: Seq<char>, k: nat, start: int) -> Seq<char> {
    sequence.subrange(start, start + k)
}

/// All windows of length `k` of a sequence, by starting position.
pub open spec fn k_mers_of(sequence: Seq<char>, k: nat) -> Seq<Seq<char>> {
    Seq::new(k_mer_count(sequence.len(), k), |start: int| k_mer_at(sequence, k, start))
}

/// What a vector of strings holds, as sequences of symbols.
pub open spec fn texts(strings: Seq<String>) -> Seq<Seq<char>> {
    Seq::new(strings.len(), |i: int| strings[i]@)
}

/// The overlapping substrings of length `k` of `sequence`, in order of their
/// starting position. Positions and lengths count symbols, not bytes.
pub fn create_k_mers(sequence: &str, k: usize) -> (k_mers: Vec<String>)
    requires
        k >= 1,
    ensures
        texts(k_mers@) == k_mers_of(sequence@, k as nat),
        k_mers.len() == k_mer_count(sequence@.len(), k as nat),
        forall|i: int| 0 <= i < k_mers.len() ==> (#[trigger] k_mers[i])@.len() == k,
{
    let len: usize = sequence.unicode_len();
    let mut k_mers: Vec<String> = Vec::new();
    if len < k {
        return k_mers;
    }
    let count: usize = len - k + 1;
    let ascii: bool = sequence.is_ascii();
    let mut start: usize = 0;
    while start < count
        invariant
            k >= 1,
            len == sequence@.len(),
            len >= k,
            count == len - k + 1,
            ascii == sequence.is_ascii(),
            start <= count,
            k_mers@.len() == start,
            forall|i: int|
                0 <= i < start ==> (#[trigger] k_mers@[i])@ == k_mer_at(sequence@, k as nat, i),
        decreases count - start,
    {
        let window: &str = if ascii {
            sequence.substring_ascii(start, start + k)
        } else {
            sequence.substring_char(start, start + k)
        };
        k_mers.push(window.to_string());
        start = start + 1;
    }
    k_mers
}

/// The sequence that a run of overlapping windows spells: the first window,
/// then the last symbol of each further one.
pub open spec fn spelled_by(k_mers: Seq<Seq<char>>) -> Seq<char> {
    k_mers[0] + Seq::new((k_mers.len() - 1) as nat, |i: int| k_mers[i + 1].last())
}

/// Where the window fits, a sequence of `len` symbols has `len - k + 1`
/// windows of `k` symbols each; each window overlaps the next in all but one
/// symbol, and together they spell the sequence.
pub proof fn lemma_k_mers_tile(sequence: Seq<char>, k: nat)
    requires
        1 <= k <= sequence.len(),
    ensures
        k_mers_of(sequence, k).len() == sequence.len() - k + 1,
        forall|i: int|
            0 <= i < k_mers_of(sequence, k).len() ==> (#[trigger] k_mers_of(sequence, k)[i]).len()
                == k,
        forall|i: int|
            0 <= i < k_mers_of(sequence, k).len() - 1 ==> (#[trigger] k_mers_of(
                sequence,
                k,
            )[i]).drop_first() == k_mers_of(sequence, k)[i + 1].drop_last(),
        spelled_by(k_mers_of(sequence, k)) == sequence,
{
    let k_mers = k_mers_of(sequence, k);
    assert forall|i: int| 0 <= i < k_mers.len() - 1 implies (#[trigger] k_mers[i]).drop_first()
        == k_mers[i + 1].drop_last() by {}
}

/// The number of windows of length `k` in a sequence of `len` symbols, which
/// is the length by which expected coverage is normalised.
pub fn effective_length(len: usize, k: usize) -> (count: usize)
    requires
        k >= 1,
    ensures
        count == k_mer_count(len as nat, k as nat),
{
    if len >= k {
        len - k + 1
    } else {
        0
    }
}

/// The two overlapping halves of a window: all but its last symbol, and all
/// but its first.
pub open spec fn edge_of(k_mer: Seq<char>) -> (Seq<char>, Seq<char>) {
    (k_mer.drop_last(), k_mer.drop_first())
}

/// The edges of a sequence: the halves of each of its windows, in order.
pub open spec fn edges_of(sequence: Seq<char>, k: nat) -> Seq<(Seq<char>, Seq<char>)> {
    Seq::new(
        k_mer_count(sequence.len(), k),
        |start: int| edge_of(k_mer_at(sequence, k, start)),
    )
}

/// What a vector of edges holds, as pairs of sequences of symbols.
pub open spec fn edge_texts(edges: Seq<(String, String)>) -> Seq<(Seq<char>, Seq<char>)> {
    Seq::new(edges.len(), |i: int| (edges[i].0@, edges[i].1@))
}

/// Splits a window into its prefix and its suffix, each one symbol shorter.
pub fn split_k_mer(k_mer: &str) -> (edge: (String, String))
    requires
        k_mer@.len() >= 1,
    ensures
        (edge.0@, edge.1@) == edge_of(k_mer@),
{
    let len: usize = k_mer.unicode_len();
    let prefix: &str = k_mer.substring_char(0, len - 1);
    let suffix: &str = k_mer.substring_char(1, len);
    (prefix.to_string(), suffix.to_string())
}

/// The windows of each reference sequence, by the sequence's identifier.
pub struct KMerIndex {
    pub index: StringHashMap<Vec<String>>,
}

impl View for KMerIndex {
    type V = Map<Seq<char>, Seq<Seq<char>>>;

    open spec fn view(&self) -> Map<Seq<char>, Seq<Seq<char>>> {
        Map::new(
            |id: Seq<char>| self.index@.contains_key(id),
            |id: Seq<char>| texts(self.index@[id]@),
        )
    }
}

/// Whether record `i` is the last one that carries its identifier.
pub open spec fn is_last_of_its_name(records: Seq<Record>, i: int) -> bool {
    &&& 0 <= i < records.len()
    &&& forall|j: int| i < j < records.len() ==> (#[trigger] records[j]).header != records[i].header
}

/// Decomposes every record into its windows of length `k`. Where two records
/// share an identifier, the later one replaces the earlier.
pub fn build_k_mer_index(sequences: &Vec<Fasta>, k: usize) -> (k_mer_index: KMerIndex)
    requires
        k >= 1,
    ensures
        forall|id: Seq<char>|
            k_mer_index@.contains_key(id) <==> exists|i: int|
                0 <= i < sequences.len() && (#[trigger] sequences[i]).header@ == id,
        forall|i: int|
            is_last_of_its_name(records_of(sequences@), i) ==> k_mer_index@[(
                #[trigger] sequences[i]).header@] == k_mers_of(sequences[i].sequence@, k as nat),
{
    let mut k_mer_index = KMerIndex { index: StringHashMap::new() };
    let mut done: usize = 0;
    while done < sequences.len()
        invariant
            k >= 1,
            done <= sequences.len(),
            forall|id: Seq<char>|
                k_mer_index@.contains_key(id) <==> exists|i: int|
                    0 <= i < done && (#[trigger] sequences[i]).header@ == id,
            forall|i: int|
                is_last_of_its_name(records_of(sequences@).take(done as int), i) ==> k_mer_index@[(
                    #[trigger] sequences[i]).header@] == k_mers_of(
                    sequences[i].sequence@,
                    k as nat,
                ),
        decreases sequences.len() - done,
    {
        let fasta: &Fasta = &sequences[done];
        let k_mers: Vec<String> = create_k_mers(fasta.sequence.as_str(), k);
        let ghost before = k_mer_index@;
        k_mer_index.index.insert(fasta.header.clone(), k_mers);
        proof {
            let now = records_of(sequences@).take(done + 1);
            let earlier = records_of(sequences@).take(done as int);
            assert forall|id: Seq<char>|
                k_mer_index@.contains_key(id) <==> exists|i: int|
                    0 <= i < done + 1 && (#[trigger] sequences[i]).header@ == id by {
                assert(before.insert(fasta.header@, texts(k_mers@)).contains_key(id)
                    == k_mer_index@.contains_key(id));
            }
            assert forall|i: int| is_last_of_its_name(now, i) implies k_mer_index@[(
                #[trigger] sequences[i]).header@] == k_mers_of(
                sequences[i].sequence@,
                k as nat,
            ) by {
                assert(k_mer_index@.contains_key(sequences[i].header@));
                if i < done {
                    assert(now[done as int] == sequences[done as int]@);
                    assert forall|j: int| i < j < earlier.len() implies (
                        #[trigger] earlier[j]).header != earlier[i].header by {}
                }
            }
        }
        done = done + 1;
    }
    k_mer_index
}

} // verus!
