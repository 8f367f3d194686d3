//! What the index and the resolution of a read are, stated over plain
//! sequences: which transcripts carry which edge, and which transcripts a
//! read is compatible with.

use crate::file_parser_utils::Record;
use crate::k_mer_utils::{edge_of, edges_of, k_mer_at, k_mer_count};
use crate::positions::members;
use vstd::prelude::*;
use vstd::set_lib::{lemma_int_range, lemma_len_subset, set_int_range};

verus! {

/// Whether `k_mer` is one of the windows of length `k` of `sequence`.
pub open spec fn has_k_mer(sequence: Seq<char>, k: nat, k_mer: Seq<char>) -> bool {
    exists|start: int|
        0 <= start < k_mer_count(sequence.len(), k) && #[trigger] k_mer_at(sequence, k, start)
            == k_mer
}

/// Whether `edge` is one of the edges of `sequence`.
pub open spec fn has_edge(sequence: Seq<char>, k: nat, edge: (Seq<char>, Seq<char>)) -> bool {
    exists|start: int|
        0 <= start < k_mer_count(sequence.len(), k) && edge_of(
            #[trigger] k_mer_at(sequence, k, start),
        ) == edge
}

/// The positions of the transcripts that carry `edge`.
pub open spec fn carriers(transcripts: Seq<Record>, k: nat, edge: (Seq<char>, Seq<char>)) -> Set<
    int,
> {
    Set::new(|t: int| 0 <= t < transcripts.len() && has_edge(transcripts[t].sequence, k, edge))
}

/// The identifiers of the transcripts that carry `edge`.
pub open spec fn carrier_names(
    transcripts: Seq<Record>,
    k: nat,
    edge: (Seq<char>, Seq<char>),
) -> Set<Seq<char>> {
    Set::new(
        |name: Seq<char>|
            exists|t: int|
                0 <= t < transcripts.len() && has_edge(
                    (#[trigger] transcripts[t]).sequence,
                    k,
                    edge,
                ) && transcripts[t].header == name,
    )
}

/// The index as a mapping: each edge that some transcript carries, with the
/// identifiers of the transcripts that carry it.
pub open spec fn edge_index_of(transcripts: Seq<Record>, k: nat) -> Map<
    (Seq<char>, Seq<char>),
    Set<Seq<char>>,
> {
    Map::new(
        |edge: (Seq<char>, Seq<char>)|
            exists|t: int|
                0 <= t < transcripts.len() && has_edge(
                    (#[trigger] transcripts[t]).sequence,
                    k,
                    edge,
                ),
        |edge: (Seq<char>, Seq<char>)| carrier_names(transcripts, k, edge),
    )
}

/// The positions of the transcripts that carry each of the first `n` edges
/// of a read: the running candidate set after `n` edges.
pub open spec fn candidates(
    transcripts: Seq<Record>,
    k: nat,
    read_edges: Seq<(Seq<char>, Seq<char>)>,
    n: int,
) -> Set<int> {
    Set::new(
        |t: int|
            0 <= t < transcripts.len() && forall|j: int|
                0 <= j < n ==> has_edge(transcripts[t].sequence, k, #[trigger] read_edges[j]),
    )
}

/// The positions of the transcripts that a read is compatible with: those
/// that carry every edge of the read. A read without edges is compatible with
/// none.
pub open spec fn compatible(transcripts: Seq<Record>, k: nat, read: Seq<char>) -> Set<int> {
    let read_edges = edges_of(read, k);
    if read_edges.len() == 0 {
        Set::empty()
    } else {
        candidates(transcripts, k, read_edges, read_edges.len() as int)
    }
}

/// Whether resolving a read with the edges `read_edges` walks exactly its
/// first `walked` edges: the walk goes on while candidates are left, and ends
/// with the first edge that leaves none.
pub open spec fn walk_ends_at(
    transcripts: Seq<Record>,
    k: nat,
    read_edges: Seq<(Seq<char>, Seq<char>)>,
    walked: int,
) -> bool {
    &&& 0 <= walked <= read_edges.len()
    &&& forall|n: int|
        1 <= n < walked ==> !(#[trigger] candidates(transcripts, k, read_edges, n)).is_empty()
    &&& walked < read_edges.len() ==> walked >= 1 && candidates(
        transcripts,
        k,
        read_edges,
        walked,
    ).is_empty()
}

/// The identifiers of the transcripts at `positions`.
pub open spec fn names_at(transcripts: Seq<Record>, positions: Seq<usize>) -> Seq<Seq<char>> {
    Seq::new(positions.len(), |i: int| transcripts[positions[i] as int].header)
}

/// Every edge of every transcript: the edges of the first transcript in
/// their order, then those of the second, and so on.
pub open spec fn all_edges(transcripts: Seq<Record>, k: nat) -> Seq<(Seq<char>, Seq<char>)>
    decreases transcripts.len(),
{
    if transcripts.len() == 0 {
        Seq::empty()
    } else {
        all_edges(transcripts.drop_last(), k) + edges_of(transcripts.last().sequence, k)
    }
}

/// A window of two or more symbols is determined by its two halves.
pub proof fn lemma_edge_determines_k_mer(a: Seq<char>, b: Seq<char>)
    requires
        a.len() == b.len(),
        a.len() >= 2,
        edge_of(a) == edge_of(b),
    ensures
        a == b,
{
    assert forall|i: int| 0 <= i < a.len() implies a[i] == b[i] by {
        if i < a.len() - 1 {
            assert(a.drop_last()[i] == b.drop_last()[i]);
        } else {
            assert(a.drop_first()[i - 1] == b.drop_first()[i - 1]);
        }
    }
}

/// A sequence carries the edge of a window exactly if it holds the window.
pub proof fn lemma_edge_of_k_mer(sequence: Seq<char>, k: nat, k_mer: Seq<char>)
    requires
        k >= 2,
        k_mer.len() == k,
    ensures
        has_edge(sequence, k, edge_of(k_mer)) <==> has_k_mer(sequence, k, k_mer),
{
    if has_edge(sequence, k, edge_of(k_mer)) {
        let start = choose|start: int|
            0 <= start < k_mer_count(sequence.len(), k) && edge_of(
                #[trigger] k_mer_at(sequence, k, start),
            ) == edge_of(k_mer);
        lemma_edge_determines_k_mer(k_mer_at(sequence, k, start), k_mer);
    }
}

/// Each further edge narrows the candidates to those that carry it too; the
/// first edge starts them off with its own carriers.
pub proof fn lemma_candidates_step(
    transcripts: Seq<Record>,
    k: nat,
    read_edges: Seq<(Seq<char>, Seq<char>)>,
    n: int,
)
    requires
        0 <= n < read_edges.len(),
    ensures
        candidates(transcripts, k, read_edges, n + 1) == candidates(
            transcripts,
            k,
            read_edges,
            n,
        ).intersect(carriers(transcripts, k, read_edges[n])),
        n == 0 ==> candidates(transcripts, k, read_edges, 1) == carriers(
            transcripts,
            k,
            read_edges[0],
        ),
{
    let next = n + 1;
    let before = candidates(transcripts, k, read_edges, n);
    let after = candidates(transcripts, k, read_edges, next);
    let with = carriers(transcripts, k, read_edges[n]);
    assert forall|t: int| after.contains(t) <==> before.contains(t) && with.contains(t) by {}
}

/// The candidates never grow: those left after more edges were left after
/// fewer, and once none is left, none comes back.
pub proof fn lemma_candidates_shrink(
    transcripts: Seq<Record>,
    k: nat,
    read_edges: Seq<(Seq<char>, Seq<char>)>,
    fewer: int,
    more: int,
)
    requires
        0 <= fewer <= more,
    ensures
        candidates(transcripts, k, read_edges, more).subset_of(
            candidates(transcripts, k, read_edges, fewer),
        ),
        candidates(transcripts, k, read_edges, fewer).finite(),
        candidates(transcripts, k, read_edges, more).len() <= candidates(
            transcripts,
            k,
            read_edges,
            fewer,
        ).len(),
        candidates(transcripts, k, read_edges, fewer).is_empty() ==> candidates(
            transcripts,
            k,
            read_edges,
            more,
        ).is_empty(),
{
    let wide = candidates(transcripts, k, read_edges, fewer);
    let narrow = candidates(transcripts, k, read_edges, more);
    let all = set_int_range(0, transcripts.len() as int);
    lemma_int_range(0, transcripts.len() as int);
    lemma_len_subset(wide, all);
    lemma_len_subset(narrow, wide);
}

/// Both halves of every edge of a sequence have one symbol less than the
/// window.
pub proof fn lemma_edge_halves(sequence: Seq<char>, k: nat)
    requires
        k >= 2,
    ensures
        forall|j: int|
            0 <= j < edges_of(sequence, k).len() ==> (#[trigger] edges_of(sequence, k)[j]).0.len()
                == k - 1 && edges_of(sequence, k)[j].1.len() == k - 1,
        forall|edge: (Seq<char>, Seq<char>)| #[trigger]
            has_edge(sequence, k, edge) ==> edge.0.len() == k - 1 && edge.1.len() == k - 1,
{
    assert forall|edge: (Seq<char>, Seq<char>)| #[trigger]
        has_edge(sequence, k, edge) implies edge.0.len() == k - 1 && edge.1.len() == k - 1 by {}
}

/// Every key of the index is an edge whose halves both have `k - 1` symbols.
pub proof fn lemma_index_keys(transcripts: Seq<Record>, k: nat)
    requires
        k >= 2,
    ensures
        forall|edge: (Seq<char>, Seq<char>)| #[trigger]
            edge_index_of(transcripts, k).contains_key(edge) ==> edge.0.len() == k - 1
                && edge.1.len() == k - 1,
{
    assert forall|edge: (Seq<char>, Seq<char>)| #[trigger]
        edge_index_of(transcripts, k).contains_key(edge) implies edge.0.len() == k - 1
        && edge.1.len() == k - 1 by {
        let t = choose|t: int|
            0 <= t < transcripts.len() && has_edge((#[trigger] transcripts[t]).sequence, k, edge);
        lemma_edge_halves(transcripts[t].sequence, k);
    }
}

/// The index depends on which transcripts it was built from, not on their
/// order nor on how often one of them was entered.
pub proof fn lemma_index_ignores_order(first: Seq<Record>, second: Seq<Record>, k: nat)
    requires
        forall|record: Record| first.contains(record) <==> second.contains(record),
    ensures
        edge_index_of(first, k) == edge_index_of(second, k),
{
    lemma_index_covers(first, second, k);
    lemma_index_covers(second, first, k);
    assert(edge_index_of(first, k) =~~= edge_index_of(second, k));
}

proof fn lemma_index_covers(first: Seq<Record>, second: Seq<Record>, k: nat)
    requires
        forall|record: Record| first.contains(record) ==> second.contains(record),
    ensures
        forall|edge: (Seq<char>, Seq<char>)|
            edge_index_of(first, k).contains_key(edge) ==> #[trigger] edge_index_of(
                second,
                k,
            ).contains_key(edge),
        forall|edge: (Seq<char>, Seq<char>), name: Seq<char>|
            carrier_names(first, k, edge).contains(name) ==> #[trigger] carrier_names(
                second,
                k,
                edge,
            ).contains(name),
{
    assert forall|edge: (Seq<char>, Seq<char>)|
        edge_index_of(first, k).contains_key(edge) implies #[trigger] edge_index_of(
        second,
        k,
    ).contains_key(edge) by {
        let t = choose|t: int|
            0 <= t < first.len() && has_edge((#[trigger] first[t]).sequence, k, edge);
        assert(first.contains(first[t]));
    }
    assert forall|edge: (Seq<char>, Seq<char>), name: Seq<char>|
        carrier_names(first, k, edge).contains(name) implies #[trigger] carrier_names(
        second,
        k,
        edge,
    ).contains(name) by {
        let t = choose|t: int|
            0 <= t < first.len() && has_edge((#[trigger] first[t]).sequence, k, edge)
                && first[t].header == name;
        assert(first.contains(first[t]));
    }
}

/// The identifiers at the positions of the carriers of an edge make up the
/// set that the index holds for the edge.
pub proof fn lemma_names_of_carriers(
    transcripts: Seq<Record>,
    k: nat,
    edge: (Seq<char>, Seq<char>),
    positions: Seq<usize>,
)
    requires
        members(positions) == carriers(transcripts, k, edge),
    ensures
        names_at(transcripts, positions).to_set() == carrier_names(transcripts, k, edge),
{
    let names = names_at(transcripts, positions);
    assert forall|name: Seq<char>| names.to_set().contains(name) <==> carrier_names(
        transcripts,
        k,
        edge,
    ).contains(name) by {
        if names.to_set().contains(name) {
            let i = choose|i: int| 0 <= i < names.len() && names[i] == name;
            let t = positions[i] as int;
            assert(members(positions).contains(t));
        }
        if carrier_names(transcripts, k, edge).contains(name) {
            let t = choose|t: int|
                0 <= t < transcripts.len() && has_edge(
                    (#[trigger] transcripts[t]).sequence,
                    k,
                    edge,
                ) && transcripts[t].header == name;
            assert(carriers(transcripts, k, edge).contains(t));
            let i = choose|i: int| 0 <= i < positions.len() && #[trigger] positions[i] == t;
            assert(names[i] == name);
        }
    }
}

/// A transcript that a read is compatible with is in the index and has at
/// least one window.
pub proof fn lemma_compatible_has_windows(
    transcripts: Seq<Record>,
    k: nat,
    read: Seq<char>,
    t: int,
)
    requires
        compatible(transcripts, k, read).contains(t),
    ensures
        0 <= t < transcripts.len(),
        k_mer_count(transcripts[t].sequence.len(), k) >= 1,
{
    let read_edges = edges_of(read, k);
    assert(has_edge(transcripts[t].sequence, k, read_edges[0]));
}

} // verus!
