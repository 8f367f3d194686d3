//! The reference index: which transcripts carry which edge, and the
//! resolution of a read against it.

use crate::adjacency::Adjacency;
use crate::compatibility::{
    all_edges, candidates, carriers, compatible, edge_index_of, has_edge, has_k_mer,
    lemma_candidates_shrink, lemma_candidates_step, lemma_edge_halves, lemma_edge_of_k_mer,
    lemma_index_keys, lemma_names_of_carriers, names_at, walk_ends_at,
};
use crate::file_parser_utils::{records_of, Fasta, Record};
use crate::k_mer_utils::{
    create_k_mers, edge_of, edge_texts, edges_of, k_mer_at, k_mer_count, k_mers_of, split_k_mer,
    texts,
};
use crate::positions::{ascending, intersect, lemma_positions_unique, members, positions_of};
use vstd::hash_map::StringHashMap;
use vstd::prelude::*;
use vstd::string::*;

verus! {

/// What the index stands for: the window length and the transcripts that
/// were added to it, in the order in which they were added.
pub struct IndexModel {
    pub k: nat,
    pub transcripts: Seq<Record>,
}

/// One distinct window of the transcripts with the positions of the
/// transcripts that hold it.
struct EdgeEntry {
    k_mer: String,
    carriers: Vec<usize>,
}

/// The index over the edges of all reference transcripts.
pub struct DeBruijnGraph {
    k: usize,
    names: Vec<String>,
    effective_lengths: Vec<usize>,
    edges: Vec<EdgeEntry>,
    edge_lookup: StringHashMap<usize>,
    adjacency: Adjacency,
    model: Ghost<Seq<Record>>,
}

/// Whether transcript `t` is known to hold `k_mer` once the transcripts in
/// `done` and the first `upto` windows of `current`, the transcript that
/// follows them, have been entered.
spec fn seen(
    done: Seq<Record>,
    k: nat,
    current: Seq<char>,
    upto: int,
    t: int,
    k_mer: Seq<char>,
) -> bool {
    ||| 0 <= t < done.len() && has_k_mer(done[t].sequence, k, k_mer)
    ||| t == done.len() && exists|start: int|
        0 <= start < upto && start < k_mer_count(current.len(), k) && #[trigger] k_mer_at(
            current,
            k,
            start,
        ) == k_mer
}

/// Whether the table of distinct windows and its lookup agree with each other
/// and hold exactly what has been entered.
spec fn table_inv(
    lookup: Map<Seq<char>, usize>,
    edges: Seq<EdgeEntry>,
    done: Seq<Record>,
    k: nat,
    current: Seq<char>,
    upto: int,
) -> bool {
    &&& forall|k_mer: Seq<char>| #[trigger]
        lookup.contains_key(k_mer) <==> exists|t: int| seen(done, k, current, upto, t, k_mer)
    &&& forall|k_mer: Seq<char>| #[trigger]
        lookup.contains_key(k_mer) ==> lookup[k_mer] < edges.len() && edges[lookup[k_mer] as int].k_mer@
            == k_mer
    &&& forall|p: int|
        0 <= p < edges.len() ==> lookup.contains_key((#[trigger] edges[p]).k_mer@)
            && lookup[edges[p].k_mer@] == p
    &&& forall|p: int| 0 <= p < edges.len() ==> ascending((#[trigger] edges[p]).carriers@)
    &&& forall|p: int, t: int|
        0 <= p < edges.len() ==> (#[trigger] members(edges[p].carriers@).contains(t) <==> seen(
            done,
            k,
            current,
            upto,
            t,
            edges[p].k_mer@,
        ))
}

proof fn lemma_seen_step(
    done: Seq<Record>,
    k: nat,
    current: Seq<char>,
    upto: int,
    t: int,
    k_mer: Seq<char>,
)
    requires
        0 <= upto < k_mer_count(current.len(), k),
    ensures
        seen(done, k, current, upto + 1, t, k_mer) <==> (seen(done, k, current, upto, t, k_mer) || (t
            == done.len() && k_mer == k_mer_at(current, k, upto))),
{
}

proof fn lemma_seen_finish(done: Seq<Record>, k: nat, current: Record, t: int, k_mer: Seq<char>)
    ensures
        seen(done, k, current.sequence, k_mer_count(current.sequence.len(), k) as int, t, k_mer)
            <==> seen(done.push(current), k, Seq::empty(), 0, t, k_mer),
{
    let after = done.push(current);
    if 0 <= t < done.len() {
        assert(after[t] == done[t]);
    } else if t == done.len() {
        assert(after[t] == current);
    }
}

proof fn lemma_table_insert(
    lookup: Map<Seq<char>, usize>,
    edges: Seq<EdgeEntry>,
    done: Seq<Record>,
    k: nat,
    current: Seq<char>,
    upto: int,
    entry: EdgeEntry,
)
    requires
        table_inv(lookup, edges, done, k, current, upto),
        0 <= upto < k_mer_count(current.len(), k),
        !lookup.contains_key(k_mer_at(current, k, upto)),
        entry.k_mer@ == k_mer_at(current, k, upto),
        entry.carriers@ == seq![done.len() as usize],
        edges.len() <= usize::MAX,
        done.len() <= usize::MAX,
    ensures
        table_inv(
            lookup.insert(k_mer_at(current, k, upto), edges.len() as usize),
            edges.push(entry),
            done,
            k,
            current,
            upto + 1,
        ),
{
    let next = upto + 1;
    let k_mer = k_mer_at(current, k, upto);
    let at = edges.len() as usize;
    let lookup2 = lookup.insert(k_mer, at);
    let edges2 = edges.push(entry);
    assert forall|x: Seq<char>| #[trigger]
        lookup2.contains_key(x) <==> exists|t: int| seen(done, k, current, next, t, x) by {
        assert forall|t: int|
            seen(done, k, current, next, t, x) <==> (seen(done, k, current, upto, t, x) || (t
                == done.len() && x == k_mer)) by {
            lemma_seen_step(done, k, current, upto, t, x);
        }
        if x == k_mer {
            assert(seen(done, k, current, next, done.len() as int, x));
        }
    }
    assert forall|x: Seq<char>| #[trigger] lookup2.contains_key(x) implies lookup2[x]
        < edges2.len() && edges2[lookup2[x] as int].k_mer@ == x by {}
    assert forall|p: int| 0 <= p < edges2.len() implies lookup2.contains_key(
        (#[trigger] edges2[p]).k_mer@,
    ) && lookup2[edges2[p].k_mer@] == p by {}
    assert forall|p: int| 0 <= p < edges2.len() implies ascending(
        (#[trigger] edges2[p]).carriers@,
    ) by {}
    assert forall|p: int, t: int| 0 <= p < edges2.len() implies (#[trigger] members(
        edges2[p].carriers@,
    ).contains(t) <==> seen(done, k, current, next, t, edges2[p].k_mer@)) by {
        lemma_seen_step(done, k, current, upto, t, edges2[p].k_mer@);
        if p == edges.len() && t == done.len() {
            assert(entry.carriers@[0] == t);
        }
    }
}

proof fn lemma_table_revisit(
    lookup: Map<Seq<char>, usize>,
    edges: Seq<EdgeEntry>,
    edges2: Seq<EdgeEntry>,
    done: Seq<Record>,
    k: nat,
    current: Seq<char>,
    upto: int,
)
    requires
        table_inv(lookup, edges, done, k, current, upto),
        0 <= upto < k_mer_count(current.len(), k),
        lookup.contains_key(k_mer_at(current, k, upto)),
        done.len() <= usize::MAX,
        edges2.len() == edges.len(),
        forall|q: int|
            0 <= q < edges.len() && q != lookup[k_mer_at(current, k, upto)] ==> edges2[q]
                == edges[q],
        ({
            let p = lookup[k_mer_at(current, k, upto)] as int;
            let before = edges[p].carriers@;
            &&& edges2[p].k_mer@ == edges[p].k_mer@
            &&& if before.len() > 0 && before.last() == done.len() {
                edges2[p].carriers@ == before
            } else {
                edges2[p].carriers@ == before.push(done.len() as usize)
            }
        }),
    ensures
        table_inv(lookup, edges2, done, k, current, upto + 1),
{
    let next = upto + 1;
    let k_mer = k_mer_at(current, k, upto);
    let at = lookup[k_mer] as int;
    let here = done.len() as usize;
    let before = edges[at].carriers@;
    let after = edges2[at].carriers@;
    assert forall|x: Seq<char>| #[trigger]
        lookup.contains_key(x) <==> exists|t: int| seen(done, k, current, next, t, x) by {
        assert forall|t: int|
            seen(done, k, current, next, t, x) <==> (seen(done, k, current, upto, t, x) || (t
                == done.len() && x == k_mer)) by {
            lemma_seen_step(done, k, current, upto, t, x);
        }
    }
    assert forall|x: Seq<char>| #[trigger] lookup.contains_key(x) implies lookup[x] < edges2.len()
        && edges2[lookup[x] as int].k_mer@ == x by {}
    assert forall|p: int| 0 <= p < edges2.len() implies lookup.contains_key(
        (#[trigger] edges2[p]).k_mer@,
    ) && lookup[edges2[p].k_mer@] == p by {}
    // Every position on record is at most the current one.
    assert forall|i: int| 0 <= i < before.len() implies before[i] <= here by {
        assert(members(before).contains(before[i] as int));
    }
    assert forall|p: int| 0 <= p < edges2.len() implies ascending(
        (#[trigger] edges2[p]).carriers@,
    ) by {
        if p == at && !(before.len() > 0 && before.last() == done.len()) {
            assert forall|a: int, b: int| 0 <= a < b < after.len() implies after[a] < after[b] by {}
        }
    }
    assert forall|p: int, t: int| 0 <= p < edges2.len() implies (#[trigger] members(
        edges2[p].carriers@,
    ).contains(t) <==> seen(done, k, current, next, t, edges2[p].k_mer@)) by {
        lemma_seen_step(done, k, current, upto, t, edges2[p].k_mer@);
        if p == at && !(before.len() > 0 && before.last() == done.len()) {
            if members(before).contains(t) {
                let i = choose|i: int| 0 <= i < before.len() && #[trigger] before[i] == t;
                assert(after[i] == t);
            }
            if t == done.len() {
                assert(after[before.len() as int] == t);
            }
        }
    }
}

proof fn lemma_table_same(
    lookup: Map<Seq<char>, usize>,
    edges: Seq<EdgeEntry>,
    done: Seq<Record>,
    k: nat,
    current: Seq<char>,
    upto: int,
    done2: Seq<Record>,
    current2: Seq<char>,
    upto2: int,
)
    requires
        table_inv(lookup, edges, done, k, current, upto),
        forall|t: int, k_mer: Seq<char>|
            seen(done, k, current, upto, t, k_mer) <==> seen(done2, k, current2, upto2, t, k_mer),
    ensures
        table_inv(lookup, edges, done2, k, current2, upto2),
{
    assert forall|x: Seq<char>| #[trigger]
        lookup.contains_key(x) <==> exists|t: int| seen(done2, k, current2, upto2, t, x) by {}
}

proof fn lemma_table_carriers(
    lookup: Map<Seq<char>, usize>,
    edges: Seq<EdgeEntry>,
    transcripts: Seq<Record>,
    k: nat,
    k_mer: Seq<char>,
)
    requires
        table_inv(lookup, edges, transcripts, k, Seq::empty(), 0),
        k >= 2,
        k_mer.len() == k,
    ensures
        lookup.contains_key(k_mer) ==> lookup[k_mer] < edges.len() && ascending(
            edges[lookup[k_mer] as int].carriers@,
        ) && members(edges[lookup[k_mer] as int].carriers@) == carriers(
            transcripts,
            k,
            edge_of(k_mer),
        ) && edges[lookup[k_mer] as int].carriers@.len() > 0,
        !lookup.contains_key(k_mer) ==> carriers(transcripts, k, edge_of(k_mer)) == Set::<
            int,
        >::empty(),
{
    let edge = edge_of(k_mer);
    assert forall|t: int|
        seen(transcripts, k, Seq::empty(), 0, t, k_mer) <==> carriers(transcripts, k, edge).contains(
            t,
        ) by {
        if 0 <= t < transcripts.len() {
            lemma_edge_of_k_mer(transcripts[t].sequence, k, k_mer);
        }
    }
    if lookup.contains_key(k_mer) {
        let at = lookup[k_mer] as int;
        let held = edges[at].carriers@;
        assert forall|t: int| members(held).contains(t) <==> carriers(transcripts, k, edge).contains(
            t,
        ) by {}
        let t = choose|t: int| seen(transcripts, k, Seq::empty(), 0, t, k_mer);
        assert(members(held).contains(t));
    } else {
        assert forall|t: int| !carriers(transcripts, k, edge).contains(t) by {}
    }
}

impl View for DeBruijnGraph {
    type V = IndexModel;

    closed spec fn view(&self) -> IndexModel {
        IndexModel { k: self.k as nat, transcripts: self.model@ }
    }
}

impl DeBruijnGraph {
    /// Whether the names and lengths on record are those of `done`.
    spec fn roster_inv(&self, done: Seq<Record>) -> bool {
        &&& self.k >= 2
        &&& self.model@ == done
        &&& self.names.len() == done.len()
        &&& self.effective_lengths.len() == done.len()
        &&& forall|t: int| 0 <= t < done.len() ==> (#[trigger] self.names[t])@ == done[t].header
        &&& forall|t: int|
            0 <= t < done.len() ==> (#[trigger] self.effective_lengths[t]) == k_mer_count(
                done[t].sequence.len(),
                self.k as nat,
            )
    }

    /// The invariant of the index: its tables hold exactly the transcripts
    /// that it stands for.
    pub closed spec fn wf(&self) -> bool {
        &&& self.roster_inv(self.model@)
        &&& self.adjacency.wf()
        &&& self.adjacency@ == all_edges(self.model@, self.k as nat)
        &&& table_inv(
            self.edge_lookup@,
            self.edges@,
            self.model@,
            self.k as nat,
            Seq::empty(),
            0,
        )
    }

    /// An index without transcripts, for windows of length `k`.
    pub fn new(k: usize) -> (graph: DeBruijnGraph)
        requires
            k >= 2,
        ensures
            graph.wf(),
            graph@.k == k,
            graph@.transcripts == Seq::<Record>::empty(),
    {
        DeBruijnGraph {
            k,
            names: Vec::new(),
            effective_lengths: Vec::new(),
            edges: Vec::new(),
            edge_lookup: StringHashMap::new(),
            adjacency: Adjacency::new(),
            model: Ghost(Seq::empty()),
        }
    }

    /// The window length of the index.
    pub fn k(&self) -> (k: usize)
        requires
            self.wf(),
        ensures
            k == self@.k,
            k >= 2,
    {
        self.k
    }

    /// The number of transcripts in the index.
    pub fn transcript_count(&self) -> (count: usize)
        requires
            self.wf(),
        ensures
            count == self@.transcripts.len(),
    {
        self.names.len()
    }

    /// The identifier of the transcript at position `t`.
    pub fn transcript_name(&self, t: usize) -> (name: &String)
        requires
            self.wf(),
            t < self@.transcripts.len(),
        ensures
            name@ == self@.transcripts[t as int].header,
    {
        &self.names[t]
    }

    /// The effective length of the transcript at position `t`: the number of
    /// its windows, which is 0 where the transcript is shorter than a window.
    pub fn effective_length_of(&self, t: usize) -> (length: usize)
        requires
            self.wf(),
            t < self@.transcripts.len(),
        ensures
            length == k_mer_count(self@.transcripts[t as int].sequence.len(), self@.k),
    {
        self.effective_lengths[t]
    }

    /// The adjacency between the halves of the windows: one edge from
    /// prefix to suffix for every window of every transcript.
    pub fn adj_list(&self) -> (adjacency: &Adjacency)
        requires
            self.wf(),
        ensures
            adjacency.wf(),
            adjacency@ == all_edges(self@.transcripts, self@.k),
    {
        &self.adjacency
    }

    /// The identifiers of the transcripts that carry the edge from `prefix`
    /// to `suffix`, in the order in which the transcripts were entered; `None`
    /// where no transcript carries it.
    pub fn edge_transcripts(&self, prefix: &str, suffix: &str) -> (found: Option<Vec<String>>)
        requires
            self.wf(),
        ensures
            found is Some <==> edge_index_of(self@.transcripts, self@.k).contains_key(
                (prefix@, suffix@),
            ),
            found is Some ==> texts(found->0@) == names_at(
                self@.transcripts,
                positions_of(
                    carriers(self@.transcripts, self@.k, (prefix@, suffix@)),
                    self@.transcripts.len(),
                ),
            ),
            found is Some ==> texts(found->0@).to_set() == edge_index_of(
                self@.transcripts,
                self@.k,
            )[(prefix@, suffix@)],
    {
        let ghost transcripts = self.model@;
        let ghost k = self.k as nat;
        let ghost edge = (prefix@, suffix@);
        proof {
            lemma_index_keys(transcripts, k);
        }
        let half: usize = self.k - 1;
        if prefix.unicode_len() != half || suffix.unicode_len() != half {
            return None;
        }
        let prefix_tail: String = prefix.substring_char(1, half).to_string();
        let suffix_head: String = suffix.substring_char(0, half - 1).to_string();
        if !(prefix_tail == suffix_head) {
            proof {
                if edge_index_of(transcripts, k).contains_key(edge) {
                    let t = choose|t: int|
                        0 <= t < transcripts.len() && has_edge(
                            (#[trigger] transcripts[t]).sequence,
                            k,
                            edge,
                        );
                    let start = choose|start: int|
                        0 <= start < k_mer_count(transcripts[t].sequence.len(), k) && edge_of(
                            #[trigger] k_mer_at(transcripts[t].sequence, k, start),
                        ) == edge;
                    let k_mer = k_mer_at(transcripts[t].sequence, k, start);
                    assert(k_mer.drop_last().subrange(1, half as int) =~= k_mer.drop_first().subrange(
                        0,
                        half - 1,
                    ));
                }
            }
            return None;
        }
        let mut k_mer: String = prefix.to_string();
        k_mer.append(suffix.substring_char(half - 1, half));
        proof {
            assert(k_mer@.drop_last() =~= prefix@);
            assert forall|i: int| 0 <= i < half implies k_mer@.drop_first()[i] == suffix@[i] by {
                if i < half - 1 {
                    assert(prefix_tail@[i] == suffix_head@[i]);
                }
            }
            assert(k_mer@.drop_first() =~= suffix@);
            lemma_table_carriers(self.edge_lookup@, self.edges@, transcripts, k, k_mer@);
        }
        match self.edge_lookup.get(k_mer.as_str()) {
            None => {
                proof {
                    if edge_index_of(transcripts, k).contains_key(edge) {
                        let t = choose|t: int|
                            0 <= t < transcripts.len() && has_edge(
                                (#[trigger] transcripts[t]).sequence,
                                k,
                                edge,
                            );
                        assert(carriers(transcripts, k, edge).contains(t));
                    }
                }
                None
            },
            Some(at) => {
                let held: &Vec<usize> = &self.edges[*at].carriers;
                proof {
                    assert forall|i: int| 0 <= i < held.len() implies held[i] < transcripts.len() by {
                        assert(members(held@).contains(held[i] as int));
                    }
                    assert forall|t: int| #[trigger]
                        members(held@).contains(t) <==> carriers(transcripts, k, edge).contains(t)
                            && 0 <= t < transcripts.len() by {}
                    lemma_positions_unique(
                        held@,
                        carriers(transcripts, k, edge),
                        transcripts.len(),
                    );
                }
                let names: Vec<String> = self.names_of(held);
                proof {
                    lemma_names_of_carriers(transcripts, k, edge, held@);
                }
                Some(names)
            },
        }
    }

    /// Enters one more transcript into the index.
    fn add_transcript(&mut self, record: &Fasta)
        requires
            old(self).wf(),
        ensures
            final(self).wf(),
            final(self)@.k == old(self)@.k,
            final(self)@.transcripts == old(self)@.transcripts.push(record@),
    {
        let here: usize = self.names.len();
        let k_mers: Vec<String> = create_k_mers(record.sequence.as_str(), self.k);
        let ghost done = self.model@;
        let ghost current = record.sequence@;
        let ghost k = self.k as nat;
        let mut upto: usize = 0;
        proof {
            assert forall|t: int, k_mer: Seq<char>|
                seen(done, k, Seq::empty(), 0, t, k_mer) <==> seen(done, k, current, 0, t, k_mer) by {}
            lemma_table_same(
                self.edge_lookup@,
                self.edges@,
                done,
                k,
                Seq::empty(),
                0,
                done,
                current,
                0,
            );
        }
        while upto < k_mers.len()
            invariant
                upto <= k_mers.len(),
                k_mers.len() == k_mer_count(current.len(), k),
                texts(k_mers@) == k_mers_of(current, k),
                k == self.k,
                self.k == old(self).k,
                self.roster_inv(done),
                here == done.len(),
                table_inv(self.edge_lookup@, self.edges@, done, k, current, upto as int),
                self.adjacency.wf(),
                self.adjacency@ == all_edges(done, k) + edges_of(current, k).take(upto as int),
            decreases k_mers.len() - upto,
        {
            let k_mer: &String = &k_mers[upto];
            assert(k_mer@ == texts(k_mers@)[upto as int]);
            let edge: (String, String) = split_k_mer(k_mer.as_str());
            self.adjacency.link(edge.0.as_str(), edge.1.as_str());
            let ghost lookup = self.edge_lookup@;
            let ghost edges = self.edges@;
            let found: Option<usize> = match self.edge_lookup.get(k_mer.as_str()) {
                Some(at) => Some(*at),
                None => None,
            };
            match found {
                None => {
                    let mut first: Vec<usize> = Vec::new();
                    first.push(here);
                    let entry = EdgeEntry { k_mer: k_mer.clone(), carriers: first };
                    let at: usize = self.edges.len();
                    proof {
                        lemma_table_insert(lookup, edges, done, k, current, upto as int, entry);
                    }
                    self.edges.push(entry);
                    self.edge_lookup.insert(k_mer.clone(), at);
                },
                Some(at) => {
                    let held: usize = self.edges[at].carriers.len();
                    if held == 0 || self.edges[at].carriers[held - 1] != here {
                        self.edges[at].carriers.push(here);
                    }
                    proof {
                        lemma_table_revisit(lookup, edges, self.edges@, done, k, current, upto as int);
                    }
                },
            }
            upto = upto + 1;
        }
        self.names.push(record.header.clone());
        self.effective_lengths.push(k_mers.len());
        self.model = Ghost(done.push(record@));
        proof {
            let after = done.push(record@);
            assert(after.drop_last() =~= done);
            assert(edges_of(current, k).take(k_mers.len() as int) =~= edges_of(current, k));
            assert forall|t: int, k_mer: Seq<char>|
                seen(done, k, current, k_mers.len() as int, t, k_mer) <==> seen(
                    after,
                    k,
                    Seq::empty(),
                    0,
                    t,
                    k_mer,
                ) by {
                lemma_seen_finish(done, k, record@, t, k_mer);
            }
            lemma_table_same(
                self.edge_lookup@,
                self.edges@,
                done,
                k,
                current,
                k_mers.len() as int,
                after,
                Seq::empty(),
                0,
            );
        }
    }

    /// Enters the transcripts of `fasta_records`, in their order, after
    /// those that the index holds already.
    pub fn build_index_graph(&mut self, fasta_records: &Vec<Fasta>)
        requires
            old(self).wf(),
        ensures
            final(self).wf(),
            final(self)@.k == old(self)@.k,
            final(self)@.transcripts == old(self)@.transcripts + records_of(fasta_records@),
    {
        let mut entered: usize = 0;
        while entered < fasta_records.len()
            invariant
                entered <= fasta_records.len(),
                self.wf(),
                self@.k == old(self)@.k,
                self@.transcripts == old(self)@.transcripts + records_of(fasta_records@).take(
                    entered as int,
                ),
            decreases fasta_records.len() - entered,
        {
            self.add_transcript(&fasta_records[entered]);
            entered = entered + 1;
        }
    }

    /// Resolves a read against the index: the positions of the transcripts
    /// that carry every edge of the read, in increasing order, and the edges
    /// of the read that were walked. The walk ends with the first edge that
    /// leaves no candidate, be it unknown to the index or carried by none of
    /// the candidates left.
    pub fn resolve(&self, read_sequence: &str) -> (result: (Vec<usize>, Vec<(String, String)>))
        requires
            self.wf(),
        ensures
            ascending(result.0@),
            members(result.0@) == compatible(self@.transcripts, self@.k, read_sequence@),
            forall|i: int| 0 <= i < result.0.len() ==> result.0[i] < self@.transcripts.len(),
            result.0@ == positions_of(
                compatible(self@.transcripts, self@.k, read_sequence@),
                self@.transcripts.len(),
            ),
            edge_texts(result.1@) == edges_of(read_sequence@, self@.k).take(result.1.len() as int),
            walk_ends_at(
                self@.transcripts,
                self@.k,
                edges_of(read_sequence@, self@.k),
                result.1.len() as int,
            ),
    {
        let read_k_mers: Vec<String> = create_k_mers(read_sequence, self.k);
        let ghost k = self.k as nat;
        let ghost transcripts = self.model@;
        let ghost read_edges = edges_of(read_sequence@, k);
        let mut current: Vec<usize> = Vec::new();
        let mut walked_edges: Vec<(String, String)> = Vec::new();
        let mut stopped: bool = false;
        let mut n: usize = 0;
        while n < read_k_mers.len() && !stopped
            invariant
                self.wf(),
                k == self.k,
                transcripts == self.model@,
                read_edges == edges_of(read_sequence@, k),
                texts(read_k_mers@) == k_mers_of(read_sequence@, k),
                read_k_mers.len() == read_edges.len(),
                n <= read_k_mers.len(),
                walked_edges.len() == n,
                edge_texts(walked_edges@) == read_edges.take(n as int),
                ascending(current@),
                n == 0 ==> current.len() == 0 && !stopped,
                n >= 1 ==> members(current@) == candidates(transcripts, k, read_edges, n as int),
                stopped ==> current.len() == 0,
                !stopped && n >= 1 ==> current.len() > 0,
                forall|m: int|
                    1 <= m < n ==> !(#[trigger] candidates(transcripts, k, read_edges, m)).is_empty(),
            decreases read_k_mers.len() - n, if stopped { 0int } else { 1int },
        {
            let k_mer: &String = &read_k_mers[n];
            assert(k_mer@ == texts(read_k_mers@)[n as int]);
            let edge: (String, String) = split_k_mer(k_mer.as_str());
            walked_edges.push(edge);
            proof {
                lemma_table_carriers(self.edge_lookup@, self.edges@, transcripts, k, k_mer@);
                lemma_candidates_step(transcripts, k, read_edges, n as int);
                if n >= 1 {
                    assert(members(current@).contains(current@[0] as int));
                }
            }
            match self.edge_lookup.get(k_mer.as_str()) {
                None => {
                    current = Vec::new();
                    stopped = true;
                },
                Some(at) => {
                    let held: &Vec<usize> = &self.edges[*at].carriers;
                    if n == 0 {
                        current = held.clone();
                    } else {
                        current = intersect(&current, held);
                    }
                    if current.len() == 0 {
                        stopped = true;
                    }
                },
            }
            n = n + 1;
        }
        proof {
            let whole = read_edges.len() as int;
            if stopped {
                lemma_candidates_shrink(transcripts, k, read_edges, n as int, whole);
            }
            assert forall|t: int| #[trigger]
                members(current@).contains(t) <==> compatible(
                    transcripts,
                    k,
                    read_sequence@,
                ).contains(t) && 0 <= t < transcripts.len() by {}
            lemma_positions_unique(
                current@,
                compatible(transcripts, k, read_sequence@),
                transcripts.len(),
            );
            assert forall|i: int| 0 <= i < current.len() implies current[i] < transcripts.len() by {
                assert(members(current@).contains(current[i] as int));
            }
        }
        (current, walked_edges)
    }

    /// Resolves a read as [`DeBruijnGraph::resolve`] does, and gives the
    /// compatible transcripts by their identifiers, in the order in which the
    /// transcripts were entered.
    pub fn pseudoalign(&self, read_sequence: &str) -> (result: (Vec<String>, Vec<(String, String)>))
        requires
            self.wf(),
        ensures
            texts(result.0@) == names_at(
                self@.transcripts,
                positions_of(
                    compatible(self@.transcripts, self@.k, read_sequence@),
                    self@.transcripts.len(),
                ),
            ),
            edge_texts(result.1@) == edges_of(read_sequence@, self@.k).take(result.1.len() as int),
            walk_ends_at(
                self@.transcripts,
                self@.k,
                edges_of(read_sequence@, self@.k),
                result.1.len() as int,
            ),
            forall|i: int|
                0 <= i < result.1.len() ==> (#[trigger] result.1[i]).0@.len() == self@.k - 1
                    && result.1[i].1@.len() == self@.k - 1,
    {
        let (positions, walked_edges) = self.resolve(read_sequence);
        let names: Vec<String> = self.names_of(&positions);
        proof {
            let read_edges = edges_of(read_sequence@, self@.k);
            lemma_edge_halves(read_sequence@, self@.k);
            assert forall|i: int| 0 <= i < walked_edges.len() implies (
            #[trigger] walked_edges[i]).0@.len() == self@.k - 1 && walked_edges[i].1@.len()
                == self@.k - 1 by {
                assert(edge_texts(walked_edges@)[i] == read_edges[i]);
            }
        }
        (names, walked_edges)
    }

    /// The identifiers of the transcripts at `positions`.
    pub fn names_of(&self, positions: &Vec<usize>) -> (names: Vec<String>)
        requires
            self.wf(),
            forall|i: int| 0 <= i < positions.len() ==> positions[i] < self@.transcripts.len(),
        ensures
            texts(names@) == names_at(self@.transcripts, positions@),
    {
        let mut names: Vec<String> = Vec::new();
        let mut i: usize = 0;
        while i < positions.len()
            invariant
                self.wf(),
                i <= positions.len(),
                forall|i: int| 0 <= i < positions.len() ==> positions[i] < self@.transcripts.len(),
                names.len() == i,
                forall|j: int|
                    0 <= j < i ==> (#[trigger] names[j])@
                        == self@.transcripts[positions[j] as int].header,
            decreases positions.len() - i,
        {
            names.push(self.names[positions[i]].clone());
            i = i + 1;
        }
        names
    }
}

} // verus!
