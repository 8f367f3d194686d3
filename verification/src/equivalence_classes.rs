//! Equivalence classes: reads grouped by the transcripts that they are
//! compatible with, each group with the number of its reads.

use crate::compatibility::{compatible, lemma_compatible_has_windows};
use crate::de_bruijn_graph::DeBruijnGraph;
use crate::file_parser_utils::Fastq;
use crate::k_mer_utils::k_mer_count;
use crate::positions::{positions_of, same_list};
use vstd::multiset::{lemma_insert_increases_count_by_1, lemma_insert_other_elements_unchanged};
use vstd::prelude::*;
use vstd::seq_lib::{to_multiset_build, to_multiset_contains};

verus! {

/// The reads that share one compatibility list: the list, which holds
/// positions of transcripts in increasing order, and the number of reads.
#[derive(Debug)]
pub struct EquivalenceClass {
    pub transcripts: Vec<usize>,
    pub count: usize,
}

/// What resolving a set of reads gives: the classes, and beside the reads the
/// compatibility list of each.
#[derive(Debug)]
pub struct ReadClasses {
    pub classes: Vec<EquivalenceClass>,
    pub compatibility: Vec<Vec<usize>>,
}

/// What a vector of lists holds.
pub open spec fn lists(keys: Seq<Vec<usize>>) -> Seq<Seq<usize>> {
    Seq::new(keys.len(), |i: int| keys[i]@)
}

/// Whether `key` occurs in `keys` at `at` and nowhere before.
pub open spec fn first_at(keys: Seq<Seq<usize>>, key: Seq<usize>, at: int) -> bool {
    &&& 0 <= at < keys.len()
    &&& keys[at] == key
    &&& forall|earlier: int| 0 <= earlier < at ==> keys[earlier] != key
}

/// Whether `key` heads one of the classes.
pub open spec fn has_class(classes: Seq<EquivalenceClass>, key: Seq<usize>) -> bool {
    exists|c: int| 0 <= c < classes.len() && (#[trigger] classes[c]).transcripts@ == key
}

/// The sum of the counts of all classes.
pub open spec fn total_count(classes: Seq<EquivalenceClass>) -> nat
    decreases classes.len(),
{
    if classes.len() == 0 {
        0
    } else {
        total_count(classes.drop_last()) + classes.last().count as nat
    }
}

/// Whether `classes` groups `keys`: no list heads two classes, each list of
/// `keys` heads one, the count of a class is the number of times that its
/// list occurs, and the classes stand in the order in which their lists
/// first occur.
pub open spec fn is_tally_of(classes: Seq<EquivalenceClass>, keys: Seq<Seq<usize>>) -> bool {
    &&& forall|a: int, b: int|
        0 <= a < b < classes.len() ==> classes[a].transcripts@ != classes[b].transcripts@
    &&& forall|c: int|
        0 <= c < classes.len() ==> (#[trigger] classes[c]).count >= 1 && classes[c].count
            == keys.to_multiset().count(classes[c].transcripts@)
    &&& forall|r: int|
        0 <= r < keys.len() ==> has_class(classes, #[trigger] keys[r])
    &&& forall|a: int, b: int, i: int, j: int|
        0 <= a < b < classes.len() && #[trigger] first_at(keys, classes[a].transcripts@, i)
            && #[trigger] first_at(keys, classes[b].transcripts@, j) ==> i < j
}

/// What holds of the classes while the keys come in: `firsts` gives for each
/// class where its list occurs first.
spec fn tally_inv(classes: Seq<EquivalenceClass>, keys: Seq<Seq<usize>>, firsts: Seq<int>) -> bool {
    &&& firsts.len() == classes.len()
    &&& forall|c: int|
        0 <= c < classes.len() ==> first_at(keys, (#[trigger] classes[c]).transcripts@, firsts[c])
    &&& forall|a: int, b: int| 0 <= a < b < firsts.len() ==> firsts[a] < firsts[b]
    &&& forall|c: int|
        0 <= c < classes.len() ==> (#[trigger] classes[c]).count == keys.to_multiset().count(
            classes[c].transcripts@,
        )
    &&& forall|r: int|
        0 <= r < keys.len() ==> has_class(classes, #[trigger] keys[r])
}

/// How often a list occurs once one more list has come in.
proof fn lemma_count_after_push(keys: Seq<Seq<usize>>, key: Seq<usize>, other: Seq<usize>)
    ensures
        keys.push(key).to_multiset().count(other) == keys.to_multiset().count(other) + (if other
            == key {
            1nat
        } else {
            0nat
        }),
        keys.contains(other) <==> keys.to_multiset().count(other) > 0,
{
    to_multiset_build(keys, key);
    to_multiset_contains(keys, other);
    if other == key {
        lemma_insert_increases_count_by_1(keys.to_multiset(), key);
    } else {
        lemma_insert_other_elements_unchanged(keys.to_multiset(), key, other);
    }
}

proof fn lemma_tally_done(classes: Seq<EquivalenceClass>, keys: Seq<Seq<usize>>, firsts: Seq<int>)
    requires
        tally_inv(classes, keys, firsts),
    ensures
        is_tally_of(classes, keys),
{
    assert forall|a: int, b: int| 0 <= a < b < classes.len() implies classes[a].transcripts@
        != classes[b].transcripts@ by {}
    assert forall|c: int| 0 <= c < classes.len() implies (#[trigger] classes[c]).count >= 1
        && classes[c].count == keys.to_multiset().count(classes[c].transcripts@) by {
        to_multiset_contains(keys, classes[c].transcripts@);
    }
    assert forall|a: int, b: int, i: int, j: int|
        0 <= a < b < classes.len() && #[trigger] first_at(keys, classes[a].transcripts@, i)
            && #[trigger] first_at(keys, classes[b].transcripts@, j) implies i < j by {}
}

proof fn lemma_tally_known(
    classes: Seq<EquivalenceClass>,
    after: Seq<EquivalenceClass>,
    keys: Seq<Seq<usize>>,
    firsts: Seq<int>,
    key: Seq<usize>,
    at: int,
)
    requires
        tally_inv(classes, keys, firsts),
        0 <= at < classes.len(),
        classes[at].transcripts@ == key,
        after.len() == classes.len(),
        forall|c: int| 0 <= c < classes.len() && c != at ==> after[c] == classes[c],
        after[at].transcripts@ == key,
        after[at].count == classes[at].count + 1,
    ensures
        tally_inv(after, keys.push(key), firsts),
        total_count(after) == total_count(classes) + 1,
{
    let more = keys.push(key);
    assert forall|c: int| 0 <= c < classes.len() implies (#[trigger] after[c]).transcripts@
        == classes[c].transcripts@ by {}
    assert forall|c: int| 0 <= c < after.len() implies first_at(
        more,
        (#[trigger] after[c]).transcripts@,
        firsts[c],
    ) by {}
    assert forall|c: int| 0 <= c < after.len() implies (#[trigger] after[c]).count
        == more.to_multiset().count(after[c].transcripts@) by {
        lemma_count_after_push(keys, key, classes[c].transcripts@);
    }
    assert forall|r: int| 0 <= r < more.len() implies has_class(after, #[trigger] more[r]) by {}
    lemma_total_after_one_more(classes, after, at);
}

proof fn lemma_total_after_one_more(
    classes: Seq<EquivalenceClass>,
    after: Seq<EquivalenceClass>,
    at: int,
)
    requires
        0 <= at < classes.len(),
        after.len() == classes.len(),
        forall|c: int| 0 <= c < classes.len() && c != at ==> after[c] == classes[c],
        after[at].count == classes[at].count + 1,
    ensures
        total_count(after) == total_count(classes) + 1,
    decreases classes.len(),
{
    if at == classes.len() - 1 {
        assert(after.drop_last() =~= classes.drop_last());
    } else {
        lemma_total_after_one_more(classes.drop_last(), after.drop_last(), at);
    }
}

/// No class counts more than all classes together.
proof fn lemma_count_within_total(classes: Seq<EquivalenceClass>, at: int)
    requires
        0 <= at < classes.len(),
    ensures
        classes[at].count <= total_count(classes),
    decreases classes.len(),
{
    if at < classes.len() - 1 {
        lemma_count_within_total(classes.drop_last(), at);
    }
}

proof fn lemma_tally_new(
    classes: Seq<EquivalenceClass>,
    keys: Seq<Seq<usize>>,
    firsts: Seq<int>,
    class: EquivalenceClass,
)
    requires
        tally_inv(classes, keys, firsts),
        class.count == 1,
        forall|c: int| 0 <= c < classes.len() ==> (#[trigger] classes[c]).transcripts@
            != class.transcripts@,
    ensures
        tally_inv(classes.push(class), keys.push(class.transcripts@), firsts.push(keys.len() as int)),
        total_count(classes.push(class)) == total_count(classes) + 1,
{
    let key = class.transcripts@;
    let more = keys.push(key);
    let after = classes.push(class);
    let firsts2 = firsts.push(keys.len() as int);
    assert forall|r: int| 0 <= r < keys.len() implies keys[r] != key by {}
    lemma_count_after_push(keys, key, key);
    assert forall|c: int| 0 <= c < after.len() implies first_at(
        more,
        (#[trigger] after[c]).transcripts@,
        firsts2[c],
    ) by {}
    assert forall|a: int, b: int| 0 <= a < b < firsts2.len() implies firsts2[a] < firsts2[b] by {
        if b == firsts.len() {
            assert(first_at(keys, classes[a].transcripts@, firsts[a]));
        }
    }
    assert forall|c: int| 0 <= c < after.len() implies (#[trigger] after[c]).count
        == more.to_multiset().count(after[c].transcripts@) by {
        if c < classes.len() {
            lemma_count_after_push(keys, key, classes[c].transcripts@);
        }
    }
    assert forall|r: int| 0 <= r < more.len() implies has_class(after, #[trigger] more[r]) by {
        if r < keys.len() {
            let c = choose|c: int|
                0 <= c < classes.len() && (#[trigger] classes[c]).transcripts@ == keys[r];
            assert(after[c].transcripts@ == more[r]);
        } else {
            assert(after[classes.len() as int].transcripts@ == more[r]);
        }
    }
    assert(after.drop_last() =~= classes);
}

/// The place of the class that `key` heads, if there is one.
pub fn find_class(classes: &Vec<EquivalenceClass>, key: &Vec<usize>) -> (found: Option<usize>)
    ensures
        match found {
            Some(at) => at < classes.len() && classes[at as int].transcripts@ == key@ && forall|
                c: int,
            |
                0 <= c < at ==> (#[trigger] classes[c]).transcripts@ != key@,
            None => forall|c: int|
                0 <= c < classes.len() ==> (#[trigger] classes[c]).transcripts@ != key@,
        },
{
    let mut at: usize = 0;
    while at < classes.len()
        invariant
            at <= classes.len(),
            forall|c: int| 0 <= c < at ==> (#[trigger] classes[c]).transcripts@ != key@,
        decreases classes.len() - at,
    {
        if same_list(&classes[at].transcripts, key) {
            return Some(at);
        }
        at = at + 1;
    }
    None
}

/// Groups compatibility lists into classes and counts each: one class for
/// each distinct list, in the order in which the lists first occur.
pub fn group(keys: &Vec<Vec<usize>>) -> (classes: Vec<EquivalenceClass>)
    ensures
        is_tally_of(classes@, lists(keys@)),
        total_count(classes@) == keys.len(),
{
    let mut classes: Vec<EquivalenceClass> = Vec::new();
    let ghost mut firsts: Seq<int> = Seq::empty();
    let mut r: usize = 0;
    while r < keys.len()
        invariant
            r <= keys.len(),
            tally_inv(classes@, lists(keys@).take(r as int), firsts),
            total_count(classes@) == r,
        decreases keys.len() - r,
    {
        let key: &Vec<usize> = &keys[r];
        let ghost before = classes@;
        let ghost so_far = lists(keys@).take(r as int);
        proof {
            assert(lists(keys@).take(r + 1) =~= so_far.push(key@));
        }
        match find_class(&classes, key) {
            Some(at) => {
                proof {
                    lemma_count_within_total(before, at as int);
                }
                classes[at].count = classes[at].count + 1;
                proof {
                    lemma_tally_known(before, classes@, so_far, firsts, key@, at as int);
                }
            },
            None => {
                let class = EquivalenceClass { transcripts: key.clone(), count: 1 };
                proof {
                    lemma_tally_new(before, so_far, firsts, class);
                    firsts = firsts.push(r as int);
                }
                classes.push(class);
            },
        }
        r = r + 1;
    }
    proof {
        assert(lists(keys@).take(r as int) =~= lists(keys@));
        lemma_tally_done(classes@, lists(keys@), firsts);
    }
    classes
}

impl DeBruijnGraph {
    /// Resolves every read against the index and groups the reads by what
    /// they are compatible with. A read that is compatible with no transcript
    /// falls into the class of the empty list. Every transcript that a class
    /// names has at least one window, so its effective length is not zero.
    pub fn equivalence_classes(&self, reads: &Vec<Fastq>) -> (result: ReadClasses)
        requires
            self.wf(),
        ensures
            result.compatibility.len() == reads.len(),
            forall|r: int|
                0 <= r < reads.len() ==> (#[trigger] result.compatibility[r])@ == positions_of(
                    compatible(self@.transcripts, self@.k, reads[r].sequence@),
                    self@.transcripts.len(),
                ),
            is_tally_of(result.classes@, lists(result.compatibility@)),
            total_count(result.classes@) == reads.len(),
            forall|c: int, i: int|
                0 <= c < result.classes.len() && 0 <= i < result.classes[c].transcripts.len() ==> (
                #[trigger] result.classes[c].transcripts[i]) < self@.transcripts.len()
                    && k_mer_count(
                    self@.transcripts[result.classes[c].transcripts[i] as int].sequence.len(),
                    self@.k,
                ) >= 1,
    {
        let ghost transcripts = self@.transcripts;
        let ghost k = self@.k;
        let mut compatibility: Vec<Vec<usize>> = Vec::new();
        let mut r: usize = 0;
        while r < reads.len()
            invariant
                self.wf(),
                transcripts == self@.transcripts,
                k == self@.k,
                r <= reads.len(),
                compatibility.len() == r,
                forall|q: int|
                    0 <= q < r ==> (#[trigger] compatibility[q])@ == positions_of(
                        compatible(transcripts, k, reads[q].sequence@),
                        transcripts.len(),
                    ),
                forall|q: int, i: int|
                    0 <= q < r && 0 <= i < compatibility[q].len() ==> (
                    #[trigger] compatibility[q][i]) < transcripts.len() && k_mer_count(
                        transcripts[compatibility[q][i] as int].sequence.len(),
                        k,
                    ) >= 1,
            decreases reads.len() - r,
        {
            let (positions, _walked) = self.resolve(reads[r].sequence.as_str());
            proof {
                assert forall|i: int| 0 <= i < positions.len() implies k_mer_count(
                    transcripts[(#[trigger] positions[i]) as int].sequence.len(),
                    k,
                ) >= 1 by {
                    lemma_compatible_has_windows(
                        transcripts,
                        k,
                        reads[r as int].sequence@,
                        positions[i] as int,
                    );
                }
            }
            compatibility.push(positions);
            r = r + 1;
        }
        let classes: Vec<EquivalenceClass> = group(&compatibility);
        proof {
            let keys = lists(compatibility@);
            assert forall|c: int, i: int|
                0 <= c < classes.len() && 0 <= i < classes[c].transcripts.len() implies (
            #[trigger] classes[c].transcripts[i]) < transcripts.len() && k_mer_count(
                transcripts[classes[c].transcripts[i] as int].sequence.len(),
                k,
            ) >= 1 by {
                let key = classes[c].transcripts@;
                to_multiset_contains(keys, key);
            }
        }
        ReadClasses { classes, compatibility }
    }
}

} // verus!
