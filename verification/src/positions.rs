//! Sets of positions, kept as strictly increasing vectors.

use vstd::prelude::*;

verus! {

/// Whether the numbers in `positions` strictly increase.
pub open spec fn ascending(positions: Seq<usize>) -> bool {
    forall|a: int, b: int| 0 <= a < b < positions.len() ==> positions[a] < positions[b]
}

/// The numbers that occur in `positions`.
pub open spec fn members(positions: Seq<usize>) -> Set<int> {
    Set::new(|t: int| exists|i: int| 0 <= i < positions.len() && #[trigger] positions[i] == t)
}

/// The members of `set` below `bound`, in increasing order.
pub open spec fn positions_of(set: Set<int>, bound: nat) -> Seq<usize>
    decreases bound,
{
    if bound == 0 {
        Seq::empty()
    } else {
        let below = positions_of(set, (bound - 1) as nat);
        if set.contains(bound - 1) {
            below.push((bound - 1) as usize)
        } else {
            below
        }
    }
}

/// A strictly increasing sequence is determined by the numbers in it.
pub proof fn lemma_positions_unique(positions: Seq<usize>, set: Set<int>, bound: nat)
    requires
        ascending(positions),
        forall|t: int| #[trigger]
            members(positions).contains(t) <==> set.contains(t) && 0 <= t < bound,
    ensures
        positions == positions_of(set, bound),
    decreases bound,
{
    if bound == 0 {
        if positions.len() > 0 {
            assert(members(positions).contains(positions[0] as int));
        }
    } else {
        let top = bound - 1;
        assert forall|i: int| 0 <= i < positions.len() implies positions[i] <= top by {
            assert(members(positions).contains(positions[i] as int));
        }
        if set.contains(top) {
            assert(members(positions).contains(top));
            let i = choose|i: int| 0 <= i < positions.len() && #[trigger] positions[i] == top;
            if i < positions.len() - 1 {
                assert(positions[i] < positions[positions.len() - 1]);
            }
            let rest = positions.drop_last();
            assert forall|t: int| #[trigger]
                members(rest).contains(t) <==> set.contains(t) && 0 <= t < top by {
                if members(rest).contains(t) {
                    assert(members(positions).contains(t));
                }
                if set.contains(t) && 0 <= t < top {
                    assert(members(positions).contains(t));
                    let j = choose|j: int| 0 <= j < positions.len() && #[trigger] positions[j] == t;
                    assert(rest[j] == t);
                }
            }
            lemma_positions_unique(rest, set, top as nat);
        } else {
            assert forall|t: int| #[trigger]
                members(positions).contains(t) <==> set.contains(t) && 0 <= t < top by {}
            lemma_positions_unique(positions, set, top as nat);
        }
    }
}

/// The numbers that occur in both of two strictly increasing vectors, in
/// increasing order.
pub fn intersect(a: &Vec<usize>, b: &Vec<usize>) -> (both: Vec<usize>)
    requires
        ascending(a@),
        ascending(b@),
    ensures
        ascending(both@),
        members(both@) == members(a@).intersect(members(b@)),
        both.len() <= a.len(),
        both.len() <= b.len(),
{
    let mut both: Vec<usize> = Vec::new();
    let mut i: usize = 0;
    let mut j: usize = 0;
    while i < a.len() && j < b.len()
        invariant
            ascending(a@),
            ascending(b@),
            i <= a.len(),
            j <= b.len(),
            both.len() <= i,
            both.len() <= j,
            ascending(both@),
            forall|x: int, y: int| 0 <= x < i && j <= y < b.len() ==> a[x] < b[y],
            forall|x: int, y: int| i <= x < a.len() && 0 <= y < j ==> b[y] < a[x],
            forall|q: int| 0 <= q < both.len() && i < a.len() ==> #[trigger] both[q] < a[i as int],
            forall|t: int|
                members(both@).contains(t) <==> exists|x: int, y: int|
                    0 <= x < i && 0 <= y < j && #[trigger] a[x] == t && #[trigger] b[y] == t,
        decreases a.len() - i + b.len() - j,
    {
        let ghost before = both@;
        if a[i] < b[j] {
            assert forall|x: int, y: int| 0 <= x < i + 1 && j <= y < b.len() implies a[x] < b[y] by {}
            assert forall|q: int| 0 <= q < both.len() && i + 1 < a.len() implies #[trigger] both[q]
                < a[i + 1] by {}
            assert forall|t: int|
                members(both@).contains(t) <==> exists|x: int, y: int|
                    0 <= x < i + 1 && 0 <= y < j && #[trigger] a[x] == t && #[trigger] b[y] == t by {
                if exists|x: int, y: int|
                    0 <= x < i + 1 && 0 <= y < j && #[trigger] a[x] == t && #[trigger] b[y] == t {
                    let (x, y) = choose|x: int, y: int|
                        0 <= x < i + 1 && 0 <= y < j && #[trigger] a[x] == t && #[trigger] b[y] == t;
                }
            }
            i = i + 1;
        } else if b[j] < a[i] {
            assert forall|x: int, y: int| i <= x < a.len() && 0 <= y < j + 1 implies b[y] < a[x] by {}
            assert forall|t: int|
                members(both@).contains(t) <==> exists|x: int, y: int|
                    0 <= x < i && 0 <= y < j + 1 && #[trigger] a[x] == t && #[trigger] b[y] == t by {
                if exists|x: int, y: int|
                    0 <= x < i && 0 <= y < j + 1 && #[trigger] a[x] == t && #[trigger] b[y] == t {
                    let (x, y) = choose|x: int, y: int|
                        0 <= x < i && 0 <= y < j + 1 && #[trigger] a[x] == t && #[trigger] b[y] == t;
                }
            }
            j = j + 1;
        } else {
            both.push(a[i]);
            proof {
                assert forall|x: int, y: int| 0 <= x < i + 1 && j + 1 <= y < b.len() implies a[x]
                    < b[y] by {}
                assert forall|x: int, y: int| i + 1 <= x < a.len() && 0 <= y < j + 1 implies b[y]
                    < a[x] by {}
                assert forall|p: int, q: int| 0 <= p < q < both@.len() implies both@[p]
                    < both@[q] by {}
                assert forall|q: int| 0 <= q < both.len() && i + 1 < a.len() implies #[trigger] both[q]
                    < a[i + 1] by {}
                assert forall|t: int|
                    members(both@).contains(t) <==> exists|x: int, y: int|
                        0 <= x < i + 1 && 0 <= y < j + 1 && #[trigger] a[x] == t && #[trigger] b[y]
                            == t by {
                    if members(both@).contains(t) {
                        let q = choose|q: int| 0 <= q < both@.len() && #[trigger] both@[q] == t;
                        if q < before.len() {
                            assert(members(before).contains(t));
                        }
                    }
                    if exists|x: int, y: int|
                        0 <= x < i + 1 && 0 <= y < j + 1 && #[trigger] a[x] == t && #[trigger] b[y]
                            == t {
                        let (x, y) = choose|x: int, y: int|
                            0 <= x < i + 1 && 0 <= y < j + 1 && #[trigger] a[x] == t
                                && #[trigger] b[y] == t;
                        if x == i {
                            assert(both@[before.len() as int] == t);
                        } else {
                            assert(members(before).contains(t));
                            let q = choose|q: int| 0 <= q < before.len() && #[trigger] before[q] == t;
                            assert(both@[q] == t);
                        }
                    }
                }
            }
            i = i + 1;
            j = j + 1;
        }
    }
    proof {
        assert forall|t: int|
            members(both@).contains(t) <==> members(a@).contains(t) && members(b@).contains(t) by {}
    }
    both
}

/// Whether two lists hold the same numbers in the same order.
pub fn same_list(a: &Vec<usize>, b: &Vec<usize>) -> (same: bool)
    ensures
        same == (a@ == b@),
{
    if a.len() != b.len() {
        return false;
    }
    let mut i: usize = 0;
    while i < a.len()
        invariant
            a.len() == b.len(),
            i <= a.len(),
            forall|j: int| 0 <= j < i ==> a[j] == b[j],
        decreases a.len() - i,
    {
        if a[i] != b[i] {
            return false;
        }
        i = i + 1;
    }
    assert(a@ =~= b@);
    true
}

} // verus!
