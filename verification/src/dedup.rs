use vstd::prelude::*;

use crate::grid::StochasticGrid;
use crate::types::Node;

verus! {

broadcast use
    vstd::arithmetic::mul::lemma_mul_is_commutative,
    vstd::arithmetic::mul::group_mul_basics,
;

/// Order-preserving de-duplication of a node sequence: the subsequence of
/// first occurrences, in input order.
pub open spec fn dedup_seq(s: Seq<Node>) -> Seq<Node>
    decreases s.len(),
{
    if s.len() == 0 {
        Seq::<Node>::empty()
    } else {
        let front = dedup_seq(s.drop_last());
        if front.contains(s.last()) {
            front
        } else {
            front.push(s.last())
        }
    }
}

/// De-duplication keeps exactly the values of the input.
pub proof fn lemma_dedup_contains(s: Seq<Node>, x: Node)
    ensures
        dedup_seq(s).contains(x) <==> s.contains(x),
    decreases s.len(),
{
    if s.len() > 0 {
        lemma_dedup_contains(s.drop_last(), x);
        let front = dedup_seq(s.drop_last());
        if !front.contains(s.last()) {
            assert(front.push(s.last()).contains(x) <==> (front.contains(x) || s.last() == x))
                by {
                if front.contains(x) {
                    let i = choose|i: int| 0 <= i < front.len() && front[i] == x;
                    assert(front.push(s.last())[i] == x);
                }
                if s.last() == x {
                    assert(front.push(s.last())[front.len() as int] == x);
                }
                if front.push(s.last()).contains(x) {
                    let i = choose|i: int|
                        0 <= i < front.push(s.last()).len() && front.push(s.last())[i] == x;
                    if i < front.len() {
                        assert(front[i] == x);
                    }
                }
            };
        }
        assert(s.contains(x) <==> (s.drop_last().contains(x) || s.last() == x)) by {
            if s.contains(x) {
                let i = choose|i: int| 0 <= i < s.len() && s[i] == x;
                if i < s.len() - 1 {
                    assert(s.drop_last()[i] == x);
                }
            }
            if s.drop_last().contains(x) {
                let i = choose|i: int| 0 <= i < s.drop_last().len() && s.drop_last()[i] == x;
                assert(s[i] == x);
            }
            if s.last() == x {
                assert(s[s.len() - 1] == x);
            }
        };
    }
}

/// De-duplication leaves no duplicates behind.
pub proof fn lemma_dedup_distinct(s: Seq<Node>)
    ensures
        forall|i: int, j: int|
            0 <= i < j < dedup_seq(s).len() ==> dedup_seq(s)[i] != dedup_seq(s)[j],
    decreases s.len(),
{
    if s.len() > 0 {
        lemma_dedup_distinct(s.drop_last());
        let front = dedup_seq(s.drop_last());
        if !front.contains(s.last()) {
            assert forall|i: int, j: int|
                0 <= i < j < dedup_seq(s).len() implies dedup_seq(s)[i] != dedup_seq(s)[j] by {
                if j < front.len() {
                } else {
                    assert(dedup_seq(s)[j] == s.last());
                    assert(front[i] == dedup_seq(s)[i]);
                    assert(front.contains(front[i]));
                }
            };
        }
    }
}

/// A sequence without duplicates de-duplicates to itself.
pub proof fn lemma_dedup_of_distinct(s: Seq<Node>)
    requires
        forall|i: int, j: int| 0 <= i < j < s.len() ==> s[i] != s[j],
    ensures
        dedup_seq(s) == s,
    decreases s.len(),
{
    if s.len() > 0 {
        assert(forall|i: int, j: int|
            0 <= i < j < s.drop_last().len() ==> s.drop_last()[i] != s.drop_last()[j]);
        lemma_dedup_of_distinct(s.drop_last());
        let front = dedup_seq(s.drop_last());
        assert(!front.contains(s.last())) by {
            if front.contains(s.last()) {
                let i = choose|i: int| 0 <= i < front.len() && front[i] == s.last();
                assert(s[i] == s.last());
                assert(s[i] != s[s.len() - 1]);
            }
        };
        assert(s.drop_last().push(s.last()) =~= s);
    }
}

/// Law: de-duplication is idempotent.
pub proof fn lemma_dedup_idempotent(s: Seq<Node>)
    ensures
        dedup_seq(dedup_seq(s)) == dedup_seq(s),
{
    lemma_dedup_distinct(s);
    lemma_dedup_of_distinct(dedup_seq(s));
}

/// Whether a vector of nodes holds the given node.
fn vec_contains_node(v: &Vec<Node>, n: Node) -> (r: bool)
    ensures
        r == v@.contains(n),
{
    let mut i: usize = 0;
    while i < v.len()
        invariant
            0 <= i <= v@.len(),
            forall|k: int| 0 <= k < i ==> v@[k] != n,
        decreases v@.len() - i,
    {
        if v[i] == n {
            assert(v@[i as int] == n);
            return true;
        }
        i = i + 1;
    }
    false
}

/// Returns the subsequence of first occurrences of `grid`, preserving the
/// input order.
fn remove_duplicates_vec(grid: &Vec<Node>) -> (r: Vec<Node>)
    ensures
        r@ == dedup_seq(grid@),
{
    let mut seen: Vec<Node> = Vec::new();
    let mut i: usize = 0;
    proof {
        assert(grid@.subrange(0, 0) =~= Seq::<Node>::empty());
    }
    while i < grid.len()
        invariant
            0 <= i <= grid@.len(),
            seen@ == dedup_seq(grid@.subrange(0, i as int)),
        decreases grid@.len() - i,
    {
        let n = grid[i];
        proof {
            assert(grid@.subrange(0, i + 1).drop_last() =~= grid@.subrange(0, i as int));
            assert(grid@.subrange(0, i + 1).last() == grid@[i as int]);
        }
        if !vec_contains_node(&seen, n) {
            seen.push(n);
        }
        i = i + 1;
    }
    proof {
        assert(grid@.subrange(0, grid@.len() as int) =~= grid@);
    }
    seen
}

impl StochasticGrid {
    /// Order-preserving de-duplication of a node sequence: the subsequence
    /// of first occurrences, in input order.
    pub fn remove_duplicates(&self, grid: &Vec<Node>) -> (r: Vec<Node>)
        ensures
            r@ == dedup_seq(grid@),
    {
        remove_duplicates_vec(grid)
    }
}

} // verus!
