use vstd::prelude::*;
use vstd::arithmetic::power::{pow, lemma_pow0, lemma_pow1, lemma_pow_adds};

use crate::grid::{flat_of, stage_of, StochasticGrid};
use crate::shape::TreeShape;
use crate::types::Node;

verus! {

broadcast use
    vstd::arithmetic::mul::lemma_mul_is_commutative,
    vstd::arithmetic::mul::group_mul_basics,
;

/// The leaf-descendant count of a node at stage `g`: with uniform leaves
/// it is the node's unnormalized probability weight.
pub open spec fn leaf_weight(shape: TreeShape, g: int) -> int {
    pow(shape.b(), (shape.d() - g) as nat)
}

/// Law: a leaf carries weight one, a root carries one unit per leaf, and
/// every interior node's weight is the sum of its children's: `B` children
/// each one stage deeper.
pub proof fn lemma_leaf_weight_recursion(shape: TreeShape, g: int)
    requires
        shape.wf(),
        0 <= g <= shape.d(),
    ensures
        leaf_weight(shape, shape.d()) == 1,
        leaf_weight(shape, 0) == shape.width(shape.d()),
        g < shape.d() ==> leaf_weight(shape, g) == shape.b() * leaf_weight(shape, g + 1),
{
    lemma_pow0(shape.b());
    if g < shape.d() {
        lemma_pow_adds(shape.b(), 1, (shape.d() - g - 1) as nat);
        lemma_pow1(shape.b());
    }
}

impl StochasticGrid {
    /// The per-node probability weights: for each surviving node in keep
    /// order, its recorded master paired with the count of leaves below the
    /// kept node.
    #[verifier::loop_isolation(false)]
    pub fn leaf_nodes(&self) -> (r: Vec<(Node, usize)>)
        requires
            self.wf(),
        ensures
            r@.len() == self.keep_keys@.len(),
            forall|k: int|
                0 <= k < r@.len() ==> #[trigger] r@[k] == ({
                    let n = self.keep_keys@[k];
                    (
                        self.master_or_default(n.s as int, n.t as int),
                        (leaf_weight(self.shape, self.shape.stage_at(n.t as int)) as usize),
                    )
                }),
    {
        let mut out: Vec<(Node, usize)> = Vec::new();
        let mut k: usize = 0;
        while k < self.keep_keys.len()
            invariant
                0 <= k <= self.keep_keys@.len(),
                out@.len() == k,
                forall|j: int|
                    0 <= j < k ==> #[trigger] out@[j] == ({
                        let n = self.keep_keys@[j];
                        (
                            self.master_or_default(n.s as int, n.t as int),
                            (leaf_weight(self.shape, self.shape.stage_at(n.t as int)) as usize),
                        )
                    }),
            decreases self.keep_keys@.len() - k,
        {
            let n = self.keep_keys[k];
            let stage = stage_of(&self.shape, n.t);
            proof {
                self.shape.lemma_width_monotonic(
                    self.shape.d() - stage as int,
                    self.shape.d() + 1,
                );
            }
            let weight = self.shape.pow_exec(self.shape.n_stages - stage);
            let idx = flat_of(&self.shape, n.s, n.t);
            let m: Node = match self.cluster_grid[idx] {
                Some(m) => m,
                None => {
                    proof {
                        assert(false);
                    }
                    Node { s: 0, t: 0, d: 1 }
                },
            };
            out.push((m, weight));
            k = k + 1;
        }
        out
    }
}

} // verus!
