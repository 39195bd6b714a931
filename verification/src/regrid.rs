use vstd::prelude::*;
use vstd::arithmetic::power::pow;

use crate::grid::{stage_of, StochasticGrid};
use crate::shape::TreeShape;
use crate::types::{GridError, Node};

verus! {

broadcast use
    vstd::arithmetic::mul::lemma_mul_is_commutative,
    vstd::arithmetic::mul::group_mul_basics,
;

/// The coarse `(scenario, time)` pair that fine node `(s, t)` projects to
/// under a coarse bucket width `gd` and a delay.  Before the delay the
/// bucket is aligned to the raw time and the exported time is zero; from
/// the delay on, buckets are aligned to `t - delay` and the bucket start is
/// exported.  Scenarios are collapsed by the width ratio between the fine
/// stage and the bucket's stage.
pub open spec fn coarse_pair(shape: TreeShape, gd: int, delay: int, s: int, t: int) -> (int, int) {
    let grid_t = if t < delay {
        (t / gd) * gd
    } else {
        ((t - delay) / gd) * gd
    };
    let grid_stage = grid_t / shape.l();
    let stage = shape.stage_at(t);
    let ratio = pow(shape.b(), (stage - grid_stage) as nat);
    let cs = s / ratio;
    if t < delay {
        (cs, 0)
    } else {
        (cs, grid_t)
    }
}

/// The delay actually applied when none is given.
pub open spec fn delay_or_zero(delay: Option<usize>) -> int {
    match delay {
        Some(x) => x as int,
        None => 0,
    }
}

/// Law: with the bucket width equal to the stage length and no delay, the
/// coarse projection is the identity up to stage alignment: every node maps
/// to its own scenario at its own stage's first time step.
pub proof fn lemma_regrid_identity(shape: TreeShape, s: int, t: int)
    requires
        shape.wf(),
        shape.valid_node(s, t),
    ensures
        coarse_pair(shape, shape.l(), 0, s, t) == (s, shape.stage_at(t) * shape.l()),
{
    let stage = shape.stage_at(t);
    vstd::arithmetic::div_mod::lemma_fundamental_div_mod(t, shape.l());
    vstd::arithmetic::div_mod::lemma_div_pos_is_pos(t, shape.l());
    let grid_t = (t / shape.l()) * shape.l();
    assert(grid_t == shape.l() * stage) by (nonlinear_arith)
        requires
            grid_t == stage * shape.l(),
    ;
    vstd::arithmetic::div_mod::lemma_div_multiples_vanish(stage, shape.l());
    assert(grid_t / shape.l() == stage);
    vstd::arithmetic::power::lemma_pow0(shape.b());
    vstd::arithmetic::div_mod::lemma_div_basics(s);
}

impl StochasticGrid {
    /// Projects the grid onto the coarse decision resolution: rejects a
    /// zero bucket width, and otherwise reports, for each surviving node in
    /// keep order, the recorded master of its coarse projection (with the
    /// default node standing in where the projection has none).
    #[verifier::loop_isolation(false)]
    pub fn new_grid(&self, grid_duration: usize, delay: Option<usize>) -> (r: Result<
        Vec<Node>,
        GridError,
    >)
        requires
            self.wf(),
        ensures
            r is Err <==> grid_duration == 0,
            r is Err ==> r == Err::<Vec<Node>, GridError>(GridError::DegenerateConfiguration),
            r matches Ok(out) ==> {
                &&& out@.len() == self.keep_keys@.len()
                &&& forall|k: int|
                    0 <= k < out@.len() ==> #[trigger] out@[k] == ({
                        let n = self.keep_keys@[k];
                        let c = coarse_pair(
                            self.shape,
                            grid_duration as int,
                            delay_or_zero(delay),
                            n.s as int,
                            n.t as int,
                        );
                        self.master_or_default(c.0, c.1)
                    })
            },
    {
        if grid_duration == 0 {
            return Err(GridError::DegenerateConfiguration);
        }
        let delay: usize = match delay {
            Some(x) => x,
            None => 0,
        };
        let mut out: Vec<Node> = Vec::new();
        let mut k: usize = 0;
        while k < self.keep_keys.len()
            invariant
                0 <= k <= self.keep_keys@.len(),
                out@.len() == k,
                forall|j: int|
                    0 <= j < k ==> #[trigger] out@[j] == ({
                        let n = self.keep_keys@[j];
                        let c = coarse_pair(
                            self.shape,
                            grid_duration as int,
                            delay as int,
                            n.s as int,
                            n.t as int,
                        );
                        self.master_or_default(c.0, c.1)
                    }),
            decreases self.keep_keys@.len() - k,
        {
            let n = self.keep_keys[k];
            let t = n.t;
            let stage = stage_of(&self.shape, t);
            let grid_t: usize = if t < delay {
                proof {
                    vstd::arithmetic::div_mod::lemma_fundamental_div_mod(
                        t as int,
                        grid_duration as int,
                    );
                    vstd::arithmetic::div_mod::lemma_div_pos_is_pos(t as int, grid_duration as int);
                    assert((t as int / grid_duration as int) * grid_duration as int <= t as int);
                }
                (t / grid_duration) * grid_duration
            } else {
                proof {
                    vstd::arithmetic::div_mod::lemma_fundamental_div_mod(
                        (t - delay) as int,
                        grid_duration as int,
                    );
                    vstd::arithmetic::div_mod::lemma_div_pos_is_pos(
                        (t - delay) as int,
                        grid_duration as int,
                    );
                    assert(((t - delay) as int / grid_duration as int) * grid_duration as int <= (t
                        - delay) as int);
                }
                ((t - delay) / grid_duration) * grid_duration
            };
            let grid_stage = grid_t / self.shape.stage_duration;
            proof {
                vstd::arithmetic::div_mod::lemma_div_is_ordered(
                    grid_t as int,
                    t as int,
                    self.shape.l(),
                );
                vstd::arithmetic::div_mod::lemma_div_pos_is_pos(grid_t as int, self.shape.l());
                self.shape.lemma_width_monotonic(
                    (stage as int - grid_stage as int),
                    self.shape.d() + 1,
                );
            }
            let ratio = self.shape.pow_exec(stage - grid_stage);
            proof {
                self.shape.lemma_width_pos(stage as int - grid_stage as int);
            }
            let cs = n.s / ratio;
            let ct: usize = if t < delay {
                0
            } else {
                grid_t
            };
            let m: Node = match self.shape.tree_index(cs, ct) {
                Ok(idx) => {
                    match self.cluster_grid[idx] {
                        Some(m) => m,
                        None => Node { s: 0, t: 0, d: 1 },
                    }
                },
                Err(_) => Node { s: 0, t: 0, d: 1 },
            };
            proof {
                let c = coarse_pair(
                    self.shape,
                    grid_duration as int,
                    delay as int,
                    n.s as int,
                    n.t as int,
                );
                assert(c.0 == cs as int && c.1 == ct as int);
                assert(m == self.master_or_default(cs as int, ct as int));
            }
            out.push(m);
            k = k + 1;
        }
        Ok(out)
    }
}

} // verus!
