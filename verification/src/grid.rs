use vstd::prelude::*;
use vstd::arithmetic::power::pow;

use crate::sample::random_seed;
use crate::shape::TreeShape;
use crate::types::{GridError, Node};

verus! {

broadcast use
    vstd::arithmetic::mul::lemma_mul_is_commutative,
    vstd::arithmetic::mul::group_mul_basics,
;

/// Strict lexicographic order on node triples `(s, t, d)`, the order in
/// which the kept nodes are reported.
pub open spec fn node_lt(a: Node, b: Node) -> bool {
    ||| a.s < b.s
    ||| (a.s == b.s && a.t < b.t)
    ||| (a.s == b.s && a.t == b.t && a.d < b.d)
}

/// The scenario tree with its canonical flat grid and the state of the
/// latest compression pass.
///
/// `grid` is the canonical enumeration of all tree nodes, fixed at
/// construction.  `cluster_grid` maps each flat position to the master node
/// of its compression run (`None` for a node that the latest pass did not
/// close into a run), and `keep_keys` lists the surviving nodes in
/// ascending `(s, t, d)` order.  Before any compression pass every node is
/// its own master and every node survives.
pub struct StochasticGrid {
    pub shape: TreeShape,
    pub grid: Vec<Node>,
    pub cluster_grid: Vec<Option<Node>>,
    pub keep_keys: Vec<Node>,
    pub seed: u64,
}

impl StochasticGrid {
    /// The grid holds every tree node at its flat position.
    pub open spec fn grid_canonical(&self) -> bool {
        &&& self.grid@.len() == self.shape.total_count()
        &&& forall|s: int, t: int|
            self.shape.valid_node(s, t) ==> self.grid@[#[trigger] self.shape.flat_index(s, t)]
                == (Node { s: s as usize, t: t as usize, d: 1 })
    }

    /// Every kept node is a valid tree coordinate with `d == 1` whose
    /// master is recorded in the cluster map.
    pub open spec fn keep_wf(&self) -> bool {
        forall|k: int|
            0 <= k < self.keep_keys@.len() ==> {
                let n = #[trigger] self.keep_keys@[k];
                &&& n.d == 1
                &&& self.shape.valid_node(n.s as int, n.t as int)
                &&& self.cluster_grid@[self.shape.flat_index(n.s as int, n.t as int)] is Some
            }
    }

    /// The kept nodes come in strictly ascending `(s, t, d)` order.
    pub open spec fn keep_sorted(&self) -> bool {
        forall|i: int, j: int|
            0 <= i < j < self.keep_keys@.len()
                ==> node_lt(#[trigger] self.keep_keys@[i], #[trigger] self.keep_keys@[j])
    }

    pub open spec fn wf(&self) -> bool {
        &&& self.shape.wf()
        &&& self.grid_canonical()
        &&& self.cluster_grid@.len() == self.shape.total_count()
        &&& self.keep_wf()
        &&& self.keep_sorted()
    }

    /// The cluster map consulted at coordinate `(s, t)`: the recorded
    /// master of that node, if the coordinate is a tree node at all and the
    /// latest pass closed a run over it.
    pub open spec fn cluster_lookup(&self, s: int, t: int) -> Option<Node> {
        if self.shape.valid_node(s, t) {
            self.cluster_grid@[self.shape.flat_index(s, t)]
        } else {
            None
        }
    }

    /// The recorded master of `(s, t)`, with the default node standing in
    /// where none is recorded.
    pub open spec fn master_or_default(&self, s: int, t: int) -> Node {
        match self.cluster_lookup(s, t) {
            Some(m) => m,
            None => (Node { s: 0, t: 0, d: 1 }),
        }
    }

    /// Every node survives: the keep list holds exactly the canonical
    /// nodes.
    pub open spec fn keep_full(&self) -> bool {
        forall|s: int, t: int|
            #[trigger] self.shape.valid_node(s, t) ==> self.keep_keys@.contains(
                Node { s: s as usize, t: t as usize, d: 1 },
            )
    }

    /// Every node is its own master.
    pub open spec fn cluster_identity(&self) -> bool {
        forall|s: int, t: int|
            #[trigger] self.shape.valid_node(s, t) ==> self.cluster_lookup(s, t) == Some(
                Node { s: s as usize, t: t as usize, d: 1 },
            )
    }
}

/// The flat position of a node known to be valid.
pub(crate) fn flat_of(shape: &TreeShape, s: usize, t: usize) -> (r: usize)
    requires
        shape.wf(),
        shape.valid_node(s as int, t as int),
    ensures
        r as int == shape.flat_index(s as int, t as int),
        (r as int) < shape.total_count(),
{
    match shape.tree_index(s, t) {
        Ok(k) => k,
        Err(_) => {
            proof {
                assert(false);
            }
            0
        },
    }
}

/// The stage of a time step inside the horizon.
pub(crate) fn stage_of(shape: &TreeShape, t: usize) -> (r: usize)
    requires
        shape.wf(),
        (t as int) < shape.total_time(),
    ensures
        r as int == shape.stage_at(t as int),
        0 <= r as int <= shape.d(),
        shape.width(r as int) <= pow(shape.b(), (shape.d() + 1) as nat),
{
    proof {
        vstd::arithmetic::div_mod::lemma_fundamental_div_mod(t as int, shape.l());
        vstd::arithmetic::div_mod::lemma_div_pos_is_pos(t as int, shape.l());
        assert(shape.stage_at(t as int) <= shape.d()) by {
            if shape.stage_at(t as int) > shape.d() {
                assert((t as int) >= shape.l() * shape.stage_at(t as int)) by (nonlinear_arith)
                    requires
                        t as int == shape.l() * shape.stage_at(t as int) + (t as int) % shape.l(),
                        (t as int) % shape.l() >= 0,
                ;
                assert(shape.l() * shape.stage_at(t as int) >= shape.l() * (shape.d() + 1))
                    by (nonlinear_arith)
                    requires
                        shape.stage_at(t as int) >= shape.d() + 1,
                        shape.l() >= 1,
                ;
                assert((shape.d() + 1) * shape.l() == shape.l() * (shape.d() + 1))
                    by (nonlinear_arith);
            }
        };
        shape.lemma_width_monotonic(shape.stage_at(t as int), shape.d() + 1);
    }
    t / shape.stage_duration
}

/// Enumerates every tree node into its canonical flat position: for each
/// time step and each scenario of its stage, the node `(s, t, 1)` is
/// written at its flat index.  The bijection makes the write set disjoint,
/// so the fill order does not matter.
#[verifier::loop_isolation(false)]
pub fn build_grid(n_stages: usize, n_scenarios: usize, stage_duration: usize) -> (r: Vec<Node>)
    requires
        (TreeShape { n_stages, n_scenarios, stage_duration }).wf(),
    ensures
        ({
            let shape = TreeShape { n_stages, n_scenarios, stage_duration };
            &&& r@.len() == shape.total_count()
            &&& forall|s: int, t: int|
                shape.valid_node(s, t) ==> r@[#[trigger] shape.flat_index(s, t)]
                    == (Node { s: s as usize, t: t as usize, d: 1 })
        }),
{
    let shape = TreeShape { n_stages, n_scenarios, stage_duration };
    let total = shape.total_count_exec();
    let total_time = shape.total_time_exec();
    let mut grid: Vec<Node> = Vec::new();
    while grid.len() < total
        invariant
            grid@.len() <= total,
        decreases total - grid@.len(),
    {
        grid.push(Node { s: 0, t: 0, d: 1 });
    }
    let mut t: usize = 0;
    while t < total_time
        invariant
            grid@.len() == total,
            0 <= t <= total_time,
            forall|s2: int, t2: int|
                shape.valid_node(s2, t2) && t2 < t ==> grid@[#[trigger] shape.flat_index(s2, t2)]
                    == (Node { s: s2 as usize, t: t2 as usize, d: 1 }),
        decreases total_time - t,
    {
        let stage = stage_of(&shape, t);
        let scenario = shape.pow_exec(stage);
        let mut s: usize = 0;
        while s < scenario
            invariant
                grid@.len() == total,
                t < total_time,
                stage as int == shape.stage_at(t as int),
                scenario as int == shape.width(stage as int),
                0 <= s <= scenario,
                forall|s2: int, t2: int|
                    shape.valid_node(s2, t2) && (t2 < t || (t2 == t && s2 < s)) ==> grid@[
                        #[trigger] shape.flat_index(s2, t2)
                    ] == (Node { s: s2 as usize, t: t2 as usize, d: 1 }),
            decreases scenario - s,
        {
            proof {
                assert(shape.valid_node(s as int, t as int));
            }
            let key = flat_of(&shape, s, t);
            grid[key] = Node { s, t, d: 1 };
            proof {
                assert forall|s2: int, t2: int|
                    shape.valid_node(s2, t2) && (t2 < t || (t2 == t && s2 < s
                        + 1)) implies grid@[#[trigger] shape.flat_index(s2, t2)] == (Node {
                    s: s2 as usize,
                    t: t2 as usize,
                    d: 1,
                }) by {
                    if s2 == s as int && t2 == t as int {
                    } else if shape.flat_index(s2, t2) == shape.flat_index(s as int, t as int) {
                        shape.lemma_flat_index_injective(s2, t2, s as int, t as int);
                        assert(false);
                    } else {
                        shape.lemma_flat_in_stage(s2, t2);
                    }
                };
            }
            s = s + 1;
        }
        t = t + 1;
    }
    proof {
        assert forall|s2: int, t2: int| shape.valid_node(s2, t2) implies grid@[
            #[trigger] shape.flat_index(s2, t2)
        ] == (Node { s: s2 as usize, t: t2 as usize, d: 1 }) by {
            assert(t2 < total_time);
        };
    }
    grid
}

/// The canonical keep list: every tree node, in ascending `(s, t, d)`
/// order.
#[verifier::loop_isolation(false)]
fn canonical_keep(shape: &TreeShape) -> (r: Vec<Node>)
    requires
        shape.wf(),
    ensures
        forall|k: int|
            0 <= k < r@.len() ==> {
                let n = #[trigger] r@[k];
                n.d == 1 && shape.valid_node(n.s as int, n.t as int)
            },
        forall|i: int, j: int| 0 <= i < j < r@.len() ==> node_lt(#[trigger] r@[i], #[trigger] r@[j]),
        forall|s: int, t: int|
            #[trigger] shape.valid_node(s, t) ==> r@.contains(
                Node { s: s as usize, t: t as usize, d: 1 },
            ),
{
    let total_time = shape.total_time_exec();
    proof {
        shape.lemma_width_monotonic(shape.d(), shape.d() + 1);
    }
    let n_leaves = shape.pow_exec(shape.n_stages);
    let mut keep: Vec<Node> = Vec::new();
    let mut s: usize = 0;
    while s < n_leaves
        invariant
            0 <= s <= n_leaves,
            forall|k: int|
                0 <= k < keep@.len() ==> {
                    let n = #[trigger] keep@[k];
                    n.d == 1 && shape.valid_node(n.s as int, n.t as int) && (n.s as int) < s
                },
            forall|i: int, j: int|
                0 <= i < j < keep@.len() ==> node_lt(#[trigger] keep@[i], #[trigger] keep@[j]),
            forall|s2: int, t2: int|
                #[trigger] shape.valid_node(s2, t2) && s2 < s ==> keep@.contains(
                    Node { s: s2 as usize, t: t2 as usize, d: 1 },
                ),
        decreases n_leaves - s,
    {
        let bt = shape.branch_time_exec(s);
        let mut t: usize = bt;
        proof {
            shape.lemma_first_stage_char(s as int);
            // no node of scenario s exists before its branch-in time
            assert forall|t2: int|
                #[trigger] shape.valid_node(s as int, t2) implies t2 >= bt as int by {
                shape.lemma_valid_iff(s as int, t2);
                vstd::arithmetic::div_mod::lemma_fundamental_div_mod(t2, shape.l());
                assert(shape.l() * shape.stage_at(t2) >= shape.l() * shape.first_stage(s as int))
                    by (nonlinear_arith)
                    requires
                        shape.stage_at(t2) >= shape.first_stage(s as int),
                        shape.l() >= 1,
                ;
            };
        }
        while t < total_time
            invariant
                bt <= t <= total_time,
                forall|k: int|
                    0 <= k < keep@.len() ==> {
                        let n = #[trigger] keep@[k];
                        &&& n.d == 1
                        &&& shape.valid_node(n.s as int, n.t as int)
                        &&& ((n.s as int) < s || (n.s as int == s && (n.t as int) < t))
                    },
                forall|i: int, j: int|
                    0 <= i < j < keep@.len() ==> node_lt(#[trigger] keep@[i], #[trigger] keep@[j]),
                forall|s2: int, t2: int|
                    #[trigger] shape.valid_node(s2, t2) && (s2 < s || (s2 == s && t2 < t))
                        ==> keep@.contains(Node { s: s2 as usize, t: t2 as usize, d: 1 }),
            decreases total_time - t,
        {
            proof {
                // t is at or past the scenario's branch-in time, so (s, t) is a node
                vstd::arithmetic::div_mod::lemma_div_multiples_vanish(
                    shape.first_stage(s as int),
                    shape.l(),
                );
                vstd::arithmetic::div_mod::lemma_div_is_ordered(
                    shape.l() * shape.first_stage(s as int),
                    t as int,
                    shape.l(),
                );
                shape.lemma_valid_iff(s as int, t as int);
                assert(shape.valid_node(s as int, t as int));
            }
            let ghost old_keep = keep@;
            keep.push(Node { s, t, d: 1 });
            proof {
                assert(keep@[keep@.len() - 1] == (Node { s, t, d: 1 }));
                assert forall|s2: int, t2: int|
                    #[trigger] shape.valid_node(s2, t2) && (s2 < s || (s2 == s && t2 < t
                        + 1)) implies keep@.contains(
                    Node { s: s2 as usize, t: t2 as usize, d: 1 },
                ) by {
                    if s2 == s as int && t2 == t as int {
                        assert(keep@.contains(keep@[keep@.len() - 1]));
                    } else {
                        let n = Node { s: s2 as usize, t: t2 as usize, d: 1 };
                        assert(old_keep.contains(n));
                        let i = choose|i: int| 0 <= i < old_keep.len() && old_keep[i] == n;
                        assert(keep@[i] == n);
                    }
                };
            }
            t = t + 1;
        }
        s = s + 1;
    }
    proof {
        assert forall|s2: int, t2: int| #[trigger] shape.valid_node(s2, t2) implies keep@.contains(
            Node { s: s2 as usize, t: t2 as usize, d: 1 },
        ) by {
            shape.lemma_flat_in_stage(s2, t2);
            shape.lemma_width_monotonic(shape.stage_at(t2), shape.d());
        };
    }
    keep
}

impl StochasticGrid {
    /// Builds the tree: rejects a degenerate configuration, and otherwise
    /// produces the canonical grid with every node surviving as its own
    /// master.  A missing seed is replaced by a process-random one.
    #[verifier::loop_isolation(false)]
    pub fn new(
        n_stages: usize,
        n_scenarios: usize,
        stage_duration: usize,
        seed: Option<u64>,
    ) -> (r: Result<StochasticGrid, GridError>)
        requires
            !(TreeShape { n_stages, n_scenarios, stage_duration }).degenerate() ==> (TreeShape {
                n_stages,
                n_scenarios,
                stage_duration,
            }).size_ok(),
        ensures
            r is Err <==> (TreeShape { n_stages, n_scenarios, stage_duration }).degenerate(),
            r is Err ==> r == Err::<StochasticGrid, GridError>(GridError::DegenerateConfiguration),
            r matches Ok(g) ==> {
                &&& g.wf()
                &&& g.shape == (TreeShape { n_stages, n_scenarios, stage_duration })
                &&& g.keep_full()
                &&& g.cluster_identity()
                &&& (seed matches Some(x) ==> g.seed == x)
            },
    {
        let shape = TreeShape { n_stages, n_scenarios, stage_duration };
        if n_scenarios == 0 || stage_duration == 0 {
            return Err(GridError::DegenerateConfiguration);
        }
        let seed: u64 = match seed {
            Some(x) => x,
            None => random_seed(),
        };
        let grid = build_grid(n_stages, n_scenarios, stage_duration);
        let total = shape.total_count_exec();
        let mut cluster_grid: Vec<Option<Node>> = Vec::new();
        let mut i: usize = 0;
        while i < total
            invariant
                0 <= i <= total,
                cluster_grid@.len() == i,
                forall|k: int| 0 <= k < i ==> cluster_grid@[k] == Some(grid@[k]),
            decreases total - i,
        {
            cluster_grid.push(Some(grid[i]));
            i = i + 1;
        }
        let keep_keys = canonical_keep(&shape);
        let g = StochasticGrid { shape, grid, cluster_grid, keep_keys, seed };
        proof {
            assert forall|k: int| 0 <= k < g.keep_keys@.len() implies {
                let n = #[trigger] g.keep_keys@[k];
                &&& n.d == 1
                &&& g.shape.valid_node(n.s as int, n.t as int)
                &&& g.cluster_grid@[g.shape.flat_index(n.s as int, n.t as int)] is Some
            } by {
                let n = g.keep_keys@[k];
                assert(g.shape.valid_node(n.s as int, n.t as int));
                g.shape.lemma_flat_in_stage(n.s as int, n.t as int);
            };
            assert forall|s2: int, t2: int|
                #[trigger] g.shape.valid_node(s2, t2) implies g.cluster_lookup(s2, t2) == Some(
                Node { s: s2 as usize, t: t2 as usize, d: 1 },
            ) by {
                g.shape.lemma_flat_in_stage(s2, t2);
            };
        }
        Ok(g)
    }

    /// The exported grid: each surviving node, in ascending `(s, t, d)`
    /// order, reported through the cluster map as its run's master node.
    #[verifier::loop_isolation(false)]
    pub fn get_grid(&self) -> (r: Vec<Node>)
        requires
            self.wf(),
        ensures
            r@.len() == self.keep_keys@.len(),
            forall|k: int|
                0 <= k < r@.len() ==> #[trigger] r@[k] == self.master_or_default(
                    self.keep_keys@[k].s as int,
                    self.keep_keys@[k].t as int,
                ),
    {
        let mut out: Vec<Node> = Vec::new();
        let mut k: usize = 0;
        while k < self.keep_keys.len()
            invariant
                0 <= k <= self.keep_keys@.len(),
                out@.len() == k,
                forall|j: int|
                    0 <= j < k ==> #[trigger] out@[j] == self.master_or_default(
                        self.keep_keys@[j].s as int,
                        self.keep_keys@[j].t as int,
                    ),
            decreases self.keep_keys@.len() - k,
        {
            let n = self.keep_keys[k];
            let idx = flat_of(&self.shape, n.s, n.t);
            match self.cluster_grid[idx] {
                Some(m) => out.push(m),
                None => {
                    proof {
                        assert(false);
                    }
                },
            }
            k = k + 1;
        }
        out
    }
}

} // verus!
