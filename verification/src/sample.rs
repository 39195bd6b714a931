use vstd::prelude::*;
use rand::Rng;
use rand::SeedableRng;

use crate::cluster::{
    compress_scenario, lemma_runs_structure, lemma_starts_run_master, master_at,
    opt_points_view, scenario_runs, starts_run, stream_of,
};
use crate::grid::{flat_of, node_lt, StochasticGrid};
use crate::shape::TreeShape;
use crate::types::{GridError, Node, Sample};

verus! {

broadcast use
    vstd::arithmetic::mul::lemma_mul_is_commutative,
    vstd::arithmetic::mul::group_mul_basics,
;

/// The start offset that the seeded generator draws for a sampling window:
/// a pure function of the stream seed and the exclusive bound, fixed by the
/// generator's documented value-stability.
pub uninterp spec fn sample_start(seed: u64, bound: usize) -> usize;

/// Relies on `rand::rngs::StdRng::seed_from_u64` (a deterministic,
/// value-stable stream for a given seed) and `rand::Rng::gen_range`
/// (uniform draw within the given range; panics only on an empty range):
/// the draw is a function of `seed` and `bound` alone and lies below
/// `bound`.
#[verifier::external_body]
fn draw_start(seed: u64, bound: usize) -> (r: usize)
    requires
        bound >= 1,
    ensures
        r == sample_start(seed, bound),
        r < bound,
{
    let mut rng = rand::rngs::StdRng::seed_from_u64(seed);
    rng.gen_range(0..bound)
}

/// Relies on `rand::thread_rng` and `rand::Rng::gen`: a process-random
/// 64-bit value; nothing is promised of it.
#[verifier::external_body]
pub(crate) fn random_seed() -> u64 {
    rand::thread_rng().gen()
}

/// Number of stages that remain from the stage where scenario `s` first
/// exists through the end of the horizon.
pub open spec fn branch_count(shape: TreeShape, s: int) -> int {
    shape.d() + 1 - shape.first_stage(s)
}

/// The minimum number of dataset rows that scenario `s` requires: the
/// whole horizon for the root stream, and a tetrahedral-number multiple of
/// the stage length for the others.
pub open spec fn required_rows(shape: TreeShape, s: int) -> int {
    if s == 0 {
        (shape.d() + 1) * shape.l()
    } else {
        let n = branch_count(shape, s);
        (n * (n + 1) * (n + 2) / 6) * shape.l()
    }
}

/// The per-scenario stream seed: the tree seed advanced by the scenario
/// index, with wrap-around.
pub open spec fn stream_seed(seed: u64, s: int) -> u64 {
    vstd::wrapping::u64_specs::wrapping_add(seed, s as u64)
}

/// The dataset offset where scenario `s`'s sampling window starts.
pub open spec fn start_of(shape: TreeShape, seed: u64, data_len: int, s: int) -> int {
    sample_start(stream_seed(seed, s), (data_len - required_rows(shape, s)) as usize) as int
}

/// Whether the dataset has strictly more rows than every scenario's
/// required window, which is what a successful sampling pass needs.
pub open spec fn sufficient(shape: TreeShape, data_len: int) -> bool {
    forall|s: int|
        0 <= s < shape.width(shape.d()) ==> data_len > #[trigger] required_rows(shape, s)
}

/// The value assigned to node `(s, t)`: the dataset row at the scenario's
/// start offset plus the steps since its branch-in time.
pub open spec fn node_value(
    shape: TreeShape,
    data: Seq<(usize, i64)>,
    seed: u64,
    s: int,
    t: int,
) -> i64 {
    data[start_of(shape, seed, data.len() as int, s) + t - shape.branch_time(s)].1
}

/// The full value stream of scenario `s` across its part of the horizon.
pub open spec fn scen_vals(shape: TreeShape, data: Seq<(usize, i64)>, seed: u64, s: int) -> Seq<
    i64,
> {
    Seq::new(
        (shape.total_time() - shape.branch_time(s)) as nat,
        |k: int| node_value(shape, data, seed, s, shape.branch_time(s) + k),
    )
}

/// The cluster runs that compression emits for scenario `s`.
pub open spec fn runs_of(
    shape: TreeShape,
    data: Seq<(usize, i64)>,
    seed: u64,
    eps: int,
    pts: Option<Seq<(usize, usize)>>,
    s: int,
) -> Seq<Sample> {
    scenario_runs(s, shape.branch_time(s), scen_vals(shape, data, seed, s), shape.l(), eps, pts)
}

/// The runs of all scenarios below `s_end`, in scenario order.
pub open spec fn all_runs(
    shape: TreeShape,
    data: Seq<(usize, i64)>,
    seed: u64,
    eps: int,
    pts: Option<Seq<(usize, usize)>>,
    s_end: int,
) -> Seq<Sample>
    decreases s_end,
{
    if s_end <= 0 {
        Seq::<Sample>::empty()
    } else {
        all_runs(shape, data, seed, eps, pts, s_end - 1) + runs_of(
            shape,
            data,
            seed,
            eps,
            pts,
            s_end - 1,
        )
    }
}

/// Whether a sampling call asks for compression; it does unless opted out.
pub open spec fn cluster_on(cluster: Option<bool>) -> bool {
    match cluster {
        Some(b) => b,
        None => true,
    }
}

/// The minimum dataset rows scenario `s` requires.
fn required_rows_exec(shape: &TreeShape, s: usize) -> (r: usize)
    requires
        shape.wf(),
        (s as int) < shape.width(shape.d()),
    ensures
        r as int == required_rows(*shape, s as int),
        r as int >= branch_count(*shape, s as int) * shape.l(),
{
    proof {
        shape.lemma_depth_small();
        shape.lemma_first_stage_char(s as int);
    }
    if s == 0 {
        proof {
            vstd::arithmetic::power::lemma_pow0(shape.b());
            assert(shape.first_stage(0) == 0);
        }
        (shape.n_stages + 1) * shape.stage_duration
    } else {
        let bs = shape.first_stage_exec(s);
        proof {
            assert(bs >= 1) by {
                if bs == 0 {
                    vstd::arithmetic::power::lemma_pow0(shape.b());
                    assert((s as int) < shape.width(0));
                }
            };
        }
        let nb = shape.n_stages + 1 - bs;
        proof {
            assert(1 <= nb as int <= shape.d());
            assert(nb as int * (nb as int + 1) * (nb as int + 2) <= (shape.d() + 1) * (shape.d()
                + 2) * (shape.d() + 3)) by (nonlinear_arith)
                requires
                    1 <= nb as int <= shape.d(),
            ;
            assert((shape.d() + 1) * (shape.d() + 2) >= 2) by (nonlinear_arith)
                requires
                    shape.d() >= 0,
            ;
            assert(nb as int * (nb as int + 1) <= (shape.d() + 1) * (shape.d() + 2) * (shape.d()
                + 3)) by (nonlinear_arith)
                requires
                    1 <= nb as int <= shape.d(),
            ;
        }
        let prod = nb * (nb + 1) * (nb + 2);
        let tetra = prod / 6;
        proof {
            vstd::arithmetic::div_mod::lemma_div_is_ordered(
                prod as int,
                (shape.d() + 1) * (shape.d() + 2) * (shape.d() + 3),
                6,
            );
            assert(shape.l() * (tetra as int) <= shape.l() * ((shape.d() + 1) * (shape.d() + 2) * (
            shape.d() + 3) / 6)) by (nonlinear_arith)
                requires
                    tetra as int <= (shape.d() + 1) * (shape.d() + 2) * (shape.d() + 3) / 6,
                    shape.l() >= 1,
            ;
            // the window covers at least one row per remaining time step
            assert(prod as int >= 6 * nb as int) by (nonlinear_arith)
                requires
                    nb as int >= 1,
                    prod as int == nb as int * (nb as int + 1) * (nb as int + 2),
            ;
            vstd::arithmetic::div_mod::lemma_div_is_ordered(6 * nb as int, prod as int, 6);
            vstd::arithmetic::div_mod::lemma_div_multiples_vanish(nb as int, 6);
            assert((tetra as int) * shape.l() >= (nb as int) * shape.l()) by (nonlinear_arith)
                requires
                    tetra as int >= nb as int,
                    shape.l() >= 1,
            ;
        }
        tetra * shape.stage_duration
    }
}

/// The kept nodes read off the keep flags: every flagged node as
/// `(s, t, 1)`, in ascending `(s, t, d)` order.
#[verifier::loop_isolation(false)]
fn keep_from_flags(shape: &TreeShape, flags: &Vec<bool>) -> (r: Vec<Node>)
    requires
        shape.wf(),
        flags@.len() == shape.total_count(),
    ensures
        forall|k: int|
            0 <= k < r@.len() ==> {
                let n = #[trigger] r@[k];
                n.d == 1 && shape.valid_node(n.s as int, n.t as int)
            },
        forall|i: int, j: int| 0 <= i < j < r@.len() ==> node_lt(#[trigger] r@[i], #[trigger] r@[j]),
        forall|s: int, t: int|
            #[trigger] shape.valid_node(s, t) ==> (r@.contains(
                Node { s: s as usize, t: t as usize, d: 1 },
            ) <==> flags@[shape.flat_index(s, t)]),
{
    let total_time = shape.total_time_exec();
    proof {
        shape.lemma_width_monotonic(shape.d(), shape.d() + 1);
    }
    let n_leaves = shape.pow_exec(shape.n_stages);
    let mut keep: Vec<Node> = Vec::new();
    let mut s: usize = 0;
    while s < n_leaves
        invariant
            0 <= s <= n_leaves,
            forall|k: int|
                0 <= k < keep@.len() ==> {
                    let n = #[trigger] keep@[k];
                    &&& n.d == 1
                    &&& shape.valid_node(n.s as int, n.t as int)
                    &&& (n.s as int) < s
                    &&& flags@[shape.flat_index(n.s as int, n.t as int)]
                },
            forall|i: int, j: int|
                0 <= i < j < keep@.len() ==> node_lt(#[trigger] keep@[i], #[trigger] keep@[j]),
            forall|s2: int, t2: int|
                #[trigger] shape.valid_node(s2, t2) && s2 < s && flags@[shape.flat_index(s2, t2)]
                    ==> keep@.contains(Node { s: s2 as usize, t: t2 as usize, d: 1 }),
        decreases n_leaves - s,
    {
        let bt = shape.branch_time_exec(s);
        let mut t: usize = bt;
        proof {
            shape.lemma_first_stage_char(s as int);
            assert forall|t2: int|
                #[trigger] shape.valid_node(s as int, t2) implies t2 >= bt as int by {
                shape.lemma_valid_iff(s as int, t2);
                vstd::arithmetic::div_mod::lemma_fundamental_div_mod(t2, shape.l());
                assert(shape.l() * shape.stage_at(t2) >= shape.l() * shape.first_stage(s as int))
                    by (nonlinear_arith)
                    requires
                        shape.stage_at(t2) >= shape.first_stage(s as int),
                        shape.l() >= 1,
                ;
            };
        }
        while t < total_time
            invariant
                bt <= t <= total_time,
                forall|k: int|
                    0 <= k < keep@.len() ==> {
                        let n = #[trigger] keep@[k];
                        &&& n.d == 1
                        &&& shape.valid_node(n.s as int, n.t as int)
                        &&& ((n.s as int) < s || (n.s as int == s && (n.t as int) < t))
                        &&& flags@[shape.flat_index(n.s as int, n.t as int)]
                    },
                forall|i: int, j: int|
                    0 <= i < j < keep@.len() ==> node_lt(#[trigger] keep@[i], #[trigger] keep@[j]),
                forall|s2: int, t2: int|
                    #[trigger] shape.valid_node(s2, t2) && (s2 < s || (s2 == s && t2 < t))
                        && flags@[shape.flat_index(s2, t2)] ==> keep@.contains(
                        Node { s: s2 as usize, t: t2 as usize, d: 1 },
                    ),
            decreases total_time - t,
        {
            proof {
                vstd::arithmetic::div_mod::lemma_div_multiples_vanish(
                    shape.first_stage(s as int),
                    shape.l(),
                );
                vstd::arithmetic::div_mod::lemma_div_is_ordered(
                    shape.l() * shape.first_stage(s as int),
                    t as int,
                    shape.l(),
                );
                shape.lemma_valid_iff(s as int, t as int);
                assert(shape.valid_node(s as int, t as int));
            }
            let idx = flat_of(shape, s, t);
            if flags[idx] {
                let ghost old_keep = keep@;
                keep.push(Node { s, t, d: 1 });
                proof {
                    assert(keep@[keep@.len() - 1] == (Node { s, t, d: 1 }));
                    assert forall|s2: int, t2: int|
                        #[trigger] shape.valid_node(s2, t2) && (s2 < s || (s2 == s && t2 < t + 1))
                            && flags@[shape.flat_index(s2, t2)] implies keep@.contains(
                        Node { s: s2 as usize, t: t2 as usize, d: 1 },
                    ) by {
                        if s2 == s as int && t2 == t as int {
                            assert(keep@.contains(keep@[keep@.len() - 1]));
                        } else {
                            let n = Node { s: s2 as usize, t: t2 as usize, d: 1 };
                            assert(old_keep.contains(n));
                            let i = choose|i: int| 0 <= i < old_keep.len() && old_keep[i] == n;
                            assert(keep@[i] == n);
                        }
                    };
                }
            }
            t = t + 1;
        }
        s = s + 1;
    }
    proof {
        assert forall|s2: int, t2: int| #[trigger] shape.valid_node(s2, t2) implies (keep@.contains(
            Node { s: s2 as usize, t: t2 as usize, d: 1 },
        ) <==> flags@[shape.flat_index(s2, t2)]) by {
            shape.lemma_flat_in_stage(s2, t2);
            shape.lemma_width_monotonic(shape.stage_at(t2), shape.d());
            if keep@.contains(Node { s: s2 as usize, t: t2 as usize, d: 1 }) {
                let i = choose|i: int|
                    0 <= i < keep@.len() && keep@[i] == (Node {
                        s: s2 as usize,
                        t: t2 as usize,
                        d: 1,
                    });
            }
        };
    }
    keep
}

impl StochasticGrid {
    /// Samples the historical dataset onto the tree and optionally
    /// compresses the result.
    ///
    /// A negative tolerance is rejected outright; a dataset shorter than
    /// some scenario's required window is rejected whole, with the tree
    /// untouched.  Otherwise every node `(s, t)` receives the dataset value
    /// at its scenario's drawn start offset plus the steps since branch-in.
    /// Each node draws from the stream of its own scenario index, so a
    /// node shared by several deeper paths carries that single stream's
    /// value.  Without compression the raw per-node samples are returned
    /// (in flat order) and the tree keeps its current cluster state; with
    /// compression the emitted cluster runs are returned, grouped by
    /// scenario in increasing time, and the cluster map and keep list are
    /// replaced wholesale by the new pass's masters and survivors.
    #[verifier::loop_isolation(false)]
    #[verifier::rlimit(100)]
    #[verifier::spinoff_prover]
    pub fn add_dataset(
        &mut self,
        dataset: &Vec<(usize, i64)>,
        cluster: Option<bool>,
        epsilon: i64,
        cluster_points: Option<Vec<(usize, usize)>>,
    ) -> (r: Result<Vec<Sample>, GridError>)
        requires
            old(self).wf(),
            cluster_points matches Some(ps) ==> forall|i: int|
                0 <= i < ps@.len() ==> (#[trigger] ps@[i]).0 >= 1,
        ensures
            final(self).shape == old(self).shape,
            final(self).grid == old(self).grid,
            final(self).seed == old(self).seed,
            final(self).wf(),
            epsilon < 0 ==> r == Err::<Vec<Sample>, GridError>(GridError::DegenerateConfiguration)
                && *final(self) == *old(self),
            epsilon >= 0 ==> (r is Err <==> !sufficient(
                old(self).shape,
                dataset@.len() as int,
            )),
            epsilon >= 0 && r is Err ==> r == Err::<Vec<Sample>, GridError>(
                GridError::InsufficientData,
            ) && *final(self) == *old(self),
            r matches Ok(out) ==> ({
                let shape = old(self).shape;
                let seed = old(self).seed;
                let eps = epsilon as int;
                let pts = opt_points_view(cluster_points);
                &&& (cluster_on(cluster) ==> {
                    &&& out@ == all_runs(
                        shape,
                        dataset@,
                        seed,
                        eps,
                        pts,
                        shape.width(shape.d()),
                    )
                    &&& forall|s: int, t: int|
                        #[trigger] shape.valid_node(s, t) ==> final(self).cluster_lookup(s, t)
                            == master_at(runs_of(shape, dataset@, seed, eps, pts, s), t)
                    &&& forall|s: int, t: int|
                        #[trigger] shape.valid_node(s, t) ==> (final(self).keep_keys@.contains(
                            Node { s: s as usize, t: t as usize, d: 1 },
                        ) <==> starts_run(runs_of(shape, dataset@, seed, eps, pts, s), t))
                })
                &&& (!cluster_on(cluster) ==> {
                    &&& *final(self) == *old(self)
                    &&& out@.len() == shape.total_count()
                    &&& forall|s: int, t: int|
                        #[trigger] shape.valid_node(s, t) ==> out@[shape.flat_index(s, t)]
                            == (Sample {
                            s: s as usize,
                            t: t as usize,
                            d: 1,
                            value: node_value(shape, dataset@, seed, s, t),
                        })
                })
            }),
    {
        if epsilon < 0 {
            return Err(GridError::DegenerateConfiguration);
        }
        let data_len = dataset.len();
        let shape = self.shape;
        let total = shape.total_count_exec();
        let total_time = shape.total_time_exec();
        proof {
            shape.lemma_width_monotonic(shape.d(), shape.d() + 1);
        }
        let n_leaves = shape.pow_exec(shape.n_stages);
        // draw each scenario's deterministic start offset, failing wholesale
        // on a dataset too short for any window
        let mut start_points: Vec<usize> = Vec::new();
        let mut s: usize = 0;
        while s < n_leaves
            invariant
                0 <= s <= n_leaves,
                start_points@.len() == s,
                forall|s2: int|
                    0 <= s2 < s ==> dataset@.len() > #[trigger] required_rows(shape, s2),
                forall|s2: int|
                    0 <= s2 < s ==> (#[trigger] start_points@[s2]) as int == start_of(
                        shape,
                        self.seed,
                        dataset@.len() as int,
                        s2,
                    ) && (start_points@[s2] as int) < dataset@.len() as int - required_rows(
                        shape,
                        s2,
                    ),
            decreases n_leaves - s,
        {
            let ns = required_rows_exec(&shape, s);
            if data_len <= ns {
                proof {
                    assert(!sufficient(shape, dataset@.len() as int));
                }
                return Err(GridError::InsufficientData);
            }
            let sp = draw_start(self.seed.wrapping_add(s as u64), data_len - ns);
            start_points.push(sp);
            s = s + 1;
        }
        proof {
            assert(sufficient(shape, dataset@.len() as int));
        }
        // assign each node its window value
        let mut samples: Vec<Sample> = Vec::new();
        while samples.len() < total
            invariant
                samples@.len() <= total,
            decreases total - samples@.len(),
        {
            samples.push(Sample { s: 0, t: 0, d: 1, value: 0 });
        }
        let mut s: usize = 0;
        while s < n_leaves
            invariant
                0 <= s <= n_leaves,
                samples@.len() == total,
                forall|s2: int, t2: int|
                    shape.valid_node(s2, t2) && s2 < s ==> samples@[#[trigger] shape.flat_index(
                        s2,
                        t2,
                    )] == (Sample {
                        s: s2 as usize,
                        t: t2 as usize,
                        d: 1,
                        value: node_value(shape, dataset@, self.seed, s2, t2),
                    }),
            decreases n_leaves - s,
        {
            let bt = shape.branch_time_exec(s);
            let ns = required_rows_exec(&shape, s);
            let sp = start_points[s];
            let mut t: usize = bt;
            proof {
                shape.lemma_first_stage_char(s as int);
                assert forall|t2: int|
                    #[trigger] shape.valid_node(s as int, t2) implies t2 >= bt as int by {
                    shape.lemma_valid_iff(s as int, t2);
                    vstd::arithmetic::div_mod::lemma_fundamental_div_mod(t2, shape.l());
                    assert(shape.l() * shape.stage_at(t2) >= shape.l() * shape.first_stage(
                        s as int,
                    )) by (nonlinear_arith)
                        requires
                            shape.stage_at(t2) >= shape.first_stage(s as int),
                            shape.l() >= 1,
                    ;
                };
                // the horizon from branch-in fits inside the required window
                assert(shape.total_time() - bt as int == branch_count(shape, s as int) * shape.l())
                    by (nonlinear_arith)
                    requires
                        shape.total_time() == (shape.d() + 1) * shape.l(),
                        bt as int == shape.l() * shape.first_stage(s as int),
                        branch_count(shape, s as int) == shape.d() + 1 - shape.first_stage(
                            s as int,
                        ),
                ;
            }
            while t < total_time
                invariant
                    bt <= t <= total_time,
                    samples@.len() == total,
                    forall|s2: int, t2: int|
                        shape.valid_node(s2, t2) && (s2 < s || (s2 == s && t2 < t)) ==> samples@[
                            #[trigger] shape.flat_index(s2, t2)
                        ] == (Sample {
                            s: s2 as usize,
                            t: t2 as usize,
                            d: 1,
                            value: node_value(shape, dataset@, self.seed, s2, t2),
                        }),
                decreases total_time - t,
            {
                proof {
                    vstd::arithmetic::div_mod::lemma_div_multiples_vanish(
                        shape.first_stage(s as int),
                        shape.l(),
                    );
                    vstd::arithmetic::div_mod::lemma_div_is_ordered(
                        shape.l() * shape.first_stage(s as int),
                        t as int,
                        shape.l(),
                    );
                    shape.lemma_valid_iff(s as int, t as int);
                    assert(shape.valid_node(s as int, t as int));
                }
                let idx = flat_of(&shape, s, t);
                proof {
                    assert((sp as int) < dataset@.len() - required_rows(shape, s as int));
                    assert((t as int) - (bt as int) < branch_count(shape, s as int) * shape.l());
                    assert((sp as int) + ((t as int) - (bt as int)) < dataset@.len());
                }
                let row = sp + (t - bt);
                let v = dataset[row].1;
                samples[idx] = Sample { s, t, d: 1, value: v };
                proof {
                    assert forall|s2: int, t2: int|
                        shape.valid_node(s2, t2) && (s2 < s || (s2 == s && t2 < t
                            + 1)) implies samples@[#[trigger] shape.flat_index(s2, t2)] == (Sample {
                        s: s2 as usize,
                        t: t2 as usize,
                        d: 1,
                        value: node_value(shape, dataset@, self.seed, s2, t2),
                    }) by {
                        shape.lemma_flat_in_stage(s2, t2);
                        if s2 == s as int && t2 == t as int {
                            assert(row as int == start_of(
                                shape,
                                self.seed,
                                dataset@.len() as int,
                                s2,
                            ) + t2 - shape.branch_time(s2));
                        } else if shape.flat_index(s2, t2) == shape.flat_index(s as int, t as int) {
                            shape.lemma_flat_index_injective(s2, t2, s as int, t as int);
                            assert(false);
                        }
                    };
                }
                t = t + 1;
            }
            s = s + 1;
        }
        proof {
            assert forall|s2: int, t2: int| #[trigger] shape.valid_node(s2, t2) implies samples@[
                shape.flat_index(s2, t2)
            ] == (Sample {
                s: s2 as usize,
                t: t2 as usize,
                d: 1,
                value: node_value(shape, dataset@, self.seed, s2, t2),
            }) by {
                shape.lemma_flat_in_stage(s2, t2);
                shape.lemma_width_monotonic(shape.stage_at(t2), shape.d());
            };
        }
        let do_cluster = match cluster {
            Some(b) => b,
            None => true,
        };
        if !do_cluster {
            return Ok(samples);
        }
        // compression pass: rebuild the cluster map and keep set wholesale
        let ghost eps = epsilon as int;
        let ghost pts = opt_points_view(cluster_points);
        let mut cg: Vec<Option<Node>> = Vec::new();
        while cg.len() < total
            invariant
                cg@.len() <= total,
                forall|k: int| 0 <= k < cg@.len() ==> cg@[k] is None,
            decreases total - cg@.len(),
        {
            cg.push(None);
        }
        let mut kf: Vec<bool> = Vec::new();
        while kf.len() < total
            invariant
                kf@.len() <= total,
                forall|k: int| 0 <= k < kf@.len() ==> kf@[k] == false,
            decreases total - kf@.len(),
        {
            kf.push(false);
        }
        let mut out: Vec<Sample> = Vec::new();
        let mut s: usize = 0;
        proof {
            assert(out@ =~= all_runs(shape, dataset@, self.seed, eps, pts, 0));
            assert forall|s2: int, t2: int| #[trigger] shape.valid_node(s2, t2) implies cg@[
                shape.flat_index(s2, t2)
            ] is None && kf@[shape.flat_index(s2, t2)] == false by {
                shape.lemma_flat_in_stage(s2, t2);
            };
        }
        while s < n_leaves
            invariant
                0 <= s <= n_leaves,
                cg@.len() == total,
                kf@.len() == total,
                out@ == all_runs(shape, dataset@, self.seed, eps, pts, s as int),
                forall|s2: int, t2: int|
                    shape.valid_node(s2, t2) && s2 < s ==> cg@[#[trigger] shape.flat_index(s2, t2)]
                        == master_at(
                        runs_of(shape, dataset@, self.seed, eps, pts, s2),
                        t2,
                    ),
                forall|s2: int, t2: int|
                    shape.valid_node(s2, t2) && s2 < s ==> kf@[#[trigger] shape.flat_index(s2, t2)]
                        == starts_run(runs_of(shape, dataset@, self.seed, eps, pts, s2), t2),
                forall|s2: int, t2: int|
                    shape.valid_node(s2, t2) && s2 >= s ==> cg@[#[trigger] shape.flat_index(
                        s2,
                        t2,
                    )] is None && kf@[shape.flat_index(s2, t2)] == false,
            decreases n_leaves - s,
        {
            let ghost cg_before = cg@;
            let ghost kf_before = kf@;
            let ghost out_before = out@;
            compress_scenario(
                &shape,
                &samples,
                s,
                epsilon,
                &cluster_points,
                &mut cg,
                &mut kf,
                &mut out,
            );
            proof {
                shape.lemma_first_stage_char(s as int);
                assert(0 <= shape.branch_time(s as int) && shape.branch_time(s as int)
                    <= shape.total_time()) by (nonlinear_arith)
                    requires
                        0 <= shape.first_stage(s as int) <= shape.d(),
                        shape.branch_time(s as int) == shape.l() * shape.first_stage(s as int),
                        shape.l() >= 1,
                        shape.total_time() == (shape.d() + 1) * shape.l(),
                ;
                // the stream read off the sample array is the spec stream
                assert(stream_of(shape, samples@, s as int) =~= scen_vals(
                    shape,
                    dataset@,
                    self.seed,
                    s as int,
                )) by {
                    assert forall|k: int|
                        0 <= k < shape.total_time() - shape.branch_time(s as int) implies stream_of(
                        shape,
                        samples@,
                        s as int,
                    )[k] == scen_vals(shape, dataset@, self.seed, s as int)[k] by {
                        let tk = shape.branch_time(s as int) + k;
                        shape.lemma_first_stage_char(s as int);
                        shape.lemma_total_count_bounds();
                        vstd::arithmetic::div_mod::lemma_div_multiples_vanish(
                            shape.first_stage(s as int),
                            shape.l(),
                        );
                        vstd::arithmetic::div_mod::lemma_div_is_ordered(
                            shape.l() * shape.first_stage(s as int),
                            tk,
                            shape.l(),
                        );
                        assert(shape.branch_time(s as int) >= 0);
                        shape.lemma_valid_iff(s as int, tk);
                        assert(shape.valid_node(s as int, tk));
                    };
                };
                assert(runs_of(shape, dataset@, self.seed, eps, pts, s as int) == scenario_runs(
                    s as int,
                    shape.branch_time(s as int),
                    stream_of(shape, samples@, s as int),
                    shape.l(),
                    eps,
                    pts,
                ));
                assert(out@ == all_runs(shape, dataset@, self.seed, eps, pts, s as int + 1));
            }
            s = s + 1;
        }
        self.cluster_grid = cg;
        let kk = keep_from_flags(&shape, &kf);
        self.keep_keys = kk;
        proof {
            let seed = self.seed;
            // the keep list is consistent with the new cluster map
            assert forall|k: int| 0 <= k < self.keep_keys@.len() implies {
                let n = #[trigger] self.keep_keys@[k];
                &&& n.d == 1
                &&& self.shape.valid_node(n.s as int, n.t as int)
                &&& self.cluster_grid@[self.shape.flat_index(n.s as int, n.t as int)] is Some
            } by {
                let n = self.keep_keys@[k];
                assert(shape.valid_node(n.s as int, n.t as int));
                shape.lemma_flat_in_stage(n.s as int, n.t as int);
                shape.lemma_width_monotonic(shape.stage_at(n.t as int), shape.d());
                let rs = runs_of(shape, dataset@, seed, eps, pts, n.s as int);
                assert(self.keep_keys@.contains(n));
                assert(starts_run(rs, n.t as int));
                shape.lemma_first_stage_char(n.s as int);
                shape.lemma_total_count_bounds();
                assert(0 <= shape.branch_time(n.s as int) && shape.branch_time(n.s as int)
                    <= shape.total_time()) by (nonlinear_arith)
                    requires
                        0 <= shape.first_stage(n.s as int) <= shape.d(),
                        shape.branch_time(n.s as int) == shape.l() * shape.first_stage(n.s as int),
                        shape.l() >= 1,
                        shape.total_time() == (shape.d() + 1) * shape.l(),
                ;
                assert(scen_vals(shape, dataset@, seed, n.s as int).len() == shape.total_time()
                    - shape.branch_time(n.s as int));
                assert(shape.branch_time(n.s as int) + scen_vals(
                    shape,
                    dataset@,
                    seed,
                    n.s as int,
                ).len() <= usize::MAX as int);
                lemma_runs_structure(
                    n.s as int,
                    shape.branch_time(n.s as int),
                    scen_vals(shape, dataset@, seed, n.s as int),
                    shape.l(),
                    eps,
                    pts,
                    0,
                    0i64,
                    0,
                );
                lemma_starts_run_master(rs, n.t as int);
                assert(self.cluster_grid@[self.shape.flat_index(n.s as int, n.t as int)]
                    == master_at(rs, n.t as int));
            };
            // every tree node's scenario lies below the leaf count
            assert forall|s2: int, t2: int| #[trigger] shape.valid_node(s2, t2) implies
                self.cluster_grid@[shape.flat_index(s2, t2)] == master_at(
                runs_of(shape, dataset@, seed, eps, pts, s2),
                t2,
            ) && (self.keep_keys@.contains(Node { s: s2 as usize, t: t2 as usize, d: 1 })
                <==> starts_run(runs_of(shape, dataset@, seed, eps, pts, s2), t2)) by {
                shape.lemma_flat_in_stage(s2, t2);
                shape.lemma_width_monotonic(shape.stage_at(t2), shape.d());
            };
        }
        Ok(out)
    }
}

} // verus!
