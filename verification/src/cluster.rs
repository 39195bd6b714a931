use vstd::prelude::*;

use crate::grid::flat_of;
use crate::shape::TreeShape;
use crate::types::{Node, Sample};

verus! {

broadcast use
    vstd::arithmetic::mul::lemma_mul_is_commutative,
    vstd::arithmetic::mul::group_mul_basics,
;

/// The absolute difference of two values.
pub open spec fn abs_diff(a: int, b: int) -> int {
    if a >= b {
        a - b
    } else {
        b - a
    }
}

/// Whether a configured break point forces a run boundary at time step
/// `t`: the break is checked both on the step itself and one step ahead.
pub open spec fn break_at(pts: Seq<(usize, usize)>, t: int) -> bool {
    exists|i: int|
        0 <= i < pts.len() && (((t - pts[i].1) % (pts[i].0 as int) == 0) || ((t + 1 - pts[i].1) % (
        pts[i].0 as int) == 0))
}

pub open spec fn opt_break_at(pts: Option<Seq<(usize, usize)>>, t: int) -> bool {
    match pts {
        Some(ps) => break_at(ps, t),
        None => false,
    }
}

/// Whether the node at time `t` carrying value `v` may extend the open run
/// whose anchor value is `anchor`: the value must stay within the
/// tolerance, the step must keep clear of a stage boundary on either side,
/// and no configured break point may fire.
pub open spec fn extend_ok(
    l: int,
    eps: int,
    pts: Option<Seq<(usize, usize)>>,
    anchor: int,
    v: int,
    t: int,
) -> bool {
    &&& abs_diff(v, anchor) < eps
    &&& t % l != 0
    &&& (t + 1) % l != 0
    &&& t % l != l - 1
    &&& (t + 1) % l != l - 1
    &&& !opt_break_at(pts, t)
}

/// The cluster runs that the scan over one scenario's value stream emits,
/// starting at stream index `i` with an open run of `count` nodes anchored
/// at `anchor`.  `vals[k]` is the value assigned at time `bt + k`.  Closing
/// a run emits `(s, runStart, runLength, anchor)`; a run still open when
/// the stream ends is dropped.
pub open spec fn runs_from(
    s: int,
    bt: int,
    vals: Seq<i64>,
    l: int,
    eps: int,
    pts: Option<Seq<(usize, usize)>>,
    i: int,
    anchor: i64,
    count: int,
) -> Seq<Sample>
    decreases vals.len() - i,
{
    if i < 0 || i >= vals.len() {
        Seq::<Sample>::empty()
    } else {
        let t = bt + i;
        let v = vals[i];
        let cnt = count + 1;
        if extend_ok(l, eps, pts, anchor as int, v as int, t) {
            runs_from(s, bt, vals, l, eps, pts, i + 1, anchor, cnt)
        } else {
            seq![
                Sample {
                    s: s as usize,
                    t: (t + 1 - cnt) as usize,
                    d: cnt as usize,
                    value: anchor,
                },
            ] + runs_from(s, bt, vals, l, eps, pts, i + 1, v, 0)
        }
    }
}

/// The runs of one whole scenario stream.
pub open spec fn scenario_runs(
    s: int,
    bt: int,
    vals: Seq<i64>,
    l: int,
    eps: int,
    pts: Option<Seq<(usize, usize)>>,
) -> Seq<Sample> {
    runs_from(s, bt, vals, l, eps, pts, 0, 0i64, 0)
}

/// The master node that the runs of one scenario record for time `t`: the
/// run covering `t`, keyed by its start and carrying its length.
pub open spec fn master_at(runs: Seq<Sample>, t: int) -> Option<Node>
    decreases runs.len(),
{
    if runs.len() == 0 {
        None
    } else if runs[0].t <= t < runs[0].t + runs[0].d {
        Some(Node { s: runs[0].s, t: runs[0].t, d: runs[0].d })
    } else {
        master_at(runs.subrange(1, runs.len() as int), t)
    }
}

/// Whether some run starts at time `t`.
pub open spec fn starts_run(runs: Seq<Sample>, t: int) -> bool {
    exists|i: int| 0 <= i < runs.len() && runs[i].t == t
}

/// The invariant that the scan state satisfies between steps: the open run
/// has `count` nodes ending just before stream index `i`, and stays inside
/// the stream.
pub open spec fn state_ok(bt: int, vals: Seq<i64>, i: int, count: int) -> bool {
    &&& 0 <= bt
    &&& 0 <= count <= i <= vals.len()
    &&& bt + vals.len() <= usize::MAX as int
}

/// Structure of the emitted runs: every run belongs to the scenario, has
/// at least one node, starts no earlier than the current open run, runs
/// are contiguous, and all end within the stream.
pub proof fn lemma_runs_structure(
    s: int,
    bt: int,
    vals: Seq<i64>,
    l: int,
    eps: int,
    pts: Option<Seq<(usize, usize)>>,
    i: int,
    anchor: i64,
    count: int,
)
    requires
        state_ok(bt, vals, i, count),
        0 <= s <= usize::MAX as int,
    ensures
        ({
            let runs = runs_from(s, bt, vals, l, eps, pts, i, anchor, count);
            &&& forall|j: int|
                0 <= j < runs.len() ==> {
                    let r = #[trigger] runs[j];
                    &&& r.s == s
                    &&& r.d >= 1
                    &&& r.t >= bt + i - count
                    &&& r.t + r.d <= bt + vals.len()
                }
            &&& (runs.len() > 0 ==> runs[0].t == bt + i - count)
            &&& forall|j: int|
                1 <= j < runs.len() ==> (#[trigger] runs[j]).t == runs[j - 1].t + runs[j - 1].d
        }),
    decreases vals.len() - i,
{
    let runs = runs_from(s, bt, vals, l, eps, pts, i, anchor, count);
    if i >= vals.len() {
    } else {
        let t = bt + i;
        let v = vals[i];
        let cnt = count + 1;
        if extend_ok(l, eps, pts, anchor as int, v as int, t) {
            lemma_runs_structure(s, bt, vals, l, eps, pts, i + 1, anchor, cnt);
            assert(runs == runs_from(s, bt, vals, l, eps, pts, i + 1, anchor, cnt));
        } else {
            lemma_runs_structure(s, bt, vals, l, eps, pts, i + 1, v, 0);
            let rest = runs_from(s, bt, vals, l, eps, pts, i + 1, v, 0);
            let head = Sample {
                s: s as usize,
                t: (t + 1 - cnt) as usize,
                d: cnt as usize,
                value: anchor,
            };
            assert(runs == seq![head] + rest);
            assert(runs[0] == head);
            assert(head.t == bt + i - count);
            assert(head.t + head.d == bt + i + 1);
            assert forall|j: int| 0 <= j < runs.len() implies {
                let r = #[trigger] runs[j];
                &&& r.s == s
                &&& r.d >= 1
                &&& r.t >= bt + i - count
                &&& r.t + r.d <= bt + vals.len()
            } by {
                if j >= 1 {
                    assert(runs[j] == rest[j - 1]);
                }
            };
            assert forall|j: int| 1 <= j < runs.len() implies (#[trigger] runs[j]).t == runs[j
                - 1].t + runs[j - 1].d by {
                assert(runs[j] == rest[j - 1]);
                if j == 1 {
                    assert(rest.len() > 0);
                    assert(rest[0].t == bt + i + 1);
                } else {
                    assert(runs[j - 1] == rest[j - 2]);
                }
            };
        }
    }
}

/// Appending further runs changes a master lookup only where the first
/// batch records nothing.
pub proof fn lemma_master_at_append(a: Seq<Sample>, b: Seq<Sample>, t: int)
    ensures
        master_at(a + b, t) == if master_at(a, t) is Some {
            master_at(a, t)
        } else {
            master_at(b, t)
        },
    decreases a.len(),
{
    if a.len() == 0 {
        assert(a + b =~= b);
    } else {
        assert((a + b).subrange(1, (a + b).len() as int) =~= a.subrange(1, a.len() as int) + b);
        lemma_master_at_append(a.subrange(1, a.len() as int), b, t);
    }
}

/// A time step that starts a run has a recorded master.
pub proof fn lemma_starts_run_master(runs: Seq<Sample>, t: int)
    requires
        starts_run(runs, t),
        forall|j: int| 0 <= j < runs.len() ==> (#[trigger] runs[j]).d >= 1,
    ensures
        master_at(runs, t) is Some,
    decreases runs.len(),
{
    let w = choose|i: int| 0 <= i < runs.len() && runs[i].t == t;
    if runs[0].t <= t < runs[0].t + runs[0].d {
    } else {
        assert(w != 0);
        let rest = runs.subrange(1, runs.len() as int);
        assert(rest[w - 1].t == t);
        assert(starts_run(rest, t));
        lemma_starts_run_master(rest, t);
    }
}

/// Run starts distribute over appended batches.
pub proof fn lemma_starts_run_append(a: Seq<Sample>, b: Seq<Sample>, t: int)
    ensures
        starts_run(a + b, t) <==> (starts_run(a, t) || starts_run(b, t)),
{
    if starts_run(a, t) {
        let i = choose|i: int| 0 <= i < a.len() && a[i].t == t;
        assert((a + b)[i].t == t);
    }
    if starts_run(b, t) {
        let i = choose|i: int| 0 <= i < b.len() && b[i].t == t;
        assert((a + b)[a.len() + i].t == t);
    }
    if starts_run(a + b, t) {
        let i = choose|i: int| 0 <= i < (a + b).len() && (a + b)[i].t == t;
        if i < a.len() {
            assert(a[i].t == t);
        } else {
            assert(b[i - a.len()].t == t);
        }
    }
}

/// Law: compression never merges across a stage boundary.  Every emitted
/// run lies within a single stage: its first and last node share their
/// stage.  The state invariant says the open run is boundary-free so far.
pub proof fn lemma_runs_single_stage(
    s: int,
    bt: int,
    vals: Seq<i64>,
    l: int,
    eps: int,
    pts: Option<Seq<(usize, usize)>>,
    i: int,
    anchor: i64,
    count: int,
)
    requires
        state_ok(bt, vals, i, count),
        l >= 1,
        count >= 1 ==> ((bt + i - count) / l == (bt + i - 1) / l && (bt + i) % l != 0 && (bt + i)
            % l != l - 1),
    ensures
        ({
            let runs = runs_from(s, bt, vals, l, eps, pts, i, anchor, count);
            forall|j: int|
                0 <= j < runs.len() ==> ((#[trigger] runs[j]).t as int) / l == (runs[j].t + runs[j].d
                    - 1) / l
        }),
    decreases vals.len() - i,
{
    let runs = runs_from(s, bt, vals, l, eps, pts, i, anchor, count);
    if i >= vals.len() {
    } else {
        let t = bt + i;
        let v = vals[i];
        let cnt = count + 1;
        if extend_ok(l, eps, pts, anchor as int, v as int, t) {
            // the run now also covers t, still inside the same stage
            assert((bt + i + 1 - cnt) / l == (bt + i) / l) by {
                if count >= 1 {
                    assert(t % l != 0);
                    lemma_same_stage_step(t, l);
                }
            };
            assert((bt + i + 1) % l != 0 && (bt + i + 1) % l != l - 1);
            lemma_runs_single_stage(s, bt, vals, l, eps, pts, i + 1, anchor, cnt);
            assert(runs == runs_from(s, bt, vals, l, eps, pts, i + 1, anchor, cnt));
        } else {
            lemma_runs_single_stage(s, bt, vals, l, eps, pts, i + 1, v, 0);
            let rest = runs_from(s, bt, vals, l, eps, pts, i + 1, v, 0);
            let head = Sample {
                s: s as usize,
                t: (t + 1 - cnt) as usize,
                d: cnt as usize,
                value: anchor,
            };
            assert(runs == seq![head] + rest);
            assert(head.t == bt + i - count);
            assert(head.d == cnt);
            // the closed run spans [t + 1 - cnt, t] within one stage
            assert((head.t as int) / l == (head.t + head.d - 1) / l) by {
                if count >= 1 {
                    assert((t - count) / l == (t - 1) / l);
                    assert(t % l != 0);
                    lemma_same_stage_step(t, l);
                }
            };
            assert forall|j: int|
                0 <= j < runs.len() implies ((#[trigger] runs[j]).t as int) / l == (runs[j].t
                + runs[j].d - 1) / l by {
                if j >= 1 {
                    assert(runs[j] == rest[j - 1]);
                } else {
                    assert(runs[0] == head);
                }
            };
        }
    }
}

/// A time step not at a stage start shares its stage with the step before.
proof fn lemma_same_stage_step(t: int, l: int)
    requires
        l >= 1,
        t % l != 0,
    ensures
        t / l == (t - 1) / l,
{
    vstd::arithmetic::div_mod::lemma_fundamental_div_mod(t, l);
    vstd::arithmetic::div_mod::lemma_mod_bound(t, l);
    vstd::arithmetic::div_mod::lemma_fundamental_div_mod_converse(t - 1, l, t / l, t % l - 1);
}

/// A master lookup at or past every run's end records nothing, and no run
/// starts there.
pub proof fn lemma_master_at_none_above(runs: Seq<Sample>, t: int)
    requires
        forall|j: int|
            0 <= j < runs.len() ==> (#[trigger] runs[j]).t + runs[j].d <= t && runs[j].d >= 1,
    ensures
        master_at(runs, t) is None,
        !starts_run(runs, t),
    decreases runs.len(),
{
    if runs.len() > 0 {
        lemma_master_at_none_above(runs.subrange(1, runs.len() as int), t);
        if starts_run(runs, t) {
            let i = choose|i: int| 0 <= i < runs.len() && runs[i].t == t;
            assert(runs[i].t + runs[i].d <= t);
            assert(false);
        }
    } else {
        if starts_run(runs, t) {
            let i = choose|i: int| 0 <= i < runs.len() && runs[i].t == t;
            assert(false);
        }
    }
}

/// The master recorded by a single run.
pub proof fn lemma_master_at_single(seg: Sample, t: int)
    ensures
        master_at(seq![seg], t) == if seg.t <= t < seg.t + seg.d {
            Some(Node { s: seg.s, t: seg.t, d: seg.d })
        } else {
            None
        },
{
    let single = seq![seg];
    assert(single.subrange(1, single.len() as int) =~= Seq::<Sample>::empty());
    assert(master_at(single.subrange(1, single.len() as int), t) is None);
}

/// The run start recorded by a single run.
pub proof fn lemma_starts_run_single(seg: Sample, t: int)
    ensures
        starts_run(seq![seg], t) <==> seg.t == t,
{
    if seg.t == t {
        assert(seq![seg][0].t == t);
    }
    if starts_run(seq![seg], t) {
        let w = choose|w: int| 0 <= w < seq![seg].len() && seq![seg][w].t == t;
        assert(w == 0);
    }
}

/// A divisibility test is indifferent to the sign of the dividend.
proof fn lemma_mod_neg_zero(a: int, p: int)
    requires
        p >= 1,
    ensures
        ((-a) % p == 0) <==> (a % p == 0),
{
    vstd::arithmetic::div_mod::lemma_fundamental_div_mod(a, p);
    vstd::arithmetic::div_mod::lemma_fundamental_div_mod(-a, p);
    if a % p == 0 {
        assert(-a == (-(a / p)) * p) by (nonlinear_arith)
            requires
                a == p * (a / p) + a % p,
                a % p == 0,
        ;
        vstd::arithmetic::div_mod::lemma_mod_multiples_basic(-(a / p), p);
    }
    if (-a) % p == 0 {
        assert(a == (-((-a) / p)) * p) by (nonlinear_arith)
            requires
                -a == p * ((-a) / p) + (-a) % p,
                (-a) % p == 0,
        ;
        vstd::arithmetic::div_mod::lemma_mod_multiples_basic(-((-a) / p), p);
    }
}

/// The view of an optional break-point vector.
pub open spec fn opt_points_view(points: Option<Vec<(usize, usize)>>) -> Option<
    Seq<(usize, usize)>,
> {
    match points {
        Some(ps) => Some(ps@),
        None => None,
    }
}

/// Whether a configured break point fires at time step `t`.
#[verifier::loop_isolation(false)]
fn is_break_at(points: &Vec<(usize, usize)>, t: usize) -> (r: bool)
    requires
        forall|i: int| 0 <= i < points@.len() ==> (#[trigger] points@[i]).0 >= 1,
        t < usize::MAX,
    ensures
        r == break_at(points@, t as int),
{
    let mut i: usize = 0;
    while i < points.len()
        invariant
            0 <= i <= points@.len(),
            forall|j: int|
                0 <= j < i ==> !((((t as int) - (#[trigger] points@[j]).1) % (points@[j].0 as int)
                    == 0) || (((t as int) + 1 - points@[j].1) % (points@[j].0 as int) == 0)),
        decreases points@.len() - i,
    {
        let pair = points[i];
        let p = pair.0;
        let ph = pair.1;
        let d1 = if t >= ph {
            (t - ph) % p == 0
        } else {
            (ph - t) % p == 0
        };
        let tp = t + 1;
        let d2 = if tp >= ph {
            (tp - ph) % p == 0
        } else {
            (ph - tp) % p == 0
        };
        proof {
            lemma_mod_neg_zero((t as int) - (ph as int), p as int);
            lemma_mod_neg_zero((t as int) + 1 - (ph as int), p as int);
        }
        if d1 || d2 {
            proof {
                assert(break_at(points@, t as int)) by {
                    assert(0 <= i < points@.len() && ((((t as int) - points@[i as int].1) % (
                    points@[i as int].0 as int) == 0) || (((t as int) + 1 - points@[i as int].1) % (
                    points@[i as int].0 as int) == 0)));
                };
            }
            return true;
        }
        i = i + 1;
    }
    false
}

/// One scenario's value stream, read off the filled sample array: entry
/// `k` is the value at time `branch_time + k`.
pub open spec fn stream_of(shape: TreeShape, samples: Seq<Sample>, s: int) -> Seq<i64> {
    Seq::new(
        (shape.total_time() - shape.branch_time(s)) as nat,
        |k: int| samples[shape.flat_index(s, shape.branch_time(s) + k)].value,
    )
}

/// Scans one scenario's assigned values in increasing time, closing runs
/// into `out` and recording each closed run's master in the cluster map
/// and its start in the keep flags.  Positions of other scenarios are
/// untouched.
#[verifier::loop_isolation(false)]
#[verifier::rlimit(100)]
#[verifier::spinoff_prover]
pub(crate) fn compress_scenario(
    shape: &TreeShape,
    samples: &Vec<Sample>,
    s: usize,
    epsilon: i64,
    points: &Option<Vec<(usize, usize)>>,
    cluster_grid: &mut Vec<Option<Node>>,
    keep_flag: &mut Vec<bool>,
    out: &mut Vec<Sample>,
)
    requires
        shape.wf(),
        (s as int) < shape.width(shape.d()),
        samples@.len() == shape.total_count(),
        old(cluster_grid)@.len() == shape.total_count(),
        old(keep_flag)@.len() == shape.total_count(),
        forall|t: int|
            shape.valid_node(s as int, t) ==> old(cluster_grid)@[#[trigger] shape.flat_index(
                s as int,
                t,
            )] is None,
        forall|t: int|
            shape.valid_node(s as int, t) ==> old(keep_flag)@[#[trigger] shape.flat_index(
                s as int,
                t,
            )] == false,
        points matches Some(ps) ==> forall|i: int| 0 <= i < ps@.len() ==> (#[trigger] ps@[i]).0
            >= 1,
    ensures
        final(cluster_grid)@.len() == shape.total_count(),
        final(keep_flag)@.len() == shape.total_count(),
        ({
            let runs = scenario_runs(
                s as int,
                shape.branch_time(s as int),
                stream_of(*shape, samples@, s as int),
                shape.l(),
                epsilon as int,
                opt_points_view(*points),
            );
            &&& final(out)@ == old(out)@ + runs
            &&& forall|t: int|
                shape.valid_node(s as int, t) ==> final(cluster_grid)@[#[trigger] shape.flat_index(
                    s as int,
                    t,
                )] == master_at(runs, t)
            &&& forall|t: int|
                shape.valid_node(s as int, t) ==> final(keep_flag)@[#[trigger] shape.flat_index(s as int, t)]
                    == starts_run(runs, t)
        }),
        forall|s2: int, t2: int|
            shape.valid_node(s2, t2) && s2 != s as int ==> final(cluster_grid)@[#[trigger] shape.flat_index(
                s2,
                t2,
            )] == old(cluster_grid)@[shape.flat_index(s2, t2)],
        forall|s2: int, t2: int|
            shape.valid_node(s2, t2) && s2 != s as int ==> final(keep_flag)@[#[trigger] shape.flat_index(
                s2,
                t2,
            )] == old(keep_flag)@[shape.flat_index(s2, t2)],
{
    let bt = shape.branch_time_exec(s);
    let total_time = shape.total_time_exec();
    let l = shape.stage_duration;
    let ghost vals = stream_of(*shape, samples@, s as int);
    let ghost pts = opt_points_view(*points);
    let ghost runs = scenario_runs(s as int, bt as int, vals, l as int, epsilon as int, pts);
    proof {
        shape.lemma_total_count_bounds();
        shape.lemma_first_stage_char(s as int);
        // the valid times of scenario s are exactly [bt, total_time)
        assert forall|t2: int| bt <= t2 < total_time implies shape.valid_node(s as int, t2) by {
            vstd::arithmetic::div_mod::lemma_div_multiples_vanish(
                shape.first_stage(s as int),
                shape.l(),
            );
            vstd::arithmetic::div_mod::lemma_div_is_ordered(
                shape.l() * shape.first_stage(s as int),
                t2,
                shape.l(),
            );
            shape.lemma_valid_iff(s as int, t2);
        };
        assert forall|t2: int| #[trigger] shape.valid_node(s as int, t2) implies bt <= t2
            < total_time by {
            shape.lemma_valid_iff(s as int, t2);
            vstd::arithmetic::div_mod::lemma_fundamental_div_mod(t2, shape.l());
            assert(shape.l() * shape.stage_at(t2) >= shape.l() * shape.first_stage(s as int))
                by (nonlinear_arith)
                requires
                    shape.stage_at(t2) >= shape.first_stage(s as int),
                    shape.l() >= 1,
            ;
        };
    }
    let mut anchor: i64 = 0;
    let mut count: usize = 0;
    let ghost mut done: Seq<Sample> = Seq::<Sample>::empty();
    let ghost out0 = out@;
    let mut t: usize = bt;
    proof {
        assert(runs == done + runs_from(
            s as int,
            bt as int,
            vals,
            l as int,
            epsilon as int,
            pts,
            0,
            0i64,
            0,
        )) by {
            assert(done + runs_from(s as int, bt as int, vals, l as int, epsilon as int, pts, 0, 0i64, 0)
                =~= runs_from(s as int, bt as int, vals, l as int, epsilon as int, pts, 0, 0i64, 0));
        };
        assert(out@ =~= out0 + done);
    }
    while t < total_time
        invariant
            bt <= t <= total_time,
            count as int <= t as int - bt as int,
            cluster_grid@.len() == shape.total_count(),
            keep_flag@.len() == shape.total_count(),
            runs == done + runs_from(
                s as int,
                bt as int,
                vals,
                l as int,
                epsilon as int,
                pts,
                t as int - bt as int,
                anchor,
                count as int,
            ),
            out@ == out0 + done,
            forall|j: int|
                0 <= j < done.len() ==> {
                    let r = #[trigger] done[j];
                    &&& r.d >= 1
                    &&& r.t >= bt
                    &&& r.t + r.d <= t as int - count as int
                },
            forall|t2: int|
                bt <= t2 < t as int - count as int ==> cluster_grid@[#[trigger] shape.flat_index(
                    s as int,
                    t2,
                )] == master_at(done, t2),
            forall|t2: int|
                bt <= t2 < t as int - count as int ==> keep_flag@[#[trigger] shape.flat_index(
                    s as int,
                    t2,
                )] == starts_run(done, t2),
            forall|t2: int|
                t as int - count as int <= t2 < total_time ==> cluster_grid@[
                    #[trigger] shape.flat_index(s as int, t2)
                ] is None,
            forall|t2: int|
                t as int - count as int <= t2 < total_time ==> keep_flag@[
                    #[trigger] shape.flat_index(s as int, t2)
                ] == false,
            forall|s2: int, t2: int|
                shape.valid_node(s2, t2) && s2 != s as int ==> cluster_grid@[
                    #[trigger] shape.flat_index(s2, t2)
                ] == old(cluster_grid)@[shape.flat_index(s2, t2)],
            forall|s2: int, t2: int|
                shape.valid_node(s2, t2) && s2 != s as int ==> keep_flag@[
                    #[trigger] shape.flat_index(s2, t2)
                ] == old(keep_flag)@[shape.flat_index(s2, t2)],
        decreases total_time - t,
    {
        let ghost i = t as int - bt as int;
        let idx = flat_of(shape, s, t);
        let v = samples[idx].value;
        proof {
            assert(vals[i] == v);
        }
        let cnt = count + 1;
        let within = {
            let diff: i128 = v as i128 - anchor as i128;
            let ad: i128 = if diff >= 0 {
                diff
            } else {
                -diff
            };
            ad < epsilon as i128
        };
        let not_boundary = t % l != 0 && (t + 1) % l != 0 && t % l != l - 1 && (t + 1) % l != l
            - 1;
        let no_break = match points {
            Some(ps) => !is_break_at(ps, t),
            None => true,
        };
        proof {
            assert((within && not_boundary && no_break) == extend_ok(
                l as int,
                epsilon as int,
                pts,
                anchor as int,
                v as int,
                t as int,
            ));
        }
        if within && not_boundary && no_break {
            proof {
                assert(runs_from(
                    s as int,
                    bt as int,
                    vals,
                    l as int,
                    epsilon as int,
                    pts,
                    i,
                    anchor,
                    count as int,
                ) == runs_from(
                    s as int,
                    bt as int,
                    vals,
                    l as int,
                    epsilon as int,
                    pts,
                    i + 1,
                    anchor,
                    count as int + 1,
                ));
            }
            count = cnt;
        } else {
            let run_start = t + 1 - cnt;
            let master = Node { s, t: run_start, d: cnt };
            let seg = Sample { s, t: run_start, d: cnt, value: anchor };
            let ghost done_old = done;
            let ghost rest = runs_from(
                s as int,
                bt as int,
                vals,
                l as int,
                epsilon as int,
                pts,
                i + 1,
                v,
                0,
            );
            proof {
                assert(runs_from(
                    s as int,
                    bt as int,
                    vals,
                    l as int,
                    epsilon as int,
                    pts,
                    i,
                    anchor,
                    count as int,
                ) == seq![seg] + rest);
            }
            out.push(seg);
            let mut t2 = run_start;
            while t2 <= t
                invariant
                    run_start <= t2 <= t + 1,
                    cluster_grid@.len() == shape.total_count(),
                    forall|t3: int|
                        bt <= t3 < run_start as int ==> cluster_grid@[#[trigger] shape.flat_index(
                            s as int,
                            t3,
                        )] == master_at(done, t3),
                    forall|t3: int|
                        run_start as int <= t3 < t2 as int ==> cluster_grid@[
                            #[trigger] shape.flat_index(s as int, t3)
                        ] == Some(master),
                    forall|t3: int|
                        t2 as int <= t3 < total_time ==> cluster_grid@[#[trigger] shape.flat_index(
                            s as int,
                            t3,
                        )] is None,
                    forall|s2: int, t3: int|
                        shape.valid_node(s2, t3) && s2 != s as int ==> cluster_grid@[
                            #[trigger] shape.flat_index(s2, t3)
                        ] == old(cluster_grid)@[shape.flat_index(s2, t3)],
                decreases t + 1 - t2,
            {
                proof {
                    assert(shape.valid_node(s as int, t2 as int));
                }
                let idx2 = flat_of(shape, s, t2);
                let ghost cg0 = cluster_grid@;
                cluster_grid[idx2] = Some(master);
                proof {
                    assert(cluster_grid@ == cg0.update(idx2 as int, Some(master)));
                    assert forall|t3: int|
                        bt <= t3 < run_start as int implies cg0[shape.flat_index(s as int, t3)]
                        == master_at(done, t3) by {};
                    assert forall|s2: int, t3: int|
                        shape.valid_node(s2, t3) && !(s2 == s as int && t3 == t2 as int) implies
                        shape.flat_index(s2, t3) != shape.flat_index(s as int, t2 as int) by {
                        if shape.flat_index(s2, t3) == shape.flat_index(s as int, t2 as int) {
                            shape.lemma_flat_index_injective(s2, t3, s as int, t2 as int);
                        }
                    };
                    assert(cluster_grid@[shape.flat_index(s as int, t2 as int)] == Some(master));
                    assert forall|s2: int, t3: int|
                        shape.valid_node(s2, t3) && s2 != s as int implies cluster_grid@[
                        #[trigger] shape.flat_index(s2, t3)
                    ] == cg0[shape.flat_index(s2, t3)] by {
                        shape.lemma_flat_in_stage(s2, t3);
                    };
                    assert forall|t3: int| bt <= t3 < run_start as int implies cluster_grid@[
                        #[trigger] shape.flat_index(s as int, t3)
                    ] == master_at(done, t3) by {
                        assert(shape.valid_node(s as int, t3));
                        shape.lemma_flat_in_stage(s as int, t3);
                        assert(shape.flat_index(s as int, t3) != shape.flat_index(
                            s as int,
                            t2 as int,
                        ));
                    };
                    assert forall|t3: int|
                        run_start as int <= t3 < t2 as int + 1 implies cluster_grid@[
                        #[trigger] shape.flat_index(s as int, t3)
                    ] == Some(master) by {
                        assert(shape.valid_node(s as int, t3));
                        shape.lemma_flat_in_stage(s as int, t3);
                        if t3 != t2 as int {
                            assert(shape.flat_index(s as int, t3) != shape.flat_index(
                                s as int,
                                t2 as int,
                            ));
                        }
                    };
                    assert forall|t3: int|
                        t2 as int + 1 <= t3 < total_time implies cluster_grid@[
                        #[trigger] shape.flat_index(s as int, t3)
                    ] is None by {
                        assert(shape.valid_node(s as int, t3));
                        shape.lemma_flat_in_stage(s as int, t3);
                        assert(shape.flat_index(s as int, t3) != shape.flat_index(
                            s as int,
                            t2 as int,
                        ));
                    };
                }
                t2 = t2 + 1;
            }
            let kidx = flat_of(shape, s, run_start);
            let ghost kf0 = keep_flag@;
            keep_flag[kidx] = true;
            proof {
                assert(keep_flag@ == kf0.update(kidx as int, true));
                assert forall|t3: int|
                    bt <= t3 < run_start as int implies kf0[shape.flat_index(s as int, t3)]
                    == starts_run(done, t3) by {
                    shape.lemma_flat_in_stage(s as int, t3);
                };
                assert forall|t3: int|
                    run_start as int <= t3 < total_time implies kf0[shape.flat_index(s as int, t3)]
                    == false by {
                    shape.lemma_flat_in_stage(s as int, t3);
                };
                assert forall|s2: int, t3: int|
                    shape.valid_node(s2, t3) && !(s2 == s as int && t3 == run_start as int) implies
                    shape.flat_index(s2, t3) != shape.flat_index(s as int, run_start as int) by {
                    if shape.flat_index(s2, t3) == shape.flat_index(s as int, run_start as int) {
                        shape.lemma_flat_index_injective(s2, t3, s as int, run_start as int);
                    }
                };
                assert forall|s2: int, t3: int|
                    shape.valid_node(s2, t3) && s2 != s as int implies keep_flag@[
                    #[trigger] shape.flat_index(s2, t3)
                ] == kf0[shape.flat_index(s2, t3)] by {
                    shape.lemma_flat_in_stage(s2, t3);
                };
                done = done.push(seg);
                assert(done =~= done_old + seq![seg]);
                assert(out@ =~= out0 + done);
                assert(runs == done + rest) by {
                    assert(done_old + (seq![seg] + rest) =~= (done_old + seq![seg]) + rest);
                };
                assert(seg.t == run_start && seg.d == cnt && seg.s == s);
                assert forall|t3: int| bt <= t3 < t as int + 1 implies cluster_grid@[
                    #[trigger] shape.flat_index(s as int, t3)
                ] == master_at(done, t3) by {
                    shape.lemma_flat_in_stage(s as int, t3);
                    lemma_master_at_append(done_old, seq![seg], t3);
                    lemma_master_at_single(seg, t3);
                    if t3 < run_start as int {
                        assert(cluster_grid@[shape.flat_index(s as int, t3)] == master_at(
                            done_old,
                            t3,
                        ));
                    } else {
                        lemma_master_at_none_above(done_old, t3);
                        assert(cluster_grid@[shape.flat_index(s as int, t3)] == Some(master));
                        assert(master_at(seq![seg], t3) == Some(master));
                    }
                };
                assert forall|t3: int| bt <= t3 < t as int + 1 implies keep_flag@[
                    #[trigger] shape.flat_index(s as int, t3)
                ] == starts_run(done, t3) by {
                    shape.lemma_flat_in_stage(s as int, t3);
                    lemma_starts_run_append(done_old, seq![seg], t3);
                    lemma_starts_run_single(seg, t3);
                    if t3 < run_start as int {
                        assert(keep_flag@[shape.flat_index(s as int, t3)] == starts_run(
                            done_old,
                            t3,
                        ));
                    } else if t3 == run_start as int {
                        assert(keep_flag@[shape.flat_index(s as int, t3)] == true);
                    } else {
                        lemma_master_at_none_above(done_old, t3);
                        assert(keep_flag@[shape.flat_index(s as int, t3)] == false);
                    }
                };
                assert forall|t3: int| t as int + 1 <= t3 < total_time implies cluster_grid@[
                    #[trigger] shape.flat_index(s as int, t3)
                ] is None && keep_flag@[shape.flat_index(s as int, t3)] == false by {
                    shape.lemma_flat_in_stage(s as int, t3);
                }
            }
            anchor = v;
            count = 0;
        }
        t = t + 1;
    }
    proof {
        assert(runs_from(
            s as int,
            bt as int,
            vals,
            l as int,
            epsilon as int,
            pts,
            t as int - bt as int,
            anchor,
            count as int,
        ) =~= Seq::<Sample>::empty());
        assert(runs =~= done);
        assert(out@ =~= out0 + runs);
        assert forall|t2: int| #[trigger] shape.valid_node(s as int, t2) implies cluster_grid@[
            shape.flat_index(s as int, t2)
        ] == master_at(runs, t2) && keep_flag@[shape.flat_index(s as int, t2)] == starts_run(
            runs,
            t2,
        ) by {
            if t2 >= t as int - count as int {
                lemma_master_at_none_above(done, t2);
            }
        };
    }
}

/// Law: with a zero tolerance nothing is ever merged; every emitted run
/// holds exactly one node.
pub proof fn lemma_zero_epsilon_no_merge(
    s: int,
    bt: int,
    vals: Seq<i64>,
    l: int,
    eps: int,
    pts: Option<Seq<(usize, usize)>>,
    i: int,
    anchor: i64,
)
    requires
        eps <= 0,
    ensures
        ({
            let runs = runs_from(s, bt, vals, l, eps, pts, i, anchor, 0);
            forall|j: int| 0 <= j < runs.len() ==> (#[trigger] runs[j]).d == 1
        }),
    decreases vals.len() - i,
{
    if 0 <= i < vals.len() {
        let t = bt + i;
        let v = vals[i];
        assert(!extend_ok(l, eps, pts, anchor as int, v as int, t));
        lemma_zero_epsilon_no_merge(s, bt, vals, l, eps, pts, i + 1, v);
        let rest = runs_from(s, bt, vals, l, eps, pts, i + 1, v, 0);
        let runs = runs_from(s, bt, vals, l, eps, pts, i, anchor, 0);
        assert(forall|j: int| 1 <= j < runs.len() ==> runs[j] == rest[j - 1]);
    }
}


/// Law: compression never merges across a stage boundary.  In a whole
/// scenario's scan, every emitted run's first and last node lie in the
/// same stage.
pub proof fn lemma_compression_stays_in_stage(
    s: int,
    bt: int,
    vals: Seq<i64>,
    l: int,
    eps: int,
    pts: Option<Seq<(usize, usize)>>,
)
    requires
        0 <= bt,
        bt + vals.len() <= usize::MAX as int,
        l >= 1,
    ensures
        ({
            let runs = scenario_runs(s, bt, vals, l, eps, pts);
            forall|j: int|
                0 <= j < runs.len() ==> ((#[trigger] runs[j]).t as int) / l == (runs[j].t + runs[j].d
                    - 1) / l
        }),
{
    lemma_runs_single_stage(s, bt, vals, l, eps, pts, 0, 0i64, 0);
}

/// Law: with a zero (or negative) tolerance a whole scenario's scan never
/// merges anything; every emitted run holds exactly one node.
pub proof fn lemma_compression_zero_epsilon(
    s: int,
    bt: int,
    vals: Seq<i64>,
    l: int,
    eps: int,
    pts: Option<Seq<(usize, usize)>>,
)
    requires
        eps <= 0,
    ensures
        ({
            let runs = scenario_runs(s, bt, vals, l, eps, pts);
            forall|j: int| 0 <= j < runs.len() ==> (#[trigger] runs[j]).d == 1
        }),
{
    lemma_zero_epsilon_no_merge(s, bt, vals, l, eps, pts, 0, 0i64);
}

/// Law: the cluster map and the keep set stay mutually consistent.  A
/// master recorded for any time step starts one of the emitted runs, so
/// (with the keep set holding exactly the run starts) the master's
/// `(s, t, 1)` form always survives compression.
pub proof fn lemma_master_starts_run(runs: Seq<Sample>, t: int)
    ensures
        master_at(runs, t) matches Some(m) ==> starts_run(runs, m.t as int),
    decreases runs.len(),
{
    if runs.len() > 0 {
        if runs[0].t <= t < runs[0].t + runs[0].d {
            assert(starts_run(runs, runs[0].t as int));
        } else {
            let rest = runs.subrange(1, runs.len() as int);
            lemma_master_starts_run(rest, t);
            match master_at(rest, t) {
                Some(m) => {
                    let i = choose|i: int| 0 <= i < rest.len() && rest[i].t == m.t;
                    assert(runs[i + 1].t == m.t);
                    assert(starts_run(runs, m.t as int));
                },
                None => {},
            }
        }
    }
}

} // verus!
