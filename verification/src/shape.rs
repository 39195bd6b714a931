use vstd::prelude::*;
use vstd::arithmetic::power::{
    pow, lemma_pow_positive, lemma_pow_increases, lemma_pow_adds, lemma_pow0, lemma_pow1,
};
use vstd::arithmetic::div_mod::{
    lemma_fundamental_div_mod, lemma_fundamental_div_mod_converse,
};

use crate::types::GridError;

verus! {

broadcast use
    vstd::arithmetic::mul::lemma_mul_is_commutative,
    vstd::arithmetic::mul::group_mul_basics,
;

/// The shape of a scenario tree: `n_stages` is the tree depth `D` (stages
/// run from `0` through `D`), `n_scenarios` is the branching factor `B`
/// (children per parent entering a new stage), and `stage_duration` is the
/// number of time steps `L` in one stage.  The whole horizon spans
/// `(D + 1) * L` time steps.
#[derive(Clone, Copy, PartialEq, Eq, Structural, Debug)]
pub struct TreeShape {
    pub n_stages: usize,
    pub n_scenarios: usize,
    pub stage_duration: usize,
}

impl TreeShape {
    pub open spec fn d(&self) -> int {
        self.n_stages as int
    }

    pub open spec fn b(&self) -> int {
        self.n_scenarios as int
    }

    pub open spec fn l(&self) -> int {
        self.stage_duration as int
    }

    /// The stage that time step `t` belongs to.
    pub open spec fn stage_at(&self, t: int) -> int {
        t / self.l()
    }

    /// Number of time steps in the whole horizon.
    pub open spec fn total_time(&self) -> int {
        (self.d() + 1) * self.l()
    }

    /// Number of distinct scenarios at stage `g`.
    pub open spec fn width(&self, g: int) -> int {
        pow(self.b(), g as nat)
    }

    /// Number of flat positions taken by all stages before stage `g`.
    pub open spec fn stage_offset(&self, g: int) -> int
        decreases g,
    {
        if g <= 0 {
            0
        } else {
            self.stage_offset(g - 1) + self.l() * self.width(g - 1)
        }
    }

    /// Number of nodes in the whole tree, which is also the size of the
    /// canonical grid.
    pub open spec fn total_count(&self) -> int {
        self.stage_offset(self.d() + 1)
    }

    pub open spec fn valid_time(&self, t: int) -> bool {
        0 <= t < self.total_time()
    }

    /// A coordinate pair `(s, t)` names a node of the tree when `t` lies in
    /// the horizon and `s` is a scenario of the stage of `t`.
    pub open spec fn valid_node(&self, s: int, t: int) -> bool {
        self.valid_time(t) && 0 <= s < self.width(self.stage_at(t))
    }

    /// The flat array position of node `(s, t)`.
    pub open spec fn flat_index(&self, s: int, t: int) -> int {
        let g = self.stage_at(t);
        self.width(g) * (t - g * self.l()) + s + self.stage_offset(g)
    }

    /// A branching factor or stage length of zero is rejected outright.
    pub open spec fn degenerate(&self) -> bool {
        self.n_scenarios == 0 || self.stage_duration == 0
    }

    /// The machine-size bounds that the grid and sampling arithmetic needs:
    /// every count computed from the shape fits in `usize`.
    pub open spec fn size_ok(&self) -> bool {
        &&& self.l() * (self.d() + 1) <= usize::MAX as int
        &&& pow(self.b(), (self.d() + 1) as nat) <= usize::MAX as int
        &&& self.l() * (pow(self.b(), (self.d() + 1) as nat) - 1) <= usize::MAX as int
        &&& (self.d() + 1) * (self.d() + 2) * (self.d() + 3) <= usize::MAX as int
        &&& self.l() * ((self.d() + 1) * (self.d() + 2) * (self.d() + 3) / 6) <= usize::MAX as int
    }

    pub open spec fn wf(&self) -> bool {
        !self.degenerate() && self.size_ok()
    }

    /// The smallest stage `g <= d` at which scenario index `s` exists,
    /// searched upward from stage `from`.
    pub open spec fn stage_for(&self, s: int, from: int) -> int
        decreases self.d() + 1 - from,
    {
        if from >= self.d() || s < self.width(from) {
            from
        } else {
            self.stage_for(s, from + 1)
        }
    }

    /// The stage at which scenario index `s` first names a node: the least
    /// `g` with `s < width(g)`.
    pub open spec fn first_stage(&self, s: int) -> int {
        self.stage_for(s, 0)
    }

    /// The first time step at which scenario index `s` names a node.
    pub open spec fn branch_time(&self, s: int) -> int {
        self.l() * self.first_stage(s)
    }

    pub proof fn lemma_width_pos(&self, g: int)
        requires
            self.n_scenarios >= 1,
        ensures
            self.width(g) >= 1,
    {
        lemma_pow_positive(self.b(), g as nat);
    }

    pub proof fn lemma_width_monotonic(&self, g1: int, g2: int)
        requires
            self.n_scenarios >= 1,
            0 <= g1 <= g2,
        ensures
            self.width(g1) <= self.width(g2),
    {
        lemma_pow_increases(self.n_scenarios as nat, g1 as nat, g2 as nat);
    }

    pub proof fn lemma_offset_monotonic(&self, g1: int, g2: int)
        requires
            self.n_scenarios >= 1,
            self.stage_duration >= 1,
            0 <= g1 <= g2,
        ensures
            self.stage_offset(g1) <= self.stage_offset(g2),
        decreases g2 - g1,
    {
        if g1 < g2 {
            self.lemma_offset_monotonic(g1, g2 - 1);
            self.lemma_width_pos(g2 - 1);
            assert(self.l() * self.width(g2 - 1) >= 0) by (nonlinear_arith)
                requires
                    self.l() >= 1,
                    self.width(g2 - 1) >= 1,
            ;
        }
    }

    /// The flat positions of the stages lower-bounded: stage `g` starts at
    /// position `g * l` or later.
    pub proof fn lemma_offset_lower(&self, g: int)
        requires
            self.n_scenarios >= 1,
            self.stage_duration >= 1,
            0 <= g,
        ensures
            self.stage_offset(g) >= g * self.l(),
        decreases g,
    {
        if g > 0 {
            self.lemma_offset_lower(g - 1);
            self.lemma_width_pos(g - 1);
            assert(self.stage_offset(g) == self.stage_offset(g - 1) + self.l() * self.width(g - 1));
            assert(self.stage_offset(g - 1) + self.l() * self.width(g - 1) >= g * self.l())
                by (nonlinear_arith)
                requires
                    self.stage_offset(g - 1) >= (g - 1) * self.l(),
                    self.width(g - 1) >= 1,
                    self.l() >= 1,
            ;
        }
    }

    /// With a single scenario per stage the offsets are just multiples of
    /// the stage length.
    pub proof fn lemma_offset_b1(&self, g: int)
        requires
            self.n_scenarios == 1,
            0 <= g,
        ensures
            self.stage_offset(g) == g * self.l(),
        decreases g,
    {
        vstd::arithmetic::power::lemma1_pow(g as nat);
        if g > 0 {
            self.lemma_offset_b1(g - 1);
            vstd::arithmetic::power::lemma1_pow((g - 1) as nat);
            assert(self.stage_offset(g) == self.stage_offset(g - 1) + self.l() * self.width(g - 1));
            assert(self.width(g - 1) == 1);
            assert((g - 1) * self.l() + self.l() * 1 == g * self.l()) by (nonlinear_arith);
        }
    }

    /// The closed form of the stage offsets as a geometric sum.
    pub proof fn lemma_offset_closed_form(&self, g: int)
        requires
            self.n_scenarios >= 1,
            0 <= g,
        ensures
            (self.b() - 1) * self.stage_offset(g) == self.l() * (pow(self.b(), g as nat) - 1),
        decreases g,
    {
        if g == 0 {
            lemma_pow0(self.b());
        } else {
            self.lemma_offset_closed_form(g - 1);
            lemma_pow_adds(self.b(), 1, (g - 1) as nat);
            lemma_pow1(self.b());
            assert(pow(self.b(), g as nat) == self.b() * pow(self.b(), (g - 1) as nat));
            assert(self.stage_offset(g) == self.stage_offset(g - 1) + self.l() * self.width(g - 1));
            assert((self.b() - 1) * (self.stage_offset(g - 1) + self.l() * self.width(g - 1))
                == self.l() * (self.b() * pow(self.b(), (g - 1) as nat) - 1)) by (nonlinear_arith)
                requires
                    (self.b() - 1) * self.stage_offset(g - 1)
                        == self.l() * (pow(self.b(), (g - 1) as nat) - 1),
                    self.width(g - 1) == pow(self.b(), (g - 1) as nat),
            ;
        }
    }

    /// The whole grid fits in a `usize`-indexed array.
    pub proof fn lemma_total_count_bounds(&self)
        requires
            self.wf(),
        ensures
            self.total_time() <= self.total_count() <= usize::MAX as int,
            self.total_count() >= 0,
    {
        self.lemma_offset_lower(self.d() + 1);
        assert((self.d() + 1) * self.l() == self.l() * (self.d() + 1)) by (nonlinear_arith);
        if self.b() == 1 {
            self.lemma_offset_b1(self.d() + 1);
            assert((self.d() + 1) * self.l() == self.l() * (self.d() + 1)) by (nonlinear_arith);
        } else {
            self.lemma_offset_closed_form(self.d() + 1);
            lemma_pow_positive(self.b(), (self.d() + 1) as nat);
            assert(self.total_count() <= (self.b() - 1) * self.total_count()) by (nonlinear_arith)
                requires
                    self.b() >= 2,
                    self.total_count() >= 0,
            ;
        }
    }

    /// The depth bound forces `d + 1` to stay clear of the `usize` limit.
    pub proof fn lemma_depth_small(&self)
        requires
            self.size_ok(),
        ensures
            self.d() + 1 < usize::MAX as int,
    {
        assert(self.d() + 1 < usize::MAX as int) by (nonlinear_arith)
            requires
                (self.d() + 1) * (self.d() + 2) * (self.d() + 3) <= usize::MAX as int,
                self.d() >= 0,
        ;
    }

    /// A valid node's flat index lands inside its stage's window.
    pub proof fn lemma_flat_in_stage(&self, s: int, t: int)
        requires
            self.wf(),
            self.valid_node(s, t),
        ensures
            self.stage_offset(self.stage_at(t)) <= self.flat_index(s, t),
            self.flat_index(s, t) < self.stage_offset(self.stage_at(t) + 1),
            0 <= self.flat_index(s, t) < self.total_count(),
            0 <= self.stage_at(t) <= self.d(),
    {
        let g = self.stage_at(t);
        let w = self.width(g);
        let tau = t - g * self.l();
        lemma_fundamental_div_mod(t, self.l());
        assert(0 <= t % self.l() < self.l());
        assert(tau == t % self.l());
        self.lemma_width_pos(g);
        assert(w * tau + s >= 0 && w * tau + s < w * self.l()) by (nonlinear_arith)
            requires
                0 <= tau < self.l(),
                0 <= s < w,
                w >= 1,
        ;
        assert(self.stage_offset(g + 1) == self.stage_offset(g) + self.l() * w);
        assert(w * self.l() == self.l() * w) by (nonlinear_arith);
        // the stage is within the horizon
        assert(g <= self.d()) by {
            if g > self.d() {
                assert(t >= self.l() * g) by (nonlinear_arith)
                    requires
                        t == self.l() * g + tau,
                        tau >= 0,
                ;
                assert(self.l() * g >= self.l() * (self.d() + 1)) by (nonlinear_arith)
                    requires
                        g >= self.d() + 1,
                        self.l() >= 1,
                ;
                assert((self.d() + 1) * self.l() == self.l() * (self.d() + 1)) by (nonlinear_arith);
            }
        };
        assert(g >= 0) by {
            vstd::arithmetic::div_mod::lemma_div_pos_is_pos(t, self.l());
        };
        self.lemma_offset_monotonic(g + 1, self.d() + 1);
        self.lemma_offset_monotonic(0, g);
        self.lemma_total_count_bounds();
    }

    /// Law: no two distinct valid coordinates share a flat index.
    pub proof fn lemma_flat_index_injective(&self, s1: int, t1: int, s2: int, t2: int)
        requires
            self.wf(),
            self.valid_node(s1, t1),
            self.valid_node(s2, t2),
            self.flat_index(s1, t1) == self.flat_index(s2, t2),
        ensures
            s1 == s2 && t1 == t2,
    {
        let g1 = self.stage_at(t1);
        let g2 = self.stage_at(t2);
        self.lemma_flat_in_stage(s1, t1);
        self.lemma_flat_in_stage(s2, t2);
        if g1 < g2 {
            self.lemma_offset_monotonic(g1 + 1, g2);
            assert(false);
        }
        if g2 < g1 {
            self.lemma_offset_monotonic(g2 + 1, g1);
            assert(false);
        }
        let w = self.width(g1);
        let tau1 = t1 - g1 * self.l();
        let tau2 = t2 - g2 * self.l();
        let r = self.flat_index(s1, t1) - self.stage_offset(g1);
        self.lemma_width_pos(g1);
        lemma_fundamental_div_mod_converse(r, w, tau1, s1);
        lemma_fundamental_div_mod_converse(r, w, tau2, s2);
    }

    proof fn lemma_stage_decompose(&self, i: int, g: int)
        requires
            self.wf(),
            0 <= g <= self.d(),
            self.stage_offset(g) <= i < self.total_count(),
        ensures
            exists|s: int, t: int| self.valid_node(s, t) && self.flat_index(s, t) == i,
        decreases self.d() - g,
    {
        let w = self.width(g);
        self.lemma_width_pos(g);
        assert(self.stage_offset(g + 1) == self.stage_offset(g) + self.l() * w);
        if i < self.stage_offset(g + 1) {
            let r = i - self.stage_offset(g);
            let tau = r / w;
            let s = r % w;
            lemma_fundamental_div_mod(r, w);
            assert(0 <= s < w);
            assert(tau >= 0) by {
                vstd::arithmetic::div_mod::lemma_div_pos_is_pos(r, w);
            };
            assert(tau < self.l()) by (nonlinear_arith)
                requires
                    r == w * tau + s,
                    r < self.l() * w,
                    0 <= s < w,
                    w >= 1,
                    tau >= 0,
            ;
            let t = g * self.l() + tau;
            lemma_fundamental_div_mod_converse(t, self.l(), g, tau);
            assert(self.stage_at(t) == g);
            assert(t < self.total_time()) by (nonlinear_arith)
                requires
                    t == g * self.l() + tau,
                    tau < self.l(),
                    g <= self.d(),
                    self.l() >= 1,
                    self.total_time() == (self.d() + 1) * self.l(),
            ;
            assert(t >= 0) by (nonlinear_arith)
                requires
                    t == g * self.l() + tau,
                    tau >= 0,
                    g >= 0,
                    self.l() >= 1,
            ;
            assert(self.valid_node(s, t));
            assert(self.flat_index(s, t) == i);
        } else {
            assert(g < self.d()) by {
                if g == self.d() {
                    assert(self.stage_offset(g + 1) == self.total_count());
                }
            };
            self.lemma_stage_decompose(i, g + 1);
        }
    }

    /// Law: every flat position below the total count is the index of some
    /// valid node, so the indexing covers `[0, total_count)` exactly.
    pub proof fn lemma_flat_index_surjective(&self, i: int)
        requires
            self.wf(),
            0 <= i < self.total_count(),
        ensures
            exists|s: int, t: int| self.valid_node(s, t) && self.flat_index(s, t) == i,
    {
        self.lemma_stage_decompose(i, 0);
    }

    /// The first stage of a scenario index is characterised as the least
    /// stage wide enough to hold it.
    pub proof fn lemma_first_stage_char(&self, s: int)
        requires
            self.wf(),
            0 <= s < self.width(self.d()),
        ensures
            0 <= self.first_stage(s) <= self.d(),
            s < self.width(self.first_stage(s)),
            forall|g: int| 0 <= g < self.first_stage(s) ==> self.width(g) <= s,
    {
        self.lemma_stage_for_char(s, 0);
    }

    proof fn lemma_stage_for_char(&self, s: int, from: int)
        requires
            self.wf(),
            0 <= from <= self.d(),
            0 <= s < self.width(self.d()),
            forall|g: int| 0 <= g < from ==> self.width(g) <= s,
        ensures
            from <= self.stage_for(s, from) <= self.d(),
            s < self.width(self.stage_for(s, from)),
            forall|g: int| 0 <= g < self.stage_for(s, from) ==> self.width(g) <= s,
            self.stage_for(s, from) == self.first_stage(s),
        decreases self.d() + 1 - from,
    {
        if from >= self.d() || s < self.width(from) {
            assert(self.stage_for(s, from) == from);
        } else {
            self.lemma_stage_for_char(s, from + 1);
        }
        // the searched value does not depend on the starting point as long
        // as every earlier stage is too narrow
        assert(self.stage_for(s, from) == self.first_stage(s)) by {
            self.lemma_stage_for_shift(s, 0, from);
        };
    }

    proof fn lemma_stage_for_shift(&self, s: int, lo: int, hi: int)
        requires
            self.wf(),
            0 <= lo <= hi <= self.d(),
            forall|g: int| 0 <= g < hi ==> self.width(g) <= s,
            0 <= s,
        ensures
            self.stage_for(s, lo) == self.stage_for(s, hi),
        decreases hi - lo,
    {
        if lo < hi {
            assert(self.width(lo) <= s);
            assert(lo < self.d());
            self.lemma_stage_for_shift(s, lo + 1, hi);
        }
    }

    /// A node coordinate is valid exactly when its time step does not come
    /// before the scenario's branch-in time.
    pub proof fn lemma_valid_iff(&self, s: int, t: int)
        requires
            self.wf(),
            0 <= s < self.width(self.d()),
            self.valid_time(t),
        ensures
            self.valid_node(s, t) <==> self.stage_at(t) >= self.first_stage(s),
    {
        self.lemma_first_stage_char(s);
        let g = self.stage_at(t);
        lemma_fundamental_div_mod(t, self.l());
        assert(g >= 0) by {
            vstd::arithmetic::div_mod::lemma_div_pos_is_pos(t, self.l());
        };
        if g >= self.first_stage(s) {
            self.lemma_width_monotonic(self.first_stage(s), g);
        } else {
            assert(self.width(g) <= s);
        }
    }

    /// Computes `n_scenarios ^ e`.
    pub fn pow_exec(&self, e: usize) -> (r: usize)
        requires
            self.n_scenarios >= 1,
            pow(self.b(), e as nat) <= usize::MAX as int,
        ensures
            r as int == pow(self.b(), e as nat),
    {
        let mut r: usize = 1;
        let mut i: usize = 0;
        proof {
            lemma_pow0(self.b());
        }
        while i < e
            invariant
                0 <= i <= e,
                r as int == pow(self.b(), i as nat),
                self.n_scenarios >= 1,
                pow(self.b(), e as nat) <= usize::MAX as int,
            decreases e - i,
        {
            proof {
                lemma_pow_adds(self.b(), i as nat, 1);
                lemma_pow1(self.b());
                lemma_pow_increases(self.n_scenarios as nat, (i + 1) as nat, e as nat);
                lemma_pow_positive(self.b(), i as nat);
            }
            r = r * self.n_scenarios;
            i = i + 1;
        }
        r
    }

    /// Number of time steps in the whole horizon.
    pub fn total_time_exec(&self) -> (r: usize)
        requires
            self.wf(),
        ensures
            r as int == self.total_time(),
    {
        proof {
            self.lemma_depth_small();
        }
        (self.n_stages + 1) * self.stage_duration
    }

    /// Number of nodes in the whole tree.
    pub fn total_count_exec(&self) -> (r: usize)
        requires
            self.wf(),
        ensures
            r as int == self.total_count(),
    {
        proof {
            self.lemma_total_count_bounds();
            self.lemma_depth_small();
        }
        if self.n_scenarios != 1 {
            let p = self.pow_exec(self.n_stages + 1);
            proof {
                self.lemma_offset_closed_form(self.d() + 1);
                lemma_pow_positive(self.b(), (self.d() + 1) as nat);
                vstd::arithmetic::div_mod::lemma_div_multiples_vanish(
                    self.total_count(),
                    self.b() - 1,
                );
                assert((self.b() - 1) * self.total_count() == self.total_count() * (self.b() - 1))
                    by (nonlinear_arith);
            }
            self.stage_duration * (p - 1) / (self.n_scenarios - 1)
        } else {
            proof {
                self.lemma_offset_b1(self.d() + 1);
                assert((self.d() + 1) * self.l() == self.l() * (self.d() + 1)) by (nonlinear_arith);
            }
            self.stage_duration * (self.n_stages + 1)
        }
    }

    /// The arithmetic bijection from tree coordinates to flat positions:
    /// rejects a coordinate outside the tree, and otherwise returns the
    /// node's unique position in the canonical enumeration.
    pub fn tree_index(&self, s: usize, t: usize) -> (r: Result<usize, GridError>)
        requires
            self.wf(),
        ensures
            r is Ok <==> self.valid_node(s as int, t as int),
            r matches Ok(i) ==> i as int == self.flat_index(s as int, t as int),
            r matches Ok(i) ==> (i as int) < self.total_count(),
            r is Err ==> r == Err::<usize, GridError>(GridError::OutOfRange),
    {
        let total_time = self.total_time_exec();
        if t >= total_time {
            return Err(GridError::OutOfRange);
        }
        let stage = t / self.stage_duration;
        proof {
            lemma_fundamental_div_mod(t as int, self.l());
            assert(self.stage_at(t as int) <= self.d()) by {
                if self.stage_at(t as int) > self.d() {
                    assert((t as int) >= self.l() * self.stage_at(t as int)
                        >= self.l() * (self.d() + 1)) by (nonlinear_arith)
                        requires
                            t as int == self.l() * self.stage_at(t as int) + (t as int) % self.l(),
                            (t as int) % self.l() >= 0,
                            self.stage_at(t as int) >= self.d() + 1,
                            self.l() >= 1,
                    ;
                    assert((self.d() + 1) * self.l() == self.l() * (self.d() + 1))
                        by (nonlinear_arith);
                }
            };
            self.lemma_width_monotonic(self.stage_at(t as int), self.d() + 1);
        }
        let scenario = self.pow_exec(stage);
        if s >= scenario {
            return Err(GridError::OutOfRange);
        }
        proof {
            self.lemma_flat_in_stage(s as int, t as int);
            self.lemma_total_count_bounds();
        }
        if self.n_scenarios != 1 {
            proof {
                self.lemma_offset_closed_form(stage as int);
                lemma_pow_positive(self.b(), stage as nat);
                vstd::arithmetic::div_mod::lemma_div_multiples_vanish(
                    self.stage_offset(stage as int),
                    self.b() - 1,
                );
                assert((self.b() - 1) * self.stage_offset(stage as int)
                    == self.stage_offset(stage as int) * (self.b() - 1)) by (nonlinear_arith);
                assert(self.l() * (self.width(stage as int) - 1)
                    <= self.l() * (pow(self.b(), (self.d() + 1) as nat) - 1)) by (nonlinear_arith)
                    requires
                        self.width(stage as int) <= pow(self.b(), (self.d() + 1) as nat),
                        self.l() >= 1,
                ;
                self.lemma_width_monotonic(stage as int, self.d() + 1);
            }
            let offset = self.stage_duration * (scenario - 1) / (self.n_scenarios - 1);
            Ok(scenario * (t - stage * self.stage_duration) + s + offset)
        } else {
            proof {
                self.lemma_offset_b1(stage as int);
                assert(self.width(stage as int) == 1) by {
                    vstd::arithmetic::power::lemma1_pow(stage as nat);
                };
                assert(1 * (t - stage * self.l()) + s + stage * self.l() == t as int)
                    by (nonlinear_arith)
                    requires
                        s == 0,
                ;
                assert(self.stage_offset(stage as int) == (stage as int) * self.l());
            }
            Ok(t)
        }
    }

    /// The first stage at which scenario index `s` exists.
    pub fn first_stage_exec(&self, s: usize) -> (r: usize)
        requires
            self.wf(),
            (s as int) < self.width(self.d()),
        ensures
            r as int == self.first_stage(s as int),
    {
        let mut g: usize = 0;
        let mut w: usize = 1;
        proof {
            lemma_pow0(self.b());
            self.lemma_width_monotonic(0, self.d());
            self.lemma_width_monotonic(self.d(), self.d() + 1);
        }
        loop
            invariant
                self.wf(),
                (s as int) < self.width(self.d()),
                0 <= g as int <= self.d(),
                w as int == self.width(g as int),
                self.stage_for(s as int, g as int) == self.first_stage(s as int),
                forall|g2: int| 0 <= g2 < g as int ==> self.width(g2) <= s as int,
            decreases self.d() - g as int,
        {
            if g >= self.n_stages || s < w {
                proof {
                    assert(self.stage_for(s as int, g as int) == g as int);
                }
                return g;
            }
            proof {
                lemma_pow_adds(self.b(), g as nat, 1);
                lemma_pow1(self.b());
                self.lemma_width_monotonic(g as int + 1, self.d());
                self.lemma_width_monotonic(self.d(), self.d() + 1);
                assert(self.stage_for(s as int, g as int)
                    == self.stage_for(s as int, g as int + 1));
            }
            w = w * self.n_scenarios;
            g = g + 1;
        }
    }

    /// The first time step at which scenario index `s` names a node.
    pub fn branch_time_exec(&self, s: usize) -> (r: usize)
        requires
            self.wf(),
            (s as int) < self.width(self.d()),
        ensures
            r as int == self.branch_time(s as int),
            0 <= r as int <= self.total_time(),
    {
        let g = self.first_stage_exec(s);
        proof {
            self.lemma_first_stage_char(s as int);
            assert(self.l() * (g as int) <= self.l() * (self.d() + 1)) by (nonlinear_arith)
                requires
                    0 <= g as int <= self.d() + 1,
                    self.l() >= 1,
            ;
            assert((self.d() + 1) * self.l() == self.l() * (self.d() + 1)) by (nonlinear_arith);
            self.lemma_total_count_bounds();
        }
        self.stage_duration * g
    }
}

/// Exactly when `a * b` stays within `m`, for a positive factor.
proof fn lemma_mul_le_via_div(a: int, b: int, m: int)
    requires
        a >= 0,
        b >= 1,
        m >= 0,
    ensures
        (a * b <= m) <==> (a <= m / b),
{
    if a * b <= m {
        vstd::arithmetic::div_mod::lemma_div_multiples_vanish(a, b);
        vstd::arithmetic::div_mod::lemma_div_is_ordered(a * b, m, b);
    }
    if a <= m / b {
        vstd::arithmetic::div_mod::lemma_fundamental_div_mod(m, b);
        vstd::arithmetic::div_mod::lemma_mod_bound(m, b);
        assert(a * b <= m) by (nonlinear_arith)
            requires
                a <= m / b,
                b >= 1,
                m == b * (m / b) + m % b,
                m % b >= 0,
        ;
    }
}

impl TreeShape {
    /// Whether this shape is supported on this machine: a non-degenerate
    /// configuration whose grid and sampling arithmetic fits in `usize`.
    #[verifier::loop_isolation(false)]
    pub fn supported(&self) -> (r: bool)
        ensures
            r == self.wf(),
    {
        let d = self.n_stages;
        let b = self.n_scenarios;
        let l = self.stage_duration;
        let max: usize = usize::MAX;
        if b == 0 || l == 0 {
            return false;
        }
        if d >= max - 3 {
            proof {
                assert((d as int + 1) * (d as int + 2) * (d as int + 3) > max as int)
                    by (nonlinear_arith)
                    requires
                        d as int >= max as int - 3,
                        max as int >= 4,
                ;
            }
            return false;
        }
        proof {
            lemma_mul_le_via_div(d as int + 1, d as int + 2, max as int);
        }
        if (d + 1) > max / (d + 2) {
            proof {
                assert((d as int + 1) * (d as int + 2) * (d as int + 3) > max as int)
                    by (nonlinear_arith)
                    requires
                        (d as int + 1) * (d as int + 2) > max as int,
                        d as int + 3 >= 1,
                ;
            }
            return false;
        }
        let p12 = (d + 1) * (d + 2);
        proof {
            lemma_mul_le_via_div(p12 as int, d as int + 3, max as int);
        }
        if p12 > max / (d + 3) {
            return false;
        }
        let p123 = p12 * (d + 3);
        proof {
            lemma_mul_le_via_div(l as int, d as int + 1, max as int);
        }
        if l > max / (d + 1) {
            proof {
                assert(self.l() * (self.d() + 1) > max as int) by (nonlinear_arith)
                    requires
                        self.l() * (self.d() + 1) == (self.d() + 1) * self.l(),
                        (self.d() + 1) * self.l() > max as int,
                ;
            }
            return false;
        }
        let q = p123 / 6;
        proof {
            assert(p123 >= 6) by (nonlinear_arith)
                requires
                    p123 as int == (d as int + 1) * (d as int + 2) * (d as int + 3),
                    d as int >= 0,
            ;
            vstd::arithmetic::div_mod::lemma_div_is_ordered(6, p123 as int, 6);
            lemma_mul_le_via_div(l as int, q as int, max as int);
        }
        if l > max / q {
            proof {
                assert(self.l() * (q as int) > max as int ==> self.l() * ((self.d() + 1) * (self.d()
                    + 2) * (self.d() + 3) / 6) > max as int) by (nonlinear_arith)
                    requires
                        q as int == (self.d() + 1) * (self.d() + 2) * (self.d() + 3) / 6,
                ;
            }
            return false;
        }
        // the widest stage's scenario count
        let mut p: usize = 1;
        let mut i: usize = 0;
        proof {
            lemma_pow0(self.b());
        }
        while i < d + 1
            invariant
                0 <= i <= d as int + 1,
                p as int == pow(self.b(), i as nat),
                self.n_scenarios >= 1,
            decreases d + 1 - i,
        {
            proof {
                lemma_mul_le_via_div(p as int, b as int, max as int);
                lemma_pow_adds(self.b(), i as nat, 1);
                lemma_pow1(self.b());
                lemma_pow_positive(self.b(), i as nat);
            }
            if p > max / b {
                proof {
                    lemma_pow_increases(b as nat, (i + 1) as nat, (d + 1) as nat);
                }
                return false;
            }
            p = p * b;
            i = i + 1;
        }
        if p >= 2 {
            proof {
                lemma_mul_le_via_div(l as int, p as int - 1, max as int);
            }
            if l > max / (p - 1) {
                proof {
                    assert(self.l() * (p as int - 1) > max as int ==> self.l() * (pow(
                        self.b(),
                        (self.d() + 1) as nat,
                    ) - 1) > max as int) by (nonlinear_arith)
                        requires
                            p as int == pow(self.b(), (self.d() + 1) as nat),
                    ;
                }
                return false;
            }
        }
        proof {
            assert(self.l() * (pow(self.b(), (self.d() + 1) as nat) - 1) <= max as int) by {
                if p < 2 {
                    assert(self.l() * (p as int - 1) <= 0) by (nonlinear_arith)
                        requires
                            p as int - 1 <= 0,
                            self.l() >= 1,
                    ;
                }
            };
        }
        true
    }
}

} // verus!
