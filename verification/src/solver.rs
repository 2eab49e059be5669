//! The constraint-propagation solver: a grid, an ordered list of
//! constraints, the fixed set of allowed tile types, and a per-cell cache of
//! legal values.

use rand::RngCore;
use vstd::prelude::*;
use vstd::pervasive::unreached;
use crate::constraint::{
    check_ok, legal_pred, lemma_filter_singleton, lemma_take_one_more, neighbor_coord, table_has,
    table_wf, GridConstraint, RuleView,
};
use crate::dirs::{offset_dx, offset_dy};
use crate::grid::{lemma_index_bound, lemma_index_injective, Grid, GridView, UNDETERMINED};

verus! {

/// How many cells of the sequence are `UNDETERMINED`.
pub open spec fn count_undet(c: Seq<i32>) -> nat
    decreases c.len(),
{
    if c.len() == 0 {
        0
    } else {
        count_undet(c.drop_last()) + if c.last() == UNDETERMINED {
            1nat
        } else {
            0nat
        }
    }
}

/// `g2` extends `g1`: same dimensions, and every cell already determined in
/// `g1` keeps its value in `g2`.
pub open spec fn grid_refines(g1: GridView, g2: GridView) -> bool {
    &&& g1.height == g2.height
    &&& g1.width == g2.width
    &&& g1.cells.len() == g2.cells.len()
    &&& forall|idx: int|
        0 <= idx < g1.cells.len() && (#[trigger] g1.cells[idx]) != UNDETERMINED
            ==> g2.cells[idx] == g1.cells[idx]
}

/// `(x2, y2)` lies in the 8-neighborhood of `(x, y)` or is `(x, y)` itself.
pub open spec fn in_nbhd(x: int, y: int, x2: int, y2: int) -> bool {
    -1 <= x2 - x <= 1 && -1 <= y2 - y <= 1
}

/// A value passes the check of every registered constraint — the logical AND
/// of the constraint list.
pub open spec fn all_pass(tables: Seq<Seq<RuleView>>, g: GridView, v: i32, x: int, y: int) -> bool {
    forall|k: int| 0 <= k < tables.len() ==> check_ok(#[trigger] tables[k], g, v, x, y)
}

/// The predicate "passes every constraint at `(x, y)`", as a function of the
/// candidate value.
pub open spec fn all_pred(tables: Seq<Seq<RuleView>>, g: GridView, x: int, y: int) -> spec_fn(
    i32,
) -> bool {
    |v: i32| all_pass(tables, g, v, x, y)
}

/// How a value is chosen for a cell being collapsed. The two entropy-guided
/// strategies are reserved for future heuristics and not implemented:
/// invoking them is a caller error, excluded by contract.
#[derive(Debug)]
pub enum SelectionStrategy {
    /// Uniform choice among the cell's legal values.
    PurelyRandom,
    /// Choice weighted by an externally supplied `(value, weight)` list,
    /// proportional to weight over total weight.
    FromDistribution { distribution: Vec<(i32, u64)> },
    MinimizeEntropy,
    MaximizeEntropy,
}

/// The sum of the weights of a distribution.
pub open spec fn total_weight(d: Seq<(i32, u64)>) -> int
    decreases d.len(),
{
    if d.len() == 0 {
        0
    } else {
        total_weight(d.drop_last()) + d.last().1
    }
}

impl SelectionStrategy {
    /// The strategy is implemented and its parameters make sense: a weighted
    /// distribution must have a positive total weight that fits a `u64`.
    pub open spec fn usable(&self) -> bool {
        match self {
            SelectionStrategy::PurelyRandom => true,
            SelectionStrategy::FromDistribution { distribution } => 0 < total_weight(
                distribution@,
            ) <= u64::MAX,
            SelectionStrategy::MinimizeEntropy => false,
            SelectionStrategy::MaximizeEntropy => false,
        }
    }

    /// Every value the strategy can hand out is an allowed tile type —
    /// forcing a foreign value into the grid is a fatal caller error.
    pub open spec fn draws_from(&self, states: Seq<i32>) -> bool {
        match self {
            SelectionStrategy::FromDistribution { distribution } => forall|i: int|
                0 <= i < distribution@.len() ==> states.contains(
                    (#[trigger] distribution@[i]).0,
                ),
            _ => true,
        }
    }
}

/// `(x, y)` is the first cell in scan order — rows top to bottom, left to
/// right within a row — among the undetermined cells with the fewest legal
/// values.
pub open spec fn first_lowest_entropy(s: SolverView, x: int, y: int) -> bool {
    &&& s.grid.in_bounds(x, y)
    &&& s.grid.cell(x, y) == UNDETERMINED
    &&& forall|x2: int, y2: int|
        #![trigger s.grid.cell(x2, y2)]
        s.grid.in_bounds(x2, y2) && s.grid.cell(x2, y2) == UNDETERMINED ==> s.legal_at(
            x2, y2,
        ).len() >= s.legal_at(x, y).len()
    &&& forall|x2: int, y2: int|
        #![trigger s.grid.cell(x2, y2)]
        s.grid.in_bounds(x2, y2) && s.grid.cell(x2, y2) == UNDETERMINED && (y2 < y || (y2 == y
            && x2 < x)) ==> s.legal_at(x2, y2).len() > s.legal_at(x, y).len()
}

/// `(x2, y2)` lies in the closed 8-neighborhood of `(x, y)` or of some cell
/// whose value differs between the baseline grid `g0` and `g` — the cells a
/// propagation wave from `(x, y)` could have narrowed.
pub open spec fn near_change(g0: GridView, g: GridView, x: int, y: int, x2: int, y2: int) -> bool {
    ||| in_nbhd(x, y, x2, y2)
    ||| exists|cx: int, cy: int|
        #![trigger in_nbhd(cx, cy, x2, y2)]
        g.in_bounds(cx, cy) && g.cell(cx, cy) != g0.cell(cx, cy) && in_nbhd(cx, cy, x2, y2)
}

/// The propagation wave from `(x, y)` over baseline `g0` has run to
/// completion in `s`: every cell still undetermined that the wave could have
/// narrowed — it neighbors the written cell or some changed cell — keeps at
/// least two legal values, so no further collapse is forced.
pub open spec fn wave_settled(g0: GridView, s: SolverView, x: int, y: int) -> bool {
    forall|x2: int, y2: int|
        #![trigger s.legal_at(x2, y2)]
        s.grid.in_bounds(x2, y2) && s.grid.cell(x2, y2) == UNDETERMINED && near_change(
            g0, s.grid, x, y, x2, y2,
        ) ==> s.legal_at(x2, y2).len() >= 2
}

/// No collapse is forced anywhere: every undetermined cell keeps at least
/// two legal values.
pub open spec fn at_fixpoint(s: SolverView) -> bool {
    forall|x2: int, y2: int|
        #[trigger] s.grid.in_bounds(x2, y2) && s.grid.cell(x2, y2) == UNDETERMINED
            ==> s.legal_at(x2, y2).len() >= 2
}

/// Some refinement of the solver's grid — reachable by determining more
/// cells, constraints and allowed states unchanged — holds an undetermined
/// cell with zero legal values.
pub open spec fn contradiction_reachable(s: SolverView) -> bool {
    exists|g2: GridView, x2: int, y2: int|
        #![trigger legal_of(s.tables, s.states, g2, x2, y2)]
        grid_refines(s.grid, g2) && g2.in_bounds(x2, y2) && g2.cell(x2, y2) == UNDETERMINED
            && legal_of(s.tables, s.states, g2, x2, y2).len() == 0
}

/// The worklist holds the coordinates `(x2, y2)`.
pub open spec fn queued(q: Seq<(usize, usize)>, x2: int, y2: int) -> bool {
    exists|i: int| 0 <= i < q.len() && (#[trigger] q[i]).0 == x2 && q[i].1 == y2
}

/// Popping the last worklist entry keeps every other coordinate queued.
proof fn lemma_queued_after_pop(q: Seq<(usize, usize)>, x2: int, y2: int)
    requires
        queued(q, x2, y2),
        q.len() > 0,
        !(q.last().0 == x2 && q.last().1 == y2),
    ensures
        queued(q.drop_last(), x2, y2),
{
    let i = choose|i: int| 0 <= i < q.len() && (#[trigger] q[i]).0 == x2 && q[i].1 == y2;
    assert(i < q.len() - 1);
    assert(q.drop_last()[i] == q[i]);
}

/// Extending the worklist keeps every queued coordinate queued.
proof fn lemma_queued_extend(q1: Seq<(usize, usize)>, q2: Seq<(usize, usize)>, x2: int, y2: int)
    requires
        queued(q1, x2, y2),
        q1.len() <= q2.len(),
        forall|k: int| 0 <= k < q1.len() ==> q2[k] == q1[k],
    ensures
        queued(q2, x2, y2),
{
    let i = choose|i: int| 0 <= i < q1.len() && (#[trigger] q1[i]).0 == x2 && q1[i].1 == y2;
    assert(q2[i] == q1[i]);
}

/// A write outside the 8-neighborhood of `(x2, y2)` leaves its legal values
/// unchanged.
proof fn lemma_legal_far_write(
    s1: SolverView,
    s2: SolverView,
    cx: int,
    cy: int,
    v: i32,
    x2: int,
    y2: int,
)
    requires
        s1.grid.wf(),
        s2.tables == s1.tables,
        s2.states == s1.states,
        s1.grid.in_bounds(cx, cy),
        s2.grid == s1.grid.set_cell(cx, cy, v),
        s1.grid.in_bounds(x2, y2),
        !in_nbhd(cx, cy, x2, y2),
    ensures
        s2.legal_at(x2, y2) == s1.legal_at(x2, y2),
{
    let w = s1.grid.width as int;
    let h = s1.grid.height as int;
    lemma_index_bound(cx, cy, w, h);
    assert forall|i: int| 0 <= i < 8 implies {
        let nx = x2 + #[trigger] offset_dx(i);
        let ny = y2 + offset_dy(i);
        s1.grid.in_bounds(nx, ny) ==> s1.grid.cell(nx, ny) == s2.grid.cell(nx, ny)
    } by {
        let nx = x2 + offset_dx(i);
        let ny = y2 + offset_dy(i);
        if s1.grid.in_bounds(nx, ny) {
            lemma_index_bound(nx, ny, w, h);
            if ny * w + nx == cy * w + cx {
                lemma_index_injective(nx, ny, cx, cy, w);
                assert(in_nbhd(cx, cy, x2, y2));
                assert(false);
            }
        }
    }
    lemma_legal_at_local(s1, s2, x2, y2);
}

/// The value the strategy may pick at `(x, y)`: one of the cell's legal
/// values for the uniform strategy, a positive-weight entry of the list for
/// the weighted one.
pub open spec fn picked(mode: SelectionStrategy, s: SolverView, x: int, y: int, v: i32) -> bool {
    match mode {
        SelectionStrategy::PurelyRandom => s.legal_at(x, y).contains(v),
        SelectionStrategy::FromDistribution { distribution } => exists|i: int|
            0 <= i < distribution@.len() && (#[trigger] distribution@[i]).0 == v
                && distribution@[i].1 > 0,
        _ => false,
    }
}

/// Relies on `rand::thread_rng` and `RngCore::next_u64` for one draw from
/// the thread-local generator; nothing is promised of the value.
#[verifier::external_body]
fn random_u64() -> u64 {
    rand::thread_rng().next_u64()
}

/// Taking one more entry adds exactly its weight.
pub proof fn lemma_prefix_weight_step(d: Seq<(i32, u64)>, i: int)
    requires
        0 <= i < d.len(),
    ensures
        total_weight(d.take(i + 1)) == total_weight(d.take(i)) + d[i].1,
{
    assert(d.take(i + 1).drop_last() =~= d.take(i));
    assert(d.take(i + 1).last() == d[i]);
}

/// No prefix outweighs the whole list.
pub proof fn lemma_prefix_weight_le(d: Seq<(i32, u64)>, i: int)
    requires
        0 <= i <= d.len(),
    ensures
        total_weight(d.take(i)) <= total_weight(d),
    decreases d.len() - i,
{
    if i == d.len() {
        assert(d.take(i) =~= d);
    } else {
        lemma_prefix_weight_step(d, i);
        lemma_prefix_weight_le(d, i + 1);
    }
}

/// The total weight of a weighted list.
pub fn sum_weights(distribution: &Vec<(i32, u64)>) -> (total: u64)
    requires
        total_weight(distribution@) <= u64::MAX,
    ensures
        total == total_weight(distribution@),
{
    let mut total: u64 = 0;
    let mut i: usize = 0;
    while i < distribution.len()
        invariant
            i <= distribution@.len(),
            total == total_weight(distribution@.take(i as int)),
            total_weight(distribution@) <= u64::MAX,
        decreases distribution@.len() - i,
    {
        proof {
            lemma_prefix_weight_step(distribution@, i as int);
            lemma_prefix_weight_le(distribution@, i + 1);
        }
        total = total + distribution[i].1;
        i = i + 1;
    }
    proof {
        assert(distribution@.take(distribution@.len() as int) =~= distribution@);
    }
    total
}

/// Picks the entry where the running prefix sum of weights first exceeds
/// `roll` — the unique entry whose half-open weight interval contains the
/// roll — so each entry is chosen with probability proportional to its
/// weight; the chosen entry always has positive weight.
pub fn pick_from_distribution(distribution: &Vec<(i32, u64)>, roll: u64) -> (v: i32)
    requires
        0 < total_weight(distribution@) <= u64::MAX,
        roll < total_weight(distribution@),
    ensures
        exists|k: int|
            #![trigger distribution@[k]]
            {
                &&& 0 <= k < distribution@.len()
                &&& v == distribution@[k].0
                &&& total_weight(distribution@.take(k)) <= roll < total_weight(
                    distribution@.take(k + 1),
                )
            },
        exists|i: int|
            0 <= i < distribution@.len() && (#[trigger] distribution@[i]).0 == v
                && distribution@[i].1 > 0,
{
    let mut idx: usize = 0;
    let mut base: u64 = 0;
    while idx < distribution.len()
        invariant
            idx <= distribution@.len(),
            base == total_weight(distribution@.take(idx as int)),
            base <= roll,
            roll < total_weight(distribution@),
            total_weight(distribution@) <= u64::MAX,
        decreases distribution@.len() - idx,
    {
        proof {
            lemma_prefix_weight_step(distribution@, idx as int);
            lemma_prefix_weight_le(distribution@, idx + 1);
        }
        let w = distribution[idx].1;
        if base + w > roll {
            proof {
                assert(w > 0);
                assert(total_weight(distribution@.take(idx as int)) <= roll < total_weight(
                    distribution@.take(idx + 1),
                ));
            }
            return distribution[idx].0;
        }
        base = base + w;
        idx = idx + 1;
    }
    proof {
        assert(distribution@.take(idx as int) =~= distribution@);
    }
    unreached()
}

/// The legal values at `(x, y)` of grid `g` under the given constraint
/// tables: the allowed tile types that pass every constraint against the
/// grid's current neighbor contents, in the order of the allowed-states list.
pub open spec fn legal_of(
    tables: Seq<Seq<RuleView>>,
    states: Seq<i32>,
    g: GridView,
    x: int,
    y: int,
) -> Seq<i32> {
    states.filter(all_pred(tables, g, x, y))
}

/// The mathematical content of a solver: the grid, one border table per
/// registered constraint, the allowed tile types, and the memoized legal
/// values per cell (row-major, `None` where not cached).
pub ghost struct SolverView {
    pub grid: GridView,
    pub tables: Seq<Seq<RuleView>>,
    pub states: Seq<i32>,
    pub cache: Seq<Option<Seq<i32>>>,
}

impl SolverView {
    /// The legal values at `(x, y)` of the solver's own grid.
    pub open spec fn legal_at(self, x: int, y: int) -> Seq<i32> {
        legal_of(self.tables, self.states, self.grid, x, y)
    }

    /// Allowed tile types are tile types, not the sentinel, and are listed
    /// once each.
    pub open spec fn states_ok(self) -> bool {
        &&& forall|i: int| 0 <= i < self.states.len() ==> #[trigger] self.states[i] >= 0
        &&& forall|i: int, j: int|
            0 <= i < self.states.len() && 0 <= j < self.states.len() && i != j
                ==> self.states[i] != self.states[j]
    }

    /// Every constraint is a well-formed table that registers every allowed
    /// tile type.
    pub open spec fn tables_ok(self) -> bool {
        &&& forall|k: int| 0 <= k < self.tables.len() ==> table_wf(#[trigger] self.tables[k])
        &&& forall|k: int, i: int|
            #![trigger self.tables[k], self.states[i]]
            0 <= k < self.tables.len() && 0 <= i < self.states.len()
                ==> table_has(self.tables[k], self.states[i])
    }

    /// Every determined cell holds an allowed tile type.
    pub open spec fn cells_ok(self) -> bool {
        forall|idx: int|
            0 <= idx < self.grid.cells.len() && (#[trigger] self.grid.cells[idx]) != UNDETERMINED
                ==> self.states.contains(self.grid.cells[idx])
    }

    /// Every cached entry equals the legal values freshly recomputed from the
    /// grid's current contents — the cache is never stale.
    pub open spec fn cache_ok(self) -> bool {
        &&& self.cache.len() == self.grid.cells.len()
        &&& forall|x: int, y: int|
            #[trigger] self.grid.in_bounds(x, y) ==> match self.cache[y * self.grid.width + x] {
                Some(v) => v == self.legal_at(x, y),
                None => true,
            }
    }

    pub open spec fn wf(self) -> bool {
        &&& self.grid.wf()
        &&& self.states_ok()
        &&& self.tables_ok()
        &&& self.cells_ok()
        &&& self.cache_ok()
    }

    /// Every cell of the grid — undetermined cells vacuously — satisfies
    /// every constraint against its current neighbors.
    pub open spec fn state_valid(self) -> bool {
        forall|x: int, y: int|
            #[trigger] self.grid.in_bounds(x, y)
                ==> all_pass(self.tables, self.grid, self.grid.cell(x, y), x, y)
    }

    /// The solver's core: everything but the cache.
    pub open spec fn same_core(self, other: SolverView) -> bool {
        self.grid == other.grid && self.tables == other.tables && self.states == other.states
    }
}

/// Law (cache coherence): under the solver invariant, a cached entry for any
/// cell always equals the legal values recomputed fresh from the grid's
/// current contents.
pub proof fn lemma_cache_coherence(s: SolverView, x: int, y: int)
    requires
        s.wf(),
        s.grid.in_bounds(x, y),
    ensures
        match s.cache[y * s.grid.width + x] {
            Some(v) => v == s.legal_at(x, y),
            None => true,
        },
{
}

/// A solver owning one grid, an ordered list of constraints (all must pass),
/// the fixed set of allowed tile types, and a per-cell legal-value cache.
#[derive(Debug)]
pub struct ConstraintSolver {
    grid: Grid,
    constraints: Vec<GridConstraint>,
    allowed_states: Vec<i32>,
    cache: Vec<Option<Vec<i32>>>,
}

impl View for ConstraintSolver {
    type V = SolverView;

    closed spec fn view(&self) -> SolverView {
        SolverView {
            grid: self.grid@,
            tables: self.constraints@.map_values(|c: GridConstraint| c@),
            states: self.allowed_states@,
            cache: self.cache@.map_values(
                |o: Option<Vec<i32>>|
                    match o {
                        Some(v) => Some(v@),
                        None => None,
                    },
            ),
        }
    }
}

/// A cache with no entries.
fn empty_cache(total: usize) -> (c: Vec<Option<Vec<i32>>>)
    ensures
        c@.len() == total,
        forall|idx: int| 0 <= idx < total ==> (#[trigger] c@[idx]) is None,
{
    let mut c: Vec<Option<Vec<i32>>> = Vec::new();
    let mut n: usize = 0;
    while n < total
        invariant
            n <= total,
            c@.len() == n,
            forall|idx: int| 0 <= idx < n ==> (#[trigger] c@[idx]) is None,
        decreases total - n,
    {
        c.push(None);
        n = n + 1;
    }
    c
}

impl ConstraintSolver {
    /// A solver over an all-undetermined grid with no constraints yet.
    pub fn new(height: usize, width: usize, allowed_states: Vec<i32>) -> (s: ConstraintSolver)
        requires
            height * width <= usize::MAX,
            forall|i: int| 0 <= i < allowed_states@.len() ==> #[trigger] allowed_states@[i] >= 0,
            forall|i: int, j: int|
                0 <= i < allowed_states@.len() && 0 <= j < allowed_states@.len() && i != j
                    ==> allowed_states@[i] != allowed_states@[j],
        ensures
            s@.wf(),
            s@.grid.height == height,
            s@.grid.width == width,
            forall|idx: int| 0 <= idx < s@.grid.cells.len() ==> s@.grid.cells[idx] == UNDETERMINED,
            s@.tables.len() == 0,
            s@.states == allowed_states@,
    {
        let grid = Grid::new(height, width);
        let total = height * width;
        let cache = empty_cache(total);
        let s = ConstraintSolver { grid, constraints: Vec::new(), allowed_states, cache };
        proof {
            assert(s@.tables =~= Seq::<Seq<RuleView>>::empty());
            assert forall|x2: int, y2: int| #[trigger]
                s@.grid.in_bounds(x2, y2) implies s@.cache[y2 * s@.grid.width + x2] is None by {
                lemma_index_bound(x2, y2, s@.grid.width as int, s@.grid.height as int);
            }
        }
        s
    }

    /// A solver over an all-undetermined grid with the given constraints.
    pub fn new_with_constraints(
        height: usize,
        width: usize,
        allowed_states: Vec<i32>,
        constraints: Vec<GridConstraint>,
    ) -> (s: ConstraintSolver)
        requires
            height * width <= usize::MAX,
            forall|i: int| 0 <= i < allowed_states@.len() ==> #[trigger] allowed_states@[i] >= 0,
            forall|i: int, j: int|
                0 <= i < allowed_states@.len() && 0 <= j < allowed_states@.len() && i != j
                    ==> allowed_states@[i] != allowed_states@[j],
            forall|k: int| 0 <= k < constraints@.len() ==> (#[trigger] constraints@[k]).wf(),
            forall|k: int, i: int|
                #![trigger constraints@[k], allowed_states@[i]]
                0 <= k < constraints@.len() && 0 <= i < allowed_states@.len()
                    ==> table_has(constraints@[k]@, allowed_states@[i]),
        ensures
            s@.wf(),
            s@.grid.height == height,
            s@.grid.width == width,
            forall|idx: int| 0 <= idx < s@.grid.cells.len() ==> s@.grid.cells[idx] == UNDETERMINED,
            s@.tables == constraints@.map_values(|c: GridConstraint| c@),
            s@.states == allowed_states@,
    {
        let grid = Grid::new(height, width);
        let total = height * width;
        let cache = empty_cache(total);
        let s = ConstraintSolver { grid, constraints, allowed_states, cache };
        proof {
            assert forall|k: int| 0 <= k < s@.tables.len() implies table_wf(
                #[trigger] s@.tables[k],
            ) by {
                assert(s@.tables[k] == s.constraints@[k]@);
            }
            assert forall|k: int, i: int|
                #![trigger s@.tables[k], s@.states[i]]
                0 <= k < s@.tables.len() && 0 <= i < s@.states.len() implies table_has(
                s@.tables[k],
                s@.states[i],
            ) by {
                assert(s@.tables[k] == s.constraints@[k]@);
            }
            assert forall|x2: int, y2: int| #[trigger]
                s@.grid.in_bounds(x2, y2) implies s@.cache[y2 * s@.grid.width + x2] is None by {
                lemma_index_bound(x2, y2, s@.grid.width as int, s@.grid.height as int);
            }
        }
        s
    }

    /// The solver's grid — the output of a collapse run.
    pub fn grid(&self) -> (g: &Grid)
        ensures
            g@ == self@.grid,
    {
        &self.grid
    }

    /// Whether the allowed tile type `test_value` passes every registered
    /// constraint at `(x, y)` against the grid's current contents.
    pub fn check_collapse_allowed(&self, x: usize, y: usize, test_value: i32) -> (r: bool)
        requires
            self@.wf(),
            x < self@.grid.width,
            y < self@.grid.height,
        ensures
            r == all_pass(self@.tables, self@.grid, test_value, x as int, y as int),
    {
        let mut k: usize = 0;
        while k < self.constraints.len()
            invariant
                self@.wf(),
                x < self@.grid.width,
                y < self@.grid.height,
                k <= self.constraints@.len(),
                self@.tables == self.constraints@.map_values(|c: GridConstraint| c@),
                forall|k2: int|
                    0 <= k2 < k ==> check_ok(
                        #[trigger] self@.tables[k2], self@.grid, test_value, x as int, y as int,
                    ),
            decreases self.constraints@.len() - k,
        {
            proof {
                assert(self@.tables[k as int] == self.constraints@[k as int]@);
                lemma_wf_neighbors_known(self@, k as int, x as int, y as int);
            }
            if !self.constraints[k].check_constraint(&self.grid, test_value, x, y) {
                return false;
            }
            k = k + 1;
        }
        true
    }

    /// Whether every cell of the grid still satisfies every constraint — the
    /// final sanity check after a batch of collapses.
    pub fn is_state_valid(&self) -> (r: bool)
        requires
            self@.wf(),
        ensures
            r == self@.state_valid(),
    {
        let height = self.grid.height();
        let width = self.grid.width();
        let mut y: usize = 0;
        while y < height
            invariant
                self@.wf(),
                height == self@.grid.height,
                width == self@.grid.width,
                y <= height,
                forall|x2: int, y2: int|
                    #![trigger self@.grid.cell(x2, y2)]
                    0 <= x2 < width && 0 <= y2 < y ==> all_pass(
                        self@.tables, self@.grid, self@.grid.cell(x2, y2), x2, y2,
                    ),
            decreases height - y,
        {
            let mut x: usize = 0;
            while x < width
                invariant
                    self@.wf(),
                    height == self@.grid.height,
                    width == self@.grid.width,
                    y < height,
                    x <= width,
                    forall|x2: int, y2: int|
                        #![trigger self@.grid.cell(x2, y2)]
                        0 <= x2 < width && 0 <= y2 < y ==> all_pass(
                            self@.tables, self@.grid, self@.grid.cell(x2, y2), x2, y2,
                        ),
                    forall|x2: int|
                        #![trigger self@.grid.cell(x2, y as int)]
                        0 <= x2 < x ==> all_pass(
                            self@.tables, self@.grid, self@.grid.cell(x2, y as int), x2, y as int,
                        ),
                decreases width - x,
            {
                let v = *self.grid.get_sq(x, y);
                if !self.check_collapse_allowed(x, y, v) {
                    proof {
                        assert(self@.grid.in_bounds(x as int, y as int));
                    }
                    return false;
                }
                x = x + 1;
            }
            y = y + 1;
        }
        proof {
            assert forall|x2: int, y2: int| #[trigger]
                self@.grid.in_bounds(x2, y2) implies all_pass(
                self@.tables, self@.grid, self@.grid.cell(x2, y2), x2, y2,
            ) by {
                assert(self@.grid.cell(x2, y2) == self@.grid.cell(x2, y2));
            }
        }
        true
    }

    /// How many cells are still undetermined.
    pub fn undefined_count(&self) -> (n: usize)
        requires
            self@.wf(),
        ensures
            n == count_undet(self@.grid.cells),
    {
        let total = self.grid.height() * self.grid.width();
        let mut n: usize = 0;
        let mut idx: usize = 0;
        while idx < total
            invariant
                self@.wf(),
                total == self@.grid.cells.len(),
                idx <= total,
                n <= idx,
                n == count_undet(self@.grid.cells.take(idx as int)),
            decreases total - idx,
        {
            proof {
                lemma_take_one_more(self@.grid.cells, idx as int);
                assert(self@.grid.cells.take(idx + 1).drop_last() =~= self@.grid.cells.take(
                    idx as int,
                ));
                assert(self@.grid.cells.take(idx + 1).last() == self@.grid.cells[idx as int]);
            }
            if *self.grid.get_index(idx) == UNDETERMINED {
                n = n + 1;
            }
            idx = idx + 1;
        }
        proof {
            assert(self@.grid.cells.take(total as int) =~= self@.grid.cells);
        }
        n
    }

    /// Whether any cell is still undetermined.
    pub fn contains_undefined(&self) -> (r: bool)
        requires
            self@.wf(),
        ensures
            r == exists|idx: int|
                0 <= idx < self@.grid.cells.len() && self@.grid.cells[idx] == UNDETERMINED,
    {
        let total = self.grid.height() * self.grid.width();
        let mut idx: usize = 0;
        while idx < total
            invariant
                self@.wf(),
                total == self@.grid.cells.len(),
                idx <= total,
                forall|i: int| 0 <= i < idx ==> (#[trigger] self@.grid.cells[i]) != UNDETERMINED,
            decreases total - idx,
        {
            if *self.grid.get_index(idx) == UNDETERMINED {
                return true;
            }
            idx = idx + 1;
        }
        false
    }

    /// Unconditionally writes `value` into the cell at `(x, y)` and
    /// invalidates the cached legal values of that cell and its 8 neighbors;
    /// entries outside that neighborhood are untouched and stay fresh.
    pub fn collapse_unchecked(&mut self, x: usize, y: usize, value: i32)
        requires
            old(self)@.wf(),
            x < old(self)@.grid.width,
            y < old(self)@.grid.height,
            old(self)@.states.contains(value),
        ensures
            final(self)@.wf(),
            final(self)@.tables == old(self)@.tables,
            final(self)@.states == old(self)@.states,
            final(self)@.grid == old(self)@.grid.set_cell(x as int, y as int, value),
            forall|x2: int, y2: int|
                #[trigger] final(self)@.grid.in_bounds(x2, y2) && in_nbhd(
                    x as int, y as int, x2, y2,
                ) ==> final(self)@.cache[y2 * final(self)@.grid.width + x2] is None,
            forall|x2: int, y2: int|
                #[trigger] final(self)@.grid.in_bounds(x2, y2) && !in_nbhd(
                    x as int, y as int, x2, y2,
                ) ==> final(self)@.cache[y2 * final(self)@.grid.width + x2] == old(
                    self,
                )@.cache[y2 * old(self)@.grid.width + x2],
    {
        let ghost s0 = self@;
        let width = self.grid.width();
        let height = self.grid.height();
        let sq = self.grid.get_sqmut(x, y);
        *sq = value;
        proof {
            lemma_index_bound(x as int, y as int, width as int, height as int);
            assert(self@.grid == s0.grid.set_cell(x as int, y as int, value));
        }
        let cidx = y * width + x;
        self.cache.set(cidx, None);
        proof {
            assert forall|x2: int, y2: int|
                #[trigger] self@.grid.in_bounds(x2, y2) && !in_nbhd(x as int, y as int, x2, y2)
                    implies self@.cache[y2 * self@.grid.width + x2] == s0.cache[y2
                    * self@.grid.width + x2] by {
                lemma_index_bound(x2, y2, width as int, height as int);
                if y2 * width as int + x2 == cidx {
                    lemma_index_injective(x2, y2, x as int, y as int, width as int);
                    assert(false);
                }
            }
        }
        let mut i: usize = 0;
        while i < 8
            invariant
                x < width,
                y < height,
                width == self@.grid.width,
                height == self@.grid.height,
                i <= 8,
                self@.grid.wf(),
                self@.grid == s0.grid.set_cell(x as int, y as int, value),
                self@.tables == s0.tables,
                self@.states == s0.states,
                self@.cache.len() == s0.cache.len(),
                s0.cache.len() == self@.grid.cells.len(),
                self@.cache[y as int * self@.grid.width + x as int] is None,
                forall|i2: int|
                    0 <= i2 < i ==> {
                        let nx = x + #[trigger] offset_dx(i2);
                        let ny = y + offset_dy(i2);
                        self@.grid.in_bounds(nx, ny) ==> self@.cache[ny * self@.grid.width + nx]
                            is None
                    },
                forall|x2: int, y2: int|
                    #[trigger] self@.grid.in_bounds(x2, y2) && !in_nbhd(x as int, y as int, x2, y2)
                        ==> self@.cache[y2 * self@.grid.width + x2] == s0.cache[y2
                        * self@.grid.width + x2],
            decreases 8 - i,
        {
            match neighbor_coord(x, y, i, width, height) {
                None => {},
                Some((nx, ny)) => {
                    proof {
                        lemma_index_bound(nx as int, ny as int, width as int, height as int);
                    }
                    let nidx = ny * width + nx;
                    let ghost pre = self@;
                    self.cache.set(nidx, None);
                    proof {
                        lemma_index_bound(x as int, y as int, width as int, height as int);
                        assert forall|j: int|
                            0 <= j < self@.cache.len() && j != nidx implies self@.cache[j]
                            == pre.cache[j] by {}
                        assert(self@.cache[nidx as int] is None);
                        assert forall|x2: int, y2: int|
                            #[trigger] self@.grid.in_bounds(x2, y2) && !in_nbhd(
                                x as int, y as int, x2, y2,
                            ) implies self@.cache[y2 * self@.grid.width + x2] == s0.cache[y2
                            * self@.grid.width + x2] by {
                            lemma_index_bound(x2, y2, width as int, height as int);
                            if y2 * width as int + x2 == nidx {
                                lemma_index_injective(x2, y2, nx as int, ny as int, width as int);
                                assert(false);
                            }
                        }
                        assert forall|i2: int| 0 <= i2 < i + 1 implies {
                            let nx2 = x + #[trigger] offset_dx(i2);
                            let ny2 = y + offset_dy(i2);
                            self@.grid.in_bounds(nx2, ny2) ==> self@.cache[ny2 * self@.grid.width
                                + nx2] is None
                        } by {
                            let nx2 = x + offset_dx(i2);
                            let ny2 = y + offset_dy(i2);
                            if self@.grid.in_bounds(nx2, ny2) {
                                lemma_index_bound(nx2, ny2, width as int, height as int);
                            }
                        }
                        assert(!(offset_dx(i as int) == 0 && offset_dy(i as int) == 0));
                        if y as int * width + x as int == nidx {
                            lemma_index_injective(x as int, y as int, nx as int, ny as int,
                                width as int);
                            assert(false);
                        }
                    }
                },
            }
            i = i + 1;
        }
        proof {
            let sn = self@;
            // every in-bounds cell of the closed neighborhood is cleared
            assert forall|x2: int, y2: int|
                #[trigger] sn.grid.in_bounds(x2, y2) && in_nbhd(x as int, y as int, x2, y2)
                    implies sn.cache[y2 * sn.grid.width + x2] is None by {
                if x2 == x as int && y2 == y as int {
                } else {
                    lemma_offset_complete(x2 - x as int, y2 - y as int);
                    let i2 = choose|i2: int|
                        0 <= i2 < 8 && #[trigger] offset_dx(i2) == x2 - x as int && offset_dy(i2)
                            == y2 - y as int;
                    assert(x as int + offset_dx(i2) == x2 && y as int + offset_dy(i2) == y2);
                }
            }
            // the invariant: surviving entries are fresh for the new grid
            assert(sn.states_ok() && sn.tables_ok());
            assert forall|idx: int|
                0 <= idx < sn.grid.cells.len() && (#[trigger] sn.grid.cells[idx])
                    != UNDETERMINED implies sn.states.contains(sn.grid.cells[idx]) by {
                lemma_index_bound(x as int, y as int, width as int, height as int);
                if idx == y as int * width + x as int {
                    assert(sn.grid.cells[idx] == value);
                } else {
                    assert(sn.grid.cells[idx] == s0.grid.cells[idx]);
                }
            }
            assert forall|x2: int, y2: int| #[trigger]
                sn.grid.in_bounds(x2, y2) implies match sn.cache[y2 * sn.grid.width + x2] {
                Some(v) => v == sn.legal_at(x2, y2),
                None => true,
            } by {
                lemma_index_bound(x2, y2, width as int, height as int);
                if sn.cache[y2 * sn.grid.width + x2] is Some {
                    assert(!in_nbhd(x as int, y as int, x2, y2));
                    assert(sn.cache[y2 * sn.grid.width + x2] == s0.cache[y2 * s0.grid.width + x2]);
                    assert(s0.grid.in_bounds(x2, y2));
                    assert(match s0.cache[y2 * s0.grid.width + x2] {
                        Some(v) => v == s0.legal_at(x2, y2),
                        None => true,
                    });
                    assert forall|d: int| 0 <= d < 8 implies {
                        let nx2 = x2 + #[trigger] offset_dx(d);
                        let ny2 = y2 + offset_dy(d);
                        s0.grid.in_bounds(nx2, ny2) ==> s0.grid.cell(nx2, ny2) == sn.grid.cell(
                            nx2, ny2,
                        )
                    } by {
                        let nx2 = x2 + offset_dx(d);
                        let ny2 = y2 + offset_dy(d);
                        if s0.grid.in_bounds(nx2, ny2) {
                            lemma_index_bound(nx2, ny2, width as int, height as int);
                            if ny2 * width as int + nx2 == y as int * width + x as int {
                                lemma_index_injective(nx2, ny2, x as int, y as int, width as int);
                                assert(in_nbhd(x as int, y as int, x2, y2));
                                assert(false);
                            }
                        }
                    }
                    lemma_legal_at_local(s0, sn, x2, y2);
                }
            }
        }
    }

    /// Writes `value` into the cell at `(x, y)` and propagates: each
    /// neighbor whose legal values shrink to exactly one is collapsed to it
    /// in turn, the wave continuing outward through a worklist. Returns
    /// `true` when a contradiction was found — some cell reached zero legal
    /// values — and `false` otherwise, in which case the wave has settled:
    /// no cell it could have narrowed is left with fewer than two legal
    /// values. Either way the result refines the grid-with-`value`-written,
    /// and never un-determines a cell.
    pub fn collapse_unchecked_recursive(&mut self, x: usize, y: usize, value: i32) -> (err: bool)
        requires
            old(self)@.wf(),
            x < old(self)@.grid.width,
            y < old(self)@.grid.height,
            old(self)@.states.contains(value),
        ensures
            final(self)@.wf(),
            final(self)@.tables == old(self)@.tables,
            final(self)@.states == old(self)@.states,
            grid_refines(
                old(self)@.grid.set_cell(x as int, y as int, value),
                final(self)@.grid,
            ),
            final(self)@.grid.cell(x as int, y as int) == value,
            count_undet(final(self)@.grid.cells) <= count_undet(
                old(self)@.grid.set_cell(x as int, y as int, value).cells,
            ),
            err ==> exists|x2: int, y2: int|
                #[trigger] final(self)@.grid.in_bounds(x2, y2) && final(self)@.grid.cell(x2, y2)
                    == UNDETERMINED && final(self)@.legal_at(x2, y2).len() == 0,
            !err ==> wave_settled(old(self)@.grid, final(self)@, x as int, y as int),
    {
        let ghost gorig = old(self)@.grid;
        let ghost g0 = old(self)@.grid.set_cell(x as int, y as int, value);
        proof {
            let i0 = choose|i0: int|
                0 <= i0 < old(self)@.states.len() && old(self)@.states[i0] == value;
            assert(value >= 0);
        }
        let width = self.grid.width();
        let height = self.grid.height();
        self.collapse_unchecked(x, y, value);
        proof {
            lemma_index_bound(x as int, y as int, width as int, height as int);
            assert(self@.grid.cell(x as int, y as int) == value);
        }
        let mut queue: Vec<(usize, usize)> = Vec::new();
        let mut d0: usize = 0;
        while d0 < 8
            invariant
                d0 <= 8,
                x < width,
                y < height,
                width == self@.grid.width,
                height == self@.grid.height,
                forall|qi: int|
                    0 <= qi < queue@.len() ==> (#[trigger] queue@[qi]).0 < width && queue@[qi].1
                        < height,
                forall|i2: int|
                    0 <= i2 < d0 ==> {
                        let nx = x + #[trigger] offset_dx(i2);
                        let ny = y + offset_dy(i2);
                        !(0 <= nx < width && 0 <= ny < height) || queued(queue@, nx, ny)
                    },
            decreases 8 - d0,
        {
            let ghost qpre0 = queue@;
            match neighbor_coord(x, y, d0, width, height) {
                None => {},
                Some((nx, ny)) => {
                    queue.push((nx, ny));
                    proof {
                        assert(queue@[queue@.len() - 1] == (nx, ny));
                        assert(queued(queue@, nx as int, ny as int));
                    }
                },
            }
            proof {
                assert(qpre0.len() <= queue@.len() && forall|k: int|
                    0 <= k < qpre0.len() ==> queue@[k] == qpre0[k]);
                assert forall|i2: int| 0 <= i2 < d0 + 1 implies {
                    let nx = x + #[trigger] offset_dx(i2);
                    let ny = y + offset_dy(i2);
                    !(0 <= nx < width && 0 <= ny < height) || queued(queue@, nx, ny)
                } by {
                    let nx = x + offset_dx(i2);
                    let ny = y + offset_dy(i2);
                    if 0 <= nx < width && 0 <= ny < height && i2 < d0 {
                        assert(queued(qpre0, nx, ny));
                        lemma_queued_extend(qpre0, queue@, nx, ny);
                    }
                }
            }
            d0 = d0 + 1;
        }
        proof {
            // to start, every undetermined cell the write could have
            // narrowed is a strict neighbor of (x, y) and was queued
            assert forall|x2: int, y2: int|
                self@.grid.in_bounds(x2, y2) && self@.grid.cell(x2, y2) == UNDETERMINED
                    && near_change(gorig, self@.grid, x as int, y as int, x2, y2) implies queued(
                queue@, x2, y2,
            ) || #[trigger] self@.legal_at(x2, y2).len() >= 2 by {
                let w = width as int;
                let h = height as int;
                lemma_index_bound(x as int, y as int, w, h);
                lemma_index_bound(x2, y2, w, h);
                if !in_nbhd(x as int, y as int, x2, y2) {
                    let (cx, cy) = choose|cx: int, cy: int|
                        #![trigger in_nbhd(cx, cy, x2, y2)]
                        self@.grid.in_bounds(cx, cy) && self@.grid.cell(cx, cy) != gorig.cell(
                            cx, cy,
                        ) && in_nbhd(cx, cy, x2, y2);
                    lemma_index_bound(cx, cy, w, h);
                    if cy * w + cx != y as int * w + x as int {
                        assert(self@.grid.cell(cx, cy) == gorig.cell(cx, cy));
                        assert(false);
                    }
                    lemma_index_injective(cx, cy, x as int, y as int, w);
                    assert(in_nbhd(x as int, y as int, x2, y2));
                    assert(false);
                }
                assert(!(x2 == x as int && y2 == y as int));
                lemma_offset_complete(x2 - x as int, y2 - y as int);
                let i2 = choose|i2: int|
                    0 <= i2 < 8 && #[trigger] offset_dx(i2) == x2 - x as int && offset_dy(i2)
                        == y2 - y as int;
                assert(queued(queue@, x2, y2));
            }
        }
        while queue.len() > 0
            invariant
                self@.wf(),
                self@.tables == old(self)@.tables,
                self@.states == old(self)@.states,
                x < width,
                y < height,
                width == self@.grid.width,
                height == self@.grid.height,
                value != UNDETERMINED,
                gorig == old(self)@.grid,
                g0 == old(self)@.grid.set_cell(x as int, y as int, value),
                grid_refines(g0, self@.grid),
                self@.grid.cell(x as int, y as int) == value,
                count_undet(self@.grid.cells) <= count_undet(g0.cells),
                forall|qi: int|
                    0 <= qi < queue@.len() ==> (#[trigger] queue@[qi]).0 < width && queue@[qi].1
                        < height,
                forall|x2: int, y2: int|
                    #![trigger self@.legal_at(x2, y2)]
                    self@.grid.in_bounds(x2, y2) && self@.grid.cell(x2, y2) == UNDETERMINED
                        && near_change(gorig, self@.grid, x as int, y as int, x2, y2) ==> queued(
                        queue@, x2, y2,
                    ) || self@.legal_at(x2, y2).len() >= 2,
            decreases count_undet(self@.grid.cells), queue@.len(),
        {
            let ghost qpre = queue@;
            let ghost shead = self@;
            let popped = queue.pop();
            let (qx, qy) = match popped {
                Some(p) => p,
                None => unreached(),
            };
            proof {
                assert(qpre.last() == (qx, qy));
                assert(queue@ == qpre.drop_last());
            }
            let cur = *self.grid.get_sq(qx, qy);
            if cur == UNDETERMINED {
                let ghost spre = self@;
                let al = self.allowed_states_at(qx, qy);
                proof {
                    assert(self@.grid == spre.grid);
                    assert(grid_refines(g0, self@.grid));
                    assert(count_undet(self@.grid.cells) <= count_undet(g0.cells));
                }
                if al.len() == 0 {
                    proof {
                        assert(self@.grid.in_bounds(qx as int, qy as int));
                        assert(self@.grid.cell(qx as int, qy as int) == UNDETERMINED);
                        assert(self@.legal_at(qx as int, qy as int).len() == 0);
                    }
                    return true;
                }
                if al.len() == 1 {
                    let v2 = al[0];
                    proof {
                        lemma_filter_elems(
                            self@.states,
                            all_pred(self@.tables, self@.grid, qx as int, qy as int),
                        );
                        assert(self@.states.contains(v2));
                        let i1 = choose|i1: int|
                            0 <= i1 < self@.states.len() && self@.states[i1] == v2;
                        assert(v2 >= 0);
                    }
                    let ghost smid = self@;
                    let ghost gpre = self@.grid;
                    self.collapse_unchecked(qx, qy, v2);
                    proof {
                        lemma_index_bound(qx as int, qy as int, width as int, height as int);
                        lemma_refines_set_undet(gpre, qx as int, qy as int, v2);
                        lemma_refines_trans(g0, gpre, self@.grid);
                        lemma_count_undet_update(
                            gpre.cells,
                            qy as int * width as int + qx as int,
                            v2,
                        );
                        lemma_index_bound(x as int, y as int, width as int, height as int);
                        if qy as int * width as int + qx as int == y as int * width as int
                            + x as int {
                            lemma_index_injective(
                                qx as int, qy as int, x as int, y as int, width as int,
                            );
                            assert(false);
                        }
                        assert(self@.grid.cell(x as int, y as int) == value);
                    }
                    let ghost qbase = queue@;
                    let mut d: usize = 0;
                    while d < 8
                        invariant
                            d <= 8,
                            qx < width,
                            qy < height,
                            width == self@.grid.width,
                            height == self@.grid.height,
                            forall|qi: int|
                                0 <= qi < queue@.len() ==> (#[trigger] queue@[qi]).0 < width
                                    && queue@[qi].1 < height,
                            qbase.len() <= queue@.len(),
                            forall|k: int| 0 <= k < qbase.len() ==> queue@[k] == qbase[k],
                            forall|i2: int|
                                0 <= i2 < d ==> {
                                    let nx = qx + #[trigger] offset_dx(i2);
                                    let ny = qy + offset_dy(i2);
                                    !(0 <= nx < width && 0 <= ny < height) || queued(
                                        queue@, nx, ny,
                                    )
                                },
                        decreases 8 - d,
                    {
                        let ghost qpre2 = queue@;
                        match neighbor_coord(qx, qy, d, width, height) {
                            None => {},
                            Some((nx, ny)) => {
                                queue.push((nx, ny));
                                proof {
                                    assert(queue@[queue@.len() - 1] == (nx, ny));
                                    assert(queued(queue@, nx as int, ny as int));
                                }
                            },
                        }
                        proof {
                            assert(qpre2.len() <= queue@.len() && forall|k: int|
                                0 <= k < qpre2.len() ==> queue@[k] == qpre2[k]);
                            assert forall|i2: int| 0 <= i2 < d + 1 implies {
                                let nx = qx + #[trigger] offset_dx(i2);
                                let ny = qy + offset_dy(i2);
                                !(0 <= nx < width && 0 <= ny < height) || queued(queue@, nx, ny)
                            } by {
                                let nx = qx + offset_dx(i2);
                                let ny = qy + offset_dy(i2);
                                if 0 <= nx < width && 0 <= ny < height && i2 < d {
                                    assert(queued(qpre2, nx, ny));
                                    lemma_queued_extend(qpre2, queue@, nx, ny);
                                }
                            }
                        }
                        d = d + 1;
                    }
                    proof {
                        // coverage after the collapse: the whole neighborhood
                        // of (qx, qy) was re-queued; everything else keeps
                        // its legal values and its earlier cover
                        let w = width as int;
                        let h = height as int;
                        assert forall|x2: int, y2: int|
                            self@.grid.in_bounds(x2, y2) && self@.grid.cell(x2, y2)
                                == UNDETERMINED && near_change(
                                gorig, self@.grid, x as int, y as int, x2, y2,
                            ) implies queued(queue@, x2, y2) || #[trigger] self@.legal_at(
                            x2, y2,
                        ).len() >= 2 by {
                            lemma_index_bound(x2, y2, w, h);
                            lemma_index_bound(qx as int, qy as int, w, h);
                            if in_nbhd(qx as int, qy as int, x2, y2) {
                                assert(self@.grid.cell(qx as int, qy as int) == v2);
                                assert(!(x2 == qx as int && y2 == qy as int));
                                lemma_offset_complete(x2 - qx as int, y2 - qy as int);
                                let i2 = choose|i2: int|
                                    0 <= i2 < 8 && #[trigger] offset_dx(i2) == x2 - qx as int
                                        && offset_dy(i2) == y2 - qy as int;
                                assert(queued(queue@, x2, y2));
                            } else {
                                if y2 * w + x2 == qy as int * w + qx as int {
                                    lemma_index_injective(x2, y2, qx as int, qy as int, w);
                                    assert(false);
                                }
                                assert(self@.grid.cell(x2, y2) == smid.grid.cell(x2, y2));
                                assert(near_change(gorig, smid.grid, x as int, y as int, x2, y2)) by {
                                    if !in_nbhd(x as int, y as int, x2, y2) {
                                        let (cx, cy) = choose|cx: int, cy: int|
                                            #![trigger in_nbhd(cx, cy, x2, y2)]
                                            self@.grid.in_bounds(cx, cy) && self@.grid.cell(
                                                cx, cy,
                                            ) != gorig.cell(cx, cy) && in_nbhd(cx, cy, x2, y2);
                                        if cx == qx as int && cy == qy as int {
                                            assert(in_nbhd(qx as int, qy as int, x2, y2));
                                            assert(false);
                                        }
                                        lemma_index_bound(cx, cy, w, h);
                                        if cy * w + cx == qy as int * w + qx as int {
                                            lemma_index_injective(
                                                cx, cy, qx as int, qy as int, w,
                                            );
                                            assert(false);
                                        }
                                        assert(smid.grid.cell(cx, cy) == self@.grid.cell(
                                            cx, cy,
                                        ));
                                        assert(smid.grid.in_bounds(cx, cy) && smid.grid.cell(
                                            cx, cy,
                                        ) != gorig.cell(cx, cy) && in_nbhd(cx, cy, x2, y2));
                                    }
                                }
                                assert(shead.grid == smid.grid);
                                assert(smid.grid.cell(x2, y2) == UNDETERMINED);
                                if !(queued(qpre, x2, y2) || shead.legal_at(x2, y2).len() >= 2) {
                                    assert(false);
                                }
                                if queued(qpre, x2, y2) && !(shead.legal_at(x2, y2).len() >= 2) {
                                    if qpre.last().0 == x2 && qpre.last().1 == y2 {
                                        assert(in_nbhd(qx as int, qy as int, x2, y2));
                                        assert(false);
                                    } else {
                                        lemma_queued_after_pop(qpre, x2, y2);
                                        lemma_queued_extend(qbase, queue@, x2, y2);
                                    }
                                }
                                if shead.legal_at(x2, y2).len() >= 2 {
                                    lemma_legal_far_write(
                                        smid, self@, qx as int, qy as int, v2, x2, y2,
                                    );
                                    assert(self@.legal_at(x2, y2) == smid.legal_at(x2, y2));
                                    assert(smid.legal_at(x2, y2) == shead.legal_at(x2, y2));
                                }
                            }
                        }
                    }
                } else {
                    proof {
                        // at least two legal values: the popped cell covers
                        // itself, everything else keeps its earlier cover
                        assert forall|x2: int, y2: int|
                            self@.grid.in_bounds(x2, y2) && self@.grid.cell(x2, y2)
                                == UNDETERMINED && near_change(
                                gorig, self@.grid, x as int, y as int, x2, y2,
                            ) implies queued(queue@, x2, y2) || #[trigger] self@.legal_at(
                            x2, y2,
                        ).len() >= 2 by {
                            assert(shead.grid == self@.grid);
                            if !(queued(qpre, x2, y2) || shead.legal_at(x2, y2).len() >= 2) {
                                assert(false);
                            }
                            if x2 == qx as int && y2 == qy as int {
                                assert(al@ == spre.legal_at(qx as int, qy as int));
                                assert(self@.legal_at(x2, y2).len() >= 2);
                            } else {
                                assert(self@.legal_at(x2, y2) == shead.legal_at(x2, y2));
                                if queued(qpre, x2, y2) && !(shead.legal_at(x2, y2).len()
                                    >= 2) {
                                    lemma_queued_after_pop(qpre, x2, y2);
                                }
                            }
                        }
                    }
                }
            } else {
                proof {
                    // the popped cell is already determined: nothing changed
                    assert forall|x2: int, y2: int|
                        self@.grid.in_bounds(x2, y2) && self@.grid.cell(x2, y2) == UNDETERMINED
                            && near_change(gorig, self@.grid, x as int, y as int, x2, y2) implies queued(
                        queue@, x2, y2,
                    ) || #[trigger] self@.legal_at(x2, y2).len() >= 2 by {
                        assert(shead == self@);
                        if !(queued(qpre, x2, y2) || self@.legal_at(x2, y2).len() >= 2) {
                            assert(false);
                        }
                        if queued(qpre, x2, y2) && !(self@.legal_at(x2, y2).len() >= 2) {
                            if qpre.last().0 == x2 && qpre.last().1 == y2 {
                                assert(self@.grid.cell(x2, y2) == cur);
                                assert(false);
                            } else {
                                lemma_queued_after_pop(qpre, x2, y2);
                            }
                        }
                    }
                }
            }
        }
        proof {
            // an empty worklist leaves no coordinate queued: the wave settled
            assert forall|x2: int, y2: int|
                self@.grid.in_bounds(x2, y2) && self@.grid.cell(x2, y2) == UNDETERMINED
                    && near_change(gorig, self@.grid, x as int, y as int, x2, y2) implies #[trigger] self@.legal_at(
                x2, y2,
            ).len() >= 2 by {
                assert(!queued(queue@, x2, y2));
            }
        }
        false
    }

    /// The legal values at `(x, y)`: the cached list when one is stored, and
    /// otherwise the allowed tile types that pass every constraint, computed
    /// fresh and cached. Either way the result reflects the grid's current
    /// contents.
    pub fn allowed_states_at(&mut self, x: usize, y: usize) -> (r: Vec<i32>)
        requires
            old(self)@.wf(),
            x < old(self)@.grid.width,
            y < old(self)@.grid.height,
        ensures
            final(self)@.wf(),
            final(self)@.same_core(old(self)@),
            r@ == old(self)@.legal_at(x as int, y as int),
            final(self)@.cache[y as int * final(self)@.grid.width + x as int] == Some(r@),
            forall|x2: int, y2: int|
                #[trigger] final(self)@.grid.in_bounds(x2, y2) && !(x2 == x as int && y2
                    == y as int) ==> final(self)@.cache[y2 * final(self)@.grid.width + x2] == old(
                    self,
                )@.cache[y2 * old(self)@.grid.width + x2],
    {
        let width = self.grid.width();
        let height = self.grid.height();
        proof {
            lemma_index_bound(x as int, y as int, width as int, height as int);
        }
        let cidx = y * width + x;
        let cached = match &self.cache[cidx] {
            Some(v) => Some(v.clone()),
            None => None,
        };
        match cached {
            Some(v) => {
                proof {
                    assert(self@.grid.in_bounds(x as int, y as int));
                    assert(v@ =~= self@.legal_at(x as int, y as int));
                }
                v
            },
            None => {
                let ghost pred = all_pred(self@.tables, self@.grid, x as int, y as int);
                let mut out: Vec<i32> = Vec::new();
                let mut i: usize = 0;
                while i < self.allowed_states.len()
                    invariant
                        self@.wf(),
                        x < self@.grid.width,
                        y < self@.grid.height,
                        i <= self@.states.len(),
                        pred == all_pred(self@.tables, self@.grid, x as int, y as int),
                        out@ == self@.states.take(i as int).filter(pred),
                    decreases self@.states.len() - i,
                {
                    let v = self.allowed_states[i];
                    let keep = self.check_collapse_allowed(x, y, v);
                    proof {
                        lemma_take_one_more(self@.states, i as int);
                        Seq::<i32>::filter_distributes_over_add(
                            self@.states.take(i as int),
                            seq![v],
                            pred,
                        );
                        lemma_filter_singleton(v, pred);
                    }
                    if keep {
                        out.push(v);
                    }
                    i = i + 1;
                }
                proof {
                    assert(self@.states.take(self@.states.len() as int) =~= self@.states);
                    assert(out@ == self@.legal_at(x as int, y as int));
                }
                let r = out.clone();
                proof {
                    assert(r@ =~= out@);
                }
                self.cache.set(cidx, Some(out));
                proof {
                    let sn = self@;
                    assert forall|x2: int, y2: int| #[trigger]
                        sn.grid.in_bounds(x2, y2) implies match sn.cache[y2 * sn.grid.width + x2] {
                        Some(v) => v == sn.legal_at(x2, y2),
                        None => true,
                    } by {
                        lemma_index_bound(x2, y2, width as int, height as int);
                        if y2 * width as int + x2 == cidx {
                            lemma_index_injective(x2, y2, x as int, y as int, width as int);
                        }
                    }
                    assert forall|x2: int, y2: int|
                        #[trigger] sn.grid.in_bounds(x2, y2) && !(x2 == x as int && y2
                            == y as int) implies sn.cache[y2 * sn.grid.width + x2] == old(
                        self,
                    )@.cache[y2 * old(self)@.grid.width + x2] by {
                        lemma_index_bound(x2, y2, width as int, height as int);
                        if y2 * width as int + x2 == cidx {
                            lemma_index_injective(x2, y2, x as int, y as int, width as int);
                            assert(false);
                        }
                    }
                }
                r
            },
        }
    }
}

impl ConstraintSolver {
    /// Drops every cached entry.
    fn clear_cache(&mut self)
        requires
            old(self)@.grid.wf(),
            old(self)@.cache.len() == old(self)@.grid.cells.len(),
        ensures
            final(self)@.grid == old(self)@.grid,
            final(self)@.tables == old(self)@.tables,
            final(self)@.states == old(self)@.states,
            final(self)@.cache.len() == old(self)@.cache.len(),
            forall|idx: int|
                0 <= idx < final(self)@.cache.len() ==> (#[trigger] final(self)@.cache[idx])
                    is None,
    {
        let total = self.cache.len();
        let mut idx: usize = 0;
        while idx < total
            invariant
                total == self@.cache.len(),
                idx <= total,
                self@.grid == old(self)@.grid,
                self@.tables == old(self)@.tables,
                self@.states == old(self)@.states,
                forall|j: int| 0 <= j < idx ==> (#[trigger] self@.cache[j]) is None,
            decreases total - idx,
        {
            let ghost pre = self@;
            self.cache.set(idx, None);
            proof {
                assert(self@.cache[idx as int] is None);
                assert forall|j: int| 0 <= j < idx implies (#[trigger] self@.cache[j]) is None by {
                    assert(self@.cache[j] == pre.cache[j]);
                }
            }
            idx = idx + 1;
        }
    }

    /// Forces `value` at `(x, y)`. When some constraint rejects it, returns
    /// `Ok(false)` and the solver is untouched — no mutation on rejection.
    /// Otherwise the value is written and propagated: `Err(())` reports a
    /// contradiction or a final state that fails re-validation, `Ok(true)` a
    /// successful collapse after which the whole grid satisfies every
    /// constraint and the forced wave has settled — no cell it could have
    /// narrowed is left with fewer than two legal values.
    pub fn attempt_collapse_to_value(&mut self, x: usize, y: usize, value: i32) -> (r: Result<
        bool,
        (),
    >)
        requires
            old(self)@.wf(),
            x < old(self)@.grid.width,
            y < old(self)@.grid.height,
            old(self)@.states.contains(value),
        ensures
            final(self)@.wf(),
            final(self)@.tables == old(self)@.tables,
            final(self)@.states == old(self)@.states,
            (r == Ok::<bool, ()>(false)) <==> !all_pass(
                old(self)@.tables, old(self)@.grid, value, x as int, y as int,
            ),
            r == Ok::<bool, ()>(false) ==> final(self)@ == old(self)@,
            r != Ok::<bool, ()>(false) ==> grid_refines(
                old(self)@.grid.set_cell(x as int, y as int, value),
                final(self)@.grid,
            ) && final(self)@.grid.cell(x as int, y as int) == value,
            r == Ok::<bool, ()>(true) ==> final(self)@.state_valid(),
            r == Ok::<bool, ()>(true) ==> wave_settled(
                old(self)@.grid, final(self)@, x as int, y as int,
            ),
            r == Err::<bool, ()>(()) ==> !final(self)@.state_valid() || exists|x2: int, y2: int|
                #[trigger] final(self)@.grid.in_bounds(x2, y2) && final(self)@.grid.cell(x2, y2)
                    == UNDETERMINED && final(self)@.legal_at(x2, y2).len() == 0,
    {
        if self.check_collapse_allowed(x, y, value) {
            let err = self.collapse_unchecked_recursive(x, y, value);
            if err {
                Err(())
            } else if self.is_state_valid() {
                Ok(true)
            } else {
                Err(())
            }
        } else {
            Ok(false)
        }
    }

    /// Repeatedly collapses every cell whose legal values have shrunk to
    /// exactly one, sweeping the grid until a sweep changes nothing. On a
    /// contradiction — some undetermined cell with zero legal values — the
    /// grid is restored to its state before the call and `true` is returned;
    /// otherwise `false`, and every cell still undetermined keeps at least
    /// two legal values. A grid already at that fixpoint always succeeds,
    /// untouched; a contradiction report always names a real one, reached by
    /// forced collapses from the starting grid.
    pub fn collapse_all_determined(&mut self) -> (err: bool)
        requires
            old(self)@.wf(),
        ensures
            final(self)@.wf(),
            final(self)@.tables == old(self)@.tables,
            final(self)@.states == old(self)@.states,
            err ==> final(self)@.grid == old(self)@.grid,
            err ==> contradiction_reachable(old(self)@),
            !err ==> grid_refines(old(self)@.grid, final(self)@.grid),
            !err ==> at_fixpoint(final(self)@),
            at_fixpoint(old(self)@) ==> !err && final(self)@.grid == old(self)@.grid,
    {
        let previous = self.grid.clone();
        let width = self.grid.width();
        let height = self.grid.height();
        let mut reset = true;
        while reset
            invariant
                self@.wf(),
                self@.tables == old(self)@.tables,
                self@.states == old(self)@.states,
                width == self@.grid.width,
                height == self@.grid.height,
                previous@ == old(self)@.grid,
                grid_refines(old(self)@.grid, self@.grid),
                at_fixpoint(old(self)@) ==> self@.grid == old(self)@.grid,
                !reset ==> at_fixpoint(self@),
            decreases 2 * count_undet(self@.grid.cells) + if reset {
                1int
            } else {
                0int
            },
        {
            reset = false;
            let ghost cpass = count_undet(self@.grid.cells);
            let mut x: usize = 0;
            while x < width
                invariant
                    self@.wf(),
                    self@.tables == old(self)@.tables,
                    self@.states == old(self)@.states,
                    width == self@.grid.width,
                    height == self@.grid.height,
                    x <= width,
                    previous@ == old(self)@.grid,
                    grid_refines(old(self)@.grid, self@.grid),
                    at_fixpoint(old(self)@) ==> self@.grid == old(self)@.grid,
                    count_undet(self@.grid.cells) <= cpass,
                    reset ==> count_undet(self@.grid.cells) < cpass,
                    !reset ==> forall|x2: int, y2: int|
                        #[trigger] self@.grid.in_bounds(x2, y2) && 0 <= x2 < x
                            && self@.grid.cell(x2, y2) == UNDETERMINED ==> self@.legal_at(
                            x2, y2,
                        ).len() >= 2,
                decreases width - x,
            {
                let mut y: usize = 0;
                while y < height
                    invariant
                        self@.wf(),
                        self@.tables == old(self)@.tables,
                        self@.states == old(self)@.states,
                        width == self@.grid.width,
                        height == self@.grid.height,
                        x < width,
                        y <= height,
                        previous@ == old(self)@.grid,
                        grid_refines(old(self)@.grid, self@.grid),
                        at_fixpoint(old(self)@) ==> self@.grid == old(self)@.grid,
                        count_undet(self@.grid.cells) <= cpass,
                        reset ==> count_undet(self@.grid.cells) < cpass,
                        !reset ==> forall|x2: int, y2: int|
                            #[trigger] self@.grid.in_bounds(x2, y2) && 0 <= x2 < x
                                && self@.grid.cell(x2, y2) == UNDETERMINED ==> self@.legal_at(
                                x2, y2,
                            ).len() >= 2,
                        !reset ==> forall|y2: int|
                            #[trigger] self@.grid.in_bounds(x as int, y2) && 0 <= y2 < y
                                && self@.grid.cell(x as int, y2) == UNDETERMINED
                                ==> self@.legal_at(x as int, y2).len() >= 2,
                    decreases height - y,
                {
                    let cur = *self.grid.get_sq(x, y);
                    if cur == UNDETERMINED {
                        let ghost spre = self@;
                        let al = self.allowed_states_at(x, y);
                        proof {
                            assert(self@.grid == spre.grid);
                        }
                        if al.len() == 0 {
                            let ghost g2 = self@.grid;
                            proof {
                                // the current refinement holds the contradiction
                                assert(al@ == legal_of(
                                    old(self)@.tables,
                                    old(self)@.states,
                                    g2,
                                    x as int,
                                    y as int,
                                ));
                                assert(g2.in_bounds(x as int, y as int));
                                assert(contradiction_reachable(old(self)@));
                                // a grid already at the fixpoint reaches none
                                if at_fixpoint(old(self)@) {
                                    assert(self@.grid == old(self)@.grid);
                                    assert(old(self)@.grid.in_bounds(x as int, y as int));
                                    assert(old(self)@.legal_at(x as int, y as int).len() >= 2);
                                    assert(false);
                                }
                            }
                            self.grid = previous;
                            self.clear_cache();
                            proof {
                                let sn = self@;
                                assert forall|x2: int, y2: int| #[trigger]
                                    sn.grid.in_bounds(x2, y2) implies match sn.cache[y2
                                    * sn.grid.width + x2] {
                                    Some(v) => v == sn.legal_at(x2, y2),
                                    None => true,
                                } by {
                                    lemma_index_bound(x2, y2, width as int, height as int);
                                }
                            }
                            return true;
                        }
                        if al.len() == 1 {
                            let v2 = al[0];
                            proof {
                                lemma_filter_elems(
                                    self@.states,
                                    all_pred(self@.tables, self@.grid, x as int, y as int),
                                );
                                assert(self@.states.contains(v2));
                                // a grid already at the fixpoint forces nothing
                                if at_fixpoint(old(self)@) {
                                    assert(self@.grid == old(self)@.grid);
                                    assert(old(self)@.grid.in_bounds(x as int, y as int));
                                    assert(old(self)@.legal_at(x as int, y as int).len() >= 2);
                                    assert(al@ == old(self)@.legal_at(x as int, y as int));
                                    assert(false);
                                }
                            }
                            let ghost gpre = self@.grid;
                            let r = self.collapse_unchecked_recursive(x, y, v2);
                            let _ = r;
                            reset = true;
                            proof {
                                lemma_index_bound(x as int, y as int, width as int, height as int);
                                lemma_refines_set_undet(gpre, x as int, y as int, v2);
                                lemma_refines_trans(
                                    old(self)@.grid,
                                    gpre,
                                    gpre.set_cell(x as int, y as int, v2),
                                );
                                lemma_refines_trans(
                                    old(self)@.grid,
                                    gpre.set_cell(x as int, y as int, v2),
                                    self@.grid,
                                );
                                lemma_count_undet_update(
                                    gpre.cells,
                                    y as int * width as int + x as int,
                                    v2,
                                );
                            }
                        }
                    }
                    y = y + 1;
                }
                x = x + 1;
            }
        }
        false
    }

    /// Collapses `(x, y)` to a value chosen by the selection strategy, then
    /// propagates. With zero legal values at the cell, `Err(())` and the
    /// grid untouched; a contradiction during propagation is `Err(())` too,
    /// leaving some undetermined cell at zero legal values; on `Ok(true)`
    /// the wave has settled.
    pub fn collapse_location(
        &mut self,
        x: usize,
        y: usize,
        selection_mode: &SelectionStrategy,
    ) -> (r: Result<bool, ()>)
        requires
            old(self)@.wf(),
            x < old(self)@.grid.width,
            y < old(self)@.grid.height,
            selection_mode.usable(),
            selection_mode.draws_from(old(self)@.states),
        ensures
            final(self)@.wf(),
            final(self)@.tables == old(self)@.tables,
            final(self)@.states == old(self)@.states,
            r == Ok::<bool, ()>(true) || r == Err::<bool, ()>(()),
            old(self)@.legal_at(x as int, y as int).len() == 0 ==> r == Err::<bool, ()>(())
                && final(self)@.grid == old(self)@.grid,
            old(self)@.legal_at(x as int, y as int).len() > 0 ==> exists|v: i32|
                {
                    &&& #[trigger] picked(*selection_mode, old(self)@, x as int, y as int, v)
                    &&& grid_refines(
                        old(self)@.grid.set_cell(x as int, y as int, v),
                        final(self)@.grid,
                    )
                    &&& final(self)@.grid.cell(x as int, y as int) == v
                    &&& v != UNDETERMINED
                    &&& count_undet(final(self)@.grid.cells) <= count_undet(
                        old(self)@.grid.set_cell(x as int, y as int, v).cells,
                    )
                },
            r == Ok::<bool, ()>(true) ==> old(self)@.legal_at(x as int, y as int).len() > 0,
            r == Err::<bool, ()>(()) && old(self)@.legal_at(x as int, y as int).len() > 0
                ==> exists|x2: int, y2: int|
                #[trigger] final(self)@.grid.in_bounds(x2, y2) && final(self)@.grid.cell(x2, y2)
                    == UNDETERMINED && final(self)@.legal_at(x2, y2).len() == 0,
            r == Ok::<bool, ()>(true) ==> wave_settled(
                old(self)@.grid, final(self)@, x as int, y as int,
            ),
    {
        let al = self.allowed_states_at(x, y);
        if al.len() < 1 {
            return Err(());
        }
        let state: i32 = match selection_mode {
            SelectionStrategy::PurelyRandom => {
                let roll = random_u64();
                let i = (roll % (al.len() as u64)) as usize;
                proof {
                    assert(al@[i as int] == old(self)@.legal_at(x as int, y as int)[i as int]);
                    assert(old(self)@.legal_at(x as int, y as int).contains(al@[i as int]));
                    lemma_filter_elems(
                        old(self)@.states,
                        all_pred(old(self)@.tables, old(self)@.grid, x as int, y as int),
                    );
                    assert(old(self)@.states.contains(al@[i as int]));
                }
                al[i]
            },
            SelectionStrategy::FromDistribution { distribution } => {
                let total = sum_weights(distribution);
                let roll = random_u64() % total;
                let v = pick_from_distribution(distribution, roll);
                proof {
                    let i0 = choose|i0: int|
                        0 <= i0 < distribution@.len() && (#[trigger] distribution@[i0]).0 == v
                            && distribution@[i0].1 > 0;
                    assert(old(self)@.states.contains(v));
                }
                v
            },
            SelectionStrategy::MinimizeEntropy => unreached(),
            SelectionStrategy::MaximizeEntropy => unreached(),
        };
        proof {
            let i1 = choose|i1: int|
                0 <= i1 < old(self)@.states.len() && old(self)@.states[i1] == state;
            assert(state >= 0);
            assert(picked(*selection_mode, old(self)@, x as int, y as int, state));
        }
        let ghost smid = self@;
        let err = self.collapse_unchecked_recursive(x, y, state);
        proof {
            if !err {
                assert(smid.grid == old(self)@.grid);
                assert(wave_settled(old(self)@.grid, self@, x as int, y as int));
            }
        }
        if err {
            Err(())
        } else {
            Ok(true)
        }
    }

    /// Collapses the undetermined cell with the fewest legal values — ties
    /// broken by the first such cell in scan order, rows top to bottom —
    /// using the selection strategy, then propagates. `Err(())` on a
    /// contradiction: owed when that cell has zero legal values, and
    /// otherwise witnessed by a zero-legal cell left in the grid; on
    /// `Ok(true)` the cell is determined and the wave has settled.
    pub fn collapse_lowest_entropy(&mut self, selection_mode: &SelectionStrategy) -> (r: Result<
        bool,
        (),
    >)
        requires
            old(self)@.wf(),
            count_undet(old(self)@.grid.cells) > 0,
            selection_mode.usable(),
            selection_mode.draws_from(old(self)@.states),
        ensures
            final(self)@.wf(),
            final(self)@.tables == old(self)@.tables,
            final(self)@.states == old(self)@.states,
            r == Ok::<bool, ()>(true) || r == Err::<bool, ()>(()),
            grid_refines(old(self)@.grid, final(self)@.grid),
            r == Ok::<bool, ()>(true) ==> count_undet(final(self)@.grid.cells) < count_undet(
                old(self)@.grid.cells,
            ),
            exists|bx: int, by: int|
                {
                    &&& #[trigger] first_lowest_entropy(old(self)@, bx, by)
                    &&& r == Ok::<bool, ()>(true) ==> final(self)@.grid.cell(bx, by)
                        != UNDETERMINED
                    &&& old(self)@.legal_at(bx, by).len() == 0 ==> r == Err::<bool, ()>(())
                    &&& r == Err::<bool, ()>(()) && old(self)@.legal_at(bx, by).len() > 0
                        ==> exists|x2: int, y2: int|
                        #[trigger] final(self)@.grid.in_bounds(x2, y2) && final(self)@.grid.cell(
                            x2, y2,
                        ) == UNDETERMINED && final(self)@.legal_at(x2, y2).len() == 0
                    &&& r == Ok::<bool, ()>(true) ==> wave_settled(
                        old(self)@.grid, final(self)@, bx, by,
                    )
                },
    {
        let width = self.grid.width();
        let height = self.grid.height();
        let ghost s0 = self@;
        let mut best: Option<(usize, usize)> = None;
        let mut best_count: usize = 0;
        let mut y: usize = 0;
        while y < height
            invariant
                self@.wf(),
                self@.same_core(s0),
                s0.wf(),
                width == self@.grid.width,
                height == self@.grid.height,
                y <= height,
                match best {
                    Some(b) => {
                        &&& b.0 < width
                        &&& b.1 < height
                        &&& b.1 < y
                        &&& s0.grid.cell(b.0 as int, b.1 as int) == UNDETERMINED
                        &&& best_count == s0.legal_at(b.0 as int, b.1 as int).len()
                        &&& forall|x2: int, y2: int|
                            #![trigger s0.grid.cell(x2, y2)]
                            0 <= x2 < width && 0 <= y2 < y && s0.grid.cell(x2, y2) == UNDETERMINED
                                ==> s0.legal_at(x2, y2).len() >= best_count
                        &&& forall|x2: int, y2: int|
                            #![trigger s0.grid.cell(x2, y2)]
                            0 <= x2 < width && 0 <= y2 < y && s0.grid.cell(x2, y2) == UNDETERMINED
                                && (y2 < b.1 as int || (y2 == b.1 as int && x2 < b.0 as int))
                                ==> s0.legal_at(x2, y2).len() > best_count
                    },
                    None => forall|x2: int, y2: int|
                        #![trigger s0.grid.cell(x2, y2)]
                        0 <= x2 < width && 0 <= y2 < y ==> s0.grid.cell(x2, y2) != UNDETERMINED,
                },
            decreases height - y,
        {
            let mut x: usize = 0;
            while x < width
                invariant
                    self@.wf(),
                    self@.same_core(s0),
                    s0.wf(),
                    width == self@.grid.width,
                    height == self@.grid.height,
                    y < height,
                    x <= width,
                    match best {
                        Some(b) => {
                            &&& b.0 < width
                            &&& b.1 < height
                            &&& (b.1 < y || (b.1 == y && (b.0 as int) < x))
                            &&& s0.grid.cell(b.0 as int, b.1 as int) == UNDETERMINED
                            &&& best_count == s0.legal_at(b.0 as int, b.1 as int).len()
                            &&& forall|x2: int, y2: int|
                                #![trigger s0.grid.cell(x2, y2)]
                                0 <= x2 < width && 0 <= y2 < height && (y2 < y || (y2 == y && x2
                                    < x)) && s0.grid.cell(x2, y2) == UNDETERMINED
                                    ==> s0.legal_at(x2, y2).len() >= best_count
                            &&& forall|x2: int, y2: int|
                                #![trigger s0.grid.cell(x2, y2)]
                                0 <= x2 < width && 0 <= y2 < height && (y2 < y || (y2 == y && x2
                                    < x)) && s0.grid.cell(x2, y2) == UNDETERMINED && (y2
                                    < b.1 as int || (y2 == b.1 as int && x2 < b.0 as int))
                                    ==> s0.legal_at(x2, y2).len() > best_count
                        },
                        None => forall|x2: int, y2: int|
                            #![trigger s0.grid.cell(x2, y2)]
                            0 <= x2 < width && 0 <= y2 < height && (y2 < y || (y2 == y && x2 < x))
                                ==> s0.grid.cell(x2, y2) != UNDETERMINED,
                    },
                decreases width - x,
            {
                let cur = *self.grid.get_sq(x, y);
                if cur == UNDETERMINED {
                    let al = self.allowed_states_at(x, y);
                    let cnt = al.len();
                    proof {
                        assert(al@ == s0.legal_at(x as int, y as int));
                    }
                    match best {
                        None => {
                            best = Some((x, y));
                            best_count = cnt;
                        },
                        Some(_) => {
                            if cnt < best_count {
                                best = Some((x, y));
                                best_count = cnt;
                            }
                        },
                    }
                }
                x = x + 1;
            }
            y = y + 1;
        }
        let (bx, by) = match best {
            Some(b) => b,
            None => {
                proof {
                    lemma_count_undet_zero(s0.grid.cells);
                    let i0 = choose|i0: int|
                        0 <= i0 < s0.grid.cells.len() && s0.grid.cells[i0] == UNDETERMINED;
                    assert(width > 0 && height > 0) by {
                        if width == 0 || height == 0 {
                            assert(s0.grid.height * s0.grid.width == 0) by (nonlinear_arith)
                                requires s0.grid.height == 0 || s0.grid.width == 0;
                            assert(false);
                        }
                    }
                    let x2 = i0 % (width as int);
                    let y2 = i0 / (width as int);
                    vstd::arithmetic::div_mod::lemma_fundamental_div_mod(i0, width as int);
                    vstd::arithmetic::div_mod::lemma_mod_bound(i0, width as int);
                    vstd::arithmetic::div_mod::lemma_div_pos_is_pos(i0, width as int);
                    assert(y2 * width + x2 == i0);
                    assert(y2 < height) by {
                        if y2 >= height {
                            lemma_index_bound(x2, height as int - 1, width as int, height as int);
                            assert(y2 * width >= height * width) by (nonlinear_arith)
                                requires y2 >= height > 0, width > 0;
                            assert(false);
                        }
                    }
                    assert(s0.grid.cell(x2, y2) == UNDETERMINED);
                    assert(false);
                }
                unreached()
            },
        };
        let ghost spre = self@;
        let r = self.collapse_location(bx, by, selection_mode);
        proof {
            lemma_index_bound(bx as int, by as int, width as int, height as int);
            assert(spre.grid == s0.grid);
            assert(first_lowest_entropy(old(self)@, bx as int, by as int));
            assert(spre.legal_at(bx as int, by as int) == old(self)@.legal_at(
                bx as int,
                by as int,
            ));
            if r == Ok::<bool, ()>(true) {
                assert(wave_settled(old(self)@.grid, self@, bx as int, by as int));
            }
            if spre.legal_at(bx as int, by as int).len() > 0 {
                let v = choose|v: i32|
                    {
                        &&& #[trigger] picked(*selection_mode, spre, bx as int, by as int, v)
                        &&& grid_refines(
                            spre.grid.set_cell(bx as int, by as int, v),
                            self@.grid,
                        )
                        &&& self@.grid.cell(bx as int, by as int) == v
                        &&& v != UNDETERMINED
                        &&& count_undet(self@.grid.cells) <= count_undet(
                            spre.grid.set_cell(bx as int, by as int, v).cells,
                        )
                    };
                lemma_refines_set_undet(spre.grid, bx as int, by as int, v);
                lemma_refines_trans(
                    spre.grid,
                    spre.grid.set_cell(bx as int, by as int, v),
                    self@.grid,
                );
                lemma_count_undet_update(spre.grid.cells, by as int * width as int + bx as int, v);
                assert(self@.grid.cell(bx as int, by as int) != UNDETERMINED);
            } else {
                assert(r == Err::<bool, ()>(()));
                assert(grid_refines(s0.grid, self@.grid));
            }
        }
        r
    }

    /// Repeats lowest-entropy collapses until every cell is determined or a
    /// contradiction ends the run. `true` reports success: no undetermined
    /// cell is left, and a grid with nothing left to determine always
    /// succeeds untouched. On `false` the grid is partially collapsed and
    /// should be discarded.
    pub fn collapse_fully(&mut self, selection_mode: &SelectionStrategy) -> (ok: bool)
        requires
            old(self)@.wf(),
            selection_mode.usable(),
            selection_mode.draws_from(old(self)@.states),
        ensures
            final(self)@.wf(),
            final(self)@.tables == old(self)@.tables,
            final(self)@.states == old(self)@.states,
            grid_refines(old(self)@.grid, final(self)@.grid),
            ok ==> count_undet(final(self)@.grid.cells) == 0,
            ok ==> forall|idx: int|
                0 <= idx < final(self)@.grid.cells.len() ==> (#[trigger] final(self)@.grid.cells[idx])
                    != UNDETERMINED,
            count_undet(old(self)@.grid.cells) == 0 ==> ok && final(self)@.grid == old(
                self,
            )@.grid,
    {
        let mut ud = self.undefined_count();
        while ud > 0
            invariant
                self@.wf(),
                self@.tables == old(self)@.tables,
                self@.states == old(self)@.states,
                selection_mode.usable(),
                selection_mode.draws_from(self@.states),
                ud == count_undet(self@.grid.cells),
                grid_refines(old(self)@.grid, self@.grid),
            decreases ud,
        {
            proof {
                if count_undet(old(self)@.grid.cells) == 0 {
                    lemma_count_undet_zero(old(self)@.grid.cells);
                    assert forall|i: int|
                        0 <= i < self@.grid.cells.len() implies (#[trigger] self@.grid.cells[i])
                        != UNDETERMINED by {
                        assert(old(self)@.grid.cells[i] != UNDETERMINED);
                    }
                    lemma_count_undet_zero(self@.grid.cells);
                    assert(false);
                }
            }
            let ghost gpre = self@.grid;
            let r = self.collapse_lowest_entropy(selection_mode);
            proof {
                lemma_refines_trans(old(self)@.grid, gpre, self@.grid);
            }
            match r {
                Err(()) => {
                    return false;
                },
                Ok(b) => {
                    if !b {
                        return false;
                    }
                },
            }
            ud = self.undefined_count();
        }
        proof {
            lemma_count_undet_zero(self@.grid.cells);
            if count_undet(old(self)@.grid.cells) == 0 {
                lemma_count_undet_zero(old(self)@.grid.cells);
                assert(self@.grid.cells =~= old(self)@.grid.cells);
                assert(self@.grid == old(self)@.grid);
            }
        }
        true
    }
}

/// Under the solver invariant, every determined cell's tile type is
/// registered in every constraint's table, so local checks never probe an
/// unknown type.
pub proof fn lemma_wf_neighbors_known(s: SolverView, k: int, x: int, y: int)
    requires
        s.wf(),
        0 <= k < s.tables.len(),
        s.grid.in_bounds(x, y),
    ensures
        crate::constraint::neighbors_known(s.tables[k], s.grid, x, y),
{
    assert forall|i: int| 0 <= i < 8 implies {
        let nx = x + #[trigger] offset_dx(i);
        let ny = y + offset_dy(i);
        s.grid.in_bounds(nx, ny) && s.grid.cell(nx, ny) != UNDETERMINED ==> table_has(
            s.tables[k], s.grid.cell(nx, ny),
        )
    } by {
        let nx = x + offset_dx(i);
        let ny = y + offset_dy(i);
        if s.grid.in_bounds(nx, ny) && s.grid.cell(nx, ny) != UNDETERMINED {
            lemma_index_bound(nx, ny, s.grid.width as int, s.grid.height as int);
            let v = s.grid.cells[ny * s.grid.width + nx];
            assert(s.states.contains(v));
            let i0 = choose|i0: int| 0 <= i0 < s.states.len() && s.states[i0] == v;
            assert(table_has(s.tables[k], s.states[i0]));
        }
    }
}

/// Every element of a filtered sequence occurs in the unfiltered one.
pub proof fn lemma_filter_elems<A>(s: Seq<A>, pred: spec_fn(A) -> bool)
    ensures
        forall|i: int| 0 <= i < s.filter(pred).len() ==> s.contains(#[trigger] s.filter(pred)[i]),
    decreases s.len(),
{
    reveal(Seq::filter);
    if s.len() != 0 {
        lemma_filter_elems(s.drop_last(), pred);
        assert forall|i: int| 0 <= i < s.filter(pred).len() implies s.contains(
            #[trigger] s.filter(pred)[i],
        ) by {
            let f = s.filter(pred);
            let fd = s.drop_last().filter(pred);
            if pred(s.last()) {
                assert(f == fd.push(s.last()));
                if i < fd.len() {
                    assert(s.drop_last().contains(fd[i]));
                    let j = choose|j: int|
                        0 <= j < s.drop_last().len() && s.drop_last()[j] == fd[i];
                    assert(s[j] == f[i]);
                } else {
                    assert(f[i] == s.last());
                    assert(s[s.len() - 1] == s.last());
                }
            } else {
                assert(f == fd);
                assert(s.drop_last().contains(fd[i]));
                let j = choose|j: int| 0 <= j < s.drop_last().len() && s.drop_last()[j] == fd[i];
                assert(s[j] == f[i]);
            }
        }
    }
}

/// When one predicate implies another pointwise over a sequence, its filtered
/// sequence is no longer than the other's.
pub proof fn lemma_filter_narrow_len<A>(s: Seq<A>, p: spec_fn(A) -> bool, q: spec_fn(A) -> bool)
    requires
        forall|i: int| 0 <= i < s.len() && q(#[trigger] s[i]) ==> p(s[i]),
    ensures
        s.filter(q).len() <= s.filter(p).len(),
    decreases s.len(),
{
    reveal(Seq::filter);
    if s.len() != 0 {
        assert forall|i: int|
            0 <= i < s.drop_last().len() && q(#[trigger] s.drop_last()[i]) implies p(
            s.drop_last()[i],
        ) by {
            assert(s.drop_last()[i] == s[i]);
        }
        lemma_filter_narrow_len(s.drop_last(), p, q);
        assert(q(s.last()) ==> p(s.last()));
    }
}

/// When one predicate implies another pointwise over a sequence, everything
/// kept by the stronger predicate is kept by the weaker one.
pub proof fn lemma_filter_narrow_contains<A>(
    s: Seq<A>,
    p: spec_fn(A) -> bool,
    q: spec_fn(A) -> bool,
)
    requires
        forall|i: int| 0 <= i < s.len() && q(#[trigger] s[i]) ==> p(s[i]),
    ensures
        forall|v: A| s.filter(q).contains(v) ==> s.filter(p).contains(v),
{
    assert forall|v: A| s.filter(q).contains(v) implies s.filter(p).contains(v) by {
        let i = choose|i: int| 0 <= i < s.filter(q).len() && s.filter(q)[i] == v;
        s.lemma_filter_pred(q, i);
        lemma_filter_elems(s, q);
        assert(s.contains(v));
        let j = choose|j: int| 0 <= j < s.len() && s[j] == v;
        assert(q(s[j]));
        assert(p(s[j]));
        s.lemma_filter_contains(p, j);
    }
}

/// Pointwise-equal predicates filter a sequence identically.
pub proof fn lemma_filter_congruence<A>(s: Seq<A>, p: spec_fn(A) -> bool, q: spec_fn(A) -> bool)
    requires
        forall|i: int| 0 <= i < s.len() ==> p(#[trigger] s[i]) == q(s[i]),
    ensures
        s.filter(p) == s.filter(q),
    decreases s.len(),
{
    reveal(Seq::filter);
    if s.len() != 0 {
        assert forall|i: int| 0 <= i < s.drop_last().len() implies p(
            #[trigger] s.drop_last()[i],
        ) == q(s.drop_last()[i]) by {
            assert(s.drop_last()[i] == s[i]);
        }
        lemma_filter_congruence(s.drop_last(), p, q);
        assert(p(s.last()) == q(s.last()));
    }
}

/// Determining an undetermined cell lowers the undetermined count by one.
pub proof fn lemma_count_undet_update(c: Seq<i32>, i: int, v: i32)
    requires
        0 <= i < c.len(),
        c[i] == UNDETERMINED,
        v != UNDETERMINED,
    ensures
        count_undet(c.update(i, v)) + 1 == count_undet(c),
    decreases c.len(),
{
    let u = c.update(i, v);
    if i == c.len() - 1 {
        assert(u.drop_last() =~= c.drop_last());
        assert(u.last() == v);
        assert(c.last() == UNDETERMINED);
    } else {
        assert(u.drop_last() =~= c.drop_last().update(i, v));
        assert(u.last() == c.last());
        lemma_count_undet_update(c.drop_last(), i, v);
    }
}

/// The undetermined count is zero exactly when every cell is determined.
pub proof fn lemma_count_undet_zero(c: Seq<i32>)
    ensures
        (count_undet(c) == 0) <==> (forall|i: int|
            0 <= i < c.len() ==> (#[trigger] c[i]) != UNDETERMINED),
    decreases c.len(),
{
    if c.len() != 0 {
        lemma_count_undet_zero(c.drop_last());
        assert forall|i: int|
            0 <= i < c.drop_last().len() implies c.drop_last()[i] == c[i] by {}
        assert(c.last() == c[c.len() - 1]);
    }
}

/// Grid refinement is transitive.
pub proof fn lemma_refines_trans(g1: GridView, g2: GridView, g3: GridView)
    requires
        grid_refines(g1, g2),
        grid_refines(g2, g3),
    ensures
        grid_refines(g1, g3),
{
    assert forall|idx: int|
        0 <= idx < g1.cells.len() && (#[trigger] g1.cells[idx]) != UNDETERMINED implies g3.cells[idx]
        == g1.cells[idx] by {
        assert(g2.cells[idx] == g1.cells[idx]);
    }
}

/// Determining an undetermined cell is a refinement.
pub proof fn lemma_refines_set_undet(g: GridView, x: int, y: int, v: i32)
    requires
        g.wf(),
        g.in_bounds(x, y),
        g.cell(x, y) == UNDETERMINED,
    ensures
        grid_refines(g, g.set_cell(x, y, v)),
{
    lemma_index_bound(x, y, g.width as int, g.height as int);
}

/// The legal values at a cell depend only on the contents of its own
/// 8-neighborhood: two solvers with equal constraints and allowed states,
/// over grids of the same shape that agree on that neighborhood, assign the
/// cell the same legal values.
pub proof fn lemma_legal_at_local(s1: SolverView, s2: SolverView, x: int, y: int)
    requires
        s1.grid.wf(),
        s2.grid.wf(),
        s1.tables == s2.tables,
        s1.states == s2.states,
        s1.grid.height == s2.grid.height,
        s1.grid.width == s2.grid.width,
        forall|i: int|
            0 <= i < 8 ==> {
                let nx = x + #[trigger] offset_dx(i);
                let ny = y + offset_dy(i);
                s1.grid.in_bounds(nx, ny) ==> s1.grid.cell(nx, ny) == s2.grid.cell(nx, ny)
            },
    ensures
        s1.legal_at(x, y) == s2.legal_at(x, y),
{
    let p1 = all_pred(s1.tables, s1.grid, x, y);
    let p2 = all_pred(s2.tables, s2.grid, x, y);
    assert forall|i: int| 0 <= i < s1.states.len() implies p1(#[trigger] s1.states[i]) == p2(
        s1.states[i],
    ) by {
        let v = s1.states[i];
        assert forall|k: int| 0 <= k < s1.tables.len() implies check_ok(
            #[trigger] s1.tables[k],
            s1.grid,
            v,
            x,
            y,
        ) == check_ok(s1.tables[k], s2.grid, v, x, y) by {
            let t = s1.tables[k];
            assert forall|d: int| 0 <= d < 8 implies crate::constraint::dir_ok(t, s1.grid, v, x, y, d)
                == crate::constraint::dir_ok(t, s2.grid, v, x, y, d) by {
                let nx = x + offset_dx(d);
                let ny = y + offset_dy(d);
                assert(s1.grid.in_bounds(nx, ny) == s2.grid.in_bounds(nx, ny));
                if s1.grid.in_bounds(nx, ny) {
                    assert(s1.grid.cell(nx, ny) == s2.grid.cell(nx, ny));
                }
            }
        }
    }
    lemma_filter_congruence(s1.states, p1, p2);
}

/// Law (monotonic narrowing): as collapses determine more cells — the grid
/// refining over time while constraints and allowed states stay fixed — the
/// legal values at any cell only narrow: the later set is contained in the
/// earlier one, and its count never grows.
pub proof fn lemma_monotonic_narrowing(s1: SolverView, s2: SolverView, x: int, y: int)
    requires
        s1.tables == s2.tables,
        s1.states == s2.states,
        s1.grid.wf(),
        grid_refines(s1.grid, s2.grid),
        s1.grid.in_bounds(x, y),
    ensures
        forall|v: i32|
            s2.legal_at(x, y).contains(v) ==> s1.legal_at(x, y).contains(v),
        s2.legal_at(x, y).len() <= s1.legal_at(x, y).len(),
{
    let p = all_pred(s1.tables, s1.grid, x, y);
    let q = all_pred(s2.tables, s2.grid, x, y);
    assert forall|i: int| 0 <= i < s1.states.len() && q(#[trigger] s1.states[i]) implies p(
        s1.states[i],
    ) by {
        let v = s1.states[i];
        assert forall|k: int| 0 <= k < s1.tables.len() implies check_ok(
            #[trigger] s1.tables[k],
            s1.grid,
            v,
            x,
            y,
        ) by {
            assert(check_ok(s1.tables[k], s2.grid, v, x, y));
            if v != UNDETERMINED {
                assert forall|d: int| 0 <= d < 8 implies #[trigger] crate::constraint::dir_ok(
                    s1.tables[k],
                    s1.grid,
                    v,
                    x,
                    y,
                    d,
                ) by {
                    assert(crate::constraint::dir_ok(s1.tables[k], s2.grid, v, x, y, d));
                    let nx = x + offset_dx(d);
                    let ny = y + offset_dy(d);
                    if s1.grid.in_bounds(nx, ny) && s1.grid.cell(nx, ny) != UNDETERMINED {
                        lemma_index_bound(nx, ny, s1.grid.width as int, s1.grid.height as int);
                        assert(s2.grid.cell(nx, ny) == s1.grid.cell(nx, ny));
                    }
                }
            }
        }
    }
    lemma_filter_narrow_contains(s1.states, p, q);
    lemma_filter_narrow_len(s1.states, p, q);
}

/// Each offset pair occurs among the eight directions.
pub proof fn lemma_offset_complete(dx: int, dy: int)
    requires
        -1 <= dx <= 1,
        -1 <= dy <= 1,
        !(dx == 0 && dy == 0),
    ensures
        exists|i: int| 0 <= i < 8 && #[trigger] offset_dx(i) == dx && offset_dy(i) == dy,
{
    if dy == -1 {
        if dx == -1 {
            assert(offset_dx(0) == dx && offset_dy(0) == dy);
        } else if dx == 0 {
            assert(offset_dx(1) == dx && offset_dy(1) == dy);
        } else {
            assert(offset_dx(2) == dx && offset_dy(2) == dy);
        }
    } else if dy == 0 {
        if dx == -1 {
            assert(offset_dx(3) == dx && offset_dy(3) == dy);
        } else {
            assert(offset_dx(4) == dx && offset_dy(4) == dy);
        }
    } else {
        if dx == -1 {
            assert(offset_dx(5) == dx && offset_dy(5) == dy);
        } else if dx == 0 {
            assert(offset_dx(6) == dx && offset_dy(6) == dy);
        } else {
            assert(offset_dx(7) == dx && offset_dy(7) == dy);
        }
    }
}

} // verus!
