//! Adjacency constraints: a per-tile-type, per-direction table of allowed
//! neighbor tile types, and the local validity check it induces.

use vstd::prelude::*;
use vstd::pervasive::unreached;
use crate::dirs::{offset, minus_index, offset_dx, offset_dy, opp};
use crate::grid::{Grid, GridView, UNDETERMINED};

verus! {

/// One tile type's rule: for each of the 8 directions, the tile types allowed
/// in the neighboring cell in that direction.
#[derive(Debug)]
pub struct BorderRule {
    pub tile: i32,
    pub allowed: Vec<Vec<i32>>,
}

/// Ghost counterpart of a `BorderRule`: per direction, the set of allowed
/// neighbor types.
pub ghost struct RuleView {
    pub tile: i32,
    pub allowed: Seq<Set<i32>>,
}

impl View for BorderRule {
    type V = RuleView;

    open spec fn view(&self) -> RuleView {
        RuleView { tile: self.tile, allowed: self.allowed@.map_values(|v: Vec<i32>| v@.to_set()) }
    }
}

/// Every rule covers exactly the 8 directions, and no tile type has two rules.
pub open spec fn table_wf(t: Seq<RuleView>) -> bool {
    &&& forall|i: int| 0 <= i < t.len() ==> (#[trigger] t[i]).allowed.len() == 8
    &&& forall|i: int, j: int| 0 <= i < t.len() && 0 <= j < t.len() && i != j
        ==> t[i].tile != t[j].tile
}

/// The table registers a rule for `tile`.
pub open spec fn table_has(t: Seq<RuleView>, tile: i32) -> bool {
    exists|i: int| 0 <= i < t.len() && (#[trigger] t[i]).tile == tile
}

/// The rule for `tile` allows `v` as its neighbor in direction `d`.
pub open spec fn table_allows(t: Seq<RuleView>, tile: i32, d: int, v: i32) -> bool {
    exists|i: int| 0 <= i < t.len() && (#[trigger] t[i]).tile == tile && t[i].allowed[d].contains(v)
}

/// Does direction `i` of cell `(x, y)` tolerate value `v`? It does when the
/// neighbor in that direction lies outside the grid or is still undetermined;
/// otherwise the neighbor's rule for the opposite direction must allow `v`.
pub open spec fn dir_ok(t: Seq<RuleView>, g: GridView, v: i32, x: int, y: int, i: int) -> bool {
    let nx = x + offset_dx(i);
    let ny = y + offset_dy(i);
    ||| !g.in_bounds(nx, ny)
    ||| g.cell(nx, ny) == UNDETERMINED
    ||| table_allows(t, g.cell(nx, ny), opp(i), v)
}

/// A candidate value is locally valid at `(x, y)` when every direction
/// tolerates it; the sentinel `UNDETERMINED` is always valid.
pub open spec fn check_ok(t: Seq<RuleView>, g: GridView, v: i32, x: int, y: int) -> bool {
    v == UNDETERMINED || forall|i: int| 0 <= i < 8 ==> #[trigger] dir_ok(t, g, v, x, y, i)
}

/// Every determined neighbor of `(x, y)` has an entry in the table. Probing a
/// tile type outside the registered universe is a fatal error, so the check
/// demands this of its callers.
pub open spec fn neighbors_known(t: Seq<RuleView>, g: GridView, x: int, y: int) -> bool {
    forall|i: int| 0 <= i < 8 ==> {
        let nx = x + #[trigger] offset_dx(i);
        let ny = y + offset_dy(i);
        g.in_bounds(nx, ny) && g.cell(nx, ny) != UNDETERMINED ==> table_has(t, g.cell(nx, ny))
    }
}

/// Law (sentinel permissiveness): probing with `UNDETERMINED` is valid at
/// every cell of every grid under every table, whatever the grid holds.
pub proof fn lemma_sentinel_permissive(t: Seq<RuleView>, g: GridView, x: int, y: int)
    ensures
        check_ok(t, g, UNDETERMINED, x, y),
{
}

/// The predicate "locally valid at `(x, y)`", as a function of the candidate
/// value.
pub open spec fn legal_pred(t: Seq<RuleView>, g: GridView, x: int, y: int) -> spec_fn(i32) -> bool {
    |v: i32| check_ok(t, g, v, x, y)
}

/// The in-bounds neighbor of `(x, y)` in direction `i`, if there is one.
pub fn neighbor_coord(x: usize, y: usize, i: usize, width: usize, height: usize) -> (r: Option<
    (usize, usize),
>)
    requires
        i < 8,
        x < width,
        y < height,
    ensures
        match r {
            Some(p) => {
                &&& p.0 < width
                &&& p.1 < height
                &&& p.0 as int == x + offset_dx(i as int)
                &&& p.1 as int == y + offset_dy(i as int)
            },
            None => !(0 <= x + offset_dx(i as int) < width && 0 <= y + offset_dy(i as int)
                < height),
        },
{
    let (dx, dy) = offset(i);
    let nx: usize = if dx < 0 {
        if x == 0 {
            return None;
        }
        x - 1
    } else if dx > 0 {
        if x + 1 >= width {
            return None;
        }
        x + 1
    } else {
        x
    };
    let ny: usize = if dy < 0 {
        if y == 0 {
            return None;
        }
        y - 1
    } else if dy > 0 {
        if y + 1 >= height {
            return None;
        }
        y + 1
    } else {
        y
    };
    Some((nx, ny))
}

/// Whether `v` holds `t` somewhere.
pub fn vec_contains(v: &Vec<i32>, t: i32) -> (b: bool)
    ensures
        b == v@.contains(t),
{
    let mut i: usize = 0;
    while i < v.len()
        invariant
            i <= v@.len(),
            forall|k: int| 0 <= k < i ==> v@[k] != t,
        decreases v@.len() - i,
    {
        if v[i] == t {
            return true;
        }
        i = i + 1;
    }
    false
}

/// The rule registered for `tile`.
fn find_rule<'a>(rules: &'a Vec<BorderRule>, tile: i32) -> (r: &'a BorderRule)
    requires
        table_has(rules@.map_values(|br: BorderRule| br@), tile),
    ensures
        r@.tile == tile,
        exists|j: int| 0 <= j < rules@.len() && (#[trigger] rules@[j])@ == r@,
{
    let ghost t = rules@.map_values(|br: BorderRule| br@);
    let mut i: usize = 0;
    while i < rules.len()
        invariant
            i <= rules@.len(),
            t == rules@.map_values(|br: BorderRule| br@),
            table_has(t, tile),
            forall|k: int| 0 <= k < i ==> t[k].tile != tile,
        decreases rules@.len() - i,
    {
        if rules[i].tile == tile {
            return &rules[i];
        }
        i = i + 1;
    }
    unreached()
}

/// A local validity rule for grid cells. Its one concrete form is a border
/// table: per tile type, per direction, the set of allowed neighbor types,
/// evaluated by a single shared interpreter.
#[derive(Debug)]
pub enum GridConstraint {
    BorderTable { rules: Vec<BorderRule> },
}

impl View for GridConstraint {
    type V = Seq<RuleView>;

    open spec fn view(&self) -> Seq<RuleView> {
        match self {
            GridConstraint::BorderTable { rules } => rules@.map_values(|br: BorderRule| br@),
        }
    }
}

impl GridConstraint {
    pub open spec fn wf(&self) -> bool {
        table_wf(self@)
    }

    /// A constraint from an explicitly declared border table.
    pub fn new_from_borders(rules: Vec<BorderRule>) -> (c: GridConstraint)
        requires
            table_wf(rules@.map_values(|br: BorderRule| br@)),
        ensures
            c.wf(),
            c@ == rules@.map_values(|br: BorderRule| br@),
    {
        GridConstraint::BorderTable { rules }
    }

    /// Whether `test_value` is locally valid at `(x, y)`: true outright for
    /// the sentinel `UNDETERMINED`, and otherwise exactly when every
    /// determined in-bounds neighbor's rule allows `test_value` from its side.
    pub fn check_constraint(&self, grid: &Grid, test_value: i32, x: usize, y: usize) -> (r: bool)
        requires
            grid@.wf(),
            x < grid@.width,
            y < grid@.height,
            self.wf(),
            neighbors_known(self@, grid@, x as int, y as int),
        ensures
            r == check_ok(self@, grid@, test_value, x as int, y as int),
            test_value == UNDETERMINED ==> r,
    {
        if test_value == UNDETERMINED {
            return true;
        }
        let rules = match self {
            GridConstraint::BorderTable { rules } => rules,
        };
        let width = grid.width();
        let height = grid.height();
        let mut i: usize = 0;
        while i < 8
            invariant
                grid@.wf(),
                x < grid@.width,
                y < grid@.height,
                width == grid@.width,
                height == grid@.height,
                self.wf(),
                neighbors_known(self@, grid@, x as int, y as int),
                self@ == rules@.map_values(|br: BorderRule| br@),
                test_value != UNDETERMINED,
                i <= 8,
                forall|k: int| 0 <= k < i ==> #[trigger] dir_ok(
                    self@, grid@, test_value, x as int, y as int, k,
                ),
            decreases 8 - i,
        {
            match neighbor_coord(x, y, i, width, height) {
                None => {
                    proof {
                        assert(!grid@.in_bounds(x + offset_dx(i as int), y + offset_dy(i as int)));
                        assert(dir_ok(self@, grid@, test_value, x as int, y as int, i as int));
                    }
                },
                Some((nx, ny)) => {
                    let tt = *grid.get_sq(nx, ny);
                    if tt != UNDETERMINED {
                        proof {
                            assert(grid@.cell(x + offset_dx(i as int), y + offset_dy(i as int))
                                == tt);
                            assert(table_has(self@, tt));
                        }
                        let rule = find_rule(rules, tt);
                        let ghost j0 = choose|j0: int|
                            0 <= j0 < rules@.len() && (#[trigger] rules@[j0])@ == rule@;
                        proof {
                            assert(self@[j0] == rule@);
                            assert(rule@.allowed.len() == 8);
                        }
                        let j = minus_index(i);
                        let present = vec_contains(&rule.allowed[j], test_value);
                        proof {
                            assert(rule@.allowed[opp(i as int)] == rule.allowed@[j as int]@.to_set());
                            assert(present == rule@.allowed[opp(i as int)].contains(test_value));
                        }
                        if !present {
                            proof {
                                assert forall|i1: int|
                                    0 <= i1 < self@.len() && (#[trigger] self@[i1]).tile == tt
                                    implies !self@[i1].allowed[opp(i as int)].contains(
                                    test_value,
                                ) by {
                                    assert(i1 == j0);
                                };
                                assert(!table_allows(self@, tt, opp(i as int), test_value));
                                assert(!dir_ok(
                                    self@, grid@, test_value, x as int, y as int, i as int,
                                ));
                            }
                            return false;
                        }
                        proof {
                            assert(self@[j0].tile == tt && self@[j0].allowed[opp(i as int)]
                                .contains(test_value));
                            assert(table_allows(self@, tt, opp(i as int), test_value));
                            assert(dir_ok(self@, grid@, test_value, x as int, y as int, i as int));
                        }
                    } else {
                        proof {
                            assert(dir_ok(self@, grid@, test_value, x as int, y as int, i as int));
                        }
                    }
                },
            }
            i = i + 1;
        }
        true
    }

    /// Filters `allowed_states` down to the values locally valid at `(x, y)`,
    /// preserving order.
    pub fn get_allowed_states(
        &self,
        grid: &Grid,
        allowed_states: &[i32],
        x: usize,
        y: usize,
    ) -> (r: Vec<i32>)
        requires
            grid@.wf(),
            x < grid@.width,
            y < grid@.height,
            self.wf(),
            neighbors_known(self@, grid@, x as int, y as int),
        ensures
            r@ == allowed_states@.filter(legal_pred(self@, grid@, x as int, y as int)),
    {
        let ghost pred = legal_pred(self@, grid@, x as int, y as int);
        let mut out: Vec<i32> = Vec::new();
        let mut i: usize = 0;
        while i < allowed_states.len()
            invariant
                grid@.wf(),
                x < grid@.width,
                y < grid@.height,
                self.wf(),
                neighbors_known(self@, grid@, x as int, y as int),
                i <= allowed_states@.len(),
                pred == legal_pred(self@, grid@, x as int, y as int),
                out@ == allowed_states@.take(i as int).filter(pred),
            decreases allowed_states@.len() - i,
        {
            let v = allowed_states[i];
            let keep = self.check_constraint(grid, v, x, y);
            proof {
                lemma_take_one_more(allowed_states@, i as int);
                Seq::<i32>::filter_distributes_over_add(
                    allowed_states@.take(i as int),
                    seq![v],
                    pred,
                );
                lemma_filter_singleton(v, pred);
            }
            if keep {
                out.push(v);
            }
            i = i + 1;
        }
        proof {
            assert(allowed_states@.take(allowed_states@.len() as int) =~= allowed_states@);
        }
        out
    }
}

/// Taking one more element appends exactly `s[i]`.
pub proof fn lemma_take_one_more<A>(s: Seq<A>, i: int)
    requires
        0 <= i < s.len(),
    ensures
        s.take(i + 1) == s.take(i) + seq![s[i]],
{
    assert(s.take(i + 1) =~= s.take(i) + seq![s[i]]);
}

/// Filtering a one-element sequence keeps or drops that element.
pub proof fn lemma_filter_singleton<A>(v: A, pred: spec_fn(A) -> bool)
    ensures
        seq![v].filter(pred) == if pred(v) {
            seq![v]
        } else {
            Seq::<A>::empty()
        },
{
    reveal(Seq::filter);
    assert(seq![v].drop_last() =~= Seq::<A>::empty());
    assert(Seq::<A>::empty().filter(pred) =~= Seq::<A>::empty());
    if pred(v) {
        assert(seq![v].filter(pred) =~= seq![v]);
    } else {
        assert(seq![v].filter(pred) =~= Seq::<A>::empty());
    }
}

} // verus!
