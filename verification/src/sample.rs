//! Deriving a constraint set from a fully populated sample grid: for every
//! tile type and every direction, the set of tile types ever observed
//! adjacent to it in the sample.

use vstd::prelude::*;
use crate::constraint::{
    check_ok, dir_ok, neighbor_coord, table_allows, table_has, table_wf, vec_contains, BorderRule,
    GridConstraint, RuleView,
};
use crate::dirs::{lemma_offset_involution, offset_dx, offset_dy, opp};
use crate::grid::{lemma_index_bound, GridView, UNDETERMINED};
use crate::solver::{all_pass, ConstraintSolver, SolverView};

verus! {

/// The sample's cell value at `(x, y)`, row-major.
pub open spec fn cell_of(data: Seq<i32>, width: int, x: int, y: int) -> i32 {
    data[y * width + x]
}

/// Tile type `b` is observed somewhere in the sample as the neighbor of tile
/// type `a` in direction `d`.
pub open spec fn observed(
    data: Seq<i32>,
    height: int,
    width: int,
    a: i32,
    d: int,
    b: i32,
) -> bool {
    exists|x: int, y: int|
        #![trigger cell_of(data, width, x, y)]
        {
            &&& 0 <= x < width && 0 <= y < height
            &&& cell_of(data, width, x, y) == a
            &&& 0 <= x + offset_dx(d) < width && 0 <= y + offset_dy(d) < height
            &&& cell_of(data, width, x + offset_dx(d), y + offset_dy(d)) == b
        }
}

/// The distinct values of `data`, each listed once at its first occurrence,
/// in first-occurrence order.
pub open spec fn uniques(data: Seq<i32>) -> Seq<i32>
    decreases data.len(),
{
    if data.len() == 0 {
        Seq::empty()
    } else {
        let rest = uniques(data.drop_last());
        if rest.contains(data.last()) {
            rest
        } else {
            rest.push(data.last())
        }
    }
}

/// Like `observed`, but the witness cell must lie before the scan frontier
/// `(xl, yl)` in row-major scan order.
pub open spec fn observed_upto(
    data: Seq<i32>,
    height: int,
    width: int,
    a: i32,
    d: int,
    b: i32,
    xl: int,
    yl: int,
) -> bool {
    exists|x: int, y: int|
        #![trigger cell_of(data, width, x, y)]
        {
            &&& 0 <= x < width && 0 <= y < height
            &&& (y < yl || (y == yl && x < xl))
            &&& cell_of(data, width, x, y) == a
            &&& 0 <= x + offset_dx(d) < width && 0 <= y + offset_dy(d) < height
            &&& cell_of(data, width, x + offset_dx(d), y + offset_dy(d)) == b
        }
}

/// Moving the frontier one cell right adds exactly that cell as a potential
/// witness.
proof fn lemma_observed_upto_step(
    data: Seq<i32>,
    height: int,
    width: int,
    a: i32,
    d: int,
    b: i32,
    x: int,
    y: int,
)
    requires
        0 <= x < width,
        0 <= y < height,
    ensures
        observed_upto(data, height, width, a, d, b, x + 1, y) <==> (observed_upto(
            data, height, width, a, d, b, x, y,
        ) || (cell_of(data, width, x, y) == a && 0 <= x + offset_dx(d) < width && 0 <= y
            + offset_dy(d) < height && cell_of(data, width, x + offset_dx(d), y + offset_dy(d))
            == b)),
{
    if observed_upto(data, height, width, a, d, b, x + 1, y) {
        let (x2, y2) = choose|x2: int, y2: int|
            #![trigger cell_of(data, width, x2, y2)]
            {
                &&& 0 <= x2 < width && 0 <= y2 < height
                &&& (y2 < y || (y2 == y && x2 < x + 1))
                &&& cell_of(data, width, x2, y2) == a
                &&& 0 <= x2 + offset_dx(d) < width && 0 <= y2 + offset_dy(d) < height
                &&& cell_of(data, width, x2 + offset_dx(d), y2 + offset_dy(d)) == b
            };
        if y2 < y || (y2 == y && x2 < x) {
            assert(observed_upto(data, height, width, a, d, b, x, y));
        } else {
            assert(x2 == x && y2 == y);
        }
    }
}

/// A frontier at the end of a row equals one at the start of the next.
proof fn lemma_observed_upto_row(
    data: Seq<i32>,
    height: int,
    width: int,
    a: i32,
    d: int,
    b: i32,
    y: int,
)
    ensures
        observed_upto(data, height, width, a, d, b, width, y) <==> observed_upto(
            data, height, width, a, d, b, 0, y + 1,
        ),
{
}

/// With the frontier past the last row, the restriction is gone.
proof fn lemma_observed_upto_all(data: Seq<i32>, height: int, width: int, a: i32, d: int, b: i32)
    ensures
        observed_upto(data, height, width, a, d, b, 0, height) <==> observed(
            data, height, width, a, d, b,
        ),
{
}

impl ConstraintSolver {
    /// A solver derived from a fully populated sample grid: the allowed tile
    /// types are exactly those occurring in the sample, and a single
    /// border-table constraint records, for every tile type and every
    /// direction, exactly the neighbor types observed next to it in the
    /// sample. The solver's own grid starts fully undetermined at the
    /// sample's dimensions.
    pub fn new_from_data(data: &[i32], height: usize, width: usize) -> (s: ConstraintSolver)
        requires
            data@.len() == height * width,
            height * width <= usize::MAX,
            forall|i: int| 0 <= i < data@.len() ==> #[trigger] data@[i] >= 0,
        ensures
            s@.wf(),
            s@.grid.height == height,
            s@.grid.width == width,
            forall|idx: int| 0 <= idx < s@.grid.cells.len() ==> s@.grid.cells[idx] == UNDETERMINED,
            s@.tables.len() == 1,
            s@.states == uniques(data@),
            forall|v: i32| s@.states.contains(v) <==> data@.contains(v),
            forall|a: i32| table_has(s@.tables[0], a) <==> data@.contains(a),
            forall|a: i32, d: int, b: i32|
                0 <= d < 8 ==> (#[trigger] table_allows(s@.tables[0], a, d, b) <==> observed(
                    data@, height as int, width as int, a, d, b,
                )),
    {
        // collect the distinct tile types, in first-occurrence order
        let mut states: Vec<i32> = Vec::new();
        let mut i: usize = 0;
        while i < data.len()
            invariant
                i <= data@.len(),
                forall|k: int| 0 <= k < data@.len() ==> #[trigger] data@[k] >= 0,
                forall|k: int| 0 <= k < states@.len() ==> #[trigger] states@[k] >= 0,
                forall|k: int, j: int|
                    0 <= k < states@.len() && 0 <= j < states@.len() && k != j
                        ==> states@[k] != states@[j],
                forall|v: i32| states@.contains(v) <==> data@.take(i as int).contains(v),
                states@ == uniques(data@.take(i as int)),
            decreases data@.len() - i,
        {
            let v = data[i];
            let ghost pre = states@;
            if !vec_contains(&states, v) {
                states.push(v);
            }
            proof {
                crate::constraint::lemma_take_one_more(data@, i as int);
                assert(data@.take(i + 1).drop_last() =~= data@.take(i as int));
                assert(data@.take(i + 1).last() == data@[i as int]);
                assert(states@ == uniques(data@.take(i + 1)));
                assert forall|w: i32| states@.contains(w) implies data@.take(
                    i + 1,
                ).contains(w) by {
                    if pre.contains(w) {
                        assert(data@.take(i as int).contains(w));
                        let j = choose|j: int|
                            0 <= j < data@.take(i as int).len() && data@.take(i as int)[j] == w;
                        assert(data@.take(i + 1)[j] == w);
                    } else {
                        assert(states@ == pre.push(v));
                        let j = choose|j: int| 0 <= j < states@.len() && states@[j] == w;
                        assert(w == v);
                        assert(data@.take(i + 1)[i as int] == v);
                    }
                }
                assert forall|w: i32| data@.take(i + 1).contains(w) implies states@.contains(
                    w,
                ) by {
                    let j = choose|j: int|
                        0 <= j < data@.take(i + 1).len() && #[trigger] data@.take(i + 1)[j] == w;
                    if j < i {
                        assert(data@.take(i as int)[j] == w);
                        assert(data@.take(i as int).contains(w));
                        assert(pre.contains(w));
                        if states@ != pre {
                            let k = choose|k: int| 0 <= k < pre.len() && pre[k] == w;
                            assert(states@[k] == w);
                        }
                    } else {
                        assert(w == v);
                        if pre.contains(v) {
                            assert(states@.contains(v));
                        } else {
                            assert(states@ == pre.push(v));
                            assert(states@[states@.len() - 1] == v);
                        }
                    }
                }
            }
            i = i + 1;
        }
        proof {
            assert(data@.take(data@.len() as int) =~= data@);
            assert(states@ == uniques(data@));
        }
        // one rule per tile type: per direction, the observed neighbor types
        let mut rules: Vec<BorderRule> = Vec::new();
        let mut t: usize = 0;
        while t < states.len()
            invariant
                t <= states@.len(),
                data@.len() == height * width,
                height * width <= usize::MAX,
                forall|k: int, j: int|
                    0 <= k < states@.len() && 0 <= j < states@.len() && k != j
                        ==> states@[k] != states@[j],
                rules@.len() == t,
                forall|t2: int| 0 <= t2 < t ==> (#[trigger] rules@[t2])@.tile == states@[t2],
                forall|t2: int| 0 <= t2 < t ==> (#[trigger] rules@[t2])@.allowed.len() == 8,
                forall|t2: int, d2: int, b: i32|
                    #![trigger rules@[t2]@.allowed[d2].contains(b)]
                    0 <= t2 < t && 0 <= d2 < 8 ==> (rules@[t2]@.allowed[d2].contains(b)
                        <==> observed(
                        data@, height as int, width as int, states@[t2], d2, b,
                    )),
            decreases states@.len() - t,
        {
            let a = states[t];
            let mut dirs: Vec<Vec<i32>> = Vec::new();
            let mut d: usize = 0;
            while d < 8
                invariant
                    d <= 8,
                    data@.len() == height * width,
                    height * width <= usize::MAX,
                    a == states@[t as int],
                    t < states@.len(),
                    dirs@.len() == d,
                    forall|d2: int, b: i32|
                        #![trigger dirs@[d2]@.contains(b)]
                        0 <= d2 < d ==> (dirs@[d2]@.contains(b) <==> observed(
                            data@, height as int, width as int, a, d2, b,
                        )),
                decreases 8 - d,
            {
                let mut l: Vec<i32> = Vec::new();
                let mut y: usize = 0;
                while y < height
                    invariant
                        y <= height,
                        d < 8,
                        data@.len() == height * width,
                        height * width <= usize::MAX,
                        forall|b: i32| #[trigger]
                            l@.contains(b) <==> observed_upto(
                                data@, height as int, width as int, a, d as int, b, 0, y as int,
                            ),
                    decreases height - y,
                {
                    let mut x: usize = 0;
                    while x < width
                        invariant
                            x <= width,
                            y < height,
                            d < 8,
                            data@.len() == height * width,
                            height * width <= usize::MAX,
                            forall|b: i32| #[trigger]
                                l@.contains(b) <==> observed_upto(
                                    data@,
                                    height as int,
                                    width as int,
                                    a,
                                    d as int,
                                    b,
                                    x as int,
                                    y as int,
                                ),
                        decreases width - x,
                    {
                        proof {
                            lemma_index_bound(x as int, y as int, width as int, height as int);
                        }
                        let here = data[y * width + x];
                        proof {
                            assert(cell_of(data@, width as int, x as int, y as int) == here);
                        }
                        let ghost lpre = l@;
                        let ghost mut fresh: Option<i32> = None;
                        if here == a {
                            match neighbor_coord(x, y, d, width, height) {
                                None => {},
                                Some((nx, ny)) => {
                                    proof {
                                        lemma_index_bound(
                                            nx as int, ny as int, width as int, height as int,
                                        );
                                    }
                                    let b0 = data[ny * width + nx];
                                    proof {
                                        assert(cell_of(data@, width as int, nx as int, ny as int)
                                            == b0);
                                        fresh = Some(b0);
                                    }
                                    if !vec_contains(&l, b0) {
                                        l.push(b0);
                                    }
                                },
                            }
                        }
                        proof {
                            assert forall|b: i32| #[trigger]
                                l@.contains(b) <==> observed_upto(
                                data@,
                                height as int,
                                width as int,
                                a,
                                d as int,
                                b,
                                x as int + 1,
                                y as int,
                            ) by {
                                lemma_observed_upto_step(
                                    data@,
                                    height as int,
                                    width as int,
                                    a,
                                    d as int,
                                    b,
                                    x as int,
                                    y as int,
                                );
                                match fresh {
                                    None => {
                                        assert(l@ == lpre);
                                    },
                                    Some(b0) => {
                                        if b == b0 {
                                            if lpre.contains(b0) {
                                                assert(l@.contains(b0));
                                            } else {
                                                assert(l@ == lpre.push(b0));
                                                assert(l@[l@.len() - 1] == b0);
                                                assert(l@.contains(b0));
                                            }
                                        } else {
                                            if l@.contains(b) && !lpre.contains(b) {
                                                let j = choose|j: int|
                                                    0 <= j < l@.len() && l@[j] == b;
                                                assert(l@ == lpre.push(b0));
                                                assert(j == l@.len() - 1);
                                                assert(false);
                                            }
                                            if lpre.contains(b) {
                                                let j = choose|j: int|
                                                    0 <= j < lpre.len() && lpre[j] == b;
                                                assert(l@[j] == b);
                                                assert(l@.contains(b));
                                            }
                                        }
                                    },
                                }
                            }
                        }
                        x = x + 1;
                    }
                    proof {
                        lemma_observed_upto_row(
                            data@, height as int, width as int, a, d as int, 0i32, y as int,
                        );
                        assert forall|b: i32| #[trigger]
                            l@.contains(b) <==> observed_upto(
                            data@, height as int, width as int, a, d as int, b, 0, y as int + 1,
                        ) by {
                            lemma_observed_upto_row(
                                data@, height as int, width as int, a, d as int, b, y as int,
                            );
                        }
                    }
                    y = y + 1;
                }
                proof {
                    assert forall|b: i32| #[trigger]
                        l@.contains(b) <==> observed(
                        data@, height as int, width as int, a, d as int, b,
                    ) by {
                        lemma_observed_upto_all(
                            data@, height as int, width as int, a, d as int, b,
                        );
                    }
                }
                let ghost dpre = dirs@;
                dirs.push(l);
                proof {
                    assert forall|d2: int, b: i32|
                        #![trigger dirs@[d2]@.contains(b)]
                        0 <= d2 < d + 1 implies (dirs@[d2]@.contains(b) <==> observed(
                        data@, height as int, width as int, a, d2, b,
                    )) by {
                        if d2 < d {
                            assert(dirs@[d2] == dpre[d2]);
                        }
                    }
                }
                d = d + 1;
            }
            let ghost rpre = rules@;
            rules.push(BorderRule { tile: a, allowed: dirs });
            proof {
                let nr = rules@[t as int];
                assert(nr@.tile == a);
                assert(nr@.allowed.len() == 8);
                assert forall|t2: int, d2: int, b: i32|
                    #![trigger rules@[t2]@.allowed[d2].contains(b)]
                    0 <= t2 < t + 1 && 0 <= d2 < 8 implies (rules@[t2]@.allowed[d2].contains(b)
                    <==> observed(data@, height as int, width as int, states@[t2], d2, b)) by {
                    if t2 < t {
                        assert(rules@[t2] == rpre[t2]);
                    } else {
                        assert(rules@[t2]@.allowed[d2] == nr.allowed@[d2]@.to_set());
                    }
                }
            }
            t = t + 1;
        }
        let ghost gstates = states@;
        let ghost tv = rules@.map_values(|br: BorderRule| br@);
        proof {
            assert forall|j: int| 0 <= j < tv.len() implies (#[trigger] tv[j]).tile == states@[j]
                && tv[j].allowed.len() == 8 by {
            }
            assert(table_wf(tv));
        }
        let constraint = GridConstraint::new_from_borders(rules);
        let mut constraints: Vec<GridConstraint> = Vec::new();
        constraints.push(constraint);
        proof {
            assert(constraints@[0]@ == tv);
            assert forall|k: int, i2: int|
                #![trigger constraints@[k], states@[i2]]
                0 <= k < constraints@.len() && 0 <= i2 < states@.len() implies table_has(
                constraints@[k]@, states@[i2],
            ) by {
                assert(tv[i2].tile == states@[i2]);
            }
        }
        let s = ConstraintSolver::new_with_constraints(height, width, states, constraints);
        proof {
            assert(s@.tables[0] == tv);
            assert(s@.states == gstates);
            assert forall|a: i32| table_has(s@.tables[0], a) <==> data@.contains(a) by {
                if table_has(tv, a) {
                    let j = choose|j: int| 0 <= j < tv.len() && (#[trigger] tv[j]).tile == a;
                    assert(tv[j] == rules@[j]@);
                    assert(gstates[j] == a);
                    assert(gstates.contains(a));
                } else {
                    if data@.contains(a) {
                        assert(gstates.contains(a));
                        let j = choose|j: int| 0 <= j < gstates.len() && gstates[j] == a;
                        assert(tv[j] == rules@[j]@);
                        assert(tv[j].tile == a);
                        assert(table_has(tv, a));
                        assert(false);
                    }
                }
            }
            assert forall|a: i32, d: int, b: i32| 0 <= d < 8 implies (#[trigger] table_allows(
                s@.tables[0], a, d, b,
            ) <==> observed(data@, height as int, width as int, a, d, b)) by {
                if table_allows(tv, a, d, b) {
                    let j = choose|j: int|
                        0 <= j < tv.len() && (#[trigger] tv[j]).tile == a && tv[j].allowed[
                            d
                        ].contains(b);
                    assert(tv[j] == rules@[j]@);
                    assert(rules@[j]@.allowed[d].contains(b));
                    assert(observed(data@, height as int, width as int, gstates[j], d, b));
                } else {
                    if observed(data@, height as int, width as int, a, d, b) {
                        let (x2, y2) = choose|x2: int, y2: int|
                            #![trigger cell_of(data@, width as int, x2, y2)]
                            {
                                &&& 0 <= x2 < width && 0 <= y2 < height
                                &&& cell_of(data@, width as int, x2, y2) == a
                                &&& 0 <= x2 + offset_dx(d) < width && 0 <= y2 + offset_dy(d)
                                    < height
                                &&& cell_of(
                                    data@,
                                    width as int,
                                    x2 + offset_dx(d),
                                    y2 + offset_dy(d),
                                ) == b
                            };
                        lemma_index_bound(x2, y2, width as int, height as int);
                        assert(data@.contains(a)) by {
                            assert(data@[y2 * width + x2] == a);
                        }
                        assert(gstates.contains(a));
                        let j = choose|j: int| 0 <= j < gstates.len() && gstates[j] == a;
                        assert(tv[j] == rules@[j]@);
                        assert(rules@[j]@.allowed[d].contains(b));
                        assert(tv[j].tile == a && tv[j].allowed[d].contains(b));
                        assert(table_allows(tv, a, d, b));
                        assert(false);
                    }
                }
            }
        }
        s
    }
}

/// Law (sample-derived validity, grid level): a table that allows everything
/// observed in a sample accepts the sample itself — with the sample loaded
/// as the grid, every cell is locally valid. The proof leans on the
/// direction involution: the witness for a neighbor's permission is the
/// observation made from the neighbor's own side.
pub proof fn lemma_sample_grid_valid(t: Seq<RuleView>, data: Seq<i32>, g: GridView)
    requires
        g.wf(),
        g.cells == data,
        forall|i: int| 0 <= i < data.len() ==> #[trigger] data[i] >= 0,
        forall|a: i32, d: int, b: i32|
            0 <= d < 8 && observed(data, g.height as int, g.width as int, a, d, b)
                ==> #[trigger] table_allows(t, a, d, b),
    ensures
        forall|x: int, y: int|
            #[trigger] g.in_bounds(x, y) ==> check_ok(t, g, g.cell(x, y), x, y),
{
    let h = g.height as int;
    let w = g.width as int;
    assert forall|x: int, y: int| #[trigger] g.in_bounds(x, y) implies check_ok(
        t, g, g.cell(x, y), x, y,
    ) by {
        let v = g.cell(x, y);
        lemma_index_bound(x, y, w, h);
        assert(v >= 0);
        assert forall|i: int| 0 <= i < 8 implies #[trigger] dir_ok(t, g, v, x, y, i) by {
            let nx = x + offset_dx(i);
            let ny = y + offset_dy(i);
            if g.in_bounds(nx, ny) && g.cell(nx, ny) != UNDETERMINED {
                let tt = g.cell(nx, ny);
                lemma_offset_involution();
                assert(offset_dx(opp(i)) == -offset_dx(i));
                assert(offset_dy(opp(i)) == -offset_dy(i));
                assert(nx + offset_dx(opp(i)) == x && ny + offset_dy(opp(i)) == y);
                lemma_index_bound(nx, ny, w, h);
                assert(cell_of(data, w, nx, ny) == tt);
                assert(cell_of(data, w, x, y) == v);
                assert(observed(data, h, w, tt, opp(i), v));
                assert(table_allows(t, tt, opp(i), v));
            }
        }
    }
}

/// Law (sample-derived validity, solver level): a solver whose every
/// constraint allows everything observed in a sample reports the sample
/// itself as fully valid once it is loaded into the grid.
pub proof fn lemma_sample_solver_valid(s: SolverView, data: Seq<i32>)
    requires
        s.grid.wf(),
        s.grid.cells == data,
        forall|i: int| 0 <= i < data.len() ==> #[trigger] data[i] >= 0,
        forall|k: int, a: i32, d: int, b: i32|
            #![trigger table_allows(s.tables[k], a, d, b)]
            0 <= k < s.tables.len() && 0 <= d < 8 && observed(
                data, s.grid.height as int, s.grid.width as int, a, d, b,
            ) ==> table_allows(s.tables[k], a, d, b),
    ensures
        s.state_valid(),
{
    assert forall|x: int, y: int| #[trigger] s.grid.in_bounds(x, y) implies all_pass(
        s.tables, s.grid, s.grid.cell(x, y), x, y,
    ) by {
        assert forall|k: int| 0 <= k < s.tables.len() implies check_ok(
            #[trigger] s.tables[k],
            s.grid,
            s.grid.cell(x, y),
            x,
            y,
        ) by {
            lemma_sample_grid_valid(s.tables[k], data, s.grid);
        }
    }
}

} // verus!
