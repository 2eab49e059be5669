//! A dense 2D grid of tile-type values, stored row-major.

use vstd::prelude::*;
use vstd::string::StringExecFns;

verus! {

/// The sentinel value of a cell that has not been collapsed yet. It is never
/// a member of a solver's set of allowed tile types.
pub const UNDETERMINED: i32 = -1;

/// The mathematical content of a grid: its dimensions and the tile value of
/// every cell, row-major.
pub ghost struct GridView {
    pub height: nat,
    pub width: nat,
    pub cells: Seq<i32>,
}

impl GridView {
    /// There is exactly one cell value per coordinate, and the cell count
    /// fits the address space.
    pub open spec fn wf(self) -> bool {
        &&& self.cells.len() == self.height * self.width
        &&& self.height * self.width <= usize::MAX
    }

    pub open spec fn in_bounds(self, x: int, y: int) -> bool {
        0 <= x < self.width && 0 <= y < self.height
    }

    pub open spec fn cell(self, x: int, y: int) -> i32 {
        self.cells[y * self.width + x]
    }

    pub open spec fn set_cell(self, x: int, y: int, v: i32) -> GridView {
        GridView { cells: self.cells.update(y * self.width + x, v), ..self }
    }
}

/// A row-major index stays below the cell count.
pub proof fn lemma_index_bound(x: int, y: int, w: int, h: int)
    requires
        0 <= x < w,
        0 <= y < h,
    ensures
        0 <= y * w + x < h * w,
{
    assert(0 <= y * w + x && y * w + x < h * w) by (nonlinear_arith)
        requires
            0 <= x < w,
            0 <= y < h,
    ;
}

/// Two distinct coordinate pairs have distinct row-major indices.
pub proof fn lemma_index_injective(x1: int, y1: int, x2: int, y2: int, w: int)
    requires
        0 <= x1 < w,
        0 <= x2 < w,
        y1 >= 0,
        y2 >= 0,
        y1 * w + x1 == y2 * w + x2,
    ensures
        x1 == x2 && y1 == y2,
{
    assert(x1 == x2 && y1 == y2) by (nonlinear_arith)
        requires
            0 <= x1 < w,
            0 <= x2 < w,
            y1 >= 0,
            y2 >= 0,
            y1 * w + x1 == y2 * w + x2,
    ;
}

/// A dense grid of `height * width` tile values; `UNDETERMINED` marks a cell
/// that has not been collapsed yet.
#[derive(Debug)]
pub struct Grid {
    values: Vec<i32>,
    height: usize,
    width: usize,
}

impl View for Grid {
    type V = GridView;

    closed spec fn view(&self) -> GridView {
        GridView { height: self.height as nat, width: self.width as nat, cells: self.values@ }
    }
}

impl Grid {
    /// A fresh grid with every cell `UNDETERMINED`.
    pub fn new(height: usize, width: usize) -> (g: Grid)
        requires
            height * width <= usize::MAX,
        ensures
            g@.wf(),
            g@.height == height,
            g@.width == width,
            forall|i: int| 0 <= i < g@.cells.len() ==> g@.cells[i] == UNDETERMINED,
    {
        let total = height * width;
        let mut values: Vec<i32> = Vec::new();
        let mut n: usize = 0;
        while n < total
            invariant
                n <= total,
                values@.len() == n,
                forall|i: int| 0 <= i < n ==> values@[i] == UNDETERMINED,
            decreases total - n,
        {
            values.push(UNDETERMINED);
            n = n + 1;
        }
        Grid { values, height, width }
    }

    /// The grid's height in cells.
    pub fn height(&self) -> (h: usize)
        ensures
            h == self@.height,
    {
        self.height
    }

    /// The grid's width in cells.
    pub fn width(&self) -> (w: usize)
        ensures
            w == self@.width,
    {
        self.width
    }

    /// The value of the cell at `(x, y)`.
    pub fn get_sq(&self, x: usize, y: usize) -> (r: &i32)
        requires
            self@.wf(),
            x < self@.width,
            y < self@.height,
        ensures
            *r == self@.cell(x as int, y as int),
    {
        proof {
            lemma_index_bound(x as int, y as int, self@.width as int, self@.height as int);
        }
        &self.values[y * self.width + x]
    }

    /// The value of the cell at row-major index `idx`.
    pub fn get_index(&self, idx: usize) -> (r: &i32)
        requires
            idx < self@.cells.len(),
        ensures
            *r == self@.cells[idx as int],
    {
        &self.values[idx]
    }

    /// A mutable reference to the cell at `(x, y)`.
    pub fn get_sqmut(&mut self, x: usize, y: usize) -> (r: &mut i32)
        requires
            old(self)@.wf(),
            x < old(self)@.width,
            y < old(self)@.height,
        ensures
            *r == old(self)@.cell(x as int, y as int),
            final(self)@ == old(self)@.set_cell(x as int, y as int, *final(r)),
            final(self)@.wf(),
    {
        proof {
            lemma_index_bound(x as int, y as int, self@.width as int, self@.height as int);
        }
        &mut self.values[y * self.width + x]
    }
}

/// The character of a single decimal digit.
pub open spec fn digit_char(d: nat) -> char {
    if d == 0 {
        '0'
    } else if d == 1 {
        '1'
    } else if d == 2 {
        '2'
    } else if d == 3 {
        '3'
    } else if d == 4 {
        '4'
    } else if d == 5 {
        '5'
    } else if d == 6 {
        '6'
    } else if d == 7 {
        '7'
    } else if d == 8 {
        '8'
    } else {
        '9'
    }
}

/// The decimal digits of `n`, most significant first.
pub open spec fn dec_chars(n: nat) -> Seq<char>
    decreases n,
{
    if n < 10 {
        seq![digit_char(n)]
    } else {
        dec_chars(n / 10).push(digit_char(n % 10))
    }
}

/// The decimal rendering of a cell value, a minus sign ahead of a negative
/// one.
pub open spec fn value_chars(v: i32) -> Seq<char> {
    if v < 0 {
        seq!['-'] + dec_chars((-v) as nat)
    } else {
        dec_chars(v as nat)
    }
}

/// The first `n` cells of row `y`, joined with commas.
pub open spec fn row_chars(g: GridView, y: int, n: int) -> Seq<char>
    decreases n,
{
    if n <= 0 {
        Seq::empty()
    } else if n == 1 {
        value_chars(g.cell(0, y))
    } else {
        row_chars(g, y, n - 1) + seq![','] + value_chars(g.cell(n - 1, y))
    }
}

/// The first `n` rows, each followed by a newline.
pub open spec fn grid_chars(g: GridView, n: int) -> Seq<char>
    decreases n,
{
    if n <= 0 {
        Seq::empty()
    } else {
        grid_chars(g, n - 1) + row_chars(g, n - 1, g.width as int) + seq!['\n']
    }
}

/// A one-character string slice for the digit `d`.
fn digit_str(d: u32) -> (r: &'static str)
    requires
        d < 10,
    ensures
        r@ == seq![digit_char(d as nat)],
{
    match d {
        0 => {
            proof {
                reveal_strlit("0");
                assert("0"@ =~= seq![digit_char(0)]);
            }
            "0"
        },
        1 => {
            proof {
                reveal_strlit("1");
                assert("1"@ =~= seq![digit_char(1)]);
            }
            "1"
        },
        2 => {
            proof {
                reveal_strlit("2");
                assert("2"@ =~= seq![digit_char(2)]);
            }
            "2"
        },
        3 => {
            proof {
                reveal_strlit("3");
                assert("3"@ =~= seq![digit_char(3)]);
            }
            "3"
        },
        4 => {
            proof {
                reveal_strlit("4");
                assert("4"@ =~= seq![digit_char(4)]);
            }
            "4"
        },
        5 => {
            proof {
                reveal_strlit("5");
                assert("5"@ =~= seq![digit_char(5)]);
            }
            "5"
        },
        6 => {
            proof {
                reveal_strlit("6");
                assert("6"@ =~= seq![digit_char(6)]);
            }
            "6"
        },
        7 => {
            proof {
                reveal_strlit("7");
                assert("7"@ =~= seq![digit_char(7)]);
            }
            "7"
        },
        8 => {
            proof {
                reveal_strlit("8");
                assert("8"@ =~= seq![digit_char(8)]);
            }
            "8"
        },
        _ => {
            proof {
                reveal_strlit("9");
                assert("9"@ =~= seq![digit_char(9)]);
            }
            "9"
        },
    }
}

/// Appends the decimal digits of `n`.
fn push_digits(s: &mut String, n: u32)
    ensures
        final(s)@ == old(s)@ + dec_chars(n as nat),
    decreases n,
{
    if n < 10 {
        s.append(digit_str(n));
    } else {
        push_digits(s, n / 10);
        s.append(digit_str(n % 10));
        proof {
            assert(s@ =~= old(s)@ + dec_chars(n as nat));
        }
    }
}

/// Appends the decimal rendering of `v`.
fn push_value(s: &mut String, v: i32)
    ensures
        final(s)@ == old(s)@ + value_chars(v),
{
    if v < 0 {
        proof {
            reveal_strlit("-");
            assert("-"@ =~= seq!['-']);
        }
        s.append("-");
        let m = (-(v as i64)) as u32;
        push_digits(s, m);
        proof {
            assert(m as nat == (-v) as nat);
            assert(s@ =~= old(s)@ + value_chars(v));
        }
    } else {
        push_digits(s, v as u32);
    }
}

impl Grid {
    /// The grid as text for inspection: one line per row, the cell values of
    /// a row joined with commas.
    pub fn to_str(&self) -> (out: String)
        requires
            self@.wf(),
        ensures
            out@ == grid_chars(self@, self@.height as int),
    {
        let height = self.height();
        let width = self.width();
        let mut out = String::new();
        let mut y: usize = 0;
        while y < height
            invariant
                self@.wf(),
                height == self@.height,
                width == self@.width,
                y <= height,
                out@ == grid_chars(self@, y as int),
            decreases height - y,
        {
            let mut x: usize = 0;
            while x < width
                invariant
                    self@.wf(),
                    height == self@.height,
                    width == self@.width,
                    y < height,
                    x <= width,
                    out@ == grid_chars(self@, y as int) + row_chars(self@, y as int, x as int)
                        + if 0 < x < width {
                        seq![',']
                    } else {
                        Seq::<char>::empty()
                    },
                decreases width - x,
            {
                let v = *self.get_sq(x, y);
                push_value(&mut out, v);
                if x + 1 != width {
                    proof {
                        reveal_strlit(",");
                        assert(","@ =~= seq![',']);
                    }
                    out.append(",");
                }
                proof {
                    assert(out@ =~= grid_chars(self@, y as int) + row_chars(
                        self@, y as int, x as int + 1,
                    ) + if 0 < x + 1 < width {
                        seq![',']
                    } else {
                        Seq::<char>::empty()
                    });
                }
                x = x + 1;
            }
            proof {
                reveal_strlit("\n");
                assert("\n"@ =~= seq!['\n']);
            }
            out.append("\n");
            proof {
                assert(out@ =~= grid_chars(self@, y as int + 1));
            }
            y = y + 1;
        }
        out
    }
}

impl Clone for Grid {
    /// A deep copy with the same dimensions and cell values.
    fn clone(&self) -> (g: Grid)
        ensures
            g@ == self@,
    {
        let values = self.values.clone();
        proof {
            assert(values@ =~= self.values@);
        }
        Grid { values, height: self.height, width: self.width }
    }
}

} // verus!
