use vstd::prelude::*;

use crate::rle::digits_of;
use crate::rle::push_digits;
use crate::rle::string_from_chars;

verus! {

/// Cells holding this value count as empty; any other value is a digit
/// already placed.
pub const EMPTY_CELL: u8 = 0;

/// A 9 by 9 grid: nine rows of nine cells each.
pub open spec fn grid_wf(g: Seq<Seq<u8>>) -> bool {
    g.len() == 9 && forall|r: int| 0 <= r < 9 ==> (#[trigger] g[r]).len() == 9
}

/// Placing `num` at `(row, col)` clashes with no cell of the same row,
/// column or 3x3 box.
pub open spec fn placement_ok(g: Seq<Seq<u8>>, row: int, col: int, num: u8) -> bool {
    &&& forall|c: int| #![trigger g[row][c]] 0 <= c < 9 ==> g[row][c] != num
    &&& forall|r: int| #![trigger g[r][col]] 0 <= r < 9 ==> g[r][col] != num
    &&& forall|r: int, c: int|
        #![trigger g[r][c]]
        row / 3 * 3 <= r < row / 3 * 3 + 3 && col / 3 * 3 <= c < col / 3 * 3 + 3 ==> g[r][c]
            != num
}

/// Two distinct cells that see each other: same row, same column, or same
/// 3x3 box.
pub open spec fn peers(r: int, c: int, r2: int, c2: int) -> bool {
    (r2 != r || c2 != c) && (r2 == r || c2 == c || (r2 / 3 == r / 3 && c2 / 3 == c / 3))
}

/// `s` solves the puzzle `g`: it keeps every given digit, fills every
/// empty cell with a digit from one to nine, and no filled cell repeats a
/// value any of its peers holds.
pub open spec fn completion_ok(g: Seq<Seq<u8>>, s: Seq<Seq<u8>>) -> bool {
    &&& grid_wf(s)
    &&& forall|r: int, c: int|
        #![trigger s[r][c]]
        0 <= r < 9 && 0 <= c < 9 && g[r][c] != EMPTY_CELL ==> s[r][c] == g[r][c]
    &&& forall|r: int, c: int|
        #![trigger s[r][c]]
        0 <= r < 9 && 0 <= c < 9 && g[r][c] == EMPTY_CELL ==> 1 <= s[r][c] <= 9
    &&& forall|r: int, c: int, r2: int, c2: int|
        #![trigger s[r][c], s[r2][c2]]
        0 <= r < 9 && 0 <= c < 9 && 0 <= r2 < 9 && 0 <= c2 < 9 && g[r][c] == EMPTY_CELL && peers(
            r,
            c,
            r2,
            c2,
        ) ==> s[r2][c2] != s[r][c]
}

/// The number of empty cells in one row.
pub open spec fn row_zeros(row: Seq<u8>) -> nat
    decreases row.len(),
{
    if row.len() == 0 {
        0
    } else {
        row_zeros(row.drop_last()) + (if row.last() == EMPTY_CELL {
            1nat
        } else {
            0nat
        })
    }
}

/// The number of empty cells in the whole grid.
pub open spec fn grid_zeros(g: Seq<Seq<u8>>) -> nat
    decreases g.len(),
{
    if g.len() == 0 {
        0
    } else {
        grid_zeros(g.drop_last()) + row_zeros(g.last())
    }
}

proof fn lemma_row_zeros_update(row: Seq<u8>, c: int, v: u8)
    requires
        0 <= c < row.len(),
    ensures
        row_zeros(row.update(c, v)) + (if row[c] == EMPTY_CELL {
            1nat
        } else {
            0nat
        }) == row_zeros(row) + (if v == EMPTY_CELL {
            1nat
        } else {
            0nat
        }),
    decreases row.len(),
{
    if c == row.len() - 1 {
        assert(row.update(c, v).drop_last() =~= row.drop_last());
    } else {
        assert(row.update(c, v).drop_last() =~= row.drop_last().update(c, v));
        lemma_row_zeros_update(row.drop_last(), c, v);
    }
}

proof fn lemma_grid_zeros_update(g: Seq<Seq<u8>>, r: int, row2: Seq<u8>)
    requires
        0 <= r < g.len(),
    ensures
        grid_zeros(g.update(r, row2)) + row_zeros(g[r]) == grid_zeros(g) + row_zeros(row2),
    decreases g.len(),
{
    if r == g.len() - 1 {
        assert(g.update(r, row2).drop_last() =~= g.drop_last());
    } else {
        assert(g.update(r, row2).drop_last() =~= g.drop_last().update(r, row2));
        lemma_grid_zeros_update(g.drop_last(), r, row2);
    }
}


/// The text of one cell: a dot for an empty cell, else the value in
/// decimal, each followed by a space.
pub open spec fn cell_text(v: u8) -> Seq<char> {
    if v == EMPTY_CELL {
        seq!['.', ' ']
    } else {
        digits_of(v as int) + seq![' ']
    }
}

/// The text of one row from column `c` on: cells side by side, a bar
/// before each of the second and third blocks of three.
pub open spec fn row_text_from(row: Seq<u8>, c: int) -> Seq<char>
    decreases (if c < 9 {
        9 - c
    } else {
        0
    }),
{
    if c < 0 || c >= 9 {
        Seq::empty()
    } else {
        (if c == 3 || c == 6 {
            seq!['|', ' ']
        } else {
            Seq::empty()
        }) + cell_text(row[c]) + row_text_from(row, c + 1)
    }
}

/// The horizontal rule drawn between the blocks of three rows.
pub open spec fn block_rule() -> Seq<char> {
    seq!['-', '-', '-', '-', '-', '-', '+', '-', '-', '-', '-', '-', '-', '+', '-', '-', '-', '-', '-', '-', '\n']
}

/// The text of the grid from row `r` on, one line per row.
pub open spec fn grid_text_from(g: Seq<Seq<u8>>, r: int) -> Seq<char>
    decreases (if r < 9 {
        9 - r
    } else {
        0
    }),
{
    if r < 0 || r >= 9 {
        Seq::empty()
    } else {
        (if r == 3 || r == 6 {
            block_rule()
        } else {
            Seq::empty()
        }) + row_text_from(g[r], 0) + seq!['\n'] + grid_text_from(g, r + 1)
    }
}

/// A classic backtracking sudoku solver over a 9 by 9 grid.
pub struct SudokuSolver {
    pub grid: Vec<Vec<u8>>,
}

impl SudokuSolver {
    /// The grid as a mathematical sequence of rows.
    pub open spec fn view_grid(self) -> Seq<Seq<u8>> {
        self.grid@.map_values(|row: Vec<u8>| row@)
    }

    /// The stored rows form a 9 by 9 grid.
    pub open spec fn wf(self) -> bool {
        self.grid@.len() == 9 && forall|r: int| 0 <= r < 9 ==> (#[trigger] self.grid@[r])@.len()
            == 9
    }

    proof fn lemma_view_wf(self)
        requires
            self.wf(),
        ensures
            grid_wf(self.view_grid()),
            forall|r: int| 0 <= r < 9 ==> #[trigger] self.view_grid()[r] == self.grid@[r]@,
    {
        assert forall|r: int| 0 <= r < 9 implies #[trigger] self.view_grid()[r] == self.grid@[r]@
            by {};
        assert forall|r: int| 0 <= r < 9 implies (#[trigger] self.view_grid()[r]).len() == 9 by {
            assert(self.view_grid()[r] == self.grid@[r]@);
        };
    }

    /// Wrap a fixed 9 by 9 array of cells.
    pub fn new(grid: [[u8; 9]; 9]) -> (r: SudokuSolver)
        ensures
            r.wf(),
            forall|a: int, b: int|
                0 <= a < 9 && 0 <= b < 9 ==> r.view_grid()[a][b] == grid@[a]@[b],
    {
        let mut rows: Vec<Vec<u8>> = Vec::new();
        let mut a: usize = 0;
        while a < 9
            invariant
                a <= 9,
                rows@.len() == a,
                forall|p: int| 0 <= p < a ==> (#[trigger] rows@[p])@.len() == 9,
                forall|p: int, q: int|
                    #![trigger rows@[p]@[q]]
                    0 <= p < a && 0 <= q < 9 ==> rows@[p]@[q] == grid@[p]@[q],
            decreases 9 - a,
        {
            let mut row: Vec<u8> = Vec::new();
            let mut b: usize = 0;
            while b < 9
                invariant
                    b <= 9,
                    a < 9,
                    row@.len() == b,
                    forall|q: int| 0 <= q < b ==> #[trigger] row@[q] == grid@[a as int]@[q],
                decreases 9 - b,
            {
                row.push(grid[a][b]);
                b = b + 1;
            }
            rows.push(row);
            a = a + 1;
        }
        SudokuSolver { grid: rows }
    }

    /// Overwrite one cell.
    fn set_cell(&mut self, r: usize, c: usize, v: u8)
        requires
            old(self).wf(),
            r < 9,
            c < 9,
        ensures
            final(self).wf(),
            final(self).view_grid() == old(self).view_grid().update(
                r as int,
                old(self).view_grid()[r as int].update(c as int, v),
            ),
    {
        proof {
            assert(self.grid@[r as int]@.len() == 9);
        }
        let row = &mut self.grid[r];
        row.set(c, v);
        proof {
            assert(self.view_grid() =~= old(self).view_grid().update(
                r as int,
                old(self).view_grid()[r as int].update(c as int, v),
            ));
        }
    }

    /// The first empty cell in row-major order, if any.
    pub fn find_empty(&self) -> (r: Option<(usize, usize)>)
        requires
            self.wf(),
        ensures
            r matches Some(rc) ==> {
                &&& rc.0 < 9
                &&& rc.1 < 9
                &&& self.view_grid()[rc.0 as int][rc.1 as int] == EMPTY_CELL
                &&& forall|a: int, b: int|
                    #![trigger self.view_grid()[a][b]]
                    0 <= a < 9 && 0 <= b < 9 && (a < rc.0 || (a == rc.0 && b < rc.1))
                        ==> self.view_grid()[a][b] != EMPTY_CELL
            },
            r is None ==> forall|a: int, b: int|
                #![trigger self.view_grid()[a][b]]
                0 <= a < 9 && 0 <= b < 9 ==> self.view_grid()[a][b] != EMPTY_CELL,
    {
        proof {
            self.lemma_view_wf();
        }
        let mut row: usize = 0;
        while row < 9
            invariant
                row <= 9,
                self.wf(),
                forall|a: int, b: int|
                    #![trigger self.view_grid()[a][b]]
                    0 <= a < row && 0 <= b < 9 ==> self.view_grid()[a][b] != EMPTY_CELL,
            decreases 9 - row,
        {
            let mut col: usize = 0;
            while col < 9
                invariant
                    col <= 9,
                    row < 9,
                    self.wf(),
                    forall|a: int, b: int|
                        #![trigger self.view_grid()[a][b]]
                        0 <= a < row && 0 <= b < 9 ==> self.view_grid()[a][b] != EMPTY_CELL,
                    forall|b: int|
                        #![trigger self.view_grid()[row as int][b]]
                        0 <= b < col ==> self.view_grid()[row as int][b] != EMPTY_CELL,
                decreases 9 - col,
            {
                proof {
                    self.lemma_view_wf();
                }
                if self.grid[row][col] == EMPTY_CELL {
                    return Some((row, col));
                }
                col = col + 1;
            }
            row = row + 1;
        }
        None
    }

    /// Exact check that `num` clashes with nothing in the row, the column
    /// or the 3x3 box of `(row, col)`.
    pub fn is_valid(&self, row: usize, col: usize, num: u8) -> (r: bool)
        requires
            self.wf(),
            row < 9,
            col < 9,
        ensures
            r == placement_ok(self.view_grid(), row as int, col as int, num),
    {
        proof {
            self.lemma_view_wf();
        }
        let mut c: usize = 0;
        while c < 9
            invariant
                c <= 9,
                self.wf(),
                row < 9,
                col < 9,
                forall|b: int|
                    #![trigger self.view_grid()[row as int][b]]
                    0 <= b < c ==> self.view_grid()[row as int][b] != num,
            decreases 9 - c,
        {
            proof {
                self.lemma_view_wf();
            }
            if self.grid[row][c] == num {
                proof {
                    assert(self.view_grid()[row as int][c as int] == num);
                }
                return false;
            }
            c = c + 1;
        }
        let mut r: usize = 0;
        while r < 9
            invariant
                r <= 9,
                self.wf(),
                row < 9,
                col < 9,
                forall|a: int|
                    #![trigger self.view_grid()[a][col as int]]
                    0 <= a < r ==> self.view_grid()[a][col as int] != num,
            decreases 9 - r,
        {
            proof {
                self.lemma_view_wf();
            }
            if self.grid[r][col] == num {
                proof {
                    assert(self.view_grid()[r as int][col as int] == num);
                }
                return false;
            }
            r = r + 1;
        }
        let box_start_row: usize = row / 3 * 3;
        let box_start_col: usize = col / 3 * 3;
        let mut br: usize = box_start_row;
        while br < box_start_row + 3
            invariant
                self.wf(),
                row < 9,
                col < 9,
                box_start_row == row as int / 3 * 3,
                box_start_col == col as int / 3 * 3,
                box_start_row <= br <= box_start_row + 3,
                forall|a: int, b: int|
                    #![trigger self.view_grid()[a][b]]
                    box_start_row <= a < br && box_start_col <= b < box_start_col + 3
                        ==> self.view_grid()[a][b] != num,
            decreases box_start_row + 3 - br,
        {
            let mut bc: usize = box_start_col;
            while bc < box_start_col + 3
                invariant
                    self.wf(),
                    row < 9,
                    col < 9,
                    box_start_row == row as int / 3 * 3,
                    box_start_col == col as int / 3 * 3,
                    box_start_row <= br < box_start_row + 3,
                    box_start_col <= bc <= box_start_col + 3,
                    forall|a: int, b: int|
                        #![trigger self.view_grid()[a][b]]
                        box_start_row <= a < br && box_start_col <= b < box_start_col + 3
                            ==> self.view_grid()[a][b] != num,
                    forall|b: int|
                        #![trigger self.view_grid()[br as int][b]]
                        box_start_col <= b < bc ==> self.view_grid()[br as int][b] != num,
                decreases box_start_col + 3 - bc,
            {
                proof {
                    self.lemma_view_wf();
                }
                if self.grid[br][bc] == num {
                    proof {
                        assert(self.view_grid()[br as int][bc as int] == num);
                    }
                    return false;
                }
                bc = bc + 1;
            }
            br = br + 1;
        }
        true
    }


    /// The board as text, row by row, with bars and rules between the
    /// 3x3 blocks and a dot for each empty cell.
    pub fn display(&self) -> (r: String)
        requires
            self.wf(),
        ensures
            r@ == grid_text_from(self.view_grid(), 0),
    {
        proof {
            self.lemma_view_wf();
        }
        let ghost g = self.view_grid();
        let mut out: Vec<char> = Vec::new();
        let mut row: usize = 0;
        while row < 9
            invariant
                row <= 9,
                self.wf(),
                g == self.view_grid(),
                grid_wf(g),
                out@ + grid_text_from(g, row as int) == grid_text_from(g, 0),
            decreases 9 - row,
        {
            proof {
                self.lemma_view_wf();
            }
            let ghost at_row = out@;
            if row == 3 || row == 6 {
                out.push('-');
                out.push('-');
                out.push('-');
                out.push('-');
                out.push('-');
                out.push('-');
                out.push('+');
                out.push('-');
                out.push('-');
                out.push('-');
                out.push('-');
                out.push('-');
                out.push('-');
                out.push('+');
                out.push('-');
                out.push('-');
                out.push('-');
                out.push('-');
                out.push('-');
                out.push('-');
                out.push('\n');
            }
            let ghost row_start = out@;
            let mut col: usize = 0;
            while col < 9
                invariant
                    col <= 9,
                    row < 9,
                    self.wf(),
                    g == self.view_grid(),
                    grid_wf(g),
                    out@ + row_text_from(g[row as int], col as int) == row_start + row_text_from(
                        g[row as int],
                        0,
                    ),
                decreases 9 - col,
            {
                proof {
                    self.lemma_view_wf();
                }
                let ghost before = out@;
                if col == 3 || col == 6 {
                    out.push('|');
                    out.push(' ');
                }
                let v: u8 = self.grid[row][col];
                if v == EMPTY_CELL {
                    out.push('.');
                } else {
                    push_digits(&mut out, v as usize);
                }
                out.push(' ');
                proof {
                    let sep: Seq<char> = if col == 3 || col == 6 {
                        seq!['|', ' ']
                    } else {
                        Seq::empty()
                    };
                    assert(g[row as int] == self.grid@[row as int]@);
                    assert(g[row as int][col as int] == v);
                    assert(out@ =~= before + sep + cell_text(g[row as int][col as int]));
                    assert(row_text_from(g[row as int], col as int) == sep + cell_text(
                        g[row as int][col as int],
                    ) + row_text_from(g[row as int], col as int + 1));
                    assert(out@ + row_text_from(g[row as int], col as int + 1) =~= before
                        + row_text_from(g[row as int], col as int));
                }
                col = col + 1;
            }
            proof {
                assert(row_text_from(g[row as int], 9) =~= Seq::<char>::empty());
                assert(out@ + row_text_from(g[row as int], 9) =~= out@);
                assert(out@ =~= row_start + row_text_from(g[row as int], 0));
            }
            out.push('\n');
            proof {
                let rule: Seq<char> = if row == 3 || row == 6 {
                    block_rule()
                } else {
                    Seq::empty()
                };
                assert(row_start =~= at_row + rule);
                assert(out@ =~= row_start + row_text_from(g[row as int], 0) + seq!['\n']);
                assert(grid_text_from(g, row as int) == rule + row_text_from(g[row as int], 0)
                    + seq!['\n'] + grid_text_from(g, row as int + 1));
                assert(out@ + grid_text_from(g, row as int + 1) =~= at_row + grid_text_from(
                    g,
                    row as int,
                ));
            }
            row = row + 1;
        }
        proof {
            assert(grid_text_from(g, 9) =~= Seq::<char>::empty());
            assert(out@ + grid_text_from(g, 9) =~= out@);
        }
        string_from_chars(&out)
    }

    /// Backtracking search. Succeeds exactly when the puzzle as it stands
    /// has a solution; on success the grid holds one, on failure it is
    /// left as it was.
    pub fn solve(&mut self) -> (r: bool)
        requires
            old(self).wf(),
        ensures
            final(self).wf(),
            r == exists|s: Seq<Seq<u8>>| completion_ok(old(self).view_grid(), s),
            r ==> completion_ok(old(self).view_grid(), final(self).view_grid()),
            !r ==> final(self).view_grid() == old(self).view_grid(),
        decreases grid_zeros(old(self).view_grid()),
    {
        let ghost g0 = self.view_grid();
        proof {
            self.lemma_view_wf();
        }
        match self.find_empty() {
            None => {
                proof {
                    assert(completion_ok(g0, g0));
                }
                true
            },
            Some((row, col)) => {
                let mut num: u8 = 1;
                while num <= 9
                    invariant
                        1 <= num <= 10,
                        row < 9,
                        col < 9,
                        self.wf(),
                        self.view_grid() == g0,
                        g0 == old(self).view_grid(),
                        g0[row as int][col as int] == EMPTY_CELL,
                        grid_wf(g0),
                        forall|s: Seq<Seq<u8>>|
                            #[trigger] completion_ok(g0, s) ==> s[row as int][col as int] >= num,
                    decreases 10 - num,
                {
                    if self.is_valid(row, col, num) {
                        let ghost row_before = self.view_grid()[row as int];
                        self.set_cell(row, col, num);
                        let ghost g1 = self.view_grid();
                        proof {
                            lemma_row_zeros_update(row_before, col as int, num);
                            lemma_grid_zeros_update(
                                g0,
                                row as int,
                                row_before.update(col as int, num),
                            );
                        }
                        let solved = self.solve();
                        if solved {
                            proof {
                                let fin = self.view_grid();
                                assert(completion_ok(g1, fin));
                                assert forall|a: int, b: int|
                                    #![trigger fin[a][b]]
                                    0 <= a < 9 && 0 <= b < 9 && g0[a][b] != EMPTY_CELL implies fin[a][b]
                                    == g0[a][b] by {
                                    assert(g1[a][b] == g0[a][b]);
                                };
                                assert(fin[row as int][col as int] == num);
                                assert forall|a: int, b: int, a2: int, b2: int|
                                    #![trigger fin[a][b], fin[a2][b2]]
                                    0 <= a < 9 && 0 <= b < 9 && 0 <= a2 < 9 && 0 <= b2 < 9 && g0[a][b]
                                        == EMPTY_CELL && peers(a, b, a2, b2) implies fin[a2][b2]
                                    != fin[a][b] by {
                                    if a == row && b == col {
                                        if g1[a2][b2] == EMPTY_CELL {
                                            assert(peers(a2, b2, a, b));
                                            assert(fin[a][b] != fin[a2][b2]);
                                        } else {
                                            assert(fin[a2][b2] == g1[a2][b2]);
                                            assert(g0[a2][b2] != EMPTY_CELL);
                                            assert(g1[a2][b2] == g0[a2][b2]);
                                            assert(g0[a2][b2] != num);
                                        }
                                    } else {
                                        assert(g1[a][b] == EMPTY_CELL);
                                    }
                                };
                                assert(completion_ok(g0, fin));
                            }
                            return true;
                        }
                        self.set_cell(row, col, EMPTY_CELL);
                        proof {
                            assert(self.view_grid() =~= g0) by {
                                assert(g1[row as int] =~= row_before.update(col as int, num));
                                assert(g1[row as int].update(col as int, EMPTY_CELL)
                                    =~= row_before);
                                assert(self.view_grid() == g1.update(
                                    row as int,
                                    g1[row as int].update(col as int, EMPTY_CELL),
                                ));
                                assert forall|a: int| 0 <= a < 9 implies self.view_grid()[a] =~= g0[a]
                                    by {};
                            }
                            // no solution places `num` here
                            assert forall|s: Seq<Seq<u8>>| #[trigger] completion_ok(g0, s) implies s[
                            row as int][col as int] >= num + 1 by {
                                if s[row as int][col as int] == num {
                                    assert(completion_ok(g1, s)) by {
                                        assert forall|a: int, b: int|
                                            #![trigger s[a][b]]
                                            0 <= a < 9 && 0 <= b < 9 && g1[a][b] != EMPTY_CELL implies s[a][b]
                                            == g1[a][b] by {
                                            if a == row && b == col {
                                            } else {
                                                assert(g1[a][b] == g0[a][b]);
                                            }
                                        };
                                        assert forall|a: int, b: int|
                                            #![trigger s[a][b]]
                                            0 <= a < 9 && 0 <= b < 9 && g1[a][b] == EMPTY_CELL implies 1
                                            <= s[a][b] <= 9 by {
                                            assert(g0[a][b] == EMPTY_CELL);
                                        };
                                        assert forall|a: int, b: int, a2: int, b2: int|
                                            #![trigger s[a][b], s[a2][b2]]
                                            0 <= a < 9 && 0 <= b < 9 && 0 <= a2 < 9 && 0 <= b2 < 9
                                                && g1[a][b] == EMPTY_CELL && peers(a, b, a2, b2) implies s[a2][b2]
                                            != s[a][b] by {
                                            assert(g0[a][b] == EMPTY_CELL);
                                        };
                                    }
                                }
                            };
                        }
                    } else {
                        proof {
                            // some peer already holds `num`, so no solution places it here
                            assert forall|s: Seq<Seq<u8>>| #[trigger] completion_ok(g0, s) implies s[
                            row as int][col as int] >= num + 1 by {
                                if s[row as int][col as int] == num {
                                    let g = g0;
                                    let ri = row as int;
                                    let ci = col as int;
                                    if exists|c: int| 0 <= c < 9 && #[trigger] g[ri][c] == num {
                                        let c = choose|c: int|
                                            0 <= c < 9 && #[trigger] g[ri][c] == num;
                                        assert(c != ci);
                                        assert(peers(ri, ci, ri, c));
                                        assert(s[ri][c] == num);
                                    } else if exists|r2: int|
                                        0 <= r2 < 9 && #[trigger] g[r2][ci] == num {
                                        let r2 = choose|r2: int|
                                            0 <= r2 < 9 && #[trigger] g[r2][ci] == num;
                                        assert(r2 != ri);
                                        assert(peers(ri, ci, r2, ci));
                                        assert(s[r2][ci] == num);
                                    } else {
                                        let (r2, c2) = choose|r2: int, c2: int|
                                            #![trigger g[r2][c2]]
                                            ri / 3 * 3 <= r2 < ri / 3 * 3 + 3 && ci / 3 * 3 <= c2 < ci
                                                / 3 * 3 + 3 && g[r2][c2] == num;
                                        assert(r2 != ri || c2 != ci);
                                        assert(r2 / 3 == ri / 3 && c2 / 3 == ci / 3);
                                        assert(peers(ri, ci, r2, c2));
                                        assert(s[r2][c2] == num);
                                    }
                                }
                            };
                        }
                    }
                    num = num + 1;
                }
                proof {
                    assert forall|s: Seq<Seq<u8>>| !completion_ok(g0, s) by {
                        if completion_ok(g0, s) {
                            assert(s[row as int][col as int] >= 10);
                            assert(1 <= s[row as int][col as int] <= 9);
                        }
                    };
                }
                false
            },
        }
    }
}

} // verus!
