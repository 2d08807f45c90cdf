use vstd::prelude::*;

use crate::cell::Cell;
use crate::error::FieldError;
use crate::reach::blank;
use crate::reach::chord_opens;
use crate::reach::chord_reaches;
use crate::reach::chord_seed_ok;
use crate::reach::flood_path_ok;
use crate::reach::lemma_closed_compose;
use crate::reach::lemma_reach_mono;
use crate::reach::lemma_reveal_post_closed;
use crate::reach::misflagged;
use crate::reach::flood_reaches;
use crate::reach::lemma_flood_path_revealed;
use crate::reach::lemma_reach_extend;
use crate::reach::lemma_reach_self;
use crate::reach::lemma_reach_stuck;
use crate::reach::neighbors_revealed;
use crate::reach::new_blanks_closed;
use crate::reach::rev_grows;
use crate::reach::reveals_exactly;
use crate::reach::same_board;
use crate::rng::rand_below;

verus! {

/// The whole game grid: `rows * cols` cells stored row-major in one vector.
#[derive(Debug, Clone)]
pub struct Field {
    cells: Vec<Cell>,
    rows: usize,
    cols: usize,
}

/// The cell row-major order puts at `(r, c)` of a grid with `cols` columns.
spec fn grid_index(cols: int, r: int, c: int) -> int {
    r * cols + c
}

proof fn lemma_grid_index_in_range(rows: int, cols: int, r: int, c: int)
    by (nonlinear_arith)
    requires
        0 <= r < rows,
        0 <= c < cols,
    ensures
        0 <= grid_index(cols, r, c) < rows * cols,
{
}

proof fn lemma_grid_index_injective(cols: int, r1: int, c1: int, r2: int, c2: int)
    by (nonlinear_arith)
    requires
        0 <= c1 < cols,
        0 <= c2 < cols,
        0 <= r1,
        0 <= r2,
        r1 != r2 || c1 != c2,
    ensures
        grid_index(cols, r1, c1) != grid_index(cols, r2, c2),
{
}

/// Number of mines among the first `n` cells of `s`.
pub open spec fn mines_in_prefix(s: Seq<Cell>, n: int) -> int
    decreases n,
{
    if n <= 0 {
        0
    } else {
        mines_in_prefix(s, n - 1) + if s[n - 1].is_bomb {
            1int
        } else {
            0int
        }
    }
}

/// Number of unrevealed cells among the first `n` cells of `s`.
pub open spec fn hidden_in_prefix(s: Seq<Cell>, n: int) -> int
    decreases n,
{
    if n <= 0 {
        0
    } else {
        hidden_in_prefix(s, n - 1) + if s[n - 1].is_revealed {
            0int
        } else {
            1int
        }
    }
}

proof fn lemma_mines_in_prefix_update(s: Seq<Cell>, i: int, x: Cell, n: int)
    requires
        0 <= i < s.len(),
        n <= s.len(),
    ensures
        mines_in_prefix(s.update(i, x), n) == mines_in_prefix(s, n) + if i < n {
            (if x.is_bomb {
                1int
            } else {
                0int
            }) - (if s[i].is_bomb {
                1int
            } else {
                0int
            })
        } else {
            0int
        },
    decreases n,
{
    if n > 0 {
        lemma_mines_in_prefix_update(s, i, x, n - 1);
    }
}

proof fn lemma_hidden_in_prefix_update(s: Seq<Cell>, i: int, x: Cell, n: int)
    requires
        0 <= i < s.len(),
        n <= s.len(),
    ensures
        hidden_in_prefix(s.update(i, x), n) == hidden_in_prefix(s, n) + if i < n {
            (if x.is_revealed {
                0int
            } else {
                1int
            }) - (if s[i].is_revealed {
                0int
            } else {
                1int
            })
        } else {
            0int
        },
    decreases n,
{
    if n > 0 {
        lemma_hidden_in_prefix_update(s, i, x, n - 1);
    }
}

proof fn lemma_hidden_in_prefix_bounds(s: Seq<Cell>, n: int)
    requires
        0 <= n <= s.len(),
    ensures
        0 <= hidden_in_prefix(s, n),
        hidden_in_prefix(s, n) <= n,
    decreases n,
{
    if n > 0 {
        lemma_hidden_in_prefix_bounds(s, n - 1);
    }
}

/// Whether two distinct grid positions touch, including diagonally
/// (Moore neighborhood).
pub open spec fn adjacent(r1: int, c1: int, r2: int, c2: int) -> bool {
    &&& -1 <= r2 - r1 <= 1
    &&& -1 <= c2 - c1 <= 1
    &&& !(r1 == r2 && c1 == c2)
}

/// `s` with `(r, c)` appended when `cond` holds.
spec fn push_if(s: Seq<(usize, usize)>, cond: bool, r: usize, c: usize) -> Seq<
    (usize, usize),
> {
    if cond {
        s.push((r, c))
    } else {
        s
    }
}

/// Whether position `(r, c)` occurs in `s`.
spec fn seq_has_pos(s: Seq<(usize, usize)>, r: int, c: int) -> bool {
    exists|k: int| 0 <= k < s.len() && s[k].0 as int == r && s[k].1 as int == c
}

proof fn lemma_push_if_keeps(s: Seq<(usize, usize)>, b: bool, pr: usize, pc: usize, r: int, c: int)
    requires
        seq_has_pos(s, r, c),
    ensures
        seq_has_pos(push_if(s, b, pr, pc), r, c),
{
    let k = choose|k: int| 0 <= k < s.len() && s[k].0 as int == r && s[k].1 as int == c;
    assert(push_if(s, b, pr, pc)[k].0 as int == r && push_if(s, b, pr, pc)[k].1 as int == c);
}

proof fn lemma_push_if_adds(s: Seq<(usize, usize)>, b: bool, pr: usize, pc: usize)
    requires
        b,
    ensures
        seq_has_pos(push_if(s, b, pr, pc), pr as int, pc as int),
{
    assert(push_if(s, b, pr, pc)[s.len() as int] == (pr, pc));
}

impl Field {
    /// The number of rows, as a mathematical integer.
    pub closed spec fn spec_rows(&self) -> int {
        self.rows as int
    }

    /// The number of columns, as a mathematical integer.
    pub closed spec fn spec_cols(&self) -> int {
        self.cols as int
    }

    /// The grid shape is positive and the cell vector covers it exactly.
    pub closed spec fn wf(&self) -> bool {
        &&& self.rows > 0
        &&& self.cols > 0
        &&& self.cells@.len() == self.spec_rows() * self.spec_cols()
    }

    /// Whether `(r, c)` lies on the grid.
    pub open spec fn in_bounds(&self, r: int, c: int) -> bool {
        0 <= r < self.spec_rows() && 0 <= c < self.spec_cols()
    }

    /// The cell at `(r, c)`; meaningful only when `in_bounds(r, c)`.
    pub closed spec fn cell(&self, r: int, c: int) -> Cell {
        self.cells@[grid_index(self.spec_cols(), r, c)]
    }

    /// Both fields have the same shape.
    pub open spec fn same_dims(&self, other: &Field) -> bool {
        self.spec_rows() == other.spec_rows() && self.spec_cols() == other.spec_cols()
    }

    /// The number of rows in the field.
    pub fn rows(&self) -> (n: usize)
        ensures
            n == self.spec_rows(),
    {
        self.rows
    }

    /// The number of columns in the field.
    pub fn cols(&self) -> (n: usize)
        ensures
            n == self.spec_cols(),
    {
        self.cols
    }

    /// Create a field without any mines, every cell hidden and unflagged.
    pub fn empty(rows: usize, cols: usize) -> (res: Result<Field, FieldError>)
        requires
            rows * cols <= usize::MAX,
        ensures
            res is Ok <==> rows > 0 && cols > 0,
            res is Err ==> res == Err::<Field, FieldError>(FieldError::InvalidDimensions),
            res matches Ok(f) ==> {
                &&& f.wf()
                &&& f.spec_rows() == rows
                &&& f.spec_cols() == cols
                &&& forall|r: int, c: int|
                    f.in_bounds(r, c) ==> f.cell(r, c) == (Cell {
                        is_bomb: false,
                        has_flag: false,
                        bomb_count: 0,
                        is_revealed: false,
                    })
            },
    {
        if rows == 0 || cols == 0 {
            return Err(FieldError::InvalidDimensions);
        }
        let n = rows * cols;
        let mut cells: Vec<Cell> = Vec::new();
        let mut i: usize = 0;
        while i < n
            invariant
                i <= n,
                cells@.len() == i,
                forall|k: int|
                    0 <= k < i ==> cells@[k] == (Cell {
                        is_bomb: false,
                        has_flag: false,
                        bomb_count: 0,
                        is_revealed: false,
                    }),
            decreases n - i,
        {
            cells.push(Cell::new(false));
            i = i + 1;
        }
        let f = Field { cells, rows, cols };
        proof {
            assert forall|r: int, c: int| f.in_bounds(r, c) implies f.cell(r, c) == (Cell {
                is_bomb: false,
                has_flag: false,
                bomb_count: 0,
                is_revealed: false,
            }) by {
                lemma_grid_index_in_range(f.spec_rows(), f.spec_cols(), r, c);
            }
        }
        Ok(f)
    }

    /// Whether `(row, col)` lies on the grid.
    fn in_field(&self, row: usize, col: usize) -> (b: bool)
        ensures
            b == self.in_bounds(row as int, col as int),
    {
        row < self.rows && col < self.cols
    }

    /// Read the cell at `(row, col)`, for callers outside the engine (the
    /// rendering layer, tests).
    pub fn get(&self, row: usize, col: usize) -> (res: Result<Cell, FieldError>)
        requires
            self.wf(),
        ensures
            res is Ok <==> self.in_bounds(row as int, col as int),
            res is Err ==> res == Err::<Cell, FieldError>(FieldError::OutOfBounds),
            res matches Ok(c) ==> c == self.cell(row as int, col as int),
    {
        if !self.in_field(row, col) {
            return Err(FieldError::OutOfBounds);
        }
        Ok(self.get_cell(row, col))
    }

    /// Read one cell without bound checks; internal use only.
    fn get_cell(&self, row: usize, col: usize) -> (c: Cell)
        requires
            self.wf(),
            self.in_bounds(row as int, col as int),
        ensures
            c == self.cell(row as int, col as int),
    {
        // Reading the length lets the verifier see that the cell count, and
        // with it every row-major index below it, fits in usize.
        let _len = self.cells.len();
        proof {
            lemma_grid_index_in_range(self.spec_rows(), self.spec_cols(), row as int, col as int);
        }
        self.cells[row * self.cols + col]
    }

    /// Overwrite one cell without bound checks; internal use only.
    fn set_cell(&mut self, row: usize, col: usize, cell: Cell)
        requires
            old(self).wf(),
            old(self).in_bounds(row as int, col as int),
        ensures
            final(self).wf(),
            final(self).same_dims(old(self)),
            final(self).cell(row as int, col as int) == cell,
            final(self).cells_view() == old(self).cells_view().update(
                grid_index(old(self).spec_cols(), row as int, col as int),
                cell,
            ),
            forall|r: int, c: int|
                final(self).in_bounds(r, c) && (r != row as int || c != col as int)
                    ==> final(self).cell(r, c) == old(self).cell(r, c),
    {
        // Reading the length lets the verifier see that the cell count, and
        // with it every row-major index below it, fits in usize.
        let _len = self.cells.len();
        proof {
            lemma_grid_index_in_range(self.spec_rows(), self.spec_cols(), row as int, col as int);
        }
        let idx = row * self.cols + col;
        self.cells[idx] = cell;
        proof {
            assert forall|r: int, c: int|
                self.in_bounds(r, c) && (r != row as int || c != col as int) implies self.cell(
                r,
                c,
            ) == old(self).cell(r, c) by {
                lemma_grid_index_in_range(self.spec_rows(), self.spec_cols(), r, c);
                lemma_grid_index_injective(self.spec_cols(), r, c, row as int, col as int);
            }
        }
    }

    /// The raw row-major cell sequence.
    pub closed spec fn cells_view(&self) -> Seq<Cell> {
        self.cells@
    }

    /// Total number of mines on the grid.
    pub open spec fn count_mines(&self) -> int {
        mines_in_prefix(self.cells_view(), self.cells_view().len() as int)
    }

    /// Total number of unrevealed cells on the grid.
    pub open spec fn count_hidden(&self) -> int {
        hidden_in_prefix(self.cells_view(), self.cells_view().len() as int)
    }

    /// Mark the cell at `(row, col)` as a mine, leaving everything else as it
    /// was. This is the deterministic way to populate a grid, for callers
    /// that pick the mine positions themselves.
    pub fn set_mine(&mut self, row: usize, col: usize) -> (res: Result<(), FieldError>)
        requires
            old(self).wf(),
        ensures
            final(self).wf(),
            final(self).same_dims(old(self)),
            res is Ok <==> old(self).in_bounds(row as int, col as int),
            res is Err ==> res == Err::<(), FieldError>(FieldError::OutOfBounds) && *final(self) == *old(self),
            res is Ok ==> final(self).cell(row as int, col as int) == (Cell {
                is_bomb: true,
                ..old(self).cell(row as int, col as int)
            }),
            res is Ok ==> forall|r: int, c: int|
                final(self).in_bounds(r, c) && (r != row as int || c != col as int)
                    ==> final(self).cell(r, c) == old(self).cell(r, c),
            res is Ok ==> final(self).count_mines() == old(self).count_mines() + (if old(
                self,
            ).cell(row as int, col as int).is_bomb {
                0int
            } else {
                1int
            }),
    {
        if !self.in_field(row, col) {
            return Err(FieldError::OutOfBounds);
        }
        let c0 = self.get_cell(row, col);
        let c1 = Cell { is_bomb: true, ..c0 };
        self.set_cell(row, col, c1);
        proof {
            lemma_grid_index_in_range(self.spec_rows(), self.spec_cols(), row as int, col as int);
            lemma_mines_in_prefix_update(
                old(self).cells_view(),
                grid_index(self.spec_cols(), row as int, col as int),
                c1,
                old(self).cells_view().len() as int,
            );
        }
        Ok(())
    }

    /// Flip the player flag on the cell at `(row, col)`.
    pub fn toggle_flag(&mut self, row: usize, col: usize) -> (res: Result<(), FieldError>)
        requires
            old(self).wf(),
        ensures
            final(self).wf(),
            final(self).same_dims(old(self)),
            res is Ok <==> old(self).in_bounds(row as int, col as int),
            res is Err ==> res == Err::<(), FieldError>(FieldError::OutOfBounds) && *final(self) == *old(self),
            res is Ok ==> final(self).cell(row as int, col as int) == (Cell {
                has_flag: !old(self).cell(row as int, col as int).has_flag,
                ..old(self).cell(row as int, col as int)
            }),
            res is Ok ==> forall|r: int, c: int|
                final(self).in_bounds(r, c) && (r != row as int || c != col as int)
                    ==> final(self).cell(r, c) == old(self).cell(r, c),
    {
        if !self.in_field(row, col) {
            return Err(FieldError::OutOfBounds);
        }
        let c0 = self.get_cell(row, col);
        let c1 = Cell { has_flag: !c0.has_flag, ..c0 };
        self.set_cell(row, col, c1);
        Ok(())
    }

    /// Reveal every cell, used for the end-of-game display sweep.
    pub fn reveal_all(&mut self)
        requires
            old(self).wf(),
        ensures
            final(self).wf(),
            final(self).same_dims(old(self)),
            forall|r: int, c: int|
                final(self).in_bounds(r, c) ==> final(self).cell(r, c) == (Cell {
                    is_revealed: true,
                    ..old(self).cell(r, c)
                }),
    {
        let mut r: usize = 0;
        while r < self.rows
            invariant
                self.wf(),
                self.same_dims(old(self)),
                r <= self.spec_rows(),
                forall|rr: int, cc: int|
                    self.in_bounds(rr, cc) && rr < r ==> self.cell(rr, cc) == (Cell {
                        is_revealed: true,
                        ..old(self).cell(rr, cc)
                    }),
                forall|rr: int, cc: int|
                    self.in_bounds(rr, cc) && rr >= r ==> self.cell(rr, cc) == old(self).cell(
                        rr,
                        cc,
                    ),
            decreases self.spec_rows() - r,
        {
            let mut c: usize = 0;
            while c < self.cols
                invariant
                    self.wf(),
                    self.same_dims(old(self)),
                    r < self.spec_rows(),
                    c <= self.spec_cols(),
                    forall|rr: int, cc: int|
                        self.in_bounds(rr, cc) && (rr < r || (rr == r && cc < c)) ==> self.cell(
                            rr,
                            cc,
                        ) == (Cell { is_revealed: true, ..old(self).cell(rr, cc) }),
                    forall|rr: int, cc: int|
                        self.in_bounds(rr, cc) && (rr > r || (rr == r && cc >= c)) ==> self.cell(
                            rr,
                            cc,
                        ) == old(self).cell(rr, cc),
                decreases self.spec_cols() - c,
            {
                let c0 = self.get_cell(r, c);
                self.set_cell(r, c, Cell { is_revealed: true, ..c0 });
                c = c + 1;
            }
            r = r + 1;
        }
    }

    /// Whether the game is won: every cell still hidden is accounted for by a
    /// mine, i.e. the number of unrevealed cells equals the mine count.
    pub fn check_win(&self) -> (won: bool)
        requires
            self.wf(),
        ensures
            won == (self.count_hidden() == self.count_mines()),
    {
        let n = self.cells.len();
        let mut i: usize = 0;
        let mut hidden: usize = 0;
        let mut mines: usize = 0;
        while i < n
            invariant
                n == self.cells_view().len(),
                i <= n,
                hidden <= i,
                mines <= i,
                hidden == hidden_in_prefix(self.cells_view(), i as int),
                mines == mines_in_prefix(self.cells_view(), i as int),
            decreases n - i,
        {
            let cl = self.cells[i];
            if !cl.is_revealed {
                hidden = hidden + 1;
            }
            if cl.is_bomb {
                mines = mines + 1;
            }
            i = i + 1;
        }
        hidden == mines
    }

    /// The default mine count the game derives from the grid shape: a tenth
    /// of the cells, rounded down.
    pub fn bomb_count(&self) -> (n: usize)
        requires
            self.wf(),
        ensures
            n == (self.spec_rows() * self.spec_cols()) / 10,
    {
        let total = self.cells.len();
        total / 10
    }

    /// 1 when `(r, c)` is on the grid and holds a mine, else 0.
    pub open spec fn mine_ind(&self, r: int, c: int) -> int {
        if self.in_bounds(r, c) && self.cell(r, c).is_bomb {
            1int
        } else {
            0int
        }
    }

    /// 1 when `(r, c)` is on the grid and carries a flag, else 0.
    pub open spec fn flag_ind(&self, r: int, c: int) -> int {
        if self.in_bounds(r, c) && self.cell(r, c).has_flag {
            1int
        } else {
            0int
        }
    }

    /// Number of mines in the Moore neighborhood of `(r, c)`.
    pub open spec fn adj_mines(&self, r: int, c: int) -> int {
        self.mine_ind(r - 1, c - 1) + self.mine_ind(r - 1, c) + self.mine_ind(r - 1, c + 1)
            + self.mine_ind(r, c - 1) + self.mine_ind(r, c + 1) + self.mine_ind(r + 1, c - 1)
            + self.mine_ind(r + 1, c) + self.mine_ind(r + 1, c + 1)
    }

    /// Number of flags in the Moore neighborhood of `(r, c)`.
    pub open spec fn adj_flags(&self, r: int, c: int) -> int {
        self.flag_ind(r - 1, c - 1) + self.flag_ind(r - 1, c) + self.flag_ind(r - 1, c + 1)
            + self.flag_ind(r, c - 1) + self.flag_ind(r, c + 1) + self.flag_ind(r + 1, c - 1)
            + self.flag_ind(r + 1, c) + self.flag_ind(r + 1, c + 1)
    }

    /// The mine indicator when `want_mines` holds, else the flag indicator.
    spec fn pos_ind(&self, want_mines: bool, r: int, c: int) -> int {
        if want_mines {
            self.mine_ind(r, c)
        } else {
            self.flag_ind(r, c)
        }
    }

    /// Sum of the chosen indicator over the first `n` positions of `ps`.
    spec fn ind_at_positions(
        &self,
        want_mines: bool,
        ps: Seq<(usize, usize)>,
        n: int,
    ) -> int
        decreases n,
    {
        if n <= 0 {
            0
        } else {
            self.ind_at_positions(want_mines, ps, n - 1) + self.pos_ind(
                want_mines,
                ps[n - 1].0 as int,
                ps[n - 1].1 as int,
            )
        }
    }

    /// The in-bounds Moore neighbors of `(r, c)`, in the order the neighbor
    /// enumeration emits them: the row above, the own row, the row below,
    /// each left to right.
    spec fn neighbor_seq(&self, r: int, c: int) -> Seq<(usize, usize)> {
        let s0 = Seq::<(usize, usize)>::empty();
        let s1 = push_if(s0, self.in_bounds(r - 1, c - 1), (r - 1) as usize, (c - 1) as usize);
        let s2 = push_if(s1, self.in_bounds(r - 1, c), (r - 1) as usize, c as usize);
        let s3 = push_if(s2, self.in_bounds(r - 1, c + 1), (r - 1) as usize, (c + 1) as usize);
        let s4 = push_if(s3, self.in_bounds(r, c - 1), r as usize, (c - 1) as usize);
        let s5 = push_if(s4, self.in_bounds(r, c + 1), r as usize, (c + 1) as usize);
        let s6 = push_if(s5, self.in_bounds(r + 1, c - 1), (r + 1) as usize, (c - 1) as usize);
        let s7 = push_if(s6, self.in_bounds(r + 1, c), (r + 1) as usize, c as usize);
        let s8 = push_if(s7, self.in_bounds(r + 1, c + 1), (r + 1) as usize, (c + 1) as usize);
        s8
    }
}

proof fn lemma_ind_at_agree(
    f: &Field,
    want_mines: bool,
    s1: Seq<(usize, usize)>,
    s2: Seq<(usize, usize)>,
    n: int,
)
    requires
        0 <= n <= s1.len(),
        n <= s2.len(),
        forall|k: int| 0 <= k < n ==> s1[k] == s2[k],
    ensures
        f.ind_at_positions(want_mines, s1, n) == f.ind_at_positions(want_mines, s2, n),
    decreases n,
{
    if n > 0 {
        lemma_ind_at_agree(f, want_mines, s1, s2, n - 1);
    }
}

proof fn lemma_ind_at_push_if(
    f: &Field,
    want_mines: bool,
    s: Seq<(usize, usize)>,
    b: bool,
    pr: usize,
    pc: usize,
)
    ensures
        f.ind_at_positions(want_mines, push_if(s, b, pr, pc), push_if(s, b, pr, pc).len() as int)
            == f.ind_at_positions(want_mines, s, s.len() as int) + if b {
            f.pos_ind(want_mines, pr as int, pc as int)
        } else {
            0int
        },
{
    if b {
        let s2 = s.push((pr, pc));
        lemma_ind_at_agree(f, want_mines, s2, s, s.len() as int);
        assert(s2[s.len() as int] == (pr, pc));
    }
}

proof fn lemma_neighbor_ind_sum(f: &Field, want_mines: bool, r: int, c: int)
    ensures
        f.ind_at_positions(want_mines, f.neighbor_seq(r, c), f.neighbor_seq(r, c).len() as int)
            == if want_mines {
            f.adj_mines(r, c)
        } else {
            f.adj_flags(r, c)
        },
{
    let s0 = Seq::<(usize, usize)>::empty();
    let s1 = push_if(s0, f.in_bounds(r - 1, c - 1), (r - 1) as usize, (c - 1) as usize);
    let s2 = push_if(s1, f.in_bounds(r - 1, c), (r - 1) as usize, c as usize);
    let s3 = push_if(s2, f.in_bounds(r - 1, c + 1), (r - 1) as usize, (c + 1) as usize);
    let s4 = push_if(s3, f.in_bounds(r, c - 1), r as usize, (c - 1) as usize);
    let s5 = push_if(s4, f.in_bounds(r, c + 1), r as usize, (c + 1) as usize);
    let s6 = push_if(s5, f.in_bounds(r + 1, c - 1), (r + 1) as usize, (c - 1) as usize);
    let s7 = push_if(s6, f.in_bounds(r + 1, c), (r + 1) as usize, c as usize);
    let s8 = push_if(s7, f.in_bounds(r + 1, c + 1), (r + 1) as usize, (c + 1) as usize);
    lemma_ind_at_push_if(f, want_mines, s0, f.in_bounds(r - 1, c - 1), (r - 1) as usize, (c - 1) as usize);
    lemma_ind_at_push_if(f, want_mines, s1, f.in_bounds(r - 1, c), (r - 1) as usize, c as usize);
    lemma_ind_at_push_if(f, want_mines, s2, f.in_bounds(r - 1, c + 1), (r - 1) as usize, (c + 1) as usize);
    lemma_ind_at_push_if(f, want_mines, s3, f.in_bounds(r, c - 1), r as usize, (c - 1) as usize);
    lemma_ind_at_push_if(f, want_mines, s4, f.in_bounds(r, c + 1), r as usize, (c + 1) as usize);
    lemma_ind_at_push_if(f, want_mines, s5, f.in_bounds(r + 1, c - 1), (r + 1) as usize, (c - 1) as usize);
    lemma_ind_at_push_if(f, want_mines, s6, f.in_bounds(r + 1, c), (r + 1) as usize, c as usize);
    lemma_ind_at_push_if(f, want_mines, s7, f.in_bounds(r + 1, c + 1), (r + 1) as usize, (c + 1) as usize);
}

impl Field {
    /// The in-bounds Moore neighbors of `(row, col)` as concrete
    /// coordinates, the single source of truth for adjacency.
    fn get_neighbor_positions(&self, row: usize, col: usize) -> (v: Vec<(usize, usize)>)
        requires
            self.wf(),
            self.in_bounds(row as int, col as int),
        ensures
            v@ == self.neighbor_seq(row as int, col as int),
            forall|k: int|
                0 <= k < v@.len() ==> self.in_bounds(v@[k].0 as int, v@[k].1 as int) && adjacent(
                    row as int,
                    col as int,
                    v@[k].0 as int,
                    v@[k].1 as int,
                ),
            forall|rr: int, cc: int|
                self.in_bounds(rr, cc) && adjacent(row as int, col as int, rr, cc)
                    ==> seq_has_pos(v@, rr, cc),
    {
        let ghost r = row as int;
        let ghost c = col as int;
        let ghost s0 = Seq::<(usize, usize)>::empty();
        let ghost s1 = push_if(s0, self.in_bounds(r - 1, c - 1), (r - 1) as usize, (c - 1) as usize);
        let ghost s2 = push_if(s1, self.in_bounds(r - 1, c), (r - 1) as usize, c as usize);
        let ghost s3 = push_if(s2, self.in_bounds(r - 1, c + 1), (r - 1) as usize, (c + 1) as usize);
        let ghost s4 = push_if(s3, self.in_bounds(r, c - 1), r as usize, (c - 1) as usize);
        let ghost s5 = push_if(s4, self.in_bounds(r, c + 1), r as usize, (c + 1) as usize);
        let ghost s6 = push_if(s5, self.in_bounds(r + 1, c - 1), (r + 1) as usize, (c - 1) as usize);
        let ghost s7 = push_if(s6, self.in_bounds(r + 1, c), (r + 1) as usize, c as usize);
        let ghost s8 = push_if(s7, self.in_bounds(r + 1, c + 1), (r + 1) as usize, (c + 1) as usize);
        let mut v: Vec<(usize, usize)> = Vec::new();
        if row >= 1 && col >= 1 {
            v.push((row - 1, col - 1));
        }
        assert(v@ == s1);
        if row >= 1 {
            v.push((row - 1, col));
        }
        assert(v@ == s2);
        if row >= 1 && col + 1 < self.cols {
            v.push((row - 1, col + 1));
        }
        assert(v@ == s3);
        if col >= 1 {
            v.push((row, col - 1));
        }
        assert(v@ == s4);
        if col + 1 < self.cols {
            v.push((row, col + 1));
        }
        assert(v@ == s5);
        if row + 1 < self.rows && col >= 1 {
            v.push((row + 1, col - 1));
        }
        assert(v@ == s6);
        if row + 1 < self.rows {
            v.push((row + 1, col));
        }
        assert(v@ == s7);
        if row + 1 < self.rows && col + 1 < self.cols {
            v.push((row + 1, col + 1));
        }
        assert(v@ == s8);
        proof {
            assert(forall|k: int|
                0 <= k < v@.len() ==> self.in_bounds(v@[k].0 as int, v@[k].1 as int) && adjacent(
                    r,
                    c,
                    v@[k].0 as int,
                    v@[k].1 as int,
                ));
            assert forall|rr: int, cc: int| seq_has_pos(s1, rr, cc) implies seq_has_pos(
                s2,
                rr,
                cc,
            ) by {
                lemma_push_if_keeps(s1, self.in_bounds(r - 1, c), (r - 1) as usize, c as usize, rr, cc);
            }
            assert forall|rr: int, cc: int| seq_has_pos(s2, rr, cc) implies seq_has_pos(
                s3,
                rr,
                cc,
            ) by {
                lemma_push_if_keeps(s2, self.in_bounds(r - 1, c + 1), (r - 1) as usize, (c + 1) as usize, rr, cc);
            }
            assert forall|rr: int, cc: int| seq_has_pos(s3, rr, cc) implies seq_has_pos(
                s4,
                rr,
                cc,
            ) by {
                lemma_push_if_keeps(s3, self.in_bounds(r, c - 1), r as usize, (c - 1) as usize, rr, cc);
            }
            assert forall|rr: int, cc: int| seq_has_pos(s4, rr, cc) implies seq_has_pos(
                s5,
                rr,
                cc,
            ) by {
                lemma_push_if_keeps(s4, self.in_bounds(r, c + 1), r as usize, (c + 1) as usize, rr, cc);
            }
            assert forall|rr: int, cc: int| seq_has_pos(s5, rr, cc) implies seq_has_pos(
                s6,
                rr,
                cc,
            ) by {
                lemma_push_if_keeps(s5, self.in_bounds(r + 1, c - 1), (r + 1) as usize, (c - 1) as usize, rr, cc);
            }
            assert forall|rr: int, cc: int| seq_has_pos(s6, rr, cc) implies seq_has_pos(
                s7,
                rr,
                cc,
            ) by {
                lemma_push_if_keeps(s6, self.in_bounds(r + 1, c), (r + 1) as usize, c as usize, rr, cc);
            }
            assert forall|rr: int, cc: int| seq_has_pos(s7, rr, cc) implies seq_has_pos(
                s8,
                rr,
                cc,
            ) by {
                lemma_push_if_keeps(s7, self.in_bounds(r + 1, c + 1), (r + 1) as usize, (c + 1) as usize, rr, cc);
            }
            if self.in_bounds(r - 1, c - 1) {
                lemma_push_if_adds(s0, true, (r - 1) as usize, (c - 1) as usize);
            }
            if self.in_bounds(r - 1, c) {
                lemma_push_if_adds(s1, true, (r - 1) as usize, c as usize);
            }
            if self.in_bounds(r - 1, c + 1) {
                lemma_push_if_adds(s2, true, (r - 1) as usize, (c + 1) as usize);
            }
            if self.in_bounds(r, c - 1) {
                lemma_push_if_adds(s3, true, r as usize, (c - 1) as usize);
            }
            if self.in_bounds(r, c + 1) {
                lemma_push_if_adds(s4, true, r as usize, (c + 1) as usize);
            }
            if self.in_bounds(r + 1, c - 1) {
                lemma_push_if_adds(s5, true, (r + 1) as usize, (c - 1) as usize);
            }
            if self.in_bounds(r + 1, c) {
                lemma_push_if_adds(s6, true, (r + 1) as usize, c as usize);
            }
            if self.in_bounds(r + 1, c + 1) {
                lemma_push_if_adds(s7, true, (r + 1) as usize, (c + 1) as usize);
            }
            assert forall|rr: int, cc: int|
                self.in_bounds(rr, cc) && adjacent(r, c, rr, cc) implies seq_has_pos(
                v@,
                rr,
                cc,
            ) by {
                assert(rr == r - 1 || rr == r || rr == r + 1);
                assert(cc == c - 1 || cc == c || cc == c + 1);
            }
        }
        v
    }

    /// Count the player flags among the neighbors of `(row, col)`.
    fn count_surrounding_flags(&self, row: usize, col: usize) -> (n: u32)
        requires
            self.wf(),
            self.in_bounds(row as int, col as int),
        ensures
            n as int == self.adj_flags(row as int, col as int),
    {
        let nbrs = self.get_neighbor_positions(row, col);
        let len = nbrs.len();
        let mut n: u32 = 0;
        let mut k: usize = 0;
        while k < len
            invariant
                self.wf(),
                self.in_bounds(row as int, col as int),
                nbrs@ == self.neighbor_seq(row as int, col as int),
                len == nbrs@.len(),
                len <= 8,
                forall|j: int|
                    0 <= j < nbrs@.len() ==> self.in_bounds(nbrs@[j].0 as int, nbrs@[j].1 as int),
                k <= len,
                n <= k,
                n as int == self.ind_at_positions(false, nbrs@, k as int),
            decreases len - k,
        {
            let (rr, cc) = nbrs[k];
            let cl = self.get_cell(rr, cc);
            if cl.has_flag {
                n = n + 1;
            }
            k = k + 1;
        }
        proof {
            lemma_neighbor_ind_sum(self, false, row as int, col as int);
        }
        n
    }

    /// Count the mines among the neighbors of `(row, col)`.
    fn count_surrounding_bombs(&self, row: usize, col: usize) -> (n: u32)
        requires
            self.wf(),
            self.in_bounds(row as int, col as int),
        ensures
            n as int == self.adj_mines(row as int, col as int),
    {
        let nbrs = self.get_neighbor_positions(row, col);
        let len = nbrs.len();
        let mut n: u32 = 0;
        let mut k: usize = 0;
        while k < len
            invariant
                self.wf(),
                self.in_bounds(row as int, col as int),
                nbrs@ == self.neighbor_seq(row as int, col as int),
                len == nbrs@.len(),
                len <= 8,
                forall|j: int|
                    0 <= j < nbrs@.len() ==> self.in_bounds(nbrs@[j].0 as int, nbrs@[j].1 as int),
                k <= len,
                n <= k,
                n as int == self.ind_at_positions(true, nbrs@, k as int),
            decreases len - k,
        {
            let (rr, cc) = nbrs[k];
            let cl = self.get_cell(rr, cc);
            if cl.is_bomb {
                n = n + 1;
            }
            k = k + 1;
        }
        proof {
            lemma_neighbor_ind_sum(self, true, row as int, col as int);
        }
        n
    }

    /// Store in every non-mine cell the count of mines around it; mine cells
    /// keep their stored count. Nothing else changes.
    pub fn set_bomb_counts(&mut self)
        requires
            old(self).wf(),
        ensures
            final(self).wf(),
            final(self).same_dims(old(self)),
            forall|r: int, c: int|
                #![trigger final(self).cell(r, c)]
                final(self).in_bounds(r, c) ==> {
                    let c0 = old(self).cell(r, c);
                    let c1 = final(self).cell(r, c);
                    &&& c1.is_bomb == c0.is_bomb
                    &&& c1.has_flag == c0.has_flag
                    &&& c1.is_revealed == c0.is_revealed
                    &&& (c0.is_bomb ==> c1.bomb_count == c0.bomb_count)
                    &&& (!c0.is_bomb ==> c1.bomb_count as int == final(self).adj_mines(r, c))
                },
    {
        let mut r: usize = 0;
        while r < self.rows
            invariant
                self.wf(),
                self.same_dims(old(self)),
                r <= self.spec_rows(),
                forall|rr: int, cc: int|
                    #![trigger self.cell(rr, cc)]
                    self.in_bounds(rr, cc) ==> {
                        let c0 = old(self).cell(rr, cc);
                        let c1 = self.cell(rr, cc);
                        &&& c1.is_bomb == c0.is_bomb
                        &&& c1.has_flag == c0.has_flag
                        &&& c1.is_revealed == c0.is_revealed
                    },
                forall|rr: int, cc: int|
                    #![trigger self.cell(rr, cc)]
                    self.in_bounds(rr, cc) && rr < r ==> {
                        let c0 = old(self).cell(rr, cc);
                        let c1 = self.cell(rr, cc);
                        &&& (c0.is_bomb ==> c1.bomb_count == c0.bomb_count)
                        &&& (!c0.is_bomb ==> c1.bomb_count as int == old(self).adj_mines(rr, cc))
                    },
                forall|rr: int, cc: int|
                    #![trigger self.cell(rr, cc)]
                    self.in_bounds(rr, cc) && rr >= r ==> self.cell(rr, cc).bomb_count == old(
                        self,
                    ).cell(rr, cc).bomb_count,
            decreases self.spec_rows() - r,
        {
            let mut c: usize = 0;
            while c < self.cols
                invariant
                    self.wf(),
                    self.same_dims(old(self)),
                    r < self.spec_rows(),
                    c <= self.spec_cols(),
                    forall|rr: int, cc: int|
                        #![trigger self.cell(rr, cc)]
                        self.in_bounds(rr, cc) ==> {
                            let c0 = old(self).cell(rr, cc);
                            let c1 = self.cell(rr, cc);
                            &&& c1.is_bomb == c0.is_bomb
                            &&& c1.has_flag == c0.has_flag
                            &&& c1.is_revealed == c0.is_revealed
                        },
                    forall|rr: int, cc: int|
                        #![trigger self.cell(rr, cc)]
                        self.in_bounds(rr, cc) && (rr < r || (rr == r && cc < c)) ==> {
                            let c0 = old(self).cell(rr, cc);
                            let c1 = self.cell(rr, cc);
                            &&& (c0.is_bomb ==> c1.bomb_count == c0.bomb_count)
                            &&& (!c0.is_bomb ==> c1.bomb_count as int == old(self).adj_mines(
                                rr,
                                cc,
                            ))
                        },
                    forall|rr: int, cc: int|
                        #![trigger self.cell(rr, cc)]
                        self.in_bounds(rr, cc) && (rr > r || (rr == r && cc >= c))
                            ==> self.cell(rr, cc).bomb_count == old(self).cell(rr, cc).bomb_count,
                decreases self.spec_cols() - c,
            {
                let c0 = self.get_cell(r, c);
                if !c0.is_bomb {
                    let m = self.count_surrounding_bombs(r, c);
                    proof {
                        lemma_adj_mines_equal(self, old(self), r as int, c as int);
                    }
                    self.set_cell(r, c, Cell { bomb_count: m, ..c0 });
                }
                c = c + 1;
            }
            r = r + 1;
        }
        proof {
            assert forall|r: int, c: int|
                self.in_bounds(r, c) implies self.adj_mines(r, c) == old(self).adj_mines(
                r,
                c,
            ) by {
                lemma_adj_mines_equal(self, old(self), r, c);
            }
        }
    }
}

/// Two fields of the same shape with pointwise equal mine placement have the
/// same neighborhood mine counts.
proof fn lemma_adj_mines_equal(f1: &Field, f2: &Field, r: int, c: int)
    requires
        f1.same_dims(f2),
        forall|rr: int, cc: int|
            #![trigger f1.cell(rr, cc)]
            f1.in_bounds(rr, cc) ==> f1.cell(rr, cc).is_bomb == f2.cell(rr, cc).is_bomb,
    ensures
        f1.adj_mines(r, c) == f2.adj_mines(r, c),
{
    assert(f1.mine_ind(r - 1, c - 1) == f2.mine_ind(r - 1, c - 1));
    assert(f1.mine_ind(r - 1, c) == f2.mine_ind(r - 1, c));
    assert(f1.mine_ind(r - 1, c + 1) == f2.mine_ind(r - 1, c + 1));
    assert(f1.mine_ind(r, c - 1) == f2.mine_ind(r, c - 1));
    assert(f1.mine_ind(r, c + 1) == f2.mine_ind(r, c + 1));
    assert(f1.mine_ind(r + 1, c - 1) == f2.mine_ind(r + 1, c - 1));
    assert(f1.mine_ind(r + 1, c) == f2.mine_ind(r + 1, c));
    assert(f1.mine_ind(r + 1, c + 1) == f2.mine_ind(r + 1, c + 1));
}

proof fn lemma_flat_to_grid(rows: int, cols: int, i: int)
    by (nonlinear_arith)
    requires
        0 < rows,
        0 < cols,
        0 <= i < rows * cols,
    ensures
        0 <= i / cols < rows,
        0 <= i % cols < cols,
        grid_index(cols, i / cols, i % cols) == i,
{
}

/// Two fields of the same shape with pointwise equal mine placement hold the
/// same number of mines in every row-major prefix.
proof fn lemma_mines_prefix_pointwise(f1: &Field, f2: &Field, n: int)
    requires
        f1.wf(),
        f2.wf(),
        f1.same_dims(f2),
        n <= f1.cells_view().len(),
        forall|r: int, c: int|
            #![trigger f1.cell(r, c)]
            f1.in_bounds(r, c) ==> f1.cell(r, c).is_bomb == f2.cell(r, c).is_bomb,
    ensures
        mines_in_prefix(f1.cells_view(), n) == mines_in_prefix(f2.cells_view(), n),
    decreases n,
{
    if n > 0 {
        lemma_mines_prefix_pointwise(f1, f2, n - 1);
        let i = n - 1;
        lemma_flat_to_grid(f1.spec_rows(), f1.spec_cols(), i);
        assert(f1.cell(i / f1.spec_cols(), i % f1.spec_cols()) == f1.cells_view()[i]);
        assert(f2.cell(i / f1.spec_cols(), i % f1.spec_cols()) == f2.cells_view()[i]);
    }
}

impl Field {
    /// Place `mine_count` mines on distinct cells chosen at random, then
    /// store every non-mine cell's adjacent-mine count. The field must not
    /// hold any mines yet; flags and revealed marks are left as they are.
    pub fn place_bombs(&mut self, mine_count: usize) -> (res: Result<(), FieldError>)
        requires
            old(self).wf(),
            old(self).count_mines() == 0,
        ensures
            final(self).wf(),
            final(self).same_dims(old(self)),
            res is Ok <==> mine_count < old(self).spec_rows() * old(self).spec_cols(),
            res is Err ==> res == Err::<(), FieldError>(FieldError::InvalidMineCount)
                && *final(self) == *old(self),
            res is Ok ==> final(self).count_mines() == mine_count,
            res is Ok ==> forall|r: int, c: int|
                #![trigger final(self).cell(r, c)]
                final(self).in_bounds(r, c) ==> {
                    let c0 = old(self).cell(r, c);
                    let c1 = final(self).cell(r, c);
                    &&& c1.has_flag == c0.has_flag
                    &&& c1.is_revealed == c0.is_revealed
                    &&& (!c1.is_bomb ==> c1.bomb_count as int == final(self).adj_mines(r, c))
                    &&& (c1.is_bomb ==> c1.bomb_count == c0.bomb_count)
                },
    {
        let total = self.cells.len();
        if mine_count >= total {
            return Err(FieldError::InvalidMineCount);
        }
        let mut placed: usize = 0;
        while placed < mine_count
            invariant
                self.wf(),
                self.same_dims(old(self)),
                total == self.spec_rows() * self.spec_cols(),
                total == self.cells_view().len(),
                mine_count < total,
                placed <= mine_count,
                self.count_mines() == placed,
                forall|r: int, c: int|
                    #![trigger self.cell(r, c)]
                    self.in_bounds(r, c) ==> {
                        let c0 = old(self).cell(r, c);
                        let c1 = self.cell(r, c);
                        &&& c1.has_flag == c0.has_flag
                        &&& c1.is_revealed == c0.is_revealed
                        &&& c1.bomb_count == c0.bomb_count
                    },
            decreases mine_count - placed,
        {
            let k = rand_below(total - placed);
            let mut idx: usize = 0;
            let mut seen: usize = 0;
            loop
                invariant_except_break
                    self.wf(),
                    total == self.spec_rows() * self.spec_cols(),
                    total == self.cells_view().len(),
                    self.count_mines() == placed,
                    placed < total,
                    k < total - placed,
                    idx <= total,
                    seen <= k,
                    mines_in_prefix(self.cells_view(), idx as int) == idx - seen,
                ensures
                    idx < total,
                    seen == k,
                    !self.cells_view()[idx as int].is_bomb,
                decreases total - idx,
            {
                proof {
                    if idx == total {
                        assert(mines_in_prefix(self.cells_view(), total as int) == placed);
                        assert(false);
                    }
                }
                let cl = self.cells[idx];
                if !cl.is_bomb {
                    if seen == k {
                        break;
                    }
                    seen = seen + 1;
                }
                idx = idx + 1;
            }
            let row = idx / self.cols;
            let col = idx % self.cols;
            proof {
                lemma_flat_to_grid(self.spec_rows(), self.spec_cols(), idx as int);
            }
            let ghost pre = *self;
            let c0 = self.get_cell(row, col);
            let c1 = Cell { is_bomb: true, ..c0 };
            self.set_cell(row, col, c1);
            proof {
                lemma_mines_in_prefix_update(pre.cells_view(), idx as int, c1, total as int);
            }
            placed = placed + 1;
        }
        let ghost mid = *self;
        self.set_bomb_counts();
        proof {
            lemma_mines_prefix_pointwise(self, &mid, total as int);
        }
        Ok(())
    }
}

/// What holds of every position the flood-fill worklist still has to
/// process, on the snapshot `f0` and the current state `fnow`.
spec fn stack_elem_ok(f0: &Field, fnow: &Field, r0: int, c0: int, p: (usize, usize)) -> bool {
    &&& f0.in_bounds(p.0 as int, p.1 as int)
    &&& blank(f0, p.0 as int, p.1 as int)
    &&& !f0.cell(p.0 as int, p.1 as int).is_revealed
    &&& fnow.cell(p.0 as int, p.1 as int).is_revealed
    &&& flood_reaches(f0, r0, c0, p.0 as int, p.1 as int)
}

impl Field {
    /// Mark one hidden cell revealed; internal step of the reveal paths.
    fn mark_revealed(&mut self, row: usize, col: usize)
        requires
            old(self).wf(),
            old(self).in_bounds(row as int, col as int),
            !old(self).cell(row as int, col as int).is_revealed,
        ensures
            final(self).wf(),
            final(self).same_dims(old(self)),
            final(self).cell(row as int, col as int) == (Cell {
                is_revealed: true,
                ..old(self).cell(row as int, col as int)
            }),
            forall|r: int, c: int|
                #![trigger final(self).cell(r, c)]
                final(self).in_bounds(r, c) && (r != row as int || c != col as int)
                    ==> final(self).cell(r, c) == old(self).cell(r, c),
            final(self).count_hidden() == old(self).count_hidden() - 1,
    {
        let c0 = self.get_cell(row, col);
        let c1 = Cell { is_revealed: true, ..c0 };
        self.set_cell(row, col, c1);
        proof {
            lemma_grid_index_in_range(
                old(self).spec_rows(),
                old(self).spec_cols(),
                row as int,
                col as int,
            );
            lemma_hidden_in_prefix_update(
                old(self).cells_view(),
                grid_index(old(self).spec_cols(), row as int, col as int),
                c1,
                old(self).cells_view().len() as int,
            );
        }
    }

    /// Reveal the cell at `(row, col)` and report whether it is a mine.
    ///
    /// An already revealed cell is left alone. A mine or a numbered cell is
    /// revealed by itself. A blank cell floods: afterwards the revealed
    /// cells are exactly the old ones plus everything `flood_reaches` names
    /// from `(row, col)` — the connected blank region and its numbered
    /// border, and nothing beyond it.
    ///
    /// Keeping flagged cells inert is the input layer's duty: the engine
    /// acts on a flagged target like on any other, and the flood opens
    /// flagged cells it passes.
    pub fn reveal_cell(&mut self, row: usize, col: usize) -> (res: Result<bool, FieldError>)
        requires
            old(self).wf(),
        ensures
            final(self).wf(),
            final(self).same_dims(old(self)),
            res is Ok <==> old(self).in_bounds(row as int, col as int),
            res is Err ==> res == Err::<bool, FieldError>(FieldError::OutOfBounds)
                && *final(self) == *old(self),
            res matches Ok(b) ==> {
                &&& b == old(self).cell(row as int, col as int).is_bomb
                &&& final(self).cell(row as int, col as int).is_revealed
                &&& same_board(old(self), final(self))
                &&& rev_grows(old(self), final(self))
                &&& reveals_exactly(old(self), final(self), row as int, col as int)
            },
    {
        if !self.in_field(row, col) {
            return Err(FieldError::OutOfBounds);
        }
        let ghost f0 = *old(self);
        let ghost r0 = row as int;
        let ghost c0 = col as int;
        let target = self.get_cell(row, col);
        if target.is_revealed {
            proof {
                assert forall|r: int, c: int|
                    #![trigger self.cell(r, c)]
                    f0.in_bounds(r, c) implies (self.cell(r, c).is_revealed <==> f0.cell(
                    r,
                    c,
                ).is_revealed || flood_reaches(&f0, r0, c0, r, c)) by {
                    if flood_reaches(&f0, r0, c0, r, c) {
                        lemma_reach_stuck(&f0, r0, c0, r, c);
                    }
                }
            }
            return Ok(target.is_bomb);
        }
        self.mark_revealed(row, col);
        if target.is_bomb || target.bomb_count > 0 {
            proof {
                lemma_reach_self(&f0, r0, c0);
                assert forall|r: int, c: int|
                    #![trigger self.cell(r, c)]
                    f0.in_bounds(r, c) implies (self.cell(r, c).is_revealed <==> f0.cell(
                    r,
                    c,
                ).is_revealed || flood_reaches(&f0, r0, c0, r, c)) by {
                    if flood_reaches(&f0, r0, c0, r, c) {
                        lemma_reach_stuck(&f0, r0, c0, r, c);
                    }
                }
            }
            return Ok(target.is_bomb);
        }
        let mut stack: Vec<(usize, usize)> = Vec::new();
        stack.push((row, col));
        proof {
            lemma_reach_self(&f0, r0, c0);
            lemma_hidden_in_prefix_bounds(self.cells_view(), self.cells_view().len() as int);
            assert(stack@[0] == (row, col));
            assert(seq_has_pos(stack@, r0, c0));
        }
        while stack.len() > 0
            invariant
                self.wf(),
                f0.wf(),
                self.same_dims(&f0),
                same_board(&f0, self),
                rev_grows(&f0, self),
                f0.in_bounds(r0, c0),
                blank(&f0, r0, c0),
                !f0.cell(r0, c0).is_revealed,
                self.cell(r0, c0).is_revealed,
                self.count_hidden() >= 0,
                forall|r: int, c: int|
                    #![trigger self.cell(r, c)]
                    f0.in_bounds(r, c) && self.cell(r, c).is_revealed && !f0.cell(
                        r,
                        c,
                    ).is_revealed ==> flood_reaches(&f0, r0, c0, r, c),
                forall|k: int|
                    #![trigger stack@[k]]
                    0 <= k < stack@.len() ==> stack_elem_ok(&f0, self, r0, c0, stack@[k]),
                forall|r: int, c: int|
                    #![trigger self.cell(r, c)]
                    f0.in_bounds(r, c) && self.cell(r, c).is_revealed && !f0.cell(
                        r,
                        c,
                    ).is_revealed && blank(&f0, r, c) && !seq_has_pos(stack@, r, c)
                        ==> neighbors_revealed(self, r, c),
            decreases self.count_hidden(), stack@.len(),
        {
            let ghost hidden_start = self.count_hidden();
            let ghost len_start = stack@.len() as int;
            let ghost stack_pre = stack@;
            let p = stack.pop().unwrap();
            let qr = p.0;
            let qc = p.1;
            proof {
                assert(stack_pre[len_start - 1] == p);
                assert(stack_elem_ok(&f0, self, r0, c0, p));
                assert forall|r: int, c: int|
                    #![trigger seq_has_pos(stack@, r, c)]
                    seq_has_pos(stack_pre, r, c) && !(r == qr as int && c
                        == qc as int) implies seq_has_pos(stack@, r, c) by {
                    let j = choose|j: int|
                        0 <= j < stack_pre.len() && stack_pre[j].0 as int == r
                            && stack_pre[j].1 as int == c;
                    if j < stack_pre.len() - 1 {
                        assert(stack@[j] == stack_pre[j]);
                    } else {
                        assert(stack_pre[j] == p);
                        assert(false);
                    }
                }
            }
            let nbrs = self.get_neighbor_positions(qr, qc);
            let nlen = nbrs.len();
            let mut k: usize = 0;
            while k < nlen
                invariant
                    self.wf(),
                    f0.wf(),
                    self.same_dims(&f0),
                    same_board(&f0, self),
                    rev_grows(&f0, self),
                    f0.in_bounds(r0, c0),
                    blank(&f0, r0, c0),
                    !f0.cell(r0, c0).is_revealed,
                    self.cell(r0, c0).is_revealed,
                    self.count_hidden() >= 0,
                    f0.in_bounds(qr as int, qc as int),
                    blank(&f0, qr as int, qc as int),
                    !f0.cell(qr as int, qc as int).is_revealed,
                    flood_reaches(&f0, r0, c0, qr as int, qc as int),
                    self.cell(qr as int, qc as int).is_revealed,
                    k <= nlen,
                    nlen == nbrs@.len(),
                    forall|j: int|
                        #![trigger nbrs@[j]]
                        0 <= j < nbrs@.len() ==> f0.in_bounds(nbrs@[j].0 as int, nbrs@[j].1 as int)
                            && adjacent(
                            qr as int,
                            qc as int,
                            nbrs@[j].0 as int,
                            nbrs@[j].1 as int,
                        ),
                    forall|rr: int, cc: int|
                        f0.in_bounds(rr, cc) && adjacent(qr as int, qc as int, rr, cc)
                            ==> seq_has_pos(nbrs@, rr, cc),
                    forall|j: int|
                        #![trigger nbrs@[j]]
                        0 <= j < k ==> self.cell(nbrs@[j].0 as int, nbrs@[j].1 as int).is_revealed,
                    forall|r: int, c: int|
                        #![trigger self.cell(r, c)]
                        f0.in_bounds(r, c) && self.cell(r, c).is_revealed && !f0.cell(
                            r,
                            c,
                        ).is_revealed ==> flood_reaches(&f0, r0, c0, r, c),
                    forall|j: int|
                        #![trigger stack@[j]]
                        0 <= j < stack@.len() ==> stack_elem_ok(&f0, self, r0, c0, stack@[j]),
                    forall|r: int, c: int|
                        #![trigger self.cell(r, c)]
                        f0.in_bounds(r, c) && self.cell(r, c).is_revealed && !f0.cell(
                            r,
                            c,
                        ).is_revealed && blank(&f0, r, c) && !seq_has_pos(stack@, r, c) && !(r
                            == qr as int && c == qc as int) ==> neighbors_revealed(self, r, c),
                    self.count_hidden() < hidden_start || (self.count_hidden() == hidden_start
                        && stack@.len() == len_start - 1),
                decreases nlen - k,
            {
                let np = nbrs[k];
                let nr = np.0;
                let nc = np.1;
                let ncell = self.get_cell(nr, nc);
                if !ncell.is_revealed {
                    let ghost self_pre = *self;
                    let ghost stack_mid = stack@;
                    self.mark_revealed(nr, nc);
                    proof {
                        assert(!f0.cell(nr as int, nc as int).is_revealed);
                        lemma_reach_extend(
                            &f0,
                            r0,
                            c0,
                            qr as int,
                            qc as int,
                            nr as int,
                            nc as int,
                        );
                        lemma_hidden_in_prefix_bounds(
                            self.cells_view(),
                            self.cells_view().len() as int,
                        );
                    }
                    if !ncell.is_bomb && ncell.bomb_count == 0 {
                        stack.push((nr, nc));
                        proof {
                            assert(stack@[stack@.len() - 1] == (nr, nc));
                            assert(seq_has_pos(stack@, nr as int, nc as int));
                            assert forall|r: int, c: int|
                                #![trigger seq_has_pos(stack@, r, c)]
                                seq_has_pos(stack_mid, r, c) implies seq_has_pos(
                                stack@,
                                r,
                                c,
                            ) by {
                                let j = choose|j: int|
                                    0 <= j < stack_mid.len() && stack_mid[j].0 as int == r
                                        && stack_mid[j].1 as int == c;
                                assert(stack@[j] == stack_mid[j]);
                            }
                        }
                    } else {
                        proof {
                            assert(!blank(&f0, nr as int, nc as int));
                        }
                    }
                    proof {
                        assert forall|r: int, c: int|
                            #![trigger self.cell(r, c)]
                            f0.in_bounds(r, c) && self.cell(r, c).is_revealed && !f0.cell(
                            r,
                            c,
                        ).is_revealed && blank(&f0, r, c) && !seq_has_pos(stack@, r, c) && !(r
                            == qr as int && c == qc as int) implies neighbors_revealed(
                            self,
                            r,
                            c,
                        ) by {
                            assert(!(r == nr as int && c == nc as int));
                            assert(self_pre.cell(r, c).is_revealed);
                            if seq_has_pos(stack_mid, r, c) {
                                assert(seq_has_pos(stack@, r, c));
                                assert(false);
                            }
                            assert(neighbors_revealed(&self_pre, r, c));
                            assert forall|rr2: int, cc2: int|
                                #![trigger self.cell(rr2, cc2)]
                                self.in_bounds(rr2, cc2) && adjacent(r, c, rr2, cc2) implies self
                                .cell(rr2, cc2).is_revealed by {
                                assert(self_pre.cell(rr2, cc2).is_revealed);
                            }
                        }
                    }
                }
                k = k + 1;
            }
            proof {
                assert forall|rr: int, cc: int|
                    #![trigger self.cell(rr, cc)]
                    self.in_bounds(rr, cc) && adjacent(qr as int, qc as int, rr, cc) implies self
                    .cell(rr, cc).is_revealed by {
                    assert(f0.in_bounds(rr, cc));
                    assert(seq_has_pos(nbrs@, rr, cc));
                    let j = choose|j: int|
                        0 <= j < nbrs@.len() && nbrs@[j].0 as int == rr && nbrs@[j].1 as int == cc;
                    assert(self.cell(nbrs@[j].0 as int, nbrs@[j].1 as int).is_revealed);
                }
                assert(neighbors_revealed(self, qr as int, qc as int));
            }
        }
        proof {
            assert(new_blanks_closed(&f0, self));
            assert forall|r: int, c: int|
                #![trigger self.cell(r, c)]
                f0.in_bounds(r, c) implies (self.cell(r, c).is_revealed <==> f0.cell(
                r,
                c,
            ).is_revealed || flood_reaches(&f0, r0, c0, r, c)) by {
                if flood_reaches(&f0, r0, c0, r, c) {
                    let path = choose|path: Seq<(int, int)>|
                        flood_path_ok(&f0, path, r0, c0, r, c);
                    lemma_flood_path_revealed(&f0, self, path, r0, c0, r, c);
                }
            }
            assert(reveals_exactly(&f0, self, r0, c0));
        }
        Ok(false)
    }
}

/// Whether a reveal starting at one of the first `i` positions of `nbrs` —
/// one that was hidden and unflagged on `f0` — reaches `(r, c)`.
spec fn reached_by_prefix(f0: &Field, nbrs: Seq<(usize, usize)>, i: int, r: int, c: int) -> bool {
    exists|j: int|
        #![trigger flood_reaches(f0, nbrs[j].0 as int, nbrs[j].1 as int, r, c)]
        0 <= j < i && chord_seed_ok(f0, nbrs[j].0 as int, nbrs[j].1 as int) && flood_reaches(
            f0,
            nbrs[j].0 as int,
            nbrs[j].1 as int,
            r,
            c,
        )
}

impl Field {
    /// Chord on the cell at `(row, col)`: when the flags around it account
    /// exactly for its number, open every hidden, unflagged neighbor, each
    /// through the reveal algorithm (a blank neighbor cascades).
    ///
    /// With no surrounding flag, or a flag count different from the cell's
    /// number, nothing happens. With a matching flag count but a mine among
    /// the unflagged neighbors, the chord reports the triggered mine and
    /// reveals nothing.
    pub fn reveal_neighbors(&mut self, row: usize, col: usize) -> (res: Result<bool, FieldError>)
        requires
            old(self).wf(),
        ensures
            final(self).wf(),
            final(self).same_dims(old(self)),
            res is Ok <==> old(self).in_bounds(row as int, col as int),
            res is Err ==> res == Err::<bool, FieldError>(FieldError::OutOfBounds)
                && *final(self) == *old(self),
            res matches Ok(b) ==> {
                let flags = old(self).adj_flags(row as int, col as int);
                let cnt = old(self).cell(row as int, col as int).bomb_count as int;
                &&& same_board(old(self), final(self))
                &&& rev_grows(old(self), final(self))
                &&& (flags == 0 || flags != cnt) ==> *final(self) == *old(self) && b == false
                &&& (flags == cnt && flags > 0 && misflagged(old(self), row as int, col as int))
                    ==> *final(self) == *old(self) && b == true
                &&& (flags == cnt && flags > 0 && !misflagged(old(self), row as int, col as int))
                    ==> b == false && chord_opens(old(self), final(self), row as int, col as int)
            },
    {
        if !self.in_field(row, col) {
            return Err(FieldError::OutOfBounds);
        }
        let ghost f0 = *old(self);
        let ghost pr = row as int;
        let ghost pc = col as int;
        let flags = self.count_surrounding_flags(row, col);
        if flags == 0 {
            return Ok(false);
        }
        let target = self.get_cell(row, col);
        if target.bomb_count != flags {
            return Ok(false);
        }
        let nbrs = self.get_neighbor_positions(row, col);
        let nlen = nbrs.len();
        let mut misflag = false;
        let mut i: usize = 0;
        while i < nlen
            invariant
                *self == f0,
                self.wf(),
                i <= nlen,
                nlen == nbrs@.len(),
                forall|j: int|
                    #![trigger nbrs@[j]]
                    0 <= j < nbrs@.len() ==> f0.in_bounds(nbrs@[j].0 as int, nbrs@[j].1 as int)
                        && adjacent(pr, pc, nbrs@[j].0 as int, nbrs@[j].1 as int),
                misflag ==> misflagged(&f0, pr, pc),
                !misflag ==> forall|j: int|
                    #![trigger nbrs@[j]]
                    0 <= j < i ==> !(f0.cell(nbrs@[j].0 as int, nbrs@[j].1 as int).is_bomb
                        && !f0.cell(nbrs@[j].0 as int, nbrs@[j].1 as int).has_flag),
            decreases nlen - i,
        {
            let np = nbrs[i];
            let ncell = self.get_cell(np.0, np.1);
            if ncell.is_bomb && !ncell.has_flag {
                misflag = true;
            }
            i = i + 1;
        }
        if misflag {
            return Ok(true);
        }
        proof {
            assert forall|nr: int, nc: int|
                #![trigger f0.cell(nr, nc)]
                f0.in_bounds(nr, nc) && adjacent(pr, pc, nr, nc) implies !(f0.cell(
                nr,
                nc,
            ).is_bomb && !f0.cell(nr, nc).has_flag) by {
                assert(seq_has_pos(nbrs@, nr, nc));
                let j = choose|j: int|
                    0 <= j < nbrs@.len() && nbrs@[j].0 as int == nr && nbrs@[j].1 as int == nc;
                assert(!(f0.cell(nbrs@[j].0 as int, nbrs@[j].1 as int).is_bomb && !f0.cell(
                    nbrs@[j].0 as int,
                    nbrs@[j].1 as int,
                ).has_flag));
            }
            assert(!misflagged(&f0, pr, pc));
        }
        let mut t: usize = 0;
        while t < nlen
            invariant
                self.wf(),
                f0.wf(),
                self.same_dims(&f0),
                same_board(&f0, self),
                rev_grows(&f0, self),
                new_blanks_closed(&f0, self),
                t <= nlen,
                nlen == nbrs@.len(),
                forall|j: int|
                    #![trigger nbrs@[j]]
                    0 <= j < nbrs@.len() ==> f0.in_bounds(nbrs@[j].0 as int, nbrs@[j].1 as int)
                        && adjacent(pr, pc, nbrs@[j].0 as int, nbrs@[j].1 as int),
                forall|rr: int, cc: int|
                    f0.in_bounds(rr, cc) && adjacent(pr, pc, rr, cc)
                        ==> seq_has_pos(nbrs@, rr, cc),
                forall|r: int, c: int|
                    #![trigger self.cell(r, c)]
                    f0.in_bounds(r, c) ==> (self.cell(r, c).is_revealed <==> f0.cell(
                        r,
                        c,
                    ).is_revealed || reached_by_prefix(&f0, nbrs@, t as int, r, c)),
            decreases nlen - t,
        {
            let np = nbrs[t];
            let nr = np.0;
            let nc = np.1;
            let ncell = self.get_cell(nr, nc);
            let ghost pre = *self;
            if !ncell.is_revealed && !ncell.has_flag {
                let _hit_mine = self.reveal_cell(nr, nc);
                proof {
                    assert(!f0.cell(nr as int, nc as int).is_revealed);
                    assert(chord_seed_ok(&f0, nr as int, nc as int));
                    lemma_reveal_post_closed(&pre, self, nr as int, nc as int);
                    lemma_closed_compose(&f0, &pre, self);
                    lemma_reach_self(&pre, nr as int, nc as int);
                    assert(self.cell(nr as int, nc as int).is_revealed);
                    assert forall|r: int, c: int|
                        #![trigger self.cell(r, c)]
                        f0.in_bounds(r, c) implies (self.cell(r, c).is_revealed <==> f0.cell(
                        r,
                        c,
                    ).is_revealed || reached_by_prefix(&f0, nbrs@, t + 1, r, c)) by {
                        if self.cell(r, c).is_revealed {
                            if pre.cell(r, c).is_revealed {
                                if reached_by_prefix(&f0, nbrs@, t as int, r, c) {
                                    let j = choose|j: int|
                                        0 <= j < t && chord_seed_ok(
                                            &f0,
                                            nbrs@[j].0 as int,
                                            nbrs@[j].1 as int,
                                        ) && flood_reaches(
                                            &f0,
                                            nbrs@[j].0 as int,
                                            nbrs@[j].1 as int,
                                            r,
                                            c,
                                        );
                                    assert(flood_reaches(
                                        &f0,
                                        nbrs@[j].0 as int,
                                        nbrs@[j].1 as int,
                                        r,
                                        c,
                                    ));
                                }
                            } else {
                                assert(flood_reaches(&pre, nr as int, nc as int, r, c));
                                lemma_reach_mono(&f0, &pre, nr as int, nc as int, r, c);
                                assert(nbrs@[t as int] == (nr, nc));
                                assert(flood_reaches(
                                    &f0,
                                    nbrs@[t as int].0 as int,
                                    nbrs@[t as int].1 as int,
                                    r,
                                    c,
                                ));
                            }
                        }
                        if f0.cell(r, c).is_revealed {
                            assert(pre.cell(r, c).is_revealed);
                            assert(self.cell(r, c).is_revealed);
                        }
                        if reached_by_prefix(&f0, nbrs@, t + 1, r, c) {
                            let j = choose|j: int|
                                0 <= j < t + 1 && chord_seed_ok(
                                    &f0,
                                    nbrs@[j].0 as int,
                                    nbrs@[j].1 as int,
                                ) && flood_reaches(
                                    &f0,
                                    nbrs@[j].0 as int,
                                    nbrs@[j].1 as int,
                                    r,
                                    c,
                                );
                            if j < t {
                                assert(reached_by_prefix(&f0, nbrs@, t as int, r, c));
                                assert(pre.cell(r, c).is_revealed);
                                assert(self.cell(r, c).is_revealed);
                            } else {
                                assert(nbrs@[j] == (nr, nc));
                                let path = choose|path: Seq<(int, int)>|
                                    flood_path_ok(&f0, path, nr as int, nc as int, r, c);
                                lemma_flood_path_revealed(
                                    &f0,
                                    self,
                                    path,
                                    nr as int,
                                    nc as int,
                                    r,
                                    c,
                                );
                            }
                        }
                    }
                }
            } else {
                proof {
                    assert forall|r: int, c: int|
                        #![trigger self.cell(r, c)]
                        f0.in_bounds(r, c) implies (self.cell(r, c).is_revealed <==> f0.cell(
                        r,
                        c,
                    ).is_revealed || reached_by_prefix(&f0, nbrs@, t + 1, r, c)) by {
                        if self.cell(r, c).is_revealed && !f0.cell(r, c).is_revealed {
                            let j = choose|j: int|
                                0 <= j < t && chord_seed_ok(
                                    &f0,
                                    nbrs@[j].0 as int,
                                    nbrs@[j].1 as int,
                                ) && flood_reaches(
                                    &f0,
                                    nbrs@[j].0 as int,
                                    nbrs@[j].1 as int,
                                    r,
                                    c,
                                );
                            assert(flood_reaches(&f0, nbrs@[j].0 as int, nbrs@[j].1 as int, r, c));
                        }
                        if reached_by_prefix(&f0, nbrs@, t + 1, r, c) && !self.cell(
                            r,
                            c,
                        ).is_revealed {
                            let j = choose|j: int|
                                0 <= j < t + 1 && chord_seed_ok(
                                    &f0,
                                    nbrs@[j].0 as int,
                                    nbrs@[j].1 as int,
                                ) && flood_reaches(
                                    &f0,
                                    nbrs@[j].0 as int,
                                    nbrs@[j].1 as int,
                                    r,
                                    c,
                                );
                            if j < t {
                                assert(reached_by_prefix(&f0, nbrs@, t as int, r, c));
                            } else {
                                assert(nbrs@[j] == (nr, nc));
                                if ncell.has_flag {
                                    assert(f0.cell(nr as int, nc as int).has_flag);
                                    assert(!chord_seed_ok(&f0, nr as int, nc as int));
                                } else {
                                    assert(self.cell(nr as int, nc as int).is_revealed);
                                    let path = choose|path: Seq<(int, int)>|
                                        flood_path_ok(&f0, path, nr as int, nc as int, r, c);
                                    lemma_flood_path_revealed(
                                        &f0,
                                        self,
                                        path,
                                        nr as int,
                                        nc as int,
                                        r,
                                        c,
                                    );
                                    assert(false);
                                }
                            }
                        }
                    }
                }
            }
            t = t + 1;
        }
        proof {
            assert forall|r: int, c: int|
                #![trigger self.cell(r, c)]
                f0.in_bounds(r, c) implies (self.cell(r, c).is_revealed <==> f0.cell(
                r,
                c,
            ).is_revealed || chord_reaches(&f0, pr, pc, r, c)) by {
                if self.cell(r, c).is_revealed && !f0.cell(r, c).is_revealed {
                    let j = choose|j: int|
                        0 <= j < nlen && chord_seed_ok(&f0, nbrs@[j].0 as int, nbrs@[j].1 as int)
                            && flood_reaches(&f0, nbrs@[j].0 as int, nbrs@[j].1 as int, r, c);
                    assert(f0.in_bounds(nbrs@[j].0 as int, nbrs@[j].1 as int) && adjacent(
                        pr,
                        pc,
                        nbrs@[j].0 as int,
                        nbrs@[j].1 as int,
                    ));
                    assert(chord_reaches(&f0, pr, pc, r, c));
                }
                if chord_reaches(&f0, pr, pc, r, c) {
                    let (nr2, nc2) = choose|nr2: int, nc2: int|
                        f0.in_bounds(nr2, nc2) && adjacent(pr, pc, nr2, nc2) && chord_seed_ok(
                            &f0,
                            nr2,
                            nc2,
                        ) && flood_reaches(&f0, nr2, nc2, r, c);
                    assert(seq_has_pos(nbrs@, nr2, nc2));
                    let j = choose|j: int|
                        0 <= j < nbrs@.len() && nbrs@[j].0 as int == nr2 && nbrs@[j].1 as int
                            == nc2;
                    assert(flood_reaches(&f0, nbrs@[j].0 as int, nbrs@[j].1 as int, r, c));
                    assert(reached_by_prefix(&f0, nbrs@, nlen as int, r, c));
                }
            }
            assert(chord_opens(&f0, self, pr, pc));
        }
        Ok(false)
    }
}

} // verus!
