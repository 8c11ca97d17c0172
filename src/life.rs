//! Conway's Life on a bounded board whose border row and column stay fixed.

use vstd::prelude::*;

verus! {

/// The state of a square. `Death` and `Birth` mark, while a generation is
/// computed, squares that are about to empty or to fill.
#[derive(Debug, Clone, Copy, PartialEq, Eq, Structural)]
pub enum Cell {
    Empty,
    Occupied,
    Death,
    Birth,
}

/// A square that counts as a live neighbour.
pub open spec fn live(c: Cell) -> bool {
    c == Cell::Occupied || c == Cell::Death
}

/// The index of square (x, y) in a board of width `w`, row by row.
pub open spec fn index(w: int, x: int, y: int) -> int {
    x + y * w
}

/// 1 where square (x, y) is live, else 0.
pub open spec fn live_at(g: Seq<Cell>, w: int, x: int, y: int) -> int {
    if live(g[index(w, x, y)]) {
        1
    } else {
        0
    }
}

/// The number of live squares among the eight around (x, y).
pub open spec fn neighbours(g: Seq<Cell>, w: int, x: int, y: int) -> int {
    live_at(g, w, x - 1, y - 1) + live_at(g, w, x, y - 1) + live_at(g, w, x + 1, y - 1)
        + live_at(g, w, x - 1, y) + live_at(g, w, x + 1, y) + live_at(g, w, x - 1, y + 1)
        + live_at(g, w, x, y + 1) + live_at(g, w, x + 1, y + 1)
}

/// The next state of a square with `n` live neighbours: an empty square with
/// three fills, an occupied one with fewer than two or more than three
/// empties; a pending mark takes effect.
pub open spec fn next_cell(c: Cell, n: int) -> Cell {
    match c {
        Cell::Empty => if n == 3 {
            Cell::Occupied
        } else {
            Cell::Empty
        },
        Cell::Occupied => if n < 2 || n > 3 {
            Cell::Empty
        } else {
            Cell::Occupied
        },
        Cell::Death => Cell::Empty,
        Cell::Birth => Cell::Occupied,
    }
}

/// Square (x, y) lies inside the border.
pub open spec fn inner(w: int, h: int, x: int, y: int) -> bool {
    1 <= x < w - 1 && 1 <= y < h - 1
}

/// The mark that the first pass of a generation puts on a square.
pub open spec fn mark(c: Cell, n: int) -> Cell {
    if n == 3 && c == Cell::Empty {
        Cell::Birth
    } else if (n < 2 || n > 3) && c == Cell::Occupied {
        Cell::Death
    } else {
        c
    }
}

/// Square (x, y) of a row-by-row walk comes before (cx, cy).
pub open spec fn before(x: int, y: int, cx: int, cy: int) -> bool {
    y < cy || (y == cy && x < cx)
}

/// Indexes of squares on the board lie within it.
pub proof fn lemma_index_bound(w: int, h: int, x: int, y: int)
    requires
        0 <= x < w,
        0 <= y < h,
    ensures
        0 <= index(w, x, y) < w * h,
{
    assert(0 <= x + y * w) by (nonlinear_arith)
        requires
            0 <= x,
            0 <= y,
            0 <= w,
    ;
    assert(y * w <= (h - 1) * w) by (nonlinear_arith)
        requires
            y <= h - 1,
            0 <= w,
    ;
    assert((h - 1) * w == w * h - w) by (nonlinear_arith);
}

/// Different squares have different indexes.
pub proof fn lemma_index_unique(w: int, x1: int, y1: int, x2: int, y2: int)
    requires
        0 <= x1 < w,
        0 <= x2 < w,
        0 <= y1,
        0 <= y2,
        index(w, x1, y1) == index(w, x2, y2),
    ensures
        x1 == x2,
        y1 == y2,
{
    if y1 < y2 {
        assert(x1 + y1 * w < x2 + y2 * w) by (nonlinear_arith)
            requires
                0 <= x1 < w,
                0 <= x2,
                y1 < y2,
        ;
    } else if y2 < y1 {
        assert(x2 + y2 * w < x1 + y1 * w) by (nonlinear_arith)
            requires
                0 <= x2 < w,
                0 <= x1,
                y2 < y1,
        ;
    }
}

/// A Life board of `width` by `height` squares.
pub struct Board {
    cells: Vec<Cell>,
    width: usize,
    height: usize,
}

impl Board {
    /// The squares, row by row.
    pub closed spec fn grid(&self) -> Seq<Cell> {
        self.cells@
    }

    pub closed spec fn w(&self) -> int {
        self.width as int
    }

    pub closed spec fn h(&self) -> int {
        self.height as int
    }

    /// The board holds one square for each column of each row.
    pub closed spec fn wf(&self) -> bool {
        self.cells@.len() == self.width * self.height
    }

    /// An empty board.
    pub fn new(width: usize, height: usize) -> (r: Self)
        requires
            width * height <= usize::MAX,
        ensures
            r.wf(),
            r.w() == width,
            r.h() == height,
            r.grid() == Seq::new((width * height) as nat, |i: int| Cell::Empty),
    {
        let n = width * height;
        let mut cells: Vec<Cell> = Vec::new();
        let mut i: usize = 0;
        while i < n
            invariant
                i <= n,
                cells@ == Seq::new(i as nat, |j: int| Cell::Empty),
            decreases n - i,
        {
            cells.push(Cell::Empty);
            i += 1;
            assert(cells@ =~= Seq::new(i as nat, |j: int| Cell::Empty));
        }
        Board { cells, width, height }
    }

    /// The square at (x, y).
    pub fn get(&self, x: usize, y: usize) -> (r: Cell)
        requires
            self.wf(),
            x < self.w(),
            y < self.h(),
        ensures
            r == self.grid()[index(self.w(), x as int, y as int)],
    {
        let len = self.cells.len();
        proof {
            lemma_index_bound(self.w(), self.h(), x as int, y as int);
        }
        self.cells[x + y * self.width]
    }

    /// Puts `c` on square (x, y).
    pub fn set(&mut self, x: usize, y: usize, c: Cell)
        requires
            old(self).wf(),
            x < old(self).w(),
            y < old(self).h(),
        ensures
            final(self).wf(),
            final(self).w() == old(self).w(),
            final(self).h() == old(self).h(),
            final(self).grid() == old(self).grid().update(index(old(self).w(), x as int, y as int), c),
    {
        let len = self.cells.len();
        proof {
            lemma_index_bound(self.w(), self.h(), x as int, y as int);
        }
        let i = x + y * self.width;
        self.cells.set(i, c);
    }
    /// 1 where square (x, y) is live, else 0.
    fn live_count(&self, x: usize, y: usize) -> (r: u8)
        requires
            self.wf(),
            x < self.w(),
            y < self.h(),
        ensures
            r == live_at(self.grid(), self.w(), x as int, y as int),
    {
        let c = self.get(x, y);
        if c == Cell::Occupied || c == Cell::Death {
            1
        } else {
            0
        }
    }

    /// The number of live squares around an inner square (x, y).
    fn live_neighbours(&self, x: usize, y: usize) -> (r: u8)
        requires
            self.wf(),
            inner(self.w(), self.h(), x as int, y as int),
        ensures
            r == neighbours(self.grid(), self.w(), x as int, y as int),
    {
        self.live_count(x - 1, y - 1) + self.live_count(x, y - 1) + self.live_count(x + 1, y - 1)
            + self.live_count(x - 1, y) + self.live_count(x + 1, y) + self.live_count(x - 1, y + 1)
            + self.live_count(x, y + 1) + self.live_count(x + 1, y + 1)
    }

    /// Computes the next generation: every square inside the border takes
    /// its next state from its live neighbours; the border stays as it is.
    #[verifier::rlimit(50)]
    pub fn evolve(&mut self)
        requires
            old(self).wf(),
        ensures
            final(self).wf(),
            final(self).w() == old(self).w(),
            final(self).h() == old(self).h(),
            forall|x: int, y: int|
                0 <= x < old(self).w() && 0 <= y < old(self).h() ==> #[trigger] final(self).grid()[index(
                    old(self).w(),
                    x,
                    y,
                )] == if inner(old(self).w(), old(self).h(), x, y) {
                    next_cell(
                        old(self).grid()[index(old(self).w(), x, y)],
                        neighbours(old(self).grid(), old(self).w(), x, y),
                    )
                } else {
                    old(self).grid()[index(old(self).w(), x, y)]
                },
    {
        let w = self.width;
        let h = self.height;
        if w < 3 || h < 3 {
            return;
        }
        let ghost g0 = self.grid();
        let ghost wi = w as int;
        let ghost hi = h as int;
        let mut y: usize = 1;
        while y < h - 1
            invariant
                self.wf(),
                self.w() == wi,
                self.h() == hi,
                wi == w,
                hi == h,
                w >= 3,
                h >= 3,
                g0 == old(self).grid(),
                wi == old(self).w(),
                hi == old(self).h(),
                1 <= y <= h - 1,
                self.grid().len() == g0.len(),
                forall|j: int| 0 <= j < g0.len() ==> live(#[trigger] self.grid()[j]) == live(g0[j]),
                forall|x2: int, y2: int|
                    0 <= x2 < wi && 0 <= y2 < hi ==> #[trigger] self.grid()[index(wi, x2, y2)] == if inner(wi, hi, x2, y2) && before(x2, y2, 1, y as int) {
                        mark(g0[index(wi, x2, y2)], neighbours(g0, wi, x2, y2))
                    } else {
                        g0[index(wi, x2, y2)]
                    },
            decreases h - y,
        {
            let mut x: usize = 1;
            while x < w - 1
                invariant
                    self.wf(),
                    self.w() == wi,
                    self.h() == hi,
                    wi == w,
                    hi == h,
                    w >= 3,
                    h >= 3,
                    1 <= y < h - 1,
                    1 <= x <= w - 1,
                    self.grid().len() == g0.len(),
                    forall|j: int| 0 <= j < g0.len() ==> live(#[trigger] self.grid()[j]) == live(g0[j]),
                    forall|x2: int, y2: int|
                        0 <= x2 < wi && 0 <= y2 < hi ==> #[trigger] self.grid()[index(wi, x2, y2)] == if inner(wi, hi, x2, y2) && before(x2, y2, x as int, y as int) {
                            mark(g0[index(wi, x2, y2)], neighbours(g0, wi, x2, y2))
                        } else {
                            g0[index(wi, x2, y2)]
                        },
                decreases w - x,
            {
                let n = self.live_neighbours(x, y);
                proof {
                    let g = self.grid();
                    lemma_index_bound(wi, hi, x - 1, y - 1);
                    lemma_index_bound(wi, hi, x as int, y - 1);
                    lemma_index_bound(wi, hi, x + 1, y - 1);
                    lemma_index_bound(wi, hi, x - 1, y as int);
                    lemma_index_bound(wi, hi, x + 1, y as int);
                    lemma_index_bound(wi, hi, x - 1, y + 1);
                    lemma_index_bound(wi, hi, x as int, y + 1);
                    lemma_index_bound(wi, hi, x + 1, y + 1);
                    assert(neighbours(g, wi, x as int, y as int) == neighbours(g0, wi, x as int, y as int));
                }
                let c = self.get(x, y);
                let ghost before_set = self.grid();
                let ghost i0 = index(wi, x as int, y as int);
                proof {
                    lemma_index_bound(wi, hi, x as int, y as int);
                }
                if n == 3 && c == Cell::Empty {
                    self.set(x, y, Cell::Birth);
                } else if (n < 2 || n > 3) && c == Cell::Occupied {
                    self.set(x, y, Cell::Death);
                }
                proof {
                    assert(self.grid() == before_set.update(i0, mark(c, n as int)));
                    assert forall|x2: int, y2: int|
                        0 <= x2 < wi && 0 <= y2 < hi implies #[trigger] self.grid()[index(wi, x2, y2)] == if inner(wi, hi, x2, y2) && before(x2, y2, x + 1, y as int) {
                            mark(g0[index(wi, x2, y2)], neighbours(g0, wi, x2, y2))
                        } else {
                            g0[index(wi, x2, y2)]
                        } by {
                        lemma_index_bound(wi, hi, x2, y2);
                        if index(wi, x2, y2) == i0 {
                            lemma_index_unique(wi, x2, y2, x as int, y as int);
                        }
                    }
                }
                x += 1;
            }
            y += 1;
        }
        let mut y: usize = 1;
        while y < h - 1
            invariant
                self.wf(),
                self.w() == wi,
                self.h() == hi,
                wi == w,
                hi == h,
                w >= 3,
                h >= 3,
                g0 == old(self).grid(),
                wi == old(self).w(),
                hi == old(self).h(),
                1 <= y <= h - 1,
                self.grid().len() == g0.len(),
                forall|x2: int, y2: int|
                    0 <= x2 < wi && 0 <= y2 < hi ==> #[trigger] self.grid()[index(wi, x2, y2)] == if inner(wi, hi, x2, y2) && before(x2, y2, 1, y as int) {
                        next_cell(g0[index(wi, x2, y2)], neighbours(g0, wi, x2, y2))
                    } else if inner(wi, hi, x2, y2) {
                        mark(g0[index(wi, x2, y2)], neighbours(g0, wi, x2, y2))
                    } else {
                        g0[index(wi, x2, y2)]
                    },
            decreases h - y,
        {
            let mut x: usize = 1;
            while x < w - 1
                invariant
                    self.wf(),
                    self.w() == wi,
                    self.h() == hi,
                    wi == w,
                    hi == h,
                    w >= 3,
                    h >= 3,
                    1 <= y < h - 1,
                    1 <= x <= w - 1,
                    self.grid().len() == g0.len(),
                    forall|x2: int, y2: int|
                        0 <= x2 < wi && 0 <= y2 < hi ==> #[trigger] self.grid()[index(wi, x2, y2)] == if inner(wi, hi, x2, y2) && before(x2, y2, x as int, y as int) {
                            next_cell(g0[index(wi, x2, y2)], neighbours(g0, wi, x2, y2))
                        } else if inner(wi, hi, x2, y2) {
                            mark(g0[index(wi, x2, y2)], neighbours(g0, wi, x2, y2))
                        } else {
                            g0[index(wi, x2, y2)]
                        },
                decreases w - x,
            {
                let c = self.get(x, y);
                let ghost before_set = self.grid();
                let ghost i0 = index(wi, x as int, y as int);
                proof {
                    lemma_index_bound(wi, hi, x as int, y as int);
                }
                if c == Cell::Death {
                    self.set(x, y, Cell::Empty);
                } else if c == Cell::Birth {
                    self.set(x, y, Cell::Occupied);
                }
                proof {
                    assert forall|x2: int, y2: int|
                        0 <= x2 < wi && 0 <= y2 < hi implies #[trigger] self.grid()[index(wi, x2, y2)] == if inner(wi, hi, x2, y2) && before(x2, y2, x + 1, y as int) {
                            next_cell(g0[index(wi, x2, y2)], neighbours(g0, wi, x2, y2))
                        } else if inner(wi, hi, x2, y2) {
                            mark(g0[index(wi, x2, y2)], neighbours(g0, wi, x2, y2))
                        } else {
                            g0[index(wi, x2, y2)]
                        } by {
                        lemma_index_bound(wi, hi, x2, y2);
                        if index(wi, x2, y2) == i0 {
                            lemma_index_unique(wi, x2, y2, x as int, y as int);
                        }
                    }
                }
                x += 1;
            }
            y += 1;
        }
    }
}

/// A starting pattern on a 39 by 12 board:
///
/// ```text
///    *
///   ***
///  ** **
/// ```
pub fn example1() -> (r: Board)
    ensures
        r.wf(),
        r.w() == 39,
        r.h() == 12,
        r.grid() == Seq::new(468, |i: int| Cell::Empty).update(index(39, 19, 5), Cell::Occupied).update(index(39, 18, 6), Cell::Occupied).update(index(39, 19, 6), Cell::Occupied).update(index(39, 20, 6), Cell::Occupied).update(index(39, 17, 7), Cell::Occupied).update(index(39, 18, 7), Cell::Occupied).update(index(39, 20, 7), Cell::Occupied).update(index(39, 21, 7), Cell::Occupied),
{
    let mut b = Board::new(39, 12);
    b.set(19, 5, Cell::Occupied);
    b.set(18, 6, Cell::Occupied);
    b.set(19, 6, Cell::Occupied);
    b.set(20, 6, Cell::Occupied);
    b.set(17, 7, Cell::Occupied);
    b.set(18, 7, Cell::Occupied);
    b.set(20, 7, Cell::Occupied);
    b.set(21, 7, Cell::Occupied);
    b
}

} // verus!
