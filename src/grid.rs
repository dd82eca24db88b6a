use vstd::prelude::*;
use std::hash::{DefaultHasher, Hasher};
use vstd::std_specs::hash::DefaultHasherAdditionalSpecFns;

verus! {

/// The content hash of a board: std's default hasher fed the cells.
pub open spec fn board_hash(g: GridModel) -> u64 {
    DefaultHasher::spec_finish(seq![g.cells])
}

/// The empty board with win length `l`, width `w` and height `h`.
pub open spec fn empty_board(l: int, w: int, h: int) -> GridModel {
    GridModel { l, w, h, cells: Seq::new((w * h) as nat, |x: int| 0u8), turn: 0 }
}

/// Mathematical picture of a board: its win length `l`, width `w`, height
/// `h`, the cells in row-major order (row 0 at the bottom) and the turn count.
pub struct GridModel {
    pub l: int,
    pub w: int,
    pub h: int,
    pub cells: Seq<u8>,
    pub turn: int,
}

/// Number of non-empty cells in `s`.
pub open spec fn count_nonzero(s: Seq<u8>) -> nat
    decreases s.len(),
{
    if s.len() == 0 {
        0
    } else {
        count_nonzero(s.drop_last()) + if s.last() != 0 { 1nat } else { 0nat }
    }
}

/// `x` moved `k` steps in direction `d` (one of -1, 0, 1).
pub open spec fn offset(x: int, k: int, d: int) -> int {
    if d > 0 {
        x + k
    } else if d < 0 {
        x - k
    } else {
        x
    }
}

/// A cell value the board can hold: empty, a disc, or a highlighted disc.
pub open spec fn valid_cell(v: u8) -> bool {
    v == 0 || v == 1 || v == 2 || v == 10 || v == 20
}

impl GridModel {
    pub open spec fn in_bounds(self, i: int, j: int) -> bool {
        0 <= i < self.h && 0 <= j < self.w
    }

    pub open spec fn cell(self, i: int, j: int) -> u8 {
        self.cells[i * self.w + j]
    }

    pub open spec fn wf(self) -> bool {
        &&& 1 <= self.l
        &&& 1 <= self.w
        &&& 1 <= self.h
        &&& self.w * self.h <= 255
        &&& self.cells.len() == self.w * self.h
        &&& self.turn == count_nonzero(self.cells)
        &&& forall|x: int| 0 <= x < self.cells.len() ==> valid_cell(#[trigger] self.cells[x])
        &&& forall|i: int, j: int|
            0 < i < self.h && 0 <= j < self.w && #[trigger] self.cell(i, j) != 0 ==> self.cell(
                i - 1,
                j,
            ) != 0
    }

    /// Every cell is empty or holds a plain (not highlighted) disc.
    pub open spec fn plain(self) -> bool {
        forall|i: int, j: int|
            self.in_bounds(i, j) ==> #[trigger] self.cell(i, j) <= 2
    }

    pub open spec fn player_to_move(self) -> u8 {
        ((self.turn % 2) + 1) as u8
    }

    /// A column is open when its top cell is empty.
    pub open spec fn column_open(self, j: int) -> bool {
        self.cell(self.h - 1, j) == 0
    }

    /// The open columns among the first `n`, in increasing order.
    pub open spec fn open_prefix(self, n: int) -> Seq<usize>
        decreases n,
    {
        if n <= 0 {
            Seq::empty()
        } else if self.column_open(n - 1) {
            self.open_prefix(n - 1).push((n - 1) as usize)
        } else {
            self.open_prefix(n - 1)
        }
    }

    /// The columns whose top cell is empty, in increasing order.
    pub open spec fn open_columns(self) -> Seq<usize> {
        self.open_prefix(self.w)
    }

    /// The lowest empty row of column `j` at or above row `r`, or `h` if there is none.
    pub open spec fn first_empty(self, j: int, r: int) -> int
        decreases self.h - r,
    {
        if r >= self.h {
            self.h
        } else if self.cell(r, j) == 0 {
            r
        } else {
            self.first_empty(j, r + 1)
        }
    }

    /// The row where a disc dropped in column `j` lands; `h` when the column is full.
    pub open spec fn landing_row(self, j: int) -> int {
        self.first_empty(j, 0)
    }

    /// The board after the player to move drops a disc in column `j`; the
    /// board itself when the column is full.
    pub open spec fn after_play(self, j: int) -> GridModel {
        let r = self.landing_row(j);
        if r < self.h {
            GridModel {
                cells: self.cells.update(r * self.w + j, self.player_to_move()),
                turn: self.turn + 1,
                ..self
            }
        } else {
            self
        }
    }

    /// `l` cells of player value `p`, starting at `(i, j)` and going in direction `(di, dj)`.
    pub open spec fn window(self, p: u8, i: int, j: int, di: int, dj: int) -> bool {
        forall|k: int|
            0 <= k < self.l ==> self.in_bounds(#[trigger] offset(i, k, di), offset(j, k, dj))
                && self.cell(offset(i, k, di), offset(j, k, dj)) == p
    }

    /// The cell `k` steps from `(row, col)` in direction `(di, dj)` is on the board and holds `p`.
    pub open spec fn step_is(self, p: u8, row: int, col: int, di: int, dj: int, k: int) -> bool {
        self.in_bounds(offset(row, k, di), offset(col, k, dj)) && self.cell(
            offset(row, k, di),
            offset(col, k, dj),
        ) == p
    }

    /// What a win check at `(row, col)` finds: the disc there when it ends a
    /// vertical window going down, or lies in a horizontal or diagonal window
    /// of its own discs; 0 otherwise.
    pub open spec fn fast_win(self, row: int, col: int) -> u8 {
        let p = self.cell(row, col);
        if p != 0 && (self.window(p, row - (self.l - 1), col, 1, 0) || self.line_through(
            p,
            row,
            col,
            0,
            1,
        ) || self.line_through(p, row, col, 1, 1) || self.line_through(p, row, col, 1, -1)) {
            p
        } else {
            0
        }
    }

    /// A full-board scan restricted to the lines through `(row, col)`: the
    /// disc there when some window of `l` of its discs, in any of the four
    /// directions, contains the cell; 0 otherwise.
    pub open spec fn line_win(self, row: int, col: int) -> u8 {
        let p = self.cell(row, col);
        if p != 0 && (self.line_through(p, row, col, 1, 0) || self.line_through(p, row, col, 0, 1)
            || self.line_through(p, row, col, 1, 1) || self.line_through(p, row, col, 1, -1)) {
            p
        } else {
            0
        }
    }

    /// The cell index `x` is one of the first `m` cells of the window starting
    /// at `(i, j)` in direction `(di, dj)`.
    pub open spec fn in_window(self, x: int, i: int, j: int, di: int, dj: int, m: int) -> bool {
        exists|k: int| 0 <= k < m && x == #[trigger] offset(i, k, di) * self.w + offset(j, k, dj)
    }

    /// The board with the first `m` discs of the window starting at `(i, j)`
    /// in direction `(di, dj)` relabelled as highlighted.
    pub open spec fn highlight_prefix(self, i: int, j: int, di: int, dj: int, m: int) -> GridModel {
        GridModel {
            cells: Seq::new(
                self.cells.len(),
                |x: int|
                    if self.in_window(x, i, j, di, dj, m) {
                        (self.cells[x] * 10) as u8
                    } else {
                        self.cells[x]
                    },
            ),
            ..self
        }
    }

    /// The board with the discs of the window starting at `(i, j)` in
    /// direction `(di, dj)` relabelled as highlighted.
    pub open spec fn highlight(self, i: int, j: int, di: int, dj: int) -> GridModel {
        self.highlight_prefix(i, j, di, dj, self.l)
    }

    /// The walk from `(i, j)` in direction `(di, dj)` has met exactly `run`
    /// cells of `p` in a row just before its step `t`.
    #[verifier::opaque]
    pub open spec fn run_ok(self, i: int, j: int, di: int, dj: int, t: int, run: int, p: u8) -> bool {
        &&& 0 <= run <= t
        &&& forall|m: int|
            t - run <= m < t ==> #[trigger] self.cell(offset(i, m, di), offset(j, m, dj)) == p
        &&& run < t ==> self.cell(offset(i, t - run - 1, di), offset(j, t - run - 1, dj)) != p
        &&& forall|m: int| 0 <= m < t ==> #[trigger] self.in_bounds(offset(i, m, di), offset(j, m, dj))
    }

    /// No window of either player starts on the walk from `(i, j)` and ends
    /// before its step `t`.
    #[verifier::opaque]
    pub open spec fn no_window_before(self, i: int, j: int, di: int, dj: int, t: int) -> bool {
        forall|t0: int, p: u8|
            0 <= t0 && t0 + self.l <= t && (p == 1 || p == 2) ==> !#[trigger] self.window(
                p,
                offset(i, t0, di),
                offset(j, t0, dj),
                di,
                dj,
            )
    }

    /// No window of either player starts on the walk from `(i, j)` in
    /// direction `(di, dj)`.
    pub open spec fn walk_clear(self, i: int, j: int, di: int, dj: int) -> bool {
        forall|t: int, p: u8|
            0 <= t && (p == 1 || p == 2) ==> !#[trigger] self.window(
                p,
                offset(i, t, di),
                offset(j, t, dj),
                di,
                dj,
            )
    }

    /// One of the four directions a line can run in: along a row, up a
    /// column, or up either diagonal.
    pub open spec fn line_dir(di: int, dj: int) -> bool {
        (di == 0 && dj == 1) || (di == 1 && (dj == 0 || dj == 1 || dj == -1))
    }

    /// Some window of `p` lies somewhere on the board: along a row, a column
    /// or a diagonal.
    pub open spec fn has_line(self, p: u8) -> bool {
        exists|i: int, j: int|
            #![trigger self.window(p, i, j, 0, 1)]
            #![trigger self.window(p, i, j, 1, 0)]
            #![trigger self.window(p, i, j, 1, 1)]
            #![trigger self.window(p, i, j, 1, -1)]
            self.window(p, i, j, 0, 1) || self.window(p, i, j, 1, 0) || self.window(p, i, j, 1, 1)
                || self.window(p, i, j, 1, -1)
    }

    /// A window of `p` in direction `(di, dj)` that contains `(row, col)`.
    pub open spec fn line_through(self, p: u8, row: int, col: int, di: int, dj: int) -> bool {
        exists|s: int|
            0 <= s < self.l && #[trigger] self.window(
                p,
                offset(row, s, -di),
                offset(col, s, -dj),
                di,
                dj,
            )
    }
}

pub struct Grid {
    l: usize,
    w: usize,
    h: usize,
    cells: Vec<u8>,
    turn: u8,
}

impl View for Grid {
    type V = GridModel;

    closed spec fn view(&self) -> GridModel {
        GridModel {
            l: self.l as int,
            w: self.w as int,
            h: self.h as int,
            cells: self.cells@,
            turn: self.turn as int,
        }
    }
}

impl Clone for Grid {
    fn clone(&self) -> (r: Grid)
        ensures
            r@ == self@,
    {
        Grid { l: self.l, w: self.w, h: self.h, cells: self.cells.clone(), turn: self.turn }
    }
}

pub proof fn lemma_count_nonzero_bound(s: Seq<u8>)
    ensures
        count_nonzero(s) <= s.len(),
    decreases s.len(),
{
    if s.len() > 0 {
        lemma_count_nonzero_bound(s.drop_last());
    }
}

pub proof fn lemma_count_nonzero_zeros(n: nat)
    ensures
        count_nonzero(Seq::new(n, |x: int| 0u8)) == 0,
    decreases n,
{
    if n > 0 {
        lemma_count_nonzero_zeros((n - 1) as nat);
        assert(Seq::new(n, |x: int| 0u8).drop_last() =~= Seq::new((n - 1) as nat, |x: int| 0u8));
    }
}

/// Writing a value over a cell changes the count only by whether the cell was
/// and is occupied.
proof fn lemma_count_nonzero_update(s: Seq<u8>, x: int, v: u8)
    requires
        0 <= x < s.len(),
    ensures
        count_nonzero(s.update(x, v)) + (if s[x] != 0 { 1int } else { 0int }) == count_nonzero(s)
            + (if v != 0 { 1int } else { 0int }),
    decreases s.len(),
{
    if x == s.len() - 1 {
        assert(s.update(x, v).drop_last() =~= s.drop_last());
    } else {
        lemma_count_nonzero_update(s.drop_last(), x, v);
        assert(s.update(x, v).drop_last() =~= s.drop_last().update(x, v));
    }
}

impl Grid {
    /// An empty board of width `w` and height `h` on which `l` in a row wins.
    pub fn new(l: usize, w: usize, h: usize) -> (g: Grid)
        requires
            1 <= l,
            1 <= w,
            1 <= h,
            w * h <= 255,
        ensures
            g@.wf(),
            g@.l == l,
            g@.w == w,
            g@.h == h,
            g@.turn == 0,
            forall|x: int| 0 <= x < w * h ==> g@.cells[x] == 0,
            g@ == empty_board(l as int, w as int, h as int),
            g@.plain(),
    {
        let n: usize = w * h;
        let mut cells: Vec<u8> = Vec::new();
        while cells.len() < n
            invariant
                cells.len() <= n,
                forall|x: int| 0 <= x < cells.len() ==> cells@[x] == 0,
            decreases n - cells.len(),
        {
            cells.push(0);
        }
        let g = Grid { l, w, h, cells, turn: 0 };
        proof {
            assert(g@.cells =~= empty_board(l as int, w as int, h as int).cells);
            assert(g@.cells =~= Seq::new(n as nat, |x: int| 0u8));
            lemma_count_nonzero_zeros(n as nat);
            assert forall|i: int, j: int|
                0 < i < h && 0 <= j < w && #[trigger] g@.cell(i, j) != 0 implies g@.cell(
                i - 1,
                j,
            ) != 0 by {
                assert(0 <= i * w + j < w * h) by (nonlinear_arith)
                    requires
                        0 < i < h,
                        0 <= j < w,
                ;
            }
        }
        proof {
            assert forall|i: int, j: int| g@.in_bounds(i, j) implies #[trigger] g@.cell(i, j) <= 2 by {
                lemma_cell_index(g@, i, j);
            }
        }
        g
    }

    pub fn width(&self) -> (r: usize)
        ensures
            r == self@.w,
    {
        self.w
    }

    pub fn height(&self) -> (r: usize)
        ensures
            r == self@.h,
    {
        self.h
    }

    pub fn line_length(&self) -> (r: usize)
        ensures
            r == self@.l,
    {
        self.l
    }

    pub fn turn(&self) -> (r: u8)
        ensures
            r == self@.turn,
    {
        self.turn
    }

    pub fn player_to_move(&self) -> (r: u8)
        ensures
            r == self@.player_to_move(),
            r == 1 || r == 2,
    {
        self.turn % 2 + 1
    }

    /// The value of the cell at row `i`, column `j`.
    pub fn read(&self, i: usize, j: usize) -> (r: u8)
        requires
            self@.wf(),
            i < self@.h,
            j < self@.w,
        ensures
            r == self@.cell(i as int, j as int),
    {
        proof {
            lemma_cell_index(self@, i as int, j as int);
        }
        self.cells[i * self.w + j]
    }

    /// Writes `value` into a cell on the board; out-of-range coordinates leave
    /// the board as it is.
    fn set(&mut self, i: usize, j: usize, value: u8)
        requires
            old(self)@.cells.len() == old(self)@.w * old(self)@.h,
            old(self)@.w * old(self)@.h <= 255,
        ensures
            final(self)@ == (if i < old(self)@.h && j < old(self)@.w {
                GridModel {
                    cells: old(self)@.cells.update(i * old(self)@.w + j, value),
                    ..old(self)@
                }
            } else {
                old(self)@
            }),
    {
        if i < self.h && j < self.w {
            assert(0 <= i * self.w + j < self.w * self.h) by (nonlinear_arith)
                requires
                    i < self.h,
                    j < self.w,
            ;
            self.cells.set(i * self.w + j, value);
        }
    }

    /// The columns whose top cell is empty, left to right.
    pub fn legal_moves(&self) -> (r: Vec<usize>)
        requires
            self@.wf(),
        ensures
            r@ == self@.open_columns(),
    {
        let mut legal: Vec<usize> = Vec::new();
        let mut j: usize = 0;
        while j < self.w
            invariant
                self@.wf(),
                j <= self@.w,
                legal@ == self@.open_prefix(j as int),
            decreases self@.w - j,
        {
            if self.read(self.h - 1, j) == 0 {
                legal.push(j);
            }
            j = j + 1;
        }
        legal
    }

    /// How many columns are open.
    pub fn n_legal(&self) -> (r: usize)
        requires
            self@.wf(),
        ensures
            r == self@.open_columns().len(),
    {
        let mut n: usize = 0;
        let mut j: usize = 0;
        while j < self.w
            invariant
                self@.wf(),
                j <= self@.w,
                n == self@.open_prefix(j as int).len(),
                n <= j,
            decreases self@.w - j,
        {
            if self.read(self.h - 1, j) == 0 {
                n = n + 1;
            }
            j = j + 1;
        }
        n
    }

    /// Drops a disc of the player to move into column `col` and returns the
    /// row where it landed; a full column is left alone and `h` comes back.
    pub fn play(&mut self, col: usize) -> (row: usize)
        requires
            old(self)@.wf(),
            col < old(self)@.w,
        ensures
            row == old(self)@.landing_row(col as int),
            final(self)@ == old(self)@.after_play(col as int),
            final(self)@.wf(),
            row < old(self)@.h <==> old(self)@.column_open(col as int),
    {
        proof {
            lemma_landing(self@, col as int);
        }
        let mut row: usize = 0;
        while row < self.h
            invariant
                self@ == old(self)@,
                self@.wf(),
                col < self@.w,
                row <= self@.h,
                self@.first_empty(col as int, row as int) == self@.landing_row(col as int),
            decreases self@.h - row,
        {
            if self.read(row, col) == 0 {
                proof {
                    lemma_landing(self@, col as int);
                    lemma_after_play_wf(self@, col as int);
                    lemma_count_nonzero_bound(self@.after_play(col as int).cells);
                }
                let p = self.player_to_move();
                self.set(row, col, p);
                self.turn = self.turn + 1;
                return row;
            }
            row = row + 1;
        }
        proof {
            lemma_landing(self@, col as int);
        }
        self.h
    }

    /// A hash of the cells alone, equal for boards with equal cells.
    pub fn content_hash(&self) -> (r: u64)
        ensures
            r == board_hash(self@),
    {
        let mut s = DefaultHasher::new();
        s.write(self.cells.as_slice());
        s.finish()
    }

    /// The cell at row-major index `x`.
    pub fn cell_at(&self, x: usize) -> (r: u8)
        requires
            x < self@.cells.len(),
        ensures
            r == self@.cells[x as int],
    {
        self.cells[x]
    }

    /// The cell one step from `(i, j)` in direction `(dr, dc)`, if it is on
    /// the board.
    pub fn step_from(&self, i: usize, j: usize, dr: i8, dc: i8) -> (r: Option<(usize, usize)>)
        requires
            self@.wf(),
            self@.in_bounds(i as int, j as int),
            -1 <= dr <= 1,
            -1 <= dc <= 1,
        ensures
            r is Some <==> self@.in_bounds(offset(i as int, 1, dr as int), offset(j as int, 1, dc as int)),
            r matches Some((a, b)) ==> a == offset(i as int, 1, dr as int) && b == offset(
                j as int,
                1,
                dc as int,
            ),
    {
        if (dr < 0 && i == 0) || (dr > 0 && i + 1 >= self.h) || (dc < 0 && j == 0) || (dc > 0 && j
            + 1 >= self.w) {
            return None;
        }
        let a: usize = if dr < 0 {
            i - 1
        } else if dr > 0 {
            i + 1
        } else {
            i
        };
        let b: usize = if dc < 0 {
            j - 1
        } else if dc > 0 {
            j + 1
        } else {
            j
        };
        Some((a, b))
    }

    /// How many cells in a row hold `p`, starting one step from `(row, col)`
    /// in direction `(dr, dc)` and stopping at a wall or another value.
    fn run_len(&self, row: usize, col: usize, dr: i8, dc: i8, p: u8) -> (n: usize)
        requires
            self@.wf(),
            self@.in_bounds(row as int, col as int),
            -1 <= dr <= 1,
            -1 <= dc <= 1,
            dr != 0 || dc != 0,
        ensures
            forall|k: int|
                1 <= k <= n ==> #[trigger] self@.step_is(
                    p,
                    row as int,
                    col as int,
                    dr as int,
                    dc as int,
                    k,
                ),
            !self@.step_is(p, row as int, col as int, dr as int, dc as int, n + 1),
            n < 255,
    {
        let mut n: usize = 0;
        let mut i: usize = row;
        let mut j: usize = col;
        loop
            invariant
                self@.wf(),
                -1 <= dr <= 1,
                -1 <= dc <= 1,
                dr != 0 || dc != 0,
                self@.in_bounds(row as int, col as int),
                self@.in_bounds(i as int, j as int),
                i == offset(row as int, n as int, dr as int),
                j == offset(col as int, n as int, dc as int),
                n < self@.h + self@.w,
                forall|k: int|
                    1 <= k <= n ==> #[trigger] self@.step_is(
                        p,
                        row as int,
                        col as int,
                        dr as int,
                        dc as int,
                        k,
                    ),
            ensures
                !self@.step_is(p, row as int, col as int, dr as int, dc as int, n + 1),
                forall|k: int|
                    1 <= k <= n ==> #[trigger] self@.step_is(
                        p,
                        row as int,
                        col as int,
                        dr as int,
                        dc as int,
                        k,
                    ),
                n < self@.h + self@.w,
            decreases self@.h + self@.w - n,
        {
            if (dr < 0 && i == 0) || (dr > 0 && i + 1 >= self.h) || (dc < 0 && j == 0) || (dc > 0
                && j + 1 >= self.w) {
                break;
            }
            let ni: usize = if dr < 0 {
                i - 1
            } else if dr > 0 {
                i + 1
            } else {
                i
            };
            let nj: usize = if dc < 0 {
                j - 1
            } else if dc > 0 {
                j + 1
            } else {
                j
            };
            if self.read(ni, nj) != p {
                break;
            }
            i = ni;
            j = nj;
            n = n + 1;
            proof {
                assert(i == offset(row as int, n as int, dr as int));
                assert(j == offset(col as int, n as int, dc as int));
                if dr != 0 {
                    assert(n <= self@.h);
                } else {
                    assert(n <= self@.w);
                }
            }
        }
        proof {
            assert(self@.h + self@.w <= 256) by (nonlinear_arith)
                requires
                    1 <= self@.h,
                    1 <= self@.w,
                    self@.w * self@.h <= 255,
            ;
        }
        n
    }

    /// Whether a disc at `(row, col)` lies in a line of `l` discs of its
    /// player: down the column, or along the row or either diagonal through
    /// the cell. Returns that player, or 0.
    pub fn win_fast(&self, row: usize, col: usize) -> (r: u8)
        requires
            self@.wf(),
            self@.in_bounds(row as int, col as int),
        ensures
            r == self@.fast_win(row as int, col as int),
    {
        let player = self.read(row, col);
        let g = Ghost(self@);
        // Vertical line, downward from the cell
        let down = self.run_len(row, col, -1, 0, player);
        proof {
            lemma_vertical_run(g@, player, row as int, col as int, down as int);
        }
        if down >= self.l - 1 {
            return player;
        }
        // Horizontal line
        let right = self.run_len(row, col, 0, 1, player);
        let left = self.run_len(row, col, 0, -1, player);
        proof {
            lemma_line_runs(g@, player, row as int, col as int, 0, 1, right as int, left as int);
        }
        if right + left + 1 >= self.l {
            return player;
        }
        // Diagonal: /
        let up_right = self.run_len(row, col, 1, 1, player);
        let down_left = self.run_len(row, col, -1, -1, player);
        proof {
            lemma_line_runs(
                g@,
                player,
                row as int,
                col as int,
                1,
                1,
                up_right as int,
                down_left as int,
            );
        }
        if up_right + down_left + 1 >= self.l {
            return player;
        }
        // Diagonal: \
        let up_left = self.run_len(row, col, 1, -1, player);
        let down_right = self.run_len(row, col, -1, 1, player);
        proof {
            lemma_line_runs(
                g@,
                player,
                row as int,
                col as int,
                1,
                -1,
                up_left as int,
                down_right as int,
            );
        }
        if up_left + down_right + 1 >= self.l {
            return player;
        }
        0
    }

    /// Relabels the discs of a window as highlighted.
    fn highlight_window(&mut self, si: usize, sj: usize, di: i8, dj: i8)
        requires
            old(self)@.wf(),
            -1 <= di <= 1,
            -1 <= dj <= 1,
            di != 0 || dj != 0,
            old(self)@.window(1, si as int, sj as int, di as int, dj as int) || old(self)@.window(
                2,
                si as int,
                sj as int,
                di as int,
                dj as int,
            ),
        ensures
            final(self)@ == old(self)@.highlight(si as int, sj as int, di as int, dj as int),
            final(self)@.wf(),
    {
        let ghost g0 = self@;
        let ghost (a, b, da, db) = (si as int, sj as int, di as int, dj as int);
        let ghost p: u8 = if g0.window(1, a, b, da, db) {
            1
        } else {
            2
        };
        let mut k: usize = 0;
        let mut i: usize = si;
        let mut j: usize = sj;
        proof {
            assert(self@.cells =~= g0.highlight_prefix(a, b, da, db, 0).cells);
        }
        while k < self.l
            invariant
                g0.wf(),
                self@.wf(),
                a == si && b == sj && da == di && db == dj,
                -1 <= da <= 1,
                -1 <= db <= 1,
                da != 0 || db != 0,
                p == 1 || p == 2,
                g0.window(p, a, b, da, db),
                k <= g0.l,
                k < g0.l ==> i == offset(a, k as int, da) && j == offset(b, k as int, db),
                self@ == g0.highlight_prefix(a, b, da, db, k as int),
            decreases g0.l - k,
        {
            proof {
                lemma_highlight_step(g0, p, a, b, da, db, k as int);
                lemma_cell_index(g0, i as int, j as int);
            }
            let v = self.read(i, j);
            proof {
                lemma_count_nonzero_update(self@.cells, i * self@.w + j, (v * 10) as u8);
                lemma_highlight_wf(g0, self@, i as int, j as int);
            }
            self.set(i, j, v * 10);
            k = k + 1;
            if k < self.l {
                proof {
                    assert(g0.in_bounds(offset(a, k as int, da), offset(b, k as int, db)));
                }
                i = if di < 0 {
                    i - 1
                } else if di > 0 {
                    i + 1
                } else {
                    i
                };
                j = if dj < 0 {
                    j - 1
                } else if dj > 0 {
                    j + 1
                } else {
                    j
                };
            }
        }
    }

    /// Walks from `(i, j)` in steps of `(v_i, v_j)` until it leaves the board.
    /// The first line of `l` equal discs met on the way (no other ends before
    /// it) is highlighted and its player returned; 0 when the walk meets none.
    #[verifier::rlimit(60)]
    fn walk_highlight(&mut self, i: usize, j: usize, v_i: i8, v_j: i8) -> (r: u8)
        requires
            old(self)@.wf(),
            old(self)@.in_bounds(i as int, j as int),
            -1 <= v_i <= 1,
            -1 <= v_j <= 1,
            v_i != 0 || v_j != 0,
        ensures
            final(self)@.wf(),
            r == 0 || r == 1 || r == 2,
            r == 0 ==> final(self)@ == old(self)@,
            r == 0 ==> old(self)@.walk_clear(i as int, j as int, v_i as int, v_j as int),
            r != 0 ==> exists|t: int|
                0 <= t && #[trigger] old(self)@.window(
                    r,
                    offset(i as int, t, v_i as int),
                    offset(j as int, t, v_j as int),
                    v_i as int,
                    v_j as int,
                ) && final(self)@ == old(self)@.highlight(
                    offset(i as int, t, v_i as int),
                    offset(j as int, t, v_j as int),
                    v_i as int,
                    v_j as int,
                ) && forall|t2: int, p: u8|
                    0 <= t2 < t && (p == 1 || p == 2) ==> !#[trigger] old(self)@.window(
                        p,
                        offset(i as int, t2, v_i as int),
                        offset(j as int, t2, v_j as int),
                        v_i as int,
                        v_j as int,
                    ),
    {
        let ghost g0 = self@;
        let ghost di = v_i as int;
        let ghost dj = v_j as int;
        let mut t: usize = 0;
        let mut ci: usize = i;
        let mut cj: usize = j;
        let mut run1: usize = 0;
        let mut run2: usize = 0;
        proof {
            reveal(GridModel::run_ok);
            reveal(GridModel::no_window_before);
        }
        loop
            invariant_except_break
                run1 < g0.l,
                run2 < g0.l,
                g0.run_ok(i as int, j as int, di, dj, t as int, run1 as int, 1),
                g0.run_ok(i as int, j as int, di, dj, t as int, run2 as int, 2),
                g0.no_window_before(i as int, j as int, di, dj, t as int),
            invariant
                self@ == g0,
                g0 == old(self)@,
                g0.wf(),
                -1 <= di <= 1,
                -1 <= dj <= 1,
                di != 0 || dj != 0,
                di == v_i as int,
                dj == v_j as int,
                g0.in_bounds(i as int, j as int),
                g0.in_bounds(ci as int, cj as int),
                ci == offset(i as int, t as int, di),
                cj == offset(j as int, t as int, dj),
                t < g0.h + g0.w,
            ensures
                self@ == g0,
                !g0.in_bounds(offset(i as int, t + 1, di), offset(j as int, t + 1, dj)),
                g0.no_window_before(i as int, j as int, di, dj, t + 1),
            decreases g0.h + g0.w - t,
        {
            let c = self.read(ci, cj);
            proof {
                lemma_run_step(g0, i as int, j as int, di, dj, t as int, run1 as int, 1);
                lemma_run_step(g0, i as int, j as int, di, dj, t as int, run2 as int, 2);
            }
            if c == 1 {
                run1 = run1 + 1;
                run2 = 0;
            } else if c == 2 {
                run1 = 0;
                run2 = run2 + 1;
            } else {
                run1 = 0;
                run2 = 0;
            }
            if run1 >= self.l || run2 >= self.l {
                let ghost t0 = t - (g0.l - 1);
                let ghost p: u8 = if run1 >= self.l { 1 } else { 2 };
                proof {
                    let run = if p == 1 { run1 as int } else { run2 as int };
                    lemma_run_window(g0, i as int, j as int, di, dj, t as int, run, p);
                }
                let back = self.l - 1;
                let si: usize = if v_i > 0 {
                    ci - back
                } else if v_i < 0 {
                    ci + back
                } else {
                    ci
                };
                let sj: usize = if v_j > 0 {
                    cj - back
                } else if v_j < 0 {
                    cj + back
                } else {
                    cj
                };
                proof {
                    assert(si == offset(i as int, t0, di));
                    assert(sj == offset(j as int, t0, dj));
                }
                self.highlight_window(si, sj, v_i, v_j);
                proof {
                    let (a, b) = (offset(i as int, t0, v_i as int), offset(j as int, t0, v_j as int));
                    assert(g0.window(p, a, b, v_i as int, v_j as int));
                    assert(self@ == g0.highlight(a, b, v_i as int, v_j as int));
                    reveal(GridModel::no_window_before);
                    assert forall|t2: int, q: u8|
                        0 <= t2 < t0 && (q == 1 || q == 2) implies !#[trigger] g0.window(
                        q,
                        offset(i as int, t2, v_i as int),
                        offset(j as int, t2, v_j as int),
                        v_i as int,
                        v_j as int,
                    ) by {
                        assert(t2 + g0.l <= t);
                    }
                }
                if run1 >= self.l {
                    return 1;
                } else {
                    return 2;
                }
            }
            proof {
                lemma_run_no_window(g0, i as int, j as int, di, dj, t as int, run1 as int, run2 as int);
            }
            if (v_i < 0 && ci == 0) || (v_i > 0 && ci + 1 >= self.h) || (v_j < 0 && cj == 0) || (v_j
                > 0 && cj + 1 >= self.w) {
                proof {
                    assert(!g0.in_bounds(offset(i as int, t + 1, di), offset(j as int, t + 1, dj)));
                }
                break;
            }
            ci = if v_i < 0 {
                ci - 1
            } else if v_i > 0 {
                ci + 1
            } else {
                ci
            };
            cj = if v_j < 0 {
                cj - 1
            } else if v_j > 0 {
                cj + 1
            } else {
                cj
            };
            t = t + 1;
            proof {
                assert(ci == offset(i as int, t as int, di));
                assert(cj == offset(j as int, t as int, dj));
                if di != 0 {
                    assert(t <= g0.h);
                } else {
                    assert(t <= g0.w);
                }
                assert(g0.h + g0.w <= 256) by (nonlinear_arith)
                    requires
                        1 <= g0.h,
                        1 <= g0.w,
                        g0.w * g0.h <= 255,
                ;
            }
        }
        proof {
            lemma_ray_end(g0, i as int, j as int, di, dj, t as int);
        }
        0
    }

    /// Scans the whole board for a line of `l` discs of one player. The first
    /// line found is highlighted and its player returned; 0 when there is none.
    pub fn win_highlight(&mut self) -> (r: u8)
        requires
            old(self)@.wf(),
        ensures
            final(self)@.wf(),
            r == 0 || r == 1 || r == 2,
            r == 0 <==> !old(self)@.has_line(1) && !old(self)@.has_line(2),
            r == 0 ==> final(self)@ == old(self)@,
            r != 0 ==> exists|i: int, j: int, di: int, dj: int|
                GridModel::line_dir(di, dj) && #[trigger] old(self)@.window(r, i, j, di, dj)
                    && final(self)@ == old(self)@.highlight(i, j, di, dj),
    {
        let ghost g0 = self@;
        // Horizontal lines
        let mut i: usize = 0;
        while i < self.h
            invariant
                self@ == g0,
                g0 == old(self)@,
                g0.wf(),
                i <= g0.h,
                forall|a: int| 0 <= a < i ==> #[trigger] g0.walk_clear(a, 0, 0, 1),
            decreases g0.h - i,
        {
            let win = self.walk_highlight(i, 0, 0, 1);
            if win != 0 {
                proof {
                    lemma_found_line(g0, self@, win, i as int, 0, 0, 1);
                }
                return win;
            }
            i = i + 1;
        }
        // Vertical lines
        let mut j: usize = 0;
        while j < self.w
            invariant
                self@ == g0,
                g0 == old(self)@,
                g0.wf(),
                j <= g0.w,
                forall|a: int| 0 <= a < g0.h ==> #[trigger] g0.walk_clear(a, 0, 0, 1),
                forall|b: int| 0 <= b < j ==> #[trigger] g0.walk_clear(0, b, 1, 0),
            decreases g0.w - j,
        {
            let win = self.walk_highlight(0, j, 1, 0);
            if win != 0 {
                proof {
                    lemma_found_line(g0, self@, win, 0, j as int, 1, 0);
                }
                return win;
            }
            j = j + 1;
        }
        // Diagonals starting on the left and right sides, above the corners
        if self.h >= self.l {
            let mut i: usize = 1;
            while i <= self.h - self.l
                invariant
                    self@ == g0,
                    g0 == old(self)@,
                    g0.wf(),
                    g0.h >= g0.l,
                    1 <= i <= g0.h - g0.l + 1,
                    forall|a: int| 0 <= a < g0.h ==> #[trigger] g0.walk_clear(a, 0, 0, 1),
                    forall|b: int| 0 <= b < g0.w ==> #[trigger] g0.walk_clear(0, b, 1, 0),
                    forall|a: int| 1 <= a < i ==> #[trigger] g0.walk_clear(a, 0, 1, 1),
                    forall|a: int| 1 <= a < i ==> #[trigger] g0.walk_clear(a, g0.w - 1, 1, -1),
                decreases g0.h - i,
            {
                let win = self.walk_highlight(i, 0, 1, 1);
                if win != 0 {
                    proof {
                        lemma_found_line(g0, self@, win, i as int, 0, 1, 1);
                    }
                    return win;
                }
                let win = self.walk_highlight(i, self.w - 1, 1, -1);
                if win != 0 {
                    proof {
                        lemma_found_line(g0, self@, win, i as int, g0.w - 1, 1, -1);
                    }
                    return win;
                }
                i = i + 1;
            }
        }
        // Diagonals starting on the bottom row, going right
        if self.w >= self.l {
            let mut j: usize = 0;
            while j <= self.w - self.l
                invariant
                    self@ == g0,
                    g0 == old(self)@,
                    g0.wf(),
                    g0.w >= g0.l,
                    j <= g0.w - g0.l + 1,
                    forall|a: int| 0 <= a < g0.h ==> #[trigger] g0.walk_clear(a, 0, 0, 1),
                    forall|b: int| 0 <= b < g0.w ==> #[trigger] g0.walk_clear(0, b, 1, 0),
                    g0.h >= g0.l ==> forall|a: int|
                        1 <= a <= g0.h - g0.l ==> #[trigger] g0.walk_clear(a, 0, 1, 1),
                    g0.h >= g0.l ==> forall|a: int|
                        1 <= a <= g0.h - g0.l ==> #[trigger] g0.walk_clear(a, g0.w - 1, 1, -1),
                    forall|b: int| 0 <= b < j ==> #[trigger] g0.walk_clear(0, b, 1, 1),
                decreases g0.w - j,
            {
                let win = self.walk_highlight(0, j, 1, 1);
                if win != 0 {
                    proof {
                        lemma_found_line(g0, self@, win, 0, j as int, 1, 1);
                    }
                    return win;
                }
                j = j + 1;
            }
        }
        // Diagonals starting on the bottom row, going left
        let mut j: usize = self.l - 1;
        while j < self.w
            invariant
                self@ == g0,
                g0 == old(self)@,
                g0.wf(),
                g0.l - 1 <= j,
                j <= g0.w || g0.w < g0.l,
                forall|a: int| 0 <= a < g0.h ==> #[trigger] g0.walk_clear(a, 0, 0, 1),
                forall|b: int| 0 <= b < g0.w ==> #[trigger] g0.walk_clear(0, b, 1, 0),
                g0.h >= g0.l ==> forall|a: int|
                    1 <= a <= g0.h - g0.l ==> #[trigger] g0.walk_clear(a, 0, 1, 1),
                g0.h >= g0.l ==> forall|a: int|
                    1 <= a <= g0.h - g0.l ==> #[trigger] g0.walk_clear(a, g0.w - 1, 1, -1),
                g0.w >= g0.l ==> forall|b: int|
                    0 <= b <= g0.w - g0.l ==> #[trigger] g0.walk_clear(0, b, 1, 1),
                forall|b: int| g0.l - 1 <= b < j ==> #[trigger] g0.walk_clear(0, b, 1, -1),
            decreases g0.w - j,
        {
            let win = self.walk_highlight(0, j, 1, -1);
            if win != 0 {
                proof {
                    lemma_found_line(g0, self@, win, 0, j as int, 1, -1);
                }
                return win;
            }
            j = j + 1;
        }
        proof {
            lemma_scan_complete(g0, 1);
            lemma_scan_complete(g0, 2);
        }
        0
    }

    /// Every board reachable in one move, with the cell where the disc landed,
    /// column by column from the left.
    pub fn next_grids(&self) -> (r: Vec<(usize, usize, Grid)>)
        requires
            self@.wf(),
        ensures
            r.len() == self@.open_columns().len(),
            forall|k: int|
                0 <= k < r.len() ==> {
                    let c = self@.open_columns()[k] as int;
                    &&& (#[trigger] r[k]).1 == c
                    &&& r[k].0 == self@.landing_row(c)
                    &&& r[k].0 < self@.h
                    &&& r[k].2@ == self@.after_play(c)
                    &&& r[k].2@.wf()
                },
    {
        let legal = self.legal_moves();
        let mut grids: Vec<(usize, usize, Grid)> = Vec::new();
        let mut k: usize = 0;
        while k < legal.len()
            invariant
                self@.wf(),
                legal@ == self@.open_columns(),
                k <= legal.len(),
                grids.len() == k,
                forall|m: int|
                    0 <= m < k ==> {
                        let c = self@.open_columns()[m] as int;
                        &&& (#[trigger] grids[m]).1 == c
                        &&& grids[m].0 == self@.landing_row(c)
                        &&& grids[m].0 < self@.h
                        &&& grids[m].2@ == self@.after_play(c)
                        &&& grids[m].2@.wf()
                    },
            decreases legal.len() - k,
        {
            let col = legal[k];
            proof {
                lemma_open_columns(self@);
            }
            let mut grid = self.clone();
            let row = grid.play(col);
            grids.push((row, col, grid));
            k = k + 1;
        }
        grids
    }
}

/// The row-major index of an in-bounds cell lies inside the cell sequence.
pub proof fn lemma_cell_index(g: GridModel, i: int, j: int)
    requires
        g.wf(),
        g.in_bounds(i, j),
    ensures
        0 <= i * g.w + j < g.cells.len(),
        i * g.w + j < 255,
{
    assert(0 <= i * g.w + j < g.w * g.h) by (nonlinear_arith)
        requires
            0 <= i < g.h,
            0 <= j < g.w,
    ;
}

pub proof fn lemma_first_empty_range(g: GridModel, j: int, r: int)
    requires
        g.wf(),
        0 <= j < g.w,
        0 <= r <= g.h,
    ensures
        r <= g.first_empty(j, r) <= g.h,
        g.first_empty(j, r) < g.h ==> g.cell(g.first_empty(j, r), j) == 0,
        forall|x: int| r <= x < g.first_empty(j, r) ==> g.cell(x, j) != 0,
    decreases g.h - r,
{
    if r < g.h && g.cell(r, j) != 0 {
        lemma_first_empty_range(g, j, r + 1);
    }
}

proof fn lemma_open_prefix(g: GridModel, n: int)
    requires
        0 <= n <= 255,
    ensures
        forall|k: int| 0 <= k < g.open_prefix(n).len() ==> {
            let c = #[trigger] g.open_prefix(n)[k] as int;
            0 <= c < n && g.column_open(c)
        },
        forall|c: int| 0 <= c < n && g.column_open(c) ==> g.open_prefix(n).contains(c as usize),
        forall|a: int, b: int|
            0 <= a < b < g.open_prefix(n).len() ==> g.open_prefix(n)[a] < g.open_prefix(n)[b],
        g.open_prefix(n).len() <= n,
    decreases n,
{
    if n > 0 {
        lemma_open_prefix(g, n - 1);
        let s = g.open_prefix(n - 1);
        if g.column_open(n - 1) {
            assert(g.open_prefix(n) == s.push((n - 1) as usize));
            assert forall|c: int| 0 <= c < n && g.column_open(c) implies g.open_prefix(n).contains(
                c as usize,
            ) by {
                if c < n - 1 {
                    let k = choose|k: int| 0 <= k < s.len() && s[k] == c as usize;
                    assert(g.open_prefix(n)[k] == c as usize);
                } else {
                    assert(g.open_prefix(n)[s.len() as int] == c as usize);
                }
            }
        }
    }
}

/// The open columns are exactly the columns whose top cell is empty, each
/// once, in increasing order.
pub proof fn lemma_open_columns(g: GridModel)
    requires
        g.wf(),
    ensures
        forall|k: int| 0 <= k < g.open_columns().len() ==> {
            let c = #[trigger] g.open_columns()[k] as int;
            0 <= c < g.w && g.column_open(c)
        },
        forall|c: int| 0 <= c < g.w && g.column_open(c) ==> g.open_columns().contains(c as usize),
        forall|a: int, b: int|
            0 <= a < b < g.open_columns().len() ==> g.open_columns()[a] < g.open_columns()[b],
        g.open_columns().len() <= g.w,
{
    assert(g.w <= 255) by (nonlinear_arith)
        requires
            1 <= g.h,
            g.w * g.h <= 255,
            1 <= g.w,
    ;
    lemma_open_prefix(g, g.w);
}

/// A window through `(row, col)` in direction `(di, dj)` exists exactly when
/// the runs of `p` on both sides of the cell, with the cell, reach `l`.
pub proof fn lemma_line_runs(g: GridModel, p: u8, row: int, col: int, di: int, dj: int, a: int, b: int)
    requires
        g.wf(),
        g.in_bounds(row, col),
        g.cell(row, col) == p,
        -1 <= di <= 1,
        -1 <= dj <= 1,
        0 <= a,
        0 <= b,
        forall|k: int| 1 <= k <= a ==> #[trigger] g.step_is(p, row, col, di, dj, k),
        !g.step_is(p, row, col, di, dj, a + 1),
        forall|k: int| 1 <= k <= b ==> #[trigger] g.step_is(p, row, col, -di, -dj, k),
        !g.step_is(p, row, col, -di, -dj, b + 1),
    ensures
        g.line_through(p, row, col, di, dj) <==> a + b + 1 >= g.l,
{
    if a + b + 1 >= g.l {
        let s = if b < g.l - 1 { b } else { g.l - 1 };
        assert forall|k: int| 0 <= k < g.l implies g.in_bounds(
            #[trigger] offset(offset(row, s, -di), k, di),
            offset(offset(col, s, -dj), k, dj),
        ) && g.cell(offset(offset(row, s, -di), k, di), offset(offset(col, s, -dj), k, dj)) == p by {
            if k > s {
                assert(g.step_is(p, row, col, di, dj, k - s));
            } else if k < s {
                assert(g.step_is(p, row, col, -di, -dj, s - k));
            }
        }
        assert(g.window(p, offset(row, s, -di), offset(col, s, -dj), di, dj));
    }
    if g.line_through(p, row, col, di, dj) {
        let s = choose|s: int|
            0 <= s < g.l && #[trigger] g.window(
                p,
                offset(row, s, -di),
                offset(col, s, -dj),
                di,
                dj,
            );
        if a < g.l - 1 - s {
            let k = s + a + 1;
            assert(offset(offset(row, s, -di), k, di) == offset(row, a + 1, di));
            assert(offset(offset(col, s, -dj), k, dj) == offset(col, a + 1, dj));
        }
        if b < s {
            let k = s - b - 1;
            assert(offset(offset(row, s, -di), k, di) == offset(row, b + 1, -di));
            assert(offset(offset(col, s, -dj), k, dj) == offset(col, b + 1, -dj));
        }
    }
}

/// The vertical window ending at `(row, col)` exists exactly when the run of
/// `p` below the cell is at least `l - 1` long.
pub proof fn lemma_vertical_run(g: GridModel, p: u8, row: int, col: int, b: int)
    requires
        g.wf(),
        g.in_bounds(row, col),
        g.cell(row, col) == p,
        0 <= b,
        forall|k: int| 1 <= k <= b ==> #[trigger] g.step_is(p, row, col, -1, 0, k),
        !g.step_is(p, row, col, -1, 0, b + 1),
    ensures
        g.window(p, row - (g.l - 1), col, 1, 0) <==> b >= g.l - 1,
{
    let s = g.l - 1;
    if b >= s {
        assert forall|k: int| 0 <= k < g.l implies g.in_bounds(
            #[trigger] offset(row - s, k, 1),
            offset(col, k, 0),
        ) && g.cell(offset(row - s, k, 1), offset(col, k, 0)) == p by {
            if k < s {
                assert(g.step_is(p, row, col, -1, 0, s - k));
            }
        }
    }
    if g.window(p, row - s, col, 1, 0) && b < s {
        let k = s - b - 1;
        assert(offset(row - s, k, 1) == offset(row, b + 1, -1));
    }
}

/// For the disc on top of its column (the last one played there), the win
/// check at its cell agrees with a full-board scan of the lines through that
/// cell.
pub proof fn lemma_win_fast_agrees(g: GridModel, row: int, col: int)
    requires
        g.wf(),
        g.in_bounds(row, col),
        row + 1 == g.h || g.cell(row + 1, col) == 0,
    ensures
        g.fast_win(row, col) == g.line_win(row, col),
{
    let p = g.cell(row, col);
    let s = g.l - 1;
    if g.window(p, row - s, col, 1, 0) {
        // The window ending at the cell witnesses the line through it; `-dj`
        // is spelled as in `line_through` so that the witness matches.
        let dj: int = 0;
        assert(offset(row, s, -1) == row - s);
        assert(offset(col, s, -dj) == col);
        assert(g.window(p, offset(row, s, -1), offset(col, s, -dj), 1, dj));
    }
    if p != 0 && g.line_through(p, row, col, 1, 0) {
        let t = choose|t: int|
            0 <= t < g.l && #[trigger] g.window(p, offset(row, t, -1), offset(col, t, 0), 1, 0);
        if t < s {
            assert(offset(offset(row, t, -1), t + 1, 1) == row + 1);
            assert(offset(offset(col, t, 0), t + 1, 0) == col);
            assert(g.in_bounds(row + 1, col));
        }
        assert(t == s);
        assert(offset(row, t, -1) == row - s);
        assert(offset(col, t, 0) == col);
        assert(g.window(p, row - s, col, 1, 0));
    }
}

/// Highlighting the `k`-th disc of a window: the disc is still plain before,
/// and the highlighted prefix grows by exactly that cell.
proof fn lemma_highlight_step(g: GridModel, p: u8, a: int, b: int, da: int, db: int, k: int)
    requires
        g.wf(),
        -1 <= da <= 1,
        -1 <= db <= 1,
        da != 0 || db != 0,
        g.window(p, a, b, da, db),
        0 <= k < g.l,
    ensures
        ({
            let (i, j) = (offset(a, k, da), offset(b, k, db));
            let x = i * g.w + j;
            &&& g.in_bounds(i, j)
            &&& g.cell(i, j) == p
            &&& g.highlight_prefix(a, b, da, db, k).cells[x] == p
            &&& g.highlight_prefix(a, b, da, db, k + 1).cells == g.highlight_prefix(
                a,
                b,
                da,
                db,
                k,
            ).cells.update(x, (p * 10) as u8)
        }),
{
    let (i, j) = (offset(a, k, da), offset(b, k, db));
    assert(g.in_bounds(i, j));
    lemma_cell_index(g, i, j);
    let x = i * g.w + j;
    assert forall|m: int| 0 <= m < k implies #[trigger] offset(a, m, da) * g.w + offset(b, m, db)
        != x by {
        assert(g.in_bounds(offset(a, m, da), offset(b, m, db)));
        lemma_cell_distinct(g, i, j, offset(a, m, da), offset(b, m, db));
    }
    assert(!g.in_window(x, a, b, da, db, k));
    let lo = g.highlight_prefix(a, b, da, db, k);
    let hi = g.highlight_prefix(a, b, da, db, k + 1);
    assert forall|y: int| 0 <= y < g.cells.len() implies #[trigger] hi.cells[y] == lo.cells.update(
        x,
        (p * 10) as u8,
    )[y] by {
        if y == x {
            assert(g.in_window(y, a, b, da, db, k + 1)) by {
                assert(y == offset(a, k, da) * g.w + offset(b, k, db));
            }
        } else {
            if g.in_window(y, a, b, da, db, k + 1) {
                let m = choose|m: int|
                    0 <= m < k + 1 && y == #[trigger] offset(a, m, da) * g.w + offset(b, m, db);
                assert(m != k);
                assert(g.in_window(y, a, b, da, db, k));
            }
            if g.in_window(y, a, b, da, db, k) {
                let m = choose|m: int|
                    0 <= m < k && y == #[trigger] offset(a, m, da) * g.w + offset(b, m, db);
                assert(g.in_window(y, a, b, da, db, k + 1));
            }
        }
    }
    assert(hi.cells =~= lo.cells.update(x, (p * 10) as u8));
}

/// Relabelling a disc as highlighted keeps a board well formed.
proof fn lemma_highlight_wf(g0: GridModel, g: GridModel, i: int, j: int)
    requires
        g.wf(),
        g.in_bounds(i, j),
        g.cell(i, j) == 1 || g.cell(i, j) == 2,
    ensures
        (GridModel { cells: g.cells.update(i * g.w + j, (g.cell(i, j) * 10) as u8), ..g }).wf(),
{
    let n = GridModel { cells: g.cells.update(i * g.w + j, (g.cell(i, j) * 10) as u8), ..g };
    lemma_cell_index(g, i, j);
    lemma_count_nonzero_update(g.cells, i * g.w + j, (g.cell(i, j) * 10) as u8);
    assert forall|a: int, b: int|
        0 < a < n.h && 0 <= b < n.w && #[trigger] n.cell(a, b) != 0 implies n.cell(a - 1, b) != 0 by {
        lemma_cell_index(g, a, b);
        lemma_cell_index(g, a - 1, b);
        lemma_cell_distinct(g, a, b, i, j);
        lemma_cell_distinct(g, a - 1, b, i, j);
        if a == i && b == j {
            assert(g.cell(a, b) != 0);
        } else {
            assert(n.cell(a, b) == g.cell(a, b));
        }
        assert(g.cell(a - 1, b) != 0);
        if a - 1 == i && b == j {
            assert(n.cell(a - 1, b) == (g.cell(i, j) * 10) as u8);
        } else {
            assert(n.cell(a - 1, b) == g.cell(a - 1, b));
        }
    }
}

/// Along a line, the cells between two cells on the board are on the board.
pub proof fn lemma_ray_convex(g: GridModel, i: int, j: int, di: int, dj: int, a: int, m: int, b: int)
    requires
        -1 <= di <= 1,
        -1 <= dj <= 1,
        g.in_bounds(offset(i, a, di), offset(j, a, dj)),
        g.in_bounds(offset(i, b, di), offset(j, b, dj)),
        a <= m <= b,
    ensures
        g.in_bounds(offset(i, m, di), offset(j, m, dj)),
{
}

proof fn lemma_run_step(g: GridModel, i: int, j: int, di: int, dj: int, t: int, run: int, p: u8)
    requires
        -1 <= di <= 1,
        -1 <= dj <= 1,
        g.run_ok(i, j, di, dj, t, run, p),
        g.in_bounds(offset(i, t, di), offset(j, t, dj)),
    ensures
        g.run_ok(
            i,
            j,
            di,
            dj,
            t + 1,
            if g.cell(offset(i, t, di), offset(j, t, dj)) == p { run + 1 } else { 0 },
            p,
        ),
{
    reveal(GridModel::run_ok);
    reveal(GridModel::no_window_before);
}

proof fn lemma_run_window(g: GridModel, i: int, j: int, di: int, dj: int, t: int, run: int, p: u8)
    requires
        g.wf(),
        -1 <= di <= 1,
        -1 <= dj <= 1,
        g.run_ok(i, j, di, dj, t + 1, run, p),
        run >= g.l,
    ensures
        t - (g.l - 1) >= 0,
        g.window(p, offset(i, t - (g.l - 1), di), offset(j, t - (g.l - 1), dj), di, dj),
        g.in_bounds(offset(i, t - (g.l - 1), di), offset(j, t - (g.l - 1), dj)),
{
    reveal(GridModel::run_ok);
    reveal(GridModel::no_window_before);
    let t0 = t - (g.l - 1);
    assert forall|k: int| 0 <= k < g.l implies g.in_bounds(
        #[trigger] offset(offset(i, t0, di), k, di),
        offset(offset(j, t0, dj), k, dj),
    ) && g.cell(offset(offset(i, t0, di), k, di), offset(offset(j, t0, dj), k, dj)) == p by {
        assert(offset(offset(i, t0, di), k, di) == offset(i, t0 + k, di));
        assert(offset(offset(j, t0, dj), k, dj) == offset(j, t0 + k, dj));
        assert(g.cell(offset(i, t0 + k, di), offset(j, t0 + k, dj)) == p);
        assert(g.in_bounds(offset(i, t0 + k, di), offset(j, t0 + k, dj)));
    }
    assert(g.in_bounds(offset(i, t0, di), offset(j, t0, dj)));
}

proof fn lemma_run_no_window(g: GridModel, i: int, j: int, di: int, dj: int, t: int, run1: int, run2: int)
    requires
        g.wf(),
        -1 <= di <= 1,
        -1 <= dj <= 1,
        g.run_ok(i, j, di, dj, t + 1, run1, 1),
        g.run_ok(i, j, di, dj, t + 1, run2, 2),
        run1 < g.l,
        run2 < g.l,
        g.no_window_before(i, j, di, dj, t),
    ensures
        g.no_window_before(i, j, di, dj, t + 1),
{
    reveal(GridModel::run_ok);
    reveal(GridModel::no_window_before);
    assert forall|t0: int, p: u8|
        0 <= t0 && t0 + g.l <= t + 1 && (p == 1 || p == 2) implies !#[trigger] g.window(
        p,
        offset(i, t0, di),
        offset(j, t0, dj),
        di,
        dj,
    ) by {
        if t0 + g.l == t + 1 && g.window(p, offset(i, t0, di), offset(j, t0, dj), di, dj) {
            let run = if p == 1 { run1 } else { run2 };
            let k = t - run - t0;
            assert(offset(offset(i, t0, di), k, di) == offset(i, t - run, di));
            assert(offset(offset(j, t0, dj), k, dj) == offset(j, t - run, dj));
        }
    }
}

proof fn lemma_ray_end(g: GridModel, i: int, j: int, di: int, dj: int, t: int)
    requires
        0 <= t,
        g.wf(),
        -1 <= di <= 1,
        -1 <= dj <= 1,
        g.in_bounds(i, j),
        !g.in_bounds(offset(i, t + 1, di), offset(j, t + 1, dj)),
        g.no_window_before(i, j, di, dj, t + 1),
    ensures
        forall|t0: int, p: u8|
            0 <= t0 && (p == 1 || p == 2) ==> !#[trigger] g.window(
                p,
                offset(i, t0, di),
                offset(j, t0, dj),
                di,
                dj,
            ),
{
    reveal(GridModel::run_ok);
    reveal(GridModel::no_window_before);
    assert forall|t0: int, p: u8|
        0 <= t0 && (p == 1 || p == 2) implies !#[trigger] g.window(
        p,
        offset(i, t0, di),
        offset(j, t0, dj),
        di,
        dj,
    ) by {
        if t0 + g.l > t + 1 && g.window(p, offset(i, t0, di), offset(j, t0, dj), di, dj) {
            if t0 <= t + 1 {
                let k = t + 1 - t0;
                assert(offset(offset(i, t0, di), k, di) == offset(i, t + 1, di));
                assert(offset(offset(j, t0, dj), k, dj) == offset(j, t + 1, dj));
            } else {
                assert(offset(offset(i, t0, di), 0, di) == offset(i, t0, di));
                assert(offset(offset(j, t0, dj), 0, dj) == offset(j, t0, dj));
                assert(offset(i, 0, di) == i && offset(j, 0, dj) == j);
                lemma_ray_convex(g, i, j, di, dj, 0, t + 1, t0);
            }
        }
    }
}

/// A line found by one walk of the full scan is a line of the board, and the
/// board afterwards is the board with that line highlighted.
proof fn lemma_found_line(g: GridModel, after: GridModel, r: u8, i: int, j: int, di: int, dj: int)
    requires
        GridModel::line_dir(di, dj),
        r == 1 || r == 2,
        exists|t: int|
            0 <= t && #[trigger] g.window(r, offset(i, t, di), offset(j, t, dj), di, dj) && after
                == g.highlight(offset(i, t, di), offset(j, t, dj), di, dj),
    ensures
        g.has_line(r),
        exists|a: int, b: int, da: int, db: int|
            GridModel::line_dir(da, db) && #[trigger] g.window(r, a, b, da, db) && after
                == g.highlight(a, b, da, db),
{
    let t = choose|t: int|
        0 <= t && #[trigger] g.window(r, offset(i, t, di), offset(j, t, dj), di, dj) && after
            == g.highlight(offset(i, t, di), offset(j, t, dj), di, dj);
    let a = offset(i, t, di);
    let b = offset(j, t, dj);
    assert(g.window(r, a, b, di, dj));
    if di == 0 {
        assert(g.window(r, a, b, 0, 1));
    } else if dj == 0 {
        assert(g.window(r, a, b, 1, 0));
    } else if dj == 1 {
        assert(g.window(r, a, b, 1, 1));
    } else {
        assert(g.window(r, a, b, 1, -1));
    }
}

/// The walks of the full scan together meet every window on the board.
proof fn lemma_scan_complete(g: GridModel, p: u8)
    requires
        g.wf(),
        p == 1 || p == 2,
        forall|a: int| 0 <= a < g.h ==> #[trigger] g.walk_clear(a, 0, 0, 1),
        forall|b: int| 0 <= b < g.w ==> #[trigger] g.walk_clear(0, b, 1, 0),
        g.h >= g.l ==> forall|a: int| 1 <= a <= g.h - g.l ==> #[trigger] g.walk_clear(a, 0, 1, 1),
        g.h >= g.l ==> forall|a: int|
            1 <= a <= g.h - g.l ==> #[trigger] g.walk_clear(a, g.w - 1, 1, -1),
        g.w >= g.l ==> forall|b: int| 0 <= b <= g.w - g.l ==> #[trigger] g.walk_clear(0, b, 1, 1),
        forall|b: int| g.l - 1 <= b < g.w ==> #[trigger] g.walk_clear(0, b, 1, -1),
    ensures
        !g.has_line(p),
{
    assert forall|a: int, b: int|
        #![trigger g.window(p, a, b, 0, 1)]
        #![trigger g.window(p, a, b, 1, 0)]
        #![trigger g.window(p, a, b, 1, 1)]
        #![trigger g.window(p, a, b, 1, -1)]
        !g.window(p, a, b, 0, 1) && !g.window(p, a, b, 1, 0) && !g.window(p, a, b, 1, 1)
            && !g.window(p, a, b, 1, -1) by {
        let last = g.l - 1;
        if g.window(p, a, b, 0, 1) {
            assert(g.in_bounds(offset(a, 0, 0), offset(b, 0, 1)));
            assert(g.walk_clear(a, 0, 0, 1));
            assert(offset(a, b, 0) == a && offset(0, b, 1) == b);
            assert(g.window(p, offset(a, b, 0), offset(0, b, 1), 0, 1));
        }
        if g.window(p, a, b, 1, 0) {
            assert(g.in_bounds(offset(a, 0, 1), offset(b, 0, 0)));
            assert(g.walk_clear(0, b, 1, 0));
            assert(offset(0, a, 1) == a && offset(b, a, 0) == b);
            assert(g.window(p, offset(0, a, 1), offset(b, a, 0), 1, 0));
        }
        if g.window(p, a, b, 1, 1) {
            assert(g.in_bounds(offset(a, 0, 1), offset(b, 0, 1)));
            assert(g.in_bounds(offset(a, last, 1), offset(b, last, 1)));
            if a > b {
                assert(g.walk_clear(a - b, 0, 1, 1));
                assert(offset(a - b, b, 1) == a && offset(0, b, 1) == b);
                assert(g.window(p, offset(a - b, b, 1), offset(0, b, 1), 1, 1));
            } else {
                assert(g.walk_clear(0, b - a, 1, 1));
                assert(offset(0, a, 1) == a && offset(b - a, a, 1) == b);
                assert(g.window(p, offset(0, a, 1), offset(b - a, a, 1), 1, 1));
            }
        }
        if g.window(p, a, b, 1, -1) {
            assert(g.in_bounds(offset(a, 0, 1), offset(b, 0, -1)));
            assert(g.in_bounds(offset(a, last, 1), offset(b, last, -1)));
            let c = a + b;
            if c <= g.w - 1 {
                assert(g.walk_clear(0, c, 1, -1));
                assert(offset(0, a, 1) == a && offset(c, a, -1) == b);
                assert(g.window(p, offset(0, a, 1), offset(c, a, -1), 1, -1));
            } else {
                let s = c - (g.w - 1);
                let t = g.w - 1 - b;
                assert(g.walk_clear(s, g.w - 1, 1, -1));
                assert(offset(s, t, 1) == a && offset(g.w - 1, t, -1) == b);
                assert(g.window(p, offset(s, t, 1), offset(g.w - 1, t, -1), 1, -1));
            }
        }
    }
}

/// Gravity: below an occupied cell every cell of the column is occupied.
pub proof fn lemma_gravity(g: GridModel, i: int, j: int, x: int)
    requires
        g.wf(),
        g.in_bounds(i, j),
        g.cell(i, j) != 0,
        0 <= x <= i,
    ensures
        g.cell(x, j) != 0,
    decreases i - x,
{
    if x < i {
        lemma_gravity(g, i - 1, j, x);
    }
}

/// A column is open exactly when some cell of it is empty, and then the
/// disc lands on the lowest empty cell, every cell above being empty.
pub proof fn lemma_landing(g: GridModel, j: int)
    requires
        g.wf(),
        0 <= j < g.w,
    ensures
        g.column_open(j) <==> g.landing_row(j) < g.h,
        g.landing_row(j) < g.h ==> {
            &&& 0 <= g.landing_row(j)
            &&& g.cell(g.landing_row(j), j) == 0
            &&& g.landing_row(j) == 0 || g.cell(g.landing_row(j) - 1, j) != 0
            &&& forall|x: int| g.landing_row(j) <= x < g.h ==> g.cell(x, j) == 0
        },
{
    lemma_first_empty_range(g, j, 0);
    let r = g.landing_row(j);
    if r < g.h {
        assert forall|x: int| r <= x < g.h implies g.cell(x, j) == 0 by {
            if g.cell(x, j) != 0 {
                lemma_gravity(g, x, j, r);
            }
        }
    } else if g.column_open(j) {
        assert(g.cell(g.h - 1, j) != 0);
    }
}

/// Dropping a disc in an open column keeps the board well formed.
pub proof fn lemma_after_play_wf(g: GridModel, j: int)
    requires
        g.wf(),
        0 <= j < g.w,
        g.column_open(j),
    ensures
        g.after_play(j).wf(),
        g.after_play(j).turn == g.turn + 1,
        g.after_play(j).l == g.l && g.after_play(j).w == g.w && g.after_play(j).h == g.h,
{
    lemma_landing(g, j);
    let r = g.landing_row(j);
    let n = g.after_play(j);
    lemma_cell_index(g, r, j);
    let x = r * g.w + j;
    lemma_count_nonzero_update(g.cells, x, g.player_to_move());
    lemma_count_nonzero_bound(n.cells);
    assert forall|i: int, c: int|
        0 < i < n.h && 0 <= c < n.w && #[trigger] n.cell(i, c) != 0 implies n.cell(i - 1, c) != 0 by {
        lemma_cell_index(g, i, c);
        lemma_cell_index(g, i - 1, c);
        lemma_cell_distinct(g, i, c, r, j);
        lemma_cell_distinct(g, i - 1, c, r, j);
        if i == r && c == j {
            assert(n.cell(i - 1, c) == g.cell(i - 1, c));
        } else {
            assert(n.cell(i, c) == g.cell(i, c));
            assert(g.cell(i, c) != 0);
            if i - 1 == r && c == j {
                assert(g.cell(i, c) == 0);
            } else {
                assert(n.cell(i - 1, c) == g.cell(i - 1, c));
            }
        }
    }
}

/// Dropping a disc keeps a board free of highlighted discs.
pub proof fn lemma_after_play_plain(g: GridModel, j: int)
    requires
        g.wf(),
        g.plain(),
        0 <= j < g.w,
        g.column_open(j),
    ensures
        g.after_play(j).plain(),
        g.after_play(j).cell(g.landing_row(j), j) == g.player_to_move(),
        g.player_to_move() != 0,
{
    lemma_landing(g, j);
    let r = g.landing_row(j);
    lemma_cell_index(g, r, j);
    let n = g.after_play(j);
    assert forall|a: int, b: int| n.in_bounds(a, b) implies #[trigger] n.cell(a, b) <= 2 by {
        lemma_cell_index(g, a, b);
        assert(g.cell(a, b) <= 2);
    }
}

/// Number of columns among the first `n` whose top cell is empty.
pub open spec fn count_open(g: GridModel, n: int) -> nat
    decreases n,
{
    if n <= 0 {
        0
    } else {
        count_open(g, n - 1) + if g.column_open(n - 1) { 1nat } else { 0nat }
    }
}

/// The legal moves are as many as the columns whose top cell is empty, and
/// dropping a disc into a full column is refused: the landing row is the
/// out-of-range `h` and the board stays as it was.
pub proof fn law_legal_moves(g: GridModel)
    requires
        g.wf(),
    ensures
        g.open_columns().len() == count_open(g, g.w),
        forall|c: int|
            #![trigger g.after_play(c)]
            #![trigger g.landing_row(c)]
            0 <= c < g.w && !g.column_open(c) ==> g.landing_row(c) == g.h && g.after_play(c) == g,
{
    lemma_open_prefix_count(g, g.w);
    assert forall|c: int|
        #![trigger g.after_play(c)]
        #![trigger g.landing_row(c)]
        0 <= c < g.w && !g.column_open(c) implies g.landing_row(c) == g.h && g.after_play(c) == g by {
        lemma_landing(g, c);
        lemma_first_empty_range(g, c, 0);
    }
}

proof fn lemma_open_prefix_count(g: GridModel, n: int)
    ensures
        g.open_prefix(n).len() == count_open(g, n),
    decreases n,
{
    if n > 0 {
        lemma_open_prefix_count(g, n - 1);
    }
}

/// After a disc is dropped into an open column, the win check at the cell
/// where it landed agrees with a full-board scan of the lines through that
/// cell.
pub proof fn law_win_fast_after_play(g: GridModel, c: int)
    requires
        g.wf(),
        0 <= c < g.w,
        g.column_open(c),
    ensures
        g.after_play(c).fast_win(g.landing_row(c), c) == g.after_play(c).line_win(g.landing_row(c), c),
{
    lemma_landing(g, c);
    lemma_after_play_wf(g, c);
    let r = g.landing_row(c);
    let n = g.after_play(c);
    lemma_cell_index(g, r, c);
    if r + 1 < g.h {
        lemma_cell_index(g, r + 1, c);
        lemma_cell_distinct(g, r + 1, c, r, c);
        assert(n.cell(r + 1, c) == g.cell(r + 1, c));
    }
    lemma_win_fast_agrees(n, r, c);
}

/// The disc dropped into an open column is the mover's, on the board.
pub proof fn lemma_after_play_plain_cell(g: GridModel, j: int)
    requires
        g.wf(),
        0 <= j < g.w,
        g.column_open(j),
    ensures
        g.after_play(j).in_bounds(g.landing_row(j), j),
        g.after_play(j).cell(g.landing_row(j), j) == g.player_to_move(),
{
    lemma_landing(g, j);
    lemma_cell_index(g, g.landing_row(j), j);
}

/// Distinct cells have distinct indices.
pub proof fn lemma_cell_distinct(g: GridModel, i1: int, j1: int, i2: int, j2: int)
    requires
        g.wf(),
        g.in_bounds(i1, j1),
        g.in_bounds(i2, j2),
    ensures
        (i1 * g.w + j1 == i2 * g.w + j2) <==> (i1 == i2 && j1 == j2),
{
    if i1 * g.w + j1 == i2 * g.w + j2 {
        if i1 < i2 {
            assert(i1 * g.w + j1 < i2 * g.w + j2) by (nonlinear_arith)
                requires
                    i1 < i2,
                    0 <= j1 < g.w,
                    0 <= j2,
            ;
        } else if i2 < i1 {
            assert(i2 * g.w + j2 < i1 * g.w + j1) by (nonlinear_arith)
                requires
                    i2 < i1,
                    0 <= j2 < g.w,
                    0 <= j1,
            ;
        }
    }
}

} // verus!
