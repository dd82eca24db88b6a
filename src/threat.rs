use vstd::prelude::*;
use crate::grid::{Grid, GridModel, empty_board, offset};

verus! {

/// The three shapes a threat line can have.
#[derive(PartialEq, Eq, Structural, Clone, Copy, Debug)]
pub enum Shape {
    /// `-`: along a row.
    Horizontal,
    /// `/`: up and to the right.
    Slash,
    /// `\`: up and to the left.
    Backslash,
}

/// The field of the threat map that holds `player`'s threats of shape `s`.
pub open spec fn field(s: Shape, player: u8) -> int {
    let base = match s {
        Shape::Horizontal => 0int,
        Shape::Slash => 2int,
        Shape::Backslash => 4int,
    };
    base + player - 1
}

/// Mathematical picture of a threat map: six fields of `w * h` counters
/// laid end to end, each in row-major order.
pub struct ThreatModel {
    pub w: int,
    pub h: int,
    pub vals: Seq<u32>,
}

impl ThreatModel {
    pub open spec fn n(self) -> int {
        self.w * self.h
    }

    /// Where field `f`'s counter for cell `(i, j)` sits.
    pub open spec fn idx(self, f: int, i: int, j: int) -> int {
        f * self.n() + i * self.w + j
    }

    pub open spec fn val(self, f: int, i: int, j: int) -> u32 {
        self.vals[self.idx(f, i, j)]
    }

    pub open spec fn wf(self) -> bool {
        &&& 1 <= self.w
        &&& 1 <= self.h
        &&& self.w * self.h <= 255
        &&& self.vals.len() == 6 * self.n()
    }

    /// Every counter is at most `b`.
    pub open spec fn bounded(self, b: int) -> bool {
        forall|x: int| 0 <= x < self.vals.len() ==> #[trigger] self.vals[x] <= b
    }

    pub open spec fn with_vals(self, vals: Seq<u32>) -> ThreatModel {
        ThreatModel { vals, ..self }
    }

    /// The map with field `f`'s counter at `(i, j)` set to 0.
    pub open spec fn zeroed(self, f: int, i: int, j: int) -> ThreatModel {
        self.with_vals(self.vals.update(self.idx(f, i, j), 0))
    }
}

/// The walk from `(row, col)` in direction `(dr, dc)` reaches its step `k`:
/// `k` is at most `l`, on the board, and no disc of the opponent of `p`
/// stands before it.
pub open spec fn reached(g: GridModel, row: int, col: int, dr: int, dc: int, p: u8, k: int) -> bool {
    &&& 1 <= k <= g.l
    &&& g.in_bounds(offset(row, k, dr), offset(col, k, dc))
    &&& forall|m: int|
        1 <= m < k ==> #[trigger] g.cell(offset(row, m, dr), offset(col, m, dc)) != 3 - p
}

/// The walk's step `k` is an empty cell, short of `l` steps away, whose
/// counter for `p` grows.
pub open spec fn grows(g: GridModel, row: int, col: int, dr: int, dc: int, p: u8, k: int) -> bool {
    &&& reached(g, row, col, dr, dc, p, k)
    &&& k < g.l
    &&& g.cell(offset(row, k, dr), offset(col, k, dc)) == 0
}

/// The enclosure extent of the walk from step `k` on, when it stood at `e`
/// before step `k`: a wall sets it to the last step on the board, a disc of
/// `p` to one short of that disc, a disc of the opponent ends the walk.
pub open spec fn extent_from(
    g: GridModel,
    row: int,
    col: int,
    dr: int,
    dc: int,
    p: u8,
    k: int,
    e: int,
) -> int
    decreases g.l + 1 - k,
{
    if k > g.l || k < 1 {
        e
    } else if !g.in_bounds(offset(row, k, dr), offset(col, k, dc)) {
        k - 1
    } else if g.cell(offset(row, k, dr), offset(col, k, dc)) == 0 {
        extent_from(g, row, col, dr, dc, p, k + 1, e)
    } else if g.cell(offset(row, k, dr), offset(col, k, dc)) == p {
        extent_from(g, row, col, dr, dc, p, k + 1, k - 1)
    } else {
        e
    }
}

/// How far the discs of `p` enclose the walk from `(row, col)` in direction
/// `(dr, dc)`.
pub open spec fn extent(g: GridModel, row: int, col: int, dr: int, dc: int, p: u8) -> int {
    extent_from(g, row, col, dr, dc, p, 1, 0)
}

/// `t` with field `f`'s counters raised by one on the first `upto - 1`
/// steps of the walk where they grow.
#[verifier::opaque]
pub open spec fn raised_upto(
    t: ThreatModel,
    g: GridModel,
    row: int,
    col: int,
    dr: int,
    dc: int,
    f: int,
    p: u8,
    upto: int,
) -> ThreatModel {
    t.with_vals(
        Seq::new(
            t.vals.len(),
            |x: int|
                if exists|k: int|
                    1 <= k < upto && grows(g, row, col, dr, dc, p, k) && x == #[trigger] t.idx(
                        f,
                        offset(row, k, dr),
                        offset(col, k, dc),
                    ) {
                    (t.vals[x] + 1) as u32
                } else {
                    t.vals[x]
                },
        ),
    )
}

/// `t` with field `f`'s counters raised by one on every step of the walk
/// from `(row, col)` in direction `(dr, dc)` where they grow.
pub open spec fn raised(
    t: ThreatModel,
    g: GridModel,
    row: int,
    col: int,
    dr: int,
    dc: int,
    f: int,
    p: u8,
) -> ThreatModel {
    raised_upto(t, g, row, col, dr, dc, f, p, g.l + 1)
}

/// `t` with field `f`'s counters set to 0 on steps `1..upto` of the walk
/// from `(row, col)` in direction `(dr, dc)`.
#[verifier::opaque]
pub open spec fn cleared(t: ThreatModel, row: int, col: int, dr: int, dc: int, f: int, upto: int) -> ThreatModel {
    t.with_vals(
        Seq::new(
            t.vals.len(),
            |x: int|
                if exists|k: int|
                    1 <= k < upto && x == #[trigger] t.idx(f, offset(row, k, dr), offset(col, k, dc)) {
                    0u32
                } else {
                    t.vals[x]
                },
        ),
    )
}

/// One diagonal arm of an update: raise `p`'s counters along it, then clear
/// the opponent's over the enclosed extent.
pub open spec fn arm(
    t: ThreatModel,
    g: GridModel,
    row: int,
    col: int,
    dr: int,
    dc: int,
    s: Shape,
    p: u8,
) -> ThreatModel {
    cleared(
        raised(t, g, row, col, dr, dc, field(s, p), p),
        row,
        col,
        dr,
        dc,
        field(s, (3 - p) as u8),
        extent(g, row, col, dr, dc, p) + 1,
    )
}

/// The threat map after the disc at `(row, col)` of board `g` was placed.
pub open spec fn updated(t: ThreatModel, g: GridModel, row: int, col: int) -> ThreatModel {
    let p = g.cell(row, col);
    let o = (3 - p) as u8;
    // Horizontal: raise along the row, then clear the opponent over the
    // merged enclosed span.
    let h1 = t.zeroed(field(Shape::Horizontal, p), row, col);
    let h2 = raised(h1, g, row, col, 0, 1, field(Shape::Horizontal, p), p);
    let h3 = raised(h2, g, row, col, 0, -1, field(Shape::Horizontal, p), p);
    let h4 = h3.zeroed(field(Shape::Horizontal, o), row, col);
    let h5 = cleared(h4, row, col, 0, 1, field(Shape::Horizontal, o), extent(g, row, col, 0, 1, p) + 1);
    let h6 = cleared(h5, row, col, 0, -1, field(Shape::Horizontal, o), extent(g, row, col, 0, -1, p) + 1);
    // Diagonal /: the cell is moot for both players; each arm on its own.
    let s1 = h6.zeroed(field(Shape::Slash, 1), row, col).zeroed(field(Shape::Slash, 2), row, col);
    let s2 = arm(s1, g, row, col, 1, 1, Shape::Slash, p);
    let s3 = arm(s2, g, row, col, -1, -1, Shape::Slash, p);
    // Diagonal \: likewise.
    let b1 = s3.zeroed(field(Shape::Backslash, 1), row, col).zeroed(field(Shape::Backslash, 2), row, col);
    let b2 = arm(b1, g, row, col, 1, -1, Shape::Backslash, p);
    arm(b2, g, row, col, -1, 1, Shape::Backslash, p)
}

/// The threat map built from board `g` alone: in each of the six fields a
/// counter is 0 on an occupied cell and 1 on an empty one.
pub open spec fn initial_map(g: GridModel) -> ThreatModel {
    ThreatModel {
        w: g.w,
        h: g.h,
        vals: Seq::new(
            (6 * (g.w * g.h)) as nat,
            |x: int|
                if g.cells[x % (g.w * g.h)] != 0 {
                    0u32
                } else {
                    1u32
                },
        ),
    }
}

/// In the map built from a board, each counter reads 0 on an occupied cell
/// and 1 on an empty one.
pub proof fn lemma_initial_val(g: GridModel, f: int, i: int, j: int)
    requires
        g.wf(),
        0 <= f < 6,
        g.in_bounds(i, j),
    ensures
        initial_map(g).wf(),
        initial_map(g).bounded(1),
        initial_map(g).val(f, i, j) == if g.cell(i, j) != 0 {
            0u32
        } else {
            1u32
        },
{
    let t = initial_map(g);
    let n = g.w * g.h;
    lemma_idx(t, f, i, j);
    crate::grid::lemma_cell_index(g, i, j);
    vstd::arithmetic::div_mod::lemma_mod_multiples_vanish(f, i * g.w + j, n);
    vstd::arithmetic::div_mod::lemma_small_mod((i * g.w + j) as nat, n as nat);
    assert(f * n == n * f) by (nonlinear_arith);
}

/// The board and threat map reached by playing `moves` in turn from the
/// empty board with a fresh map, the map brought up to date after each move;
/// a move into a full column changes nothing.
pub open spec fn replay(l: int, w: int, h: int, moves: Seq<usize>) -> (GridModel, ThreatModel)
    decreases moves.len(),
{
    if moves.len() == 0 {
        (empty_board(l, w, h), initial_map(empty_board(l, w, h)))
    } else {
        let (g, t) = replay(l, w, h, moves.drop_last());
        let c = moves.last() as int;
        if g.column_open(c) {
            let after = g.after_play(c);
            (after, updated(t, after, g.landing_row(c), c))
        } else {
            (g, t)
        }
    }
}

pub struct ThreatMap {
    w: usize,
    h: usize,
    vals: Vec<u32>,
}

impl View for ThreatMap {
    type V = ThreatModel;

    closed spec fn view(&self) -> ThreatModel {
        ThreatModel { w: self.w as int, h: self.h as int, vals: self.vals@ }
    }
}

impl Clone for ThreatMap {
    fn clone(&self) -> (r: ThreatMap)
        ensures
            r@ == self@,
    {
        ThreatMap { w: self.w, h: self.h, vals: self.vals.clone() }
    }
}

/// The field of `player`'s threats of shape `s`.
fn field_of(s: Shape, player: u8) -> (f: usize)
    requires
        player == 1 || player == 2,
    ensures
        f == field(s, player),
        f < 6,
{
    let base: usize = match s {
        Shape::Horizontal => 0,
        Shape::Slash => 2,
        Shape::Backslash => 4,
    };
    base + player as usize - 1
}

impl ThreatMap {
    /// A threat map for board `grid`: every counter of an occupied cell is
    /// 0, every counter of an empty cell 1.
    pub fn new(grid: &Grid) -> (t: ThreatMap)
        requires
            grid@.wf(),
        ensures
            t@.wf(),
            t@.w == grid@.w,
            t@.h == grid@.h,
            t@ == initial_map(grid@),
            t@.bounded(1),
            forall|f: int, i: int, j: int|
                0 <= f < 6 && grid@.in_bounds(i, j) ==> #[trigger] t@.val(f, i, j) == if grid@.cell(
                    i,
                    j,
                ) != 0 {
                    0u32
                } else {
                    1u32
                },
    {
        let w = grid.width();
        let h = grid.height();
        let cells: usize = w * h;
        let n: usize = 6 * cells;
        let ghost want = initial_map(grid@).vals;
        let mut vals: Vec<u32> = Vec::new();
        while vals.len() < n
            invariant
                grid@.wf(),
                cells == grid@.w * grid@.h,
                cells == grid@.cells.len(),
                n == 6 * cells,
                want == initial_map(grid@).vals,
                vals.len() <= n,
                forall|x: int| 0 <= x < vals.len() ==> vals@[x] == want[x],
            decreases n - vals.len(),
        {
            let x = vals.len();
            let v: u32 = if grid.cell_at(x % cells) != 0 {
                0
            } else {
                1
            };
            vals.push(v);
        }
        let t = ThreatMap { w, h, vals };
        proof {
            assert(t@.vals =~= want);
            assert forall|f: int, i: int, j: int|
                0 <= f < 6 && grid@.in_bounds(i, j) implies #[trigger] t@.val(f, i, j) == if grid@.cell(
                i,
                j,
            ) != 0 {
                0u32
            } else {
                1u32
            } by {
                lemma_initial_val(grid@, f, i, j);
            }
            assert(t@.bounded(1));
        }
        t
    }

    /// `player`'s threat counter of shape `s` at row `i`, column `j`.
    pub fn read(&self, i: usize, j: usize, s: Shape, player: u8) -> (r: u32)
        requires
            self@.wf(),
            i < self@.h,
            j < self@.w,
            player == 1 || player == 2,
        ensures
            r == self@.val(field(s, player), i as int, j as int),
    {
        let f = field_of(s, player);
        proof {
            lemma_idx(self@, f as int, i as int, j as int);
        }
        self.vals[f * (self.w * self.h) + i * self.w + j]
    }

    /// Raises a counter by one; coordinates off the board change nothing.
    fn increment(&mut self, i: usize, j: usize, f: usize)
        requires
            old(self)@.wf(),
            f < 6,
            i < old(self)@.h && j < old(self)@.w ==> old(self)@.val(f as int, i as int, j as int)
                < u32::MAX,
        ensures
            final(self)@ == (if i < old(self)@.h && j < old(self)@.w {
                old(self)@.with_vals(
                    old(self)@.vals.update(
                        old(self)@.idx(f as int, i as int, j as int),
                        (old(self)@.val(f as int, i as int, j as int) + 1) as u32,
                    ),
                )
            } else {
                old(self)@
            }),
    {
        if i < self.h && j < self.w {
            proof {
                lemma_idx(self@, f as int, i as int, j as int);
            }
            let x = f * (self.w * self.h) + i * self.w + j;
            let v = self.vals[x];
            self.vals.set(x, v + 1);
        }
    }

    /// Sets a counter to 0; coordinates off the board change nothing.
    fn nullify(&mut self, i: usize, j: usize, f: usize)
        requires
            old(self)@.wf(),
            f < 6,
        ensures
            final(self)@ == (if i < old(self)@.h && j < old(self)@.w {
                old(self)@.zeroed(f as int, i as int, j as int)
            } else {
                old(self)@
            }),
            forall|b: int| #[trigger] old(self)@.bounded(b) && b >= 0 ==> final(self)@.bounded(b),
            final(self)@.wf(),
            final(self)@.w == old(self)@.w && final(self)@.h == old(self)@.h,
    {
        if i < self.h && j < self.w {
            proof {
                lemma_idx(self@, f as int, i as int, j as int);
            }
            let x = f * (self.w * self.h) + i * self.w + j;
            self.vals.set(x, 0);
        }
    }
}

impl ThreatMap {
    /// Walks from `(row, col)` in direction `(dr, dc)`, at most `l` steps,
    /// raising field `f`'s counter on each empty cell short of `l` steps, and
    /// stopping at a wall or an opponent's disc. Returns the enclosure extent
    /// of `p`'s discs on the way.
    fn raise_ray(
        &mut self,
        g: &Grid,
        row: usize,
        col: usize,
        dr: i8,
        dc: i8,
        f: usize,
        p: u8,
        Ghost(b): Ghost<int>,
    ) -> (e: usize)
        requires
            old(self)@.wf(),
            g@.wf(),
            g@.plain(),
            old(self)@.w == g@.w,
            old(self)@.h == g@.h,
            g@.in_bounds(row as int, col as int),
            p == 1 || p == 2,
            f < 6,
            -1 <= dr <= 1,
            -1 <= dc <= 1,
            dr != 0 || dc != 0,
            old(self)@.bounded(b),
            b < u32::MAX,
        ensures
            final(self)@ == raised(old(self)@, g@, row as int, col as int, dr as int, dc as int, f as int, p),
            e == extent(g@, row as int, col as int, dr as int, dc as int, p),
            final(self)@.bounded(b + 1),
            final(self)@.wf(),
            final(self)@.w == old(self)@.w && final(self)@.h == old(self)@.h,
    {
        let ghost t0 = self@;
        let ghost gm = g@;
        let ghost (r, c, di, dj) = (row as int, col as int, dr as int, dc as int);
        let l = g.line_length();
        let mut e: usize = 0;
        let mut k: usize = 1;
        let mut i: usize = row;
        let mut j: usize = col;
        proof {
            reveal(raised_upto);
            assert(self@.vals =~= raised_upto(t0, gm, r, c, di, dj, f as int, p, 1).vals);
        }
        while k <= l
            invariant_except_break
                1 <= k <= gm.l + 1,
                e < k,
                i == offset(r, k - 1, di),
                j == offset(c, k - 1, dj),
                gm.in_bounds(i as int, j as int),
                forall|m: int| 1 <= m < k ==> #[trigger] gm.cell(offset(r, m, di), offset(c, m, dj)) != 3 - p,
                forall|m: int| 1 <= m < k ==> #[trigger] gm.in_bounds(offset(r, m, di), offset(c, m, dj)),
                self@ == raised_upto(t0, gm, r, c, di, dj, f as int, p, k as int),
                extent_from(gm, r, c, di, dj, p, k as int, e as int) == extent(gm, r, c, di, dj, p),
            invariant
                t0.wf(),
                gm.wf(),
                gm.plain(),
                g@ == gm,
                t0 == old(self)@,
                t0.w == gm.w,
                t0.h == gm.h,
                l == gm.l,
                gm.in_bounds(r, c),
                r == row && c == col && di == dr && dj == dc,
                p == 1 || p == 2,
                f < 6,
                -1 <= di <= 1,
                -1 <= dj <= 1,
                di != 0 || dj != 0,
                t0.bounded(b),
                b < u32::MAX,
                self@.w == t0.w && self@.h == t0.h && self@.vals.len() == t0.vals.len(),
            ensures
                self@ == raised(t0, gm, r, c, di, dj, f as int, p),
                e == extent(gm, r, c, di, dj, p),
            decreases gm.l + 1 - k,
        {
            let next = g.step_from(i, j, dr, dc);
            proof {
                assert(offset(offset(r, k - 1, di), 1, di) == offset(r, k as int, di));
                assert(offset(offset(c, k - 1, dj), 1, dj) == offset(c, k as int, dj));
            }
            match next {
                None => {
                    // Stops at the wall
                    e = k - 1;
                    proof {
                        lemma_raised_done(t0, gm, r, c, di, dj, f as int, p, k as int);
                    }
                    break;
                },
                Some((a, bb)) => {
                    let v = g.read(a, bb);
                    if v != 0 && v != p {
                        proof {
                            lemma_raised_done(t0, gm, r, c, di, dj, f as int, p, k as int);
                        }
                        break;
                    }
                    proof {
                        lemma_raised_step(t0, gm, r, c, di, dj, f as int, p, k as int);
                        lemma_idx(t0, f as int, a as int, bb as int);
                    }
                    if v == 0 {
                        if k != l {
                            self.increment(a, bb, f);
                        }
                    } else {
                        e = k - 1;
                    }
                    i = a;
                    j = bb;
                },
            }
            k = k + 1;
        }
        proof {
            lemma_raised_bounded(t0, gm, r, c, di, dj, f as int, p, b);
        }
        e
    }
}

impl ThreatMap {
    /// Sets field `f`'s counters to 0 on steps `1..=e` of the walk from
    /// `(row, col)` in direction `(dr, dc)`.
    fn clear_ray(&mut self, g: &Grid, row: usize, col: usize, dr: i8, dc: i8, f: usize, e: usize, Ghost(b): Ghost<int>)
        requires
            old(self)@.bounded(b),
            b >= 0,
            old(self)@.wf(),
            g@.wf(),
            old(self)@.w == g@.w,
            old(self)@.h == g@.h,
            g@.in_bounds(row as int, col as int),
            f < 6,
            -1 <= dr <= 1,
            -1 <= dc <= 1,
            dr != 0 || dc != 0,
            forall|m: int|
                1 <= m <= e ==> #[trigger] g@.in_bounds(
                    offset(row as int, m, dr as int),
                    offset(col as int, m, dc as int),
                ),
        ensures
            final(self)@ == cleared(old(self)@, row as int, col as int, dr as int, dc as int, f as int, e + 1),
            final(self)@.wf(),
            final(self)@.bounded(b),
            final(self)@.w == old(self)@.w && final(self)@.h == old(self)@.h,
    {
        let ghost t0 = self@;
        let ghost (r, c, di, dj) = (row as int, col as int, dr as int, dc as int);
        let mut k: usize = 1;
        let mut i: usize = row;
        let mut j: usize = col;
        proof {
            reveal(cleared);
            assert(self@.vals =~= cleared(t0, r, c, di, dj, f as int, 1).vals);
        }
        while k <= e
            invariant
                t0 == old(self)@,
                t0.wf(),
                g@.wf(),
                t0.w == g@.w,
                t0.h == g@.h,
                g@.in_bounds(r, c),
                r == row && c == col && di == dr && dj == dc,
                f < 6,
                -1 <= di <= 1,
                -1 <= dj <= 1,
                di != 0 || dj != 0,
                forall|m: int| 1 <= m <= e ==> #[trigger] g@.in_bounds(offset(r, m, di), offset(c, m, dj)),
                1 <= k <= e + 1,
                i == offset(r, k - 1, di),
                j == offset(c, k - 1, dj),
                g@.in_bounds(i as int, j as int),
                self@ == cleared(t0, r, c, di, dj, f as int, k as int),
            decreases e + 1 - k,
        {
            proof {
                assert(offset(offset(r, k - 1, di), 1, di) == offset(r, k as int, di));
                assert(offset(offset(c, k - 1, dj), 1, dj) == offset(c, k as int, dj));
                assert(g@.in_bounds(offset(r, k as int, di), offset(c, k as int, dj)));
            }
            let next = g.step_from(i, j, dr, dc);
            match next {
                Some((a, bb)) => {
                    proof {
                        lemma_cleared_step(t0, g@, r, c, di, dj, f as int, k as int);
                    }
                    self.nullify(a, bb, f);
                    i = a;
                    j = bb;
                },
                None => {},
            }
            k = k + 1;
        }
        proof {
            lemma_cleared_bounded(t0, r, c, di, dj, f as int, e + 1, b);
        }
    }
}

/// Clearing one more step of a walk.
proof fn lemma_cleared_step(t: ThreatModel, g: GridModel, row: int, col: int, dr: int, dc: int, f: int, k: int)
    requires
        t.wf(),
        g.wf(),
        t.w == g.w,
        t.h == g.h,
        0 <= f < 6,
        1 <= k,
        g.in_bounds(row, col),
        -1 <= dr <= 1,
        -1 <= dc <= 1,
        dr != 0 || dc != 0,
        g.in_bounds(offset(row, k, dr), offset(col, k, dc)),
        forall|m: int| 1 <= m < k ==> #[trigger] g.in_bounds(offset(row, m, dr), offset(col, m, dc)),
    ensures
        cleared(t, row, col, dr, dc, f, k).w == t.w,
        cleared(t, row, col, dr, dc, f, k).h == t.h,
        cleared(t, row, col, dr, dc, f, k).vals.len() == t.vals.len(),
        cleared(t, row, col, dr, dc, f, k + 1) == cleared(t, row, col, dr, dc, f, k).zeroed(
            f,
            offset(row, k, dr),
            offset(col, k, dc),
        ),
{
    reveal(cleared);
    let a = offset(row, k, dr);
    let b = offset(col, k, dc);
    let x0 = t.idx(f, a, b);
    lemma_idx(t, f, a, b);
    let lo = cleared(t, row, col, dr, dc, f, k);
    let hi = cleared(t, row, col, dr, dc, f, k + 1);
    let want = lo.vals.update(x0, 0);
    assert forall|x: int| 0 <= x < t.vals.len() implies hi.vals[x] == want[x] by {
        if x != x0 {
            if exists|m: int| 1 <= m < k + 1 && x == #[trigger] t.idx(f, offset(row, m, dr), offset(col, m, dc)) {
                let m = choose|m: int|
                    1 <= m < k + 1 && x == #[trigger] t.idx(f, offset(row, m, dr), offset(col, m, dc));
                assert(m != k);
            }
        }
    }
    assert(hi.vals =~= want);
}

/// The enclosure extent never goes past the board: every step up to it is
/// on the board.
proof fn lemma_extent_in_bounds(g: GridModel, row: int, col: int, dr: int, dc: int, p: u8, k: int, e: int)
    requires
        1 <= k,
        0 <= e <= k - 1,
        forall|m: int| 1 <= m < k ==> #[trigger] g.in_bounds(offset(row, m, dr), offset(col, m, dc)),
    ensures
        0 <= extent_from(g, row, col, dr, dc, p, k, e),
        forall|m: int|
            1 <= m <= extent_from(g, row, col, dr, dc, p, k, e) ==> #[trigger] g.in_bounds(
                offset(row, m, dr),
                offset(col, m, dc),
            ),
    decreases g.l + 1 - k,
{
    if k <= g.l && g.in_bounds(offset(row, k, dr), offset(col, k, dc)) {
        let v = g.cell(offset(row, k, dr), offset(col, k, dc));
        if v == 0 {
            lemma_extent_in_bounds(g, row, col, dr, dc, p, k + 1, e);
        } else if v == p {
            lemma_extent_in_bounds(g, row, col, dr, dc, p, k + 1, k - 1);
        }
    }
}

impl ThreatMap {
    /// Brings the map up to date after a disc was placed at `(row, col)` of
    /// `grid`: raises the placing player's counters along the row and both
    /// diagonals through the cell, and clears the opponent's counters on the
    /// cells its discs now enclose.
    pub fn update_with(&mut self, row: usize, col: usize, grid: &Grid)
        requires
            old(self)@.wf(),
            grid@.wf(),
            grid@.plain(),
            old(self)@.w == grid@.w,
            old(self)@.h == grid@.h,
            grid@.in_bounds(row as int, col as int),
            grid@.cell(row as int, col as int) != 0,
            old(self)@.bounded(6 * grid@.turn),
        ensures
            final(self)@ == updated(old(self)@, grid@, row as int, col as int),
            final(self)@.wf(),
            final(self)@.w == old(self)@.w && final(self)@.h == old(self)@.h,
            final(self)@.bounded(6 * grid@.turn + 6),
    {
        let ghost t0 = self@;
        let ghost gm = grid@;
        let ghost b = 6 * gm.turn;
        proof {
            assert(gm.turn <= 255) by {
                crate::grid::lemma_count_nonzero_bound(gm.cells);
            }
        }
        let p = grid.read(row, col);
        let o = 3 - p;

        // Horizontal: -
        let f = field_of(Shape::Horizontal, p);
        let fo = field_of(Shape::Horizontal, o);
        self.nullify(row, col, f);
        let right = self.raise_ray(grid, row, col, 0, 1, f, p, Ghost(b));
        let left = self.raise_ray(grid, row, col, 0, -1, f, p, Ghost(b + 1));
        self.nullify(row, col, fo);
        proof {
            lemma_extent_in_bounds(gm, row as int, col as int, 0, 1, p, 1, 0);
            lemma_extent_in_bounds(gm, row as int, col as int, 0, -1, p, 1, 0);
        }
        self.clear_ray(grid, row, col, 0, 1, fo, right, Ghost(b + 2));
        self.clear_ray(grid, row, col, 0, -1, fo, left, Ghost(b + 2));

        // Diagonal: /
        let f = field_of(Shape::Slash, p);
        let fo = field_of(Shape::Slash, o);
        self.nullify(row, col, field_of(Shape::Slash, 1));
        self.nullify(row, col, field_of(Shape::Slash, 2));
        proof {
            lemma_extent_in_bounds(gm, row as int, col as int, 1, 1, p, 1, 0);
            lemma_extent_in_bounds(gm, row as int, col as int, -1, -1, p, 1, 0);
        }
        let up_right = self.raise_ray(grid, row, col, 1, 1, f, p, Ghost(b + 2));
        self.clear_ray(grid, row, col, 1, 1, fo, up_right, Ghost(b + 3));
        let down_left = self.raise_ray(grid, row, col, -1, -1, f, p, Ghost(b + 3));
        self.clear_ray(grid, row, col, -1, -1, fo, down_left, Ghost(b + 4));

        // Diagonal: \
        let f = field_of(Shape::Backslash, p);
        let fo = field_of(Shape::Backslash, o);
        self.nullify(row, col, field_of(Shape::Backslash, 1));
        self.nullify(row, col, field_of(Shape::Backslash, 2));
        proof {
            lemma_extent_in_bounds(gm, row as int, col as int, 1, -1, p, 1, 0);
            lemma_extent_in_bounds(gm, row as int, col as int, -1, 1, p, 1, 0);
        }
        let up_left = self.raise_ray(grid, row, col, 1, -1, f, p, Ghost(b + 4));
        self.clear_ray(grid, row, col, 1, -1, fo, up_left, Ghost(b + 5));
        let down_right = self.raise_ray(grid, row, col, -1, 1, f, p, Ghost(b + 5));
        self.clear_ray(grid, row, col, -1, 1, fo, down_right, Ghost(b + 6));
    }
}

/// Raising along a walk keeps the counters of occupied cells, and the shape
/// of the map.
proof fn lemma_raised_keeps(
    t: ThreatModel,
    g: GridModel,
    row: int,
    col: int,
    dr: int,
    dc: int,
    f2: int,
    p: u8,
    f: int,
    i: int,
    j: int,
)
    requires
        t.wf(),
        g.wf(),
        t.w == g.w,
        t.h == g.h,
        0 <= f < 6,
        0 <= f2 < 6,
        g.in_bounds(i, j),
        g.cell(i, j) != 0,
    ensures
        raised(t, g, row, col, dr, dc, f2, p).val(f, i, j) == t.val(f, i, j),
        raised(t, g, row, col, dr, dc, f2, p).wf(),
        raised(t, g, row, col, dr, dc, f2, p).w == t.w,
        raised(t, g, row, col, dr, dc, f2, p).h == t.h,
{
    reveal(raised_upto);
    let x = t.idx(f, i, j);
    lemma_idx(t, f, i, j);
    if exists|k: int|
        1 <= k < g.l + 1 && grows(g, row, col, dr, dc, p, k) && x == #[trigger] t.idx(
            f2,
            offset(row, k, dr),
            offset(col, k, dc),
        ) {
        let k = choose|k: int|
            1 <= k < g.l + 1 && grows(g, row, col, dr, dc, p, k) && x == #[trigger] t.idx(
                f2,
                offset(row, k, dr),
                offset(col, k, dc),
            );
        lemma_idx_distinct(t, f, i, j, f2, offset(row, k, dr), offset(col, k, dc));
    }
}

/// Clearing keeps a counter at 0, and the shape of the map.
proof fn lemma_cleared_keeps(
    t: ThreatModel,
    row: int,
    col: int,
    dr: int,
    dc: int,
    f2: int,
    upto: int,
    f: int,
    i: int,
    j: int,
)
    requires
        t.wf(),
        0 <= f < 6,
        0 <= i < t.h,
        0 <= j < t.w,
    ensures
        t.val(f, i, j) == 0 ==> cleared(t, row, col, dr, dc, f2, upto).val(f, i, j) == 0,
        cleared(t, row, col, dr, dc, f2, upto).wf(),
        cleared(t, row, col, dr, dc, f2, upto).w == t.w,
        cleared(t, row, col, dr, dc, f2, upto).h == t.h,
{
    reveal(cleared);
    lemma_idx(t, f, i, j);
}

/// Setting a counter to 0 keeps another at 0, and the shape of the map.
proof fn lemma_zeroed_keeps(t: ThreatModel, f2: int, a: int, b: int, f: int, i: int, j: int)
    requires
        t.wf(),
        0 <= f < 6,
        0 <= f2 < 6,
        0 <= i < t.h,
        0 <= j < t.w,
        0 <= a < t.h,
        0 <= b < t.w,
    ensures
        t.val(f, i, j) == 0 || (f2 == f && a == i && b == j) ==> t.zeroed(f2, a, b).val(f, i, j)
            == 0,
        t.zeroed(f2, a, b).wf(),
        t.zeroed(f2, a, b).w == t.w,
        t.zeroed(f2, a, b).h == t.h,
{
    lemma_idx(t, f, i, j);
    lemma_idx(t, f2, a, b);
}

/// One diagonal arm keeps the counters of occupied cells at 0.
proof fn lemma_arm_keeps(
    t: ThreatModel,
    g: GridModel,
    row: int,
    col: int,
    dr: int,
    dc: int,
    s: Shape,
    p: u8,
    f: int,
    i: int,
    j: int,
)
    requires
        t.wf(),
        g.wf(),
        t.w == g.w,
        t.h == g.h,
        p == 1 || p == 2,
        0 <= f < 6,
        g.in_bounds(i, j),
        g.cell(i, j) != 0,
    ensures
        t.val(f, i, j) == 0 ==> arm(t, g, row, col, dr, dc, s, p).val(f, i, j) == 0,
        arm(t, g, row, col, dr, dc, s, p).wf(),
        arm(t, g, row, col, dr, dc, s, p).w == t.w,
        arm(t, g, row, col, dr, dc, s, p).h == t.h,
{
    let r = raised(t, g, row, col, dr, dc, field(s, p), p);
    lemma_raised_keeps(t, g, row, col, dr, dc, field(s, p), p, f, i, j);
    lemma_cleared_keeps(
        r,
        row,
        col,
        dr,
        dc,
        field(s, (3 - p) as u8),
        extent(g, row, col, dr, dc, p) + 1,
        f,
        i,
        j,
    );
}

/// An update keeps at 0 the counters of occupied cells that read 0, and
/// sets every counter of the cell just played to 0.
proof fn lemma_updated_keeps(t: ThreatModel, g: GridModel, row: int, col: int, f: int, i: int, j: int)
    requires
        t.wf(),
        g.wf(),
        t.w == g.w,
        t.h == g.h,
        g.in_bounds(row, col),
        g.cell(row, col) == 1 || g.cell(row, col) == 2,
        0 <= f < 6,
        g.in_bounds(i, j),
        g.cell(i, j) != 0,
    ensures
        t.val(f, i, j) == 0 || (i == row && j == col) ==> updated(t, g, row, col).val(f, i, j) == 0,
        updated(t, g, row, col).wf(),
        updated(t, g, row, col).w == t.w,
        updated(t, g, row, col).h == t.h,
{
    let p = g.cell(row, col);
    let o = (3 - p) as u8;
    let fh = field(Shape::Horizontal, p);
    let fo = field(Shape::Horizontal, o);
    let h1 = t.zeroed(fh, row, col);
    lemma_zeroed_keeps(t, fh, row, col, f, i, j);
    let h2 = raised(h1, g, row, col, 0, 1, fh, p);
    lemma_raised_keeps(h1, g, row, col, 0, 1, fh, p, f, i, j);
    let h3 = raised(h2, g, row, col, 0, -1, fh, p);
    lemma_raised_keeps(h2, g, row, col, 0, -1, fh, p, f, i, j);
    let h4 = h3.zeroed(fo, row, col);
    lemma_zeroed_keeps(h3, fo, row, col, f, i, j);
    let h5 = cleared(h4, row, col, 0, 1, fo, extent(g, row, col, 0, 1, p) + 1);
    lemma_cleared_keeps(h4, row, col, 0, 1, fo, extent(g, row, col, 0, 1, p) + 1, f, i, j);
    let h6 = cleared(h5, row, col, 0, -1, fo, extent(g, row, col, 0, -1, p) + 1);
    lemma_cleared_keeps(h5, row, col, 0, -1, fo, extent(g, row, col, 0, -1, p) + 1, f, i, j);
    let z1 = h6.zeroed(field(Shape::Slash, 1), row, col);
    lemma_zeroed_keeps(h6, field(Shape::Slash, 1), row, col, f, i, j);
    let s1 = z1.zeroed(field(Shape::Slash, 2), row, col);
    lemma_zeroed_keeps(z1, field(Shape::Slash, 2), row, col, f, i, j);
    let s2 = arm(s1, g, row, col, 1, 1, Shape::Slash, p);
    lemma_arm_keeps(s1, g, row, col, 1, 1, Shape::Slash, p, f, i, j);
    let s3 = arm(s2, g, row, col, -1, -1, Shape::Slash, p);
    lemma_arm_keeps(s2, g, row, col, -1, -1, Shape::Slash, p, f, i, j);
    let y1 = s3.zeroed(field(Shape::Backslash, 1), row, col);
    lemma_zeroed_keeps(s3, field(Shape::Backslash, 1), row, col, f, i, j);
    let b1 = y1.zeroed(field(Shape::Backslash, 2), row, col);
    lemma_zeroed_keeps(y1, field(Shape::Backslash, 2), row, col, f, i, j);
    let b2 = arm(b1, g, row, col, 1, -1, Shape::Backslash, p);
    lemma_arm_keeps(b1, g, row, col, 1, -1, Shape::Backslash, p, f, i, j);
    lemma_arm_keeps(b2, g, row, col, -1, 1, Shape::Backslash, p, f, i, j);
    assert(updated(t, g, row, col) == arm(b2, g, row, col, -1, 1, Shape::Backslash, p));
}

/// On a board played from the empty start, with its threat map kept up to
/// date move by move, every occupied cell reads 0 in all six fields.
pub proof fn law_occupied_cells_read_zero(l: int, w: int, h: int, moves: Seq<usize>)
    requires
        1 <= l,
        1 <= w,
        1 <= h,
        w * h <= 255,
        forall|k: int| 0 <= k < moves.len() ==> moves[k] < w,
    ensures
        ({
            let (g, t) = replay(l, w, h, moves);
            &&& g.wf()
            &&& t.wf()
            &&& t.w == g.w && t.h == g.h && g.w == w && g.h == h
            &&& forall|f: int, i: int, j: int|
                0 <= f < 6 && g.in_bounds(i, j) && #[trigger] g.cell(i, j) != 0 ==> #[trigger] t.val(
                    f,
                    i,
                    j,
                ) == 0
        }),
    decreases moves.len(),
{
    if moves.len() == 0 {
        lemma_empty_board_wf(l, w, h);
        let g = empty_board(l, w, h);
        lemma_initial_val(g, 0, 0, 0);
        assert forall|i: int, j: int| g.in_bounds(i, j) implies #[trigger] g.cell(i, j) == 0 by {
            crate::grid::lemma_cell_index(g, i, j);
        }
    } else {
        let prev = moves.drop_last();
        law_occupied_cells_read_zero(l, w, h, prev);
        let (g, t) = replay(l, w, h, prev);
        let c = moves.last() as int;
        if g.column_open(c) {
            let after = g.after_play(c);
            let r = g.landing_row(c);
            crate::grid::lemma_after_play_wf(g, c);
            crate::grid::lemma_after_play_plain_cell(g, c);
            crate::grid::lemma_landing(g, c);
            crate::grid::lemma_cell_index(g, r, c);
            assert forall|f: int, i: int, j: int|
                0 <= f < 6 && after.in_bounds(i, j) && #[trigger] after.cell(i, j) != 0 implies #[trigger] updated(
                t,
                after,
                r,
                c,
            ).val(f, i, j) == 0 by {
                crate::grid::lemma_cell_index(g, i, j);
                crate::grid::lemma_cell_distinct(g, i, j, r, c);
                if !(i == r && j == c) {
                    assert(g.cell(i, j) == after.cell(i, j));
                    assert(t.val(f, i, j) == 0);
                }
                lemma_updated_keeps(t, after, r, c, f, i, j);
            }
            lemma_updated_keeps(t, after, r, c, 0, r, c);
        }
    }
}

pub proof fn lemma_empty_board_wf(l: int, w: int, h: int)
    requires
        1 <= l,
        1 <= w,
        1 <= h,
        w * h <= 255,
    ensures
        empty_board(l, w, h).wf(),
{
    let g = empty_board(l, w, h);
    assert(0 <= w * h) by (nonlinear_arith)
        requires
            1 <= w,
            1 <= h,
    ;
    crate::grid::lemma_count_nonzero_zeros((w * h) as nat);
    assert forall|i: int, j: int|
        0 < i < g.h && 0 <= j < g.w && #[trigger] g.cell(i, j) != 0 implies g.cell(i - 1, j) != 0 by {
        assert(0 <= i * w + j < w * h) by (nonlinear_arith)
            requires
                0 < i < h,
                0 <= j < w,
        ;
    }
}


/// Plays `moves` in turn on an empty board of win length `l`, width `w` and
/// height `h`, bringing a fresh threat map up to date after each move that
/// lands; a move into a full column is skipped. Returns the board and map.
pub fn replay_history(l: usize, w: usize, h: usize, moves: &Vec<usize>) -> (r: (Grid, ThreatMap))
    requires
        1 <= l,
        1 <= w,
        1 <= h,
        w * h <= 255,
        forall|k: int| 0 <= k < moves.len() ==> moves[k] < w,
    ensures
        r.0@ == replay(l as int, w as int, h as int, moves@).0,
        r.1@ == replay(l as int, w as int, h as int, moves@).1,
{
    let mut grid = Grid::new(l, w, h);
    let mut map = ThreatMap::new(&grid);
    let mut k: usize = 0;
    proof {
        assert(moves@.take(0) =~= Seq::<usize>::empty());
    }
    while k < moves.len()
        invariant
            1 <= l,
            1 <= w,
            1 <= h,
            w * h <= 255,
            forall|k: int| 0 <= k < moves.len() ==> moves[k] < w,
            k <= moves.len(),
            grid@.wf(),
            grid@.plain(),
            grid@.w == w,
            grid@.h == h,
            grid@.l == l,
            map@.wf(),
            map@.w == grid@.w,
            map@.h == grid@.h,
            map@.bounded(6 * grid@.turn + 6),
            (grid@, map@) == replay(l as int, w as int, h as int, moves@.take(k as int)),
        decreases moves.len() - k,
    {
        let c = moves[k];
        let ghost g0 = grid@;
        proof {
            assert(moves@.take(k + 1).drop_last() =~= moves@.take(k as int));
            assert(moves@.take(k + 1).last() == c);
            if g0.column_open(c as int) {
                crate::grid::lemma_after_play_plain(g0, c as int);
                crate::grid::lemma_after_play_wf(g0, c as int);
            }
        }
        let row = grid.play(c);
        if row < h {
            map.update_with(row, c, &grid);
        }
        k = k + 1;
    }
    proof {
        assert(moves@.take(moves.len() as int) =~= moves@);
    }
    (grid, map)
}

/// Clearing keeps every counter within a bound.
proof fn lemma_cleared_bounded(t: ThreatModel, row: int, col: int, dr: int, dc: int, f: int, upto: int, b: int)
    requires
        t.bounded(b),
        b >= 0,
    ensures
        cleared(t, row, col, dr, dc, f, upto).bounded(b),
        cleared(t, row, col, dr, dc, f, upto).w == t.w,
        cleared(t, row, col, dr, dc, f, upto).h == t.h,
        cleared(t, row, col, dr, dc, f, upto).vals.len() == t.vals.len(),
{
    reveal(cleared);
}

/// Past a wall or an opponent's disc at step `k` nothing grows any more.
proof fn lemma_raised_done(t: ThreatModel, g: GridModel, row: int, col: int, dr: int, dc: int, f: int, p: u8, k: int)
    requires
        1 <= k <= g.l,
        p == 1 || p == 2,
        g.in_bounds(row, col),
        -1 <= dr <= 1,
        -1 <= dc <= 1,
        !g.in_bounds(offset(row, k, dr), offset(col, k, dc)) || g.cell(offset(row, k, dr), offset(col, k, dc)) == 3 - p,
    ensures
        raised_upto(t, g, row, col, dr, dc, f, p, k) == raised(t, g, row, col, dr, dc, f, p),
        !g.in_bounds(offset(row, k, dr), offset(col, k, dc)) ==> extent_from(g, row, col, dr, dc, p, k, k - 1) == k - 1,
{
    reveal(raised_upto);
    assert forall|m: int| k <= m <= g.l implies !grows(g, row, col, dr, dc, p, m) by {
        if grows(g, row, col, dr, dc, p, m) && m > k {
            if !g.in_bounds(offset(row, k, dr), offset(col, k, dc)) {
                assert(offset(row, 0, dr) == row && offset(col, 0, dc) == col);
                crate::grid::lemma_ray_convex(g, row, col, dr, dc, 0, k, m);
            } else {
                assert(g.cell(offset(row, k, dr), offset(col, k, dc)) != 3 - p);
            }
        }
    }
    assert(raised_upto(t, g, row, col, dr, dc, f, p, k).vals =~= raised(t, g, row, col, dr, dc, f, p).vals);
}

/// Raising one more step of the walk where the counter grows.
proof fn lemma_raised_step(t: ThreatModel, g: GridModel, row: int, col: int, dr: int, dc: int, f: int, p: u8, k: int)
    requires
        t.wf(),
        g.wf(),
        t.w == g.w,
        t.h == g.h,
        0 <= f < 6,
        1 <= k,
        g.in_bounds(row, col),
        -1 <= dr <= 1,
        -1 <= dc <= 1,
        dr != 0 || dc != 0,
        g.in_bounds(offset(row, k, dr), offset(col, k, dc)),
        forall|m: int| 1 <= m < k ==> #[trigger] g.in_bounds(offset(row, m, dr), offset(col, m, dc)),
    ensures
        raised_upto(t, g, row, col, dr, dc, f, p, k).val(f, offset(row, k, dr), offset(col, k, dc))
            == t.val(f, offset(row, k, dr), offset(col, k, dc)),
        raised_upto(t, g, row, col, dr, dc, f, p, k).w == t.w,
        raised_upto(t, g, row, col, dr, dc, f, p, k).h == t.h,
        raised_upto(t, g, row, col, dr, dc, f, p, k).vals.len() == t.vals.len(),
        raised_upto(t, g, row, col, dr, dc, f, p, k + 1) == (if grows(g, row, col, dr, dc, p, k) {
            raised_upto(t, g, row, col, dr, dc, f, p, k).with_vals(
                raised_upto(t, g, row, col, dr, dc, f, p, k).vals.update(
                    t.idx(f, offset(row, k, dr), offset(col, k, dc)),
                    (t.val(f, offset(row, k, dr), offset(col, k, dc)) + 1) as u32,
                ),
            )
        } else {
            raised_upto(t, g, row, col, dr, dc, f, p, k)
        }),
{
    reveal(raised_upto);
    let a = offset(row, k, dr);
    let b = offset(col, k, dc);
    let x0 = t.idx(f, a, b);
    lemma_idx(t, f, a, b);
    assert forall|m: int| 1 <= m < k implies #[trigger] t.idx(f, offset(row, m, dr), offset(col, m, dc)) != x0 by {
        lemma_idx_distinct(t, f, offset(row, m, dr), offset(col, m, dc), f, a, b);
    }
    let lo = raised_upto(t, g, row, col, dr, dc, f, p, k);
    let hi = raised_upto(t, g, row, col, dr, dc, f, p, k + 1);
    let want = if grows(g, row, col, dr, dc, p, k) {
        lo.vals.update(x0, (t.vals[x0] + 1) as u32)
    } else {
        lo.vals
    };
    assert forall|x: int| 0 <= x < t.vals.len() implies hi.vals[x] == want[x] by {
        if x != x0 {
            if exists|m: int|
                1 <= m < k + 1 && grows(g, row, col, dr, dc, p, m) && x == #[trigger] t.idx(
                    f,
                    offset(row, m, dr),
                    offset(col, m, dc),
                ) {
                let m = choose|m: int|
                    1 <= m < k + 1 && grows(g, row, col, dr, dc, p, m) && x == #[trigger] t.idx(
                        f,
                        offset(row, m, dr),
                        offset(col, m, dc),
                    );
                assert(m != k);
            }
        }
    }
    assert(hi.vals =~= want);
}

/// Raising along a walk adds at most one to each counter.
proof fn lemma_raised_bounded(t: ThreatModel, g: GridModel, row: int, col: int, dr: int, dc: int, f: int, p: u8, b: int)
    requires
        t.bounded(b),
    ensures
        raised(t, g, row, col, dr, dc, f, p).bounded(b + 1),
{
    reveal(raised_upto);
}

/// Counter indices of distinct (field, cell) pairs differ and stay in range.
pub proof fn lemma_idx(t: ThreatModel, f: int, i: int, j: int)
    requires
        t.wf(),
        0 <= f < 6,
        0 <= i < t.h,
        0 <= j < t.w,
    ensures
        f * t.n() <= t.idx(f, i, j) < (f + 1) * t.n(),
        0 <= t.idx(f, i, j) < t.vals.len(),
{
    assert(0 <= i * t.w + j < t.w * t.h) by (nonlinear_arith)
        requires
            0 <= i < t.h,
            0 <= j < t.w,
    ;
    assert(0 <= f * t.n() && (f + 1) * t.n() <= 6 * t.n()) by (nonlinear_arith)
        requires
            0 <= f < 6,
            t.n() >= 0,
    ;
    assert((f + 1) * t.n() == f * t.n() + t.n()) by (nonlinear_arith);
}

pub proof fn lemma_idx_distinct(t: ThreatModel, f1: int, i1: int, j1: int, f2: int, i2: int, j2: int)
    requires
        t.wf(),
        0 <= f1 < 6,
        0 <= i1 < t.h,
        0 <= j1 < t.w,
        0 <= f2 < 6,
        0 <= i2 < t.h,
        0 <= j2 < t.w,
    ensures
        t.idx(f1, i1, j1) == t.idx(f2, i2, j2) <==> (f1 == f2 && i1 == i2 && j1 == j2),
{
    lemma_idx(t, f1, i1, j1);
    lemma_idx(t, f2, i2, j2);
    if t.idx(f1, i1, j1) == t.idx(f2, i2, j2) {
        if f1 < f2 {
            assert((f1 + 1) * t.n() <= f2 * t.n()) by (nonlinear_arith)
                requires
                    f1 + 1 <= f2,
                    t.n() >= 0,
            ;
        } else if f2 < f1 {
            assert((f2 + 1) * t.n() <= f1 * t.n()) by (nonlinear_arith)
                requires
                    f2 + 1 <= f1,
                    t.n() >= 0,
            ;
        }
        assert(i1 * t.w + j1 == i2 * t.w + j2);
        if i1 < i2 {
            assert(i1 * t.w + j1 < i2 * t.w + j2) by (nonlinear_arith)
                requires
                    i1 < i2,
                    0 <= j1 < t.w,
                    0 <= j2,
            ;
        } else if i2 < i1 {
            assert(i2 * t.w + j2 < i1 * t.w + j1) by (nonlinear_arith)
                requires
                    i2 < i1,
                    0 <= j2 < t.w,
                    0 <= j1,
            ;
        }
    }
}

} // verus!
