use vstd::prelude::*;
use crate::grid::{Grid, GridModel};
use crate::search::wins_at;

verus! {

/// Fixed-point relevance of a branch root: 1.0 is this number.
pub const RELEVANCE: u64 = 1099511627776;

/// What the children of `g` among its first `m` open columns add to the
/// score of a branch searched `lv` more plies at relevance `rel`. A child
/// that wins for the protagonist adds `rel / n` (with `n` the number of
/// open columns of `g`); one that wins for the opponent takes `rel` away; any
/// other child is searched on at relevance `rel / n` while plies remain.
pub open spec fn children_sum(g: GridModel, rel: int, lv: int, protagonist: u8, m: int) -> int
    decreases lv, m,
{
    if m <= 0 || m > g.open_columns().len() {
        0
    } else {
        let n = g.open_columns().len() as int;
        let c = g.open_columns()[m - 1] as int;
        let child = g.after_play(c);
        let w = child.fast_win(g.landing_row(c), c);
        children_sum(g, rel, lv, protagonist, m - 1) + if w == 0 {
            if lv > 1 {
                children_sum(child, rel / n, lv - 1, protagonist, child.open_columns().len() as int)
            } else {
                0
            }
        } else if w == protagonist {
            rel / n
        } else {
            -rel
        }
    }
}

/// The score a breadth-first search from `g` at relevance `rel` gathers over
/// `lv` plies.
pub open spec fn branch_value(g: GridModel, rel: int, lv: int, protagonist: u8) -> int {
    children_sum(g, rel, lv, protagonist, g.open_columns().len() as int)
}

/// Sum of the first `m` entries of `s`.
pub open spec fn sum_upto(s: Seq<int>, m: int) -> int
    decreases m,
{
    if m <= 0 || m > s.len() {
        0
    } else {
        sum_upto(s, m - 1) + s[m - 1]
    }
}

/// Sum of the entries of `s` from index `i` on.
pub open spec fn sum_from(s: Seq<int>, i: int) -> int
    decreases s.len() - i,
{
    if i < 0 || i >= s.len() {
        0
    } else {
        s[i] + sum_from(s, i + 1)
    }
}

proof fn lemma_sum_push(s: Seq<int>, x: int, i: int)
    requires
        0 <= i <= s.len(),
    ensures
        sum_from(s.push(x), i) == sum_from(s, i) + x,
    decreases s.len() - i,
{
    if i < s.len() {
        lemma_sum_push(s, x, i + 1);
        assert(s.push(x)[i] == s[i]);
    } else {
        assert(sum_from(s.push(x), i + 1) == 0);
        assert(s.push(x)[i] == x);
    }
}

/// Summing from the front and summing from the back agree.
proof fn lemma_sum_agree(s: Seq<int>)
    ensures
        sum_from(s, 0) == sum_upto(s, s.len() as int),
    decreases s.len(),
{
    if s.len() > 0 {
        let p = s.drop_last();
        lemma_sum_agree(p);
        lemma_sum_push(p, s.last(), 0);
        assert(p.push(s.last()) =~= s);
        assert forall|m: int| 0 <= m <= p.len() implies sum_upto(p, m) == sum_upto(s, m) by {
            lemma_sum_prefix(p, s, m);
        }
    }
}

proof fn lemma_sum_prefix(p: Seq<int>, s: Seq<int>, m: int)
    requires
        0 <= m <= p.len(),
        p.len() <= s.len(),
        forall|k: int| 0 <= k < p.len() ==> p[k] == s[k],
    ensures
        sum_upto(p, m) == sum_upto(s, m),
    decreases m,
{
    if m > 0 {
        lemma_sum_prefix(p, s, m - 1);
    }
}

/// A branch score is at most `255 * rel * lv` in size; a partial sum over
/// the first `m` children is within `m * rel + m * (rel / n) * 255 * (lv - 1)`.
proof fn lemma_children_bound(g: GridModel, rel: int, lv: int, protagonist: u8, m: int)
    requires
        g.wf(),
        0 <= rel,
        1 <= lv,
        0 <= m <= g.open_columns().len(),
    ensures
        ({
            let n = g.open_columns().len() as int;
            let b = m * rel + m * (if n > 0 { rel / n } else { 0 }) * 255 * (lv - 1);
            -b <= children_sum(g, rel, lv, protagonist, m) <= b
        }),
        m == g.open_columns().len() ==> -(255 * rel * lv) <= branch_value(g, rel, lv, protagonist)
            <= 255 * rel * lv,
        -(255 * rel * lv) <= children_sum(g, rel, lv, protagonist, m) <= 255 * rel * lv,
        m == g.open_columns().len() ==> -(255 * rel * lv) <= children_sum(g, rel, lv, protagonist, m)
            <= 255 * rel * lv,
    decreases lv, m,
{
    let n = g.open_columns().len() as int;
    crate::grid::lemma_open_columns(g);
    if m > 0 {
        lemma_children_bound(g, rel, lv, protagonist, m - 1);
        let q = rel / n;
        let c = g.open_columns()[m - 1] as int;
        crate::grid::lemma_after_play_wf(g, c);
        let child = g.after_play(c);
        let w = child.fast_win(g.landing_row(c), c);
        let share = children_sum(g, rel, lv, protagonist, m) - children_sum(g, rel, lv, protagonist, m - 1);
        vstd::arithmetic::div_mod::lemma_div_pos_is_pos(rel, n);
        vstd::arithmetic::div_mod::lemma_div_nonincreasing(rel, n);
        assert(0 <= q * 255 * (lv - 1)) by (nonlinear_arith)
            requires
                0 <= q,
                1 <= lv,
        ;
        if w == 0 && lv > 1 {
            lemma_children_bound(child, q, lv - 1, protagonist, child.open_columns().len() as int);
            assert(255 * q * (lv - 1) == q * 255 * (lv - 1)) by (nonlinear_arith);
        }
        assert(-(rel + q * 255 * (lv - 1)) <= share <= rel + q * 255 * (lv - 1));
        assert(m * rel + m * q * 255 * (lv - 1) == (m - 1) * rel + (m - 1) * q * 255 * (lv - 1) + (rel + q
            * 255 * (lv - 1))) by (nonlinear_arith);
    }
    if n > 0 {
        let q = rel / n;
        assert(n <= 255) by {
            assert(g.w <= 255) by (nonlinear_arith)
                requires
                    1 <= g.h,
                    g.w * g.h <= 255,
                    1 <= g.w,
            ;
        }
        vstd::arithmetic::div_mod::lemma_fundamental_div_mod(rel, n);
        vstd::arithmetic::div_mod::lemma_mod_pos_bound(rel, n);
        vstd::arithmetic::div_mod::lemma_div_pos_is_pos(rel, n);
        assert(m * rel + m * q * 255 * (lv - 1) <= 255 * rel * lv) by (nonlinear_arith)
            requires
                m <= n,
                n <= 255,
                n * q <= rel,
                0 <= rel,
                1 <= lv,
                0 <= q,
        ;
    }
    if m == n {
        if n > 0 {
            let q = rel / n;
            assert(n <= 255) by {
                assert(g.w <= 255) by (nonlinear_arith)
                    requires
                        1 <= g.h,
                        g.w * g.h <= 255,
                        1 <= g.w,
                ;
            }
            vstd::arithmetic::div_mod::lemma_fundamental_div_mod(rel, n);
            vstd::arithmetic::div_mod::lemma_mod_pos_bound(rel, n);
            assert(n * q <= rel);
            assert(n * rel + n * q * 255 * (lv - 1) <= 255 * rel * lv) by (nonlinear_arith)
                requires
                    n <= 255,
                    n * q <= rel,
                    0 <= rel,
                    1 <= lv,
                    0 <= q,
            ;
        }
    }
}

/// Relevances of a queue of `(relevance, board)` pairs.
pub open spec fn rels(q: Seq<(u64, Grid)>) -> Seq<int> {
    Seq::new(q.len(), |k: int| q[k].0 as int)
}

/// Branch values of a queue of `(relevance, board)` pairs searched `lv` more plies.
pub open spec fn values(q: Seq<(u64, Grid)>, lv: int, protagonist: u8) -> Seq<int> {
    Seq::new(q.len(), |k: int| branch_value(q[k].1@, q[k].0 as int, lv, protagonist))
}

/// Every board in the queue is well formed.
pub open spec fn all_wf(q: Seq<(u64, Grid)>) -> bool {
    forall|k: int| 0 <= k < q.len() ==> (#[trigger] q[k]).1@.wf()
}

proof fn lemma_values_bound_from(q: Seq<(u64, Grid)>, lv: int, protagonist: u8, i: int)
    requires
        all_wf(q),
        1 <= lv,
        0 <= i,
    ensures
        0 <= sum_from(rels(q), i),
        -(255 * lv * sum_from(rels(q), i)) <= sum_from(values(q, lv, protagonist), i) <= 255 * lv
            * sum_from(rels(q), i),
    decreases q.len() - i,
{
    if i < q.len() {
        lemma_values_bound_from(q, lv, protagonist, i + 1);
        lemma_children_bound(q[i].1@, q[i].0 as int, lv, protagonist, q[i].1@.open_columns().len() as int);
        let a = sum_from(rels(q), i + 1);
        let r = q[i].0 as int;
        assert(255 * lv * (r + a) == 255 * r * lv + 255 * lv * a) by (nonlinear_arith);
        assert(0 <= 255 * lv * a) by (nonlinear_arith)
            requires
                0 <= a,
                1 <= lv,
        ;
    }
}

proof fn lemma_values_bound_upto(q: Seq<(u64, Grid)>, lv: int, protagonist: u8, m: int)
    requires
        all_wf(q),
        1 <= lv,
        0 <= m <= q.len(),
    ensures
        0 <= sum_upto(rels(q), m),
        -(255 * lv * sum_upto(rels(q), m)) <= sum_upto(values(q, lv, protagonist), m) <= 255 * lv
            * sum_upto(rels(q), m),
    decreases m,
{
    if m > 0 {
        lemma_values_bound_upto(q, lv, protagonist, m - 1);
        let i = m - 1;
        lemma_children_bound(q[i].1@, q[i].0 as int, lv, protagonist, q[i].1@.open_columns().len() as int);
        let a = sum_upto(rels(q), m - 1);
        let r = q[i].0 as int;
        assert(255 * lv * (a + r) == 255 * r * lv + 255 * lv * a) by (nonlinear_arith);
        assert(0 <= 255 * lv * a) by (nonlinear_arith)
            requires
                0 <= a,
                1 <= lv,
        ;
    }
}

proof fn lemma_rels_nonneg(q: Seq<(u64, Grid)>, m: int)
    requires
        0 <= m <= q.len(),
    ensures
        0 <= sum_upto(rels(q), m),
    decreases m,
{
    if m > 0 {
        lemma_rels_nonneg(q, m - 1);
    }
}

/// Breadth-first exploration of the moves that follow one first move.
pub struct Branch {
    root: Grid,
    queue_capacity: usize,
    score: i64,
}

impl Branch {
    pub closed spec fn root_model(&self) -> GridModel {
        self.root@
    }

    pub closed spec fn score_value(&self) -> int {
        self.score as int
    }

    /// A branch rooted at `root_grid`, with no score yet. `queue_capacity`
    /// is how many boards each level of the queue is given room for at once.
    pub fn new(root_grid: Grid, queue_capacity: usize) -> (b: Branch)
        ensures
            b.root_model() == root_grid@,
            b.score_value() == 0,
    {
        Branch { root: root_grid, queue_capacity, score: 0 }
    }

    pub fn score(&self) -> (r: i64)
        ensures
            r == self.score_value(),
    {
        self.score
    }

    /// Adds to the branch score what a search of every sequence of moves up to
    /// `depth` plies from its root, level by level, gathers. A win for `protagonist` adds the
    /// relevance of the parent divided by its number of moves; a win for the
    /// opponent takes the parent's whole relevance away, so one loss weighs
    /// as much as a full branching factor of wins. Other boards are queued
    /// at the divided relevance until the last ply, which is only checked
    /// for wins.
    pub fn bfs(&mut self, protagonist: u8, depth: u8)
        requires
            old(self).root_model().wf(),
            -4611686018427387904 <= old(self).score_value() <= 4611686018427387904,
            1 <= depth,
            protagonist == 1 || protagonist == 2,
        ensures
            final(self).root_model() == old(self).root_model(),
            final(self).score_value() == old(self).score_value() + branch_value(
                old(self).root_model(),
                RELEVANCE as int,
                depth as int,
                protagonist,
            ),
    {
        let ghost root = self.root@;
        let ghost total = branch_value(root, RELEVANCE as int, depth as int, protagonist);
        let ghost s0 = self.score as int;
        let ghost big = 255 * (RELEVANCE as int) * (depth as int);
        let mut current: Vec<(u64, Grid)> = Vec::new();
        current.push((RELEVANCE, self.root.clone()));
        let mut level: u8 = 0;
        proof {
            lemma_children_bound(root, RELEVANCE as int, depth as int, protagonist, root.open_columns().len() as int);
            assert(sum_from(values(current@, depth as int, protagonist), 1) == 0);
            assert(sum_from(rels(current@), 1) == 0);
            assert(big <= 255 * 1099511627776 * 255) by (nonlinear_arith)
                requires
                    big == 255 * 1099511627776 * (depth as int),
                    depth <= 255,
            ;
        }
        while current.len() > 0
            invariant
                self.root@ == root,
                root.wf(),
                1 <= depth,
                protagonist == 1 || protagonist == 2,
                total == branch_value(root, RELEVANCE as int, depth as int, protagonist),
                -4611686018427387904 <= s0 <= 4611686018427387904,
                big == 255 * (RELEVANCE as int) * (depth as int),
                big <= 255 * 1099511627776 * 255,
                -big <= total <= big,
                current.len() > 0 ==> level < depth,
                all_wf(current@),
                self.score - s0 + sum_from(values(current@, depth - level, protagonist), 0) == total,
                sum_from(rels(current@), 0) <= RELEVANCE,
            decreases depth - level,
        {
            let lv: u8 = depth - level;
            let mut next: Vec<(u64, Grid)> = Vec::with_capacity(self.queue_capacity);
            let mut idx: usize = 0;
            while idx < current.len()
                invariant
                    self.root@ == root,
                    1 <= lv,
                    lv == depth - level,
                    level < depth,
                    protagonist == 1 || protagonist == 2,
                    total == branch_value(root, RELEVANCE as int, depth as int, protagonist),
                    -4611686018427387904 <= s0 <= 4611686018427387904,
                -4611686018427387904 <= s0 <= 4611686018427387904,
                    big == 255 * (RELEVANCE as int) * (depth as int),
                    big <= 255 * 1099511627776 * 255,
                    -big <= total <= big,
                    all_wf(current@),
                    all_wf(next@),
                    next.len() > 0 ==> lv > 1,
                    idx <= current.len(),
                    self.score - s0 + sum_from(values(current@, lv as int, protagonist), idx as int)
                        + sum_upto(values(next@, lv - 1, protagonist), next.len() as int) == total,
                    sum_from(rels(current@), idx as int) + sum_upto(rels(next@), next.len() as int)
                        <= RELEVANCE,
                decreases current.len() - idx,
            {
                let rel = current[idx].0;
                let n = current[idx].1.n_legal();
                let children = current[idx].1.next_grids();
                let ghost g = current@[idx as int].1@;
                let ghost rest = sum_from(values(current@, lv as int, protagonist), idx + 1);
                let ghost rest_rel = sum_from(rels(current@), idx + 1);
                proof {
                    crate::grid::lemma_open_columns(g);
                    lemma_values_bound_from(current@, lv as int, protagonist, idx + 1);
                    lemma_rels_nonneg(next@, next.len() as int);
                    assert(sum_from(rels(current@), idx as int) == rel + rest_rel);
                    if n > 0 {
                        vstd::arithmetic::div_mod::lemma_div_pos_is_pos(rel as int, n as int);
                        vstd::arithmetic::div_mod::lemma_fundamental_div_mod(rel as int, n as int);
                        vstd::arithmetic::div_mod::lemma_mod_pos_bound(rel as int, n as int);
                    }
                }
                let mut m: usize = 0;
                while m < children.len()
                    invariant
                        self.root@ == root,
                        1 <= lv,
                        lv == depth - level,
                        level < depth,
                        protagonist == 1 || protagonist == 2,
                        total == branch_value(root, RELEVANCE as int, depth as int, protagonist),
                        -4611686018427387904 <= s0 <= 4611686018427387904,
                    -4611686018427387904 <= s0 <= 4611686018427387904,
                -4611686018427387904 <= s0 <= 4611686018427387904,
                        big == 255 * (RELEVANCE as int) * (depth as int),
                        big <= 255 * 1099511627776 * 255,
                        -big <= total <= big,
                        g.wf(),
                        n == g.open_columns().len(),
                        children.len() == n,
                        forall|k: int|
                            0 <= k < children.len() ==> {
                                let c = g.open_columns()[k] as int;
                                &&& (#[trigger] children[k]).1 == c
                                &&& children[k].0 == g.landing_row(c)
                                &&& children[k].0 < g.h
                                &&& children[k].2@ == g.after_play(c)
                                &&& children[k].2@.wf()
                            },
                        forall|k: int| 0 <= k < g.open_columns().len() ==> {
                            let c = #[trigger] g.open_columns()[k] as int;
                            0 <= c < g.w && g.column_open(c)
                        },
                        n > 0 ==> (n as int) * (rel as int / n as int) <= rel as int,
                        rel + rest_rel <= RELEVANCE,
                        0 <= rest_rel,
                        -(255 * lv * rest_rel) <= rest <= 255 * lv * rest_rel,
                        all_wf(next@),
                        next.len() > 0 ==> lv > 1,
                        m <= children.len(),
                        self.score - s0 + (children_sum(g, rel as int, lv as int, protagonist, n as int)
                            - children_sum(g, rel as int, lv as int, protagonist, m as int)) + rest
                            + sum_upto(values(next@, lv - 1, protagonist), next.len() as int) == total,
                        rest_rel + sum_upto(rels(next@), next.len() as int) + (n - m) * (if n > 0 {
                            rel as int / n as int
                        } else {
                            0
                        }) <= RELEVANCE,
                    decreases children.len() - m,
                {
                    let row = children[m].0;
                    let col = children[m].1;
                    let winner = children[m].2.win_fast(row, col);
                    let ghost before_next = next@;
                    proof {
                        let c = g.open_columns()[m as int] as int;
                        assert(children[m as int].2@ == g.after_play(c));
                        assert(winner == g.after_play(c).fast_win(g.landing_row(c), c));
                        let (r, d) = (rel as int, lv as int);
                        assert(children_sum(g, r, d, protagonist, m + 1) == children_sum(
                            g,
                            r,
                            d,
                            protagonist,
                            m as int,
                        ) + if winner == 0 {
                            if lv > 1 {
                                branch_value(g.after_play(c), rel as int / n as int, lv - 1, protagonist)
                            } else {
                                0
                            }
                        } else if winner == protagonist {
                            rel as int / n as int
                        } else {
                            -(rel as int)
                        });
                    }
                    proof {
                        lemma_children_bound(g, rel as int, lv as int, protagonist, m as int);
                        lemma_children_bound(g, rel as int, lv as int, protagonist, m as int + 1);
                        lemma_children_bound(g, rel as int, lv as int, protagonist, n as int);
                        if lv > 1 {
                            lemma_values_bound_upto(next@, lv - 1, protagonist, next.len() as int);
                        }
                        lemma_rels_nonneg(next@, next.len() as int);
                        assert(255 * (rel as int) * (lv as int) <= big) by (nonlinear_arith)
                            requires
                                lv <= depth,
                                rel <= 1099511627776,
                                big == 255 * 1099511627776 * (depth as int),
                        ;
                        assert(255 * (lv as int) * rest_rel <= big) by (nonlinear_arith)
                            requires
                                lv <= depth,
                                0 <= rest_rel <= 1099511627776,
                                big == 255 * 1099511627776 * (depth as int),
                        ;
                        let sn = sum_upto(rels(next@), next.len() as int);
                        assert(255 * (lv - 1) * sn <= big) by (nonlinear_arith)
                            requires
                                1 <= lv <= depth,
                                0 <= sn <= 1099511627776,
                                big == 255 * 1099511627776 * (depth as int),
                        ;
                        if lv == 1 {
                            assert(next.len() == 0);
                            assert(sum_upto(values(next@, lv - 1, protagonist), next.len() as int) == 0);
                        }
                        assert(-5 * big <= self.score - s0 <= 5 * big);
                        if n > 0 {
                            let q = rel as int / n as int;
                            assert((n - m) * q == (n - m - 1) * q + q) by (nonlinear_arith);
                            vstd::arithmetic::div_mod::lemma_div_pos_is_pos(rel as int, n as int);
                        }
                    }
                    if winner == 0 {
                        if lv > 1 {
                            next.push((rel / (n as u64), children[m].2.clone()));
                            proof {
                                let vb = values(before_next, lv - 1, protagonist);
                                let vn = values(next@, lv - 1, protagonist);
                                assert(vn =~= vb.push(
                                    branch_value(children[m as int].2@, (rel / (n as u64)) as int, lv - 1, protagonist),
                                ));
                                lemma_sum_prefix(vb, vn, vb.len() as int);
                                let rb = rels(before_next);
                                let rn = rels(next@);
                                assert(rn =~= rb.push((rel / (n as u64)) as int));
                                lemma_sum_prefix(rb, rn, rb.len() as int);
                            }
                        }
                    } else if winner == protagonist {
                        self.score = self.score + (rel / n as u64) as i64;
                    } else {
                        self.score = self.score - rel as i64;
                    }
                    m = m + 1;
                }
                idx = idx + 1;
            }
            proof {
                lemma_sum_agree(values(next@, lv - 1, protagonist));
                lemma_sum_agree(rels(next@));
            }
            current = next;
            level = level + 1;
        }
    }
}

/// The value of the first move in column `c` of `g` for `protagonist`,
/// searched `depth` plies in all: a move that wins at once is worth a full
/// relevance, any other the score of its branch over the remaining plies.
pub open spec fn first_move_score(g: GridModel, c: int, protagonist: u8, depth: int) -> int {
    if wins_at(g, c, protagonist) {
        RELEVANCE as int
    } else {
        branch_value(g.after_play(c), RELEVANCE as int, depth - 1, protagonist)
    }
}

/// Value of one first move, whose disc of `protagonist` landed at
/// `(row, col)` of `branch_grid`: a full relevance if it wins at once, else
/// the score of a breadth-first search of `depth - 1` further plies.
pub fn first_move_value(branch_grid: Grid, row: usize, col: usize, protagonist: u8, depth: u8) -> (r: i64)
    requires
        branch_grid@.wf(),
        branch_grid@.in_bounds(row as int, col as int),
        branch_grid@.cell(row as int, col as int) == protagonist,
        protagonist == 1 || protagonist == 2,
        depth >= 2,
    ensures
        r == if branch_grid@.fast_win(row as int, col as int) == protagonist {
            RELEVANCE as int
        } else {
            branch_value(branch_grid@, RELEVANCE as int, depth - 1, protagonist)
        },
{
    let winner = branch_grid.win_fast(row, col);
    if winner == protagonist {
        RELEVANCE as i64
    } else {
        let capacity = branch_grid.n_legal();
        let mut branch = Branch::new(branch_grid, capacity);
        branch.bfs(protagonist, depth - 1);
        branch.score()
    }
}

/// The column of the largest value in `results`, the last one among equals.
pub fn pick_best(results: &Vec<(usize, i64)>) -> (r: usize)
    requires
        results.len() > 0,
    ensures
        exists|k: int|
            0 <= k < results.len() && r == (#[trigger] results[k]).0 && (forall|j: int|
                0 <= j < results.len() ==> #[trigger] results[j].1 <= results[k].1) && (forall|j: int|
                k < j < results.len() ==> #[trigger] results[j].1 < results[k].1),
{
    let mut best: usize = 0;
    let mut k: usize = 1;
    while k < results.len()
        invariant
            1 <= k <= results.len(),
            best < k,
            forall|j: int| 0 <= j < k ==> #[trigger] results[j].1 <= results[best as int].1,
            forall|j: int| best < j < k ==> #[trigger] results[j].1 < results[best as int].1,
        decreases results.len() - k,
    {
        if results[k].1 >= results[best].1 {
            best = k;
        }
        k = k + 1;
    }
    results[best].0
}

/// Picks the move for `protagonist`, whose turn it is on `grid`, by scoring
/// the branch of every first move with a breadth-first search of `depth`
/// plies in all, and taking the column whose branch scores highest, the
/// rightmost among equals.
pub fn analyze_bfs(grid: Grid, protagonist: u8, depth: u8) -> (r: usize)
    requires
        grid@.wf(),
        grid@.player_to_move() == protagonist,
        depth >= 2,
        grid@.open_columns().len() > 0,
    ensures
        r < grid@.w,
        grid@.column_open(r as int),
        forall|k: int|
            0 <= k < grid@.open_columns().len() ==> first_move_score(
                grid@,
                #[trigger] grid@.open_columns()[k] as int,
                protagonist,
                depth as int,
            ) <= first_move_score(grid@, r as int, protagonist, depth as int),
        exists|b: int|
            0 <= b < grid@.open_columns().len() && grid@.open_columns()[b] == r && forall|k: int|
                b < k < grid@.open_columns().len() ==> first_move_score(
                    grid@,
                    #[trigger] grid@.open_columns()[k] as int,
                    protagonist,
                    depth as int,
                ) < first_move_score(grid@, r as int, protagonist, depth as int),
{
    let ghost g = grid@;
    let children = grid.next_grids();
    let mut results: Vec<(usize, i64)> = Vec::new();
    let mut k: usize = 0;
    proof {
        crate::grid::lemma_open_columns(g);
    }
    while k < children.len()
        invariant
            g.wf(),
            g.player_to_move() == protagonist,
            depth >= 2,
            children.len() == g.open_columns().len(),
            forall|m: int|
                0 <= m < children.len() ==> {
                    let c = g.open_columns()[m] as int;
                    &&& (#[trigger] children[m]).1 == c
                    &&& children[m].0 == g.landing_row(c)
                    &&& children[m].0 < g.h
                    &&& children[m].2@ == g.after_play(c)
                    &&& children[m].2@.wf()
                },
            forall|m: int| 0 <= m < g.open_columns().len() ==> {
                let c = #[trigger] g.open_columns()[m] as int;
                0 <= c < g.w && g.column_open(c)
            },
            k <= children.len(),
            results.len() == k,
            forall|m: int|
                0 <= m < k ==> (#[trigger] results[m]).0 == g.open_columns()[m] && results[m].1
                    == first_move_score(g, g.open_columns()[m] as int, protagonist, depth as int),
        decreases children.len() - k,
    {
        let row = children[k].0;
        let col = children[k].1;
        proof {
            crate::grid::lemma_after_play_plain_cell(g, col as int);
        }
        let value = first_move_value(children[k].2.clone(), row, col, protagonist, depth);
        results.push((col, value));
        k = k + 1;
    }
    let best = pick_best(&results);
    proof {
        let b = choose|b: int|
            0 <= b < results.len() && best == (#[trigger] results[b]).0 && (forall|j: int|
                0 <= j < results.len() ==> #[trigger] results[j].1 <= results[b].1) && (forall|j: int|
                b < j < results.len() ==> #[trigger] results[j].1 < results[b].1);
        assert forall|k: int|
            0 <= k < g.open_columns().len() implies first_move_score(
            g,
            #[trigger] g.open_columns()[k] as int,
            protagonist,
            depth as int,
        ) <= first_move_score(g, best as int, protagonist, depth as int) by {
            assert(results[k].1 <= results[b].1);
        }
        assert forall|k: int| b < k < g.open_columns().len() implies first_move_score(
            g,
            #[trigger] g.open_columns()[k] as int,
            protagonist,
            depth as int,
        ) < first_move_score(g, best as int, protagonist, depth as int) by {
            assert(results[k].1 < results[b].1);
        }
        assert(g.column_open(g.open_columns()[b] as int));
    }
    best
}

} // verus!
