use vstd::prelude::*;
use std::collections::HashMap;
use crate::grid::{Grid, GridModel, board_hash, empty_board};
use crate::threat::{initial_map, replay, Shape, ThreatMap, ThreatModel, field, updated};

verus! {

broadcast use vstd::std_specs::hash::group_hash_axioms;

/// Fixed-point scale of scores: a row's share is divided by its index plus
/// one, and every whole number from 1 to 16 divides this one.
pub const SCALE: i64 = 720720;

/// The score of a won position: 3 000 000 in fixed point.
pub const WIN: i64 = 2162160000000;

/// Every threat counter of a searched node stays at most this.
pub const MAX_THREAT: u32 = 1536;

/// The player whose threats count on row `i`: player 1 on even rows,
/// player 2 on odd rows.
pub open spec fn parity_player(i: int) -> u8 {
    (i % 2 + 1) as u8
}

/// Sum of the squared counters of `p` over the three shapes at `(i, j)`.
pub open spec fn cell_score(t: ThreatModel, i: int, j: int, p: u8) -> int {
    let a = t.val(field(Shape::Horizontal, p), i, j) as int;
    let b = t.val(field(Shape::Slash, p), i, j) as int;
    let c = t.val(field(Shape::Backslash, p), i, j) as int;
    a * a + b * b + c * c
}

/// Sum of `cell_score` over the first `n` cells of row `i`.
pub open spec fn row_score(t: ThreatModel, i: int, p: u8, n: int) -> int
    decreases n,
{
    if n <= 0 {
        0
    } else {
        row_score(t, i, p, n - 1) + cell_score(t, i, n - 1, p)
    }
}

/// Row `i`'s share of the heuristic: the row score of its parity player,
/// divided by `i + 1`, counted for the protagonist when that player is the
/// protagonist and against otherwise.
pub open spec fn row_term(t: ThreatModel, i: int, protagonist: u8) -> int {
    let s = row_score(t, i, parity_player(i), t.w) * (SCALE as int) / (i + 1);
    if parity_player(i) == protagonist {
        s
    } else {
        -s
    }
}

/// Sum of the first `n` row shares.
pub open spec fn heuristic_upto(t: ThreatModel, protagonist: u8, n: int) -> int
    decreases n,
{
    if n <= 0 {
        0
    } else {
        heuristic_upto(t, protagonist, n - 1) + row_term(t, n - 1, protagonist)
    }
}

/// The static value of a threat map for `protagonist`.
pub open spec fn heuristic_value(t: ThreatModel, protagonist: u8) -> int {
    heuristic_upto(t, protagonist, t.h)
}

proof fn lemma_row_score_bound(t: ThreatModel, i: int, p: u8, n: int)
    requires
        t.wf(),
        0 <= i < t.h,
        p == 1 || p == 2,
        0 <= n <= t.w,
        t.bounded(MAX_THREAT as int),
    ensures
        0 <= row_score(t, i, p, n) <= n * 7077888,
    decreases n,
{
    if n > 0 {
        lemma_row_score_bound(t, i, p, n - 1);
        let j = n - 1;
        crate::threat::lemma_idx(t, field(Shape::Horizontal, p), i, j);
        crate::threat::lemma_idx(t, field(Shape::Slash, p), i, j);
        crate::threat::lemma_idx(t, field(Shape::Backslash, p), i, j);
        let a = t.val(field(Shape::Horizontal, p), i, j) as int;
        let b = t.val(field(Shape::Slash, p), i, j) as int;
        let c = t.val(field(Shape::Backslash, p), i, j) as int;
        assert(a * a <= 1536 * 1536 && b * b <= 1536 * 1536 && c * c <= 1536 * 1536) by (nonlinear_arith)
            requires
                0 <= a <= 1536,
                0 <= b <= 1536,
                0 <= c <= 1536,
        ;
        assert(0 <= a * a && 0 <= b * b && 0 <= c * c) by (nonlinear_arith);
    }
}

proof fn lemma_heuristic_bound(t: ThreatModel, protagonist: u8, n: int)
    requires
        t.wf(),
        0 <= n <= t.h,
        t.bounded(MAX_THREAT as int),
    ensures
        -(n * (t.w * 5101175439360)) <= heuristic_upto(t, protagonist, n) <= n * (t.w
            * 5101175439360),
    decreases n,
{
    if n > 0 {
        lemma_heuristic_bound(t, protagonist, n - 1);
        let i = n - 1;
        let k = t.w * 5101175439360;
        lemma_row_score_bound(t, i, parity_player(i), t.w);
        let r = row_score(t, i, parity_player(i), t.w);
        assert(SCALE as int == 720720);
        let x = r * 720720;
        vstd::arithmetic::mul::lemma_mul_inequality(r, t.w * 7077888, 720720);
        vstd::arithmetic::mul::lemma_mul_is_associative(t.w, 7077888, 720720);
        vstd::arithmetic::mul::lemma_mul_nonnegative(r, 720720);
        vstd::arithmetic::div_mod::lemma_div_pos_is_pos(x, i + 1);
        vstd::arithmetic::div_mod::lemma_div_nonincreasing(x, i + 1);
        assert(r * (SCALE as int) == x);
        assert(t.w * (7077888 * 720720) == k);
        assert(x <= k);
        assert(x / (i + 1) <= k);
        assert(row_term(t, i, protagonist) == x / (i + 1) || row_term(t, i, protagonist) == -(x / (i + 1)));
        assert(heuristic_upto(t, protagonist, n) == heuristic_upto(t, protagonist, n - 1)
            + row_term(t, i, protagonist));
        assert(n * k == (n - 1) * k + k) by (nonlinear_arith);
    }
}

/// What a cached search value is known to be.
#[derive(PartialEq, Eq, Structural, Clone, Copy, Debug)]
pub enum Bound {
    /// The true value of the node.
    Exact,
    /// A lower bound, left by a cutoff on the protagonist's turn.
    Lower,
    /// An upper bound, left by a cutoff on the opponent's turn.
    Upper,
}

/// The child of node `n` reached by its `k`-th legal move, its threat map
/// brought up to date.
pub open spec fn child_node(n: NodeModel, k: int) -> NodeModel {
    let c = n.grid.open_columns()[k] as int;
    let g = n.grid.after_play(c);
    NodeModel { grid: g, map: updated(n.map, g, n.grid.landing_row(c), c) }
}

/// The search of the children of `n` from the `k`-th on, `depth` plies
/// below `n` counting `n`'s own, with the best value so far `value`, the
/// window `(alpha, beta)` and the cache `cache`; maximising on the
/// protagonist's turn, else minimising. Gives the value, the window and the
/// cache after it, and whether a cutoff ended it.
pub open spec fn search_children(
    n: NodeModel,
    depth: int,
    protagonist: u8,
    k: int,
    value: int,
    alpha: int,
    beta: int,
    cache: Map<u64, (i64, Bound)>,
    maximize: bool,
) -> (int, int, int, Map<u64, (i64, Bound)>, bool)
    decreases depth, 0int, n.grid.open_columns().len() - k,
{
    if depth <= 0 || k < 0 || k >= n.grid.open_columns().len() {
        (value, alpha, beta, cache, false)
    } else {
        let c = n.grid.open_columns()[k] as int;
        let (cv, next) = search_value(
            child_node(n, k),
            depth - 1,
            protagonist,
            n.grid.landing_row(c),
            c,
            alpha,
            beta,
            cache,
        );
        if maximize {
            let v = if cv > value { cv } else { value };
            let a = if v > alpha { v } else { alpha };
            if beta <= a {
                (v, a, beta, next, true)
            } else {
                search_children(n, depth, protagonist, k + 1, v, a, beta, next, true)
            }
        } else {
            let v = if cv < value { cv } else { value };
            let b = if v < beta { v } else { beta };
            if b <= alpha {
                (v, alpha, b, next, true)
            } else {
                search_children(n, depth, protagonist, k + 1, v, alpha, b, next, false)
            }
        }
    }
}

/// What the alpha-beta search of node `n` to `depth` plies returns, and the
/// cache it leaves, when `(row, col)` holds the last disc played, the window
/// is `(alpha, beta)` and the cache starts as `cache`.
pub open spec fn search_value(
    n: NodeModel,
    depth: int,
    protagonist: u8,
    row: int,
    col: int,
    alpha: int,
    beta: int,
    cache: Map<u64, (i64, Bound)>,
) -> (int, Map<u64, (i64, Bound)>)
    decreases depth, 1int, 0int,
{
    let key = board_hash(n.grid);
    let hit = cache.contains_key(key);
    let (stored, kind) = cache[key];
    let a = if hit && kind == Bound::Lower && stored > alpha { stored as int } else { alpha };
    let b = if hit && kind == Bound::Upper && stored < beta { stored as int } else { beta };
    if hit && (kind == Bound::Exact || a >= b) {
        (stored as int, cache)
    } else {
        let w = n.grid.fast_win(row, col);
        let (v, kind, after) = if w == 0 {
            if depth <= 0 {
                (heuristic_value(n.map, protagonist), Bound::Exact, cache)
            } else if n.grid.open_columns().len() == 0 {
                (0, Bound::Exact, cache)
            } else if n.grid.player_to_move() == protagonist {
                let r = search_children(n, depth, protagonist, 0, i64::MIN as int, a, b, cache, true);
                (r.0, if r.4 { Bound::Lower } else { Bound::Exact }, r.3)
            } else {
                let r = search_children(n, depth, protagonist, 0, i64::MAX as int, a, b, cache, false);
                (r.0, if r.4 { Bound::Upper } else { Bound::Exact }, r.3)
            }
        } else if w == protagonist {
            (WIN as int, Bound::Exact, cache)
        } else {
            (-WIN, Bound::Exact, cache)
        };
        (v, after.insert(key, (v as i64, kind)))
    }
}

/// The move chosen at the root `n` over its children from the `k`-th on,
/// each searched to `depth - 1` with a full window and the cache threaded
/// through: the largest value wins, the larger heuristic of the child among
/// equal values. Gives the column and its value.
pub open spec fn root_choice(
    n: NodeModel,
    depth: int,
    protagonist: u8,
    k: int,
    best_col: int,
    best_value: int,
    best_immediate: int,
    cache: Map<u64, (i64, Bound)>,
) -> (int, int)
    decreases n.grid.open_columns().len() - k,
{
    if k < 0 || k >= n.grid.open_columns().len() {
        (best_col, best_value)
    } else {
        let c = n.grid.open_columns()[k] as int;
        let child = child_node(n, k);
        let (cv, next) = search_value(
            child,
            depth - 1,
            protagonist,
            n.grid.landing_row(c),
            c,
            i64::MIN as int,
            i64::MAX as int,
            cache,
        );
        let immediate = heuristic_value(child.map, protagonist);
        if k == 0 || cv > best_value || (cv == best_value && immediate > best_immediate) {
            root_choice(n, depth, protagonist, k + 1, c, cv, immediate, next)
        } else {
            root_choice(n, depth, protagonist, k + 1, best_col, best_value, best_immediate, next)
        }
    }
}

/// Dropping a disc in column `c` of `g` wins at once for `p`.
pub open spec fn wins_at(g: GridModel, c: int, p: u8) -> bool {
    g.after_play(c).fast_win(g.landing_row(c), c) == p
}

/// Some legal move of `g` wins at once for `p`.
pub open spec fn can_win_now(g: GridModel, p: u8) -> bool {
    exists|k: int| 0 <= k < g.open_columns().len() && wins_at(g, #[trigger] g.open_columns()[k] as int, p)
}

/// The search of the children of `n` from the `k`-th on with no cache at
/// all: as `search_children`, without lookups or stores.
pub open spec fn plain_children(
    n: NodeModel,
    depth: int,
    protagonist: u8,
    k: int,
    value: int,
    alpha: int,
    beta: int,
    maximize: bool,
) -> (int, int, int, bool)
    decreases depth, 0int, n.grid.open_columns().len() - k,
{
    if depth <= 0 || k < 0 || k >= n.grid.open_columns().len() {
        (value, alpha, beta, false)
    } else {
        let c = n.grid.open_columns()[k] as int;
        let cv = plain_value(child_node(n, k), depth - 1, protagonist, n.grid.landing_row(c), c, alpha, beta);
        if maximize {
            let v = if cv > value { cv } else { value };
            let a = if v > alpha { v } else { alpha };
            if beta <= a {
                (v, a, beta, true)
            } else {
                plain_children(n, depth, protagonist, k + 1, v, a, beta, true)
            }
        } else {
            let v = if cv < value { cv } else { value };
            let b = if v < beta { v } else { beta };
            if b <= alpha {
                (v, alpha, b, true)
            } else {
                plain_children(n, depth, protagonist, k + 1, v, alpha, b, false)
            }
        }
    }
}

/// The alpha-beta value of node `n` with the transposition cache disabled.
pub open spec fn plain_value(
    n: NodeModel,
    depth: int,
    protagonist: u8,
    row: int,
    col: int,
    alpha: int,
    beta: int,
) -> int
    decreases depth, 1int, 0int,
{
    let w = n.grid.fast_win(row, col);
    if w == 0 {
        if depth <= 0 {
            heuristic_value(n.map, protagonist)
        } else if n.grid.open_columns().len() == 0 {
            0
        } else if n.grid.player_to_move() == protagonist {
            plain_children(n, depth, protagonist, 0, i64::MIN as int, alpha, beta, true).0
        } else {
            plain_children(n, depth, protagonist, 0, i64::MAX as int, alpha, beta, false).0
        }
    } else if w == protagonist {
        WIN as int
    } else {
        -WIN
    }
}

/// The minimax value of node `n` searched `depth` plies for `protagonist`,
/// `(row, col)` holding the last disc played: a win by that disc scores
/// `WIN` for the protagonist and `-WIN` against, depth 0 the heuristic, a
/// full board 0; otherwise the best child value for the player to move.
pub open spec fn minimax(n: NodeModel, depth: int, protagonist: u8, row: int, col: int) -> int
    decreases depth, 1int, 0int,
{
    let w = n.grid.fast_win(row, col);
    let len = n.grid.open_columns().len() as int;
    if w == 0 {
        if depth <= 0 {
            heuristic_value(n.map, protagonist)
        } else if len == 0 {
            0
        } else {
            minimax_best(n, depth, protagonist, len, n.grid.player_to_move() == protagonist)
        }
    } else if w == protagonist {
        WIN as int
    } else {
        -WIN
    }
}

/// The largest (or, when not `maximize`, smallest) minimax value among the
/// first `k` children of `n`; `i64::MIN` (or `i64::MAX`) for none.
pub open spec fn minimax_best(n: NodeModel, depth: int, protagonist: u8, k: int, maximize: bool) -> int
    decreases depth, 0int, k,
{
    if depth <= 0 || k <= 0 || k > n.grid.open_columns().len() {
        if maximize {
            i64::MIN as int
        } else {
            i64::MAX as int
        }
    } else {
        let c = n.grid.open_columns()[k - 1] as int;
        let m = minimax(child_node(n, k - 1), depth - 1, protagonist, n.grid.landing_row(c), c);
        let b = minimax_best(n, depth, protagonist, k - 1, maximize);
        if maximize {
            if m > b {
                m
            } else {
                b
            }
        } else {
            if m < b {
                m
            } else {
                b
            }
        }
    }
}

/// A value `v` found in window `(alpha, beta)` is fail-soft correct for the
/// true value `m`: exact strictly inside the window, an upper bound at or
/// below `alpha`, a lower bound at or above `beta`.
pub open spec fn fail_soft(v: int, m: int, alpha: int, beta: int) -> bool {
    &&& alpha < v < beta ==> v == m
    &&& v <= alpha ==> m <= v
    &&& v >= beta ==> m >= v
}

proof fn lemma_best_grows(n: NodeModel, depth: int, protagonist: u8, k: int, j: int, maximize: bool)
    requires
        0 < depth,
        0 <= k <= j <= n.grid.open_columns().len(),
    ensures
        maximize ==> minimax_best(n, depth, protagonist, k, maximize) <= minimax_best(n, depth, protagonist, j, maximize),
        !maximize ==> minimax_best(n, depth, protagonist, k, maximize) >= minimax_best(n, depth, protagonist, j, maximize),
    decreases j - k,
{
    if k < j {
        lemma_best_grows(n, depth, protagonist, k, j - 1, maximize);
    }
}

/// The alpha-beta search with the cache disabled is fail-soft correct
/// against minimax: for any window `(alpha, beta)` within `i64`, the value is
/// the minimax value when strictly inside the window, at least it when at
/// or below `alpha`, and at most it when at or above `beta`.
pub proof fn law_search_fail_soft(
    n: NodeModel,
    depth: int,
    protagonist: u8,
    row: int,
    col: int,
    alpha: int,
    beta: int,
)
    requires
        i64::MIN <= alpha < beta <= i64::MAX,
    ensures
        fail_soft(
            plain_value(n, depth, protagonist, row, col, alpha, beta),
            minimax(n, depth, protagonist, row, col),
            alpha,
            beta,
        ),
    decreases depth, 1int, 0int,
{
    let w = n.grid.fast_win(row, col);
    if w == 0 && depth > 0 && n.grid.open_columns().len() > 0 {
        let m = n.grid.player_to_move() == protagonist;
        let v0 = if m { i64::MIN as int } else { i64::MAX as int };
        law_children_fail_soft(n, depth, protagonist, 0, v0, alpha, beta, alpha, beta, m);
    }
}

/// The children's part of `law_search_fail_soft`: the search of the
/// children from the `k`-th on, having met the best value `value` so far
/// and narrowed the window `(alpha0, beta0)` to `(alpha, beta)` without a
/// cutoff, ends fail-soft correct against the best minimax value of all
/// children.
pub proof fn law_children_fail_soft(
    n: NodeModel,
    depth: int,
    protagonist: u8,
    k: int,
    value: int,
    alpha: int,
    beta: int,
    alpha0: int,
    beta0: int,
    maximize: bool,
)
    requires
        0 < depth,
        0 <= k <= n.grid.open_columns().len(),
        i64::MIN <= alpha0 < beta0 <= i64::MAX,
        alpha < beta,
        maximize ==> {
            &&& beta == beta0
            &&& alpha == (if value > alpha0 { value } else { alpha0 })
            &&& value < beta0
            &&& minimax_best(n, depth, protagonist, k, true) <= value
            &&& value > alpha0 ==> value == minimax_best(n, depth, protagonist, k, true)
        },
        !maximize ==> {
            &&& alpha == alpha0
            &&& beta == (if value < beta0 { value } else { beta0 })
            &&& value > alpha0
            &&& minimax_best(n, depth, protagonist, k, false) >= value
            &&& value < beta0 ==> value == minimax_best(n, depth, protagonist, k, false)
        },
    ensures
        fail_soft(
            plain_children(n, depth, protagonist, k, value, alpha, beta, maximize).0,
            minimax_best(n, depth, protagonist, n.grid.open_columns().len() as int, maximize),
            alpha0,
            beta0,
        ),
    decreases depth, 0int, n.grid.open_columns().len() - k,
{
    let len = n.grid.open_columns().len() as int;
    if k < len {
        let c = n.grid.open_columns()[k] as int;
        let child = child_node(n, k);
        let row = n.grid.landing_row(c);
        let cv = plain_value(child, depth - 1, protagonist, row, c, alpha, beta);
        let cm = minimax(child, depth - 1, protagonist, row, c);
        law_search_fail_soft(child, depth - 1, protagonist, row, c, alpha, beta);
        lemma_best_grows(n, depth, protagonist, k + 1, len, maximize);
        assert(minimax_best(n, depth, protagonist, k + 1, maximize) == if maximize {
            if cm > minimax_best(n, depth, protagonist, k, true) {
                cm
            } else {
                minimax_best(n, depth, protagonist, k, true)
            }
        } else {
            if cm < minimax_best(n, depth, protagonist, k, false) {
                cm
            } else {
                minimax_best(n, depth, protagonist, k, false)
            }
        });
        if maximize {
            let v = if cv > value { cv } else { value };
            let a = if v > alpha { v } else { alpha };
            if !(beta <= a) {
                law_children_fail_soft(n, depth, protagonist, k + 1, v, a, beta, alpha0, beta0, true);
            }
        } else {
            let v = if cv < value { cv } else { value };
            let b = if v < beta { v } else { beta };
            if !(b <= alpha) {
                law_children_fail_soft(n, depth, protagonist, k + 1, v, alpha, b, alpha0, beta0, false);
            }
        }
    }
}

/// The search as `get_value_alpha_beta` runs it, cache and all, is
/// fail-soft correct against minimax whenever the cache holds no board within
/// reach and different move sequences within reach give boards with
/// different hashes; with the full window of `i64` it then returns the
/// minimax value unless that lies at an end of `i64`.
pub proof fn law_cached_search_fail_soft(
    n: NodeModel,
    depth: int,
    protagonist: u8,
    row: int,
    col: int,
    alpha: int,
    beta: int,
    cache: Map<u64, (i64, Bound)>,
)
    requires
        0 <= depth,
        i64::MIN <= alpha < beta <= i64::MAX,
        path_hashes_distinct(n, depth),
        cache_misses(n, depth, cache),
    ensures
        fail_soft(
            search_value(n, depth, protagonist, row, col, alpha, beta, cache).0,
            minimax(n, depth, protagonist, row, col),
            alpha,
            beta,
        ),
{
    law_cache_transparent(n, depth, protagonist, row, col, alpha, beta, cache);
    law_search_fail_soft(n, depth, protagonist, row, col, alpha, beta);
}

/// The node reached from `n` by `path`, each step an index into the legal
/// moves of the node before it.
pub open spec fn node_at(n: NodeModel, path: Seq<int>) -> NodeModel
    decreases path.len(),
{
    if path.len() == 0 {
        n
    } else {
        node_at(child_node(n, path[0]), path.drop_first())
    }
}

/// Every step of `path` is a legal move of the node it starts from.
pub open spec fn valid_path(n: NodeModel, path: Seq<int>) -> bool
    decreases path.len(),
{
    path.len() == 0 || (0 <= path[0] < n.grid.open_columns().len() && valid_path(
        child_node(n, path[0]),
        path.drop_first(),
    ))
}

/// `key` is the hash of a board reached from `n` by at most `d` moves.
pub open spec fn within_hash(n: NodeModel, d: int, key: u64) -> bool {
    exists|p: Seq<int>|
        valid_path(n, p) && p.len() <= d && key == board_hash(#[trigger] node_at(n, p).grid)
}

/// Different sequences of at most `d` moves from `n` lead to boards with
/// different hashes: no two such boards collide, and no board is reached
/// in two ways.
pub open spec fn path_hashes_distinct(n: NodeModel, d: int) -> bool {
    forall|p: Seq<int>, q: Seq<int>|
        valid_path(n, p) && valid_path(n, q) && p.len() <= d && q.len() <= d && board_hash(
            #[trigger] node_at(n, p).grid,
        ) == board_hash(#[trigger] node_at(n, q).grid) ==> p == q
}

/// The cache holds no entry for a board within `d` moves of `n`.
pub open spec fn cache_misses(n: NodeModel, d: int, cache: Map<u64, (i64, Bound)>) -> bool {
    forall|key: u64| #[trigger] within_hash(n, d, key) ==> !cache.contains_key(key)
}

proof fn lemma_path_step(n: NodeModel, k: int, p: Seq<int>)
    ensures
        node_at(n, seq![k] + p) == node_at(child_node(n, k), p),
        valid_path(n, seq![k] + p) == (0 <= k < n.grid.open_columns().len() && valid_path(
            child_node(n, k),
            p,
        )),
        (seq![k] + p).len() == p.len() + 1,
        (seq![k] + p)[0] == k,
{
    assert((seq![k] + p).drop_first() =~= p);
}

/// What holds within `d - 1` moves of a child holds within `d` moves of
/// the parent.
proof fn lemma_child_within(n: NodeModel, d: int, k: int, key: u64)
    requires
        0 <= k < n.grid.open_columns().len(),
        within_hash(child_node(n, k), d - 1, key),
    ensures
        within_hash(n, d, key),
{
    let p = choose|p: Seq<int>|
        valid_path(child_node(n, k), p) && p.len() <= d - 1 && key == board_hash(
            #[trigger] node_at(child_node(n, k), p).grid,
        );
    lemma_path_step(n, k, p);
    assert(valid_path(n, seq![k] + p) && (seq![k] + p).len() <= d && key == board_hash(
        node_at(n, seq![k] + p).grid,
    ));
}

/// The hashes within reach of two different children never meet.
proof fn lemma_children_apart(n: NodeModel, d: int, j: int, k: int, key: u64)
    requires
        path_hashes_distinct(n, d),
        0 <= j < n.grid.open_columns().len(),
        0 <= k < n.grid.open_columns().len(),
        j != k,
        within_hash(child_node(n, j), d - 1, key),
    ensures
        !within_hash(child_node(n, k), d - 1, key),
{
    if within_hash(child_node(n, k), d - 1, key) {
        let p = choose|p: Seq<int>|
            valid_path(child_node(n, j), p) && p.len() <= d - 1 && key == board_hash(
                #[trigger] node_at(child_node(n, j), p).grid,
            );
        let q = choose|q: Seq<int>|
            valid_path(child_node(n, k), q) && q.len() <= d - 1 && key == board_hash(
                #[trigger] node_at(child_node(n, k), q).grid,
            );
        lemma_path_step(n, j, p);
        lemma_path_step(n, k, q);
        assert(seq![j] + p == seq![k] + q);
        assert((seq![j] + p)[0] == (seq![k] + q)[0]);
    }
}

/// A child keeps the parent's distinctness, one move shorter.
proof fn lemma_child_distinct(n: NodeModel, d: int, k: int)
    requires
        path_hashes_distinct(n, d),
        0 <= k < n.grid.open_columns().len(),
    ensures
        path_hashes_distinct(child_node(n, k), d - 1),
{
    let c = child_node(n, k);
    assert forall|p: Seq<int>, q: Seq<int>|
        valid_path(c, p) && valid_path(c, q) && p.len() <= d - 1 && q.len() <= d - 1 && board_hash(
            #[trigger] node_at(c, p).grid,
        ) == board_hash(#[trigger] node_at(c, q).grid) implies p == q by {
        lemma_path_step(n, k, p);
        lemma_path_step(n, k, q);
        assert(seq![k] + p == seq![k] + q);
        assert((seq![k] + p).drop_first() =~= p);
        assert((seq![k] + q).drop_first() =~= q);
    }
}

/// With the cache enabled, a search returns what it returns with the cache
/// disabled, provided the cache holds no board within reach and different
/// move sequences within reach lead to boards with different hashes. The
/// cache afterwards holds, besides what it held, only hashes within reach.
pub proof fn law_cache_transparent(
    n: NodeModel,
    depth: int,
    protagonist: u8,
    row: int,
    col: int,
    alpha: int,
    beta: int,
    cache: Map<u64, (i64, Bound)>,
)
    requires
        0 <= depth,
        path_hashes_distinct(n, depth),
        cache_misses(n, depth, cache),
    ensures
        search_value(n, depth, protagonist, row, col, alpha, beta, cache).0 == plain_value(
            n,
            depth,
            protagonist,
            row,
            col,
            alpha,
            beta,
        ),
        forall|key: u64|
            #[trigger] search_value(n, depth, protagonist, row, col, alpha, beta, cache).1.contains_key(key)
                ==> cache.contains_key(key) || within_hash(n, depth, key),
    decreases depth, 1int, 0int,
{
    let key = board_hash(n.grid);
    assert(node_at(n, Seq::<int>::empty()) == n);
    assert(valid_path(n, Seq::<int>::empty()));
    assert(within_hash(n, depth, key)) by {
        assert(key == board_hash(node_at(n, Seq::<int>::empty()).grid));
    }
    assert(!cache.contains_key(key));
    let w = n.grid.fast_win(row, col);
    let m = n.grid.player_to_move() == protagonist;
    let v0 = if m { i64::MIN as int } else { i64::MAX as int };
    let r = search_value(n, depth, protagonist, row, col, alpha, beta, cache);
    if w == 0 && depth > 0 && n.grid.open_columns().len() > 0 {
        assert forall|j: int| 0 <= j < n.grid.open_columns().len() implies #[trigger] cache_misses(
            child_node(n, j),
            depth - 1,
            cache,
        ) by {
            assert forall|key2: u64| #[trigger]
                within_hash(child_node(n, j), depth - 1, key2) implies !cache.contains_key(key2) by {
                lemma_child_within(n, depth, j, key2);
            }
        }
        law_children_transparent(n, depth, protagonist, 0, v0, alpha, beta, cache, m);
        let sc = search_children(n, depth, protagonist, 0, v0, alpha, beta, cache, m);
        assert(r.1 == sc.3.insert(key, r.1[key]));
        assert forall|key2: u64| #[trigger] r.1.contains_key(key2) implies cache.contains_key(key2)
            || within_hash(n, depth, key2) by {
            if key2 != key && !cache.contains_key(key2) {
                let j = choose|j: int|
                    0 <= j < n.grid.open_columns().len() && #[trigger] within_hash(
                        child_node(n, j),
                        depth - 1,
                        key2,
                    );
                lemma_child_within(n, depth, j, key2);
            }
        }
    } else {
        assert(r.1 == cache.insert(key, r.1[key]));
    }
}

/// The children's part of `law_cache_transparent`.
pub proof fn law_children_transparent(
    n: NodeModel,
    depth: int,
    protagonist: u8,
    k: int,
    value: int,
    alpha: int,
    beta: int,
    cache: Map<u64, (i64, Bound)>,
    maximize: bool,
)
    requires
        path_hashes_distinct(n, depth),
        0 <= k,
        forall|j: int|
            k <= j < n.grid.open_columns().len() ==> #[trigger] cache_misses(child_node(n, j), depth - 1, cache),
    ensures
        ({
            let s = search_children(n, depth, protagonist, k, value, alpha, beta, cache, maximize);
            let p = plain_children(n, depth, protagonist, k, value, alpha, beta, maximize);
            s.0 == p.0 && s.1 == p.1 && s.2 == p.2 && s.4 == p.3
        }),
        forall|key: u64|
            #[trigger] search_children(n, depth, protagonist, k, value, alpha, beta, cache, maximize).3.contains_key(
                key,
            ) ==> cache.contains_key(key) || exists|j: int|
                k <= j < n.grid.open_columns().len() && #[trigger] within_hash(child_node(n, j), depth - 1, key),
    decreases depth, 0int, n.grid.open_columns().len() - k,
{
    if !(depth <= 0 || k >= n.grid.open_columns().len()) {
        let c = n.grid.open_columns()[k] as int;
        let child = child_node(n, k);
        let row = n.grid.landing_row(c);
        lemma_child_distinct(n, depth, k);
        assert(cache_misses(child, depth - 1, cache));
        law_cache_transparent(child, depth - 1, protagonist, row, c, alpha, beta, cache);
        let (cv, next) = search_value(child, depth - 1, protagonist, row, c, alpha, beta, cache);
        assert forall|j: int| k + 1 <= j < n.grid.open_columns().len() implies #[trigger] cache_misses(
            child_node(n, j),
            depth - 1,
            next,
        ) by {
            assert forall|key2: u64| #[trigger]
                within_hash(child_node(n, j), depth - 1, key2) implies !next.contains_key(key2) by {
                assert(cache_misses(child_node(n, j), depth - 1, cache));
                assert(!cache.contains_key(key2));
                if within_hash(child, depth - 1, key2) {
                    lemma_children_apart(n, depth, j, k, key2);
                }
            }
        }
        let r = search_children(n, depth, protagonist, k, value, alpha, beta, cache, maximize);
        if maximize {
            let v = if cv > value { cv } else { value };
            let a = if v > alpha { v } else { alpha };
            if !(beta <= a) {
                law_children_transparent(n, depth, protagonist, k + 1, v, a, beta, next, true);
                assert(r == search_children(n, depth, protagonist, k + 1, v, a, beta, next, true));
            } else {
                assert(r.3 == next);
            }
        } else {
            let v = if cv < value { cv } else { value };
            let b = if v < beta { v } else { beta };
            if !(b <= alpha) {
                law_children_transparent(n, depth, protagonist, k + 1, v, alpha, b, next, false);
                assert(r == search_children(n, depth, protagonist, k + 1, v, alpha, b, next, false));
            } else {
                assert(r.3 == next);
            }
        }
        assert forall|key2: u64| #[trigger] r.3.contains_key(key2) implies cache.contains_key(key2)
            || exists|j: int|
            k <= j < n.grid.open_columns().len() && #[trigger] within_hash(child_node(n, j), depth - 1, key2) by {
            if !cache.contains_key(key2) {
                if next.contains_key(key2) {
                    assert(within_hash(child_node(n, k), depth - 1, key2));
                } else {
                    let j = choose|j: int|
                        k + 1 <= j < n.grid.open_columns().len() && #[trigger] within_hash(
                            child_node(n, j),
                            depth - 1,
                            key2,
                        );
                    assert(within_hash(child_node(n, j), depth - 1, key2));
                }
            }
        }
    }
}

/// The columns played along `path` from `n`.
pub open spec fn path_columns(n: NodeModel, path: Seq<int>) -> Seq<usize>
    decreases path.len(),
{
    if path.len() == 0 {
        Seq::empty()
    } else {
        let p = path.drop_last();
        path_columns(n, p).push(node_at(n, p).grid.open_columns()[path.last()])
    }
}

proof fn lemma_node_at_push(n: NodeModel, p: Seq<int>, k: int)
    ensures
        node_at(n, p.push(k)) == child_node(node_at(n, p), k),
        valid_path(n, p.push(k)) == (valid_path(n, p) && 0 <= k < node_at(
            n,
            p,
        ).grid.open_columns().len()),
    decreases p.len(),
{
    if p.len() > 0 {
        assert(p.push(k).drop_first() =~= p.drop_first().push(k));
        assert(p.push(k)[0] == p[0]);
        lemma_node_at_push(child_node(n, p[0]), p.drop_first(), k);
    } else {
        assert(p.push(k).drop_first() =~= Seq::<int>::empty());
        assert(p.push(k)[0] == k);
        assert(node_at(child_node(n, k), Seq::<int>::empty()) == child_node(n, k));
        assert(valid_path(child_node(n, k), Seq::<int>::empty()));
        assert(node_at(n, p) == n);
    }
}

proof fn lemma_node_at_wf(n: NodeModel, p: Seq<int>)
    requires
        n.grid.wf(),
        valid_path(n, p),
    ensures
        node_at(n, p).grid.wf(),
    decreases p.len(),
{
    if p.len() > 0 {
        crate::grid::lemma_open_columns(n.grid);
        crate::grid::lemma_after_play_wf(n.grid, n.grid.open_columns()[p[0]] as int);
        lemma_node_at_wf(child_node(n, p[0]), p.drop_first());
    }
}

/// A node reached from the empty board through `create_children`, one legal
/// move index after another along `path`, carries the board and threat map
/// of the columns of that path replayed from the empty board into a map
/// built from it: the incrementally kept map equals the replayed one.
pub proof fn law_search_path_replays(l: int, w: int, h: int, path: Seq<int>)
    requires
        1 <= l,
        1 <= w,
        1 <= h,
        w * h <= 255,
        valid_path(
            NodeModel { grid: empty_board(l, w, h), map: initial_map(empty_board(l, w, h)) },
            path,
        ),
    ensures
        ({
            let root = NodeModel { grid: empty_board(l, w, h), map: initial_map(empty_board(l, w, h)) };
            let (g, t) = replay(l, w, h, path_columns(root, path));
            node_at(root, path).grid == g && node_at(root, path).map == t
        }),
    decreases path.len(),
{
    let root = NodeModel { grid: empty_board(l, w, h), map: initial_map(empty_board(l, w, h)) };
    if path.len() > 0 {
        let p = path.drop_last();
        let k = path.last();
        assert(p.push(k) =~= path);
        lemma_node_at_push(root, p, k);
        law_search_path_replays(l, w, h, p);
        crate::threat::lemma_empty_board_wf(l, w, h);
        lemma_node_at_wf(root, p);
        let here = node_at(root, p);
        crate::grid::lemma_open_columns(here.grid);
        let cols = path_columns(root, path);
        assert(cols.drop_last() =~= path_columns(root, p));
    }
}

/// The minimax value, searched `depth - 1` plies, of the child of the root
/// `n` reached by its `k`-th legal move.
pub open spec fn root_minimax(n: NodeModel, depth: int, protagonist: u8, k: int) -> int {
    let c = n.grid.open_columns()[k] as int;
    minimax(child_node(n, k), depth - 1, protagonist, n.grid.landing_row(c), c)
}

/// `b` is `g` itself or a board reached from `g` by at most `d` moves.
pub open spec fn reachable(g: GridModel, b: GridModel, d: int) -> bool
    decreases d,
{
    b == g || (d > 0 && exists|k: int|
        0 <= k < g.open_columns().len() && reachable(
            g.after_play(#[trigger] g.open_columns()[k] as int),
            b,
            d - 1,
        ))
}

/// No two different boards within `d` moves of `g` share a content hash.
pub open spec fn hashes_distinct_within(g: GridModel, d: int) -> bool {
    forall|a: GridModel, b: GridModel|
        #[trigger] reachable(g, a, d) && #[trigger] reachable(g, b, d) && board_hash(a) == board_hash(b)
            ==> a == b
}

/// The cache a search leaves holds, besides what it held, only hashes of
/// boards within `depth` moves of the searched one.
pub proof fn lemma_search_keys(
    n: NodeModel,
    depth: int,
    protagonist: u8,
    row: int,
    col: int,
    alpha: int,
    beta: int,
    cache: Map<u64, (i64, Bound)>,
)
    requires
        n.grid.wf(),
    ensures
        forall|key: u64|
            #[trigger] search_value(n, depth, protagonist, row, col, alpha, beta, cache).1.contains_key(key)
                ==> cache.contains_key(key) || exists|b: GridModel|
                reachable(n.grid, b, depth) && key == board_hash(b),
    decreases depth, 1int, 0int,
{
    let key = board_hash(n.grid);
    assert(reachable(n.grid, n.grid, depth));
    let hit = cache.contains_key(key);
    let (stored, kind) = cache[key];
    let a = if hit && kind == Bound::Lower && stored > alpha { stored as int } else { alpha };
    let b = if hit && kind == Bound::Upper && stored < beta { stored as int } else { beta };
    let r = search_value(n, depth, protagonist, row, col, alpha, beta, cache);
    if hit && (kind == Bound::Exact || a >= b) {
        assert(r.1 == cache);
    } else {
        let w = n.grid.fast_win(row, col);
        let m = n.grid.player_to_move() == protagonist;
        let v0 = if m { i64::MIN as int } else { i64::MAX as int };
        let after = if w == 0 && depth > 0 && n.grid.open_columns().len() > 0 {
            search_children(n, depth, protagonist, 0, v0, a, b, cache, m).3
        } else {
            cache
        };
        assert(r.1 == after.insert(key, r.1[key]));
        if w == 0 && depth > 0 && n.grid.open_columns().len() > 0 {
            lemma_children_keys(n, depth, protagonist, 0, v0, a, b, cache, m);
        }
        assert forall|key2: u64| #[trigger] r.1.contains_key(key2) implies cache.contains_key(key2)
            || exists|bb: GridModel| reachable(n.grid, bb, depth) && key2 == board_hash(bb) by {
            if key2 == key {
                assert(reachable(n.grid, n.grid, depth) && key2 == board_hash(n.grid));
            } else {
                assert(after.contains_key(key2));
            }
        }
    }
}

/// The cache a search of children leaves holds, besides what it held, only
/// hashes of boards within `depth` moves of the parent.
pub proof fn lemma_children_keys(
    n: NodeModel,
    depth: int,
    protagonist: u8,
    k: int,
    value: int,
    alpha: int,
    beta: int,
    cache: Map<u64, (i64, Bound)>,
    maximize: bool,
)
    requires
        n.grid.wf(),
    ensures
        forall|key: u64|
            #[trigger] search_children(n, depth, protagonist, k, value, alpha, beta, cache, maximize).3.contains_key(
                key,
            ) ==> cache.contains_key(key) || exists|b: GridModel|
                reachable(n.grid, b, depth) && key == board_hash(b),
    decreases depth, 0int, n.grid.open_columns().len() - k,
{
    if !(depth <= 0 || k < 0 || k >= n.grid.open_columns().len()) {
        let c = n.grid.open_columns()[k] as int;
        crate::grid::lemma_open_columns(n.grid);
        crate::grid::lemma_after_play_wf(n.grid, c);
        let child = child_node(n, k);
        let (cv, next) = search_value(
            child,
            depth - 1,
            protagonist,
            n.grid.landing_row(c),
            c,
            alpha,
            beta,
            cache,
        );
        lemma_search_keys(child, depth - 1, protagonist, n.grid.landing_row(c), c, alpha, beta, cache);
        assert forall|b: GridModel| reachable(child.grid, b, depth - 1) implies reachable(n.grid, b, depth) by {
            assert(0 <= k < n.grid.open_columns().len() && reachable(
                n.grid.after_play(n.grid.open_columns()[k] as int),
                b,
                depth - 1,
            ));
        }
        assert forall|key2: u64| #[trigger] next.contains_key(key2) implies cache.contains_key(key2) || exists|
            bb: GridModel,
        | reachable(n.grid, bb, depth) && key2 == board_hash(bb) by {
            if !cache.contains_key(key2) {
                let bb = choose|bb: GridModel| reachable(child.grid, bb, depth - 1) && key2 == board_hash(bb);
                assert(reachable(n.grid, bb, depth));
            }
        }
        let r = search_children(n, depth, protagonist, k, value, alpha, beta, cache, maximize);
        if maximize {
            let v = if cv > value { cv } else { value };
            let a = if v > alpha { v } else { alpha };
            if !(beta <= a) {
                lemma_children_keys(n, depth, protagonist, k + 1, v, a, beta, next, true);
                assert(r == search_children(n, depth, protagonist, k + 1, v, a, beta, next, true));
            } else {
                assert(r.3 == next);
            }
        } else {
            let v = if cv < value { cv } else { value };
            let b = if v < beta { v } else { beta };
            if !(b <= alpha) {
                lemma_children_keys(n, depth, protagonist, k + 1, v, alpha, b, next, false);
                assert(r == search_children(n, depth, protagonist, k + 1, v, alpha, b, next, false));
            } else {
                assert(r.3 == next);
            }
        }
        assert forall|key2: u64| #[trigger] r.3.contains_key(key2) implies cache.contains_key(key2)
            || exists|bb: GridModel| reachable(n.grid, bb, depth) && key2 == board_hash(bb) by {
            if !next.contains_key(key2) {
                let bb = choose|bb: GridModel| reachable(n.grid, bb, depth) && key2 == board_hash(bb);
            }
        }
    }
}

/// A board reached by moves has more discs than the start, or is the start.
pub proof fn lemma_reachable_turn(g: GridModel, b: GridModel, d: int)
    requires
        g.wf(),
        reachable(g, b, d),
    ensures
        b.turn >= g.turn,
        b.turn == g.turn ==> b == g,
    decreases d,
{
    if b != g {
        let k = choose|k: int|
            0 <= k < g.open_columns().len() && reachable(
                g.after_play(#[trigger] g.open_columns()[k] as int),
                b,
                d - 1,
            );
        let c = g.open_columns()[k] as int;
        crate::grid::lemma_open_columns(g);
        crate::grid::lemma_after_play_wf(g, c);
        lemma_reachable_turn(g.after_play(c), b, d - 1);
    }
}

/// Moves in different columns lead to different boards.
pub proof fn lemma_children_differ(g: GridModel, a: int, b: int)
    requires
        g.wf(),
        0 <= a < g.open_columns().len(),
        0 <= b < g.open_columns().len(),
        a != b,
    ensures
        g.after_play(g.open_columns()[a] as int) != g.after_play(g.open_columns()[b] as int),
{
    crate::grid::lemma_open_columns(g);
    let ca = g.open_columns()[a] as int;
    let cb = g.open_columns()[b] as int;
    if a < b {
        assert(ca < cb);
    } else {
        assert(cb < ca);
    }
    crate::grid::lemma_landing(g, ca);
    crate::grid::lemma_landing(g, cb);
    crate::grid::lemma_after_play_plain_cell(g, ca);
    let ra = g.landing_row(ca);
    crate::grid::lemma_cell_index(g, ra, ca);
    crate::grid::lemma_cell_index(g, g.landing_row(cb), cb);
    crate::grid::lemma_cell_distinct(g, ra, ca, g.landing_row(cb), cb);
    assert(g.after_play(cb).cell(ra, ca) == g.cell(ra, ca));
}

/// Mathematical picture of a search node: its board and its threat map.
pub struct NodeModel {
    pub grid: GridModel,
    pub map: ThreatModel,
}

impl NodeModel {
    pub open spec fn wf(self) -> bool {
        &&& self.grid.wf()
        &&& self.grid.plain()
        &&& self.map.wf()
        &&& self.map.w == self.grid.w
        &&& self.map.h == self.grid.h
        &&& self.map.bounded(6 * self.grid.turn + 6)
    }
}

/// A board with its threat map, as explored by the alpha-beta search.
pub struct Node {
    grid: Grid,
    threat_map: ThreatMap,
}

impl View for Node {
    type V = NodeModel;

    closed spec fn view(&self) -> NodeModel {
        NodeModel { grid: self.grid@, map: self.threat_map@ }
    }
}

impl Clone for Node {
    fn clone(&self) -> (r: Node)
        ensures
            r@ == self@,
    {
        Node { grid: self.grid.clone(), threat_map: self.threat_map.clone() }
    }
}

impl Node {
    /// A node for `grid` with a fresh threat map.
    pub fn new(grid: Grid) -> (n: Node)
        requires
            grid@.wf(),
            grid@.plain(),
        ensures
            n@.wf(),
            n@.grid == grid@,
            n@.map == initial_map(grid@),
    {
        let threat_map = ThreatMap::new(&grid);
        Node { grid, threat_map }
    }

    pub fn grid(&self) -> (g: &Grid)
        ensures
            g@ == self@.grid,
    {
        &self.grid
    }

    pub fn threat_map(&self) -> (t: &ThreatMap)
        ensures
            t@ == self@.map,
    {
        &self.threat_map
    }

    /// Every node reachable in one move, its threat map brought up to date,
    /// with the cell where the disc landed, column by column from the left.
    pub fn create_children(&self) -> (r: Vec<(usize, usize, Node)>)
        requires
            self@.wf(),
        ensures
            r.len() == self@.grid.open_columns().len(),
            forall|k: int|
                0 <= k < r.len() ==> {
                    let c = self@.grid.open_columns()[k] as int;
                    let row = self@.grid.landing_row(c);
                    &&& (#[trigger] r[k]).1 == c
                    &&& r[k].0 == row
                    &&& r[k].0 < self@.grid.h
                    &&& r[k].1 < self@.grid.w
                    &&& r[k].2@.grid == self@.grid.after_play(c)
                    &&& r[k].2@.map == updated(self@.map, self@.grid.after_play(c), row, c)
                    &&& r[k].2@.wf()
                    &&& r[k].2@.grid.cell(row, c) != 0
                    &&& r[k].2@ == child_node(self@, k)
                },
    {
        let legal = self.grid.legal_moves();
        let mut children: Vec<(usize, usize, Node)> = Vec::new();
        let mut k: usize = 0;
        proof {
            crate::grid::lemma_open_columns(self@.grid);
        }
        while k < legal.len()
            invariant
                self@.wf(),
                legal@ == self@.grid.open_columns(),
                k <= legal.len(),
                children.len() == k,
                forall|k: int|
                    0 <= k < self@.grid.open_columns().len() ==> {
                        let c = #[trigger] self@.grid.open_columns()[k] as int;
                        0 <= c < self@.grid.w && self@.grid.column_open(c)
                    },
                forall|m: int|
                    0 <= m < k ==> {
                        let c = self@.grid.open_columns()[m] as int;
                        let row = self@.grid.landing_row(c);
                        &&& (#[trigger] children[m]).1 == c
                        &&& children[m].0 == row
                        &&& children[m].0 < self@.grid.h
                        &&& children[m].1 < self@.grid.w
                        &&& children[m].2@.grid == self@.grid.after_play(c)
                        &&& children[m].2@.map == updated(self@.map, self@.grid.after_play(c), row, c)
                        &&& children[m].2@.wf()
                        &&& children[m].2@.grid.cell(row, c) != 0
                        &&& children[m].2@ == child_node(self@, m)
                    },
            decreases legal.len() - k,
        {
            let col = legal[k];
            let ghost g = self@.grid;
            proof {
                assert(g.column_open(col as int));
                crate::grid::lemma_landing(g, col as int);
                crate::grid::lemma_after_play_wf(g, col as int);
                crate::grid::lemma_after_play_plain(g, col as int);
            }
            let mut child = self.clone();
            let row = child.grid.play(col);
            proof {
                assert(child@.grid.turn == g.turn + 1);
            }
            child.threat_map.update_with(row, col, &child.grid);
            proof {
                assert(child@.wf());
                assert(child@.grid.cell(row as int, col as int) != 0);
                assert(child@.map == updated(self@.map, g.after_play(col as int), row as int, col as int));
            }
            children.push((row, col, child));
            k = k + 1;
        }
        children
    }

    /// Depth-limited minimax value of the node for `protagonist`, with
    /// alpha-beta pruning and a transposition cache keyed by board hash.
    /// `(row, col)` is the cell of the last disc played. A cache entry for the
    /// board is consulted first: an exact value is returned at once, a bound
    /// tightens the window and ends the search when it closes it. A win by
    /// the last disc scores `WIN` for the protagonist and `-WIN` against; at
    /// depth 0 the heuristic decides; a full board is a draw (0); otherwise
    /// the children are searched, maximising on the protagonist's turn and
    /// minimising on the opponent's. The value is cached, as a bound when a
    /// cutoff cut the search short.
    pub fn get_value_alpha_beta(
        &self,
        depth: u8,
        protagonist: u8,
        row: usize,
        col: usize,
        parent_alpha: i64,
        parent_beta: i64,
        cache: &mut HashMap<u64, (i64, Bound)>,
    ) -> (v: i64)
        requires
            self@.wf(),
            self@.grid.in_bounds(row as int, col as int),
            self@.grid.h % 2 == 0,
            protagonist == 1 || protagonist == 2,
        ensures
            (v as int, final(cache)@) == search_value(
                self@,
                depth as int,
                protagonist,
                row as int,
                col as int,
                parent_alpha as int,
                parent_beta as int,
                old(cache)@,
            ),
            final(cache)@.contains_key(board_hash(self@.grid)),
            final(cache)@[board_hash(self@.grid)].0 == v,
            depth == 0 ==> final(cache)@.dom() == old(cache)@.dom().insert(board_hash(self@.grid)),
            old(cache)@.contains_key(board_hash(self@.grid)) && old(cache)@[board_hash(
                self@.grid,
            )].1 == Bound::Exact ==> v == old(cache)@[board_hash(self@.grid)].0,
            !old(cache)@.contains_key(board_hash(self@.grid)) ==> {
                let w = self@.grid.fast_win(row as int, col as int);
                &&& w != 0 && w == protagonist ==> v == WIN
                &&& w != 0 && w != protagonist ==> v == -WIN
                &&& w == 0 && depth == 0 ==> v == heuristic_value(self@.map, protagonist)
                &&& w == 0 && depth > 0 && self@.grid.open_columns().len() == 0 ==> v == 0
            },
        decreases depth,
    {
        let mut alpha = parent_alpha;
        let mut beta = parent_beta;

        // A value cached for this board
        let key = self.grid.content_hash();
        match cache.get(&key) {
            Some(entry) => {
                let (stored, kind) = *entry;
                match kind {
                    Bound::Lower => {
                        if stored > alpha {
                            alpha = stored;
                        }
                    },
                    Bound::Exact => {
                        return stored;
                    },
                    Bound::Upper => {
                        if stored < beta {
                            beta = stored;
                        }
                    },
                }
                if alpha >= beta {
                    return stored;
                }
            },
            None => {},
        }

        let mut kind = Bound::Exact;
        let mut value: i64;
        let winner = self.grid.win_fast(row, col);
        if winner == 0 {
            if depth == 0 {
                // Depth limit reached
                value = self.heuristic(protagonist);
            } else if self.grid.n_legal() == 0 {
                // Game over: a draw
                value = 0;
            } else if self.grid.player_to_move() == protagonist {
                // The protagonist's turn: keep the largest value
                value = i64::MIN;
                let children = self.create_children();
                let ghost (a0, b0, c0) = (alpha as int, beta as int, cache@);
                let mut k: usize = 0;
                while k < children.len()
                    invariant_except_break
                        kind == Bound::Exact,
                        search_children(
                            self@,
                            depth as int,
                            protagonist,
                            k as int,
                            value as int,
                            alpha as int,
                            beta as int,
                            cache@,
                            true,
                        ) == search_children(self@, depth as int, protagonist, 0, i64::MIN as int, a0, b0, c0, true),
                    invariant
                        kind == Bound::Exact || kind == Bound::Lower,
                        self@.wf(),
                        depth > 0,
                        self@.grid.h % 2 == 0,
                        protagonist == 1 || protagonist == 2,
                        k <= children.len(),
                        children.len() == self@.grid.open_columns().len(),
                        forall|m: int|
                            0 <= m < children.len() ==> {
                                let c = self@.grid.open_columns()[m] as int;
                                &&& (#[trigger] children[m]).2@.wf()
                                &&& children[m].2@.grid.in_bounds(children[m].0 as int, children[m].1 as int)
                                &&& children[m].2@.grid.h == self@.grid.h
                                &&& children[m].1 == c
                                &&& children[m].0 == self@.grid.landing_row(c)
                                &&& children[m].2@ == child_node(self@, m)
                            },
                    ensures
                        search_children(self@, depth as int, protagonist, 0, i64::MIN as int, a0, b0, c0, true)
                            == (value as int, alpha as int, beta as int, cache@, kind == Bound::Lower),
                    decreases children.len() - k,
                {
                    let child_value = children[k].2.get_value_alpha_beta(
                        depth - 1,
                        protagonist,
                        children[k].0,
                        children[k].1,
                        alpha,
                        beta,
                        cache,
                    );
                    if child_value > value {
                        value = child_value;
                    }
                    if value > alpha {
                        alpha = value;
                    }
                    if beta <= alpha {
                        // Beta cutoff
                        kind = Bound::Lower;
                        break;
                    }
                    k = k + 1;
                }
            } else {
                // The opponent's turn: keep the smallest value
                value = i64::MAX;
                let children = self.create_children();
                let ghost (a0, b0, c0) = (alpha as int, beta as int, cache@);
                let mut k: usize = 0;
                while k < children.len()
                    invariant_except_break
                        kind == Bound::Exact,
                        search_children(
                            self@,
                            depth as int,
                            protagonist,
                            k as int,
                            value as int,
                            alpha as int,
                            beta as int,
                            cache@,
                            false,
                        ) == search_children(self@, depth as int, protagonist, 0, i64::MAX as int, a0, b0, c0, false),
                    invariant
                        kind == Bound::Exact || kind == Bound::Upper,
                        self@.wf(),
                        depth > 0,
                        self@.grid.h % 2 == 0,
                        protagonist == 1 || protagonist == 2,
                        k <= children.len(),
                        children.len() == self@.grid.open_columns().len(),
                        forall|m: int|
                            0 <= m < children.len() ==> {
                                let c = self@.grid.open_columns()[m] as int;
                                &&& (#[trigger] children[m]).2@.wf()
                                &&& children[m].2@.grid.in_bounds(children[m].0 as int, children[m].1 as int)
                                &&& children[m].2@.grid.h == self@.grid.h
                                &&& children[m].1 == c
                                &&& children[m].0 == self@.grid.landing_row(c)
                                &&& children[m].2@ == child_node(self@, m)
                            },
                    ensures
                        search_children(self@, depth as int, protagonist, 0, i64::MAX as int, a0, b0, c0, false)
                            == (value as int, alpha as int, beta as int, cache@, kind == Bound::Upper),
                    decreases children.len() - k,
                {
                    let child_value = children[k].2.get_value_alpha_beta(
                        depth - 1,
                        protagonist,
                        children[k].0,
                        children[k].1,
                        alpha,
                        beta,
                        cache,
                    );
                    if child_value < value {
                        value = child_value;
                    }
                    if value < beta {
                        beta = value;
                    }
                    if beta <= alpha {
                        // Alpha cutoff
                        kind = Bound::Upper;
                        break;
                    }
                    k = k + 1;
                }
            }
        } else if winner == protagonist {
            value = WIN;
        } else {
            value = -WIN;
        }
        cache.insert(key, (value, kind));
        value
    }

    /// Static value of the node for `protagonist`: on each row, the squared
    /// threat counters of the player the row's parity favours, weighted by
    /// one over the row index plus one, for or against the protagonist.
    pub fn heuristic(&self, protagonist: u8) -> (r: i64)
        requires
            self@.wf(),
            self@.grid.h % 2 == 0,
        ensures
            r == heuristic_value(self@.map, protagonist),
    {
        let ghost t = self@.map;
        let h = self.grid.height();
        let w = self.grid.width();
        proof {
            assert(t.bounded(MAX_THREAT as int)) by {
                crate::grid::lemma_count_nonzero_bound(self@.grid.cells);
            }
            assert(h * w <= 255) by (nonlinear_arith)
                requires
                    h * w == t.w * t.h,
                    t.w * t.h <= 255,
            ;
        }
        let mut score: i64 = 0;
        let mut i: usize = 0;
        while i < h
            invariant
                self@.wf(),
                t == self@.map,
                t.bounded(MAX_THREAT as int),
                h == t.h,
                w == t.w,
                i <= h,
                score == heuristic_upto(t, protagonist, i as int),
            decreases h - i,
        {
            let p: u8 = (i % 2 + 1) as u8;
            let mut row: u64 = 0;
            let mut j: usize = 0;
            while j < w
                invariant
                    self@.wf(),
                    t == self@.map,
                    t.bounded(MAX_THREAT as int),
                    h == t.h,
                    w == t.w,
                    i < h,
                    j <= w,
                    p == parity_player(i as int),
                    row == row_score(t, i as int, p, j as int),
                decreases w - j,
            {
                proof {
                    lemma_row_score_bound(t, i as int, p, j as int + 1);
                    assert(w <= 255) by (nonlinear_arith)
                        requires
                            t.w * t.h <= 255,
                            1 <= t.h,
                            w == t.w,
                    ;
                }
                let a = self.threat_map.read(i, j, Shape::Horizontal, p) as u64;
                let b = self.threat_map.read(i, j, Shape::Slash, p) as u64;
                let c = self.threat_map.read(i, j, Shape::Backslash, p) as u64;
                proof {
                    crate::threat::lemma_idx(t, field(Shape::Horizontal, p), i as int, j as int);
                    crate::threat::lemma_idx(t, field(Shape::Slash, p), i as int, j as int);
                    crate::threat::lemma_idx(t, field(Shape::Backslash, p), i as int, j as int);
                    assert(a * a <= 1536 * 1536 && b * b <= 1536 * 1536 && c * c <= 1536 * 1536) by (nonlinear_arith)
                        requires
                            a <= 1536,
                            b <= 1536,
                            c <= 1536,
                    ;
                }
                row = row + a * a + b * b + c * c;
                j = j + 1;
            }
            proof {
                assert(w <= 255 && (i + 1) * w <= 255) by (nonlinear_arith)
                    requires
                        t.w * t.h <= 255,
                        1 <= t.h,
                        w == t.w,
                        i < t.h,
                ;
                lemma_row_score_bound(t, i as int, p, w as int);
                lemma_heuristic_bound(t, protagonist, i as int + 1);
                vstd::arithmetic::mul::lemma_mul_inequality((i + 1) * w, 255, 5101175439360);
                vstd::arithmetic::mul::lemma_mul_is_associative((i + 1) as int, w as int, 5101175439360);
                vstd::arithmetic::mul::lemma_mul_inequality(row as int, 255int * 7077888, 720720);
            }
            let term = ((row * 720720) / (i as u64 + 1)) as i64;
            proof {
                assert(SCALE as int == 720720);
                assert(term == row_term(t, i as int, protagonist) || term == -row_term(t, i as int, protagonist));
                assert(heuristic_upto(t, protagonist, i + 1) == score + row_term(t, i as int, protagonist));
            }
            if p == protagonist {
                score = score + term;
            } else {
                score = score - term;
            }
            i = i + 1;
        }
        score
    }
}

/// Picks the move for `protagonist` on `grid` by alpha-beta search to
/// `depth` plies, with one transposition cache for the whole call. Each
/// child of the root is searched to `depth - 1`; the largest value wins, and
/// among equal values the child with the larger heuristic. Returns the
/// column and its value.
pub fn analyze_alphabeta(grid: Grid, protagonist: u8, depth: u8) -> (r: (usize, i64))
    requires
        grid@.wf(),
        grid@.plain(),
        grid@.h % 2 == 0,
        depth >= 1,
        protagonist == 1 || protagonist == 2,
        grid@.open_columns().len() > 0,
    ensures
        r.0 < grid@.w,
        grid@.column_open(r.0 as int),
        hashes_distinct_within(grid@, depth as int) && can_win_now(grid@, protagonist) ==> r.1 >= WIN,
        (r.0 as int, r.1 as int) == root_choice(
            NodeModel { grid: grid@, map: initial_map(grid@) },
            depth as int,
            protagonist,
            0,
            0,
            i64::MIN as int,
            i64::MIN as int,
            Map::empty(),
        ),
        path_hashes_distinct(NodeModel { grid: grid@, map: initial_map(grid@) }, depth as int) ==> {
            let root = NodeModel { grid: grid@, map: initial_map(grid@) };
            &&& forall|k: int|
                0 <= k < grid@.open_columns().len() ==> #[trigger] root_minimax(
                    root,
                    depth as int,
                    protagonist,
                    k,
                ) <= r.1 || r.1 == i64::MAX
            &&& exists|b: int|
                0 <= b < grid@.open_columns().len() && grid@.open_columns()[b] == r.0 && fail_soft(
                    r.1 as int,
                    #[trigger] root_minimax(root, depth as int, protagonist, b),
                    i64::MIN as int,
                    i64::MAX as int,
                )
        },
{
    let ghost g = grid@;
    let root_node = Node::new(grid);
    let mut cache: HashMap<u64, (i64, Bound)> = HashMap::new();
    let children = root_node.create_children();
    let mut best_col: usize = 0;
    let mut best_value: i64 = i64::MIN;
    let mut best_immediate_value: i64 = i64::MIN;
    let mut k: usize = 0;
    proof {
        crate::grid::lemma_open_columns(g);
    }
    while k < children.len()
        invariant
            root_node@.wf(),
            root_node@.grid == g,
            g.h % 2 == 0,
            depth >= 1,
            protagonist == 1 || protagonist == 2,
            children.len() == g.open_columns().len(),
            children.len() > 0,
            k <= children.len(),
            forall|m: int|
                0 <= m < children.len() ==> {
                    let c = g.open_columns()[m] as int;
                    let row = g.landing_row(c);
                    &&& (#[trigger] children[m]).1 == c
                    &&& children[m].0 == row
                    &&& children[m].0 < g.h
                    &&& children[m].1 < g.w
                    &&& children[m].2@.grid == g.after_play(c)
                    &&& children[m].2@.wf()
                },
            forall|m: int|
                0 <= m < g.open_columns().len() ==> {
                    let c = #[trigger] g.open_columns()[m] as int;
                    0 <= c < g.w && g.column_open(c)
                },
            k > 0 ==> best_col < g.w && g.column_open(best_col as int),
            root_choice(
                root_node@,
                depth as int,
                protagonist,
                k as int,
                best_col as int,
                best_value as int,
                best_immediate_value as int,
                cache@,
            ) == root_choice(
                root_node@,
                depth as int,
                protagonist,
                0,
                0,
                i64::MIN as int,
                i64::MIN as int,
                Map::empty(),
            ),
            forall|m: int| 0 <= m < children.len() ==> (#[trigger] children[m]).2@ == child_node(root_node@, m),
            forall|key: u64|
                #[trigger] cache@.contains_key(key) ==> exists|m: int, b: GridModel|
                    0 <= m < k && #[trigger] reachable(children[m].2@.grid, b, depth - 1) && key
                        == board_hash(b),
            forall|m: int|
                0 <= m < k && #[trigger] wins_at(g, g.open_columns()[m] as int, protagonist)
                    && hashes_distinct_within(g, depth as int) ==> best_value >= WIN,
            path_hashes_distinct(root_node@, depth as int) ==> forall|key: u64|
                #[trigger] cache@.contains_key(key) ==> exists|j: int|
                    0 <= j < k && #[trigger] within_hash(child_node(root_node@, j), depth - 1, key),
            path_hashes_distinct(root_node@, depth as int) ==> forall|j: int|
                0 <= j < k ==> #[trigger] root_minimax(root_node@, depth as int, protagonist, j)
                    <= best_value || best_value == i64::MAX,
            path_hashes_distinct(root_node@, depth as int) && k > 0 ==> exists|b: int|
                0 <= b < k && g.open_columns()[b] == best_col && fail_soft(
                    best_value as int,
                    #[trigger] root_minimax(root_node@, depth as int, protagonist, b),
                    i64::MIN as int,
                    i64::MAX as int,
                ),
        decreases children.len() - k,
    {
        let row = children[k].0;
        let col = children[k].1;
        let ghost before = cache@;
        let child_value = children[k].2.get_value_alpha_beta(
            depth - 1,
            protagonist,
            row,
            col,
            i64::MIN,
            i64::MAX,
            &mut cache,
        );
        proof {
            let ck = children[k as int].2@.grid;
            if hashes_distinct_within(g, depth as int) {
                let key = board_hash(ck);
                if before.contains_key(key) {
                    let (m, b) = choose|m: int, b: GridModel|
                        0 <= m < k && #[trigger] reachable(children[m].2@.grid, b, depth - 1) && key
                            == board_hash(b);
                    let cm = children[m].2@.grid;
                    assert(reachable(g, b, depth as int)) by {
                        assert(0 <= m < g.open_columns().len() && reachable(
                            g.after_play(g.open_columns()[m] as int),
                            b,
                            depth - 1,
                        ));
                    }
                    assert(reachable(g, ck, depth as int)) by {
                        assert(reachable(ck, ck, depth - 1));
                        assert(0 <= k < g.open_columns().len() && reachable(
                            g.after_play(g.open_columns()[k as int] as int),
                            ck,
                            depth - 1,
                        ));
                    }
                    assert(b == ck);
                    crate::grid::lemma_after_play_wf(g, g.open_columns()[m] as int);
                    crate::grid::lemma_after_play_wf(g, g.open_columns()[k as int] as int);
                    lemma_reachable_turn(cm, b, depth - 1);
                    lemma_children_differ(g, m, k as int);
                }
            }
            lemma_search_keys(
                children[k as int].2@,
                depth - 1,
                protagonist,
                row as int,
                col as int,
                i64::MIN as int,
                i64::MAX as int,
                before,
            );
            assert forall|key: u64| #[trigger] cache@.contains_key(key) implies exists|m: int, b: GridModel|
                0 <= m < k + 1 && #[trigger] reachable(children[m].2@.grid, b, depth - 1) && key
                    == board_hash(b) by {
                if !before.contains_key(key) {
                    let b = choose|b: GridModel| reachable(ck, b, depth - 1) && key == board_hash(b);
                    assert(reachable(children[k as int].2@.grid, b, depth - 1));
                } else {
                    let (m, b) = choose|m: int, b: GridModel|
                        0 <= m < k && #[trigger] reachable(children[m].2@.grid, b, depth - 1) && key
                            == board_hash(b);
                    assert(reachable(children[m].2@.grid, b, depth - 1));
                }
            }
        }
        let ghost root = root_node@;
        let ghost hyp = path_hashes_distinct(root, depth as int);
        proof {
            if hyp {
                let child = child_node(root, k as int);
                lemma_child_distinct(root, depth as int, k as int);
                assert forall|key: u64| #[trigger] within_hash(child, depth - 1, key) implies !before.contains_key(
                    key,
                ) by {
                    if before.contains_key(key) {
                        let j = choose|j: int|
                            0 <= j < k && #[trigger] within_hash(child_node(root, j), depth - 1, key);
                        lemma_children_apart(root, depth as int, j, k as int, key);
                    }
                }
                let (lo, hi) = (i64::MIN as int, i64::MAX as int);
                law_cache_transparent(child, depth - 1, protagonist, row as int, col as int, lo, hi, before);
                law_cached_search_fail_soft(
                    child,
                    depth - 1,
                    protagonist,
                    row as int,
                    col as int,
                    lo,
                    hi,
                    before,
                );
                let mk = root_minimax(root, depth as int, protagonist, k as int);
                assert(fail_soft(child_value as int, mk, lo, hi));
                assert forall|key: u64| #[trigger] cache@.contains_key(key) implies exists|j: int|
                    0 <= j < k + 1 && #[trigger] within_hash(child_node(root, j), depth - 1, key) by {
                    if !before.contains_key(key) {
                        assert(within_hash(child_node(root, k as int), depth - 1, key));
                    } else {
                        let j = choose|j: int|
                            0 <= j < k && #[trigger] within_hash(child_node(root, j), depth - 1, key);
                        assert(within_hash(child_node(root, j), depth - 1, key));
                    }
                }
            }
        }
        let ghost old_best = best_value;
        let ghost old_col = best_col;
        let child_immediate_value = children[k].2.heuristic(protagonist);
        if k == 0 || child_value > best_value || (child_value == best_value && child_immediate_value
            > best_immediate_value) {
            best_immediate_value = child_immediate_value;
            best_value = child_value;
            best_col = col;
        }
        proof {
            assert(child_value <= best_value);
            if hyp {
                assert forall|j: int| 0 <= j < k + 1 implies #[trigger] root_minimax(root, depth as int, protagonist, j)
                    <= best_value || best_value == i64::MAX by {
                    if j < k {
                        assert(root_minimax(root, depth as int, protagonist, j) <= old_best || old_best == i64::MAX);
                    }
                }
                if best_value == child_value && best_col == col {
                    let mk = root_minimax(root, depth as int, protagonist, k as int);
                    assert(fail_soft(best_value as int, mk, i64::MIN as int, i64::MAX as int));
                } else {
                    let b = choose|b: int|
                        0 <= b < k && g.open_columns()[b] == old_col && fail_soft(
                            old_best as int,
                            #[trigger] root_minimax(root, depth as int, protagonist, b),
                            i64::MIN as int,
                            i64::MAX as int,
                        );
                    let mb = root_minimax(root, depth as int, protagonist, b);
                    assert(fail_soft(best_value as int, mb, i64::MIN as int, i64::MAX as int));
                }
            }
        }
        k = k + 1;
    }
    (best_col, best_value)
}

} // verus!
