use std::collections::HashMap;
use terminal_con4::{
    analyze_alphabeta, analyze_bfs, first_move_value, pick_best, replay_history, Bound, Branch,
    Grid, Node, Shape, ThreatMap, RELEVANCE, SCALE, WIN,
};

fn board(l: usize, w: usize, h: usize, moves: &[usize]) -> Grid {
    let mut grid = Grid::new(l, w, h);
    for &c in moves {
        grid.play(c);
    }
    grid
}

#[test]
fn fresh_threat_map_reads_one_everywhere() {
    let grid = Grid::new(4, 7, 6);
    let map = ThreatMap::new(&grid);
    for i in 0..6 {
        for j in 0..7 {
            for s in [Shape::Horizontal, Shape::Slash, Shape::Backslash] {
                assert_eq!(map.read(i, j, s, 1), 1);
                assert_eq!(map.read(i, j, s, 2), 1);
            }
        }
    }
}

#[test]
fn update_after_first_move_in_the_middle() {
    let mut grid = Grid::new(4, 7, 6);
    let mut map = ThreatMap::new(&grid);
    let row = grid.play(3);
    map.update_with(row, 3, &grid);
    // Horizontal: the placing player's counters grow on both sides, its own
    // cell drops to 0; the walls close the whole row to the opponent.
    assert_eq!(map.read(0, 3, Shape::Horizontal, 1), 0);
    for j in [0, 1, 2, 4, 5, 6] {
        assert_eq!(map.read(0, j, Shape::Horizontal, 1), 2);
    }
    for j in 0..7 {
        assert_eq!(map.read(0, j, Shape::Horizontal, 2), 0);
    }
    assert_eq!(map.read(1, 3, Shape::Horizontal, 1), 1);
    assert_eq!(map.read(1, 3, Shape::Horizontal, 2), 1);
    // Diagonal "/": up-right grows for player 1 and closes for player 2.
    assert_eq!(map.read(0, 3, Shape::Slash, 1), 0);
    assert_eq!(map.read(0, 3, Shape::Slash, 2), 0);
    for k in 1..4 {
        assert_eq!(map.read(k, 3 + k, Shape::Slash, 1), 2);
        assert_eq!(map.read(k, 3 + k, Shape::Slash, 2), 0);
    }
    assert_eq!(map.read(1, 2, Shape::Slash, 1), 1);
    // Diagonal "\": up-left likewise.
    for k in 1..4 {
        assert_eq!(map.read(k, 3 - k, Shape::Backslash, 1), 2);
        assert_eq!(map.read(k, 3 - k, Shape::Backslash, 2), 0);
    }
    assert_eq!(map.read(1, 4, Shape::Backslash, 1), 1);
}

#[test]
fn opponent_disc_stops_the_walk() {
    let mut grid = Grid::new(4, 7, 6);
    let mut map = ThreatMap::new(&grid);
    for &c in &[5, 3] {
        let row = grid.play(c);
        map.update_with(row, c, &grid);
    }
    // Player 2 at (0,3): rightward it meets player 1 at (0,5) and stops;
    // (0,6) was closed to player 2 by player 1's disc.
    assert_eq!(map.read(0, 4, Shape::Horizontal, 2), 2);
    assert_eq!(map.read(0, 6, Shape::Horizontal, 2), 0);
    // Leftward it reaches the wall: cells 0..=2 grow for player 2.
    for j in 0..3 {
        assert_eq!(map.read(0, j, Shape::Horizontal, 2), 2);
    }
    // The opponent of player 2 is closed on the enclosed span 0..=3.
    for j in 0..4 {
        assert_eq!(map.read(0, j, Shape::Horizontal, 1), 0);
    }
    assert_eq!(map.read(0, 4, Shape::Horizontal, 1), 2);
}

#[test]
fn replayed_map_matches_incremental_map() {
    let moves = vec![3, 3, 4, 2, 2, 5, 1, 4, 4, 0];
    let (grid, replayed) = replay_history(4, 7, 6, &moves);
    let mut node = Node::new(Grid::new(4, 7, 6));
    for &c in &moves {
        let children = node.create_children();
        let (_, _, child) = children.into_iter().find(|(_, col, _)| *col == c).unwrap();
        node = child;
    }
    for i in 0..6 {
        for j in 0..7 {
            assert_eq!(grid.read(i, j), node.grid().read(i, j));
            for s in [Shape::Horizontal, Shape::Slash, Shape::Backslash] {
                for p in [1, 2] {
                    assert_eq!(replayed.read(i, j, s, p), node.threat_map().read(i, j, s, p));
                }
            }
        }
    }
}

#[test]
fn heuristic_of_fresh_map() {
    let node = Node::new(Grid::new(4, 7, 6));
    // Each row scores 7 cells * 3 shapes * 1 = 21, weighted by 1/(i+1),
    // for player 1 on even rows and player 2 on odd rows.
    let expected: i64 = 15135120 - 7567560 + 5045040 - 3783780 + 3027024 - 2522520;
    assert_eq!(node.heuristic(1), expected);
    assert_eq!(node.heuristic(2), -expected);
    assert_eq!(SCALE * 21, 15135120);
}

#[test]
fn search_scores_a_won_position() {
    let grid = board(4, 7, 6, &[0, 0, 1, 1, 2, 2, 3]);
    let node = Node::new(grid);
    let mut cache: HashMap<u64, (i64, Bound)> = HashMap::new();
    let v = node.get_value_alpha_beta(3, 1, 0, 3, i64::MIN, i64::MAX, &mut cache);
    assert_eq!(v, WIN);
    let mut cache: HashMap<u64, (i64, Bound)> = HashMap::new();
    let v = node.get_value_alpha_beta(3, 2, 0, 3, i64::MIN, i64::MAX, &mut cache);
    assert_eq!(v, -WIN);
    assert_eq!(cache.len(), 1);
}

#[test]
fn search_at_depth_zero_is_the_heuristic() {
    let grid = board(4, 7, 6, &[3]);
    let node = Node::new(grid);
    let h = node.heuristic(2);
    let mut cache: HashMap<u64, (i64, Bound)> = HashMap::new();
    let v = node.get_value_alpha_beta(0, 2, 0, 3, i64::MIN, i64::MAX, &mut cache);
    assert_eq!(v, h);
    assert_eq!(cache.get(&node.grid().content_hash()), Some(&(h, Bound::Exact)));
}

#[test]
fn search_returns_an_exact_cached_value() {
    let grid = board(4, 7, 6, &[3]);
    let node = Node::new(grid);
    let mut cache: HashMap<u64, (i64, Bound)> = HashMap::new();
    cache.insert(node.grid().content_hash(), (42, Bound::Exact));
    let v = node.get_value_alpha_beta(2, 1, 0, 3, i64::MIN, i64::MAX, &mut cache);
    assert_eq!(v, 42);
}

#[test]
fn search_of_a_full_board_is_a_draw() {
    // A 2x2 board with win length 3 can never be won.
    let grid = board(3, 2, 2, &[0, 1, 0, 1]);
    let node = Node::new(grid);
    let mut cache: HashMap<u64, (i64, Bound)> = HashMap::new();
    let v = node.get_value_alpha_beta(2, 1, 1, 1, i64::MIN, i64::MAX, &mut cache);
    assert_eq!(v, 0);
}

#[test]
fn alphabeta_takes_the_winning_column() {
    // Player 1 on row 0 at columns 0..=2, player 1 to move.
    let grid = board(4, 7, 6, &[0, 0, 1, 1, 2, 2]);
    let (col, value) = analyze_alphabeta(grid, 1, 1);
    assert_eq!(col, 3);
    assert!(value >= WIN);
}

#[test]
fn alphabeta_takes_the_winning_column_deeper() {
    let grid = board(4, 7, 6, &[0, 0, 1, 1, 2, 2]);
    let (col, value) = analyze_alphabeta(grid, 1, 3);
    assert_eq!(col, 3);
    assert!(value >= WIN);
}

#[test]
fn alphabeta_blocks_the_opponent() {
    // Player 2 threatens row 0 at columns 4..=6; player 1 must block at 3.
    let grid = board(4, 7, 6, &[0, 4, 0, 5, 1, 6]);
    let (col, _) = analyze_alphabeta(grid, 1, 2);
    assert_eq!(col, 3);
}

#[test]
fn empty_board_moves_stay_on_the_board() {
    let grid = Grid::new(4, 7, 6);
    let (col, _) = analyze_alphabeta(grid.clone(), 1, 4);
    assert!(col < 7);
    let col = analyze_bfs(grid, 1, 4);
    assert!(col < 7);
}

#[test]
fn bfs_value_of_an_immediate_win() {
    let mut grid = board(4, 7, 6, &[0, 0, 1, 1, 2, 2]);
    let row = grid.play(3);
    assert_eq!(first_move_value(grid, row, 3, 1, 3), RELEVANCE as i64);
}

#[test]
fn bfs_value_of_a_move_that_lets_the_opponent_win() {
    let mut grid = board(4, 7, 6, &[0, 4, 0, 5, 1, 6]);
    let row = grid.play(1);
    // Player 2 then wins at column 3: one loss weighs the whole relevance.
    assert_eq!(first_move_value(grid, row, 1, 1, 2), -(RELEVANCE as i64));
    let mut grid = board(4, 7, 6, &[0, 4, 0, 5, 1, 6]);
    let row = grid.play(3);
    assert_eq!(first_move_value(grid, row, 3, 1, 2), 0);
}

#[test]
fn bfs_blocks_the_opponent() {
    let grid = board(4, 7, 6, &[0, 4, 0, 5, 1, 6]);
    assert_eq!(analyze_bfs(grid, 1, 2), 3);
}

#[test]
fn bfs_score_divides_relevance_by_branching() {
    // On a 3x1 board with win length 2, player 1 at column 0 and player 2
    // to move: replies at 1 and 2 carry relevance R/2 each. After player 2
    // at 2, player 1's only move, column 1, makes a line of two.
    let mut grid = Grid::new(2, 3, 1);
    grid.play(0);
    let mut branch = Branch::new(grid, 4);
    branch.bfs(1, 2);
    let r = RELEVANCE as i64;
    assert_eq!(branch.score(), r / 2);
    let mut grid = Grid::new(2, 3, 1);
    grid.play(1);
    let mut branch = Branch::new(grid, 4);
    branch.bfs(2, 1);
    // Player 2 replies at column 0 or 2, each next to player 1: no line.
    assert_eq!(branch.score(), 0);
}

#[test]
fn bfs_score_counts_wins_at_the_second_ply() {
    // 4x1 board, win length 2. Root: player 1 at column 0; player 2 to move.
    let mut grid = Grid::new(2, 4, 1);
    grid.play(0);
    let mut branch = Branch::new(grid, 4);
    branch.bfs(1, 2);
    // Player 2 replies at 1, 2 or 3 (relevance R/3 each). After 2: player 1
    // may take 1 (wins, + (R/3)/2) or 3. After 3: player 1 takes 1 (wins,
    // + (R/3)/2) or 2. After 1: player 1 takes 2 or 3, no win.
    let r = RELEVANCE as i64;
    assert_eq!(branch.score(), 2 * ((r / 3) / 2));
}

#[test]
fn pick_best_takes_the_last_of_equal_values() {
    assert_eq!(pick_best(&vec![(0, 5), (1, 7), (2, 7), (3, -1)]), 2);
    assert_eq!(pick_best(&vec![(4, -3)]), 4);
    assert_eq!(pick_best(&vec![(0, 9), (1, 2)]), 0);
}

#[test]
fn transposed_histories_reach_one_board_with_different_maps() {
    // The same board reached by two move orders: the threat map depends on
    // the order, so a cached value of one order stands in for the other.
    let (a, map_a) = replay_history(4, 7, 6, &vec![0, 1, 2]);
    let (b, map_b) = replay_history(4, 7, 6, &vec![2, 1, 0]);
    assert_eq!(a.content_hash(), b.content_hash());
    for j in 0..7 {
        assert_eq!(a.read(0, j), b.read(0, j));
    }
    assert_eq!(map_a.read(0, 3, Shape::Horizontal, 1), 3);
    assert_eq!(map_b.read(0, 3, Shape::Horizontal, 1), 2);
}

#[test]
fn cached_value_of_a_transposition_differs_from_its_own() {
    let mut node = Node::new(Grid::new(4, 7, 6));
    for &c in &[0, 1, 2] {
        let children = node.create_children();
        node = children.into_iter().find(|(_, col, _)| *col == c).unwrap().2;
    }
    let mut other = Node::new(Grid::new(4, 7, 6));
    for &c in &[2, 1, 0] {
        let children = other.create_children();
        other = children.into_iter().find(|(_, col, _)| *col == c).unwrap().2;
    }
    let mut cache: HashMap<u64, (i64, Bound)> = HashMap::new();
    let first = node.get_value_alpha_beta(0, 1, 0, 2, i64::MIN, i64::MAX, &mut cache);
    let with_cache = other.get_value_alpha_beta(0, 1, 0, 0, i64::MIN, i64::MAX, &mut cache);
    let mut fresh: HashMap<u64, (i64, Bound)> = HashMap::new();
    let without_cache = other.get_value_alpha_beta(0, 1, 0, 0, i64::MIN, i64::MAX, &mut fresh);
    assert_eq!(with_cache, first);
    assert_ne!(with_cache, without_cache);
}

#[test]
fn occupied_cells_read_zero() {
    let moves = vec![3, 3, 4, 2, 2, 5, 1, 4, 4, 0, 6, 6];
    let (grid, map) = replay_history(4, 7, 6, &moves);
    let mut occupied = 0;
    for i in 0..6 {
        for j in 0..7 {
            if grid.read(i, j) != 0 {
                occupied += 1;
                for s in [Shape::Horizontal, Shape::Slash, Shape::Backslash] {
                    assert_eq!(map.read(i, j, s, 1), 0);
                    assert_eq!(map.read(i, j, s, 2), 0);
                }
            }
        }
    }
    assert_eq!(occupied, moves.len());
}

#[test]
fn map_of_a_mid_game_board_is_zero_on_discs() {
    let grid = board(4, 7, 6, &[3, 3, 4, 2]);
    let map = ThreatMap::new(&grid);
    for i in 0..6 {
        for j in 0..7 {
            let want = if grid.read(i, j) != 0 { 0 } else { 1 };
            for s in [Shape::Horizontal, Shape::Slash, Shape::Backslash] {
                assert_eq!(map.read(i, j, s, 1), want);
                assert_eq!(map.read(i, j, s, 2), want);
            }
        }
    }
    assert_eq!(map.read(1, 3, Shape::Horizontal, 1), 0);
    assert_eq!(map.read(2, 3, Shape::Slash, 2), 1);
}

#[test]
fn bfs_adds_to_the_score_it_has() {
    let mut grid = Grid::new(2, 4, 1);
    grid.play(0);
    let mut branch = Branch::new(grid, 4);
    branch.bfs(1, 2);
    let once = branch.score();
    branch.bfs(1, 2);
    assert_eq!(branch.score(), 2 * once);
    let r = RELEVANCE as i64;
    assert_eq!(once, 2 * ((r / 3) / 2));
}
