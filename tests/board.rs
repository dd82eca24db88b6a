use terminal_con4::Grid;

fn play_all(grid: &mut Grid, moves: &[usize]) {
    for &c in moves {
        grid.play(c);
    }
}

#[test]
fn new_board_is_empty() {
    let grid = Grid::new(4, 7, 6);
    assert_eq!(grid.width(), 7);
    assert_eq!(grid.height(), 6);
    assert_eq!(grid.turn(), 0);
    assert_eq!(grid.player_to_move(), 1);
    assert_eq!(grid.legal_moves(), vec![0, 1, 2, 3, 4, 5, 6]);
    assert_eq!(grid.n_legal(), 7);
    for i in 0..6 {
        for j in 0..7 {
            assert_eq!(grid.read(i, j), 0);
        }
    }
}

#[test]
fn discs_stack_and_players_alternate() {
    let mut grid = Grid::new(4, 7, 6);
    assert_eq!(grid.play(3), 0);
    assert_eq!(grid.play(3), 1);
    assert_eq!(grid.play(2), 0);
    assert_eq!(grid.read(0, 3), 1);
    assert_eq!(grid.read(1, 3), 2);
    assert_eq!(grid.read(0, 2), 1);
    assert_eq!(grid.turn(), 3);
    assert_eq!(grid.player_to_move(), 2);
}

#[test]
fn full_column_is_refused_without_change() {
    let mut grid = Grid::new(3, 3, 2);
    assert_eq!(grid.play(0), 0);
    assert_eq!(grid.play(0), 1);
    let before = grid.clone();
    assert_eq!(grid.play(0), 2);
    assert_eq!(grid.turn(), 2);
    assert_eq!(grid.player_to_move(), before.player_to_move());
    for i in 0..2 {
        for j in 0..3 {
            assert_eq!(grid.read(i, j), before.read(i, j));
        }
    }
    assert_eq!(grid.legal_moves(), vec![1, 2]);
    assert_eq!(grid.n_legal(), 2);
}

#[test]
fn legal_moves_count_open_tops() {
    let mut grid = Grid::new(2, 4, 2);
    play_all(&mut grid, &[1, 1, 3, 3]);
    assert_eq!(grid.legal_moves(), vec![0, 2]);
    assert_eq!(grid.n_legal(), 2);
    play_all(&mut grid, &[0, 0, 2, 2]);
    assert_eq!(grid.legal_moves(), Vec::<usize>::new());
    assert_eq!(grid.n_legal(), 0);
}

#[test]
fn win_fast_finds_horizontal_line() {
    let mut grid = Grid::new(4, 7, 6);
    // Player 1 on row 0 at columns 0..=2, player 2 on top of them.
    play_all(&mut grid, &[0, 0, 1, 1, 2, 2]);
    assert_eq!(grid.win_fast(0, 2), 0);
    let row = grid.play(3);
    assert_eq!(row, 0);
    assert_eq!(grid.win_fast(0, 3), 1);
    assert_eq!(grid.win_fast(0, 0), 1);
    assert_eq!(grid.win_fast(1, 1), 0);
}

#[test]
fn win_fast_finds_vertical_line() {
    let mut grid = Grid::new(4, 7, 6);
    play_all(&mut grid, &[5, 0, 5, 1, 5, 2]);
    assert_eq!(grid.win_fast(2, 5), 0);
    let row = grid.play(5);
    assert_eq!(row, 3);
    assert_eq!(grid.win_fast(3, 5), 1);
}

#[test]
fn win_fast_finds_diagonal_lines() {
    // "/" for player 1: (0,0), (1,1), (2,2), (3,3)
    let mut grid = Grid::new(4, 7, 6);
    play_all(&mut grid, &[0, 1, 1, 2, 2, 3, 2, 3, 3, 6]);
    assert_eq!(grid.win_fast(2, 2), 0);
    let row = grid.play(3);
    assert_eq!(row, 3);
    assert_eq!(grid.win_fast(3, 3), 1);
    assert_eq!(grid.win_fast(1, 1), 1);
    // "\" for player 1: (0,6), (1,5), (2,4), (3,3)
    let mut grid = Grid::new(4, 7, 6);
    play_all(&mut grid, &[6, 5, 5, 4, 4, 3, 4, 3, 3, 0]);
    let row = grid.play(3);
    assert_eq!(row, 3);
    assert_eq!(grid.win_fast(3, 3), 1);
    assert_eq!(grid.win_fast(0, 6), 1);
}

#[test]
fn win_fast_on_player_two() {
    let mut grid = Grid::new(3, 5, 4);
    play_all(&mut grid, &[0, 4, 0, 4, 1]);
    let row = grid.play(4);
    assert_eq!(row, 2);
    assert_eq!(grid.win_fast(2, 4), 2);
}

#[test]
fn win_fast_agrees_with_full_scan_after_each_move() {
    let moves = [3, 3, 4, 2, 5, 6, 2, 4, 4, 5, 5, 1, 5, 0, 6, 6, 1, 0, 0, 1];
    let mut grid = Grid::new(4, 7, 6);
    for &c in &moves {
        let row = grid.play(c);
        let fast = grid.win_fast(row, c);
        let mut scanned = grid.clone();
        let full = scanned.win_highlight();
        if fast != 0 {
            assert_eq!(full, fast);
            return;
        }
        assert_eq!(full, 0);
    }
}

#[test]
fn win_highlight_marks_the_line() {
    let mut grid = Grid::new(4, 7, 6);
    play_all(&mut grid, &[0, 0, 1, 1, 2, 2, 3]);
    assert_eq!(grid.win_highlight(), 1);
    for j in 0..4 {
        assert_eq!(grid.read(0, j), 10);
    }
    for j in 0..3 {
        assert_eq!(grid.read(1, j), 2);
    }
    assert_eq!(grid.turn(), 7);
}

#[test]
fn win_highlight_marks_a_diagonal_of_player_two() {
    let mut grid = Grid::new(3, 4, 4);
    // Player 2 on (0,1), (1,2), (2,3)
    play_all(&mut grid, &[0, 1, 2, 2, 3, 3, 0, 3]);
    assert_eq!(grid.win_highlight(), 2);
    assert_eq!(grid.read(0, 1), 20);
    assert_eq!(grid.read(1, 2), 20);
    assert_eq!(grid.read(2, 3), 20);
    assert_eq!(grid.read(0, 0), 1);
}

#[test]
fn win_highlight_without_line_changes_nothing() {
    let mut grid = Grid::new(4, 7, 6);
    play_all(&mut grid, &[0, 1, 2, 3, 4, 5]);
    let before = grid.clone();
    assert_eq!(grid.win_highlight(), 0);
    for i in 0..6 {
        for j in 0..7 {
            assert_eq!(grid.read(i, j), before.read(i, j));
        }
    }
}

#[test]
fn win_highlight_with_line_longer_than_board() {
    let mut grid = Grid::new(5, 4, 3);
    play_all(&mut grid, &[0, 0, 1, 1, 2, 2, 3]);
    assert_eq!(grid.win_highlight(), 0);
}

#[test]
fn content_hash_depends_on_cells_only() {
    let mut a = Grid::new(4, 7, 6);
    let mut b = Grid::new(4, 7, 6);
    play_all(&mut a, &[0, 1, 2, 3]);
    play_all(&mut b, &[2, 3, 0, 1]);
    assert_eq!(a.content_hash(), b.content_hash());
    let mut c = Grid::new(4, 7, 6);
    play_all(&mut c, &[1, 0, 2, 3]);
    assert_ne!(a.content_hash(), c.content_hash());
}

#[test]
fn next_grids_lists_every_move() {
    let mut grid = Grid::new(2, 3, 2);
    play_all(&mut grid, &[1, 1]);
    let next = grid.next_grids();
    assert_eq!(next.len(), 2);
    assert_eq!((next[0].0, next[0].1), (0, 0));
    assert_eq!((next[1].0, next[1].1), (0, 2));
    assert_eq!(next[0].2.read(0, 0), 1);
    assert_eq!(next[1].2.read(0, 2), 1);
    assert_eq!(next[1].2.turn(), 3);
}
