use connect_four::board::{Board, BoardState, Coord, GameResult, ICoord, Move, WinningLine};
use connect_four::player::Player;

fn mv(x: u32, y: u32, player: Player) -> Move {
    Move { pos: Coord { x, y }, player }
}

/// Drops a piece of the player to move into column `x`.
fn drop_in(board: &mut Board, x: u32) -> Move {
    let m = mv(x, board.levels[x as usize], board.cur_player);
    assert!(board.is_valid_move(m), "move {:?} should be legal", m);
    board.do_move(m);
    m
}

/// Fills columns 0 to 5 so that nobody has four in a row and column 6 is
/// left empty, with `PlayerOne` to move.
fn six_full_columns() -> Board {
    let mut b = Board::new();
    for x in [0u32, 1] {
        for _ in 0..6 {
            drop_in(&mut b, x);
        }
    }
    drop_in(&mut b, 4);
    for _ in 0..6 {
        drop_in(&mut b, 2);
    }
    for _ in 0..6 {
        drop_in(&mut b, 3);
    }
    for _ in 0..5 {
        drop_in(&mut b, 4);
    }
    for _ in 0..6 {
        drop_in(&mut b, 5);
    }
    b
}

#[test]
fn new_board_is_empty() {
    let b = Board::new();
    assert_eq!(b.size, Coord { x: 7, y: 6 });
    assert_eq!(b.grid.len(), 42);
    assert!(b.grid.iter().all(|c| c.is_none()));
    assert_eq!(b.levels, vec![0; 7]);
    assert!(b.move_history.is_empty());
    assert_eq!(b.cur_player, Player::PlayerOne);
    assert_eq!(b.check_for_win(), None);
    assert!(!b.is_draw());
    assert_eq!(b.get_board_state(), BoardState::Playing);
}

#[test]
fn opposite_swaps_players() {
    assert_eq!(Player::PlayerOne.opposite(), Player::PlayerTwo);
    assert_eq!(Player::PlayerTwo.opposite(), Player::PlayerOne);
}

#[test]
fn positions_on_and_off_the_board() {
    let b = Board::new();
    assert!(b.valid_uvec_pos(Coord { x: 0, y: 0 }));
    assert!(b.valid_uvec_pos(Coord { x: 6, y: 5 }));
    assert!(!b.valid_uvec_pos(Coord { x: 7, y: 0 }));
    assert!(!b.valid_uvec_pos(Coord { x: 0, y: 6 }));
    assert!(b.valid_ivec_pos(ICoord { x: 3, y: 2 }));
    assert!(!b.valid_ivec_pos(ICoord { x: -1, y: 2 }));
    assert!(!b.valid_ivec_pos(ICoord { x: 3, y: -1 }));
    assert!(!b.valid_ivec_pos(ICoord { x: 7, y: 5 }));
    assert_eq!(b.get(Coord { x: 100, y: 100 }), None);
}

#[test]
fn do_move_fills_cell_and_passes_turn() {
    let mut b = Board::new();
    let m = mv(2, 0, Player::PlayerOne);
    b.do_move(m);
    assert_eq!(b.get(Coord { x: 2, y: 0 }), Some(Player::PlayerOne));
    assert_eq!(b.grid[2], Some(Player::PlayerOne));
    assert_eq!(b.levels, vec![0, 0, 1, 0, 0, 0, 0]);
    assert_eq!(b.move_history, vec![m]);
    assert_eq!(b.cur_player, Player::PlayerTwo);
    let m2 = mv(2, 1, Player::PlayerTwo);
    b.do_move(m2);
    assert_eq!(b.grid[2 + 7], Some(Player::PlayerTwo));
    assert_eq!(b.levels[2], 2);
    assert_eq!(b.cur_player, Player::PlayerOne);
}

#[test]
fn illegal_moves_are_rejected_and_leave_board_unchanged() {
    let mut b = Board::new();
    drop_in(&mut b, 0);
    // wrong player
    let wrong_player = mv(1, 0, Player::PlayerOne);
    // wrong row for gravity
    let floating = mv(1, 3, Player::PlayerTwo);
    // occupied cell
    let occupied = mv(0, 0, Player::PlayerTwo);
    // off the board
    let outside = mv(7, 0, Player::PlayerTwo);
    for m in [wrong_player, floating, occupied, outside] {
        assert!(!b.is_valid_move(m), "{:?}", m);
        let grid = b.grid.clone();
        let levels = b.levels.clone();
        let history = b.move_history.clone();
        b.do_move(m);
        assert_eq!(b.grid, grid);
        assert_eq!(b.levels, levels);
        assert_eq!(b.move_history, history);
        assert_eq!(b.cur_player, Player::PlayerTwo);
    }
    assert!(b.is_valid_move(mv(1, 0, Player::PlayerTwo)));
}

#[test]
fn full_column_is_excluded_from_moves() {
    let mut b = Board::new();
    for _ in 0..6 {
        drop_in(&mut b, 3);
    }
    assert_eq!(b.levels[3], 6);
    let moves = b.get_moves();
    assert_eq!(moves.len(), 6);
    assert!(moves.iter().all(|m| m.pos.x != 3));
    let seventh = mv(3, 6, b.cur_player);
    assert!(!b.is_valid_move(seventh));
    b.do_move(seventh);
    assert_eq!(b.move_history.len(), 6);
    assert_eq!(b.levels[3], 6);
}

#[test]
fn get_moves_lists_column_tops_in_order() {
    let mut b = Board::new();
    drop_in(&mut b, 1);
    drop_in(&mut b, 1);
    drop_in(&mut b, 5);
    let moves = b.get_moves();
    let expected: Vec<Move> = (0..7u32)
        .map(|x| mv(x, [0, 2, 0, 0, 0, 1, 0][x as usize], Player::PlayerTwo))
        .collect();
    assert_eq!(moves, expected);
    let for_one = b.get_moves_for(Player::PlayerOne);
    assert!(for_one.iter().all(|m| m.player == Player::PlayerOne));
    assert_eq!(for_one.len(), 7);
}

#[test]
fn undo_restores_previous_board() {
    let mut b = Board::new();
    drop_in(&mut b, 2);
    drop_in(&mut b, 3);
    let grid = b.grid.clone();
    let levels = b.levels.clone();
    let history = b.move_history.clone();
    let cur = b.cur_player;
    let m = drop_in(&mut b, 3);
    assert_eq!(b.undo_move(), Some(m));
    assert_eq!(b.grid, grid);
    assert_eq!(b.levels, levels);
    assert_eq!(b.move_history, history);
    assert_eq!(b.cur_player, cur);
}

#[test]
fn undo_on_empty_history_returns_none() {
    let mut b = Board::new();
    assert_eq!(b.undo_move(), None);
    assert_eq!(b.levels, vec![0; 7]);
    assert_eq!(b.cur_player, Player::PlayerOne);
}

#[test]
fn replaying_history_reproduces_board() {
    let mut b = Board::new();
    for x in [3u32, 3, 2, 4, 4, 0, 6, 6, 6, 1] {
        drop_in(&mut b, x);
    }
    let mut replayed = Board::new();
    for &m in b.move_history.iter() {
        replayed.do_move(m);
    }
    assert_eq!(replayed.grid, b.grid);
    assert_eq!(replayed.levels, b.levels);
    assert_eq!(replayed.cur_player, b.cur_player);
    while b.undo_move().is_some() {}
    assert_eq!(b.grid, Board::new().grid);
    assert_eq!(b.levels, vec![0; 7]);
}

#[test]
fn horizontal_four_wins_spanning_the_row() {
    let mut b = Board::new();
    for (a, other) in [(0u32, 6u32), (1, 6), (2, 6)] {
        b.do_move(mv(a, 0, Player::PlayerOne));
        let y = b.levels[other as usize];
        b.do_move(mv(other, y, Player::PlayerTwo));
    }
    assert_eq!(b.check_for_win(), None);
    b.do_move(mv(3, 0, Player::PlayerOne));
    let line = WinningLine(Coord { x: 0, y: 0 }, Coord { x: 3, y: 0 });
    assert_eq!(b.check_for_win(), Some(line));
    assert_eq!(
        b.get_board_state(),
        BoardState::GameOver(GameResult::Win(Player::PlayerOne, line))
    );
}

#[test]
fn win_in_the_middle_orders_ends_by_forward_count() {
    let mut b = Board::new();
    // PlayerOne on (0,0), (1,0), (3,0), then (2,0) closes the gap
    for (a, other) in [(0u32, 6u32), (1, 6), (3, 6)] {
        b.do_move(mv(a, 0, Player::PlayerOne));
        let y = b.levels[other as usize];
        b.do_move(mv(other, y, Player::PlayerTwo));
    }
    b.do_move(mv(2, 0, Player::PlayerOne));
    // one cell forwards, two backwards: the backward end comes first
    let line = WinningLine(Coord { x: 0, y: 0 }, Coord { x: 3, y: 0 });
    assert_eq!(b.check_for_win(), Some(line));
}

#[test]
fn vertical_four_wins() {
    let mut b = Board::new();
    for _ in 0..3 {
        drop_in(&mut b, 0);
        drop_in(&mut b, 1);
    }
    drop_in(&mut b, 0);
    assert_eq!(
        b.check_for_win(),
        Some(WinningLine(Coord { x: 0, y: 0 }, Coord { x: 0, y: 3 }))
    );
}

#[test]
fn diagonal_four_wins() {
    let mut b = Board::new();
    // rising diagonal (0,0) (1,1) (2,2) (3,3) for PlayerOne
    for x in [0u32, 1, 1, 2, 2, 3, 2, 3, 3, 6] {
        drop_in(&mut b, x);
    }
    assert_eq!(b.check_for_win(), None);
    drop_in(&mut b, 3);
    assert_eq!(
        b.check_for_win(),
        Some(WinningLine(Coord { x: 0, y: 0 }, Coord { x: 3, y: 3 }))
    );
}

#[test]
fn standalone_win_check_uses_the_given_move() {
    let mut b = Board::new();
    for (a, other) in [(0u32, 6u32), (1, 6), (2, 6)] {
        b.do_move(mv(a, 0, Player::PlayerOne));
        let y = b.levels[other as usize];
        b.do_move(mv(other, y, Player::PlayerTwo));
    }
    // (3,0) would complete four for PlayerOne, not for PlayerTwo
    assert_eq!(
        b.check_win_from(mv(3, 0, Player::PlayerOne)),
        Some(WinningLine(Coord { x: 0, y: 0 }, Coord { x: 3, y: 0 }))
    );
    assert_eq!(b.check_win_from(mv(3, 0, Player::PlayerTwo)), None);
}

#[test]
fn three_in_a_row_is_no_win() {
    let mut b = Board::new();
    for x in [0u32, 0, 1, 1, 2] {
        drop_in(&mut b, x);
    }
    assert_eq!(b.check_for_win(), None);
    assert_eq!(b.get_board_state(), BoardState::Playing);
}

#[test]
fn full_board_without_line_is_a_draw() {
    let mut b = six_full_columns();
    assert!(!b.is_draw());
    for _ in 0..6 {
        drop_in(&mut b, 6);
        assert_eq!(b.check_for_win(), None);
    }
    assert!(b.is_draw());
    assert!(b.get_moves().is_empty());
    assert_eq!(b.get_board_state(), BoardState::GameOver(GameResult::Draw));
}

#[test]
fn snapshot_is_independent() {
    let mut b = Board::new();
    drop_in(&mut b, 4);
    let copy = b.snapshot();
    drop_in(&mut b, 4);
    assert_eq!(copy.move_history.len(), 1);
    assert_eq!(copy.levels[4], 1);
    assert_eq!(b.levels[4], 2);
}
