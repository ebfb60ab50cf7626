use connect_four::board::{Board, Coord, Move};
use connect_four::player::Player;
use connect_four::search::{
    branch_board, evaluate_board, evaluate_branch, evaluate_move, find_best_move, pick_best,
    shuffled_moves, SEARCH_DEPTH, WIN_SCORE,
};

fn mv(x: u32, y: u32, player: Player) -> Move {
    Move { pos: Coord { x, y }, player }
}

fn drop_in(board: &mut Board, x: u32) -> Move {
    let m = mv(x, board.levels[x as usize], board.cur_player);
    assert!(board.is_valid_move(m));
    board.do_move(m);
    m
}

/// PlayerOne holds (0,0), (1,0), (2,0) and is to move; (3,0) wins.
fn threat_board() -> (Board, Move) {
    let mut b = Board::new();
    let mut last = mv(0, 0, Player::PlayerOne);
    for x in [0u32, 0, 1, 1, 2, 6] {
        last = drop_in(&mut b, x);
    }
    (b, last)
}

/// Columns 0 to 5 full without a line; only column 6 is open, PlayerOne to move.
fn one_open_column() -> Board {
    let mut b = Board::new();
    for x in [0u32, 1] {
        for _ in 0..6 {
            drop_in(&mut b, x);
        }
    }
    drop_in(&mut b, 4);
    for x in [2u32, 3] {
        for _ in 0..6 {
            drop_in(&mut b, x);
        }
    }
    for _ in 0..5 {
        drop_in(&mut b, 4);
    }
    for _ in 0..6 {
        drop_in(&mut b, 5);
    }
    b
}

#[test]
fn static_evaluation_is_neutral() {
    let (b, last) = threat_board();
    assert_eq!(evaluate_board(&b, last), 0);
}

#[test]
fn evaluate_scores_a_completed_line_as_a_loss() {
    let (mut b, _) = threat_board();
    let win = drop_in(&mut b, 3);
    assert!(b.check_for_win().is_some());
    assert_eq!(evaluate_move(&mut b, 5, win), -(WIN_SCORE + 5));
    assert_eq!(evaluate_move(&mut b, 0, win), -WIN_SCORE);
}

#[test]
fn evaluate_finds_an_immediate_win_for_the_mover() {
    let (mut b, last) = threat_board();
    let history = b.move_history.clone();
    assert_eq!(evaluate_move(&mut b, 1, last), WIN_SCORE);
    assert_eq!(evaluate_move(&mut b, 2, last), WIN_SCORE + 1);
    assert_eq!(b.move_history, history);
    assert_eq!(b.cur_player, Player::PlayerOne);
}

#[test]
fn evaluate_at_horizon_without_line_is_static() {
    let (mut b, last) = threat_board();
    assert_eq!(evaluate_move(&mut b, 0, last), 0);
}

#[test]
fn evaluate_on_full_board_is_zero() {
    let mut b = one_open_column();
    let mut last = mv(0, 0, Player::PlayerOne);
    for _ in 0..6 {
        last = drop_in(&mut b, 6);
    }
    assert_eq!(evaluate_move(&mut b, 3, last), 0);
}

#[test]
fn branch_is_a_copy_with_the_move_placed() {
    let (mut b, _) = threat_board();
    let levels = b.levels.clone();
    let m = mv(3, 0, Player::PlayerOne);
    let branch = branch_board(&mut b, m);
    assert_eq!(b.levels, levels);
    assert_eq!(b.move_history.len(), 6);
    assert_eq!(branch.move_history.len(), 7);
    assert_eq!(branch.levels[3], 1);
    assert_eq!(branch.cur_player, Player::PlayerTwo);
    assert_eq!(evaluate_branch(branch, m), WIN_SCORE + SEARCH_DEPTH as i64);
}

#[test]
fn pick_best_keeps_first_strictly_greatest() {
    let first = mv(0, 0, Player::PlayerOne);
    let a = mv(1, 0, Player::PlayerOne);
    let b = mv(2, 0, Player::PlayerOne);
    let c = mv(3, 0, Player::PlayerOne);
    assert_eq!(pick_best(first, &vec![(a, 5), (b, 7), (c, 7)]), b);
    assert_eq!(pick_best(first, &vec![(a, -3), (b, -9)]), a);
    assert_eq!(pick_best(first, &vec![]), first);
}

#[test]
fn shuffled_moves_keep_every_move() {
    let b = Board::new();
    let mut moves = shuffled_moves(&b, Player::PlayerOne);
    moves.sort_by_key(|m| m.pos.x);
    assert_eq!(moves, b.get_moves());
}

#[test]
fn single_legal_move_is_returned() {
    let mut b = one_open_column();
    assert_eq!(b.get_moves(), vec![mv(6, 0, Player::PlayerOne)]);
    let history = b.move_history.clone();
    let best = find_best_move(&mut b, Player::PlayerOne);
    assert_eq!(best, mv(6, 0, Player::PlayerOne));
    assert_eq!(b.move_history, history);
    assert_eq!(b.cur_player, Player::PlayerOne);
}
