use vstd::prelude::*;

use rand::seq::SliceRandom;

use crate::board::{
    dir_x, dir_y, shift, Board, Coord, BoardView, Move, lemma_apply_wf, lemma_index, lemma_moves_are_legal,
    lemma_undo_after_apply,
};
use crate::player::Player;

verus! {

/// The base of the score of a lost position.
pub const WIN_SCORE: i64 = 100;

/// How many plies the search looks ahead from each root move.
pub const SEARCH_DEPTH: u32 = 7;

/// The static evaluation of a position at the search horizon, seen by the
/// player to move after `last`; a neutral stub.
pub open spec fn leaf_value(v: BoardView, last: Move) -> int {
    0
}

/// The negamax score of the position `v` reached by `last`, seen by the
/// player to move next, looking `depth` plies ahead: a line completed by
/// `last` is a loss, worse the more plies were left; at the horizon the
/// static evaluation; else the best of the negated scores of the replies,
/// or 0 when there is none.
pub open spec fn score(v: BoardView, depth: nat, last: Move) -> int
    decreases 2 * depth + 1, 0nat,
{
    if v.win_from(last) is Some {
        -(WIN_SCORE + depth)
    } else if depth == 0 {
        leaf_value(v, last)
    } else {
        let replies = v.moves_for(last.player.opponent());
        if replies.len() == 0 {
            0
        } else {
            best_reply(v, (depth - 1) as nat, replies, replies.len())
        }
    }
}

/// The score of `v` after reply `m`, from the side that plays `m`.
pub open spec fn reply_value(v: BoardView, depth: nat, m: Move) -> int
    decreases 2 * depth + 2, 0nat,
{
    -score(v.apply(m), depth, m)
}

/// The greatest reply value among the first `n` (at least one) of `replies`.
pub open spec fn best_reply(v: BoardView, depth: nat, replies: Seq<Move>, n: nat) -> int
    decreases 2 * depth + 2, n + 1,
{
    if n <= 1 {
        reply_value(v, depth, replies[0])
    } else {
        let prev = best_reply(v, depth, replies, (n - 1) as nat);
        let here = reply_value(v, depth, replies[n - 1]);
        if here > prev {
            here
        } else {
            prev
        }
    }
}

/// The score of a root move `m` on `v`, seen by the player who makes it.
pub open spec fn root_score(v: BoardView, m: Move) -> int {
    reply_value(v, SEARCH_DEPTH as nat, m)
}

/// Scores stay within the win score plus the depth.
pub proof fn lemma_score_bounds(v: BoardView, depth: nat, last: Move)
    ensures
        -(WIN_SCORE + depth) <= score(v, depth, last) <= WIN_SCORE + depth,
    decreases 2 * depth + 1, 0nat,
{
    if v.win_from(last) is None && depth > 0 {
        let replies = v.moves_for(last.player.opponent());
        if replies.len() > 0 {
            lemma_best_reply_bounds(v, (depth - 1) as nat, replies, replies.len());
        }
    }
}

/// Best reply values stay within the win score plus the depth.
pub proof fn lemma_best_reply_bounds(v: BoardView, depth: nat, replies: Seq<Move>, n: nat)
    ensures
        -(WIN_SCORE + depth) <= best_reply(v, depth, replies, n) <= WIN_SCORE + depth,
    decreases 2 * depth + 2, n + 1,
{
    lemma_score_bounds(v.apply(replies[0]), depth, replies[0]);
    assert(reply_value(v, depth, replies[0]) == -score(v.apply(replies[0]), depth, replies[0]));
    if n > 1 {
        lemma_best_reply_bounds(v, depth, replies, (n - 1) as nat);
        lemma_score_bounds(v.apply(replies[n - 1]), depth, replies[n - 1]);
        assert(reply_value(v, depth, replies[n - 1]) == -score(
            v.apply(replies[n - 1]),
            depth,
            replies[n - 1],
        ));
    }
}

/// The static evaluation at the search horizon.
pub fn evaluate_board(board: &Board, last_move: Move) -> (r: i64)
    ensures
        r == leaf_value(board@, last_move),
{
    0
}

/// The negamax score of the board reached by `last_move`, seen by the player
/// to move next, looking `depth` plies ahead (see `score`). Each reply is
/// placed on the board and taken back again, so the board ends as it began.
pub fn evaluate_move(board: &mut Board, depth: u32, last_move: Move) -> (r: i64)
    requires
        old(board).wf(),
        old(board)@.cur == last_move.player.opponent(),
    ensures
        final(board).wf(),
        final(board)@ == old(board)@,
        r == score(old(board)@, depth as nat, last_move),
    decreases depth,
{
    let ghost v = board@;
    if board.check_win_from(last_move).is_some() {
        return -(WIN_SCORE + depth as i64);
    }
    if depth == 0 {
        return evaluate_board(board, last_move);
    }
    let moves = board.get_moves_for(last_move.player.opposite());
    proof {
        lemma_moves_are_legal(v);
    }
    let mut best: i64 = 0;
    let mut i: usize = 0;
    while i < moves.len()
        invariant
            board.wf(),
            board@ == v,
            v.cur == last_move.player.opponent(),
            1 <= depth,
            moves@ == v.moves_for(v.cur),
            forall|m: Move| #[trigger] v.moves_for(v.cur).contains(m) <==> v.is_legal(m),
            i <= moves.len(),
            i == 0 ==> best == 0,
            i > 0 ==> best == best_reply(v, (depth - 1) as nat, moves@, i as nat),
        decreases moves.len() - i,
    {
        let m = moves[i];
        assert(moves@.contains(m));
        proof {
            lemma_apply_wf(v, m);
            lemma_undo_after_apply(v, m);
            lemma_score_bounds(v.apply(m), (depth - 1) as nat, m);
        }
        board.do_move(m);
        let e = evaluate_move(board, depth - 1, m);
        board.undo_move();
        let here = -e;
        assert(here == reply_value(v, (depth - 1) as nat, m));
        if i == 0 || here > best {
            best = here;
        }
        i += 1;
    }
    if moves.len() > 0 {
        assert(score(v, depth as nat, last_move) == best_reply(
            v,
            (depth - 1) as nat,
            moves@,
            moves@.len(),
        ));
    }
    best
}

/// The move kept after going through `results` in order: the first move
/// stands until a result beats the best score so far, which starts below
/// every score.
pub open spec fn pick(first: Move, results: Seq<(Move, i64)>) -> (Move, i64)
    decreases results.len(),
{
    if results.len() == 0 {
        (first, i64::MIN)
    } else {
        let acc = pick(first, results.drop_last());
        let last = results.last();
        if last.1 > acc.1 {
            last
        } else {
            acc
        }
    }
}

/// When every score is above the starting one, the kept move is one of the
/// results, with a score that no result beats.
pub proof fn lemma_pick_is_best(first: Move, results: Seq<(Move, i64)>)
    requires
        results.len() > 0,
        forall|i: int| 0 <= i < results.len() ==> #[trigger] results[i].1 > i64::MIN,
    ensures
        results.contains(pick(first, results)),
        forall|i: int| 0 <= i < results.len() ==> #[trigger] results[i].1 <= pick(first, results).1,
    decreases results.len(),
{
    let prev = results.drop_last();
    if results.len() == 1 {
        assert(results[0].1 > i64::MIN);
        assert(prev.len() == 0);
        assert(pick(first, prev) == (first, i64::MIN));
        assert(results.last() == results[0]);
        assert(results[0] == pick(first, results));
    } else {
        lemma_pick_is_best(first, prev);
        let acc = pick(first, prev);
        let j = choose|j: int| 0 <= j < prev.len() && prev[j] == acc;
        assert(results[j] == acc);
        assert(results[results.len() - 1] == results.last());
        assert forall|i: int| 0 <= i < results.len() implies #[trigger] results[i].1 <= pick(
            first,
            results,
        ).1 by {
            if i < prev.len() {
                assert(prev[i] == results[i]);
            }
        }
    }
}

/// Relies on `rand::seq::SliceRandom::shuffle`, fed by `rand::thread_rng`:
/// it reorders the slice in place by swapping its items.
#[verifier::external_body]
fn shuffle_moves(moves: &mut Vec<Move>)
    ensures
        final(moves)@.to_multiset() == old(moves)@.to_multiset(),
{
    moves.shuffle(&mut rand::thread_rng());
}

/// The moves of `player`, in a random order.
pub fn shuffled_moves(board: &Board, player: Player) -> (r: Vec<Move>)
    requires
        board.wf(),
    ensures
        r@.to_multiset() == board@.moves_for(player).to_multiset(),
        r@.len() == board@.moves_for(player).len(),
        forall|m: Move| #[trigger] r@.contains(m) <==> board@.moves_for(player).contains(m),
{
    let mut moves = board.get_moves_for(player);
    shuffle_moves(&mut moves);
    proof {
        moves@.to_multiset_ensures();
        board@.moves_for(player).to_multiset_ensures();
        assert forall|m: Move| #[trigger] moves@.contains(m) <==> board@.moves_for(
            player,
        ).contains(m) by {
            assert(moves@.contains(m) <==> moves@.to_multiset().count(m) > 0);
            assert(board@.moves_for(player).contains(m) <==> board@.moves_for(
                player,
            ).to_multiset().count(m) > 0);
        }
    }
    moves
}

/// An independent copy of the board with the legal move `m` placed; the
/// board itself ends as it began.
pub fn branch_board(board: &mut Board, m: Move) -> (r: Board)
    requires
        old(board).wf(),
        old(board)@.is_legal(m),
    ensures
        final(board).wf(),
        final(board)@ == old(board)@,
        r.wf(),
        r@ == old(board)@.apply(m),
{
    proof {
        lemma_apply_wf(board@, m);
        lemma_undo_after_apply(board@, m);
    }
    board.do_move(m);
    let r = board.snapshot();
    board.undo_move();
    r
}

/// The score of the root move `m` that built `branch`, seen by the player who
/// made it: the negated search score of the position for the next player.
pub fn evaluate_branch(branch: Board, m: Move) -> (r: i64)
    requires
        branch.wf(),
        branch@.cur == m.player.opponent(),
    ensures
        r == -score(branch@, SEARCH_DEPTH as nat, m),
{
    let mut board = branch;
    proof {
        lemma_score_bounds(board@, SEARCH_DEPTH as nat, m);
    }
    let e = evaluate_move(&mut board, SEARCH_DEPTH, m);
    -e
}

/// Goes through the `(move, score)` results in order and keeps the move with
/// the strictly greatest score seen so far, `first` until one is seen.
pub fn pick_best(first: Move, results: &Vec<(Move, i64)>) -> (r: Move)
    ensures
        r == pick(first, results@).0,
{
    let mut best_move = first;
    let mut best_evaluation = i64::MIN;
    let mut i: usize = 0;
    while i < results.len()
        invariant
            i <= results.len(),
            (best_move, best_evaluation) == pick(first, results@.take(i as int)),
        decreases results.len() - i,
    {
        let (m, eval) = results[i];
        assert(results@.take(i as int + 1).drop_last() == results@.take(i as int));
        if eval > best_evaluation {
            best_evaluation = eval;
            best_move = m;
        }
        i += 1;
    }
    assert(results@.take(i as int) == results@);
    best_move
}

/// Picks a move for `player`, the player to move: the root moves are
/// shuffled, each is searched on its own copy of the board, and the one with
/// the greatest score wins, the earliest in the shuffled order among equals.
/// The board ends as it began.
pub fn find_best_move(board: &mut Board, player: Player) -> (r: Move)
    requires
        old(board).wf(),
        player == old(board)@.cur,
        old(board)@.moves_for(player).len() > 0,
    ensures
        final(board).wf(),
        final(board)@ == old(board)@,
        old(board)@.moves_for(player).contains(r),
        old(board)@.is_legal(r),
        forall|m: Move| #[trigger]
            old(board)@.moves_for(player).contains(m) ==> root_score(old(board)@, m) <= root_score(
                old(board)@,
                r,
            ),
{
    let ghost v = board@;
    proof {
        lemma_moves_are_legal(v);
    }
    let all_moves = shuffled_moves(board, player);
    let mut results: Vec<(Move, i64)> = Vec::new();
    let mut i: usize = 0;
    while i < all_moves.len()
        invariant
            board.wf(),
            board@ == v,
            player == v.cur,
            forall|m: Move| #[trigger] all_moves@.contains(m) <==> v.moves_for(player).contains(m),
            forall|m: Move| #[trigger] v.moves_for(v.cur).contains(m) <==> v.is_legal(m),
            i <= all_moves.len(),
            results@.len() == i,
            forall|j: int|
                0 <= j < i ==> #[trigger] results@[j] == (all_moves@[j], root_score(v, all_moves@[j]) as i64),
            forall|j: int|
                0 <= j < i ==> -(WIN_SCORE + SEARCH_DEPTH) <= #[trigger] root_score(v, all_moves@[j])
                    <= WIN_SCORE + SEARCH_DEPTH,
        decreases all_moves.len() - i,
    {
        let m = all_moves[i];
        assert(all_moves@.contains(m));
        let branch = branch_board(board, m);
        proof {
            lemma_score_bounds(v.apply(m), SEARCH_DEPTH as nat, m);
        }
        let e = evaluate_branch(branch, m);
        results.push((m, e));
        i += 1;
    }
    let r = pick_best(all_moves[0], &results);
    proof {
        assert forall|j: int| 0 <= j < results@.len() implies #[trigger] results@[j].1 > i64::MIN by {
            assert(-(WIN_SCORE + SEARCH_DEPTH) <= root_score(v, all_moves@[j]) <= WIN_SCORE + SEARCH_DEPTH);
        }
        lemma_pick_is_best(all_moves@[0], results@);
        let k = choose|k: int| 0 <= k < results@.len() && results@[k] == pick(all_moves@[0], results@);
        assert(all_moves@[k] == r);
        assert(all_moves@.contains(r));
        assert forall|m: Move| #[trigger] v.moves_for(player).contains(m) implies root_score(v, m)
            <= root_score(v, r) by {
            assert(all_moves@.contains(m));
            let j = choose|j: int| 0 <= j < all_moves@.len() && all_moves@[j] == m;
            assert(results@[j].1 <= results@[k].1);
            assert(-(WIN_SCORE + SEARCH_DEPTH) <= root_score(v, all_moves@[j]) <= WIN_SCORE + SEARCH_DEPTH);
            assert(-(WIN_SCORE + SEARCH_DEPTH) <= root_score(v, all_moves@[k]) <= WIN_SCORE + SEARCH_DEPTH);
        }
    }
    r
}

/// A cell with the owners swapped.
pub open spec fn mirror_cell(c: Option<Player>) -> Option<Player> {
    match c {
        Some(p) => Some(p.opponent()),
        None => None,
    }
}

/// A move made by the other player.
pub open spec fn mirror_move(m: Move) -> Move {
    Move { player: m.player.opponent(), ..m }
}

/// The board with the roles of the two players swapped.
pub open spec fn mirror(v: BoardView) -> BoardView {
    BoardView {
        grid: v.grid.map_values(|c: Option<Player>| mirror_cell(c)),
        history: v.history.map_values(|m: Move| mirror_move(m)),
        cur: v.cur.opponent(),
        ..v
    }
}

proof fn lemma_run_mirror(v: BoardView, x: int, y: int, dx: int, dy: int, p: Player, n: nat)
    requires
        v.grid.len() == v.width * v.height,
    ensures
        mirror(v).run(x, y, dx, dy, p.opponent(), n) == v.run(x, y, dx, dy, p, n),
    decreases 3 - n,
{
    let qx = shift(x, dx, n + 1 as int);
    let qy = shift(y, dy, n + 1 as int);
    if v.in_bounds(qx, qy) {
        lemma_index(v.width, v.height, qx, qy, qx, qy);
    }
    assert(mirror(v).owned(qx, qy, p.opponent()) == v.owned(qx, qy, p));
    if n < 3 {
        lemma_run_mirror(v, x, y, dx, dy, p, n + 1);
    }
}

proof fn lemma_win_from_mirror(v: BoardView, m: Move)
    requires
        v.grid.len() == v.width * v.height,
    ensures
        mirror(v).win_from(mirror_move(m)) == v.win_from(m),
{
    let x = m.pos.x as int;
    let y = m.pos.y as int;
    let p = m.player;
    assert forall|k: int| 0 <= k < 4 implies #[trigger] mirror(v).line_in(mirror_move(m), k)
        == v.line_in(m, k) by {
        lemma_run_mirror(v, x, y, dir_x(k), dir_y(k), p, 0);
        lemma_run_mirror(v, x, y, -dir_x(k), -dir_y(k), p, 0);
    }
    assert(mirror(v).line_in(mirror_move(m), 0) == v.line_in(m, 0));
    assert(mirror(v).line_in(mirror_move(m), 1) == v.line_in(m, 1));
    assert(mirror(v).line_in(mirror_move(m), 2) == v.line_in(m, 2));
    assert(mirror(v).line_in(mirror_move(m), 3) == v.line_in(m, 3));
}

proof fn lemma_moves_mirror(v: BoardView, p: Player, n: nat)
    ensures
        mirror(v).moves_upto(p.opponent(), n) == v.moves_upto(p, n).map_values(
            |m: Move| mirror_move(m),
        ),
    decreases n,
{
    if n > 0 {
        lemma_moves_mirror(v, p, (n - 1) as nat);
        let prev = v.moves_upto(p, (n - 1) as nat);
        let c = (n - 1) as int;
        let mc = Move { pos: Coord { x: c as u32, y: v.levels[c] }, player: p };
        assert(prev.push(mc).map_values(|m: Move| mirror_move(m)) =~= prev.map_values(
            |m: Move| mirror_move(m),
        ).push(mirror_move(mc)));
    }
}

proof fn lemma_apply_mirror(v: BoardView, m: Move)
    requires
        v.wf(),
        v.is_legal(m),
    ensures
        mirror(v).apply(mirror_move(m)) == mirror(v.apply(m)),
{
    let i = v.index(m.pos.x as int, m.pos.y as int);
    lemma_index(v.width, v.height, m.pos.x as int, m.pos.y as int, m.pos.x as int, m.pos.y as int);
    assert(mirror(v).apply(mirror_move(m)).grid =~= mirror(v.apply(m)).grid);
    assert(mirror(v).apply(mirror_move(m)).history =~= mirror(v.apply(m)).history);
}

/// Swapping the roles of the two players leaves the search score unchanged.
pub proof fn lemma_score_mirror(v: BoardView, depth: nat, last: Move)
    requires
        v.wf(),
        v.cur == last.player.opponent(),
    ensures
        score(mirror(v), depth, mirror_move(last)) == score(v, depth, last),
    decreases 2 * depth + 1, 0nat,
{
    lemma_win_from_mirror(v, last);
    if v.win_from(last) is None && depth > 0 {
        let replies = v.moves_for(last.player.opponent());
        lemma_moves_mirror(v, last.player.opponent(), v.width);
        assert(mirror(v).moves_for(mirror_move(last).player.opponent()) == replies.map_values(
            |m: Move| mirror_move(m),
        ));
        if replies.len() > 0 {
            lemma_best_reply_mirror(v, (depth - 1) as nat, replies, replies.len());
        }
    }
}

/// Swapping the roles of the two players leaves the best reply value unchanged.
pub proof fn lemma_best_reply_mirror(v: BoardView, depth: nat, replies: Seq<Move>, n: nat)
    requires
        v.wf(),
        1 <= n <= replies.len(),
        replies == v.moves_for(v.cur),
    ensures
        best_reply(mirror(v), depth, replies.map_values(|m: Move| mirror_move(m)), n)
            == best_reply(v, depth, replies, n),
    decreases 2 * depth + 2, n + 1,
{
    let mirrored = replies.map_values(|m: Move| mirror_move(m));
    lemma_moves_are_legal(v);
    let m = replies[n - 1];
    assert(replies.contains(m));
    lemma_apply_wf(v, m);
    lemma_apply_mirror(v, m);
    lemma_score_mirror(v.apply(m), depth, m);
    assert(reply_value(mirror(v), depth, mirrored[n - 1]) == reply_value(v, depth, m));
    if n > 1 {
        lemma_best_reply_mirror(v, depth, replies, (n - 1) as nat);
    }
}

} // verus!
