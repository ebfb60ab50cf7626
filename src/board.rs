use vstd::prelude::*;

use crate::player::Player;

verus! {

/// A cell of the grid: column `x`, row `y` (row 0 is the bottom).
#[derive(Clone, Copy, Debug, PartialEq, Eq, Structural)]
pub struct Coord {
    pub x: u32,
    pub y: u32,
}

/// A signed grid position; it may lie outside the board.
#[derive(Clone, Copy, Debug, PartialEq, Eq, Structural)]
pub struct ICoord {
    pub x: i64,
    pub y: i64,
}

/// A piece placed by `player` at `pos`.
#[derive(Clone, Copy, Debug, PartialEq, Eq, Structural)]
pub struct Move {
    pub pos: Coord,
    pub player: Player,
}

/// The two end cells, both included, of four or more aligned cells of one player.
#[derive(Clone, Copy, Debug, PartialEq, Eq, Structural)]
pub struct WinningLine(pub Coord, pub Coord);

/// How a finished game ended.
#[derive(Clone, Copy, Debug, PartialEq, Eq, Structural)]
pub enum GameResult {
    Win(Player, WinningLine),
    Draw,
}

/// Whether a game goes on or is over.
#[derive(Clone, Copy, Debug, PartialEq, Eq, Structural)]
pub enum BoardState {
    Playing,
    GameOver(GameResult),
}

/// The mathematical content of a board.
pub struct BoardView {
    pub width: nat,
    pub height: nat,
    /// Cell `(x, y)` is at index `x + y * width`.
    pub grid: Seq<Option<Player>>,
    pub levels: Seq<u32>,
    pub history: Seq<Move>,
    pub cur: Player,
}

/// The board of a game of the size given at construction.
pub struct Board {
    pub size: Coord,
    pub grid: Vec<Option<Player>>,
    pub levels: Vec<u32>,
    pub move_history: Vec<Move>,
    pub cur_player: Player,
}

impl View for Board {
    type V = BoardView;

    open spec fn view(&self) -> BoardView {
        BoardView {
            width: self.size.x as nat,
            height: self.size.y as nat,
            grid: self.grid@,
            levels: self.levels@,
            history: self.move_history@,
            cur: self.cur_player,
        }
    }
}

/// The board of the given size before any move.
pub open spec fn empty_view(width: nat, height: nat) -> BoardView {
    BoardView {
        width,
        height,
        grid: Seq::new(width * height, |i: int| None),
        levels: Seq::new(width, |i: int| 0u32),
        history: Seq::empty(),
        cur: Player::PlayerOne,
    }
}

/// The board reached by playing `moves` in order on an empty board.
pub open spec fn replay(width: nat, height: nat, moves: Seq<Move>) -> BoardView
    decreases moves.len(),
{
    if moves.len() == 0 {
        empty_view(width, height)
    } else {
        replay(width, height, moves.drop_last()).apply(moves.last())
    }
}

impl BoardView {
    pub open spec fn in_bounds(self, x: int, y: int) -> bool {
        0 <= x < self.width && 0 <= y < self.height
    }

    pub open spec fn index(self, x: int, y: int) -> int {
        x + y * self.width
    }

    /// The occupant of a cell; `None` for an empty cell or one off the board.
    pub open spec fn cell(self, x: int, y: int) -> Option<Player> {
        if self.in_bounds(x, y) {
            self.grid[self.index(x, y)]
        } else {
            None
        }
    }

    /// Whether the cell is on the board and holds a piece of `p`.
    pub open spec fn owned(self, x: int, y: int, p: Player) -> bool {
        self.cell(x, y) == Some(p)
    }

    /// A legal move: by the player to move, on the board, onto an empty cell,
    /// on top of its column.
    pub open spec fn is_legal(self, m: Move) -> bool {
        &&& m.player == self.cur
        &&& self.in_bounds(m.pos.x as int, m.pos.y as int)
        &&& self.cell(m.pos.x as int, m.pos.y as int) is None
        &&& m.pos.y == self.levels[m.pos.x as int]
    }

    /// The board after placing `m`.
    pub open spec fn apply(self, m: Move) -> BoardView {
        BoardView {
            grid: self.grid.update(self.index(m.pos.x as int, m.pos.y as int), Some(m.player)),
            levels: self.levels.update(m.pos.x as int, (self.levels[m.pos.x as int] + 1) as u32),
            history: self.history.push(m),
            cur: self.cur.opponent(),
            ..self
        }
    }

    /// The board after taking back the last move; unchanged if there is none.
    pub open spec fn undone(self) -> BoardView {
        if self.history.len() == 0 {
            self
        } else {
            let m = self.history.last();
            BoardView {
                grid: self.grid.update(self.index(m.pos.x as int, m.pos.y as int), None),
                levels: self.levels.update(m.pos.x as int, (self.levels[m.pos.x as int] - 1) as u32),
                history: self.history.drop_last(),
                cur: self.cur.opponent(),
                ..self
            }
        }
    }

    pub open spec fn column_full(self, c: int) -> bool {
        self.levels[c] >= self.height
    }

    /// Every column is filled up to the board's height.
    pub open spec fn all_full(self) -> bool {
        forall|c: int| 0 <= c < self.width ==> #[trigger] self.levels[c] == self.height
    }

    /// Each move of the history was legal on the board that the moves before it built.
    pub open spec fn history_legal(self) -> bool {
        forall|i: int|
            0 <= i < self.history.len() ==> #[trigger] replay(
                self.width,
                self.height,
                self.history.take(i),
            ).is_legal(self.history[i])
    }

    /// Columns fill from the bottom with no gaps.
    pub open spec fn gravity(self) -> bool {
        forall|x: int, y: int|
            0 <= x < self.width && 0 <= y < self.height ==> (#[trigger] self.grid[self.index(x, y)]
                is Some <==> y < self.levels[x])
    }

    /// The board's invariant: its dimensions fit the machine, the grid and the
    /// levels have their sizes, columns fill from the bottom, and grid, levels
    /// and player to move are what replaying the (legal) history gives.
    pub open spec fn wf(self) -> bool {
        &&& 1 <= self.width
        &&& 1 <= self.height
        &&& self.width * self.height <= u32::MAX
        &&& self.grid.len() == self.width * self.height
        &&& self.levels.len() == self.width
        &&& forall|c: int| 0 <= c < self.width ==> #[trigger] self.levels[c] <= self.height
        &&& self.gravity()
        &&& self.history_legal()
        &&& self == replay(self.width, self.height, self.history)
    }
}


/// `v` moved `n` steps along a direction component `d` in {-1, 0, 1}.
pub open spec fn shift(v: int, d: int, n: int) -> int {
    if d > 0 {
        v + n
    } else if d < 0 {
        v - n
    } else {
        v
    }
}

/// Column step of the `k`-th line direction: horizontal, rising diagonal,
/// vertical, falling diagonal.
pub open spec fn dir_x(k: int) -> int {
    if k == 0 || k == 1 {
        1
    } else if k == 2 {
        0
    } else {
        -1
    }
}

/// Row step of the `k`-th line direction.
pub open spec fn dir_y(k: int) -> int {
    if k == 0 {
        0
    } else {
        1
    }
}

impl BoardView {
    /// The moves of `p` in the first `n` columns: one per column that is not
    /// full, on top of it, in column order.
    pub open spec fn moves_upto(self, p: Player, n: nat) -> Seq<Move>
        decreases n,
    {
        if n == 0 {
            Seq::empty()
        } else {
            let c = (n - 1) as int;
            let prev = self.moves_upto(p, (n - 1) as nat);
            if self.levels[c] < self.height {
                prev.push(Move { pos: Coord { x: c as u32, y: self.levels[c] }, player: p })
            } else {
                prev
            }
        }
    }

    /// The moves of `p`: one per column that is not full, on top of it, in
    /// column order.
    pub open spec fn moves_for(self, p: Player) -> Seq<Move> {
        self.moves_upto(p, self.width)
    }

    /// How many cells after `(x, y)` along `(dx, dy)`, from step `n + 1` and at
    /// most up to step 3, hold pieces of `p` without a break.
    pub open spec fn run(self, x: int, y: int, dx: int, dy: int, p: Player, n: nat) -> nat
        decreases 3 - n,
    {
        if n < 3 && self.owned(shift(x, dx, n + 1 as int), shift(y, dy, n + 1 as int), p) {
            self.run(x, y, dx, dy, p, n + 1)
        } else {
            n
        }
    }

    /// The line through the cell of `m` along the `k`-th direction, if that
    /// cell and the pieces of `m.player` next to it on both sides make four or more.
    pub open spec fn line_in(self, m: Move, k: int) -> Option<WinningLine> {
        let x = m.pos.x as int;
        let y = m.pos.y as int;
        let dx = dir_x(k);
        let dy = dir_y(k);
        let f = self.run(x, y, dx, dy, m.player, 0) as int;
        let b = self.run(x, y, -dx, -dy, m.player, 0) as int;
        let fwd = Coord { x: shift(x, dx, f) as u32, y: shift(y, dy, f) as u32 };
        let bwd = Coord { x: shift(x, -dx, b) as u32, y: shift(y, -dy, b) as u32 };
        if f + b >= 3 {
            if f >= b {
                Some(WinningLine(fwd, bwd))
            } else {
                Some(WinningLine(bwd, fwd))
            }
        } else {
            None
        }
    }

    /// The first line that `m` completes, trying the directions in order.
    pub open spec fn win_from(self, m: Move) -> Option<WinningLine> {
        if self.line_in(m, 0) is Some {
            self.line_in(m, 0)
        } else if self.line_in(m, 1) is Some {
            self.line_in(m, 1)
        } else if self.line_in(m, 2) is Some {
            self.line_in(m, 2)
        } else {
            self.line_in(m, 3)
        }
    }

    /// The line completed by the last move, if any.
    pub open spec fn win_line(self) -> Option<WinningLine> {
        if self.history.len() == 0 {
            None
        } else {
            self.win_from(self.history.last())
        }
    }

    /// A full board is a draw, checked first; otherwise a line completed by
    /// the last move wins for the one who made it.
    pub open spec fn state(self) -> BoardState {
        if self.all_full() {
            BoardState::GameOver(GameResult::Draw)
        } else {
            match self.win_line() {
                Some(l) => BoardState::GameOver(GameResult::Win(self.cur.opponent(), l)),
                None => BoardState::Playing,
            }
        }
    }
}

impl Board {
    pub open spec fn wf(&self) -> bool {
        self@.wf()
    }
}

/// Cell indices lie in the grid and tell cells apart.
pub proof fn lemma_index(w: nat, h: nat, x: int, y: int, x2: int, y2: int)
    requires
        0 <= x < w,
        0 <= y < h,
        0 <= x2 < w,
        0 <= y2 < h,
    ensures
        0 <= x + y * w < w * h,
        x + y * w == x2 + y2 * w ==> x == x2 && y == y2,
{
    assert(0 <= x + y * w < w * h) by (nonlinear_arith)
        requires
            0 <= x < w,
            0 <= y < h,
    ;
    assert(x + y * w == x2 + y2 * w ==> x == x2 && y == y2) by (nonlinear_arith)
        requires
            0 <= x < w,
            0 <= x2 < w,
            0 <= y,
            0 <= y2,
    ;
}

/// The empty board of a size that fits the machine is well formed.
pub proof fn lemma_empty_wf(w: nat, h: nat)
    requires
        1 <= w,
        1 <= h,
        w * h <= u32::MAX,
    ensures
        empty_view(w, h).wf(),
{
    let v = empty_view(w, h);
    assert(v == replay(w, h, Seq::empty()));
    assert forall|x: int, y: int| 0 <= x < w && 0 <= y < h implies (#[trigger] v.grid[v.index(
        x,
        y,
    )] is Some <==> y < v.levels[x]) by {
        lemma_index(w, h, x, y, x, y);
    }
}

/// Placing a legal move keeps a board well formed.
pub proof fn lemma_apply_wf(v: BoardView, m: Move)
    requires
        v.wf(),
        v.is_legal(m),
    ensures
        v.apply(m).wf(),
        v.apply(m).cell(m.pos.x as int, m.pos.y as int) == Some(m.player),
{
    let n = v.apply(m);
    let mx = m.pos.x as int;
    let my = m.pos.y as int;
    assert(v.height <= v.width * v.height) by (nonlinear_arith)
        requires
            1 <= v.width,
    ;
    lemma_index(v.width, v.height, mx, my, mx, my);
    assert forall|x: int, y: int| 0 <= x < n.width && 0 <= y < n.height implies (
    #[trigger] n.grid[n.index(x, y)] is Some <==> y < n.levels[x]) by {
        lemma_index(v.width, v.height, x, y, mx, my);
        assert(v.grid[v.index(x, y)] is Some <==> y < v.levels[x]);
    }
    assert forall|c: int| 0 <= c < n.width implies #[trigger] n.levels[c] <= n.height by {}
    assert(n.history.drop_last() == v.history);
    assert forall|i: int| 0 <= i < n.history.len() implies #[trigger] replay(
        n.width,
        n.height,
        n.history.take(i),
    ).is_legal(n.history[i]) by {
        if i < v.history.len() {
            assert(n.history.take(i) == v.history.take(i));
        } else {
            assert(n.history.take(i) == v.history);
        }
    }
}

/// Taking back a move just placed gives the board as it was.
pub proof fn lemma_undo_after_apply(v: BoardView, m: Move)
    requires
        v.wf(),
        v.is_legal(m),
    ensures
        v.apply(m).undone() == v,
{
    let mx = m.pos.x as int;
    let my = m.pos.y as int;
    lemma_index(v.width, v.height, mx, my, mx, my);
    assert(v.height <= v.width * v.height) by (nonlinear_arith)
        requires
            1 <= v.width,
    ;
    let u = v.apply(m).undone();
    assert(u.grid =~= v.grid);
    assert(u.levels =~= v.levels);
    assert(u.history =~= v.history);
}

/// Replaying any prefix of a history of legal moves gives a well-formed board.
pub proof fn lemma_replay_prefix_wf(w: nat, h: nat, moves: Seq<Move>, k: int)
    requires
        1 <= w,
        1 <= h,
        w * h <= u32::MAX,
        0 <= k <= moves.len(),
        forall|i: int|
            0 <= i < moves.len() ==> #[trigger] replay(w, h, moves.take(i)).is_legal(moves[i]),
    ensures
        replay(w, h, moves.take(k)).wf(),
        replay(w, h, moves.take(k)).history == moves.take(k),
    decreases k,
{
    if k == 0 {
        assert(moves.take(0) == Seq::<Move>::empty());
        lemma_empty_wf(w, h);
    } else {
        lemma_replay_prefix_wf(w, h, moves, k - 1);
        assert(moves.take(k).drop_last() == moves.take(k - 1));
        let prev = replay(w, h, moves.take(k - 1));
        assert(replay(w, h, moves.take(k)) == prev.apply(moves[k - 1]));
        assert(prev.is_legal(moves[k - 1]));
        lemma_apply_wf(prev, moves[k - 1]);
        assert(moves.take(k - 1).push(moves[k - 1]) == moves.take(k));
    }
}

/// A well-formed board with a move in its history is the board before that
/// move, well formed too, with the move placed.
pub proof fn lemma_undone_wf(v: BoardView)
    requires
        v.wf(),
        v.history.len() > 0,
    ensures
        v.undone().wf(),
        v.undone().is_legal(v.history.last()),
        v.undone().apply(v.history.last()) == v,
{
    let k = v.history.len() - 1;
    lemma_replay_prefix_wf(v.width, v.height, v.history, k);
    let prev = replay(v.width, v.height, v.history.take(k));
    assert(v.history.take(k) == v.history.drop_last());
    assert(prev.is_legal(v.history[k]));
    lemma_undo_after_apply(prev, v.history.last());
}

/// A copy of a vector of plain values.
fn copy_vec<T: Copy>(v: &Vec<T>) -> (r: Vec<T>)
    ensures
        r@ == v@,
{
    let mut r: Vec<T> = Vec::new();
    let mut i: usize = 0;
    while i < v.len()
        invariant
            i <= v.len(),
            r@ == v@.take(i as int),
        decreases v.len() - i,
    {
        r.push(v[i]);
        i += 1;
        assert(r@ =~= v@.take(i as int));
    }
    assert(v@.take(i as int) =~= v@);
    r
}

impl Board {
    /// An empty board of 7 columns and 6 rows; `PlayerOne` moves first.
    pub fn new() -> (r: Board)
        ensures
            r.wf(),
            r@ == empty_view(7, 6),
    {
        let size = Coord { x: 7, y: 6 };
        let mut grid: Vec<Option<Player>> = Vec::new();
        let mut i: u32 = 0;
        while i < size.x * size.y
            invariant
                size == (Coord { x: 7, y: 6 }),
                i <= 42,
                grid@ == Seq::new(i as nat, |k: int| None::<Player>),
            decreases 42 - i,
        {
            grid.push(None);
            i += 1;
            assert(grid@ =~= Seq::new(i as nat, |k: int| None::<Player>));
        }
        let mut levels: Vec<u32> = Vec::new();
        let mut c: u32 = 0;
        while c < size.x
            invariant
                size == (Coord { x: 7, y: 6 }),
                c <= 7,
                levels@ == Seq::new(c as nat, |k: int| 0u32),
            decreases 7 - c,
        {
            levels.push(0);
            c += 1;
            assert(levels@ =~= Seq::new(c as nat, |k: int| 0u32));
        }
        let r = Board {
            size,
            grid,
            levels,
            move_history: Vec::new(),
            cur_player: Player::PlayerOne,
        };
        assert(r@ =~= empty_view(7, 6));
        proof {
            lemma_empty_wf(7, 6);
        }
        r
    }

    /// A copy of the board that later moves on either leave the other alone.
    pub fn snapshot(&self) -> (r: Board)
        ensures
            r@ == self@,
    {
        Board {
            size: self.size,
            grid: copy_vec(&self.grid),
            levels: copy_vec(&self.levels),
            move_history: copy_vec(&self.move_history),
            cur_player: self.cur_player,
        }
    }

    /// Whether a signed position lies on the board.
    pub fn valid_ivec_pos(&self, pos: ICoord) -> (r: bool)
        ensures
            r == self@.in_bounds(pos.x as int, pos.y as int),
    {
        pos.x >= 0 && pos.y >= 0 && pos.x < self.size.x as i64 && pos.y < self.size.y as i64
    }

    /// Whether a position lies on the board.
    pub fn valid_uvec_pos(&self, pos: Coord) -> (r: bool)
        ensures
            r == self@.in_bounds(pos.x as int, pos.y as int),
    {
        pos.x < self.size.x && pos.y < self.size.y
    }

    /// The occupant of a cell; `None` for an empty cell or one off the board.
    pub fn get(&self, grid_pos: Coord) -> (r: Option<Player>)
        requires
            self.wf(),
        ensures
            r == self@.cell(grid_pos.x as int, grid_pos.y as int),
    {
        if self.valid_uvec_pos(grid_pos) {
            proof {
                lemma_index(
                    self@.width,
                    self@.height,
                    grid_pos.x as int,
                    grid_pos.y as int,
                    grid_pos.x as int,
                    grid_pos.y as int,
                );
            }
            let index = grid_pos.x + grid_pos.y * self.size.x;
            self.grid[index as usize]
        } else {
            None
        }
    }

    fn set(&mut self, grid_pos: Coord, value: Option<Player>)
        requires
            old(self).wf(),
            old(self)@.in_bounds(grid_pos.x as int, grid_pos.y as int),
        ensures
            final(self)@ == (BoardView {
                grid: old(self)@.grid.update(
                    old(self)@.index(grid_pos.x as int, grid_pos.y as int),
                    value,
                ),
                ..old(self)@
            }),
    {
        proof {
            lemma_index(
                self@.width,
                self@.height,
                grid_pos.x as int,
                grid_pos.y as int,
                grid_pos.x as int,
                grid_pos.y as int,
            );
        }
        let index = grid_pos.x + grid_pos.y * self.size.x;
        self.grid.set(index as usize, value);
    }

    /// Whether `board_move` is legal now.
    pub fn is_valid_move(&self, board_move: Move) -> (r: bool)
        requires
            self.wf(),
        ensures
            r == self@.is_legal(board_move),
    {
        board_move.player == self.cur_player && self.valid_uvec_pos(board_move.pos) && self.get(
            board_move.pos,
        ).is_none() && board_move.pos.y == self.levels[board_move.pos.x as usize]
    }

    /// Places a legal move: fills its cell, raises its column, records it and
    /// hands the turn over. An illegal move leaves the board as it is.
    pub fn do_move(&mut self, board_move: Move)
        requires
            old(self).wf(),
        ensures
            final(self).wf(),
            final(self)@ == if old(self)@.is_legal(board_move) {
                old(self)@.apply(board_move)
            } else {
                old(self)@
            },
    {
        if self.is_valid_move(board_move) {
            proof {
                lemma_apply_wf(self@, board_move);
                assert(self@.height <= self@.width * self@.height) by (nonlinear_arith)
                    requires
                        1 <= self@.width,
                ;
            }
            let ghost before = self@;
            self.set(board_move.pos, Some(board_move.player));
            let x = board_move.pos.x as usize;
            let level = self.levels[x];
            self.levels.set(x, level + 1);
            self.move_history.push(board_move);
            self.cur_player = self.cur_player.opposite();
            assert(self@ =~= before.apply(board_move));
        }
    }

    /// Takes back the last move and returns it; `None`, with the board
    /// unchanged, when no move was made.
    pub fn undo_move(&mut self) -> (r: Option<Move>)
        requires
            old(self).wf(),
        ensures
            final(self).wf(),
            final(self)@ == old(self)@.undone(),
            r == if old(self)@.history.len() == 0 {
                None::<Move>
            } else {
                Some(old(self)@.history.last())
            },
    {
        if self.move_history.len() == 0 {
            return None;
        }
        let ghost before = self@;
        proof {
            lemma_undone_wf(before);
        }
        let board_move = self.move_history.pop().unwrap();
        proof {
            lemma_index(
                before.width,
                before.height,
                board_move.pos.x as int,
                board_move.pos.y as int,
                board_move.pos.x as int,
                board_move.pos.y as int,
            );
        }
        let index = board_move.pos.x + board_move.pos.y * self.size.x;
        self.grid.set(index as usize, None);
        let x = board_move.pos.x as usize;
        let level = self.levels[x];
        self.levels.set(x, level - 1);
        self.cur_player = self.cur_player.opposite();
        assert(self@ =~= before.undone());
        Some(board_move)
    }
}

/// `v` moved `n` steps along `d` in {-1, 0, 1}.
fn shifted(v: i64, d: i64, n: u32) -> (r: i64)
    requires
        -3 <= d <= 3,
        0 <= v <= u32::MAX,
        n <= 3,
    ensures
        r == shift(v as int, d as int, n as int),
{
    if d > 0 {
        v + n as i64
    } else if d < 0 {
        v - n as i64
    } else {
        v
    }
}

impl Board {
    /// Whether every column is filled up to the board's height.
    pub fn is_draw(&self) -> (r: bool)
        requires
            self.wf(),
        ensures
            r == self@.all_full(),
    {
        let mut c: usize = 0;
        while c < self.levels.len()
            invariant
                self.wf(),
                c <= self.levels.len(),
                forall|j: int| 0 <= j < c ==> #[trigger] self.levels@[j] == self.size.y,
            decreases self.levels.len() - c,
        {
            if self.levels[c] != self.size.y {
                return false;
            }
            c += 1;
        }
        true
    }

    /// The moves of `player`: one per column that is not full, on top of it,
    /// in column order.
    pub fn get_moves_for(&self, player: Player) -> (r: Vec<Move>)
        requires
            self.wf(),
        ensures
            r@ == self@.moves_for(player),
    {
        let mut r: Vec<Move> = Vec::new();
        let mut c: usize = 0;
        while c < self.levels.len()
            invariant
                self.wf(),
                c <= self.levels.len(),
                r@ == self@.moves_upto(player, c as nat),
            decreases self.levels.len() - c,
        {
            let y = self.levels[c];
            if y < self.size.y {
                r.push(Move { pos: Coord { x: c as u32, y }, player });
            }
            c += 1;
        }
        r
    }

    /// The moves of the player to move.
    pub fn get_moves(&self) -> (r: Vec<Move>)
        requires
            self.wf(),
        ensures
            r@ == self@.moves_for(self@.cur),
    {
        self.get_moves_for(self.cur_player)
    }

    /// Whether the position is on the board and holds a piece of `p`.
    fn owns(&self, pos: ICoord, p: Player) -> (r: bool)
        requires
            self.wf(),
        ensures
            r == self@.owned(pos.x as int, pos.y as int, p),
    {
        if self.valid_ivec_pos(pos) {
            match self.get(Coord { x: pos.x as u32, y: pos.y as u32 }) {
                Some(q) => q == p,
                None => false,
            }
        } else {
            false
        }
    }

    /// How many cells after `pos` along `(dx, dy)`, at most three, hold pieces
    /// of `p` without a break.
    fn count_run(&self, pos: Coord, dx: i64, dy: i64, p: Player) -> (r: u32)
        requires
            self.wf(),
            -1 <= dx <= 1,
            -1 <= dy <= 1,
        ensures
            r == self@.run(pos.x as int, pos.y as int, dx as int, dy as int, p, 0),
            r <= 3,
    {
        let ghost x = pos.x as int;
        let ghost y = pos.y as int;
        let mut n: u32 = 0;
        let mut going = true;
        while going && n < 3
            invariant
                self.wf(),
                -1 <= dx <= 1,
                -1 <= dy <= 1,
                x == pos.x as int,
                y == pos.y as int,
                n <= 3,
                self@.run(x, y, dx as int, dy as int, p, 0) == self@.run(
                    x,
                    y,
                    dx as int,
                    dy as int,
                    p,
                    n as nat,
                ),
                !going ==> self@.run(x, y, dx as int, dy as int, p, n as nat) == n,
            decreases 3 - n + if going { 1int } else { 0int },
        {
            let next = ICoord {
                x: shifted(pos.x as i64, dx, n + 1),
                y: shifted(pos.y as i64, dy, n + 1),
            };
            assert(self@.run(x, y, dx as int, dy as int, p, n as nat) == if self@.owned(
                next.x as int,
                next.y as int,
                p,
            ) {
                self@.run(x, y, dx as int, dy as int, p, (n + 1) as nat)
            } else {
                n as nat
            });
            if self.owns(next, p) {
                n += 1;
            } else {
                going = false;
            }
        }
        n
    }

    /// The line through the cell of `m` along the `k`-th direction, as
    /// `BoardView::line_in` describes it.
    fn line_in_dir(&self, m: Move, k: u32) -> (r: Option<WinningLine>)
        requires
            self.wf(),
            k < 4,
        ensures
            r == self@.line_in(m, k as int),
    {
        let dx: i64 = if k == 0 || k == 1 {
            1
        } else if k == 2 {
            0
        } else {
            -1
        };
        let dy: i64 = if k == 0 {
            0
        } else {
            1
        };
        let f = self.count_run(m.pos, dx, dy, m.player);
        let b = self.count_run(m.pos, -dx, -dy, m.player);
        let x = m.pos.x as i64;
        let y = m.pos.y as i64;
        let fwd = Coord { x: shifted(x, dx, f) as u32, y: shifted(y, dy, f) as u32 };
        let bwd = Coord { x: shifted(x, -dx, b) as u32, y: shifted(y, -dy, b) as u32 };
        if f + b >= 3 {
            if f >= b {
                Some(WinningLine(fwd, bwd))
            } else {
                Some(WinningLine(bwd, fwd))
            }
        } else {
            None
        }
    }

    /// The first line that `m`, placed on this board, completes: for each
    /// direction in turn, counts the pieces of `m.player` next to the cell of
    /// `m` on both sides, and reports a line when they make four or more with it.
    pub fn check_win_from(&self, m: Move) -> (r: Option<WinningLine>)
        requires
            self.wf(),
        ensures
            r == self@.win_from(m),
    {
        let l = self.line_in_dir(m, 0);
        if l.is_some() {
            return l;
        }
        let l = self.line_in_dir(m, 1);
        if l.is_some() {
            return l;
        }
        let l = self.line_in_dir(m, 2);
        if l.is_some() {
            return l;
        }
        self.line_in_dir(m, 3)
    }

    /// The line completed by the last move, if any.
    pub fn check_for_win(&self) -> (r: Option<WinningLine>)
        requires
            self.wf(),
        ensures
            r == self@.win_line(),
    {
        let n = self.move_history.len();
        if n == 0 {
            None
        } else {
            self.check_win_from(self.move_history[n - 1])
        }
    }

    /// Whether the game goes on, or how it ended.
    pub fn get_board_state(&self) -> (r: BoardState)
        requires
            self.wf(),
        ensures
            r == self@.state(),
    {
        if self.is_draw() {
            BoardState::GameOver(GameResult::Draw)
        } else {
            match self.check_for_win() {
                Some(winning_line) => BoardState::GameOver(
                    GameResult::Win(self.cur_player.opposite(), winning_line),
                ),
                None => BoardState::Playing,
            }
        }
    }
}

/// The moves generated for `p` in the first `n` columns are those of `p` on
/// top of a column before `n` that is not full.
pub proof fn lemma_moves_upto(v: BoardView, p: Player, n: nat)
    requires
        v.wf(),
        n <= v.width,
    ensures
        forall|m: Move|
            #[trigger] v.moves_upto(p, n).contains(m) <==> (m.player == p && m.pos.x < n
                && v.levels[m.pos.x as int] < v.height && m.pos.y == v.levels[m.pos.x as int]),
    decreases n,
{
    if n > 0 {
        lemma_moves_upto(v, p, (n - 1) as nat);
        let c = (n - 1) as int;
        let prev = v.moves_upto(p, (n - 1) as nat);
        let mc = Move { pos: Coord { x: c as u32, y: v.levels[c] }, player: p };
        assert(v.width <= v.width * v.height) by (nonlinear_arith)
            requires
                1 <= v.height,
        ;
        assert(mc.pos.x as int == c);
        assert forall|m: Move| #[trigger]
            v.moves_upto(p, n).contains(m) <==> (m.player == p && m.pos.x < n && v.levels[m.pos.x as int]
                < v.height && m.pos.y == v.levels[m.pos.x as int]) by {
            let rhs = m.player == p && m.pos.x < n && v.levels[m.pos.x as int] < v.height
                && m.pos.y == v.levels[m.pos.x as int];
            if v.levels[c] < v.height {
                let s = prev.push(mc);
                assert(v.moves_upto(p, n) == s);
                if s.contains(m) {
                    let i = choose|i: int| 0 <= i < s.len() && s[i] == m;
                    if i < prev.len() {
                        assert(prev[i] == m);
                        assert(prev.contains(m));
                    }
                }
                if rhs {
                    if m.pos.x as int == c {
                        assert(m == mc);
                        assert(s[prev.len() as int] == m);
                    } else {
                        assert(prev.contains(m));
                        let i = choose|i: int| 0 <= i < prev.len() && prev[i] == m;
                        assert(s[i] == m);
                    }
                    assert(s.contains(m));
                }
            } else {
                assert(v.moves_upto(p, n) == prev);
            }
        }
    }
}

/// On a well-formed board, the moves generated for the player to move are
/// exactly the legal moves.
pub proof fn lemma_moves_are_legal(v: BoardView)
    requires
        v.wf(),
    ensures
        forall|m: Move| #[trigger] v.moves_for(v.cur).contains(m) <==> v.is_legal(m),
{
    lemma_moves_upto(v, v.cur, v.width);
    assert forall|m: Move| #[trigger] v.moves_for(v.cur).contains(m) <==> v.is_legal(m) by {
        if m.pos.x < v.width && m.pos.y < v.height {
            assert(v.grid[v.index(m.pos.x as int, m.pos.y as int)] is Some <==> m.pos.y < v.levels[m.pos.x as int]);
        }
    }
}

/// Playing a sequence of moves from the empty board, each legal on the board
/// that the ones before it built, gives a well-formed board whose history is
/// that sequence.
pub proof fn lemma_legal_moves_replay(w: nat, h: nat, moves: Seq<Move>)
    requires
        1 <= w,
        1 <= h,
        w * h <= u32::MAX,
        forall|i: int|
            0 <= i < moves.len() ==> #[trigger] replay(w, h, moves.take(i)).is_legal(moves[i]),
    ensures
        replay(w, h, moves).wf(),
        replay(w, h, moves).history == moves,
{
    lemma_replay_prefix_wf(w, h, moves, moves.len() as int);
    assert(moves.take(moves.len() as int) == moves);
}

/// Replaying the history of a well-formed board from the empty board of its
/// size reproduces its grid, its column levels and the player to move.
pub proof fn lemma_history_replays(v: BoardView)
    requires
        v.wf(),
    ensures
        replay(v.width, v.height, v.history).grid == v.grid,
        replay(v.width, v.height, v.history).levels == v.levels,
        replay(v.width, v.height, v.history).cur == v.cur,
{
}

/// A move is illegal in a full column, at a row other than its column's
/// level, onto an occupied cell, and by the player who is not to move.
pub proof fn lemma_illegal_moves(v: BoardView, m: Move)
    requires
        v.wf(),
    ensures
        m.pos.x < v.width && v.column_full(m.pos.x as int) ==> !v.is_legal(m),
        m.pos.x < v.width && m.pos.y != v.levels[m.pos.x as int] ==> !v.is_legal(m),
        v.cell(m.pos.x as int, m.pos.y as int) is Some ==> !v.is_legal(m),
        m.player != v.cur ==> !v.is_legal(m),
{
}

/// The `n + 1` cells from `a` on along `(dx, dy)` all hold pieces of `p`.
pub open spec fn line_owned(v: BoardView, a: Coord, dx: int, dy: int, n: int, p: Player) -> bool {
    forall|i: int|
        0 <= i <= n ==> #[trigger] v.owned(shift(a.x as int, dx, i), shift(a.y as int, dy, i), p)
}

/// `l` joins four or more aligned cells that all hold pieces of `p`.
pub open spec fn is_winning_line(v: BoardView, l: WinningLine, p: Player) -> bool {
    exists|dx: int, dy: int, n: int|
        -1 <= dx <= 1 && -1 <= dy <= 1 && (dx != 0 || dy != 0) && n >= 3 && l.1.x == shift(
            l.0.x as int,
            dx,
            n,
        ) && l.1.y == shift(l.0.y as int, dy, n) && #[trigger] line_owned(v, l.0, dx, dy, n, p)
}

/// The four cells along `(dx, dy)` at steps `-a` to `3 - a` from `(x, y)`
/// all hold pieces of `p`.
pub open spec fn window_owned(
    v: BoardView,
    x: int,
    y: int,
    dx: int,
    dy: int,
    a: int,
    p: Player,
) -> bool {
    forall|i: int| 0 <= i <= 3 ==> #[trigger] v.owned(shift(x, dx, i - a), shift(y, dy, i - a), p)
}

/// The cells counted by a run hold pieces of the player.
proof fn lemma_run(v: BoardView, x: int, y: int, dx: int, dy: int, p: Player, n: nat)
    requires
        n <= 3,
    ensures
        n <= v.run(x, y, dx, dy, p, n) <= 3,
        forall|j: int|
            n < j <= v.run(x, y, dx, dy, p, n) ==> #[trigger] v.owned(
                shift(x, dx, j),
                shift(y, dy, j),
                p,
            ),
    decreases 3 - n,
{
    if n < 3 && v.owned(shift(x, dx, n + 1 as int), shift(y, dy, n + 1 as int), p) {
        lemma_run(v, x, y, dx, dy, p, n + 1);
    }
}

/// A run goes on at least as far as the cells hold pieces of the player.
proof fn lemma_run_reaches(v: BoardView, x: int, y: int, dx: int, dy: int, p: Player, n: nat, t: int)
    requires
        n <= t <= 3,
        forall|j: int| n < j <= t ==> #[trigger] v.owned(shift(x, dx, j), shift(y, dy, j), p),
    ensures
        t <= v.run(x, y, dx, dy, p, n),
    decreases 3 - n,
{
    lemma_run(v, x, y, dx, dy, p, n);
    if t > n {
        assert(v.owned(shift(x, dx, n + 1 as int), shift(y, dy, n + 1 as int), p));
        lemma_run_reaches(v, x, y, dx, dy, p, n + 1, t);
    }
}

/// Steps backwards along a direction are steps forwards along the opposite one.
proof fn lemma_shift_neg(x: int, d: int, j: int)
    ensures
        shift(x, -d, j) == shift(x, d, -j),
{
}

/// A line reported along one direction joins four or more cells of the
/// mover, provided the mover's own cell holds its piece.
proof fn lemma_line_in_sound(v: BoardView, m: Move, k: int)
    requires
        v.wf(),
        0 <= k < 4,
        v.owned(m.pos.x as int, m.pos.y as int, m.player),
        v.line_in(m, k) is Some,
    ensures
        is_winning_line(v, v.line_in(m, k)->Some_0, m.player),
{
    let x = m.pos.x as int;
    let y = m.pos.y as int;
    let p = m.player;
    let dx = dir_x(k);
    let dy = dir_y(k);
    let f = v.run(x, y, dx, dy, p, 0) as int;
    let b = v.run(x, y, -dx, -dy, p, 0) as int;
    lemma_run(v, x, y, dx, dy, p, 0);
    lemma_run(v, x, y, -dx, -dy, p, 0);
    let l = v.line_in(m, k)->Some_0;
    assert(v.width <= v.width * v.height && v.height <= v.width * v.height) by (nonlinear_arith)
        requires
            1 <= v.width,
            1 <= v.height,
    ;
    // every cell at a signed offset between -b and f holds a piece of p
    assert forall|j: int| -b <= j <= f implies #[trigger] v.owned(
        shift(x, dx, j),
        shift(y, dy, j),
        p,
    ) by {
        if j < 0 {
            lemma_shift_neg(x, dx, -j);
            lemma_shift_neg(y, dy, -j);
            assert(v.owned(shift(x, -dx, -j), shift(y, -dy, -j), p));
        }
    }
    assert(v.owned(shift(x, dx, f), shift(y, dy, f), p));
    assert(v.owned(shift(x, dx, -b), shift(y, dy, -b), p));
    lemma_shift_neg(x, dx, b);
    lemma_shift_neg(y, dy, b);
    let n = f + b;
    if f >= b {
        assert(l.0.x as int == shift(x, dx, f));
        assert(l.0.y as int == shift(y, dy, f));
        assert forall|i: int| 0 <= i <= n implies #[trigger] v.owned(
            shift(l.0.x as int, -dx, i),
            shift(l.0.y as int, -dy, i),
            p,
        ) by {
            assert(v.owned(shift(x, dx, f - i), shift(y, dy, f - i), p));
        }
        assert(line_owned(v, l.0, -dx, -dy, n, p));
    } else {
        assert(l.0.x as int == shift(x, dx, -b));
        assert(l.0.y as int == shift(y, dy, -b));
        assert forall|i: int| 0 <= i <= n implies #[trigger] v.owned(
            shift(l.0.x as int, dx, i),
            shift(l.0.y as int, dy, i),
            p,
        ) by {
            assert(v.owned(shift(x, dx, i - b), shift(y, dy, i - b), p));
        }
        assert(line_owned(v, l.0, dx, dy, n, p));
    }
}

/// When no line is reported along a direction, no four aligned cells along
/// it through the mover's cell hold pieces of the mover.
proof fn lemma_line_in_complete(v: BoardView, m: Move, k: int, a: int)
    requires
        0 <= k < 4,
        0 <= a <= 3,
        v.line_in(m, k) is None,
    ensures
        !window_owned(v, m.pos.x as int, m.pos.y as int, dir_x(k), dir_y(k), a, m.player),
{
    let x = m.pos.x as int;
    let y = m.pos.y as int;
    let p = m.player;
    let dx = dir_x(k);
    let dy = dir_y(k);
    if window_owned(v, x, y, dx, dy, a, p) {
        assert forall|j: int| 0 < j <= 3 - a implies #[trigger] v.owned(
            shift(x, dx, j),
            shift(y, dy, j),
            p,
        ) by {
            assert(v.owned(shift(x, dx, (j + a) - a), shift(y, dy, (j + a) - a), p));
        }
        lemma_run_reaches(v, x, y, dx, dy, p, 0, 3 - a);
        assert forall|j: int| 0 < j <= a implies #[trigger] v.owned(
            shift(x, -dx, j),
            shift(y, -dy, j),
            p,
        ) by {
            lemma_shift_neg(x, dx, j);
            lemma_shift_neg(y, dy, j);
            assert(v.owned(shift(x, dx, (a - j) - a), shift(y, dy, (a - j) - a), p));
        }
        lemma_run_reaches(v, x, y, -dx, -dy, p, 0, a);
    }
}

/// What the standalone win check reports for a move whose cell holds the
/// mover's piece: a line it gives joins four or more aligned cells of the
/// mover; when it gives none, no four aligned cells through the move's cell,
/// in any of the four directions, all hold the mover's pieces.
pub proof fn lemma_win_from(v: BoardView, m: Move)
    requires
        v.wf(),
        v.owned(m.pos.x as int, m.pos.y as int, m.player),
    ensures
        v.win_from(m) is Some ==> is_winning_line(v, v.win_from(m)->Some_0, m.player),
        v.win_from(m) is None ==> forall|k: int, a: int|
            0 <= k < 4 && 0 <= a <= 3 ==> !#[trigger] window_owned(
                v,
                m.pos.x as int,
                m.pos.y as int,
                dir_x(k),
                dir_y(k),
                a,
                m.player,
            ),
{
    if v.line_in(m, 0) is Some {
        lemma_line_in_sound(v, m, 0);
    } else if v.line_in(m, 1) is Some {
        lemma_line_in_sound(v, m, 1);
    } else if v.line_in(m, 2) is Some {
        lemma_line_in_sound(v, m, 2);
    } else if v.line_in(m, 3) is Some {
        lemma_line_in_sound(v, m, 3);
    } else {
        assert forall|k: int, a: int| 0 <= k < 4 && 0 <= a <= 3 implies !#[trigger] window_owned(
            v,
            m.pos.x as int,
            m.pos.y as int,
            dir_x(k),
            dir_y(k),
            a,
            m.player,
        ) by {
            lemma_line_in_complete(v, m, k, a);
        }
    }
}

/// On a well-formed board, the line reported for the last move joins four or
/// more aligned cells of the player who made it; when none is reported, no
/// four aligned cells through the last move's cell hold that player's pieces.
pub proof fn lemma_check_for_win(v: BoardView)
    requires
        v.wf(),
        v.history.len() > 0,
    ensures
        v.win_line() is Some ==> is_winning_line(v, v.win_line()->Some_0, v.history.last().player),
        v.win_line() is None ==> forall|k: int, a: int|
            0 <= k < 4 && 0 <= a <= 3 ==> !#[trigger] window_owned(
                v,
                v.history.last().pos.x as int,
                v.history.last().pos.y as int,
                dir_x(k),
                dir_y(k),
                a,
                v.history.last().player,
            ),
{
    lemma_undone_wf(v);
    lemma_apply_wf(v.undone(), v.history.last());
    lemma_win_from(v, v.history.last());
}

} // verus!
