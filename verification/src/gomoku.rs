//! The six-in-a-row board variant: a 19 x 19 board on which two seats place
//! markers in turn; the first seat with `WIN_LEN` consecutive markers in a
//! row, column, or diagonal wins, and a full board with no winner is a tie.

use crate::codec::push_char;
use crate::game::{Game, GameOutcome, GamePlayer};
use crate::game_manage::{first_index_of, AppState, GameInstance};
use crate::shared::{Error, PlayerId};
use vstd::prelude::*;

verus! {

use vstd::string::StrSliceExecFns;

broadcast use vstd::array::group_array_axioms;

/// Side length of the square board.
pub const BOARD_SIZE: usize = 19;

/// Number of consecutive markers that win the game.
pub const WIN_LEN: usize = 6;

/// Board state: each cell holds `-1` (empty) or the seat index of the marker,
/// and `turn` is the seat awaiting a move.
#[derive(Clone, Copy, Debug, PartialEq)]
pub struct Gomoku {
    board: [[i8; BOARD_SIZE]; BOARD_SIZE],
    turn: i8,
}

/// A move: the coordinates of the cell to mark.
#[derive(Clone, Copy, Debug, PartialEq, Eq, Structural)]
pub struct Move {
    pub x: i32,
    pub y: i32,
}

/// Serialized character of a cell value.
pub open spec fn cell_char(v: int) -> char {
    if v == 0 {
        '0'
    } else if v == 1 {
        '1'
    } else {
        '.'
    }
}

impl Gomoku {
    /// The marker in the cell at `(x, y)`.
    pub closed spec fn cell(self, x: int, y: int) -> i8 {
        self.board@[x]@[y]
    }

    /// Whether `(x, y)` lies on the board.
    pub open spec fn in_board(x: int, y: int) -> bool {
        0 <= x < BOARD_SIZE && 0 <= y < BOARD_SIZE
    }

    /// A winning run for seat `p` in row `x` starting at column `y`.
    pub open spec fn row_window(self, p: int, x: int, y: int) -> bool {
        forall|k: int| 0 <= k < WIN_LEN ==> #[trigger] self.cell(x, y + k) == p
    }

    /// A winning run for seat `p` somewhere in row `x`.
    pub open spec fn row_win_in_row(self, p: int, x: int) -> bool {
        exists|y: int| 0 <= y <= BOARD_SIZE - WIN_LEN && self.row_window(p, x, y)
    }

    /// A winning run for seat `p` in some row.
    pub open spec fn row_win(self, p: int) -> bool {
        exists|x: int| 0 <= x < BOARD_SIZE && self.row_win_in_row(p, x)
    }

    /// A winning run for seat `p` in column `y` starting at row `x`.
    pub open spec fn col_window(self, p: int, x: int, y: int) -> bool {
        forall|k: int| 0 <= k < WIN_LEN ==> #[trigger] self.cell(x + k, y) == p
    }

    /// A winning run for seat `p` somewhere in column `y`.
    pub open spec fn col_win_in_col(self, p: int, y: int) -> bool {
        exists|x: int| 0 <= x <= BOARD_SIZE - WIN_LEN && self.col_window(p, x, y)
    }

    /// A winning run for seat `p` in some column.
    pub open spec fn col_win(self, p: int) -> bool {
        exists|y: int| 0 <= y < BOARD_SIZE && self.col_win_in_col(p, y)
    }

    /// A winning run for seat `p` on the down-right diagonal from `(x, y)`.
    pub open spec fn main_diag_window(self, p: int, x: int, y: int) -> bool {
        forall|k: int| 0 <= k < WIN_LEN ==> #[trigger] self.cell(x + k, y + k) == p
    }

    /// A winning run for seat `p` on the down-left diagonal from `(x, y)`.
    pub open spec fn anti_diag_window(self, p: int, x: int, y: int) -> bool {
        forall|k: int| 0 <= k < WIN_LEN ==> #[trigger] self.cell(x + k, y - k) == p
    }

    /// A winning run for seat `p` on some diagonal, in either direction.
    pub open spec fn diag_win(self, p: int) -> bool {
        ||| exists|x: int, y: int|
            0 <= x <= BOARD_SIZE - WIN_LEN && 0 <= y <= BOARD_SIZE - WIN_LEN
                && self.main_diag_window(p, x, y)
        ||| exists|x: int, y: int|
            0 <= x <= BOARD_SIZE - WIN_LEN && WIN_LEN - 1 <= y < BOARD_SIZE
                && self.anti_diag_window(p, x, y)
    }

    /// Seat `p` has a winning run somewhere on the board.
    pub open spec fn spec_win(self, p: int) -> bool {
        (p == 0 || p == 1) && (self.row_win(p) || self.col_win(p) || self.diag_win(p))
    }

    /// Every cell is occupied.
    pub open spec fn spec_full(self) -> bool {
        forall|x: int, y: int| Self::in_board(x, y) ==> #[trigger] self.cell(x, y) != -1
    }

    /// The marker in the cell at `(x, y)`.
    fn at(&self, x: usize, y: usize) -> (c: i8)
        requires
            x < BOARD_SIZE,
            y < BOARD_SIZE,
        ensures
            c == self.cell(x as int, y as int),
    {
        self.board[x][y]
    }

    /// Whether every cell is occupied.
    pub fn full(&self) -> (r: bool)
        ensures
            r == self.spec_full(),
    {
        let mut x: usize = 0;
        while x < BOARD_SIZE
            invariant
                x <= BOARD_SIZE,
                forall|a: int, b: int| 0 <= a < x && 0 <= b < BOARD_SIZE ==> #[trigger] self.cell(a, b) != -1,
            decreases BOARD_SIZE - x,
        {
            let mut y: usize = 0;
            while y < BOARD_SIZE
                invariant
                    x < BOARD_SIZE,
                    y <= BOARD_SIZE,
                    forall|b: int| 0 <= b < y ==> #[trigger] self.cell(x as int, b) != -1,
                decreases BOARD_SIZE - y,
            {
                if self.at(x, y) == -1 {
                    return false;
                }
                y = y + 1;
            }
            x = x + 1;
        }
        true
    }

    /// Whether seat `player` has a winning run in row `row_i`, found by a
    /// single scan counting the current run length.
    pub fn check_row(&self, player: GamePlayer, row_i: usize) -> (r: bool)
        requires
            player < 2,
            row_i < BOARD_SIZE,
        ensures
            r == self.row_win_in_row(player as int, row_i as int),
    {
        let p = player as i8;
        let x = row_i;
        let mut count: usize = 0;
        let mut y: usize = 0;
        while y < BOARD_SIZE
            invariant
                player < 2,
                p == player as i8,
                x == row_i < BOARD_SIZE,
                y <= BOARD_SIZE,
                count <= y,
                count < WIN_LEN,
                forall|k: int| y - count <= k < y ==> #[trigger] self.cell(x as int, k) == player,
                count < y ==> self.cell(x as int, y - count - 1) != player,
                forall|y0: int| 0 <= y0 && y0 + WIN_LEN <= y
                    ==> !self.row_window(player as int, x as int, y0),
            decreases BOARD_SIZE - y,
        {
            if self.at(x, y) == p {
                count = count + 1;
                if count >= WIN_LEN {
                    proof {
                        let y0 = y + 1 - WIN_LEN;
                        assert forall|k: int| 0 <= k < WIN_LEN
                            implies #[trigger] self.cell(x as int, y0 + k) == player by {
                            assert(y + 1 - count <= y0 + k <= y);
                        }
                        assert(self.row_window(player as int, x as int, y0));
                    }
                    return true;
                }
            } else {
                count = 0;
            }
            proof {
                let yn = y + 1;
                assert forall|y0: int| 0 <= y0 && y0 + WIN_LEN <= yn
                    implies !self.row_window(player as int, x as int, y0) by {
                    if y0 + WIN_LEN == yn {
                        let w = y - count;
                        assert(y0 <= w <= y);
                        assert(self.cell(x as int, w) != player);
                        if self.row_window(player as int, x as int, y0) {
                            assert(self.cell(x as int, y0 + (w - y0)) == player);
                        }
                    }
                }
            }
            y = y + 1;
        }
        false
    }

    /// Whether seat `player` has a winning run in column `col_i`.
    pub fn check_col(&self, player: GamePlayer, col_i: usize) -> (r: bool)
        requires
            player < 2,
            col_i < BOARD_SIZE,
        ensures
            r == self.col_win_in_col(player as int, col_i as int),
    {
        let p = player as i8;
        let y = col_i;
        let mut count: usize = 0;
        let mut x: usize = 0;
        while x < BOARD_SIZE
            invariant
                player < 2,
                p == player as i8,
                y == col_i < BOARD_SIZE,
                x <= BOARD_SIZE,
                count <= x,
                count < WIN_LEN,
                forall|k: int| x - count <= k < x ==> #[trigger] self.cell(k, y as int) == player,
                count < x ==> self.cell(x - count - 1, y as int) != player,
                forall|x0: int| 0 <= x0 && x0 + WIN_LEN <= x
                    ==> !self.col_window(player as int, x0, y as int),
            decreases BOARD_SIZE - x,
        {
            if self.at(x, y) == p {
                count = count + 1;
                if count >= WIN_LEN {
                    proof {
                        let x0 = x + 1 - WIN_LEN;
                        assert forall|k: int| 0 <= k < WIN_LEN
                            implies #[trigger] self.cell(x0 + k, y as int) == player by {
                            assert(x + 1 - count <= x0 + k <= x);
                        }
                        assert(self.col_window(player as int, x0, y as int));
                    }
                    return true;
                }
            } else {
                count = 0;
            }
            proof {
                let xn = x + 1;
                assert forall|x0: int| 0 <= x0 && x0 + WIN_LEN <= xn
                    implies !self.col_window(player as int, x0, y as int) by {
                    if x0 + WIN_LEN == xn {
                        let w = x - count;
                        assert(x0 <= w <= x);
                        assert(self.cell(w, y as int) != player);
                        if self.col_window(player as int, x0, y as int) {
                            assert(self.cell(x0 + (w - x0), y as int) == player);
                        }
                    }
                }
            }
            x = x + 1;
        }
        false
    }

    /// Whether the down-right diagonal window starting at `(x, y)` is a
    /// winning run for `player`.
    fn main_window_at(&self, player: GamePlayer, x: usize, y: usize) -> (r: bool)
        requires
            player < 2,
            x + WIN_LEN <= BOARD_SIZE,
            y + WIN_LEN <= BOARD_SIZE,
        ensures
            r == self.main_diag_window(player as int, x as int, y as int),
    {
        let p = player as i8;
        let r = self.at(x, y) == p && self.at(x + 1, y + 1) == p && self.at(x + 2, y + 2) == p
            && self.at(x + 3, y + 3) == p && self.at(x + 4, y + 4) == p
            && self.at(x + 5, y + 5) == p;
        proof {
            if r {
                assert forall|k: int| 0 <= k < WIN_LEN
                    implies #[trigger] self.cell(x + k, y + k) == player by {
                    if k == 0 {
                    } else if k == 1 {
                    } else if k == 2 {
                    } else if k == 3 {
                    } else if k == 4 {
                    } else {
                        assert(k == 5);
                    }
                }
            } else {
                if self.main_diag_window(player as int, x as int, y as int) {
                    assert(self.cell(x as int + 0, y as int + 0) == player);
                    assert(self.cell(x as int + 1, y as int + 1) == player);
                    assert(self.cell(x as int + 2, y as int + 2) == player);
                    assert(self.cell(x as int + 3, y as int + 3) == player);
                    assert(self.cell(x as int + 4, y as int + 4) == player);
                    assert(self.cell(x as int + 5, y as int + 5) == player);
                }
            }
        }
        r
    }

    /// Whether the down-left diagonal window starting at `(x, y)` is a
    /// winning run for `player`.
    fn anti_window_at(&self, player: GamePlayer, x: usize, y: usize) -> (r: bool)
        requires
            player < 2,
            x + WIN_LEN <= BOARD_SIZE,
            WIN_LEN - 1 <= y < BOARD_SIZE,
        ensures
            r == self.anti_diag_window(player as int, x as int, y as int),
    {
        let p = player as i8;
        let r = self.at(x, y) == p && self.at(x + 1, y - 1) == p && self.at(x + 2, y - 2) == p
            && self.at(x + 3, y - 3) == p && self.at(x + 4, y - 4) == p
            && self.at(x + 5, y - 5) == p;
        proof {
            if r {
                assert forall|k: int| 0 <= k < WIN_LEN
                    implies #[trigger] self.cell(x + k, y - k) == player by {
                    if k == 0 {
                    } else if k == 1 {
                    } else if k == 2 {
                    } else if k == 3 {
                    } else if k == 4 {
                    } else {
                        assert(k == 5);
                    }
                }
            } else {
                if self.anti_diag_window(player as int, x as int, y as int) {
                    assert(self.cell(x as int + 0, y as int - 0) == player);
                    assert(self.cell(x as int + 1, y as int - 1) == player);
                    assert(self.cell(x as int + 2, y as int - 2) == player);
                    assert(self.cell(x as int + 3, y as int - 3) == player);
                    assert(self.cell(x as int + 4, y as int - 4) == player);
                    assert(self.cell(x as int + 5, y as int - 5) == player);
                }
            }
        }
        r
    }

    /// Whether seat `player` has a winning run on any diagonal, checking
    /// every window in both diagonal directions.
    pub fn check_diags(&self, player: GamePlayer) -> (r: bool)
        requires
            player < 2,
        ensures
            r == self.diag_win(player as int),
    {
        let lim = BOARD_SIZE - WIN_LEN + 1;
        let mut x: usize = 0;
        while x < lim
            invariant
                player < 2,
                lim == BOARD_SIZE - WIN_LEN + 1,
                x <= lim,
                forall|a: int, b: int| 0 <= a < x && 0 <= b <= BOARD_SIZE - WIN_LEN
                    ==> !self.main_diag_window(player as int, a, b),
            decreases lim - x,
        {
            let mut y: usize = 0;
            while y < lim
                invariant
                    player < 2,
                    lim == BOARD_SIZE - WIN_LEN + 1,
                    x < lim,
                    y <= lim,
                    forall|a: int, b: int| 0 <= a < x && 0 <= b <= BOARD_SIZE - WIN_LEN
                        ==> !self.main_diag_window(player as int, a, b),
                    forall|b: int| 0 <= b < y
                        ==> !self.main_diag_window(player as int, x as int, b),
                decreases lim - y,
            {
                if self.main_window_at(player, x, y) {
                    return true;
                }
                y = y + 1;
            }
            x = x + 1;
        }
        let mut x2: usize = 0;
        while x2 < lim
            invariant
                player < 2,
                lim == BOARD_SIZE - WIN_LEN + 1,
                x2 <= lim,
                forall|a: int, b: int| 0 <= a <= BOARD_SIZE - WIN_LEN
                    && 0 <= b <= BOARD_SIZE - WIN_LEN
                    ==> !self.main_diag_window(player as int, a, b),
                forall|a: int, b: int| 0 <= a < x2 && WIN_LEN - 1 <= b < BOARD_SIZE
                    ==> !self.anti_diag_window(player as int, a, b),
            decreases lim - x2,
        {
            let mut y: usize = WIN_LEN - 1;
            while y < BOARD_SIZE
                invariant
                    player < 2,
                    lim == BOARD_SIZE - WIN_LEN + 1,
                    x2 < lim,
                    WIN_LEN - 1 <= y <= BOARD_SIZE,
                    forall|a: int, b: int| 0 <= a < x2 && WIN_LEN - 1 <= b < BOARD_SIZE
                        ==> !self.anti_diag_window(player as int, a, b),
                    forall|b: int| WIN_LEN - 1 <= b < y
                        ==> !self.anti_diag_window(player as int, x2 as int, b),
                decreases BOARD_SIZE - y,
            {
                if self.anti_window_at(player, x2, y) {
                    return true;
                }
                y = y + 1;
            }
            x2 = x2 + 1;
        }
        false
    }

    /// Whether seat `player` has any winning run; seats other than 0 and 1
    /// never win.
    pub fn check_win(&self, player: GamePlayer) -> (r: bool)
        ensures
            r == self.spec_win(player as int),
    {
        if player != 0 && player != 1 {
            return false;
        }
        let mut i: usize = 0;
        while i < BOARD_SIZE
            invariant
                player < 2,
                i <= BOARD_SIZE,
                forall|j: int| 0 <= j < i ==> !self.row_win_in_row(player as int, j),
                forall|j: int| 0 <= j < i ==> !self.col_win_in_col(player as int, j),
            decreases BOARD_SIZE - i,
        {
            if self.check_col(player, i) {
                return true;
            }
            if self.check_row(player, i) {
                return true;
            }
            i = i + 1;
        }
        self.check_diags(player)
    }
}

impl Game for Gomoku {
    type Move = Move;

    /// A score in half-points, keeping the arithmetic integral: a win is
    /// two halves (1.0), a draw one half each (0.5), a loss none (0.0).
    type Score = u8;

    closed spec fn wf(&self) -> bool {
        &&& 0 <= self.turn <= 1
        &&& forall|x: int, y: int| Self::in_board(x, y) ==> -1 <= #[trigger] self.cell(x, y) <= 1
    }

    open spec fn num_seats(&self) -> int {
        2
    }

    open spec fn spec_players_ok(n: int) -> bool {
        n == 2
    }

    closed spec fn is_initial(&self, n: int) -> bool {
        &&& n == 2
        &&& self.turn == 0
        &&& forall|x: int, y: int| Self::in_board(x, y) ==> #[trigger] self.cell(x, y) == -1
    }

    closed spec fn encoded(&self) -> Seq<char> {
        Seq::new(
            (BOARD_SIZE * BOARD_SIZE + 1) as nat,
            |i: int|
                if i == 0 {
                    cell_char(self.turn as int)
                } else {
                    cell_char(
                        self.cell((i - 1) / (BOARD_SIZE as int), (i - 1) % (BOARD_SIZE as int))
                            as int,
                    )
                },
        )
    }

    open spec fn decodes_to(blob: Seq<char>, players: int, g: &Self) -> bool {
        &&& players == 2
        &&& g.wf()
        &&& g.encoded() == blob
    }

    open spec fn spec_finished(&self) -> bool {
        self.spec_full() || self.spec_win(0) || self.spec_win(1)
    }

    closed spec fn spec_waiting_on(&self, seat: int) -> bool {
        seat == self.turn as int && !self.spec_finished()
    }

    closed spec fn move_allowed(&self, seat: int, mv: &Move) -> bool {
        &&& seat == self.turn as int
        &&& Self::in_board(mv.x as int, mv.y as int)
        &&& self.cell(mv.x as int, mv.y as int) == -1
    }

    closed spec fn move_result(&self, seat: int, mv: &Move, next: &Self) -> bool {
        &&& next.turn == 1 - self.turn
        &&& forall|a: int, b: int| Self::in_board(a, b)
            ==> #[trigger] next.cell(a, b) == (if a == mv.x as int && b == mv.y as int {
                seat as i8
            } else {
                self.cell(a, b)
            })
    }

    open spec fn spec_scores(&self) -> Option<Seq<u8>> {
        if self.spec_win(0) {
            Some(seq![2u8, 0u8])
        } else if self.spec_win(1) {
            Some(seq![0u8, 2u8])
        } else if self.spec_full() {
            Some(seq![1u8, 1u8])
        } else {
            None
        }
    }

    open spec fn spec_outcome(&self) -> GameOutcome {
        if self.spec_win(0) {
            GameOutcome::Win(0)
        } else if self.spec_win(1) {
            GameOutcome::Win(1)
        } else if self.spec_full() {
            GameOutcome::Tie
        } else {
            GameOutcome::Undecided
        }
    }

    proof fn lemma_players_ok(n: int) {
    }

    proof fn lemma_initial(g: &Self, n: int) {
        lemma_empty_no_win(g);
        assert(!g.spec_full()) by {
            assert(g.cell(0, 0) == -1);
        }
    }

    proof fn lemma_round_trip(&self) {
    }

    proof fn lemma_decoded_wf(blob: Seq<char>, players: int, g: &Self) {
    }

    proof fn lemma_decodes_unique(blob: Seq<char>, players: int, a: &Self, b: &Self) {
        let n = BOARD_SIZE as int;
        assert forall|x: int, y: int| Self::in_board(x, y)
            implies a.cell(x, y) == b.cell(x, y) by {
            let i = 1 + x * n + y;
            assert(0 <= x * n <= (n - 1) * n) by (nonlinear_arith)
                requires 0 <= x <= n - 1, n == 19;
            assert((i - 1) / n == x && (i - 1) % n == y) by (nonlinear_arith)
                requires i - 1 == x * n + y, 0 <= y < n, n == 19;
            assert(a.encoded()[i] == b.encoded()[i]);
            assert(cell_char(a.cell(x, y) as int) == cell_char(b.cell(x, y) as int));
            assert(-1 <= a.cell(x, y) <= 1 && -1 <= b.cell(x, y) <= 1);
        }
        assert(a.encoded()[0] == b.encoded()[0]);
        assert(a.turn == b.turn);
        assert forall|x: int| 0 <= x < n implies a.board@[x] == b.board@[x] by {
            assert forall|y: int| 0 <= y < n implies a.board@[x]@[y] == b.board@[x]@[y] by {
                assert(a.cell(x, y) == b.cell(x, y));
            }
            assert(a.board@[x]@ =~= b.board@[x]@);
        }
        assert(a.board@ =~= b.board@);
        assert(a.board == b.board);
    }

    proof fn lemma_move(&self, seat: int, mv: &Move, next: &Self) {
    }

    proof fn lemma_outcome_win_seat(&self) {
    }

    fn check_num_players(players: usize) -> (r: bool) {
        players == 2
    }

    fn new_with_players(players: usize) -> (g: Self) {
        Gomoku { board: [[-1; BOARD_SIZE]; BOARD_SIZE], turn: 0 }
    }

    fn from_state(state: &str, players: usize) -> (r: Option<Self>) {
        decode_state(state, players)
    }

    fn state(&self, for_seat: GamePlayer) -> (r: String) {
        encode_state(self)
    }

    fn finished(&self) -> (r: bool) {
        self.full() || self.check_win(0) || self.check_win(1)
    }

    fn waiting_on(&self, seat: GamePlayer) -> (r: bool) {
        seat as i8 == self.turn && !self.finished()
    }

    fn make_move(&mut self, seat: GamePlayer, mv: &Move) -> (ok: bool) {
        if seat > 1 {
            return false;
        }
        if seat as i8 != self.turn {
            return false;
        }
        if mv.x < 0 || mv.y < 0 || mv.x >= BOARD_SIZE as i32 || mv.y >= BOARD_SIZE as i32 {
            return false;
        }
        let x = mv.x as usize;
        let y = mv.y as usize;
        if self.board[x][y] != -1 {
            return false;
        }
        self.board[x][y] = seat as i8;
        self.turn = if self.turn == 0 {
            1
        } else {
            0
        };
        true
    }

    fn scores(&self) -> (r: Option<Vec<u8>>) {
        if self.check_win(0) {
            let mut v: Vec<u8> = Vec::new();
            v.push(2);
            v.push(0);
            proof {
                assert(v@ =~= seq![2u8, 0u8]);
            }
            Some(v)
        } else if self.check_win(1) {
            let mut v: Vec<u8> = Vec::new();
            v.push(0);
            v.push(2);
            proof {
                assert(v@ =~= seq![0u8, 2u8]);
            }
            Some(v)
        } else if self.full() {
            let mut v: Vec<u8> = Vec::new();
            v.push(1);
            v.push(1);
            proof {
                assert(v@ =~= seq![1u8, 1u8]);
            }
            Some(v)
        } else {
            None
        }
    }

    fn outcome(&self) -> (r: GameOutcome) {
        if self.check_win(0) {
            GameOutcome::Win(0)
        } else if self.check_win(1) {
            GameOutcome::Win(1)
        } else if self.full() {
            GameOutcome::Tie
        } else {
            GameOutcome::Undecided
        }
    }

    fn clone_game(&self) -> (r: Self) {
        *self
    }
}

/// On a board with no markers, neither seat has a winning run.
proof fn lemma_empty_no_win(g: &Gomoku)
    requires
        forall|x: int, y: int| Gomoku::in_board(x, y) ==> #[trigger] g.cell(x, y) == -1,
    ensures
        !g.spec_win(0),
        !g.spec_win(1),
{
    assert forall|p: int, x: int, y: int|
        (p == 0 || p == 1) && 0 <= x < BOARD_SIZE && 0 <= y <= BOARD_SIZE - WIN_LEN
        implies !g.row_window(p, x, y) by {
        if g.row_window(p, x, y) {
            assert(g.cell(x, y + 0) == p);
            assert(g.cell(x, y) == -1);
        }
    }
    assert forall|p: int, x: int, y: int|
        (p == 0 || p == 1) && 0 <= x <= BOARD_SIZE - WIN_LEN && 0 <= y < BOARD_SIZE
        implies !g.col_window(p, x, y) by {
        if g.col_window(p, x, y) {
            assert(g.cell(x + 0, y) == p);
            assert(g.cell(x, y) == -1);
        }
    }
    assert forall|p: int, x: int, y: int|
        (p == 0 || p == 1) && 0 <= x <= BOARD_SIZE - WIN_LEN && 0 <= y <= BOARD_SIZE - WIN_LEN
        implies !g.main_diag_window(p, x, y) by {
        if g.main_diag_window(p, x, y) {
            assert(g.cell(x + 0, y + 0) == p);
            assert(g.cell(x, y) == -1);
        }
    }
    assert forall|p: int, x: int, y: int|
        (p == 0 || p == 1) && 0 <= x <= BOARD_SIZE - WIN_LEN && WIN_LEN - 1 <= y < BOARD_SIZE
        implies !g.anti_diag_window(p, x, y) by {
        if g.anti_diag_window(p, x, y) {
            assert(g.cell(x + 0, y - 0) == p);
            assert(g.cell(x, y) == -1);
        }
    }
}

/// Serializes a board: the turn character, then the 361 cell characters in
/// row-major order.
fn encode_state(g: &Gomoku) -> (r: String)
    requires
        g.wf(),
    ensures
        r@ == g.encoded(),
{
    let mut out = String::new();
    let t = if g.turn == 0 {
        '0'
    } else {
        '1'
    };
    push_char(&mut out, t);
    proof {
        assert(out@ =~= g.encoded().take(1));
    }
    let mut x: usize = 0;
    while x < BOARD_SIZE
        invariant
            g.wf(),
            x <= BOARD_SIZE,
            out@ == g.encoded().take(1 + x as int * (BOARD_SIZE as int)),
        decreases BOARD_SIZE - x,
    {
        let mut y: usize = 0;
        while y < BOARD_SIZE
            invariant
                g.wf(),
                x < BOARD_SIZE,
                y <= BOARD_SIZE,
                out@ == g.encoded().take(1 + x as int * (BOARD_SIZE as int) + y as int),
            decreases BOARD_SIZE - y,
        {
            let c = g.at(x, y);
            let ch = if c == 0 {
                '0'
            } else if c == 1 {
                '1'
            } else {
                '.'
            };
            push_char(&mut out, ch);
            proof {
                let nn = BOARD_SIZE as int;
                let i = 1 + x as int * nn + y as int;
                assert(0 <= (x as int) * nn <= (nn - 1) * nn) by (nonlinear_arith)
                    requires 0 <= (x as int) <= nn - 1, nn == 19;
                assert((i - 1) / nn == (x as int) && (i - 1) % nn == (y as int)) by (nonlinear_arith)
                    requires i - 1 == (x as int) * nn + (y as int), 0 <= (y as int) < nn, nn == 19;
                assert(ch == g.encoded()[i]);
                assert(out@ =~= g.encoded().take(i + 1));
            }
            y = y + 1;
        }
        x = x + 1;
    }
    proof {
        assert(g.encoded().take(1 + BOARD_SIZE as int * (BOARD_SIZE as int)) =~= g.encoded());
    }
    out
}

/// Deserializes a board blob; accepts exactly the strings [`encode_state`]
/// produces for a two-player game.
fn decode_state(state: &str, players: usize) -> (r: Option<Gomoku>)
    ensures
        match r {
            Some(g) => Gomoku::decodes_to(state@, players as int, &g),
            None => forall|g: Gomoku| !Gomoku::decodes_to(state@, players as int, &g),
        },
{
    if players != 2 {
        return None;
    }
    let len = state.unicode_len();
    if len != BOARD_SIZE * BOARD_SIZE + 1 {
        proof {
            assert forall|g: Gomoku| !Gomoku::decodes_to(state@, players as int, &g) by {
                assert(g.encoded().len() == BOARD_SIZE * BOARD_SIZE + 1);
            }
        }
        return None;
    }
    let t = state.get_char(0);
    let turn: i8 = if t == '0' {
        0
    } else if t == '1' {
        1
    } else {
        proof {
            assert forall|g: Gomoku| !Gomoku::decodes_to(state@, players as int, &g) by {
                if g.wf() {
                    assert(g.encoded()[0] == cell_char(g.turn as int));
                    assert(cell_char(g.turn as int) == '0' || cell_char(g.turn as int) == '1');
                }
            }
        }
        return None;
    };
    let mut board: [[i8; BOARD_SIZE]; BOARD_SIZE] = [[-1; BOARD_SIZE]; BOARD_SIZE];
    let mut x: usize = 0;
    while x < BOARD_SIZE
        invariant
            len == state@.len() == BOARD_SIZE * BOARD_SIZE + 1,
            x <= BOARD_SIZE,
            forall|a: int, b: int| 0 <= a < x && 0 <= b < BOARD_SIZE
                ==> -1 <= #[trigger] board@[a]@[b] <= 1
                    && cell_char(board@[a]@[b] as int) == state@[1 + a * (BOARD_SIZE as int) + b],
        decreases BOARD_SIZE - x,
    {
        let mut y: usize = 0;
        while y < BOARD_SIZE
            invariant
                len == state@.len() == BOARD_SIZE * BOARD_SIZE + 1,
                x < BOARD_SIZE,
                y <= BOARD_SIZE,
                forall|a: int, b: int| 0 <= a < x && 0 <= b < BOARD_SIZE
                    ==> -1 <= #[trigger] board@[a]@[b] <= 1
                        && cell_char(board@[a]@[b] as int)
                            == state@[1 + a * (BOARD_SIZE as int) + b],
                forall|b: int| 0 <= b < y
                    ==> -1 <= #[trigger] board@[x as int]@[b] <= 1
                        && cell_char(board@[x as int]@[b] as int)
                            == state@[1 + x as int * (BOARD_SIZE as int) + b],
            decreases BOARD_SIZE - y,
        {
            let i = 1 + x * BOARD_SIZE + y;
            proof {
                let nn = BOARD_SIZE as int;
                assert(0 <= (x as int) * nn <= (nn - 1) * nn) by (nonlinear_arith)
                    requires 0 <= (x as int) <= nn - 1, nn == 19;
            }
            let c = state.get_char(i);
            let v: i8 = if c == '.' {
                -1
            } else if c == '0' {
                0
            } else if c == '1' {
                1
            } else {
                proof {
                    let nn = BOARD_SIZE as int;
                    let ii = 1 + x as int * nn + y as int;
                    assert forall|g: Gomoku| !Gomoku::decodes_to(state@, players as int, &g) by {
                        if g.wf() && g.encoded() == state@ {
                            assert((ii - 1) / nn == x as int && (ii - 1) % nn == y as int)
                                by (nonlinear_arith)
                                requires ii - 1 == (x as int) * nn + (y as int), 0 <= (y as int) < nn,
                                    nn == 19;
                            assert(state@[ii] == cell_char(g.cell(x as int, y as int) as int));
                            assert(cell_char(g.cell(x as int, y as int) as int) == '.'
                                || cell_char(g.cell(x as int, y as int) as int) == '0'
                                || cell_char(g.cell(x as int, y as int) as int) == '1');
                        }
                    }
                }
                return None;
            };
            let ghost board0 = board;
            board[x][y] = v;
            proof {
                let nn = BOARD_SIZE as int;
                assert(cell_char(v as int) == c);
                assert(board@[x as int]@[y as int] == v);
                assert forall|a: int, b: int| 0 <= a < BOARD_SIZE && 0 <= b < BOARD_SIZE
                    && !(a == x as int && b == y as int)
                    implies board@[a]@[b] == board0@[a]@[b] by {}
            }
            y = y + 1;
        }
        x = x + 1;
    }
    let g = Gomoku { board, turn };
    proof {
        let nn = BOARD_SIZE as int;
        assert(g.wf());
        assert forall|i: int| 0 <= i < g.encoded().len()
            implies g.encoded()[i] == state@[i] by {
            if i == 0 {
                assert(g.encoded()[0] == cell_char(turn as int));
            } else {
                let a = (i - 1) / nn;
                let b = (i - 1) % nn;
                assert(0 <= a < nn && 0 <= b < nn && i - 1 == a * nn + b) by (nonlinear_arith)
                    requires 1 <= i <= nn * nn, nn == 19, a == (i - 1) / nn, b == (i - 1) % nn;
                assert(cell_char(board@[a]@[b] as int) == state@[1 + a * nn + b]);
            }
        }
        assert(g.encoded() =~= state@);
    }
    Some(g)
}

/// Win-detection symmetry: a winning run for seat `p` makes the outcome
/// report `Win(p)` whenever the opposing seat has no run of its own (when
/// both seats somehow hold runs, seat 0 is reported, by fixed priority).
pub proof fn lemma_run_gives_win(g: &Gomoku, p: int)
    requires
        g.wf(),
        0 <= p <= 1,
        g.spec_win(p),
        !g.spec_win(1 - p),
    ensures
        g.spec_outcome() == GameOutcome::Win(p as usize),
        g.spec_scores() == (if p == 0 {
            Some(seq![2u8, 0u8])
        } else {
            Some(seq![0u8, 2u8])
        }),
{
}

/// An accepted move never changes the opposing seat's win status: the moving
/// seat fills an empty cell with its own marker, which belongs to no run of
/// the other seat.
pub proof fn lemma_move_preserves_other_win(
    g: &Gomoku,
    seat: int,
    mv: &Move,
    next: &Gomoku,
    q: int,
)
    requires
        g.wf(),
        g.move_allowed(seat, mv),
        g.move_result(seat, mv, next),
        0 <= q <= 1,
        q != seat,
    ensures
        next.spec_win(q) == g.spec_win(q),
{
    assert forall|a: int, b: int| Gomoku::in_board(a, b)
        implies (#[trigger] next.cell(a, b) == q) == (g.cell(a, b) == q) by {
        assert(next.cell(a, b) == (if a == mv.x as int && b == mv.y as int {
            seat as i8
        } else {
            g.cell(a, b)
        }));
    }
    assert forall|x: int, y: int|
        0 <= x < BOARD_SIZE && 0 <= y <= BOARD_SIZE - WIN_LEN
        implies next.row_window(q, x, y) == g.row_window(q, x, y) by {
        if next.row_window(q, x, y) {
            assert forall|k: int| 0 <= k < WIN_LEN implies #[trigger] g.cell(x, y + k) == q by {
                assert(next.cell(x, y + k) == q);
            }
        }
        if g.row_window(q, x, y) {
            assert forall|k: int| 0 <= k < WIN_LEN implies #[trigger] next.cell(x, y + k) == q by {
                assert(g.cell(x, y + k) == q);
            }
        }
    }
    assert forall|x: int, y: int|
        0 <= x <= BOARD_SIZE - WIN_LEN && 0 <= y < BOARD_SIZE
        implies next.col_window(q, x, y) == g.col_window(q, x, y) by {
        if next.col_window(q, x, y) {
            assert forall|k: int| 0 <= k < WIN_LEN implies #[trigger] g.cell(x + k, y) == q by {
                assert(next.cell(x + k, y) == q);
            }
        }
        if g.col_window(q, x, y) {
            assert forall|k: int| 0 <= k < WIN_LEN implies #[trigger] next.cell(x + k, y) == q by {
                assert(g.cell(x + k, y) == q);
            }
        }
    }
    assert forall|x: int, y: int|
        0 <= x <= BOARD_SIZE - WIN_LEN && 0 <= y <= BOARD_SIZE - WIN_LEN
        implies next.main_diag_window(q, x, y) == g.main_diag_window(q, x, y) by {
        if next.main_diag_window(q, x, y) {
            assert forall|k: int| 0 <= k < WIN_LEN
                implies #[trigger] g.cell(x + k, y + k) == q by {
                assert(next.cell(x + k, y + k) == q);
            }
        }
        if g.main_diag_window(q, x, y) {
            assert forall|k: int| 0 <= k < WIN_LEN
                implies #[trigger] next.cell(x + k, y + k) == q by {
                assert(g.cell(x + k, y + k) == q);
            }
        }
    }
    assert forall|x: int, y: int|
        0 <= x <= BOARD_SIZE - WIN_LEN && WIN_LEN - 1 <= y < BOARD_SIZE
        implies next.anti_diag_window(q, x, y) == g.anti_diag_window(q, x, y) by {
        if next.anti_diag_window(q, x, y) {
            assert forall|k: int| 0 <= k < WIN_LEN
                implies #[trigger] g.cell(x + k, y - k) == q by {
                assert(next.cell(x + k, y - k) == q);
            }
        }
        if g.anti_diag_window(q, x, y) {
            assert forall|k: int| 0 <= k < WIN_LEN
                implies #[trigger] next.cell(x + k, y - k) == q by {
                assert(g.cell(x + k, y - k) == q);
            }
        }
    }
    assert forall|x: int| 0 <= x < BOARD_SIZE
        implies #[trigger] next.row_win_in_row(q, x) == g.row_win_in_row(q, x) by {
        if next.row_win_in_row(q, x) {
            let y = choose|y: int| 0 <= y <= BOARD_SIZE - WIN_LEN && next.row_window(q, x, y);
            assert(g.row_window(q, x, y));
        }
        if g.row_win_in_row(q, x) {
            let y = choose|y: int| 0 <= y <= BOARD_SIZE - WIN_LEN && g.row_window(q, x, y);
            assert(next.row_window(q, x, y));
        }
    }
    assert forall|y: int| 0 <= y < BOARD_SIZE
        implies #[trigger] next.col_win_in_col(q, y) == g.col_win_in_col(q, y) by {
        if next.col_win_in_col(q, y) {
            let x = choose|x: int| 0 <= x <= BOARD_SIZE - WIN_LEN && next.col_window(q, x, y);
            assert(g.col_window(q, x, y));
        }
        if g.col_win_in_col(q, y) {
            let x = choose|x: int| 0 <= x <= BOARD_SIZE - WIN_LEN && g.col_window(q, x, y);
            assert(next.col_window(q, x, y));
        }
    }
    if next.row_win(q) {
        let x = choose|x: int| 0 <= x < BOARD_SIZE && next.row_win_in_row(q, x);
        assert(g.row_win_in_row(q, x));
        assert(g.row_win(q));
    }
    if g.row_win(q) {
        let x = choose|x: int| 0 <= x < BOARD_SIZE && g.row_win_in_row(q, x);
        assert(next.row_win_in_row(q, x));
        assert(next.row_win(q));
    }
    if next.col_win(q) {
        let y = choose|y: int| 0 <= y < BOARD_SIZE && next.col_win_in_col(q, y);
        assert(g.col_win_in_col(q, y));
        assert(g.col_win(q));
    }
    if g.col_win(q) {
        let y = choose|y: int| 0 <= y < BOARD_SIZE && g.col_win_in_col(q, y);
        assert(next.col_win_in_col(q, y));
        assert(next.col_win(q));
    }
    if next.diag_win(q) {
        if exists|x: int, y: int|
            0 <= x <= BOARD_SIZE - WIN_LEN && 0 <= y <= BOARD_SIZE - WIN_LEN
                && next.main_diag_window(q, x, y) {
            let (x, y) = choose|x: int, y: int|
                0 <= x <= BOARD_SIZE - WIN_LEN && 0 <= y <= BOARD_SIZE - WIN_LEN
                    && next.main_diag_window(q, x, y);
            assert(g.main_diag_window(q, x, y));
        } else {
            let (x, y) = choose|x: int, y: int|
                0 <= x <= BOARD_SIZE - WIN_LEN && WIN_LEN - 1 <= y < BOARD_SIZE
                    && next.anti_diag_window(q, x, y);
            assert(g.anti_diag_window(q, x, y));
        }
        assert(g.diag_win(q));
    }
    if g.diag_win(q) {
        if exists|x: int, y: int|
            0 <= x <= BOARD_SIZE - WIN_LEN && 0 <= y <= BOARD_SIZE - WIN_LEN
                && g.main_diag_window(q, x, y) {
            let (x, y) = choose|x: int, y: int|
                0 <= x <= BOARD_SIZE - WIN_LEN && 0 <= y <= BOARD_SIZE - WIN_LEN
                    && g.main_diag_window(q, x, y);
            assert(next.main_diag_window(q, x, y));
        } else {
            let (x, y) = choose|x: int, y: int|
                0 <= x <= BOARD_SIZE - WIN_LEN && WIN_LEN - 1 <= y < BOARD_SIZE
                    && g.anti_diag_window(q, x, y);
            assert(next.anti_diag_window(q, x, y));
        }
        assert(next.diag_win(q));
    }
}

/// Along alternating legal play, both seats never hold winning runs at once:
/// a move is only accepted from a seat the game waits on, so the game was not
/// yet finished, and the move cannot create a run for the opposing seat.
pub proof fn lemma_no_double_win(g: &Gomoku, seat: int, mv: &Move, next: &Gomoku)
    requires
        g.wf(),
        g.spec_waiting_on(seat),
        g.move_allowed(seat, mv),
        g.move_result(seat, mv, next),
    ensures
        !(next.spec_win(0) && next.spec_win(1)),
{
    let q = 1 - seat;
    assert(!g.spec_finished());
    assert(!g.spec_win(q));
    lemma_move_preserves_other_win(g, seat, mv, next, q);
}

/// The canonical initial state has an empty board.
pub proof fn lemma_initial_board(g: &Gomoku, n: int)
    requires
        g.is_initial(n),
    ensures
        forall|x: int, y: int| Gomoku::in_board(x, y) ==> #[trigger] g.cell(x, y) == -1,
{
}

/// A game waiting on `seat` accepts any move onto an empty cell of the
/// board.
pub proof fn lemma_empty_cell_move_allowed(g: &Gomoku, seat: int, mv: &Move)
    requires
        g.wf(),
        g.spec_waiting_on(seat),
        Gomoku::in_board(mv.x as int, mv.y as int),
        g.cell(mv.x as int, mv.y as int) == -1,
    ensures
        g.move_allowed(seat, mv),
{
}

/// An accepted move marks exactly the chosen cell with the moving seat's
/// marker and passes the turn to the other seat.
pub proof fn lemma_move_cells(pre: &Gomoku, seat: int, mv: &Move, next: &Gomoku)
    requires
        pre.wf(),
        pre.move_allowed(seat, mv),
        pre.move_result(seat, mv, next),
    ensures
        forall|a: int, b: int| Gomoku::in_board(a, b)
            ==> #[trigger] next.cell(a, b) == (if a == mv.x as int && b == mv.y as int {
                seat as i8
            } else {
                pre.cell(a, b)
            }),
        forall|q: int| #[trigger] next.spec_waiting_on(q)
            <==> (q == 1 - seat && !next.spec_finished()),
{
}

/// Corollary at the service level: a move the engine accepts is made by the
/// seat the game waits on, so whatever state the move produces, both seats
/// never hold winning runs at once.
pub proof fn lemma_service_move_no_double_win(
    pre: AppState<Gomoku>,
    id: i32,
    requester: PlayerId,
    mv: Move,
    next: &Gomoku,
)
    requires
        pre.wf(),
        pre.move_outcome(id, requester, mv) == Ok::<(), Error>(()),
        pre.view_game(id).move_result(
            first_index_of(pre.view_players(id), requester.spec_id()),
            &mv,
            next,
        ),
    ensures
        !(next.spec_win(0) && next.spec_win(1)),
{
    let seat = first_index_of(pre.view_players(id), requester.spec_id());
    let g = pre.view_game(id);
    assert(pre.get_err(id) is None);
    assert(pre.started_at(id));
    assert(g.spec_waiting_on(seat));
    assert(g.move_allowed(seat, &mv));
    assert(g.wf()) by {
        if pre.cached(id) {
            assert(pre.cache_at(id).wf());
        } else {
            let rec = pre.rec_at(id);
            let w = choose|w: GameInstance<Gomoku>| w.wf() && #[trigger] w.loads_from(rec);
            assert(w.wf() && w.loads_from(rec));
            let blob = rec.state.unwrap();
            let gw = w.game.unwrap();
            assert(Gomoku::decodes_to(blob@, w.players@.len() as int, &gw));
            assert(pre.view_players(id).len() == w.players@.len());
            assert(exists|h: Gomoku|
                Gomoku::decodes_to(blob@, pre.view_players(id).len() as int, &h)) by {
                assert(Gomoku::decodes_to(blob@, pre.view_players(id).len() as int, &gw));
            }
            assert(Gomoku::decodes_to(blob@, pre.view_players(id).len() as int, &g));
            Gomoku::lemma_decoded_wf(blob@, pre.view_players(id).len() as int, &g);
        }
    }
    lemma_no_double_win(&g, seat, &mv, next);
}

} // verus!
