//! A three-by-three board variant, present as a skeleton: board bookkeeping
//! exists, but the win check is a placeholder that holds for either seat, so
//! the variant does not yet implement the full game contract.

use crate::game::GamePlayer;
use vstd::prelude::*;

verus! {

broadcast use vstd::array::group_array_axioms;

/// Board state of the skeleton variant.
#[derive(Clone, Copy, Debug, PartialEq)]
pub struct TicTacToe {
    board: [[i8; 3]; 3],
    turn: i8,
}

impl TicTacToe {
    /// The marker in the cell at `(x, y)`.
    pub closed spec fn cell(self, x: int, y: int) -> i8 {
        self.board@[x]@[y]
    }

    /// The seat awaiting a move.
    pub closed spec fn spec_turn(self) -> i8 {
        self.turn
    }

    /// Whether every cell is still unmarked.
    pub fn full(&self) -> (r: bool)
        ensures
            r == forall|x: int, y: int|
                0 <= x < 3 && 0 <= y < 3 ==> #[trigger] self.cell(x, y) == -1,
    {
        let mut x: usize = 0;
        while x < 3
            invariant
                x <= 3,
                forall|a: int, b: int| 0 <= a < x && 0 <= b < 3 ==> #[trigger] self.cell(a, b) == -1,
            decreases 3 - x,
        {
            let mut y: usize = 0;
            while y < 3
                invariant
                    x < 3,
                    y <= 3,
                    forall|b: int| 0 <= b < y ==> #[trigger] self.cell(x as int, b) == -1,
                decreases 3 - y,
            {
                if self.board[x][y] != -1 {
                    proof {
                        assert(self.cell(x as int, y as int) != -1);
                    }
                    return false;
                }
                y = y + 1;
            }
            x = x + 1;
        }
        true
    }

    /// Placeholder win check: any real seat is reported as winning.
    pub fn check_win(&self, player: GamePlayer) -> (r: bool)
        ensures
            r == (player == 0 || player == 1),
    {
        if player != 0 && player != 1 {
            false
        } else {
            true
        }
    }

    /// Whether a game of this variant can start with `players` players.
    pub fn check_num_players(players: usize) -> (r: bool)
        ensures
            r == (players == 2),
    {
        players == 2
    }

    /// The empty initial board, waiting on seat 0.
    pub fn new_with_players(players: usize) -> (g: TicTacToe)
        requires
            players == 2,
        ensures
            forall|x: int, y: int| 0 <= x < 3 && 0 <= y < 3 ==> #[trigger] g.cell(x, y) == -1,
            g.spec_turn() == 0,
    {
        TicTacToe { board: [[-1; 3]; 3], turn: 0 }
    }
}

} // verus!
