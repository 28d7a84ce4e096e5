//! The rules of the game on the executable state: the outcome that the
//! board shows, the legal moves, and making a move.

use vstd::prelude::*;

use crate::position::Position;
use crate::state::{Chip, GameResult, Move, State, BOARD_SIZE, MAX_CHIP_SIZE};

verus! {

impl State {
    /// The outcome that the board shows. The lines are tried in the order
    /// rows, columns, main diagonal, other diagonal, and the first complete
    /// line decides.
    pub fn get_result(&self) -> (result: GameResult)
        ensures
            result == self@.outcome(),
    {
        let ghost pos = self@;
        // rows
        for row in 0..BOARD_SIZE
            invariant
                pos == self@,
                forall|k: int| 0 <= k < row ==> !pos.line_complete(k),
        {
            let mut all_same = true;
            for col in 1..BOARD_SIZE
                invariant_except_break
                    all_same,
                    col > 1 ==> pos.cell(row as int, 1).player == pos.cell(row as int, 0).player,
                    col > 2 ==> pos.cell(row as int, 2).player == pos.cell(row as int, 1).player,
                invariant
                    pos == self@,
                    row < 3,
                ensures
                    all_same == (pos.cell(row as int, 1).player == pos.cell(row as int, 0).player
                        && pos.cell(row as int, 2).player == pos.cell(row as int, 1).player),
            {
                if self.board[row][col].player() != self.board[row][col - 1].player() {
                    all_same = false;
                    break ;
                }
            }
            if all_same && !self.board[row][0].is_empty() {
                proof {
                    pos.lemma_outcome_first(row as int);
                }
                return GameResult::Win(self.board[row][0].player());
            }
        }
        // columns
        for col in 0..BOARD_SIZE
            invariant
                pos == self@,
                forall|k: int| 0 <= k < 3 + col ==> !pos.line_complete(k),
        {
            let mut all_same = true;
            for row in 1..BOARD_SIZE
                invariant_except_break
                    all_same,
                    row > 1 ==> pos.cell(1, col as int).player == pos.cell(0, col as int).player,
                    row > 2 ==> pos.cell(2, col as int).player == pos.cell(1, col as int).player,
                invariant
                    pos == self@,
                    col < 3,
                ensures
                    all_same == (pos.cell(1, col as int).player == pos.cell(0, col as int).player
                        && pos.cell(2, col as int).player == pos.cell(1, col as int).player),
            {
                if self.board[row][col].player() != self.board[row - 1][col].player() {
                    all_same = false;
                    break ;
                }
            }
            if all_same && !self.board[0][col].is_empty() {
                proof {
                    pos.lemma_outcome_first(3 + col);
                }
                return GameResult::Win(self.board[0][col].player());
            }
        }
        // main diagonal
        let mut main_same = true;
        for i in 1..BOARD_SIZE
            invariant_except_break
                main_same,
                i > 1 ==> pos.cell(1, 1).player == pos.cell(0, 0).player,
                i > 2 ==> pos.cell(2, 2).player == pos.cell(1, 1).player,
            invariant
                pos == self@,
            ensures
                main_same == (pos.cell(1, 1).player == pos.cell(0, 0).player && pos.cell(
                    2,
                    2,
                ).player == pos.cell(1, 1).player),
        {
            if self.board[i][i].player() != self.board[i - 1][i - 1].player() {
                main_same = false;
                break ;
            }
        }
        if main_same && !self.board[0][0].is_empty() {
            proof {
                pos.lemma_outcome_first(6);
            }
            return GameResult::Win(self.board[0][0].player());
        }
        // other diagonal
        let mut other_same = true;
        for i in 1..BOARD_SIZE
            invariant_except_break
                other_same,
                i > 1 ==> pos.cell(1, 1).player == pos.cell(0, 2).player,
                i > 2 ==> pos.cell(2, 0).player == pos.cell(1, 1).player,
            invariant
                pos == self@,
            ensures
                other_same == (pos.cell(1, 1).player == pos.cell(0, 2).player && pos.cell(
                    2,
                    0,
                ).player == pos.cell(1, 1).player),
        {
            if self.board[i][BOARD_SIZE - i - 1].player() != self.board[i - 1][BOARD_SIZE
                - i].player() {
                other_same = false;
                break ;
            }
        }
        if other_same && !self.board[0][BOARD_SIZE - 1].is_empty() {
            proof {
                pos.lemma_outcome_first(7);
            }
            return GameResult::Win(self.board[0][BOARD_SIZE - 1].player());
        }
        proof {
            pos.lemma_outcome_draw();
        }
        GameResult::Draw
    }

    /// The legal moves of the player to move, by rising chip size, then row
    /// by row.
    pub fn get_moves(&self) -> (moves: Vec<Move>)
        requires
            self.current_player == 1 || self.current_player == 2,
        ensures
            moves@ == self@.legal_moves(),
    {
        let ghost pos = self@;
        let mut result: Vec<Move> = Vec::new();
        for chip_size in 1..MAX_CHIP_SIZE + 1
            invariant
                pos == self@,
                pos.turn == 1 || pos.turn == 2,
                result@ == pos.legal_upto((9 * (chip_size - 1)) as nat),
        {
            if self.chips[self.current_player - 1][chip_size - 1] == 0 {
                proof {
                    assert forall|n: int|
                        9 * (chip_size - 1) <= n < 9 * chip_size implies !pos.is_legal(
                        #[trigger] pos.candidate(n),
                    ) by {
                        assert(pos.candidate(n).chip.size == chip_size);
                    }
                    pos.lemma_legal_upto_skip(
                        (9 * (chip_size - 1)) as nat,
                        (9 * chip_size) as nat,
                    );
                }
            } else {
                for i in 0..BOARD_SIZE
                    invariant
                        pos == self@,
                        pos.turn == 1 || pos.turn == 2,
                        1 <= chip_size <= 3,
                        pos.supply[pos.supply_index(chip_size as int)] > 0,
                        result@ == pos.legal_upto((9 * (chip_size - 1) + 3 * i) as nat),
                {
                    for j in 0..BOARD_SIZE
                        invariant
                            pos == self@,
                            pos.turn == 1 || pos.turn == 2,
                            1 <= chip_size <= 3,
                            i < 3,
                            pos.supply[pos.supply_index(chip_size as int)] > 0,
                            result@ == pos.legal_upto((9 * (chip_size - 1) + 3 * i + j) as nat),
                    {
                        let ghost n = 9 * (chip_size - 1) + 3 * i + j;
                        assert(pos.candidate(n) == Move {
                            position: (i, j),
                            chip: Chip { player: self.current_player, size: chip_size },
                        });
                        assert(pos.legal_upto((n + 1) as nat) == if pos.is_legal(pos.candidate(n)) {
                            pos.legal_upto(n as nat).push(pos.candidate(n))
                        } else {
                            pos.legal_upto(n as nat)
                        });
                        if self.board[i][j].size() < chip_size {
                            result.push(
                                Move {
                                    position: (i, j),
                                    chip: Chip::new(self.current_player, chip_size),
                                },
                            );
                        }
                    }
                }
            }
        }
        result
    }

    /// Makes a legal move: puts the chip on its cell, takes it from the
    /// mover's hand and passes the turn.
    pub fn make_move(&mut self, mv: &Move)
        requires
            old(self)@.is_legal(*mv),
        ensures
            final(self)@ == old(self)@.apply(*mv),
    {
        self.board[mv.position.0][mv.position.1] = mv.chip;
        self.chips[mv.chip.player() - 1][mv.chip.size() - 1] -= 1;
        self.current_player = 3 - self.current_player;
        assert(self@.supply =~= old(self)@.apply(*mv).supply);
        assert(self@.cells =~= old(self)@.apply(*mv).cells);
    }

    /// Whether the game is over in this state.
    pub fn is_over(&self) -> (over: bool)
        requires
            self.current_player == 1 || self.current_player == 2,
        ensures
            over == self@.is_over(),
    {
        let result = self.get_result();
        result != GameResult::Draw || self.get_moves().len() == 0
    }
}

} // verus!
