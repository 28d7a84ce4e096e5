//! The mathematical model of a game state, and the rules of the game
//! stated over it.

use vstd::prelude::*;

use crate::state::{Chip, GameResult, Move};

verus! {

/// A position of the game.
///
/// `supply` holds the number of chips that each player has in hand, first
/// the three sizes of player 1 and then those of player 2; `cells` holds the
/// top chip of each cell, row by row.
pub struct Position {
    pub turn: nat,
    pub supply: Seq<nat>,
    pub cells: Seq<Chip>,
}

impl Position {
    /// The starting position.
    pub open spec fn initial() -> Position {
        Position {
            turn: 1,
            supply: Seq::new(6, |k: int| 2nat),
            cells: Seq::new(9, |k: int| Chip { player: 0, size: 0 }),
        }
    }

    /// The invariant of a position: one of the two players is to move, no
    /// player holds more than two chips of a size, and every chip on the
    /// board is well formed.
    pub open spec fn wf(self) -> bool {
        &&& (self.turn == 1 || self.turn == 2)
        &&& self.supply.len() == 6
        &&& forall|k: int| 0 <= k < 6 ==> self.supply[k] <= 2
        &&& self.cells.len() == 9
        &&& forall|k: int| 0 <= k < 9 ==> (#[trigger] self.cells[k]).wf()
    }

    /// The top chip of the cell at (`row`, `col`).
    pub open spec fn cell(self, row: int, col: int) -> Chip {
        self.cells[3 * row + col]
    }

    /// The place in `supply` of the chips of `size` of the player to move.
    pub open spec fn supply_index(self, size: int) -> int {
        3 * (self.turn - 1) + (size - 1)
    }

    /// The number of chips that both players have in hand.
    pub open spec fn total_supply(self) -> nat {
        self.supply[0] + self.supply[1] + self.supply[2] + self.supply[3] + self.supply[4]
            + self.supply[5]
    }

    /// The player who is not to move.
    pub open spec fn opponent(self) -> nat {
        (3 - self.turn) as nat
    }

    // Lines and the outcome that the board shows.
    /// The three cells of line `k`: the rows are lines 0 to 2, the columns
    /// lines 3 to 5, the main diagonal is line 6 and the other diagonal line 7.
    pub open spec fn line(k: int) -> (int, int, int) {
        if 0 <= k < 3 {
            (3 * k, 3 * k + 1, 3 * k + 2)
        } else if 3 <= k < 6 {
            (k - 3, k, k + 3)
        } else if k == 6 {
            (0, 4, 8)
        } else {
            (2, 4, 6)
        }
    }

    /// The owner of the first cell of line `k`.
    pub open spec fn line_owner(self, k: int) -> usize {
        self.cells[Self::line(k).0].player
    }

    /// Line `k` is complete when none of its cells is empty and all three
    /// have the same owner. Sizes play no part.
    pub open spec fn line_complete(self, k: int) -> bool {
        let (a, b, c) = Self::line(k);
        &&& self.cells[a].player != 0
        &&& self.cells[a].player == self.cells[b].player
        &&& self.cells[b].player == self.cells[c].player
    }

    /// The owner of the first complete line among lines `k` to 7, as a win,
    /// or a draw where none of them is complete.
    pub open spec fn outcome_from(self, k: int) -> GameResult
        decreases 8 - k,
    {
        if k >= 8 {
            GameResult::Draw
        } else if self.line_complete(k) {
            GameResult::Win(self.line_owner(k))
        } else {
            self.outcome_from(k + 1)
        }
    }

    /// What the board shows: a win for the owner of the first complete
    /// line, or a draw. A draw here does not tell a finished game from one
    /// that goes on.
    pub open spec fn outcome(self) -> GameResult {
        self.outcome_from(0)
    }

    // Moves.
    /// Whether the player to move may make move `m`: the chip is the
    /// mover's, of a size that the mover still holds, and strictly larger
    /// than the chip on the cell (an empty cell has size 0).
    pub open spec fn is_legal(self, m: Move) -> bool {
        &&& (self.turn == 1 || self.turn == 2)
        &&& m.chip.player == self.turn
        &&& 1 <= m.chip.size <= 3
        &&& m.position.0 < 3
        &&& m.position.1 < 3
        &&& self.supply[self.supply_index(m.chip.size as int)] > 0
        &&& self.cell(m.position.0 as int, m.position.1 as int).size < m.chip.size
    }

    /// The position after move `m`: the chip lies on the cell, the mover
    /// holds one chip less of its size, and the other player is to move.
    pub open spec fn apply(self, m: Move) -> Position {
        let at = self.supply_index(m.chip.size as int);
        Position {
            turn: self.opponent(),
            supply: self.supply.update(at, (self.supply[at] - 1) as nat),
            cells: self.cells.update(3 * m.position.0 + m.position.1, m.chip),
        }
    }

    /// The `n`-th of the 27 placements of the player to move, in the order
    /// of enumeration: by size, then by row, then by column.
    pub open spec fn candidate(self, n: int) -> Move {
        Move {
            position: (((n % 9) / 3) as usize, (n % 3) as usize),
            chip: Chip { player: self.turn as usize, size: (n / 9 + 1) as usize },
        }
    }

    /// The rank of a move in the order of enumeration.
    pub open spec fn rank(m: Move) -> int {
        9 * (m.chip.size - 1) + 3 * m.position.0 + m.position.1
    }

    /// The legal moves among the first `n` candidates, in order.
    pub open spec fn legal_upto(self, n: nat) -> Seq<Move>
        decreases n,
    {
        if n == 0 {
            Seq::empty()
        } else {
            let before = self.legal_upto((n - 1) as nat);
            let m = self.candidate(n - 1);
            if self.is_legal(m) {
                before.push(m)
            } else {
                before
            }
        }
    }

    /// The legal moves of the player to move, in the order of enumeration.
    pub open spec fn legal_moves(self) -> Seq<Move> {
        self.legal_upto(27)
    }

    /// The game is over when a line is complete or the player to move has
    /// no legal move.
    pub open spec fn is_over(self) -> bool {
        self.outcome() != GameResult::Draw || self.legal_moves().len() == 0
    }

    /// Whether some legal move completes a line of the mover.
    pub open spec fn wins_at_once(self) -> bool {
        exists|m: Move| #[trigger]
            self.is_legal(m) && self.apply(m).outcome() == GameResult::Win(self.turn as usize)
    }

    // What follows from the rules.
    /// The outcome is a win for the owner of the first complete line.
    pub proof fn lemma_outcome_first(self, k: int)
        requires
            0 <= k < 8,
            self.line_complete(k),
            forall|j: int| 0 <= j < k ==> !self.line_complete(j),
        ensures
            self.outcome() == GameResult::Win(self.line_owner(k)),
    {
        reveal_with_fuel(Position::outcome_from, 9);
    }

    /// The outcome is a draw exactly when no line is complete.
    pub proof fn lemma_outcome_draw(self)
        ensures
            self.outcome() == GameResult::Draw <==> forall|j: int|
                0 <= j < 8 ==> !self.line_complete(j),
    {
        reveal_with_fuel(Position::outcome_from, 9);
        if forall|j: int| 0 <= j < 8 ==> !self.line_complete(j) {
        } else {
            let j = choose|j: int| 0 <= j < 8 && self.line_complete(j);
            assert(self.line_complete(j));
        }
    }

    /// A move completes no line but a line of the mover: after a legal move
    /// from a position without a complete line, the board shows a draw or a
    /// win of the mover.
    pub proof fn lemma_own_line_only(self, m: Move)
        requires
            self.cells.len() == 9,
            self.outcome() == GameResult::Draw,
            self.is_legal(m),
        ensures
            self.apply(m).outcome() == GameResult::Draw || self.apply(m).outcome()
                == GameResult::Win(self.turn as usize),
    {
        let next = self.apply(m);
        let at = 3 * m.position.0 + m.position.1;
        self.lemma_outcome_draw();
        assert forall|k: int| 0 <= k < 8 && next.line_complete(k) implies next.line_owner(k)
            == self.turn by {
            let (a, b, c) = Self::line(k);
            assert(!self.line_complete(k));
            assert(a == at || b == at || c == at);
        }
        reveal_with_fuel(Position::outcome_from, 9);
    }

    /// A legal move leads from a well-formed position to a well-formed one
    /// in which the players hold one chip less.
    pub proof fn lemma_apply_wf(self, m: Move)
        requires
            self.wf(),
            self.is_legal(m),
        ensures
            self.apply(m).wf(),
            self.apply(m).total_supply() + 1 == self.total_supply(),
            self.apply(m).turn == self.opponent(),
    {
        let next = self.apply(m);
        assert(m.chip.wf());
        assert forall|k: int| 0 <= k < 9 implies (#[trigger] next.cells[k]).wf() by {
            if k != 3 * m.position.0 + m.position.1 {
                assert(next.cells[k] == self.cells[k]);
            }
        }
    }

    /// A candidate has its own rank, and a move of the mover with a rank is
    /// the candidate of that rank.
    pub proof fn lemma_candidate_rank(self, m: Move)
        requires
            self.turn == 1 || self.turn == 2,
            m.chip.player == self.turn,
            1 <= m.chip.size <= 3,
            m.position.0 < 3,
            m.position.1 < 3,
        ensures
            0 <= Self::rank(m) < 27,
            self.candidate(Self::rank(m)) == m,
    {
    }

    /// Every move among the first `n` legal candidates is legal and of rank
    /// below `n`, the ranks rise along the sequence, and every legal
    /// candidate of rank below `n` is there.
    pub proof fn lemma_legal_upto(self, n: nat)
        requires
            n <= 27,
        ensures
            self.legal_upto(n).len() <= n,
            forall|i: int|
                0 <= i < self.legal_upto(n).len() ==> {
                    let m = #[trigger] self.legal_upto(n)[i];
                    &&& self.is_legal(m)
                    &&& 0 <= Self::rank(m) < n
                    &&& self.candidate(Self::rank(m)) == m
                },
            forall|i: int, j: int|
                0 <= i < j < self.legal_upto(n).len() ==> Self::rank(
                    #[trigger] self.legal_upto(n)[i],
                ) < Self::rank(#[trigger] self.legal_upto(n)[j]),
            forall|r: int|
                0 <= r < n && self.is_legal(#[trigger] self.candidate(r))
                    ==> self.legal_upto(n).contains(self.candidate(r)),
        decreases n,
    {
        if n > 0 {
            let before = self.legal_upto((n - 1) as nat);
            let m = self.candidate(n - 1);
            self.lemma_legal_upto((n - 1) as nat);
            let now = self.legal_upto(n);
            if self.is_legal(m) {
                assert(now == before.push(m));
                assert(Self::rank(m) == n - 1);
                assert forall|r: int|
                    0 <= r < n && self.is_legal(
                        #[trigger] self.candidate(r),
                    ) implies now.contains(self.candidate(r)) by {
                    if r == n - 1 {
                        assert(now[before.len() as int] == m);
                    } else {
                        let i = choose|i: int|
                            0 <= i < before.len() && before[i] == self.candidate(r);
                        assert(now[i] == self.candidate(r));
                    }
                }
            } else {
                assert(now == before);
            }
        }
    }

    /// Candidates that are not legal add nothing to the enumeration.
    pub proof fn lemma_legal_upto_skip(self, lo: nat, hi: nat)
        requires
            lo <= hi,
            forall|n: int| lo <= n < hi ==> !self.is_legal(#[trigger] self.candidate(n)),
        ensures
            self.legal_upto(hi) == self.legal_upto(lo),
        decreases hi - lo,
    {
        if lo < hi {
            self.lemma_legal_upto_skip(lo, (hi - 1) as nat);
            assert(!self.is_legal(self.candidate(hi - 1)));
        }
    }

    /// The legal moves are exactly the moves that are legal, each once, in
    /// the order of enumeration.
    pub proof fn lemma_legal_moves(self)
        ensures
            self.legal_moves().len() <= 27,
            forall|i: int|
                0 <= i < self.legal_moves().len() ==> self.is_legal(
                    #[trigger] self.legal_moves()[i],
                ),
            forall|i: int, j: int|
                0 <= i < j < self.legal_moves().len() ==> Self::rank(
                    #[trigger] self.legal_moves()[i],
                ) < Self::rank(#[trigger] self.legal_moves()[j]),
            forall|m: Move| #[trigger] self.is_legal(m) ==> self.legal_moves().contains(m),
    {
        self.lemma_legal_upto(27);
        assert forall|m: Move| #[trigger] self.is_legal(m) implies self.legal_moves().contains(
            m,
        ) by {
            self.lemma_candidate_rank(m);
            assert(self.is_legal(self.candidate(Self::rank(m))));
        }
    }
}

} // verus!

