//! The executable game state: chips, moves, results and the board.

use vstd::prelude::*;

use crate::position::Position;

verus! {

/// Number of chip sizes; sizes run from 1 to this value.
pub const MAX_CHIP_SIZE: usize = 3;

/// Number of chips of each size that a player starts with.
pub const SAME_CHIP_COUNT: usize = 2;

/// Side length of the board.
pub const BOARD_SIZE: usize = 3;

/// A chip on the board: its owner (1 or 2) and its size (1 to 3).
/// The empty cell is the chip with owner 0 and size 0.
#[derive(Copy, Clone, Debug, PartialEq, Eq, Structural)]
pub struct Chip {
    pub player: usize,
    pub size: usize,
}

impl Chip {
    /// A chip is well formed when its size is at most 3, its owner at most 2,
    /// and it has no owner exactly when it has no size.
    pub open spec fn wf(self) -> bool {
        &&& self.size <= MAX_CHIP_SIZE
        &&& self.player <= 2
        &&& (self.player == 0 <==> self.size == 0)
    }

    /// The three-bit code of a chip: the size in the two low bits, and above
    /// them one bit that tells the owner of a chip that has a size.
    pub open spec fn code(self) -> nat {
        if self.size == 0 {
            0
        } else {
            (self.size + 4 * (self.player - 1)) as nat
        }
    }

    /// The chip that a code stands for. The owner is read only where the
    /// size is not zero.
    pub open spec fn of_code(code: nat) -> Chip {
        Chip {
            player: if code % 4 == 0 {
                0
            } else {
                (code / 4 + 1) as usize
            },
            size: (code % 4) as usize,
        }
    }

    /// The chip of `player` with the given size.
    pub fn new(player: usize, size: usize) -> (chip: Chip)
        ensures
            chip == (Chip { player, size }),
    {
        Chip { player, size }
    }

    /// Whether the chip is well formed.
    pub fn is_well_formed(&self) -> (ok: bool)
        ensures
            ok == self.wf(),
    {
        self.size <= MAX_CHIP_SIZE && self.player <= 2 && (self.player == 0) == (self.size == 0)
    }

    /// The chip that the code `num` stands for: the size is the code modulo
    /// four, and a chip with a size belongs to the player whose number is
    /// one more than the rest of the code.
    pub fn from_u64(num: u64) -> (chip: Chip)
        ensures
            chip == Chip::of_code(num as nat),
            num < 8 ==> chip.wf(),
    {
        let size = num & 3;
        let high = num >> 2;
        assert(size == num % 4 && high == num / 4 && high < 0x4000_0000_0000_0000) by (bit_vector)
            requires
                size == num & 3,
                high == num >> 2,
        ;
        let player: u64 = if size != 0 {
            high + 1
        } else {
            0
        };
        Chip { player: #[verifier::truncate] (player as usize), size: size as usize }
    }

    /// The owner of the chip, 0 for the empty cell.
    pub fn player(&self) -> (player: usize)
        ensures
            player == self.player,
    {
        self.player
    }

    /// The size of the chip, 0 for the empty cell.
    pub fn size(&self) -> (size: usize)
        ensures
            size == self.size,
    {
        self.size
    }

    /// Whether this is the empty cell, that is, a chip without an owner.
    pub fn is_empty(&self) -> (empty: bool)
        ensures
            empty == (self.player == 0),
    {
        self.player == 0
    }

    /// Encodes a well-formed chip in three bits.
    pub fn as_u64(&self) -> (code: u64)
        requires
            self.wf(),
        ensures
            code == self.code(),
            code < 8,
    {
        let mut result = self.size as u64;
        if self.size != 0 {
            let owner = (self.player - 1) as u64;
            assert(result | (owner << 2) == result + 4 * owner) by (bit_vector)
                requires
                    result < 4,
                    owner < 2,
            ;
            result |= owner << 2;
        }
        result
    }
}

/// The result of a game, or of a position under best play.
#[derive(PartialEq, Eq, Structural, Debug, Copy, Clone)]
pub enum GameResult {
    Draw,
    Win(usize),
}

/// Placing `chip` on the cell at `position`, given as (row, column).
#[derive(Debug, Copy, Clone, PartialEq, Eq)]
pub struct Move {
    pub position: (usize, usize),
    pub chip: Chip,
}

/// The game state: the chips that each player has left, by size, the top
/// chip of each cell, and the player to move.
#[derive(Debug, PartialEq, Clone, Copy)]
pub struct State {
    pub chips: [[usize; MAX_CHIP_SIZE]; 2],
    pub board: [[Chip; 3]; 3],
    pub current_player: usize,
}

impl View for State {
    type V = Position;

    open spec fn view(&self) -> Position {
        Position {
            turn: self.current_player as nat,
            supply: Seq::new(6, |k: int| self.chips[k / 3][k % 3] as nat),
            cells: Seq::new(9, |k: int| self.board[k / 3][k % 3]),
        }
    }
}

impl State {
    /// The starting state: every chip in hand, an empty board, player 1 to
    /// move.
    pub fn new() -> (state: State)
        ensures
            state@ == Position::initial(),
    {
        let state = Self {
            chips: [[SAME_CHIP_COUNT; MAX_CHIP_SIZE]; 2],
            board: [[Chip::new(0, 0); BOARD_SIZE]; BOARD_SIZE],
            current_player: 1,
        };
        assert(state@.supply =~= Position::initial().supply);
        assert(state@.cells =~= Position::initial().cells);
        state
    }

    /// Whether the state is well formed: a player of the game is to move,
    /// no supply is above two, and every chip on the board is well formed.
    pub fn is_well_formed(&self) -> (ok: bool)
        ensures
            ok == self@.wf(),
    {
        if self.current_player != 1 && self.current_player != 2 {
            return false;
        }
        for player in 0..2usize
            invariant
                forall|k: int| 0 <= k < 3 * player ==> self@.supply[k] <= SAME_CHIP_COUNT,
        {
            for size in 0..MAX_CHIP_SIZE
                invariant
                    player < 2,
                    forall|k: int|
                        0 <= k < 3 * player + size ==> self@.supply[k] <= SAME_CHIP_COUNT,
            {
                if self.chips[player][size] > SAME_CHIP_COUNT {
                    assert(self@.supply[3 * player + size] > 2);
                    return false;
                }
            }
        }
        for i in 0..BOARD_SIZE
            invariant
                forall|k: int| 0 <= k < 6 ==> self@.supply[k] <= SAME_CHIP_COUNT,
                forall|k: int| 0 <= k < 3 * i ==> (#[trigger] self@.cells[k]).wf(),
        {
            for j in 0..BOARD_SIZE
                invariant
                    i < 3,
                    forall|k: int| 0 <= k < 6 ==> self@.supply[k] <= SAME_CHIP_COUNT,
                    forall|k: int| 0 <= k < 3 * i + j ==> (#[trigger] self@.cells[k]).wf(),
            {
                if !self.board[i][j].is_well_formed() {
                    assert(!self@.cells[3 * i + j].wf());
                    return false;
                }
            }
        }
        true
    }

    /// Two states with one view are one state.
    pub proof fn lemma_view_injective(self, other: State)
        requires
            self@ == other@,
        ensures
            self == other,
    {
        assert forall|p: int| 0 <= p < 2 implies self.chips[p] == other.chips[p] by {
            assert forall|k: int| 0 <= k < 3 implies self.chips[p][k] == other.chips[p][k] by {
                let at = 3 * p + k;
                assert(at / 3 == p && at % 3 == k);
                assert(self@.supply == other@.supply);
                assert(self@.supply[at] == self.chips[at / 3][at % 3] as nat);
                assert(other@.supply[at] == other.chips[at / 3][at % 3] as nat);
            }
            assert(self.chips[p] =~= other.chips[p]);
        }
        assert(self.chips =~= other.chips);
        assert forall|i: int| 0 <= i < 3 implies self.board[i] == other.board[i] by {
            assert forall|j: int| 0 <= j < 3 implies self.board[i][j] == other.board[i][j] by {
                let at = 3 * i + j;
                assert(at / 3 == i && at % 3 == j);
                assert(self@.cells == other@.cells);
                assert(self@.cells[at] == self.board[at / 3][at % 3]);
                assert(other@.cells[at] == other.board[at / 3][at % 3]);
            }
            assert(self.board[i] =~= other.board[i]);
        }
        assert(self.board =~= other.board);
    }
}

} // verus!
