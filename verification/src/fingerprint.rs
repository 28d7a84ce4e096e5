//! The fingerprint of a position: one integer that holds the whole state.
//!
//! A fingerprint is a numeral of sixteen digits, the lowest first: the
//! player to move less one (one bit), the six supplies (two bits each,
//! player 1 first, by rising size) and the codes of the nine cells (three
//! bits each, row by row). It is the key under which the solver remembers
//! a position, and it can stand for the position on the wire.

use vstd::prelude::*;

use crate::position::Position;
use crate::state::{Chip, State, BOARD_SIZE, MAX_CHIP_SIZE};

verus! {

/// The radix of digit `k`.
pub open spec fn radix(k: int) -> nat {
    if k == 0 {
        2
    } else if k < 7 {
        4
    } else {
        8
    }
}

/// What remains of `n` when its `k` lowest digits are taken away.
pub open spec fn shifted(n: nat, k: int) -> nat
    decreases k,
{
    if k <= 0 {
        n
    } else {
        shifted(n, k - 1) / radix(k - 1)
    }
}

/// Digit `k` of `n`.
pub open spec fn digit_of(n: nat, k: int) -> nat {
    shifted(n, k) % radix(k)
}

/// The number of values that the digits from `k` on can take together.
spec fn span(k: int) -> nat
    decreases 16 - k,
{
    if k >= 16 {
        1
    } else {
        radix(k) * span(k + 1)
    }
}

impl Chip {
    /// A well-formed chip is the chip that its code stands for.
    pub proof fn lemma_code_round_trip(self)
        requires
            self.wf(),
        ensures
            self.code() < 8,
            Chip::of_code(self.code()) == self,
    {
    }

    /// Every three-bit code stands for a well-formed chip.
    pub proof fn lemma_of_code_wf(code: nat)
        requires
            code < 8,
        ensures
            Chip::of_code(code).wf(),
    {
    }
}

impl Position {
    /// Digit `k` of the fingerprint.
    pub open spec fn digit(self, k: int) -> nat {
        if k == 0 {
            (self.turn - 1) as nat
        } else if k < 7 {
            self.supply[k - 1]
        } else {
            self.cells[k - 7].code()
        }
    }

    /// The value of the digits from `k` on, digit `k` being the lowest.
    pub open spec fn tail(self, k: int) -> nat
        decreases 16 - k,
    {
        if k >= 16 {
            0
        } else {
            self.digit(k) + radix(k) * self.tail(k + 1)
        }
    }

    /// The fingerprint of a position.
    pub open spec fn fingerprint(self) -> nat {
        self.tail(0)
    }

    /// The position that a fingerprint stands for.
    pub open spec fn decode(n: nat) -> Position {
        Position {
            turn: digit_of(n, 0) + 1,
            supply: Seq::new(6, |k: int| digit_of(n, k + 1)),
            cells: Seq::new(9, |k: int| Chip::of_code(digit_of(n, k + 7))),
        }
    }

    /// Each digit of a well-formed position is below its radix.
    pub proof fn lemma_digit_bound(self, k: int)
        requires
            self.wf(),
            0 <= k < 16,
        ensures
            self.digit(k) < radix(k),
    {
        if k >= 7 {
            self.cells[k - 7].lemma_code_round_trip();
        }
    }

    /// The digits from `k` on stay below their span.
    proof fn lemma_tail_bound(self, k: int)
        requires
            self.wf(),
            0 <= k <= 16,
        ensures
            self.tail(k) < span(k),
        decreases 16 - k,
    {
        if k < 16 {
            self.lemma_tail_bound(k + 1);
            self.lemma_digit_bound(k);
            let r = radix(k);
            let t = self.tail(k + 1);
            let s = span(k + 1);
            assert(r * t + r <= r * s) by (nonlinear_arith)
                requires
                    t + 1 <= s,
                    r > 0,
            ;
        }
    }

    /// The fingerprint of a well-formed position fits in forty bits.
    pub proof fn lemma_fingerprint_bound(self)
        requires
            self.wf(),
        ensures
            self.fingerprint() < 0x100_0000_0000,
    {
        self.lemma_tail_bound(0);
        assert(span(0) == 0x100_0000_0000) by {
            reveal_with_fuel(span, 17);
        }
    }

    /// Taking the `k` lowest digits from the fingerprint leaves the value
    /// of the other digits.
    pub proof fn lemma_shifted_fingerprint(self, k: int)
        requires
            self.wf(),
            0 <= k <= 16,
        ensures
            shifted(self.fingerprint(), k) == self.tail(k),
        decreases k,
    {
        if k > 0 {
            self.lemma_shifted_fingerprint(k - 1);
            self.lemma_digit_bound(k - 1);
            vstd::arithmetic::div_mod::lemma_fundamental_div_mod_converse(
                self.tail(k - 1) as int,
                radix(k - 1) as int,
                self.tail(k) as int,
                self.digit(k - 1) as int,
            );
        }
    }

    /// The fingerprint holds each digit of the position in its place.
    pub proof fn lemma_digit_of_fingerprint(self, k: int)
        requires
            self.wf(),
            0 <= k < 16,
        ensures
            digit_of(self.fingerprint(), k) == self.digit(k),
    {
        self.lemma_shifted_fingerprint(k);
        self.lemma_digit_bound(k);
        vstd::arithmetic::div_mod::lemma_fundamental_div_mod_converse(
            self.tail(k) as int,
            radix(k) as int,
            self.tail(k + 1) as int,
            self.digit(k) as int,
        );
    }

    /// Decoding the fingerprint of a well-formed position gives the
    /// position back.
    pub proof fn lemma_round_trip(self)
        requires
            self.wf(),
        ensures
            Position::decode(self.fingerprint()) == self,
    {
        let n = self.fingerprint();
        let back = Position::decode(n);
        self.lemma_digit_of_fingerprint(0);
        assert forall|k: int| 0 <= k < 6 implies back.supply[k] == self.supply[k] by {
            self.lemma_digit_of_fingerprint(k + 1);
        }
        assert forall|k: int| 0 <= k < 9 implies back.cells[k] == self.cells[k] by {
            self.lemma_digit_of_fingerprint(k + 7);
            self.cells[k].lemma_code_round_trip();
        }
        assert(back.supply =~= self.supply);
        assert(back.cells =~= self.cells);
    }

    /// Two well-formed positions with one fingerprint are one position.
    pub proof fn lemma_fingerprint_injective(self, other: Position)
        requires
            self.wf(),
            other.wf(),
            self.fingerprint() == other.fingerprint(),
        ensures
            self == other,
    {
        self.lemma_round_trip();
        other.lemma_round_trip();
    }
}

/// Placing a digit of `bits` bits above the `position` low bits of a number
/// that has no bit set from `position` on adds the digit times the weight of
/// that place, and leaves every bit from `position + bits` on unset.
proof fn lemma_place_digit(low: u64, digit: u64, position: u64, bits: u64, radix: u64)
    by (bit_vector)
    requires
        (bits == 2 && radix == 4) || (bits == 3 && radix == 8),
        position + bits <= 40,
        digit < radix,
        low < (1u64 << position),
    ensures
        (low | (digit << position)) == low + digit * (1u64 << position),
        (low | (digit << position)) < (1u64 << ((position + bits) as u64)),
        (1u64 << ((position + bits) as u64)) == radix * (1u64 << position),
{
}

/// Taking the lowest digit of a number by mask and shift is taking it by
/// remainder and quotient.
proof fn lemma_take_digit(num: u64)
    by (bit_vector)
    ensures
        num & 1 == num % 2,
        num >> 1 == num / 2,
        num & 3 == num % 4,
        num >> 2 == num / 4,
        num & 7 == num % 8,
        num >> 3 == num / 8,
{
}

impl State {
    /// A state that decodes the fingerprint of a well-formed state is that
    /// state.
    pub proof fn lemma_round_trip(self, back: State)
        requires
            self@.wf(),
            back@ == Position::decode(self@.fingerprint()),
        ensures
            back == self,
    {
        self@.lemma_round_trip();
        back.lemma_view_injective(self);
    }

    /// The fingerprint of the state.
    pub fn as_u64(&self) -> (code: u64)
        requires
            self@.wf(),
        ensures
            code == self@.fingerprint(),
            code < 0x100_0000_0000,
    {
        let ghost pos = self@;
        let mut result: u64 = 0;
        let turn_digit = (self.current_player - 1) as u64;
        proof {
            assert(0u64 | turn_digit == turn_digit) by (bit_vector);
            assert((1u64 << 1u64) == 2) by (bit_vector);
            assert(pos.fingerprint() == turn_digit + 2 * pos.tail(1));
        }
        result |= turn_digit;
        let mut position: u64 = 1;
        for player in 0..2usize
            invariant
                pos == self@,
                pos.wf(),
                position == 1 + 6 * player,
                result < (1u64 << position),
                pos.fingerprint() == result + (1u64 << position) * pos.tail(1 + 3 * player),
        {
            for size in 0..MAX_CHIP_SIZE
                invariant
                    pos == self@,
                    pos.wf(),
                    player < 2,
                    position == 1 + 6 * player + 2 * size,
                    result < (1u64 << position),
                    pos.fingerprint() == result + (1u64 << position) * pos.tail(
                        1 + 3 * player + size,
                    ),
            {
                let cnt = self.chips[player][size] as u64;
                proof {
                    let k = 1 + 3 * player + size;
                    assert(pos.digit(k) == cnt);
                    lemma_place_digit(result, cnt, position, 2, 4);
                    lemma_weigh_digit(
                        result as nat,
                        (1u64 << position) as nat,
                        cnt as nat,
                        4,
                        pos.tail(k + 1),
                    );
                }
                result |= cnt << position;
                position += 2;
            }
        }
        for i in 0..BOARD_SIZE
            invariant
                pos == self@,
                pos.wf(),
                position == 13 + 9 * i,
                result < (1u64 << position),
                pos.fingerprint() == result + (1u64 << position) * pos.tail(7 + 3 * i),
        {
            for j in 0..BOARD_SIZE
                invariant
                    pos == self@,
                    pos.wf(),
                    i < 3,
                    position == 13 + 9 * i + 3 * j,
                    result < (1u64 << position),
                    pos.fingerprint() == result + (1u64 << position) * pos.tail(7 + 3 * i + j),
            {
                assert(pos.cells[3 * i + j].wf());
                let code = self.board[i][j].as_u64();
                proof {
                    let k = 7 + 3 * i + j;
                    assert(pos.digit(k) == code);
                    lemma_place_digit(result, code, position, 3, 8);
                    lemma_weigh_digit(
                        result as nat,
                        (1u64 << position) as nat,
                        code as nat,
                        8,
                        pos.tail(k + 1),
                    );
                }
                result |= code << position;
                position += 3;
            }
        }
        proof {
            assert((1u64 << 40u64) == 0x100_0000_0000) by (bit_vector);
            assert(position == 40);
            assert(pos.fingerprint() == result + (1u64 << position) * pos.tail(16));
            assert(pos.tail(16) == 0);
            assert((1u64 << position) * pos.tail(16) == 0) by (nonlinear_arith)
                requires
                    pos.tail(16) == 0,
            ;
        }
        result
    }

    /// The state that a fingerprint stands for.
    pub fn from_u64(num: u64) -> (state: State)
        ensures
            state@ == Position::decode(num as nat),
    {
        let ghost n = num as nat;
        let mut num = num;
        let mut state = State::new();
        proof {
            lemma_take_digit(num);
            assert(shifted(n, 0) == n);
        }
        state.current_player = (num & 1) as usize + 1;
        num >>= 1;
        for player in 0..2usize
            invariant
                num == shifted(n, 1 + 3 * player),
                state.current_player == digit_of(n, 0) + 1,
                forall|k: int|
                    0 <= k < 3 * player ==> #[trigger] state@.supply[k] == digit_of(n, k + 1),
        {
            for size in 0..MAX_CHIP_SIZE
                invariant
                    player < 2,
                    num == shifted(n, 1 + 3 * player + size),
                    state.current_player == digit_of(n, 0) + 1,
                    forall|k: int|
                        0 <= k < 3 * player + size ==> #[trigger] state@.supply[k] == digit_of(
                            n,
                            k + 1,
                        ),
            {
                proof {
                    lemma_take_digit(num);
                }
                let ghost before = state@.supply;
                state.chips[player][size] = (num & 3) as usize;
                num >>= 2;
                assert forall|k: int| 0 <= k < 3 * player + size + 1 implies #[trigger]
                state@.supply[k] == digit_of(n, k + 1) by {
                    if k < 3 * player + size {
                        assert(state@.supply[k] == before[k]);
                    }
                }
            }
        }
        for i in 0..BOARD_SIZE
            invariant
                num == shifted(n, 7 + 3 * i),
                state.current_player == digit_of(n, 0) + 1,
                forall|k: int| 0 <= k < 6 ==> #[trigger] state@.supply[k] == digit_of(n, k + 1),
                forall|k: int|
                    0 <= k < 3 * i ==> #[trigger] state@.cells[k] == Chip::of_code(
                        digit_of(n, k + 7),
                    ),
        {
            for j in 0..BOARD_SIZE
                invariant
                    i < 3,
                    num == shifted(n, 7 + 3 * i + j),
                    state.current_player == digit_of(n, 0) + 1,
                    forall|k: int| 0 <= k < 6 ==> #[trigger] state@.supply[k] == digit_of(n, k + 1),
                    forall|k: int|
                        0 <= k < 3 * i + j ==> #[trigger] state@.cells[k] == Chip::of_code(
                            digit_of(n, k + 7),
                        ),
            {
                proof {
                    lemma_take_digit(num);
                }
                let ghost before = state@;
                state.board[i][j] = Chip::from_u64(num & 7);
                num >>= 3;
                assert(state@.supply =~= before.supply);
                assert forall|k: int| 0 <= k < 3 * i + j + 1 implies #[trigger] state@.cells[k]
                    == Chip::of_code(digit_of(n, k + 7)) by {
                    if k < 3 * i + j {
                        assert(state@.cells[k] == before.cells[k]);
                    }
                }
            }
        }
        proof {
            let decoded = Position::decode(n);
            assert(state@.supply =~= decoded.supply);
            assert(state@.cells =~= decoded.cells);
        }
        state
    }
}

/// One step of writing a numeral from its lowest digit up.
proof fn lemma_weigh_digit(low: nat, weight: nat, digit: nat, radix: nat, rest: nat)
    ensures
        low + weight * (digit + radix * rest) == (low + digit * weight) + (radix * weight) * rest,
{
    assert(weight * (digit + radix * rest) == digit * weight + (radix * weight) * rest)
        by (nonlinear_arith);
}

} // verus!
