use ttt_engine::state::{Chip, GameResult, Move, State, BOARD_SIZE, MAX_CHIP_SIZE};

#[test]
fn game_result() {
    {
        let mut state = State::new();
        for i in 0..BOARD_SIZE {
            state.board[1][i] = Chip::new(1, 2);
        }
        assert_eq!(state.get_result(), GameResult::Win(1));
    }
    {
        let mut state = State::new();
        for i in 0..BOARD_SIZE {
            state.board[i][2] = Chip::new(2, 3);
        }
        assert_eq!(state.get_result(), GameResult::Win(2));
    }
    {
        let mut state = State::new();
        for i in 0..BOARD_SIZE {
            state.board[i][i] = Chip::new(2, 1);
        }
        assert_eq!(state.get_result(), GameResult::Win(2));
    }
    {
        let mut state = State::new();
        for i in 0..BOARD_SIZE {
            state.board[i][BOARD_SIZE - i - 1] = Chip::new(1, 1);
        }
        assert_eq!(state.get_result(), GameResult::Win(1));
    }
    for dx in 0..2 {
        for dy in 0..2 {
            let mut state = State::new();
            for i in 0..BOARD_SIZE - 1 {
                for j in 0..BOARD_SIZE - 1 {
                    state.board[i + dx][j + dy] = Chip::new(1, 1);
                }
            }
            assert_eq!(state.get_result(), GameResult::Draw);
        }
    }
}

#[test]
fn moves() {
    assert_eq!(
        State::new().get_moves().len(),
        MAX_CHIP_SIZE * BOARD_SIZE * BOARD_SIZE
    );
    {
        let mut state = State::new();
        state.board[0][0] = Chip::new(1, 1);
        state.board[0][1] = Chip::new(1, 2);
        state.board[0][2] = Chip::new(1, 3);
        state.chips[0][1] = 0;
        assert_eq!(state.get_moves().len(), BOARD_SIZE * BOARD_SIZE * 2 - 1 - 3);
    }
}

#[test]
fn as_u64() {
    for chip_size in 1..MAX_CHIP_SIZE + 1 {
        for player in 1..3 {
            let chip = Chip::new(player, chip_size);
            assert_eq!(Chip::from_u64(chip.as_u64()), chip);
        }
    }
    let empty_chip = Chip::new(0, 0);
    assert_eq!(Chip::from_u64(empty_chip.as_u64()), empty_chip);

    let mut state = State::new();
    assert_eq!(State::from_u64(state.as_u64()), state);
    for _ in 0..10 {
        let moves = state.get_moves();
        let mv = &moves[moves.len() / 2];
        state.make_move(mv);
        assert_eq!(State::from_u64(state.as_u64()), state);
    }
}

#[test]
fn game() {
    let mut state = State::new();
    state.make_move(&Move {
        position: (1, 1),
        chip: Chip::new(1, 1),
    });
    state.make_move(&Move {
        position: (1, 1),
        chip: Chip::new(2, 2),
    });
    state.make_move(&Move {
        position: (2, 2),
        chip: Chip::new(1, 1),
    });
    state.make_move(&Move {
        position: (2, 2),
        chip: Chip::new(2, 3),
    });
    state.make_move(&Move {
        position: (1, 1),
        chip: Chip::new(1, 3),
    });
    state.make_move(&Move {
        position: (0, 2),
        chip: Chip::new(2, 2),
    });
    state.make_move(&Move {
        position: (1, 2),
        chip: Chip::new(1, 3),
    });
    state.make_move(&Move {
        position: (1, 0),
        chip: Chip::new(2, 3),
    });
    state.make_move(&Move {
        position: (2, 1),
        chip: Chip::new(1, 2),
    });
    state.make_move(&Move {
        position: (0, 1),
        chip: Chip::new(2, 1),
    });
    state.make_move(&Move {
        position: (0, 1),
        chip: Chip::new(1, 2),
    });
    assert_eq!(State::from_u64(state.as_u64()), state);
    assert_eq!(state.get_result(), GameResult::Win(1));
}

#[test]
fn chip_accessors() {
    let chip = Chip::new(2, 3);
    assert_eq!(chip.player(), 2);
    assert_eq!(chip.size(), 3);
    assert!(!chip.is_empty());
    assert!(Chip::new(0, 0).is_empty());
}

#[test]
fn chip_codes_are_exact() {
    assert_eq!(Chip::new(0, 0).as_u64(), 0);
    assert_eq!(Chip::new(1, 1).as_u64(), 1);
    assert_eq!(Chip::new(1, 2).as_u64(), 2);
    assert_eq!(Chip::new(1, 3).as_u64(), 3);
    assert_eq!(Chip::new(2, 1).as_u64(), 5);
    assert_eq!(Chip::new(2, 2).as_u64(), 6);
    assert_eq!(Chip::new(2, 3).as_u64(), 7);
}

#[test]
fn chip_from_every_code() {
    assert_eq!(Chip::from_u64(0), Chip::new(0, 0));
    assert_eq!(Chip::from_u64(1), Chip::new(1, 1));
    assert_eq!(Chip::from_u64(2), Chip::new(1, 2));
    assert_eq!(Chip::from_u64(3), Chip::new(1, 3));
    assert_eq!(Chip::from_u64(5), Chip::new(2, 1));
    assert_eq!(Chip::from_u64(6), Chip::new(2, 2));
    assert_eq!(Chip::from_u64(7), Chip::new(2, 3));
}

#[test]
fn chip_owner_bit_is_not_read_for_size_zero() {
    let chip = Chip::from_u64(4);
    assert_eq!(chip, Chip::new(0, 0));
    assert!(chip.is_empty());
}

#[test]
fn new_state_is_the_start() {
    let state = State::new();
    assert_eq!(state.current_player, 1);
    assert_eq!(state.chips, [[2, 2, 2], [2, 2, 2]]);
    for i in 0..3 {
        for j in 0..3 {
            assert!(state.board[i][j].is_empty());
            assert_eq!(state.board[i][j].size(), 0);
        }
    }
    assert_eq!(state.get_result(), GameResult::Draw);
}

#[test]
fn fingerprint_of_the_start() {
    // turn bit 0, then six supplies of 2 in two bits each from bit 1 on
    assert_eq!(State::new().as_u64(), 5460);
    assert_eq!(State::from_u64(5460), State::new());
}

#[test]
fn fingerprint_after_one_move() {
    let mut state = State::new();
    state.make_move(&Move { position: (1, 1), chip: Chip::new(1, 1) });
    // turn bit 1; supplies 1,2,2,2,2,2; code 1 in cell 4, at bit 13 + 3 * 4
    assert_eq!(state.as_u64(), 1 + 2 + 16 + 64 + 256 + 1024 + 4096 + (1 << 25));
    assert_eq!(state.as_u64(), 33559891);
}

#[test]
fn fingerprint_layout_of_the_last_cell() {
    let mut state = State::new();
    state.board[2][2] = Chip::new(2, 3);
    assert_eq!(state.as_u64(), 5460 + (7u64 << 37));
    let mut other = State::new();
    other.board[0][0] = Chip::new(2, 1);
    assert_eq!(other.as_u64(), 5460 + (5u64 << 13));
}

#[test]
fn fingerprint_holds_the_turn_and_the_supplies() {
    let mut state = State::new();
    state.current_player = 2;
    state.chips = [[0, 1, 2], [2, 1, 0]];
    let code = state.as_u64();
    assert_eq!(code, 1 + (0 << 1) + (1 << 3) + (2 << 5) + (2 << 7) + (1 << 9) + (0 << 11));
    assert_eq!(State::from_u64(code), state);
}

#[test]
fn from_u64_reads_every_field() {
    let state = State::from_u64(1 | (1 << 1) | (2 << 11) | (3 << 13) | (6 << 25));
    assert_eq!(state.current_player, 2);
    assert_eq!(state.chips, [[1, 0, 0], [0, 0, 2]]);
    assert_eq!(state.board[0][0], Chip::new(1, 3));
    assert_eq!(state.board[1][1], Chip::new(2, 2));
    assert_eq!(state.board[2][2], Chip::new(0, 0));
}

#[test]
fn fingerprints_differ_between_states() {
    let mut seen = std::collections::HashSet::new();
    let start = State::new();
    assert!(seen.insert(start.as_u64()));
    for mv in start.get_moves() {
        let mut next = start;
        next.make_move(&mv);
        assert!(seen.insert(next.as_u64()));
    }
    assert_eq!(seen.len(), 28);
}

#[test]
fn moves_come_by_size_then_row_then_column() {
    let moves = State::new().get_moves();
    assert_eq!(moves[0], Move { position: (0, 0), chip: Chip::new(1, 1) });
    assert_eq!(moves[1], Move { position: (0, 1), chip: Chip::new(1, 1) });
    assert_eq!(moves[3], Move { position: (1, 0), chip: Chip::new(1, 1) });
    assert_eq!(moves[9], Move { position: (0, 0), chip: Chip::new(1, 2) });
    assert_eq!(moves[26], Move { position: (2, 2), chip: Chip::new(1, 3) });
}

#[test]
fn moves_are_for_the_player_to_move() {
    let mut state = State::new();
    state.make_move(&Move { position: (0, 0), chip: Chip::new(1, 2) });
    let moves = state.get_moves();
    // sizes 1 and 2 cannot go on the chip of size 2; size 3 can
    assert_eq!(moves.len(), 8 + 8 + 9);
    for mv in moves.iter() {
        assert_eq!(mv.chip.player(), 2);
    }
    assert_eq!(moves[16], Move { position: (0, 0), chip: Chip::new(2, 3) });
}

#[test]
fn no_moves_without_chips() {
    let mut state = State::new();
    state.chips = [[0, 0, 0], [2, 2, 2]];
    assert!(state.get_moves().is_empty());
}

#[test]
fn no_moves_on_a_board_of_large_chips() {
    let mut state = State::new();
    for i in 0..3 {
        for j in 0..3 {
            state.board[i][j] = Chip::new(1 + (i + j) % 2, 3);
        }
    }
    assert!(state.get_moves().is_empty());
}

#[test]
fn make_move_places_takes_and_passes() {
    let mut state = State::new();
    state.make_move(&Move { position: (2, 0), chip: Chip::new(1, 3) });
    assert_eq!(state.board[2][0], Chip::new(1, 3));
    assert_eq!(state.chips, [[2, 2, 1], [2, 2, 2]]);
    assert_eq!(state.current_player, 2);
    state.make_move(&Move { position: (0, 1), chip: Chip::new(2, 1) });
    assert_eq!(state.board[0][1], Chip::new(2, 1));
    assert_eq!(state.board[2][0], Chip::new(1, 3));
    assert_eq!(state.chips, [[2, 2, 1], [1, 2, 2]]);
    assert_eq!(state.current_player, 1);
}

#[test]
fn a_larger_chip_covers_a_smaller_one() {
    let mut state = State::new();
    state.make_move(&Move { position: (1, 1), chip: Chip::new(1, 1) });
    state.make_move(&Move { position: (1, 1), chip: Chip::new(2, 2) });
    assert_eq!(state.board[1][1], Chip::new(2, 2));
}

#[test]
fn the_first_complete_line_decides() {
    let mut state = State::new();
    for j in 0..3 {
        state.board[0][j] = Chip::new(2, 1);
        state.board[2][j] = Chip::new(1, 1);
    }
    // rows are tried from the top
    assert_eq!(state.get_result(), GameResult::Win(2));
    let mut other = State::new();
    for i in 0..3 {
        other.board[i][0] = Chip::new(1, 1);
        other.board[i][2] = Chip::new(2, 1);
    }
    // columns are tried from the left
    assert_eq!(other.get_result(), GameResult::Win(1));
}

#[test]
fn sizes_do_not_matter_for_a_line() {
    let mut state = State::new();
    state.board[0][1] = Chip::new(2, 1);
    state.board[1][1] = Chip::new(2, 2);
    state.board[2][1] = Chip::new(2, 3);
    assert_eq!(state.get_result(), GameResult::Win(2));
}

#[test]
fn a_mixed_line_is_no_win() {
    let mut state = State::new();
    state.board[0][0] = Chip::new(1, 1);
    state.board[0][1] = Chip::new(2, 1);
    state.board[0][2] = Chip::new(1, 1);
    assert_eq!(state.get_result(), GameResult::Draw);
    assert_eq!(State::new().get_result(), GameResult::Draw);
}

#[test]
fn well_formed_chips() {
    assert!(Chip::new(0, 0).is_well_formed());
    assert!(Chip::new(1, 1).is_well_formed());
    assert!(Chip::new(2, 3).is_well_formed());
    assert!(!Chip::new(0, 1).is_well_formed());
    assert!(!Chip::new(1, 0).is_well_formed());
    assert!(!Chip::new(3, 1).is_well_formed());
    assert!(!Chip::new(1, 4).is_well_formed());
}

#[test]
fn well_formed_states() {
    assert!(State::new().is_well_formed());
    let mut state = State::new();
    state.current_player = 0;
    assert!(!state.is_well_formed());
    state.current_player = 3;
    assert!(!state.is_well_formed());
    state.current_player = 2;
    assert!(state.is_well_formed());
    state.chips[1][2] = 3;
    assert!(!state.is_well_formed());
    state.chips[1][2] = 0;
    assert!(state.is_well_formed());
    state.board[2][1] = Chip::new(2, 0);
    assert!(!state.is_well_formed());
    state.board[2][1] = Chip::new(2, 2);
    assert!(state.is_well_formed());
}

#[test]
fn every_code_decodes_to_a_well_formed_chip() {
    for code in 0..8 {
        assert!(Chip::from_u64(code).is_well_formed());
    }
}

#[test]
fn a_game_keeps_the_state_well_formed() {
    let mut state = State::new();
    for _ in 0..12 {
        assert!(state.is_well_formed());
        let moves = state.get_moves();
        if moves.is_empty() {
            break;
        }
        state.make_move(&moves[moves.len() - 1]);
    }
    assert!(state.is_well_formed());
}
