use ttt_engine::policy::{get_best_move, get_best_move_with};
use ttt_engine::service::{is_random, respond, respond_with, Reply};
use ttt_engine::solver::{eval_state, warm_up, TranspositionTable, PREC_LEVELS};
use ttt_engine::state::{Chip, GameResult, Move, State};

/// A board full of chips of size 3 without a complete line, but for the
/// cells named in `empty`.
fn crowded(empty: &[(usize, usize)]) -> State {
    let owners = [[2, 2, 1], [1, 1, 2], [2, 1, 1]];
    let mut state = State::new();
    for i in 0..3 {
        for j in 0..3 {
            state.board[i][j] = Chip::new(owners[i][j], 3);
        }
    }
    for &(i, j) in empty {
        state.board[i][j] = Chip::new(0, 0);
    }
    state.chips = [[0, 0, 0], [0, 0, 0]];
    state
}

/// Player 1 holds one chip of size 3 and player 2 one of size 2; the cells
/// (0, 2) and (2, 2) are empty. Player 2 threatens the top row.
fn block_or_lose() -> State {
    let mut state = crowded(&[(0, 2), (2, 2)]);
    state.chips = [[0, 0, 1], [0, 1, 0]];
    state
}

#[test]
fn crowded_board_shows_no_line() {
    assert_eq!(crowded(&[]).get_result(), GameResult::Draw);
    assert_eq!(crowded(&[(0, 2), (2, 2)]).get_result(), GameResult::Draw);
}

#[test]
fn a_complete_line_is_the_value() {
    let mut state = State::new();
    for j in 0..3 {
        state.board[1][j] = Chip::new(2, 1);
    }
    let mut mem = TranspositionTable::new();
    assert_eq!(eval_state(state, &mut mem), GameResult::Win(2));
    assert_eq!(mem.get(state.as_u64()), Some(GameResult::Win(2)));
    assert_eq!(mem.len(), 1);
}

#[test]
fn no_legal_move_is_a_draw() {
    let state = crowded(&[(1, 1)]);
    let mut mem = TranspositionTable::new();
    assert!(state.get_moves().is_empty());
    assert_eq!(eval_state(state, &mut mem), GameResult::Draw);
    assert_eq!(mem.get(state.as_u64()), Some(GameResult::Draw));
}

#[test]
fn a_move_that_completes_a_line_wins() {
    let mut state = State::new();
    state.board[0][0] = Chip::new(1, 1);
    state.board[0][1] = Chip::new(1, 1);
    let mut mem = TranspositionTable::new();
    assert_eq!(eval_state(state, &mut mem), GameResult::Win(1));
    // found without solving any other position
    assert_eq!(mem.len(), 1);
}

#[test]
fn the_opponent_wins_where_every_move_loses() {
    // player 1 must fill (0, 2) with a chip of size 1, which player 2 covers
    let mut state = crowded(&[(0, 2)]);
    state.chips = [[1, 0, 0], [0, 1, 0]];
    let mut mem = TranspositionTable::new();
    assert_eq!(eval_state(state, &mut mem), GameResult::Win(2));
    assert_eq!(mem.len(), 2);
}

#[test]
fn a_draw_where_the_mover_can_block() {
    let state = block_or_lose();
    let mut mem = TranspositionTable::new();
    assert_eq!(eval_state(state, &mut mem), GameResult::Draw);
}

#[test]
fn the_value_does_not_depend_on_the_table() {
    let state = block_or_lose();
    let mut cold = TranspositionTable::new();
    let first = eval_state(state, &mut cold);
    // the same table again, now warm
    let again = eval_state(state, &mut cold);
    assert_eq!(first, again);
    // a table that has seen other positions
    let mut other = TranspositionTable::new();
    let mut after = state;
    after.make_move(&Move { position: (0, 2), chip: Chip::new(1, 3) });
    eval_state(after, &mut other);
    assert_eq!(eval_state(state, &mut other), first);
    assert_eq!(cold.get(state.as_u64()), other.get(state.as_u64()));
}

#[test]
fn the_table_only_grows() {
    let state = block_or_lose();
    let mut mem = TranspositionTable::new();
    eval_state(state, &mut mem);
    let len = mem.len();
    assert!(len >= 3);
    let mut after = state;
    after.make_move(&Move { position: (2, 2), chip: Chip::new(1, 3) });
    let known = mem.get(after.as_u64());
    assert_eq!(known, Some(GameResult::Win(2)));
    eval_state(after, &mut mem);
    assert_eq!(mem.len(), len);
    assert_eq!(mem.get(after.as_u64()), known);
}

#[test]
fn an_empty_table_holds_nothing() {
    let mem = TranspositionTable::new();
    assert_eq!(mem.len(), 0);
    assert_eq!(mem.get(State::new().as_u64()), None);
}

#[test]
fn no_warm_up_gives_an_empty_table() {
    assert_eq!(warm_up(0).len(), 0);
    assert_eq!(PREC_LEVELS, 3);
}

#[test]
fn the_winning_move_is_chosen() {
    // player 1 completes the top row at (0, 2); (2, 2) only draws
    let owners = [[1, 1, 0], [2, 2, 1], [1, 2, 0]];
    let mut state = State::new();
    for i in 0..3 {
        for j in 0..3 {
            if owners[i][j] != 0 {
                state.board[i][j] = Chip::new(owners[i][j], 3);
            }
        }
    }
    state.chips = [[1, 0, 0], [0, 0, 0]];
    assert_eq!(state.get_result(), GameResult::Draw);
    assert_eq!(state.get_moves().len(), 2);
    let global = TranspositionTable::new();
    let win = Move { position: (0, 2), chip: Chip::new(1, 1) };
    for pick in 0..5 {
        assert_eq!(get_best_move_with(&state, state.get_moves(), &global, pick), win);
    }
    assert_eq!(get_best_move(&state, state.get_moves(), &global), win);
}

#[test]
fn a_losing_move_is_not_chosen_where_one_draws() {
    let state = block_or_lose();
    let moves = state.get_moves();
    assert_eq!(moves.len(), 2);
    let global = TranspositionTable::new();
    let block = Move { position: (0, 2), chip: Chip::new(1, 3) };
    for pick in 0..5 {
        assert_eq!(get_best_move_with(&state, state.get_moves(), &global, pick), block);
    }
    for _ in 0..20 {
        assert_eq!(get_best_move(&state, state.get_moves(), &global), block);
    }
}

#[test]
fn the_pick_selects_among_equal_moves() {
    // player 2 holds nothing, so both moves of player 1 draw
    let mut state = crowded(&[(0, 2), (2, 2)]);
    state.chips = [[0, 0, 1], [0, 0, 0]];
    let global = TranspositionTable::new();
    let first = Move { position: (0, 2), chip: Chip::new(1, 3) };
    let second = Move { position: (2, 2), chip: Chip::new(1, 3) };
    assert_eq!(get_best_move_with(&state, state.get_moves(), &global, 0), first);
    assert_eq!(get_best_move_with(&state, state.get_moves(), &global, 1), second);
    assert_eq!(get_best_move_with(&state, state.get_moves(), &global, 6), first);
    assert_eq!(get_best_move_with(&state, state.get_moves(), &global, 7), second);
    let drawn = get_best_move(&state, state.get_moves(), &global);
    assert!(drawn == first || drawn == second);
}

#[test]
fn a_known_position_is_taken_from_the_shared_table() {
    let state = block_or_lose();
    let mut global = TranspositionTable::new();
    let mut after = state;
    after.make_move(&Move { position: (0, 2), chip: Chip::new(1, 3) });
    eval_state(after, &mut global);
    let block = Move { position: (0, 2), chip: Chip::new(1, 3) };
    assert_eq!(get_best_move_with(&state, state.get_moves(), &global, 3), block);
}

#[test]
fn the_random_strategy_has_one_name() {
    assert!(is_random(&"random".to_string()));
    assert!(!is_random(&"best".to_string()));
    assert!(!is_random(&"Random".to_string()));
    assert!(!is_random(&"".to_string()));
}

#[test]
fn a_finished_game_is_answered_with_its_result() {
    let mut state = State::new();
    for i in 0..3 {
        state.board[i][0] = Chip::new(1, 2);
    }
    let global = TranspositionTable::new();
    let reply = respond_with(state, &"best".to_string(), &global, 0);
    assert_eq!(reply, Reply { best_move: None, result: Some(GameResult::Win(1)) });
    assert_eq!(respond(state, &"random".to_string(), &global), reply);
    assert!(state.is_over());
}

#[test]
fn a_stuck_game_is_answered_with_a_draw() {
    let state = crowded(&[]);
    let global = TranspositionTable::new();
    let reply = respond(state, &"best".to_string(), &global);
    assert_eq!(reply, Reply { best_move: None, result: Some(GameResult::Draw) });
    assert!(state.is_over());
}

#[test]
fn the_start_is_not_over() {
    assert!(!State::new().is_over());
}

#[test]
fn the_random_strategy_takes_the_picked_move() {
    let state = State::new();
    let global = TranspositionTable::new();
    let name = "random".to_string();
    let moves = state.get_moves();
    for pick in [0, 5, 26, 27, 100] {
        let reply = respond_with(state, &name, &global, pick);
        assert_eq!(reply, Reply { best_move: Some(moves[pick % 27]), result: None });
    }
    let reply = respond(state, &name, &global);
    assert_eq!(reply.result, None);
    assert!(moves.contains(&reply.best_move.unwrap()));
}

#[test]
fn the_random_strategy_may_lose() {
    let state = block_or_lose();
    let global = TranspositionTable::new();
    let reply = respond_with(state, &"random".to_string(), &global, 1);
    let lose = Move { position: (2, 2), chip: Chip::new(1, 3) };
    assert_eq!(reply, Reply { best_move: Some(lose), result: None });
}

#[test]
fn the_best_strategy_answers_with_the_block() {
    let state = block_or_lose();
    let global = TranspositionTable::new();
    let block = Move { position: (0, 2), chip: Chip::new(1, 3) };
    for pick in 0..4 {
        let reply = respond_with(state, &"best".to_string(), &global, pick);
        assert_eq!(reply, Reply { best_move: Some(block), result: None });
    }
    let reply = respond(state, &"anything".to_string(), &global);
    assert_eq!(reply, Reply { best_move: Some(block), result: None });
}

#[test]
fn a_winning_move_is_answered_with_the_win() {
    let mut state = State::new();
    state.board[1][1] = Chip::new(1, 3);
    state.board[2][0] = Chip::new(1, 3);
    state.board[0][0] = Chip::new(2, 3);
    state.board[0][1] = Chip::new(2, 3);
    state.chips = [[1, 0, 0], [0, 0, 0]];
    let global = TranspositionTable::new();
    let reply = respond_with(state, &"best".to_string(), &global, 9);
    let win = Move { position: (0, 2), chip: Chip::new(1, 1) };
    assert_eq!(reply, Reply { best_move: Some(win), result: Some(GameResult::Win(1)) });
}

#[test]
fn a_last_move_is_answered_with_the_draw() {
    // after the only move of player 1, player 2 holds nothing
    let mut state = crowded(&[(2, 2)]);
    state.chips = [[1, 0, 0], [0, 0, 0]];
    let global = TranspositionTable::new();
    let reply = respond_with(state, &"best".to_string(), &global, 0);
    let last = Move { position: (2, 2), chip: Chip::new(1, 1) };
    assert_eq!(reply, Reply { best_move: Some(last), result: Some(GameResult::Draw) });
}
