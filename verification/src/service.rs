//! Answering a request: a state and the name of a strategy come in, a move
//! and the result of the game, as far as it is decided, go out.

use vstd::prelude::*;

use crate::policy::{get_best_move_with, random_index};
use crate::position::Position;
use crate::solver::TranspositionTable;
use crate::state::{GameResult, Move, State};

verus! {

/// The answer to a request: the move made, if the game was not over, and
/// the result of the game, if it is over after that move.
#[derive(Debug, Clone, Copy, PartialEq)]
pub struct Reply {
    pub best_move: Option<Move>,
    pub result: Option<GameResult>,
}

impl Position {
    /// The result of the game where it is over.
    pub open spec fn verdict(self) -> Option<GameResult> {
        if self.is_over() {
            Some(self.outcome())
        } else {
            None
        }
    }

    /// The answer to a request with this position, where `random` tells
    /// whether the strategy is the random one and `pick` is the number
    /// drawn.
    ///
    /// Where the game is over, the answer is its result. Otherwise the
    /// random strategy takes the legal move that `pick` selects among all of
    /// them, any other strategy the one that `pick` selects among the best,
    /// and the answer holds that move and the result of the game if the move
    /// ends it.
    pub open spec fn reply(self, random: bool, pick: usize) -> Reply {
        if self.is_over() {
            Reply { best_move: None, result: Some(self.outcome()) }
        } else {
            let moves = self.legal_moves();
            let m = if random {
                moves[pick as int % moves.len() as int]
            } else {
                self.choice(moves, pick)
            };
            Reply { best_move: Some(m), result: self.apply(m).verdict() }
        }
    }
}

impl Position {
    /// Whether `reply` is an answer to a request with this position: the
    /// result alone where the game is over, and otherwise a legal move, one
    /// of the best unless the strategy is the random one, with the result of
    /// the game if the move ends it.
    pub open spec fn admits(self, random: bool, reply: Reply) -> bool {
        if self.is_over() {
            reply == (Reply { best_move: None, result: Some(self.outcome()) })
        } else {
            &&& reply.best_move matches Some(m)
            &&& if random {
                self.legal_moves().contains(m)
            } else {
                self.preferred(self.legal_moves()).contains(m)
            }
            &&& reply.result == self.apply(m).verdict()
        }
    }

    /// Whatever number is drawn, the answer is one that the position
    /// admits.
    pub proof fn lemma_reply_admitted(self, random: bool, pick: usize)
        ensures
            self.admits(random, self.reply(random, pick)),
    {
        if !self.is_over() {
            let moves = self.legal_moves();
            self.lemma_preferred_nonempty(moves);
            let among = self.preferred(moves);
            assert(moves.contains(moves[pick as int % moves.len() as int]));
            assert(among.contains(among[pick as int % among.len() as int]));
        }
    }
}

/// Whether `strategy` names the random strategy, which takes any legal move
/// without looking ahead.
pub fn is_random(strategy: &String) -> (random: bool)
    ensures
        random == (strategy@ == "random"@),
{
    let name = "random".to_owned();
    strategy.eq(&name)
}

/// The answer to a request, with `pick` for the number drawn at random.
pub fn respond_with(
    state: State,
    strategy: &String,
    global_mem: &TranspositionTable,
    pick: usize,
) -> (reply: Reply)
    requires
        state@.wf(),
        global_mem.wf(),
    ensures
        reply == state@.reply(strategy@ == "random"@, pick),
{
    let mut state = state;
    let ghost pos = state@;
    let result = state.get_result();
    let moves = state.get_moves();
    if result != GameResult::Draw || moves.len() == 0 {
        return Reply { best_move: None, result: Some(result) };
    }
    proof {
        pos.lemma_legal_moves();
    }
    let best_move = if is_random(strategy) {
        moves[pick % moves.len()]
    } else {
        get_best_move_with(&state, moves, global_mem, pick)
    };
    proof {
        pos.lemma_choice_is_best(pos.legal_moves(), pick);
        pos.lemma_apply_wf(best_move);
    }
    state.make_move(&best_move);
    let result = state.get_result();
    if result != GameResult::Draw || state.get_moves().len() == 0 {
        Reply { best_move: Some(best_move), result: Some(result) }
    } else {
        Reply { best_move: Some(best_move), result: None }
    }
}

/// The answer to a request. A move is drawn at random: among all legal
/// moves under the random strategy, among the best under any other.
pub fn respond(state: State, strategy: &String, global_mem: &TranspositionTable) -> (reply:
    Reply)
    requires
        state@.wf(),
        global_mem.wf(),
    ensures
        state@.admits(strategy@ == "random"@, reply),
        ({
            let random = strategy@ == "random"@;
            exists|pick: usize| reply == #[trigger] state@.reply(random, pick)
        }),
{
    let pick = if state.is_over() {
        0
    } else {
        random_index()
    };
    proof {
        state@.lemma_reply_admitted(strategy@ == "random"@, pick);
    }
    respond_with(state, strategy, global_mem, pick)
}

} // verus!
