//! Choosing a move: the moves are sorted by what they lead to under best
//! play, and one is drawn at random among the best.

use rand::Rng;
use vstd::prelude::*;

use crate::position::Position;
use crate::solver::{eval_state, TranspositionTable};
use crate::state::{GameResult, Move, State};

verus! {

impl Position {
    /// What move `m` is worth to the mover: 2 where the position after it is
    /// won by the mover under best play, 1 where it is drawn, and 0 where
    /// the opponent wins it.
    pub open spec fn standing(self, m: Move) -> int {
        match self.apply(m).value() {
            GameResult::Win(player) => if player == self.turn {
                2
            } else {
                0
            },
            GameResult::Draw => 1,
        }
    }

    /// The moves among `moves` of the given standing, in order.
    pub open spec fn of_standing(self, moves: Seq<Move>, standing: int) -> Seq<Move> {
        moves.filter(|m: Move| self.standing(m) == standing)
    }

    /// The moves to choose among: the winning ones where there is one, else
    /// the drawing ones where there is one, else the losing ones.
    pub open spec fn preferred(self, moves: Seq<Move>) -> Seq<Move> {
        if self.of_standing(moves, 2).len() > 0 {
            self.of_standing(moves, 2)
        } else if self.of_standing(moves, 1).len() > 0 {
            self.of_standing(moves, 1)
        } else {
            self.of_standing(moves, 0)
        }
    }

    /// The preferred move that the number `pick` selects.
    pub open spec fn choice(self, moves: Seq<Move>, pick: usize) -> Move {
        let among = self.preferred(moves);
        among[pick as int % among.len() as int]
    }

    /// Sorting one more move: it joins the moves of its standing.
    proof fn lemma_of_standing_step(self, moves: Seq<Move>, n: int, standing: int)
        requires
            0 <= n < moves.len(),
        ensures
            self.of_standing(moves.take(n + 1), standing) == if self.standing(moves[n])
                == standing {
                self.of_standing(moves.take(n), standing).push(moves[n])
            } else {
                self.of_standing(moves.take(n), standing)
            },
    {
        reveal(Seq::filter);
        assert(moves.take(n + 1).drop_last() =~= moves.take(n));
    }

    /// Every move has one of the three standings, and the preferred moves
    /// are not empty where there is a move.
    pub proof fn lemma_preferred_nonempty(self, moves: Seq<Move>)
        requires
            moves.len() > 0,
        ensures
            self.preferred(moves).len() > 0,
    {
        let s = self.standing(moves[0]);
        moves.lemma_filter_contains(|m: Move| self.standing(m) == s, 0);
    }

    /// The chosen move is one of `moves`, and no other of them has a better
    /// standing: a move that loses is chosen only where every move loses,
    /// and one that draws only where none wins.
    pub proof fn lemma_choice_is_best(self, moves: Seq<Move>, pick: usize)
        requires
            moves.len() > 0,
        ensures
            moves.contains(self.choice(moves, pick)),
            forall|i: int|
                0 <= i < moves.len() ==> self.standing(#[trigger] moves[i]) <= self.standing(
                    self.choice(moves, pick),
                ),
    {
        let best = self.choice(moves, pick);
        let among = self.preferred(moves);
        self.lemma_preferred_nonempty(moves);
        let at = pick as int % among.len() as int;
        assert(among.contains(among[at]));
        if self.of_standing(moves, 2).len() > 0 {
            moves.lemma_filter_contains_rev(|m: Move| self.standing(m) == 2, best);
            moves.lemma_filter_pred(|m: Move| self.standing(m) == 2, at);
        } else if self.of_standing(moves, 1).len() > 0 {
            moves.lemma_filter_contains_rev(|m: Move| self.standing(m) == 1, best);
            moves.lemma_filter_pred(|m: Move| self.standing(m) == 1, at);
            assert forall|i: int| 0 <= i < moves.len() implies self.standing(#[trigger] moves[i])
                <= 1 by {
                if self.standing(moves[i]) == 2 {
                    moves.lemma_filter_contains(|m: Move| self.standing(m) == 2, i);
                }
            }
        } else {
            moves.lemma_filter_contains_rev(|m: Move| self.standing(m) == 0, best);
            assert forall|i: int| 0 <= i < moves.len() implies self.standing(#[trigger] moves[i])
                <= 0 by {
                if self.standing(moves[i]) == 2 {
                    moves.lemma_filter_contains(|m: Move| self.standing(m) == 2, i);
                }
                if self.standing(moves[i]) == 1 {
                    moves.lemma_filter_contains(|m: Move| self.standing(m) == 1, i);
                }
            }
        }
    }
}

/// A number drawn from the random generator of the running thread, by
/// `rand::thread_rng().gen::<usize>()`. Nothing is claimed of the number.
/// The generator is seeded by the operating system on its first use in a
/// thread, and the call panics where that fails.
#[verifier::external_body]
pub(crate) fn random_index() -> usize {
    rand::thread_rng().gen::<usize>()
}

/// The move among `moves` that `pick` selects among those of the best
/// standing for the player to move in `state`.
///
/// The position after each move is looked up in `global_mem` and solved
/// where the table does not hold it.
pub fn get_best_move_with(
    state: &State,
    moves: Vec<Move>,
    global_mem: &TranspositionTable,
    pick: usize,
) -> (best: Move)
    requires
        state@.wf(),
        global_mem.wf(),
        moves.len() > 0,
        forall|i: int| 0 <= i < moves.len() ==> state@.is_legal(#[trigger] moves[i]),
    ensures
        best == state@.choice(moves@, pick),
{
    let ghost pos = state@;
    let mut winning: Vec<Move> = Vec::new();
    let mut drawing: Vec<Move> = Vec::new();
    let mut losing: Vec<Move> = Vec::new();
    let mut mem = TranspositionTable::new();
    proof {
        reveal(Seq::filter);
        assert(moves@.take(0) =~= Seq::<Move>::empty());
    }
    for idx in 0..moves.len()
        invariant
            pos == state@,
            pos.wf(),
            global_mem.wf(),
            mem.wf(),
            forall|i: int| 0 <= i < moves.len() ==> pos.is_legal(#[trigger] moves[i]),
            winning@ == pos.of_standing(moves@.take(idx as int), 2),
            drawing@ == pos.of_standing(moves@.take(idx as int), 1),
            losing@ == pos.of_standing(moves@.take(idx as int), 0),
    {
        let mv = moves[idx];
        let mut next_state = state.clone();
        next_state.make_move(&mv);
        proof {
            pos.lemma_apply_wf(mv);
            pos.lemma_of_standing_step(moves@, idx as int, 2);
            pos.lemma_of_standing_step(moves@, idx as int, 1);
            pos.lemma_of_standing_step(moves@, idx as int, 0);
        }
        let key = next_state.as_u64();
        assert(key == next_state@.key());
        let result = match global_mem.get(key) {
            Some(known) => known,
            None => eval_state(next_state, &mut mem),
        };
        assert(result == pos.apply(mv).value());
        match result {
            GameResult::Win(player) => {
                if player == state.current_player {
                    winning.push(mv);
                } else {
                    losing.push(mv);
                }
            },
            GameResult::Draw => {
                drawing.push(mv);
            },
        }
    }
    proof {
        assert(moves@.take(moves.len() as int) =~= moves@);
        pos.lemma_preferred_nonempty(moves@);
    }
    if winning.len() > 0 {
        winning[pick % winning.len()]
    } else if drawing.len() > 0 {
        drawing[pick % drawing.len()]
    } else {
        losing[pick % losing.len()]
    }
}

/// A move drawn at random among the moves of the best standing for the
/// player to move: no move that loses where one draws or wins, and none
/// that draws where one wins.
pub fn get_best_move(state: &State, moves: Vec<Move>, global_mem: &TranspositionTable) -> (best:
    Move)
    requires
        state@.wf(),
        global_mem.wf(),
        moves.len() > 0,
        forall|i: int| 0 <= i < moves.len() ==> state@.is_legal(#[trigger] moves[i]),
    ensures
        state@.preferred(moves@).contains(best),
        moves@.contains(best),
        forall|i: int|
            0 <= i < moves.len() ==> state@.standing(#[trigger] moves[i]) <= state@.standing(best),
{
    let pick = random_index();
    proof {
        state@.lemma_choice_is_best(moves@, pick);
        state@.lemma_preferred_nonempty(moves@);
        let among = state@.preferred(moves@);
        assert(among.contains(among[pick as int % among.len() as int]));
    }
    get_best_move_with(state, moves, global_mem, pick)
}

} // verus!
