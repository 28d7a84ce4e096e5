//! The value of a position under best play, and the solver that computes
//! it by exhaustive search with a table of the positions already solved.

use std::collections::HashMap;
use vstd::prelude::*;

use crate::position::Position;
use crate::state::{GameResult, Move, State};

verus! {

broadcast use vstd::std_specs::hash::group_hash_axioms;

impl Position {
    /// The key of a position in a table: its fingerprint.
    pub open spec fn key(self) -> u64 {
        self.fingerprint() as u64
    }

    /// The value of a position when both players play as well as they can:
    /// each one wins where that is possible, and otherwise draws where that
    /// is possible.
    ///
    /// A position with a complete line has the value that the board shows.
    /// One without a legal move is a draw. Any other is won by the mover
    /// if some move leads to a position that the mover wins, else drawn if
    /// some move leads to a drawn position, else won by the opponent.
    pub open spec fn value(self) -> GameResult
        decreases self.total_supply(),
        when self.wf()
    {
        let shown = self.outcome();
        let mover = GameResult::Win(self.turn as usize);
        if shown != GameResult::Draw {
            shown
        } else if forall|m: Move| !self.is_legal(m) {
            GameResult::Draw
        } else if exists|m: Move| #[trigger]
            self.is_legal(m) && self.apply(m).value() == mover {
            mover
        } else if exists|m: Move| #[trigger]
            self.is_legal(m) && self.apply(m).value() == GameResult::Draw {
            GameResult::Draw
        } else {
            GameResult::Win(self.opponent() as usize)
        }
    }
}

impl Position {
    /// Whether the position comes from `origin` by `n` legal moves.
    pub open spec fn comes_from_in(self, origin: Position, n: nat) -> bool
        decreases n,
    {
        if n == 0 {
            self == origin
        } else {
            exists|prev: Position, m: Move|
                prev.comes_from_in(origin, (n - 1) as nat) && #[trigger] prev.is_legal(m) && self
                    == prev.apply(m)
        }
    }

    /// Whether the position comes from `origin` by legal moves, or is
    /// `origin`.
    pub open spec fn comes_from(self, origin: Position) -> bool {
        exists|n: nat| self.comes_from_in(origin, n)
    }

    /// What legal moves lead to from a well-formed position is well formed.
    pub proof fn lemma_comes_from_wf(self, origin: Position, n: nat)
        requires
            origin.wf(),
            self.comes_from_in(origin, n),
        ensures
            self.wf(),
        decreases n,
    {
        if n > 0 {
            let (prev, m) = choose|prev: Position, m: Move|
                prev.comes_from_in(origin, (n - 1) as nat) && #[trigger] prev.is_legal(m) && self
                    == prev.apply(m);
            prev.lemma_comes_from_wf(origin, (n - 1) as nat);
            prev.lemma_apply_wf(m);
        }
    }

    /// What comes from the position after a legal move comes from the
    /// position before it, by one move more.
    pub proof fn lemma_comes_from_after(self, origin: Position, m: Move, n: nat)
        requires
            origin.is_legal(m),
            self.comes_from_in(origin.apply(m), n),
        ensures
            self.comes_from_in(origin, n + 1),
        decreases n,
    {
        if n == 0 {
            assert(origin.comes_from_in(origin, 0));
            assert(origin.is_legal(m) && self == origin.apply(m));
        } else {
            let (prev, last) = choose|prev: Position, last: Move|
                prev.comes_from_in(origin.apply(m), (n - 1) as nat) && #[trigger] prev.is_legal(
                    last,
                ) && self == prev.apply(last);
            prev.lemma_comes_from_after(origin, m, (n - 1) as nat);
            assert(prev.comes_from_in(origin, n) && prev.is_legal(last) && self == prev.apply(
                last,
            ));
        }
    }
}

/// Whether every key that `after` holds and `before` does not is the
/// fingerprint of a position that comes from `origin`.
pub open spec fn grown_below(
    before: Map<u64, GameResult>,
    after: Map<u64, GameResult>,
    origin: Position,
) -> bool {
    forall|key: u64| #[trigger]
        after.contains_key(key) ==> before.contains_key(key) || exists|p: Position| #[trigger]
            p.comes_from(origin) && p.key() == key
}

/// The table of solved positions: it maps the fingerprint of a position to
/// the value of the position. Entries are added and never changed or taken
/// out.
pub struct TranspositionTable {
    entries: HashMap<u64, GameResult>,
}

impl View for TranspositionTable {
    type V = Map<u64, GameResult>;

    closed spec fn view(&self) -> Map<u64, GameResult> {
        self.entries@
    }
}

impl TranspositionTable {
    /// Every entry under the fingerprint of a well-formed position holds
    /// the value of that position.
    pub open spec fn wf(&self) -> bool {
        forall|p: Position|
            p.wf() && self@.contains_key(#[trigger] p.key()) ==> self@[p.key()] == p.value()
    }

    /// An empty table.
    pub fn new() -> (table: TranspositionTable)
        ensures
            table.wf(),
            table@ == Map::<u64, GameResult>::empty(),
    {
        TranspositionTable { entries: HashMap::new() }
    }

    /// The number of entries.
    pub fn len(&self) -> (len: usize)
        ensures
            len == self@.len(),
    {
        self.entries.len()
    }

    /// The entry under `key`, if there is one.
    pub fn get(&self, key: u64) -> (found: Option<GameResult>)
        ensures
            found == if self@.contains_key(key) {
                Some(self@[key])
            } else {
                None
            },
    {
        match self.entries.get(&key) {
            Some(result) => Some(*result),
            None => None,
        }
    }

    /// Two well-formed tables hold the same value for a well-formed
    /// position that both hold: its value under best play. What a table
    /// held before a search changes no result.
    pub proof fn lemma_tables_agree(&self, other: &TranspositionTable, p: Position)
        requires
            self.wf(),
            other.wf(),
            p.wf(),
            self@.contains_key(p.key()),
            other@.contains_key(p.key()),
        ensures
            self@[p.key()] == p.value(),
            other@[p.key()] == p.value(),
    {
    }

    /// Adds the value of a position under the position's fingerprint.
    fn insert(&mut self, key: u64, result: GameResult)
        requires
            old(self).wf(),
            forall|p: Position| p.wf() && #[trigger] p.key() == key ==> p.value() == result,
        ensures
            final(self).wf(),
            final(self)@ == old(self)@.insert(key, result),
    {
        self.entries.insert(key, result);
    }
}

/// What the scan for a move that completes a line has found after the first
/// `n` of `moves`: none of them completes a line of the mover, and `quiet`
/// holds, in order, the positions after those that complete no line at all.
spec fn scanned(pos: Position, moves: Seq<Move>, quiet: Seq<Position>, n: int) -> bool {
    &&& forall|i: int|
        0 <= i < n ==> pos.apply(#[trigger] moves[i]).outcome() != GameResult::Win(
            pos.turn as usize,
        )
    &&& forall|k: int|
        0 <= k < quiet.len() ==> (#[trigger] quiet[k]).outcome() == GameResult::Draw && exists|
            i: int,
        |
            0 <= i < n && quiet[k] == pos.apply(#[trigger] moves[i])
    &&& forall|i: int|
        0 <= i < n && pos.apply(#[trigger] moves[i]).outcome() == GameResult::Draw
            ==> quiet.contains(pos.apply(moves[i]))
}

/// Whether one of the first `n` positions of `quiet` has the value `v`.
spec fn some_valued(quiet: Seq<Position>, n: int, v: GameResult) -> bool {
    exists|k: int| 0 <= k < n && (#[trigger] quiet[k]).value() == v
}

impl Position {
    /// A position with a complete line has the value that the board shows.
    pub proof fn lemma_value_shown(self)
        requires
            self.wf(),
            self.outcome() != GameResult::Draw,
        ensures
            self.value() == self.outcome(),
    {
    }

    /// The value of a well-formed position is a draw or a win of one of the
    /// two players.
    pub proof fn lemma_value_range(self)
        requires
            self.wf(),
        ensures
            self.value() == GameResult::Draw || self.value() == GameResult::Win(1)
                || self.value() == GameResult::Win(2),
    {
        if self.outcome() != GameResult::Draw {
            self.lemma_outcome_draw();
            let k = choose|k: int| 0 <= k < 8 && self.line_complete(k);
            reveal_with_fuel(Position::outcome_from, 9);
            assert forall|j: int| 0 <= j < 8 implies self.line_owner(j) <= 2 by {
                assert(self.cells[Position::line(j).0].wf());
            }
        }
    }

    /// A position without a complete line and without a legal move is a
    /// draw.
    pub proof fn lemma_value_no_moves(self)
        requires
            self.wf(),
            self.outcome() == GameResult::Draw,
            self.legal_moves().len() == 0,
        ensures
            self.value() == GameResult::Draw,
    {
        self.lemma_legal_moves();
        assert forall|m: Move| !self.is_legal(m) by {
            if self.is_legal(m) {
                assert(self.legal_moves().contains(m));
            }
        }
    }

    /// A move that completes a line of the mover wins the position.
    pub proof fn lemma_value_immediate(self, m: Move)
        requires
            self.wf(),
            self.outcome() == GameResult::Draw,
            self.is_legal(m),
            self.apply(m).outcome() == GameResult::Win(self.turn as usize),
        ensures
            self.value() == GameResult::Win(self.turn as usize),
    {
        self.lemma_apply_wf(m);
        self.apply(m).lemma_value_shown();
    }

    /// Whether some legal move leads to a position of value `v`.
    pub open spec fn some_move_gives(self, v: GameResult) -> bool {
        exists|m: Move| #[trigger] self.is_legal(m) && self.apply(m).value() == v
    }

    /// The value of a position without a complete line and with a legal
    /// move, from the values of the positions after the legal moves.
    pub proof fn lemma_value_by_moves(self)
        requires
            self.wf(),
            self.outcome() == GameResult::Draw,
            self.legal_moves().len() > 0,
        ensures
            self.value() == if self.some_move_gives(GameResult::Win(self.turn as usize)) {
                GameResult::Win(self.turn as usize)
            } else if self.some_move_gives(GameResult::Draw) {
                GameResult::Draw
            } else {
                GameResult::Win(self.opponent() as usize)
            },
    {
        self.lemma_legal_moves();
        assert(self.is_legal(self.legal_moves()[0]));
    }

    /// Where the scan is through, the position after a legal move is a
    /// quiet position, or has a complete line that is not the mover's; its
    /// value is then a win of the opponent.
    proof fn lemma_scanned_move(self, quiet: Seq<Position>, m: Move)
        requires
            self.wf(),
            scanned(self, self.legal_moves(), quiet, self.legal_moves().len() as int),
            self.is_legal(m),
        ensures
            quiet.contains(self.apply(m)) || (self.apply(m).value() != GameResult::Draw
                && self.apply(m).value() != GameResult::Win(self.turn as usize)),
    {
        let moves = self.legal_moves();
        self.lemma_legal_moves();
        assert(moves.contains(m));
        let i = choose|i: int| 0 <= i < moves.len() && moves[i] == m;
        assert(self.apply(moves[i]).outcome() != GameResult::Win(self.turn as usize));
        self.lemma_apply_wf(m);
        if self.apply(m).outcome() != GameResult::Draw {
            self.apply(m).lemma_value_shown();
        }
    }

    /// Where the scan is through, some legal move leads to a position of
    /// value `v`, a win of the mover or a draw, exactly when some quiet
    /// position has that value.
    proof fn lemma_scanned_gives(self, quiet: Seq<Position>, v: GameResult)
        requires
            self.wf(),
            scanned(self, self.legal_moves(), quiet, self.legal_moves().len() as int),
            v == GameResult::Draw || v == GameResult::Win(self.turn as usize),
        ensures
            some_valued(quiet, quiet.len() as int, v) <==> self.some_move_gives(v),
    {
        let moves = self.legal_moves();
        if some_valued(quiet, quiet.len() as int, v) {
            let k = choose|k: int| 0 <= k < quiet.len() && (#[trigger] quiet[k]).value() == v;
            let i = choose|i: int|
                0 <= i < moves.len() && quiet[k] == self.apply(#[trigger] moves[i]);
            self.lemma_legal_moves();
            assert(self.is_legal(moves[i]) && self.apply(moves[i]).value() == v);
        }
        if self.some_move_gives(v) {
            let m = choose|m: Move| #[trigger] self.is_legal(m) && self.apply(m).value() == v;
            self.lemma_scanned_move(quiet, m);
            let k = choose|k: int| 0 <= k < quiet.len() && quiet[k] == self.apply(m);
            assert(quiet[k].value() == v);
        }
    }

    /// The value of a position in which no move completes a line of the
    /// mover, from the values of the positions after the moves that
    /// complete no line.
    proof fn lemma_value_searched(self, quiet: Seq<Position>)
        requires
            self.wf(),
            self.outcome() == GameResult::Draw,
            self.legal_moves().len() > 0,
            scanned(self, self.legal_moves(), quiet, self.legal_moves().len() as int),
        ensures
            self.value() == if some_valued(
                quiet,
                quiet.len() as int,
                GameResult::Win(self.turn as usize),
            ) {
                GameResult::Win(self.turn as usize)
            } else if some_valued(quiet, quiet.len() as int, GameResult::Draw) {
                GameResult::Draw
            } else {
                GameResult::Win(self.opponent() as usize)
            },
    {
        self.lemma_value_by_moves();
        self.lemma_scanned_gives(quiet, GameResult::Win(self.turn as usize));
        self.lemma_scanned_gives(quiet, GameResult::Draw);
    }

    /// The key of a well-formed position belongs to no other.
    pub proof fn lemma_key_injective(self, other: Position)
        requires
            self.wf(),
            other.wf(),
            self.key() == other.key(),
        ensures
            self == other,
    {
        self.lemma_fingerprint_bound();
        other.lemma_fingerprint_bound();
        self.lemma_fingerprint_injective(other);
    }
}

/// The value of `state` under best play.
///
/// A position that the table holds is answered from the table, which stays
/// as it is. Otherwise the search looks first for a move that completes a
/// line, then solves the positions after the other moves in turn, and stops
/// at the first that the mover wins. The value found is added to the table.
/// Where the game is over or a move completes a line, nothing else is
/// added; otherwise the values of positions that the search went through
/// are added too, all of which come from `state` by legal moves.
pub fn eval_state(state: State, mem: &mut TranspositionTable) -> (result: GameResult)
    requires
        state@.wf(),
        old(mem).wf(),
    ensures
        result == state@.value(),
        final(mem).wf(),
        old(mem)@.submap_of(final(mem)@),
        final(mem)@.contains_key(state@.key()),
        old(mem)@.contains_key(state@.key()) ==> final(mem)@ == old(mem)@,
        state@.is_over() || state@.wins_at_once() ==> final(mem)@ == old(mem)@.insert(
            state@.key(),
            result,
        ),
        grown_below(old(mem)@, final(mem)@, state@),
    decreases state@.total_supply(),
{
    let ghost pos = state@;
    let encoded = state.as_u64();
    proof {
        assert(encoded == pos.key());
        assert(pos.comes_from_in(pos, 0));
        assert(pos.comes_from(pos));
        assert forall|p: Position| p.wf() && #[trigger] p.key() == encoded implies p == pos by {
            p.lemma_key_injective(pos);
        }
    }
    if let Some(known) = mem.get(encoded) {
        return known;
    }
    let shown = state.get_result();
    if shown != GameResult::Draw {
        proof {
            pos.lemma_value_shown();
        }
        mem.insert(encoded, shown);
        return shown;
    }
    let moves = state.get_moves();
    if moves.len() == 0 {
        proof {
            pos.lemma_value_no_moves();
        }
        mem.insert(encoded, GameResult::Draw);
        return GameResult::Draw;
    }
    let mover = state.current_player;
    let mut other_states: Vec<State> = Vec::new();
    let ghost mut quiet: Seq<Position> = Seq::empty();
    let mut result = GameResult::Win(3 - state.current_player);
    proof {
        pos.lemma_legal_moves();
    }
    for idx in 0..moves.len()
        invariant
            pos == state@,
            pos.wf(),
            pos.outcome() == GameResult::Draw,
            mover == pos.turn,
            moves@ == pos.legal_moves(),
            forall|i: int| 0 <= i < moves.len() ==> pos.is_legal(#[trigger] moves[i]),
            forall|p: Position| p.wf() && #[trigger] p.key() == encoded ==> p == pos,
            mem.wf(),
            mem@ == old(mem)@,
            encoded == pos.key(),
            pos.comes_from(pos),
            !old(mem)@.contains_key(encoded),
            quiet.len() == other_states.len(),
            forall|k: int| 0 <= k < quiet.len() ==> (#[trigger] other_states[k])@ == quiet[k],
            scanned(pos, moves@, quiet, idx as int),
    {
        let mv = moves[idx];
        let mut next_state = state.clone();
        next_state.make_move(&mv);
        let cur = next_state.get_result();
        if cur == GameResult::Draw {
            other_states.push(next_state);
            proof {
                let ghost before = quiet;
                quiet = quiet.push(next_state@);
                lemma_scanned_quiet(pos, moves@, before, idx as int);
            }
        } else if cur == GameResult::Win(state.current_player) {
            proof {
                pos.lemma_value_immediate(mv);
            }
            mem.insert(encoded, cur);
            return cur;
        } else {
            proof {
                lemma_scanned_other(pos, moves@, quiet, idx as int);
            }
        }
    }
    let ghost win = GameResult::Win(mover);
    let ghost lose = GameResult::Win((3 - mover) as usize);
    proof {
        assert forall|m: Move| #[trigger] pos.is_legal(m) implies pos.apply(m).outcome()
            != win by {
            assert(pos.legal_moves().contains(m));
            let i = choose|i: int| 0 <= i < moves.len() && moves[i] == m;
            assert(pos.apply(moves[i]).outcome() != win);
        }
        assert(!pos.wins_at_once());
    }
    for idx in 0..other_states.len()
        invariant_except_break
            !some_valued(quiet, idx as int, win),
            result == if some_valued(quiet, idx as int, GameResult::Draw) {
                GameResult::Draw
            } else {
                lose
            },
        invariant
            pos == state@,
            pos.wf(),
            mover == pos.turn,
            moves@ == pos.legal_moves(),
            forall|i: int| 0 <= i < moves.len() ==> pos.is_legal(#[trigger] moves[i]),
            win == GameResult::Win(mover),
            lose == GameResult::Win((3 - mover) as usize),
            quiet.len() == other_states.len(),
            forall|k: int| 0 <= k < quiet.len() ==> (#[trigger] other_states[k])@ == quiet[k],
            scanned(pos, moves@, quiet, moves.len() as int),
            mem.wf(),
            old(mem)@.submap_of(mem@),
            grown_below(old(mem)@, mem@, pos),
            encoded == pos.key(),
            !old(mem)@.contains_key(encoded),
            forall|p: Position| p.wf() && #[trigger] p.key() == encoded ==> p == pos,
        ensures
            result == if some_valued(quiet, quiet.len() as int, win) {
                win
            } else if some_valued(quiet, quiet.len() as int, GameResult::Draw) {
                GameResult::Draw
            } else {
                lose
            },
    {
        let next_state = other_states[idx];
        let ghost from = choose|i: int|
            0 <= i < moves.len() && quiet[idx as int] == pos.apply(moves[i]);
        proof {
            pos.lemma_apply_wf(moves[from]);
        }
        let ghost before = mem@;
        let cur = eval_state(next_state, mem);
        proof {
            vstd::map_lib::lemma_submap_of_trans(old(mem)@, before, mem@);
            lemma_grown_below_after(old(mem)@, before, mem@, pos, moves[from]);
            assert(quiet[idx as int].value() == cur);
        }
        if cur == GameResult::Win(state.current_player) {
            result = cur;
            break ;
        } else if cur == GameResult::Draw {
            result = cur;
        }
        proof {
            lemma_some_valued_step(quiet, idx as int, win);
            lemma_some_valued_step(quiet, idx as int, GameResult::Draw);
        }
    }
    proof {
        pos.lemma_value_searched(quiet);
    }
    mem.insert(encoded, result);
    result
}

/// A table that has grown below a position, and then below the position
/// after a legal move from it, has grown below the position.
proof fn lemma_grown_below_after(
    first: Map<u64, GameResult>,
    before: Map<u64, GameResult>,
    after: Map<u64, GameResult>,
    pos: Position,
    m: Move,
)
    requires
        grown_below(first, before, pos),
        pos.is_legal(m),
        grown_below(before, after, pos.apply(m)),
    ensures
        grown_below(first, after, pos),
{
    assert forall|key: u64| #[trigger] after.contains_key(key) implies first.contains_key(key)
        || exists|p: Position| #[trigger] p.comes_from(pos) && p.key() == key by {
        if !before.contains_key(key) {
            let p = choose|p: Position| #[trigger]
                p.comes_from(pos.apply(m)) && p.key() == key;
            let n = choose|n: nat| p.comes_from_in(pos.apply(m), n);
            p.lemma_comes_from_after(pos, m, n);
            assert(p.comes_from(pos) && p.key() == key);
        }
    }
}

/// The scan goes on over a move that completes no line: the position after
/// it joins the quiet positions.
proof fn lemma_scanned_quiet(pos: Position, moves: Seq<Move>, quiet: Seq<Position>, n: int)
    requires
        0 <= n < moves.len(),
        scanned(pos, moves, quiet, n),
        pos.apply(moves[n]).outcome() == GameResult::Draw,
    ensures
        scanned(pos, moves, quiet.push(pos.apply(moves[n])), n + 1),
{
    let next = pos.apply(moves[n]);
    let more = quiet.push(next);
    assert forall|k: int| 0 <= k < more.len() implies (#[trigger] more[k]).outcome()
        == GameResult::Draw && exists|i: int|
        0 <= i < n + 1 && more[k] == pos.apply(#[trigger] moves[i]) by {
        if k < quiet.len() {
            assert(more[k] == quiet[k]);
            let i = choose|i: int| 0 <= i < n && quiet[k] == pos.apply(#[trigger] moves[i]);
            assert(0 <= i < n + 1 && more[k] == pos.apply(moves[i]));
        } else {
            assert(more[k] == pos.apply(moves[n]));
        }
    }
    assert forall|i: int|
        0 <= i < n + 1 && pos.apply(#[trigger] moves[i]).outcome()
            == GameResult::Draw implies more.contains(pos.apply(moves[i])) by {
        if i < n {
            let k = choose|k: int| 0 <= k < quiet.len() && quiet[k] == pos.apply(moves[i]);
            assert(more[k] == pos.apply(moves[i]));
        } else {
            assert(more[quiet.len() as int] == next);
        }
    }
}

/// The scan goes on over a move that completes a line of the opponent.
proof fn lemma_scanned_other(pos: Position, moves: Seq<Move>, quiet: Seq<Position>, n: int)
    requires
        0 <= n < moves.len(),
        scanned(pos, moves, quiet, n),
        pos.apply(moves[n]).outcome() != GameResult::Draw,
        pos.apply(moves[n]).outcome() != GameResult::Win(pos.turn as usize),
    ensures
        scanned(pos, moves, quiet, n + 1),
{
    assert forall|k: int| 0 <= k < quiet.len() implies (#[trigger] quiet[k]).outcome()
        == GameResult::Draw && exists|i: int|
        0 <= i < n + 1 && quiet[k] == pos.apply(#[trigger] moves[i]) by {
        let i = choose|i: int| 0 <= i < n && quiet[k] == pos.apply(#[trigger] moves[i]);
        assert(0 <= i < n + 1 && quiet[k] == pos.apply(moves[i]));
    }
}

/// One of the first `n + 1` positions has the value `v` when one of the
/// first `n` has it or position `n` has it.
proof fn lemma_some_valued_step(quiet: Seq<Position>, n: int, v: GameResult)
    requires
        0 <= n < quiet.len(),
    ensures
        some_valued(quiet, n + 1, v) <==> some_valued(quiet, n, v) || quiet[n].value() == v,
{
    if some_valued(quiet, n, v) {
        let k = choose|k: int| 0 <= k < n && (#[trigger] quiet[k]).value() == v;
        assert(0 <= k < n + 1 && quiet[k].value() == v);
    }
    if quiet[n].value() == v {
        assert(0 <= n < n + 1 && quiet[n].value() == v);
    }
}

/// The number of opening moves whose positions are solved before the first
/// request.
pub const PREC_LEVELS: usize = 3;

impl Position {
    /// Whether the position comes from the starting position by `n` legal
    /// moves.
    pub open spec fn reachable_in(self, n: nat) -> bool {
        self.comes_from_in(Position::initial(), n)
    }

    /// A position that legal moves lead to from the start is well formed.
    pub proof fn lemma_reachable_wf(self, n: nat)
        requires
            self.reachable_in(n),
        ensures
            self.wf(),
    {
        self.lemma_comes_from_wf(Position::initial(), n);
    }
}

/// Whether one of `states` stands for the position `p`.
spec fn holds(states: Seq<State>, p: Position) -> bool {
    exists|j: int| 0 <= j < states.len() && (#[trigger] states[j])@ == p
}

/// Whether `states` stand for the positions that `n` legal moves lead to
/// from the start, for all of them and for no other.
spec fn holds_level(states: Seq<State>, n: nat) -> bool {
    &&& forall|j: int| 0 <= j < states.len() ==> (#[trigger] states[j])@.reachable_in(n)
    &&& forall|p: Position| #[trigger] p.reachable_in(n) ==> holds(states, p)
}

/// Whether `next` holds the position after every legal move from the first
/// `s` of `states`.
spec fn holds_successors(states: Seq<State>, s: int, next: Seq<State>) -> bool {
    forall|i: int, m: Move|
        0 <= i < s && #[trigger] states[i]@.is_legal(m) ==> holds(next, states[i]@.apply(m))
}

/// Whether each of `states` stands for a position that `n` legal moves lead
/// to from the start and that `table` holds.
spec fn all_solved(states: Seq<State>, n: nat, table: Map<u64, GameResult>) -> bool {
    forall|j: int|
        0 <= j < states.len() ==> (#[trigger] states[j])@.reachable_in(n) && table.contains_key(
            states[j]@.key(),
        )
}

/// Whether `table` holds every position that one to `n` legal moves lead to
/// from the start.
pub open spec fn holds_each(table: Map<u64, GameResult>, n: nat) -> bool {
    forall|p: Position, k: nat|
        1 <= k <= n && #[trigger] p.reachable_in(k) ==> table.contains_key(p.key())
}

/// Whether every key of `table` is the fingerprint of a position that one to
/// `n` legal moves lead to from the start.
pub open spec fn holds_only(table: Map<u64, GameResult>, n: nat) -> bool {
    forall|key: u64| #[trigger]
        table.contains_key(key) ==> exists|p: Position, k: nat|
            1 <= k <= n && #[trigger] p.reachable_in(k) && p.key() == key
}

/// Whether the keys of `table` are the fingerprints of the positions that
/// one to `n` legal moves lead to from the start.
pub open spec fn covers(table: Map<u64, GameResult>, n: nat) -> bool {
    holds_each(table, n) && holds_only(table, n)
}

/// A table that holds the value of every position that one to `levels`
/// legal moves lead to from the start, and nothing else.
///
/// The positions are taken level by level. Each one is solved and added
/// under its fingerprint, however often it comes up.
pub fn warm_up(levels: usize) -> (table: TranspositionTable)
    ensures
        table.wf(),
        covers(table@, levels as nat),
{
    let mut mp = TranspositionTable::new();
    let mut tmp = TranspositionTable::new();
    let mut current: Vec<State> = Vec::new();
    current.push(State::new());
    proof {
        assert(current[0]@.reachable_in(0));
        assert forall|p: Position| #[trigger] p.reachable_in(0) implies holds(current@, p) by {
            assert(current[0]@ == p);
        }
    }
    for level in 0..levels
        invariant
            mp.wf(),
            tmp.wf(),
            holds_level(current@, level as nat),
            covers(mp@, level as nat),
    {
        let mut next: Vec<State> = Vec::new();
        for s in 0..current.len()
            invariant
                mp.wf(),
                tmp.wf(),
                holds_level(current@, level as nat),
                holds_each(mp@, level as nat),
                holds_only(mp@, level as nat + 1),
                all_solved(next@, level as nat + 1, mp@),
                holds_successors(current@, s as int, next@),
        {
            let state = current[s];
            let ghost pos = state@;
            proof {
                pos.lemma_reachable_wf(level as nat);
                pos.lemma_legal_moves();
            }
            let moves = state.get_moves();
            for m in 0..moves.len()
                invariant
                    mp.wf(),
                    tmp.wf(),
                    s < current.len(),
                    state == current[s as int],
                    pos == state@,
                    pos.wf(),
                    pos.reachable_in(level as nat),
                    moves@ == pos.legal_moves(),
                    forall|i: int| 0 <= i < moves.len() ==> pos.is_legal(#[trigger] moves[i]),
                    holds_each(mp@, level as nat),
                    holds_only(mp@, level as nat + 1),
                    all_solved(next@, level as nat + 1, mp@),
                    holds_successors(current@, s as int, next@),
                    forall|i: int| 0 <= i < m ==> holds(next@, pos.apply(#[trigger] moves[i])),
            {
                let mv = moves[m];
                let mut next_state = state.clone();
                next_state.make_move(&mv);
                let ghost after = pos.apply(mv);
                proof {
                    pos.lemma_apply_wf(mv);
                    assert(pos.is_legal(mv) && after == pos.apply(mv));
                    assert(after.reachable_in(level as nat + 1));
                }
                let value = eval_state(next_state, &mut tmp);
                let key = next_state.as_u64();
                proof {
                    assert(key == after.key());
                    assert forall|p: Position| p.wf() && #[trigger] p.key() == key implies p.value()
                        == value by {
                        p.lemma_key_injective(after);
                    }
                }
                let ghost table_before = mp@;
                let ghost next_before = next@;
                mp.insert(key, value);
                next.push(next_state);
                proof {
                    lemma_solved_one_more(next_before, next_state, level as nat + 1, table_before);
                    lemma_holds_push(next_before, next_state);
                }
            }
            proof {
                assert forall|i: int, mv: Move|
                    0 <= i < s + 1 && #[trigger] current[i]@.is_legal(mv) implies holds(
                    next@,
                    current[i]@.apply(mv),
                ) by {
                    if i == s {
                        assert(pos.legal_moves().contains(mv));
                        let at = choose|at: int| 0 <= at < moves.len() && moves[at] == mv;
                        assert(holds(next@, pos.apply(moves[at])));
                    }
                }
            }
        }
        proof {
            lemma_next_level(current@, next@, level as nat);
            assert forall|p: Position, k: nat|
                1 <= k <= level + 1 && #[trigger] p.reachable_in(k) implies mp@.contains_key(
                p.key(),
            ) by {
                if k == level + 1 {
                    assert(holds(next@, p));
                    let j = choose|j: int| 0 <= j < next.len() && (#[trigger] next[j])@ == p;
                    assert(mp@.contains_key(next[j]@.key()));
                }
            }
        }
        current = next;
    }
    mp
}

/// Solving one more position of level `n` and adding it to the table keeps
/// the states solved and the table within the levels up to `n`.
proof fn lemma_solved_one_more(
    states: Seq<State>,
    state: State,
    n: nat,
    table: Map<u64, GameResult>,
)
    requires
        all_solved(states, n, table),
        holds_only(table, n),
        n >= 1,
        state@.reachable_in(n),
    ensures
        forall|v: GameResult| #[trigger]
            all_solved(states.push(state), n, table.insert(state@.key(), v)),
        forall|v: GameResult| #[trigger] holds_only(table.insert(state@.key(), v), n),
        forall|v: GameResult, m: nat|
            holds_each(table, m) ==> #[trigger] holds_each(table.insert(state@.key(), v), m),
{
    let more = states.push(state);
    assert forall|v: GameResult| #[trigger]
        all_solved(more, n, table.insert(state@.key(), v)) by {
        let grown = table.insert(state@.key(), v);
        assert forall|j: int| 0 <= j < more.len() implies (#[trigger] more[j])@.reachable_in(n)
            && grown.contains_key(more[j]@.key()) by {
            if j < states.len() {
                assert(more[j] == states[j]);
                assert(table.contains_key(states[j]@.key()));
            }
        }
    }
    assert forall|v: GameResult| #[trigger] holds_only(table.insert(state@.key(), v), n) by {
        let grown = table.insert(state@.key(), v);
        assert forall|key: u64| #[trigger] grown.contains_key(key) implies exists|
            p: Position,
            k: nat,
        |
            1 <= k <= n && #[trigger] p.reachable_in(k) && p.key() == key by {
            if key == state@.key() {
                assert(state@.reachable_in(n) && state@.key() == key);
            } else {
                assert(table.contains_key(key));
            }
        }
    }
}

/// What a sequence of states holds, it holds after a push, and it holds the
/// state pushed.
proof fn lemma_holds_push(states: Seq<State>, state: State)
    ensures
        holds(states.push(state), state@),
        forall|p: Position| holds(states, p) ==> #[trigger] holds(states.push(state), p),
{
    let more = states.push(state);
    assert(more[states.len() as int]@ == state@);
    assert forall|p: Position| holds(states, p) implies #[trigger] holds(more, p) by {
        let j = choose|j: int| 0 <= j < states.len() && (#[trigger] states[j])@ == p;
        assert(more[j]@ == p);
    }
}

/// The positions after every legal move from the positions of one level
/// are the positions of the next level.
proof fn lemma_next_level(current: Seq<State>, next: Seq<State>, level: nat)
    requires
        holds_level(current, level),
        forall|j: int| 0 <= j < next.len() ==> (#[trigger] next[j])@.reachable_in(level + 1),
        holds_successors(current, current.len() as int, next),
    ensures
        holds_level(next, level + 1),
{
    assert forall|p: Position| #[trigger] p.reachable_in(level + 1) implies holds(next, p) by {
        let (prev, m) = choose|prev: Position, m: Move|
            prev.reachable_in(level) && #[trigger] prev.is_legal(m) && p == prev.apply(m);
        assert(holds(current, prev));
        let i = choose|i: int| 0 <= i < current.len() && (#[trigger] current[i])@ == prev;
        assert(current[i]@.is_legal(m));
    }
}

} // verus!
