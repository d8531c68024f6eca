//! The moves made so far, which can be taken back and redone.
use vstd::prelude::*;

use crate::reachable::{lemma_apply_reach, lemma_move_undoable, reach_inv};
use crate::state::{
    Move, MoveView, PourError, State, StateView, apply_view, fixed_part, lemma_apply_keeps_fixed,
    lemma_move_apply_ok,
    lemma_undo_after_apply, move_to_view, pour_allowed, solved_view,
};

verus! {

/// A history as mathematical values: the states visited (the start first),
/// the moves between them, and how many of the moves are currently applied.
pub struct HistoryView {
    pub states: Seq<StateView>,
    pub moves: Seq<MoveView>,
    pub length: nat,
}

impl HistoryView {
    /// The state currently shown.
    pub open spec fn current(self) -> StateView {
        self.states[self.length as int]
    }
}

/// The history after a legal move `m` from the current state: later moves
/// are dropped, `m` becomes the last one.
pub open spec fn history_pour(h: HistoryView, m: MoveView) -> HistoryView {
    HistoryView {
        states: h.states.take(h.length + 1int).push(apply_view(h.current(), m)),
        moves: h.moves.take(h.length as int).push(m),
        length: h.length + 1,
    }
}

/// The history one move back, if there is a move to take back.
pub open spec fn history_rewind(h: HistoryView) -> HistoryView {
    if h.length > 0 {
        HistoryView { length: (h.length - 1) as nat, ..h }
    } else {
        h
    }
}

/// The history one move forward, if a move was taken back before.
pub open spec fn history_forward(h: HistoryView) -> HistoryView {
    if h.length < h.moves.len() {
        HistoryView { length: h.length + 1, ..h }
    } else {
        h
    }
}

/// Moves can be taken back and redone: each state of the history is
/// reachable, and each move is the legal move computed on the state before
/// it, leading to the state after it.
pub open spec fn history_inv(h: HistoryView) -> bool {
    &&& h.states.len() == h.moves.len() + 1
    &&& h.length <= h.moves.len()
    &&& forall|k: int| 0 <= k < h.states.len() ==> #[trigger] reach_inv(h.states[k])
    &&& forall|k: int|
        0 <= k < h.moves.len() ==> pour_allowed(h.states[k], h.moves[k].from as int, h.moves[k].to as int)
            && move_to_view(h.states[k], h.moves[k].from as int, h.moves[k].to as int) == Some(
            #[trigger] h.moves[k],
        ) && h.states[k + 1] == apply_view(h.states[k], h.moves[k])
}

/// A game state with the moves that led to it, which can be taken back and
/// redone.
pub struct History {
    state: State,
    moves: Vec<Move>,
    length: usize,
    states: Ghost<Seq<StateView>>,
}

impl View for History {
    type V = HistoryView;

    closed spec fn view(&self) -> HistoryView {
        HistoryView {
            states: self.states@,
            moves: self.moves@.map_values(|m: Move| m@),
            length: self.length as nat,
        }
    }
}

impl History {
    /// The history's own invariant: the stored state is the current one.
    pub closed spec fn wf(&self) -> bool {
        &&& history_inv(self@)
        &&& self.state@ == self@.current()
        &&& self.length <= self.moves@.len()
    }

    /// A well-formed history keeps the invariant of histories.
    pub proof fn lemma_wf(&self)
        requires
            self.wf(),
        ensures
            history_inv(self@),
    {
    }

    /// A history that starts at `state`, with no moves yet.
    pub fn from(state: State) -> (h: Self)
        requires
            reach_inv(state@),
        ensures
            h.wf(),
            h@.states == seq![state@],
            h@.moves == Seq::<MoveView>::empty(),
            h@.length == 0,
    {
        let states: Ghost<Seq<StateView>> = Ghost(Seq::empty().push(state@));
        let h = History { state, moves: Vec::new(), length: 0, states };
        assert(h@.moves =~= Seq::<MoveView>::empty());
        h
    }

    /// The current state.
    pub fn state(&self) -> (r: &State)
        requires
            self.wf(),
        ensures
            r@ == self@.current(),
            reach_inv(r@),
    {
        &self.state
    }

    /// Pours from `from` into `to`; later moves that were taken back are
    /// forgotten.
    pub fn pour(&mut self, from: u8, to: u8) -> (r: Result<Move, PourError>)
        requires
            old(self).wf(),
        ensures
            final(self).wf(),
            match r {
                Err(PourError::AlreadySolved) => solved_view(old(self)@.current())
                    && final(self)@ == old(self)@,
                Err(PourError::MoveNotAllowed) => !solved_view(old(self)@.current())
                    && !pour_allowed(old(self)@.current(), from as int, to as int)
                    && final(self)@ == old(self)@,
                Ok(m) => !solved_view(old(self)@.current())
                    && pour_allowed(old(self)@.current(), from as int, to as int)
                    && move_to_view(old(self)@.current(), from as int, to as int) == Some(m@)
                    && final(self)@ == history_pour(old(self)@, m@),
            },
    {
        let ghost before = self@;
        proof {
            assert(reach_inv(self@.states[self@.length as int]));
        }
        let r = self.state.pour(from, to);
        match r {
            Ok(mov) => {
                proof {
                    lemma_apply_reach(before.current(), from as int, to as int);
                }
                self.moves.truncate(self.length);
                self.moves.push(mov);
                self.length = self.moves.len();
                let states: Ghost<Seq<StateView>> = Ghost(
                    before.states.take(before.length + 1int).push(self.state@),
                );
                self.states = states;
                proof {
                    let h = self@;
                    assert(h.moves =~= before.moves.take(before.length as int).push(mov@));
                    assert(h == history_pour(before, mov@));
                    assert forall|k: int| 0 <= k < h.states.len() implies #[trigger] reach_inv(
                        h.states[k],
                    ) by {
                        if k < h.states.len() - 1 {
                            assert(h.states[k] == before.states[k]);
                        }
                    }
                    assert forall|k: int| 0 <= k < h.moves.len() implies pour_allowed(
                        h.states[k],
                        h.moves[k].from as int,
                        h.moves[k].to as int,
                    ) && move_to_view(h.states[k], h.moves[k].from as int, h.moves[k].to as int)
                        == Some(#[trigger] h.moves[k]) && h.states[k + 1] == apply_view(
                        h.states[k],
                        h.moves[k],
                    ) by {
                        if k < h.moves.len() - 1 {
                            assert(h.moves[k] == before.moves[k]);
                            assert(h.states[k] == before.states[k]);
                            assert(h.states[k + 1] == before.states[k + 1]);
                        }
                    }
                }
                Ok(mov)
            },
            Err(e) => Err(e),
        }
    }

    /// Whether a move can be taken back.
    pub fn can_rewind(&self) -> (r: bool)
        requires
            self.wf(),
        ensures
            r == (self@.length > 0),
    {
        self.length > 0
    }

    /// Takes back the last applied move; `false` when there is none.
    pub fn rewind(&mut self) -> (r: bool)
        requires
            old(self).wf(),
        ensures
            final(self).wf(),
            r == (old(self)@.length > 0),
            final(self)@ == history_rewind(old(self)@),
    {
        if !self.can_rewind() {
            return false;
        }
        let ghost h = self@;
        let k = self.length - 1;
        let mov = self.moves[k];
        proof {
            let s = h.states[k as int];
            assert(h.moves[k as int] == mov@);
            assert(reach_inv(s));
            lemma_move_apply_ok(s, mov@.from as int, mov@.to as int);
            lemma_move_undoable(s, mov@.from as int, mov@.to as int);
            lemma_undo_after_apply(s, mov@);
            assert(reach_inv(h.states[k + 1]));
        }
        self.state.undo_move_unchecked(mov);
        self.length = self.length - 1;
        proof {
            assert(self@ == history_rewind(h));
        }
        true
    }

    /// Whether a taken-back move can be redone.
    pub fn can_forward(&self) -> (r: bool)
        requires
            self.wf(),
        ensures
            r == (self@.length < self@.moves.len()),
    {
        self.length < self.moves.len()
    }

    /// Redoes the next taken-back move; `false` when there is none.
    pub fn forward(&mut self) -> (r: bool)
        requires
            old(self).wf(),
        ensures
            final(self).wf(),
            r == (old(self)@.length < old(self)@.moves.len()),
            final(self)@ == history_forward(old(self)@),
    {
        if !self.can_forward() {
            return false;
        }
        let ghost h = self@;
        let k = self.length;
        let len = self.moves.len();
        assert(k < len);
        let mov = self.moves[k];
        proof {
            let s = h.states[k as int];
            assert(h.moves[k as int] == mov@);
            assert(reach_inv(s));
            lemma_move_apply_ok(s, mov@.from as int, mov@.to as int);
        }
        self.state.apply_move_unchecked(mov);
        self.length = k + 1;
        proof {
            assert(self@ == history_forward(h));
        }
        true
    }
}

/// Taking back a move right after making it shows the state from before
/// the move again, and the move can then be redone.
pub proof fn law_rewind_after_pour(h: HistoryView, m: MoveView)
    requires
        history_inv(h),
    ensures
        history_rewind(history_pour(h, m)).current() == h.current(),
        history_rewind(history_pour(h, m)).length < history_rewind(history_pour(h, m)).moves.len(),
{
}

/// Redoing a taken-back move restores the history exactly.
pub proof fn law_forward_after_rewind(h: HistoryView)
    requires
        h.length > 0,
        h.length <= h.moves.len(),
    ensures
        history_forward(history_rewind(h)) == h,
{
}

/// Taking back a redone move restores the history exactly.
pub proof fn law_rewind_after_forward(h: HistoryView)
    requires
        h.length < h.moves.len(),
    ensures
        history_rewind(history_forward(h)) == h,
{
}

/// Every state of a history keeps what no move changes, the number of
/// bottles and their capacities among it, so the board of the level fits
/// every state shown.
pub proof fn law_history_keeps_fixed(h: HistoryView, k: int)
    requires
        history_inv(h),
        0 <= k < h.states.len(),
    ensures
        fixed_part(h.states[k]) == fixed_part(h.states[0]),
    decreases k,
{
    if k > 0 {
        law_history_keeps_fixed(h, k - 1);
        lemma_apply_keeps_fixed(h.states[k - 1], h.moves[k - 1]);
    }
}


/// The history after the moves `ms` in turn.
pub open spec fn history_pours(h: HistoryView, ms: Seq<MoveView>) -> HistoryView
    decreases ms.len(),
{
    if ms.len() == 0 {
        h
    } else {
        history_pour(history_pours(h, ms.drop_last()), ms.last())
    }
}

/// The history after `j` rewinds in turn.
pub open spec fn history_rewinds(h: HistoryView, j: nat) -> HistoryView
    decreases j,
{
    if j == 0 {
        h
    } else {
        history_rewind(history_rewinds(h, (j - 1) as nat))
    }
}

/// The history after `j` steps forward in turn.
pub open spec fn history_forwards(h: HistoryView, j: nat) -> HistoryView
    decreases j,
{
    if j == 0 {
        h
    } else {
        history_forward(history_forwards(h, (j - 1) as nat))
    }
}

proof fn lemma_pours_shape(h: HistoryView, ms: Seq<MoveView>)
    requires
        h.length == 0,
        h.moves.len() == 0,
        h.states.len() == 1,
    ensures
        history_pours(h, ms).length == ms.len(),
        history_pours(h, ms).moves =~= ms,
        history_pours(h, ms).states.len() == ms.len() + 1,
    decreases ms.len(),
{
    if ms.len() > 0 {
        lemma_pours_shape(h, ms.drop_last());
    }
}

proof fn lemma_rewinds_shape(h: HistoryView, j: nat)
    requires
        h.length <= h.moves.len(),
    ensures
        history_rewinds(h, j).length == if j <= h.length {
            h.length - j
        } else {
            0
        },
        history_rewinds(h, j).moves == h.moves,
        history_rewinds(h, j).states == h.states,
    decreases j,
{
    if j > 0 {
        lemma_rewinds_shape(h, (j - 1) as nat);
    }
}

proof fn lemma_forwards_shape(h: HistoryView, j: nat)
    requires
        h.length <= h.moves.len(),
    ensures
        history_forwards(h, j).length == if h.length + j <= h.moves.len() {
            h.length + j
        } else {
            h.moves.len()
        },
        history_forwards(h, j).moves == h.moves,
        history_forwards(h, j).states == h.states,
    decreases j,
{
    if j > 0 {
        lemma_forwards_shape(h, (j - 1) as nat);
    }
}

/// From a fresh history, after `k` pours and then `j` rewinds (`j <= k`), a
/// move can be taken back exactly when `j < k` and redone exactly when
/// `j > 0`; the taken-back moves stay to be redone, and `i` steps forward
/// redo them in order without losing any.
pub proof fn law_rewinds_after_pours(h: HistoryView, ms: Seq<MoveView>, j: nat, i: nat)
    requires
        h.length == 0,
        h.moves.len() == 0,
        h.states.len() == 1,
        j <= ms.len(),
        i <= j,
    ensures
        ({
            let back = history_rewinds(history_pours(h, ms), j);
            &&& (back.length > 0) == (j < ms.len())
            &&& (back.length < back.moves.len()) == (j > 0)
            &&& back.moves == ms
            &&& history_forwards(back, i).moves == ms
            &&& history_forwards(back, i).length == ms.len() - j + i
            &&& history_forwards(back, i).states == history_pours(h, ms).states
        }),
{
    lemma_pours_shape(h, ms);
    let p = history_pours(h, ms);
    lemma_rewinds_shape(p, j);
    lemma_forwards_shape(history_rewinds(p, j), i);
}

/// A taken-back move stays to be redone through any number of further
/// rewinds, with the same moves to redo; a new pour is what discards them,
/// leaving nothing to redo. (A pour that fails leaves the history as it
/// was.)
pub proof fn law_redo_kept(h: HistoryView, j: nat, m: MoveView)
    requires
        h.length < h.moves.len(),
    ensures
        history_rewinds(h, j).length < history_rewinds(h, j).moves.len(),
        history_rewinds(h, j).moves == h.moves,
        history_pour(h, m).length == history_pour(h, m).moves.len(),
{
    lemma_rewinds_shape(h, j);
}
} // verus!
