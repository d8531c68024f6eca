//! A game session: the level being played, its history of moves, and
//! whether the levels have run out. Where the levels come from and where
//! progress is kept is left to the caller.
use vstd::prelude::*;

use crate::history::{
    History, HistoryView, history_forward, history_rewind, history_inv, law_history_keeps_fixed,
};
use crate::layout::{Layout, bottle_position_view};
use crate::level::Level;
use crate::search::{leads_to, lemma_leads_to_reach, lemma_leads_to_step, lemma_leads_to_zero, one_move};
use crate::reachable::{hidden_below_top, lemma_listed_move_hidden, reach_inv};
use crate::state::{
    MoveView, State, StateView, apply_view, fixed_part, move_to_view, pour_allowed, solved_view, wf_view,
    moves_upto, moves_view, row_moves,
};
use crate::view::{BoardView, BottleView, ItemView, board_places, shows_state};

verus! {

/// What a level must give a session: a starting state that keeps the
/// invariant of all reachable states, and a board that places its bottles.
pub open spec fn level_ok(level: &Level) -> bool {
    &&& reach_inv(level.starting_state@)
    &&& forall|b: int|
        1 <= b <= level.starting_state@.bottle_count ==> #[trigger] bottle_position_view(
            level.layout@,
            b,
        ) is Some
}

/// The level being played, its moves, and two flags: the levels ran out,
/// and the solved level was recorded.
pub struct Session {
    index: usize,
    level: Level,
    history: History,
    exhausted: bool,
    recorded: bool,
}

impl Session {
    /// The index of the level.
    pub closed spec fn index_view(&self) -> usize {
        self.index
    }

    /// The history of the level.
    pub closed spec fn history_view(&self) -> History {
        self.history
    }

    /// The starting state of the level.
    pub closed spec fn start_view(&self) -> StateView {
        self.level.starting_state@
    }

    /// The board of the level.
    pub closed spec fn layout_view(&self) -> Layout {
        self.level.layout
    }

    /// Whether the levels ran out.
    pub closed spec fn exhausted_view(&self) -> bool {
        self.exhausted
    }

    /// Whether the solved level was recorded.
    pub closed spec fn recorded_view(&self) -> bool {
        self.recorded
    }

    /// A level that fits the session, and a history that starts at its
    /// starting state.
    pub closed spec fn wf(&self) -> bool {
        &&& level_ok(&self.level)
        &&& self.history.wf()
        &&& self.history@.states[0] == self.level.starting_state@
    }

    /// Starts level `index`, or `None` when there is no such level.
    pub fn new(index: usize, level: Option<Level>) -> (r: Option<Self>)
        requires
            level matches Some(l) ==> level_ok(&l),
        ensures
            r is Some <==> level is Some,
            r matches Some(s) ==> {
                &&& s.wf()
                &&& s.index_view() == index
                &&& s.start_view() == level->0.starting_state@
                &&& s.layout_view() == level->0.layout
                &&& s.history_view()@ == (HistoryView {
                    states: seq![level->0.starting_state@],
                    moves: Seq::empty(),
                    length: 0,
                })
                &&& !s.exhausted_view()
                &&& !s.recorded_view()
            },
    {
        let level = match level {
            Some(l) => l,
            None => {
                return None;
            },
        };
        let history = History::from(level.starting_state);
        Some(Session { index, level, history, exhausted: false, recorded: false })
    }

    /// The index of the level.
    pub fn index(&self) -> (r: usize)
        ensures
            r == self.index_view(),
    {
        self.index
    }

    /// The board of the level.
    pub fn layout(&self) -> (r: &Layout)
        ensures
            *r == self.layout_view(),
    {
        &self.level.layout
    }

    /// The state shown.
    pub fn state(&self) -> (r: &State)
        requires
            self.wf(),
        ensures
            r@ == self.history_view()@.current(),
            reach_inv(r@),
    {
        self.history.state()
    }

    /// The history, to pour, take back or redo moves.
    pub fn history_mut(&mut self) -> (r: &mut History)
        ensures
            *r == old(self).history_view(),
            final(self).history_view() == *final(r),
            final(self).index_view() == old(self).index_view(),
            final(self).start_view() == old(self).start_view(),
            final(self).exhausted_view() == old(self).exhausted_view(),
            final(self).recorded_view() == old(self).recorded_view(),
            final(self).layout_view() == old(self).layout_view(),
    {
        &mut self.history
    }

    /// The board as it shows the current state.
    pub fn view(&self) -> (r: BoardView)
        requires
            self.wf(),
        ensures
            shows_state(r, self.history_view()@.current(), self.layout_view()@),
    {
        proof {
            let h = self.history@;
            self.history.lemma_wf();
            law_history_keeps_fixed(h, h.length as int);
            assert(fixed_part(h.current()) == fixed_part(h.states[0]));
            assert(board_places(h.current(), self.level.layout@));
            assert(reach_inv(h.current()));
        }
        BoardView::build(self.state(), self.layout())
    }

    /// Whether a move can be taken back.
    pub fn can_rewind(&self) -> (r: bool)
        requires
            self.wf(),
        ensures
            r == (self.history_view()@.length > 0),
    {
        self.history.can_rewind()
    }

    /// Whether a taken-back move can be redone.
    pub fn can_forward(&self) -> (r: bool)
        requires
            self.wf(),
        ensures
            r == (self.history_view()@.length < self.history_view()@.moves.len()),
    {
        self.history.can_forward()
    }

    /// Takes back a move; a step puts a playable board back, so the levels
    /// no longer count as run out.
    pub fn rewind(&mut self) -> (r: bool)
        requires
            old(self).wf(),
        ensures
            final(self).wf(),
            r == (old(self).history_view()@.length > 0),
            final(self).history_view()@ == history_rewind(old(self).history_view()@),
            final(self).exhausted_view() == (old(self).exhausted_view() && !r),
            final(self).index_view() == old(self).index_view(),
            final(self).start_view() == old(self).start_view(),
            final(self).recorded_view() == old(self).recorded_view(),
            final(self).layout_view() == old(self).layout_view(),
    {
        let stepped = self.history.rewind();
        self.stepped(stepped)
    }

    /// Redoes a move; a step puts a playable board back, so the levels no
    /// longer count as run out.
    pub fn forward(&mut self) -> (r: bool)
        requires
            old(self).wf(),
        ensures
            final(self).wf(),
            r == (old(self).history_view()@.length < old(self).history_view()@.moves.len()),
            final(self).history_view()@ == history_forward(old(self).history_view()@),
            final(self).exhausted_view() == (old(self).exhausted_view() && !r),
            final(self).index_view() == old(self).index_view(),
            final(self).start_view() == old(self).start_view(),
            final(self).recorded_view() == old(self).recorded_view(),
            final(self).layout_view() == old(self).layout_view(),
    {
        let stepped = self.history.forward();
        self.stepped(stepped)
    }

    /// Clears the run-out flag after a step.
    fn stepped(&mut self, stepped: bool) -> (r: bool)
        ensures
            r == stepped,
            final(self).exhausted_view() == (old(self).exhausted_view() && !stepped),
            final(self).history_view() == old(self).history_view(),
            final(self).index_view() == old(self).index_view(),
            final(self).start_view() == old(self).start_view(),
            final(self).recorded_view() == old(self).recorded_view(),
            final(self).level == old(self).level,
    {
        self.exhausted = self.exhausted && !stepped;
        stepped
    }

    /// Moves on to `next`, the level after this one, or records that there
    /// is none left.
    pub fn advance(&mut self, next: Option<Level>) -> (r: bool)
        requires
            old(self).wf(),
            old(self).index_view() < usize::MAX,
            next matches Some(l) ==> level_ok(&l),
        ensures
            final(self).wf(),
            r == next is Some,
            r ==> {
                &&& final(self).index_view() == old(self).index_view() + 1
                &&& final(self).start_view() == next->0.starting_state@
                &&& final(self).history_view()@.moves.len() == 0
                &&& final(self).history_view()@.length == 0
                &&& !final(self).exhausted_view()
                &&& !final(self).recorded_view()
            },
            !r ==> {
                &&& final(self).exhausted_view()
                &&& final(self).index_view() == old(self).index_view()
                &&& final(self).history_view() == old(self).history_view()
                &&& final(self).start_view() == old(self).start_view()
                &&& final(self).recorded_view() == old(self).recorded_view()
            },
    {
        match Self::new(self.index + 1, next) {
            Some(session) => {
                *self = session;
                true
            },
            None => {
                self.exhausted = true;
                false
            },
        }
    }

    /// Whether the levels ran out.
    pub fn exhausted(&self) -> (r: bool)
        ensures
            r == self.exhausted_view(),
    {
        self.exhausted
    }

    /// The level index to save once the board shows a solved level, the
    /// first time only.
    pub fn record_completion(&mut self, solved: bool) -> (r: Option<usize>)
        ensures
            r == if solved && !old(self).recorded_view() {
                Some(old(self).index_view())
            } else {
                None
            },
            final(self).recorded_view() == (old(self).recorded_view() || solved),
            final(self).history_view() == old(self).history_view(),
            final(self).index_view() == old(self).index_view(),
            final(self).start_view() == old(self).start_view(),
            final(self).exhausted_view() == old(self).exhausted_view(),
            final(self).layout_view() == old(self).layout_view(),
    {
        if !solved || self.recorded {
            return None;
        }
        self.recorded = true;
        Some(self.index)
    }
}


/// The legal pours out of bottle `from` into the bottles `1..to`, in order.
pub open spec fn row_pairs(v: StateView, from: int, to: int) -> Seq<(u8, u8)>
    decreases to,
{
    if to <= 1 {
        Seq::empty()
    } else {
        let rest = row_pairs(v, from, to - 1);
        if pour_allowed(v, from, to - 1) {
            rest.push((from as u8, (to - 1) as u8))
        } else {
            rest
        }
    }
}

/// The legal pours out of the bottles `1..from`, by source, then by target.
pub open spec fn pairs_upto(v: StateView, from: int) -> Seq<(u8, u8)>
    decreases from,
{
    if from <= 1 {
        Seq::empty()
    } else {
        pairs_upto(v, from - 1) + row_pairs(v, from - 1, (v.bottle_count + 1) as int)
    }
}

/// The legal pours of `v`, by source, then by target; none once solved.
pub open spec fn legal_pairs(v: StateView) -> Seq<(u8, u8)> {
    if solved_view(v) {
        Seq::empty()
    } else {
        pairs_upto(v, (v.bottle_count + 1) as int)
    }
}

/// The legal pours of the state shown, as `(from, to)`, by source, then by
/// target; none once the level is solved.
pub fn legal_pours(session: &Session) -> (r: Vec<(u8, u8)>)
    requires
        session.wf(),
    ensures
        r@ == legal_pairs(session.history_view()@.current()),
{
    let state = session.state();
    let ghost v = state@;
    let pours = match state.pours() {
        Some(p) => p,
        None => {
            return Vec::new();
        },
    };
    let count = state.bottle_count();
    let mut out: Vec<(u8, u8)> = Vec::new();
    let mut from: u8 = 1;
    while from <= count
        invariant
            v == state@,
            wf_view(v),
            count == v.bottle_count,
            1 <= from <= count + 1,
            !solved_view(v),
            forall|f: int, t: int|
                0 <= f < 32 && 0 <= t < 32 ==> #[trigger] pours.spec_has(f, t) == pour_allowed(
                    v,
                    f,
                    t,
                ),
            out@ == pairs_upto(v, from as int),
        decreases count + 1 - from,
    {
        let ghost before = out@;
        let mut to: u8 = 1;
        while to <= count
            invariant
                v == state@,
                wf_view(v),
                count == v.bottle_count,
                1 <= from <= count,
                1 <= to <= count + 1,
                forall|f: int, t: int|
                    0 <= f < 32 && 0 <= t < 32 ==> #[trigger] pours.spec_has(f, t) == pour_allowed(
                        v,
                        f,
                        t,
                    ),
                out@ == before + row_pairs(v, from as int, to as int),
            decreases count + 1 - to,
        {
            if from != to && pours.has(from, to) {
                out.push((from, to));
            }
            assert(out@ =~= before + row_pairs(v, from as int, to + 1));
            to = to + 1;
        }
        from = from + 1;
    }
    out
}

/// The state that the pours `path` lead to from `v`, each one legal on the
/// state before it, or `None` if one of them is not.
pub open spec fn after_pours(v: StateView, path: Seq<(u8, u8)>) -> Option<StateView>
    decreases path.len(),
{
    if path.len() == 0 {
        Some(v)
    } else {
        match after_pours(v, path.drop_last()) {
            Some(u) => {
                let (f, t) = path.last();
                if pour_allowed(u, f as int, t as int) {
                    Some(apply_view(u, move_to_view(u, f as int, t as int)->0))
                } else {
                    None
                }
            },
            None => None,
        }
    }
}

/// The bytes by which the walk of `solve` tells boards apart: for each
/// bottle its id, its item colors, its safe counter, and whether it is
/// solved, behind a curtain, frozen, plugged or locked.
pub open spec fn bottle_print(b: BottleView) -> Seq<u8> {
    seq![b.id, b.items@.len() as u8] + b.items@.map_values(|i: ItemView| i.color) + seq![
        b.safe_counter,
        ((if b.finalized { 1int } else { 0 }) + (if b.behind_curtain { 2int } else { 0 }) + (
        if b.frozen { 4int } else { 0 }) + (if b.plugged { 8int } else { 0 }) + (if b.locked {
            16int
        } else {
            0
        })) as u8,
    ]
}

/// The bytes of all bottles of a board, in order.
pub open spec fn board_print(bs: Seq<BottleView>) -> Seq<u8>
    decreases bs.len(),
{
    if bs.len() == 0 {
        Seq::empty()
    } else {
        board_print(bs.drop_last()) + bottle_print(bs.last())
    }
}

fn fingerprint(view: &BoardView) -> (r: Vec<u8>)
    requires
        forall|i: int| 0 <= i < view.bottles@.len() ==> (#[trigger] view.bottles@[i]).items@.len() < 256,
    ensures
        r@ == board_print(view.bottles@),
{
    let mut out: Vec<u8> = Vec::new();
    let mut k: usize = 0;
    while k < view.bottles.len()
        invariant
            0 <= k <= view.bottles@.len(),
            forall|i: int| 0 <= i < view.bottles@.len() ==> (#[trigger] view.bottles@[i]).items@.len() < 256,
            out@ == board_print(view.bottles@.take(k as int)),
        decreases view.bottles@.len() - k,
    {
        let b = &view.bottles[k];
        let ghost before = out@;
        assert(b.items@.len() < 256);
        out.push(b.id);
        out.push(b.items.len() as u8);
        let mut j: usize = 0;
        while j < b.items.len()
            invariant
                0 <= j <= b.items@.len(),
                out@ == before + seq![b.id, b.items@.len() as u8] + b.items@.take(j as int).map_values(
                    |i: ItemView| i.color,
                ),
            decreases b.items@.len() - j,
        {
            out.push(b.items[j].color);
            j = j + 1;
            assert(out@ =~= before + seq![b.id, b.items@.len() as u8] + b.items@.take(
                j as int,
            ).map_values(|i: ItemView| i.color));
        }
        out.push(b.safe_counter);
        let flags: u8 = (if b.finalized { 1u8 } else { 0 }) + (if b.behind_curtain { 2u8 } else {
            0
        }) + (if b.frozen { 4u8 } else { 0 }) + (if b.plugged { 8u8 } else { 0 }) + (if b.locked {
            16u8
        } else {
            0
        });
        out.push(flags);
        assert(b.items@.take(b.items@.len() as int) =~= b.items@);
        assert(out@ =~= before + bottle_print(*b));
        assert(view.bottles@.take(k + 1).drop_last() =~= view.bottles@.take(k as int));
        k = k + 1;
    }
    assert(view.bottles@.take(k as int) =~= view.bottles@);
    out
}

fn same_bytes(a: &Vec<u8>, b: &Vec<u8>) -> (r: bool)
    ensures
        r == (a@ == b@),
{
    if a.len() != b.len() {
        return false;
    }
    let mut k: usize = 0;
    while k < a.len()
        invariant
            a@.len() == b@.len(),
            0 <= k <= a@.len(),
            forall|i: int| 0 <= i < k ==> a@[i] == b@[i],
        decreases a@.len() - k,
    {
        if a[k] != b[k] {
            return false;
        }
        k = k + 1;
    }
    assert(a@ =~= b@);
    true
}

fn seen_before(seen: &Vec<Vec<u8>>, print: &Vec<u8>) -> (r: bool)
    ensures
        r == exists|i: int| 0 <= i < seen@.len() && (#[trigger] seen@[i])@ == print@,
{
    let mut k: usize = 0;
    while k < seen.len()
        invariant
            0 <= k <= seen@.len(),
            forall|i: int| 0 <= i < k ==> (#[trigger] seen@[i])@ != print@,
        decreases seen@.len() - k,
    {
        if same_bytes(&seen[k], print) {
            return true;
        }
        k = k + 1;
    }
    false
}

proof fn lemma_after_pours(h: HistoryView, path: Seq<(u8, u8)>, k: int)
    requires
        history_inv(h),
        h.length == path.len(),
        forall|j: int|
            0 <= j < path.len() ==> #[trigger] path[j] == (h.moves[j].from, h.moves[j].to),
        0 <= k <= path.len(),
    ensures
        after_pours(h.states[0], path.take(k)) == Some(h.states[k]),
    decreases k,
{
    if k > 0 {
        lemma_after_pours(h, path, k - 1);
        assert(path.take(k).drop_last() =~= path.take(k - 1));
        assert(path.take(k).last() == path[k - 1]);
        let m = h.moves[k - 1];
        assert(pour_allowed(h.states[k - 1], m.from as int, m.to as int));
        assert(move_to_view(h.states[k - 1], m.from as int, m.to as int) == Some(m));
    }
}

/// Whether `p` is the print of a board that shows `v` on the board `rows`.
pub open spec fn printed(v: StateView, rows: Seq<Seq<u8>>, p: Seq<u8>) -> bool {
    exists|r: BoardView| #[trigger] shows_state(r, v, rows) && board_print(r.bottles@) == p
}

proof fn lemma_board_print_eq(a: Seq<BottleView>, b: Seq<BottleView>)
    requires
        a.len() == b.len(),
        forall|i: int| 0 <= i < a.len() ==> bottle_print(#[trigger] a[i]) == bottle_print(b[i]),
    ensures
        board_print(a) == board_print(b),
    decreases a.len(),
{
    if a.len() > 0 {
        lemma_board_print_eq(a.drop_last(), b.drop_last());
        assert(bottle_print(a[a.len() - 1]) == bottle_print(b[b.len() - 1]));
    }
}

/// Two boards that show one state on one board have one print.
proof fn lemma_print_unique(v: StateView, rows: Seq<Seq<u8>>, p: Seq<u8>, q: Seq<u8>)
    requires
        printed(v, rows, p),
        printed(v, rows, q),
    ensures
        p == q,
{
    let r1 = choose|r: BoardView| #[trigger] shows_state(r, v, rows) && board_print(r.bottles@) == p;
    let r2 = choose|r: BoardView| #[trigger] shows_state(r, v, rows) && board_print(r.bottles@) == q;
    assert forall|i: int| 0 <= i < r1.bottles@.len() implies bottle_print(#[trigger] r1.bottles@[i])
        == bottle_print(r2.bottles@[i]) by {
        assert(crate::view::shows_bottle(v, rows, r1.bottles@[i], i + 1));
        assert(crate::view::shows_bottle(v, rows, r2.bottles@[i], i + 1));
        assert(r1.bottles@[i].items@ == r2.bottles@[i].items@);
    }
    lemma_board_print_eq(r1.bottles@, r2.bottles@);
}

/// The first pour of a sequence that can be made is legal on the state it
/// starts from.
proof fn lemma_after_pours_first(v: StateView, p: Seq<(u8, u8)>)
    requires
        after_pours(v, p) is Some,
        p.len() > 0,
    ensures
        pour_allowed(v, p[0].0 as int, p[0].1 as int),
    decreases p.len(),
{
    if p.len() > 1 {
        assert(after_pours(v, p.drop_last()) is Some);
        lemma_after_pours_first(v, p.drop_last());
        assert(p.drop_last()[0] == p[0]);
    } else {
        assert(p.drop_last().len() == 0);
        assert(after_pours(v, p.drop_last()) == Some(v));
        assert(p.last() == p[0]);
    }
}

proof fn lemma_row_nonempty(v: StateView, f: int, t: int, to: int)
    requires
        pour_allowed(v, f, t),
        t < to,
    ensures
        row_pairs(v, f, to).len() > 0,
    decreases to,
{
    if to - 1 > t {
        lemma_row_nonempty(v, f, t, to - 1);
    }
}

proof fn lemma_pairs_nonempty(v: StateView, f: int, t: int, from: int)
    requires
        pour_allowed(v, f, t),
        f < from,
    ensures
        pairs_upto(v, from).len() > 0,
    decreases from,
{
    if from - 1 == f {
        lemma_row_nonempty(v, f, t, (v.bottle_count + 1) as int);
    } else {
        lemma_pairs_nonempty(v, f, t, from - 1);
    }
}

/// Whether the single pour `p` from `v` is legal and leaves the board
/// solved.
pub open spec fn solves_at_once(v: StateView, p: (u8, u8)) -> bool {
    match after_pours(v, seq![p]) {
        Some(w) => solved_view(w),
        None => false,
    }
}

proof fn lemma_solves_at_once(v: StateView, p: (u8, u8))
    requires
        solves_at_once(v, p),
    ensures
        pour_allowed(v, p.0 as int, p.1 as int),
        after_pours(v, seq![p]) == Some(apply_view(v, move_to_view(v, p.0 as int, p.1 as int)->0)),
        solved_view(apply_view(v, move_to_view(v, p.0 as int, p.1 as int)->0)),
{
    assert(seq![p].drop_last() =~= Seq::<(u8, u8)>::empty());
    assert(after_pours(v, seq![p].drop_last()) == Some(v));
    assert(seq![p].last() == p);
}

proof fn lemma_row_moves_pairs(v: StateView, f: int, to: int)
    requires
        1 <= f < 32,
        to <= 32,
    ensures
        row_moves(v, f, to) == row_pairs(v, f, to).map_values(
            |p: (u8, u8)| move_to_view(v, p.0 as int, p.1 as int)->0,
        ),
    decreases to,
{
    if to > 1 {
        lemma_row_moves_pairs(v, f, to - 1);
        let g = |p: (u8, u8)| move_to_view(v, p.0 as int, p.1 as int)->0;
        let rest = row_pairs(v, f, to - 1);
        if pour_allowed(v, f, to - 1) {
            assert(rest.push((f as u8, (to - 1) as u8)).map_values(g) =~= rest.map_values(g).push(
                g((f as u8, (to - 1) as u8)),
            ));
        }
    } else {
        assert(row_pairs(v, f, to).map_values(
            |p: (u8, u8)| move_to_view(v, p.0 as int, p.1 as int)->0,
        ) =~= Seq::<MoveView>::empty());
    }
}

proof fn lemma_moves_pairs(v: StateView, from: int)
    requires
        v.bottle_count < 32,
        from <= v.bottle_count + 1,
    ensures
        moves_upto(v, from) == pairs_upto(v, from).map_values(
            |p: (u8, u8)| move_to_view(v, p.0 as int, p.1 as int)->0,
        ),
    decreases from,
{
    let g = |p: (u8, u8)| move_to_view(v, p.0 as int, p.1 as int)->0;
    if from > 1 {
        lemma_moves_pairs(v, from - 1);
        lemma_row_moves_pairs(v, from - 1, (v.bottle_count + 1) as int);
        assert((pairs_upto(v, from - 1) + row_pairs(v, from - 1, (v.bottle_count + 1) as int)).map_values(g)
            =~= pairs_upto(v, from - 1).map_values(g) + row_pairs(v, from - 1, (v.bottle_count + 1) as int)
            .map_values(g));
    } else {
        assert(pairs_upto(v, from).map_values(g) =~= Seq::<MoveView>::empty());
    }
}

proof fn lemma_solved_no_pairs_row(v: StateView, f: int, to: int)
    requires
        solved_view(v),
    ensures
        row_pairs(v, f, to).len() == 0,
    decreases to,
{
    if to > 1 {
        lemma_solved_no_pairs_row(v, f, to - 1);
        if pour_allowed(v, f, to - 1) {
            assert(v.height[f] == 0 || v.finalized[f]);
        }
    }
}

proof fn lemma_solved_no_pairs(v: StateView, from: int)
    requires
        solved_view(v),
    ensures
        pairs_upto(v, from).len() == 0,
    decreases from,
{
    if from > 1 {
        lemma_solved_no_pairs(v, from - 1);
        lemma_solved_no_pairs_row(v, from - 1, (v.bottle_count + 1) as int);
    }
}

/// The moves a state lists are the moves of its legal pours, by source and
/// then by target, each the move that pouring that pair makes; a solved
/// state lists none.
pub proof fn law_moves_are_legal_pours(v: StateView)
    requires
        v.bottle_count < 32,
    ensures
        moves_view(v) == pairs_upto(v, (v.bottle_count + 1) as int).map_values(
            |p: (u8, u8)| move_to_view(v, p.0 as int, p.1 as int)->0,
        ),
        forall|i: int| 0 <= i < pairs_upto(v, (v.bottle_count + 1) as int).len() ==> pour_allowed(
            v,
            #[trigger] pairs_upto(v, (v.bottle_count + 1) as int)[i].0 as int,
            pairs_upto(v, (v.bottle_count + 1) as int)[i].1 as int,
        ),
        solved_view(v) ==> moves_view(v).len() == 0,
{
    lemma_moves_pairs(v, (v.bottle_count + 1) as int);
    lemma_pairs_allowed(v, (v.bottle_count + 1) as int);
    if solved_view(v) {
        lemma_solved_no_pairs(v, (v.bottle_count + 1) as int);
    }
}

proof fn lemma_row_pairs_allowed(v: StateView, f: int, to: int)
    requires
        1 <= f < 32,
        to <= 32,
    ensures
        forall|i: int| 0 <= i < row_pairs(v, f, to).len() ==> pour_allowed(
            v,
            #[trigger] row_pairs(v, f, to)[i].0 as int,
            row_pairs(v, f, to)[i].1 as int,
        ),
    decreases to,
{
    if to > 1 {
        lemma_row_pairs_allowed(v, f, to - 1);
        let rest = row_pairs(v, f, to - 1);
        let r = row_pairs(v, f, to);
        assert forall|i: int| 0 <= i < r.len() implies pour_allowed(
            v,
            #[trigger] r[i].0 as int,
            r[i].1 as int,
        ) by {
            if i < rest.len() {
                assert(r[i] == rest[i]);
            }
        }
    }
}

proof fn lemma_pairs_allowed(v: StateView, from: int)
    requires
        v.bottle_count < 32,
        from <= v.bottle_count + 1,
    ensures
        forall|i: int| 0 <= i < pairs_upto(v, from).len() ==> pour_allowed(
            v,
            #[trigger] pairs_upto(v, from)[i].0 as int,
            pairs_upto(v, from)[i].1 as int,
        ),
    decreases from,
{
    if from > 1 {
        lemma_pairs_allowed(v, from - 1);
        let a = pairs_upto(v, from - 1);
        let r = row_pairs(v, from - 1, (v.bottle_count + 1) as int);
        lemma_row_pairs_allowed(v, from - 1, (v.bottle_count + 1) as int);
        assert forall|i: int| 0 <= i < (a + r).len() implies pour_allowed(
            v,
            #[trigger] (a + r)[i].0 as int,
            (a + r)[i].1 as int,
        ) by {
            if i < a.len() {
                assert((a + r)[i] == a[i]);
            } else {
                assert((a + r)[i] == r[i - a.len()]);
            }
        }
    }
}

/// A legal pour makes the move that the state lists for it.
pub proof fn law_pour_is_listed_move(v: StateView, f: u8, t: u8)
    requires
        reach_inv(v),
        pour_allowed(v, f as int, t as int),
    ensures
        exists|i: int|
            0 <= i < moves_view(v).len() && #[trigger] moves_view(v)[i] == move_to_view(
                v,
                f as int,
                t as int,
            )->0,
{
    law_moves_are_legal_pours(v);
    if solved_view(v) {
        lemma_solved_no_pairs(v, (v.bottle_count + 1) as int);
        lemma_pairs_has(v, f as int, t as int, (v.bottle_count + 1) as int);
    }
    lemma_legal_pair_listed(v, f, t);
    let o = choose|o: int| 0 <= o < legal_pairs(v).len() && #[trigger] legal_pairs(v)[o] == (f, t);
    assert(moves_view(v)[o] == move_to_view(v, f as int, t as int)->0);
}

/// A sequence of legal pours from a reachable state is as many listed
/// moves, so every law of the states that listed moves reach holds of the
/// states that pours reach.
pub proof fn law_pours_are_listed_moves(start: StateView, q: Seq<(u8, u8)>)
    requires
        reach_inv(start),
        after_pours(start, q) is Some,
    ensures
        leads_to(start, after_pours(start, q)->0, q.len()),
    decreases q.len(),
{
    if q.len() == 0 {
        lemma_leads_to_zero(start);
    } else {
        let y = after_pours(start, q.drop_last())->0;
        law_pours_are_listed_moves(start, q.drop_last());
        lemma_leads_to_reach(start, y, q.drop_last().len());
        let (f, t) = q.last();
        law_pour_is_listed_move(y, f, t);
        let i = choose|i: int|
            0 <= i < moves_view(y).len() && #[trigger] moves_view(y)[i] == move_to_view(y, f as int, t as int)->0;
        let x = after_pours(start, q)->0;
        assert(x == apply_view(y, moves_view(y)[i]));
        assert(one_move(y, x));
        lemma_leads_to_step(start, y, x, q.drop_last().len());
    }
}

/// A legal pour keeps the top item of every bottle visible, and no empty
/// slot hidden, when the state it starts from does.
pub proof fn law_pour_keeps_top_visible(v: StateView, f: u8, t: u8)
    requires
        reach_inv(v),
        hidden_below_top(v),
        pour_allowed(v, f as int, t as int),
    ensures
        hidden_below_top(after_pour(v, (f, t))),
{
    law_pour_is_listed_move(v, f, t);
    let i = choose|i: int|
        0 <= i < moves_view(v).len() && #[trigger] moves_view(v)[i] == move_to_view(v, f as int, t as int)->0;
    lemma_listed_move_hidden(v, i);
}

/// The level after the last completed one, or the first level when none
/// was completed.
pub open spec fn wanted_level(last_completed: Option<usize>) -> int {
    match last_completed {
        None => 0,
        Some(l) => if l == usize::MAX {
            usize::MAX as int
        } else {
            l + 1
        },
    }
}

/// The level to resume on: the one after the last completed level, the
/// first when none was completed, but no further than the last of the
/// `available` levels, counted from the first, that can be loaded, so that
/// a player who finished them all is never left without a level.
pub fn resume_index(last_completed: Option<usize>, available: usize) -> (r: usize)
    requires
        available > 0,
    ensures
        r == if wanted_level(last_completed) < available {
            wanted_level(last_completed)
        } else {
            available - 1
        },
{
    let wanted = match last_completed {
        None => 0,
        Some(l) => l.saturating_add(1),
    };
    if wanted < available {
        wanted
    } else {
        available - 1
    }
}

/// Whether some sequence of legal pours leads from `start` to `x`.
pub open spec fn reachable_from(start: StateView, x: StateView) -> bool {
    exists|q: Seq<(u8, u8)>| #[trigger] after_pours(start, q) == Some(x)
}

/// Whether some sequence of legal pours leads from `start` to a solved
/// board.
pub open spec fn solvable_by_pours(start: StateView) -> bool {
    exists|q: Seq<(u8, u8)>| #[trigger] after_pours(start, q) matches Some(w) && solved_view(w)
}

/// The board after the legal pour `p` from `v`.
pub open spec fn after_pour(v: StateView, p: (u8, u8)) -> StateView {
    apply_view(v, move_to_view(v, p.0 as int, p.1 as int)->0)
}

/// Whether the print of `x` is among `prints`.
pub open spec fn print_seen(x: StateView, rows: Seq<Seq<u8>>, prints: Seq<Seq<u8>>) -> bool {
    exists|k: int| 0 <= k < prints.len() && #[trigger] printed(x, rows, prints[k])
}

/// Whether every legal pour of `v` leads to a board whose print is among
/// `prints`.
pub open spec fn closed_board(v: StateView, rows: Seq<Seq<u8>>, prints: Seq<Seq<u8>>) -> bool {
    forall|o: int|
        0 <= o < legal_pairs(v).len() ==> print_seen(after_pour(v, #[trigger] legal_pairs(v)[o]), rows, prints)
}

/// Whether boards reachable from `start` that show the same print are the
/// same board: the print leaves out hidden and locked item flags, keys and
/// color curtains, so this does not hold of every level.
pub open spec fn prints_apart(start: StateView, rows: Seq<Seq<u8>>) -> bool {
    forall|x: StateView, y: StateView, p: Seq<u8>|
        reachable_from(start, x) && reachable_from(start, y) && #[trigger] printed(x, rows, p)
            && #[trigger] printed(y, rows, p) ==> x == y
}

/// `257` to the power `n`.
pub open spec fn pow257(n: nat) -> nat
    decreases n,
{
    if n == 0 {
        1
    } else {
        257 * pow257((n - 1) as nat)
    }
}

/// A number for each byte sequence, different for different sequences.
pub open spec fn print_number(s: Seq<u8>) -> nat
    decreases s.len(),
{
    if s.len() == 0 {
        0
    } else {
        (1 + s[0] + 257 * print_number(s.drop_first())) as nat
    }
}

proof fn lemma_print_number_apart(a: Seq<u8>, b: Seq<u8>)
    requires
        print_number(a) == print_number(b),
    ensures
        a == b,
    decreases a.len(),
{
    if a.len() > 0 && b.len() > 0 {
        let x = 1 + a[0] as int;
        let y = 1 + b[0] as int;
        let ea = print_number(a.drop_first()) as int;
        let eb = print_number(b.drop_first()) as int;
        assert(x == y && ea == eb) by (nonlinear_arith)
            requires
                1 <= x <= 256,
                1 <= y <= 256,
                0 <= ea,
                0 <= eb,
                x + 257 * ea == y + 257 * eb,
        ;
        lemma_print_number_apart(a.drop_first(), b.drop_first());
        assert(a =~= seq![a[0]] + a.drop_first());
        assert(b =~= seq![b[0]] + b.drop_first());
    } else if a.len() > 0 {
        assert(print_number(a) >= 1);
    } else if b.len() > 0 {
        assert(print_number(b) >= 1);
    } else {
        assert(a =~= b);
    }
}

proof fn lemma_print_number_bound(s: Seq<u8>)
    ensures
        print_number(s) < pow257(s.len()),
    decreases s.len(),
{
    if s.len() > 0 {
        lemma_print_number_bound(s.drop_first());
        let e = print_number(s.drop_first()) as int;
        let q = pow257((s.len() - 1) as nat) as int;
        let x = 1 + s[0] as int;
        assert(x + 257 * e < 257 * q) by (nonlinear_arith)
            requires
                1 <= x <= 256,
                0 <= e < q,
        ;
    }
}

proof fn lemma_pow257_mono(a: nat, b: nat)
    requires
        a <= b,
    ensures
        pow257(a) <= pow257(b),
    decreases b,
{
    if a < b {
        lemma_pow257_mono(a, (b - 1) as nat);
    }
}

/// Different byte sequences of at most `n` bytes are at most `257` to the
/// power `n`.
proof fn lemma_prints_count(prints: Seq<Seq<u8>>, n: nat)
    requires
        forall|a: int, b: int| 0 <= a < b < prints.len() ==> prints[a] != prints[b],
        forall|k: int| 0 <= k < prints.len() ==> (#[trigger] prints[k]).len() <= n,
    ensures
        prints.len() <= pow257(n),
{
    let f = |s: Seq<u8>| print_number(s) as int;
    let e = prints.map_values(f);
    assert forall|a: int, b: int| 0 <= a < e.len() && 0 <= b < e.len() && a != b implies e[a] != e[b] by {
        if e[a] == e[b] {
            lemma_print_number_apart(prints[a], prints[b]);
            if a < b {
                assert(prints[a] != prints[b]);
            } else {
                assert(prints[b] != prints[a]);
            }
        }
    }
    assert(e.no_duplicates());
    e.unique_seq_to_set();
    let range = vstd::set_lib::set_int_range(0, pow257(n) as int);
    vstd::set_lib::lemma_int_range(0, pow257(n) as int);
    assert forall|x: int| e.to_set().contains(x) implies range.contains(x) by {
        let k = choose|k: int| 0 <= k < e.len() && e[k] == x;
        lemma_print_number_bound(prints[k]);
        lemma_pow257_mono(prints[k].len(), n);
    }
    vstd::set_lib::lemma_len_subset(e.to_set(), range);
}

/// The print of a board of bottles of at most sixteen items each has at
/// most twenty bytes a bottle.
proof fn lemma_board_print_len(bs: Seq<BottleView>)
    requires
        forall|i: int| 0 <= i < bs.len() ==> (#[trigger] bs[i]).items@.len() <= 16,
    ensures
        board_print(bs).len() <= 20 * bs.len(),
    decreases bs.len(),
{
    if bs.len() > 0 {
        assert forall|i: int| 0 <= i < bs.drop_last().len() implies (#[trigger] bs.drop_last()[i]).items@.len()
            <= 16 by {
            assert(bs.drop_last()[i] == bs[i]);
        }
        lemma_board_print_len(bs.drop_last());
        assert(bs.last() == bs[bs.len() - 1]);
    }
}

proof fn lemma_row_pairs_has(v: StateView, f: int, t: int, to: int)
    requires
        v.bottle_count < 32,
        pour_allowed(v, f, t),
        t < to <= 32,
    ensures
        exists|o: int| 0 <= o < row_pairs(v, f, to).len() && #[trigger] row_pairs(v, f, to)[o] == (f as u8, t as u8),
    decreases to,
{
    let rest = row_pairs(v, f, to - 1);
    if t < to - 1 {
        lemma_row_pairs_has(v, f, t, to - 1);
        let o = choose|o: int| 0 <= o < rest.len() && #[trigger] rest[o] == (f as u8, t as u8);
        if pour_allowed(v, f, to - 1) {
            assert(row_pairs(v, f, to)[o] == rest[o]);
        }
        assert(0 <= o < row_pairs(v, f, to).len() && row_pairs(v, f, to)[o] == (f as u8, t as u8));
    } else {
        let o = rest.len() as int;
        assert(row_pairs(v, f, to) == rest.push((f as u8, (to - 1) as u8)));
        assert(0 <= o < row_pairs(v, f, to).len() && row_pairs(v, f, to)[o] == (f as u8, t as u8));
    }
}

proof fn lemma_pairs_has(v: StateView, f: int, t: int, from: int)
    requires
        v.bottle_count < 32,
        pour_allowed(v, f, t),
        f < from <= v.bottle_count + 1,
    ensures
        exists|o: int| 0 <= o < pairs_upto(v, from).len() && #[trigger] pairs_upto(v, from)[o] == (f as u8, t as u8),
    decreases from,
{
    let a = pairs_upto(v, from - 1);
    let r = row_pairs(v, from - 1, (v.bottle_count + 1) as int);
    assert(pairs_upto(v, from) == a + r);
    if f < from - 1 {
        lemma_pairs_has(v, f, t, from - 1);
        let o = choose|o: int| 0 <= o < a.len() && #[trigger] a[o] == (f as u8, t as u8);
        assert((a + r)[o] == a[o]);
        assert(0 <= o < (a + r).len() && (a + r)[o] == (f as u8, t as u8));
    } else {
        lemma_row_pairs_has(v, f, t, (v.bottle_count + 1) as int);
        let o = choose|o: int| 0 <= o < r.len() && #[trigger] r[o] == (f as u8, t as u8);
        assert((a + r)[a.len() + o] == r[o]);
        assert(0 <= a.len() + o < (a + r).len() && (a + r)[a.len() + o] == (f as u8, t as u8));
    }
}

/// A legal pour of an unsolved board is one of its listed legal pours.
proof fn lemma_legal_pair_listed(v: StateView, f: u8, t: u8)
    requires
        v.bottle_count < 32,
        pour_allowed(v, f as int, t as int),
        !solved_view(v),
    ensures
        exists|o: int| 0 <= o < legal_pairs(v).len() && #[trigger] legal_pairs(v)[o] == (f, t),
{
    lemma_pairs_has(v, f as int, t as int, (v.bottle_count + 1) as int);
    let o = choose|o: int|
        0 <= o < pairs_upto(v, (v.bottle_count + 1) as int).len() && #[trigger] pairs_upto(
            v,
            (v.bottle_count + 1) as int,
        )[o] == ((f as int) as u8, (t as int) as u8);
    assert(legal_pairs(v)[o] == (f, t));
}

/// Where every recorded board and the start are unsolved and all their
/// legal pours lead to recorded prints, and boards reachable from the
/// start are told apart by their prints, every board reachable from the
/// start is the start or a recorded board, so it is unsolved.
proof fn lemma_walk_complete(
    start: StateView,
    rows: Seq<Seq<u8>>,
    prints: Seq<Seq<u8>>,
    reps: Seq<StateView>,
    q: Seq<(u8, u8)>,
)
    requires
        prints_apart(start, rows),
        reps.len() == prints.len(),
        forall|k: int|
            0 <= k < reps.len() ==> printed(reps[k], rows, prints[k]) && reachable_from(start, reps[k])
                && !solved_view(reps[k]) && closed_board(reps[k], rows, prints),
        !solved_view(start),
        closed_board(start, rows, prints),
        after_pours(start, q) is Some,
        forall|x: StateView| #[trigger] reachable_from(start, x) ==> x.bottle_count < 32,
    ensures
        !solved_view(after_pours(start, q)->0),
        after_pours(start, q)->0 == start || exists|k: int| 0 <= k < reps.len() && reps[k] == after_pours(start, q)->0,
    decreases q.len(),
{
    if q.len() > 0 {
        let y = after_pours(start, q.drop_last())->0;
        lemma_walk_complete(start, rows, prints, reps, q.drop_last());
        let (f, t) = q.last();
        assert(pour_allowed(y, f as int, t as int));
        let x = after_pours(start, q)->0;
        assert(x == after_pour(y, (f, t)));
        assert(closed_board(y, rows, prints)) by {
            if y != start {
                let k = choose|k: int| 0 <= k < reps.len() && reps[k] == y;
            }
        }
        assert(reachable_from(start, y));
        lemma_legal_pair_listed(y, f, t);
        let o = choose|o: int| 0 <= o < legal_pairs(y).len() && #[trigger] legal_pairs(y)[o] == (f, t);
        assert(print_seen(after_pour(y, legal_pairs(y)[o]), rows, prints));
        let k2 = choose|k2: int| 0 <= k2 < prints.len() && #[trigger] printed(x, rows, prints[k2]);
        assert(reachable_from(start, x));
        assert(printed(reps[k2], rows, prints[k2]) && reachable_from(start, reps[k2]));
        assert(x == reps[k2]);
    }
}

/// What the walk of `solve` keeps: the recorded prints are different, each
/// the print of a recorded board reachable from `start`; each frame on the
/// stack lists the legal pours of the board at its depth, and the pours it
/// has tried lead to recorded prints; every recorded board off the current
/// path has all its pours tried; only the board on top of the path may be
/// solved; and once the stack is empty, the start has all its pours tried.
#[verifier::opaque]
spec fn walk_ok(
    start: StateView,
    rows: Seq<Seq<u8>>,
    h: HistoryView,
    prints: Seq<Seq<u8>>,
    reps: Seq<StateView>,
    st: Seq<(Vec<(u8, u8)>, usize)>,
    at: Seq<int>,
) -> bool {
    &&& reps.len() == prints.len()
    &&& forall|k: int|
        0 <= k < reps.len() ==> #[trigger] printed(reps[k], rows, prints[k]) && reachable_from(
            start,
            reps[k],
        )
    &&& forall|a: int, b: int| 0 <= a < b < prints.len() ==> prints[a] != prints[b]
    &&& forall|k: int| 0 <= k < prints.len() ==> (#[trigger] prints[k]).len() <= 620
    &&& (st.len() == h.length + 1 || (st.len() == 0 && h.length == 0))
    &&& forall|i: int|
        0 <= i < st.len() ==> (#[trigger] st[i]).0@ == legal_pairs(h.states[i]) && st[i].1
            <= st[i].0@.len()
    &&& forall|i: int, o: int|
        0 <= i < st.len() && 0 <= o < st[i].1 ==> print_seen(
            after_pour(h.states[i], #[trigger] st[i].0@[o]),
            rows,
            prints,
        )
    &&& forall|k: int| 0 <= k < reps.len() && !at.contains(k) ==> #[trigger] closed_board(reps[k], rows, prints)
    &&& forall|k: int|
        0 <= k < reps.len() && #[trigger] solved_view(reps[k]) ==> at.len() > 0 && k == at.last()
    &&& at.len() == h.length
    &&& forall|i: int| 0 <= i < at.len() ==> 0 <= #[trigger] at[i] < reps.len() && reps[at[i]] == h.states[i + 1]
    &&& st.len() == 0 ==> closed_board(start, rows, prints)
}

/// Recording a new print keeps every recorded print seen.
proof fn lemma_print_seen_more(x: StateView, rows: Seq<Seq<u8>>, prints: Seq<Seq<u8>>, p: Seq<u8>)
    requires
        print_seen(x, rows, prints),
    ensures
        print_seen(x, rows, prints.push(p)),
{
    let k = choose|k: int| 0 <= k < prints.len() && #[trigger] printed(x, rows, prints[k]);
    assert(prints.push(p)[k] == prints[k]);
}

/// Once the board on top of the path is known unsolved, no recorded board
/// is solved.
proof fn lemma_walk_unsolved(
    start: StateView,
    rows: Seq<Seq<u8>>,
    h: HistoryView,
    prints: Seq<Seq<u8>>,
    reps: Seq<StateView>,
    st: Seq<(Vec<(u8, u8)>, usize)>,
    at: Seq<int>,
)
    requires
        walk_ok(start, rows, h, prints, reps, st, at),
        !solved_view(h.states[h.length as int]),
    ensures
        forall|k: int| 0 <= k < reps.len() ==> !#[trigger] solved_view(reps[k]),
        reps.len() == prints.len(),
        forall|k: int| 0 <= k < prints.len() ==> (#[trigger] prints[k]).len() <= 620,
        forall|a: int, b: int| 0 <= a < b < prints.len() ==> prints[a] != prints[b],
        st.len() == h.length + 1 || (st.len() == 0 && h.length == 0),
        forall|i: int|
            0 <= i < st.len() ==> (#[trigger] st[i]).0@ == legal_pairs(h.states[i]) && st[i].1
                <= st[i].0@.len(),
        at.len() == h.length,
{
    reveal(walk_ok);
    assert forall|k: int| 0 <= k < reps.len() implies !#[trigger] solved_view(reps[k]) by {
        if solved_view(reps[k]) {
            assert(reps[at[at.len() - 1]] == h.states[(at.len() - 1) + 1]);
        }
    }
}

/// Taking a frame whose pours are all tried off the stack, and the move
/// that led to its board off the history, keeps what the walk keeps.
proof fn lemma_walk_pop(
    start: StateView,
    rows: Seq<Seq<u8>>,
    h: HistoryView,
    h2: HistoryView,
    prints: Seq<Seq<u8>>,
    reps: Seq<StateView>,
    st: Seq<(Vec<(u8, u8)>, usize)>,
    at: Seq<int>,
)
    requires
        walk_ok(start, rows, h, prints, reps, st, at),
        forall|k: int| 0 <= k < reps.len() ==> !#[trigger] solved_view(reps[k]),
        h.states[0] == start,
        st.len() > 0,
        st.last().1 >= st.last().0@.len(),
        h2.states == h.states,
        h2.length == if h.length > 0 {
            (h.length - 1) as nat
        } else {
            0
        },
    ensures
        walk_ok(
            start,
            rows,
            h2,
            prints,
            reps,
            st.drop_last(),
            if at.len() > 0 {
                at.drop_last()
            } else {
                at
            },
        ),
{
    reveal(walk_ok);
    let n = st.len() - 1;
    let st2 = st.drop_last();
    let at2 = if at.len() > 0 {
        at.drop_last()
    } else {
        at
    };
    assert(st[n] == st.last());
    assert forall|o: int| 0 <= o < legal_pairs(h.states[n]).len() implies print_seen(
        after_pour(h.states[n], #[trigger] legal_pairs(h.states[n])[o]),
        rows,
        prints,
    ) by {
        assert(st[n].0@[o] == legal_pairs(h.states[n])[o]);
    }
    assert(closed_board(h.states[n], rows, prints));
    assert forall|i: int| 0 <= i < st2.len() implies (#[trigger] st2[i]).0@ == legal_pairs(h2.states[i])
        && st2[i].1 <= st2[i].0@.len() by {
        assert(st2[i] == st[i]);
    }
    assert forall|i: int, o: int| 0 <= i < st2.len() && 0 <= o < st2[i].1 implies print_seen(
        after_pour(h2.states[i], #[trigger] st2[i].0@[o]),
        rows,
        prints,
    ) by {
        assert(st2[i] == st[i]);
    }
    assert forall|k: int| 0 <= k < reps.len() && !at2.contains(k) implies #[trigger] closed_board(
        reps[k],
        rows,
        prints,
    ) by {
        if at.contains(k) {
            let i = choose|i: int| 0 <= i < at.len() && at[i] == k;
            if i < at.len() - 1 {
                assert(at2[i] == at[i]);
            }
            assert(i == at.len() - 1);
            assert(reps[at[i]] == h.states[i + 1]);
        }
    }
    assert forall|i: int| 0 <= i < at2.len() implies 0 <= #[trigger] at2[i] < reps.len() && reps[at2[i]]
        == h2.states[i + 1] by {
        assert(at2[i] == at[i]);
    }
}

/// Trying the next pour of the top frame and finding its print recorded
/// keeps what the walk keeps.
proof fn lemma_walk_seen(
    start: StateView,
    rows: Seq<Seq<u8>>,
    h: HistoryView,
    h2: HistoryView,
    prints: Seq<Seq<u8>>,
    reps: Seq<StateView>,
    st: Seq<(Vec<(u8, u8)>, usize)>,
    at: Seq<int>,
    st2: Seq<(Vec<(u8, u8)>, usize)>,
)
    requires
        walk_ok(start, rows, h, prints, reps, st, at),
        st.len() > 0,
        st.last().1 < st.last().0@.len(),
        print_seen(after_pour(h.states[h.length as int], st.last().0@[st.last().1 as int]), rows, prints),
        h2.length == h.length,
        forall|i: int| 0 <= i <= h.length ==> h2.states[i] == h.states[i],
        st2 == st.drop_last().push((st.last().0, (st.last().1 + 1) as usize)),
    ensures
        walk_ok(start, rows, h2, prints, reps, st2, at),
{
    reveal(walk_ok);
    let n = st.len() - 1;
    assert(n == h.length);
    assert(st[n] == st.last());
    assert forall|i: int| 0 <= i < st2.len() implies (#[trigger] st2[i]).0@ == legal_pairs(h2.states[i])
        && st2[i].1 <= st2[i].0@.len() by {
        if i < n {
            assert(st2[i] == st[i]);
        }
    }
    assert forall|i: int, o: int| 0 <= i < st2.len() && 0 <= o < st2[i].1 implies print_seen(
        after_pour(h2.states[i], #[trigger] st2[i].0@[o]),
        rows,
        prints,
    ) by {
        if i < n {
            assert(st2[i] == st[i]);
        } else {
            assert(st2[i].0 == st[n].0);
        }
    }
    assert forall|i: int| 0 <= i < at.len() implies 0 <= #[trigger] at[i] < reps.len() && reps[at[i]]
        == h2.states[i + 1] by {
        assert(reps[at[i]] == h.states[i + 1]);
    }
}

/// Trying the next pour of the top frame, finding a new print, recording it
/// with its board and starting a frame for that board keeps what the walk
/// keeps.
proof fn lemma_walk_push(
    start: StateView,
    rows: Seq<Seq<u8>>,
    h: HistoryView,
    h2: HistoryView,
    prints: Seq<Seq<u8>>,
    reps: Seq<StateView>,
    st: Seq<(Vec<(u8, u8)>, usize)>,
    at: Seq<int>,
    p: Seq<u8>,
    opts: Vec<(u8, u8)>,
)
    requires
        walk_ok(start, rows, h, prints, reps, st, at),
        forall|k: int| 0 <= k < reps.len() ==> !#[trigger] solved_view(reps[k]),
        st.len() > 0,
        st.last().1 < st.last().0@.len(),
        h2.length == h.length + 1,
        forall|i: int| 0 <= i <= h.length ==> h2.states[i] == h.states[i],
        h2.states[h2.length as int] == after_pour(h.states[h.length as int], st.last().0@[st.last().1 as int]),
        printed(h2.states[h2.length as int], rows, p),
        reachable_from(start, h2.states[h2.length as int]),
        p.len() <= 620,
        forall|k: int| 0 <= k < prints.len() ==> prints[k] != p,
        opts@ == legal_pairs(h2.states[h2.length as int]),
    ensures
        walk_ok(
            start,
            rows,
            h2,
            prints.push(p),
            reps.push(h2.states[h2.length as int]),
            st.drop_last().push((st.last().0, (st.last().1 + 1) as usize)).push((opts, 0usize)),
            at.push(prints.len() as int),
        ),
{
    reveal(walk_ok);
    let n = st.len() - 1;
    let x = h2.states[h2.length as int];
    let prints2 = prints.push(p);
    let reps2 = reps.push(x);
    let st2 = st.drop_last().push((st.last().0, (st.last().1 + 1) as usize)).push((opts, 0usize));
    let at2 = at.push(prints.len() as int);
    assert(n == h.length);
    assert(st[n] == st.last());
    assert forall|k: int| 0 <= k < reps2.len() implies #[trigger] printed(reps2[k], rows, prints2[k])
        && reachable_from(start, reps2[k]) by {
        if k < reps.len() {
            assert(reps2[k] == reps[k] && prints2[k] == prints[k]);
        }
    }
    assert forall|a: int, b: int| 0 <= a < b < prints2.len() implies prints2[a] != prints2[b] by {
        if b < prints.len() {
            assert(prints2[a] == prints[a] && prints2[b] == prints[b]);
        } else {
            assert(prints2[a] == prints[a]);
        }
    }
    assert forall|k: int| 0 <= k < prints2.len() implies (#[trigger] prints2[k]).len() <= 620 by {
        if k < prints.len() {
            assert(prints2[k] == prints[k]);
        }
    }
    assert forall|i: int| 0 <= i < st2.len() implies (#[trigger] st2[i]).0@ == legal_pairs(h2.states[i])
        && st2[i].1 <= st2[i].0@.len() by {
        if i < n {
            assert(st2[i] == st[i]);
        }
    }
    assert(printed(x, rows, prints2[prints.len() as int]));
    assert forall|i: int, o: int| 0 <= i < st2.len() && 0 <= o < st2[i].1 implies print_seen(
        after_pour(h2.states[i], #[trigger] st2[i].0@[o]),
        rows,
        prints2,
    ) by {
        if i < n {
            assert(st2[i] == st[i]);
            lemma_print_seen_more(after_pour(h.states[i], st[i].0@[o]), rows, prints, p);
        } else if i == n {
            assert(st2[i].0 == st[n].0);
            if o < st[n].1 {
                lemma_print_seen_more(after_pour(h.states[i], st[n].0@[o]), rows, prints, p);
            } else {
                assert(after_pour(h2.states[i], st2[i].0@[o]) == x);
            }
        }
    }
    assert forall|k: int| 0 <= k < reps2.len() && !at2.contains(k) implies #[trigger] closed_board(
        reps2[k],
        rows,
        prints2,
    ) by {
        if k == reps.len() {
            assert(at2[at.len() as int] == k);
        } else {
            assert(reps2[k] == reps[k]);
            assert(!at.contains(k)) by {
                if at.contains(k) {
                    let i = choose|i: int| 0 <= i < at.len() && at[i] == k;
                    assert(at2[i] == at[i]);
                }
            }
            assert(closed_board(reps[k], rows, prints));
            assert forall|o: int| 0 <= o < legal_pairs(reps[k]).len() implies print_seen(
                after_pour(reps[k], #[trigger] legal_pairs(reps[k])[o]),
                rows,
                prints2,
            ) by {
                lemma_print_seen_more(after_pour(reps[k], legal_pairs(reps[k])[o]), rows, prints, p);
            }
        }
    }
    assert forall|k: int| 0 <= k < reps2.len() && #[trigger] solved_view(reps2[k]) implies at2.len() > 0
        && k == at2.last() by {
        if k < reps.len() {
            assert(reps2[k] == reps[k]);
        }
    }
    assert forall|i: int| 0 <= i < at2.len() implies 0 <= #[trigger] at2[i] < reps2.len() && reps2[at2[i]]
        == h2.states[i + 1] by {
        if i < at.len() {
            assert(at2[i] == at[i]);
            assert(reps[at[i]] == h.states[i + 1]);
        }
    }
}

/// Each move of a path of pours keeps the number of bottles.
proof fn lemma_after_pours_count(v: StateView, q: Seq<(u8, u8)>)
    requires
        after_pours(v, q) is Some,
    ensures
        (after_pours(v, q)->0).bottle_count == v.bottle_count,
    decreases q.len(),
{
    if q.len() > 0 {
        lemma_after_pours_count(v, q.drop_last());
    }
}

/// How much of each frame is left to try, one more for taking it off.
pub open spec fn frame_weight(f: (Vec<(u8, u8)>, usize)) -> nat {
    if f.1 <= f.0@.len() {
        (f.0@.len() - f.1 + 1) as nat
    } else {
        1
    }
}

/// How much of the stack is left to try.
pub open spec fn frame_sum(st: Seq<(Vec<(u8, u8)>, usize)>) -> nat
    decreases st.len(),
{
    if st.len() == 0 {
        0
    } else {
        frame_sum(st.drop_last()) + frame_weight(st.last())
    }
}

/// What the walk keeps about its prints.
proof fn lemma_walk_prints(
    start: StateView,
    rows: Seq<Seq<u8>>,
    h: HistoryView,
    prints: Seq<Seq<u8>>,
    reps: Seq<StateView>,
    st: Seq<(Vec<(u8, u8)>, usize)>,
    at: Seq<int>,
)
    requires
        walk_ok(start, rows, h, prints, reps, st, at),
    ensures
        prints.len() <= pow257(620),
        st.len() == h.length + 1 || (st.len() == 0 && h.length == 0),
        forall|i: int|
            0 <= i < st.len() ==> (#[trigger] st[i]).0@ == legal_pairs(h.states[i]) && st[i].1
                <= st[i].0@.len(),
{
    reveal(walk_ok);
    lemma_prints_count(prints, 620);
}

/// A walk that has emptied its stack from an unsolved start, on a level
/// whose reachable boards are told apart by their prints, has shown that
/// no sequence of pours solves the start.
proof fn lemma_walk_exhausted(
    start: StateView,
    rows: Seq<Seq<u8>>,
    h: HistoryView,
    prints: Seq<Seq<u8>>,
    reps: Seq<StateView>,
    at: Seq<int>,
)
    requires
        walk_ok(start, rows, h, prints, reps, Seq::empty(), at),
        !solved_view(start),
        prints_apart(start, rows),
        start.bottle_count < 32,
    ensures
        !solvable_by_pours(start),
{
    reveal(walk_ok);
    assert forall|x: StateView| #[trigger] reachable_from(start, x) implies x.bottle_count < 32 by {
        let q = choose|q: Seq<(u8, u8)>| #[trigger] after_pours(start, q) == Some(x);
        lemma_after_pours_count(start, q);
    }
    assert forall|k: int| 0 <= k < reps.len() implies printed(reps[k], rows, prints[k]) && reachable_from(
        start,
        reps[k],
    ) && !solved_view(reps[k]) && closed_board(reps[k], rows, prints) by {
        assert(!at.contains(k));
        if solved_view(reps[k]) {
            assert(at.len() > 0);
        }
    }
    if solvable_by_pours(start) {
        let q = choose|q: Seq<(u8, u8)>| #[trigger] after_pours(start, q) matches Some(w) && solved_view(w);
        lemma_walk_complete(start, rows, prints, reps, q);
    }
}

/// The path to a solved board found by the walk: it leads there, its boards
/// differ, and it is empty unless the start has a legal pour.
proof fn lemma_walk_found(h: HistoryView, path: Seq<(u8, u8)>, rows: Seq<Seq<u8>>, marks: Seq<Seq<u8>>)
    requires
        history_inv(h),
        h.length == path.len(),
        forall|j: int| 0 <= j < path.len() ==> #[trigger] path[j] == (h.moves[j].from, h.moves[j].to),
        marks.len() == path.len(),
        forall|k: int| 0 <= k < marks.len() ==> printed(h.states[k + 1], rows, #[trigger] marks[k]),
        forall|a: int, b: int| 0 <= a < b < marks.len() ==> #[trigger] marks[a] != #[trigger] marks[b],
    ensures
        after_pours(h.states[0], path) == Some(h.states[h.length as int]),
        forall|i: int, j: int|
            1 <= i < j <= path.len() ==> after_pours(h.states[0], #[trigger] path.take(i))
                != after_pours(h.states[0], #[trigger] path.take(j)),
        (!solved_view(h.states[0]) && legal_pairs(h.states[0]).len() == 0) ==> path.len() == 0,
{
    let start = h.states[0];
    lemma_after_pours(h, path, path.len() as int);
    assert(path.take(path.len() as int) =~= path);
    assert forall|i: int, j: int|
        1 <= i < j <= path.len() implies after_pours(start, #[trigger] path.take(i)) != after_pours(
        start,
        #[trigger] path.take(j),
    ) by {
        lemma_after_pours(h, path, i);
        lemma_after_pours(h, path, j);
        if h.states[i] == h.states[j] {
            assert(printed(h.states[(i - 1) + 1], rows, marks[i - 1]));
            assert(printed(h.states[(j - 1) + 1], rows, marks[j - 1]));
            lemma_print_unique(h.states[i], rows, marks[i - 1], marks[j - 1]);
        }
    }
    if !solved_view(start) && legal_pairs(start).len() == 0 && path.len() > 0 {
        lemma_after_pours_first(start, path);
        lemma_pairs_nonempty(start, path[0].0 as int, path[0].1 as int, (start.bottle_count + 1) as int);
    }
}

/// A depth-first walk over the legal pours from the start of `level`,
/// skipping boards whose print was seen before, that stops at the first
/// solved board: the pours that lead there, none for a level solved from
/// the start. `None` when the walk ends without a solved board, which on a
/// level whose reachable boards are told apart by their prints means that
/// no sequence of pours solves it.
#[verifier::spinoff_prover]
#[verifier::rlimit(100)]
pub fn solve(level: Level) -> (r: Option<Vec<(u8, u8)>>)
    requires
        level_ok(&level),
    ensures
        r matches Some(path) ==> (after_pours(level.starting_state@, path@) matches Some(w)
            && solved_view(w)),
        solved_view(level.starting_state@) ==> (r matches Some(path) && path@.len() == 0),
        (!solved_view(level.starting_state@) && legal_pairs(level.starting_state@).len() == 0)
            ==> r is None,
        r matches Some(path) ==> forall|i: int, j: int|
            1 <= i < j <= path@.len() ==> after_pours(level.starting_state@, #[trigger] path@.take(i))
                != after_pours(level.starting_state@, #[trigger] path@.take(j)),
        (!solved_view(level.starting_state@) && legal_pairs(level.starting_state@).len() > 0
            && solves_at_once(level.starting_state@, legal_pairs(level.starting_state@)[0])) ==> (
        r matches Some(path) && path@ == seq![legal_pairs(level.starting_state@)[0]]),
        prints_apart(level.starting_state@, level.layout@) && solvable_by_pours(level.starting_state@)
            ==> r is Some,
{
    let ghost start = level.starting_state@;
    let ghost first_hit = !solved_view(start) && legal_pairs(start).len() > 0 && solves_at_once(
        start,
        legal_pairs(start)[0],
    );
    let ghost rows = level.layout@;
    let ghost mut marks: Seq<Seq<u8>> = Seq::empty();
    let ghost mut at: Seq<int> = Seq::empty();
    let ghost mut prints: Seq<Seq<u8>> = Seq::empty();
    let ghost mut reps: Seq<StateView> = Seq::empty();
    let ghost mut steps: int = 0;
    let mut session = match Session::new(0, Some(level)) {
        Some(s) => s,
        None => {
            return None;
        },
    };
    let mut seen: Vec<Vec<u8>> = Vec::new();
    let mut path: Vec<(u8, u8)> = Vec::new();
    let mut stack: Vec<(Vec<(u8, u8)>, usize)> = Vec::new();
    stack.push((legal_pours(&session), 0));
    proof {
        reveal(walk_ok);
        assert(stack@[0] == stack@.last());
    }
    while stack.len() > 0
        invariant
            session.wf(),
            session.history@.states[0] == start,
            start == level.starting_state@,
            session.history@.length == path@.len(),
            stack@.len() == path@.len() + 1 || (stack@.len() == 0 && path@.len() == 0),
            solved_view(start) ==> (steps == 0 && session.history@.length == 0 && stack@.len() == 1),
            steps >= 0,
            steps == 0 ==> (session.history@.length == 0 && stack@.len() == 1),
            steps > 0 ==> !solved_view(start),
            forall|j: int|
                0 <= j < path@.len() ==> #[trigger] path@[j] == (
                    session.history@.moves[j].from,
                    session.history@.moves[j].to,
                ),
            rows == session.level.layout@,
            marks.len() == path@.len(),
            forall|k: int|
                0 <= k < marks.len() ==> printed(session.history@.states[k + 1], rows, #[trigger] marks[k]),
            at.len() == marks.len(),
            forall|k: int|
                0 <= k < marks.len() ==> 0 <= #[trigger] at[k] < seen@.len() && seen@[at[k]]@
                    == marks[k],
            forall|a: int, b: int| 0 <= a < b < marks.len() ==> #[trigger] marks[a] != #[trigger] marks[b],
            first_hit == (!solved_view(start) && legal_pairs(start).len() > 0 && solves_at_once(
                start,
                legal_pairs(start)[0],
            )),
            first_hit ==> steps <= 1,
            first_hit && steps == 0 ==> (path@.len() == 0 && stack@.len() == 1 && stack@[0].1 == 0
                && stack@[0].0@ == legal_pairs(start) && seen@.len() == 0),
            first_hit && steps == 1 ==> (path@ == seq![legal_pairs(start)[0]] && solved_view(
                session.history@.current(),
            )),
            prints.len() == seen@.len(),
            forall|k: int| 0 <= k < seen@.len() ==> (#[trigger] seen@[k])@ == prints[k],
            walk_ok(start, rows, session.history@, prints, reps, stack@, at),
            prints.len() <= pow257(620),
        decreases pow257(620) - prints.len(), frame_sum(stack@),
    {
        let ghost fresh = first_hit && steps == 0;
        proof {
            session.history.lemma_wf();
            if fresh {
                lemma_solves_at_once(start, legal_pairs(start)[0]);
                assert(session.history@.current() == start);
            }
            steps = steps + 1;
        }
        let view = session.view();
        if view.solved {
            proof {
                let h = session.history@;
                lemma_walk_found(h, path@, rows, marks);
                assert(solved_view(session.history_view()@.current()));
                assert(h.current() == h.states[h.length as int]);
            }
            return Some(path);
        }
        let ghost h0 = session.history@;
        let ghost st0 = stack@;
        proof {
            assert(!solved_view(h0.states[h0.length as int]));
            lemma_walk_unsolved(start, rows, h0, prints, reps, st0, at);
        }
        let (options, next) = stack.pop().unwrap();
        proof {
            assert(st0.last() == (options, next));
        }
        if next >= options.len() {
            assert(!fresh);
            path.pop();
            let ghost at0 = at;
            proof {
                if marks.len() > 0 {
                    marks = marks.drop_last();
                    at = at.drop_last();
                }
            }
            session.history.rewind();
            proof {
                lemma_walk_pop(start, rows, h0, session.history@, prints, reps, st0, at0);
                assert(stack@ =~= st0.drop_last());
                assert(st0.drop_last() =~= st0.drop_last());
            }
        } else {
            let (from, to) = options[next];
            stack.push((options, next + 1));
            proof {
                assert(stack@ =~= st0.drop_last().push((st0.last().0, (st0.last().1 + 1) as usize)));
                assert(frame_sum(stack@) < frame_sum(st0)) by {
                    assert(stack@.drop_last() =~= st0.drop_last());
                }
                let cur = h0.states[h0.length as int];
                assert(reach_inv(cur));
                assert(st0[st0.len() - 1] == st0.last());
                lemma_pairs_allowed(cur, (cur.bottle_count + 1) as int);
                assert(st0.last().0@[next as int] == (from, to));
                assert(pour_allowed(cur, from as int, to as int));
            }
            match session.history.pour(from, to) {
                Ok(_) => {
                    proof {
                        session.history.lemma_wf();
                    }
                    let ghost h1 = session.history@;
                    let after = session.view();
                    assert forall|i: int| 0 <= i < after.bottles@.len() implies (
                    #[trigger] after.bottles@[i]).items@.len() <= 16 by {
                        let cur = session.history@.current();
                        assert(reach_inv(session.history@.states[session.history@.length as int]));
                        assert(crate::view::shows_bottle(
                            cur,
                            session.level.layout@,
                            after.bottles@[i],
                            i + 1,
                        ));
                        assert(cur.height[i + 1] <= cur.capacity[i + 1]);
                    }
                    let print = fingerprint(&after);
                    assert(printed(session.history@.states[path@.len() + 1int], rows, print@));
                    if seen_before(&seen, &print) {
                        assert(!fresh);
                        session.history.rewind();
                        proof {
                            let k = choose|k: int| 0 <= k < seen@.len() && (#[trigger] seen@[k])@ == print@;
                            assert(prints[k] == print@);
                            assert(h1.states[h1.length as int] == after_pour(
                                h0.states[h0.length as int],
                                st0.last().0@[st0.last().1 as int],
                            ));
                            assert(print_seen(h1.states[h1.length as int], rows, prints));
                            lemma_walk_seen(start, rows, h0, session.history@, prints, reps, st0, at, stack@);
                        }
                    } else {
                        let ghost old_seen = seen@;
                        seen.push(print);
                        proof {
                            assert(forall|x: int| 0 <= x < old_seen.len() ==> seen@[x] == old_seen[x]);
                            assert(seen@[old_seen.len() as int]@ == print@);
                            assert forall|k: int| 0 <= k < marks.len() implies marks[k] != print@ by {
                                assert(old_seen[at[k]]@ == marks[k]);
                            }
                            marks = marks.push(print@);
                        }
                        path.push((from, to));
                        proof {
                            if first_hit && path@.len() == 1 {
                                let h = session.history@;
                                lemma_after_pours(h, path@, 1);
                                assert(path@.take(1) =~= path@);
                                assert(path@ =~= seq![legal_pairs(start)[0]]);
                            }
                        }
                        let opts = legal_pours(&session);
                        let ghost st1 = stack@;
                        stack.push((opts, 0));
                        proof {
                            let x = h1.states[h1.length as int];
                            lemma_after_pours(h1, path@, path@.len() as int);
                            assert(path@.take(path@.len() as int) =~= path@);
                            assert(after_pours(start, path@) == Some(x));
                            assert(reachable_from(start, x));
                            lemma_board_print_len(after.bottles@);
                            assert forall|k: int| 0 <= k < prints.len() implies prints[k] != print@ by {
                                assert(old_seen[k]@ == prints[k]);
                            }
                            assert(x == after_pour(
                                h0.states[h0.length as int],
                                st0.last().0@[st0.last().1 as int],
                            ));
                            lemma_walk_push(
                                start,
                                rows,
                                h0,
                                h1,
                                prints,
                                reps,
                                st0,
                                at,
                                print@,
                                stack@.last().0,
                            );
                            assert(stack@ =~= st0.drop_last().push(
                                (st0.last().0, (st0.last().1 + 1) as usize),
                            ).push((stack@.last().0, 0usize)));
                            at = at.push(prints.len() as int);
                            prints = prints.push(print@);
                            reps = reps.push(x);
                            assert forall|k: int| 0 <= k < seen@.len() implies (#[trigger] seen@[k])@
                                == prints[k] by {
                                if k < old_seen.len() {
                                    assert(seen@[k] == old_seen[k]);
                                }
                            }
                            lemma_walk_prints(start, rows, h1, prints, reps, stack@, at);
                        }
                    }
                },
                Err(_) => {
                    assert(false);
                },
            }
        }
    }
    proof {
        if prints_apart(start, rows) {
            assert(stack@ =~= Seq::<(Vec<(u8, u8)>, usize)>::empty());
            lemma_walk_exhausted(start, rows, session.history@, prints, reps, at);
        }
        if first_hit {
            assert(steps == 1);
            assert(path@.len() == seq![legal_pairs(start)[0]].len());
        }
    }
    None
}
} // verus!
