//! What the board shows of a state: a view of each bottle and of the groups,
//! and what a pour changed, for the animation to play.
use vstd::prelude::*;

use crate::layout::{Layout, bottle_position_view};
use crate::state::{
    BOTTLE_COUNT, Move, MoveView, Pours, State, StateView, can_move_from_view, curtain_groups_upto,
    dedup_seq, frozen_groups_upto, is_flag_span, index_slot, item_index, lock_groups_from,
    solved_view, to_index,
};

verus! {

/// One item as the board shows it.
#[derive(Clone, Copy, PartialEq, Eq, Debug)]
pub struct ItemView {
    pub color: u8,
    pub hidden: bool,
    pub locked: bool,
    /// The item index of this item when it holds a key, `0` otherwise.
    pub key: u16,
}

/// The board lines a bottle stands on, as `[start, end)`.
#[derive(Clone, Copy, PartialEq, Eq, Debug)]
pub struct Lines {
    pub start: u8,
    pub end: u8,
}

/// One bottle as the board shows it.
#[derive(Clone, PartialEq, Eq, Debug)]
pub struct BottleView {
    pub id: u8,
    pub lines: Lines,
    pub repr_column: u8,
    pub capacity: u8,
    pub items: Vec<ItemView>,
    pub finalized: bool,
    pub immovable: bool,
    pub pluggable: bool,
    pub plugged: bool,
    pub frozen: bool,
    pub behind_curtain: bool,
    pub safe_counter: u8,
    pub locked: bool,
    pub filter_color: Option<u8>,
    pub color_curtain: Option<u8>,
    pub can_move_from: bool,
    pub interactable: bool,
}

/// Where a bottle stands and how much it holds: what its drawing is sized by.
#[derive(Clone, Copy, PartialEq, Eq, Debug)]
pub struct Slot {
    pub lines: Lines,
    pub repr_column: u8,
    pub capacity: u8,
}

/// The board as it shows a state.
#[derive(Clone)]
pub struct BoardView {
    pub bottles: Vec<BottleView>,
    pub frozen_ranges: Vec<(u8, u8)>,
    pub curtain_ranges: Vec<(u8, u8)>,
    pub lock_groups: Vec<(u16, (u8, u8))>,
    pub solved: bool,
    pub stuck: bool,
    pub pours: Option<Pours>,
}

/// Item `i` of bottle `b` as the board shows it.
pub open spec fn item_view_of(v: StateView, b: int, i: int) -> ItemView {
    ItemView {
        color: v.content[b][i],
        hidden: v.hidden[b][i],
        locked: v.item_locked[b][i],
        key: if v.has_key[b][i] {
            item_index(b, i) as u16
        } else {
            0
        },
    }
}

/// The color curtain that hides bottle `b`, if one is down.
pub open spec fn shown_color_curtain(v: StateView, b: int) -> Option<u8> {
    if v.color_curtain_active[b] && v.color_curtain[b] != 0 {
        Some(v.color_curtain[b])
    } else {
        None
    }
}

/// Whether `bv` shows bottle `b` of `v`, placed as the board `rows` places it.
pub open spec fn shows_bottle(v: StateView, rows: Seq<Seq<u8>>, bv: BottleView, b: int) -> bool {
    let pos = bottle_position_view(rows, b)->0;
    &&& bv.id == b
    &&& bv.lines == (Lines { start: pos.0.0, end: pos.0.1 })
    &&& bv.repr_column == pos.1
    &&& bv.capacity == v.capacity[b]
    &&& bv.items@ == Seq::new(v.height[b] as nat, |i: int| item_view_of(v, b, i))
    &&& bv.finalized == v.finalized[b]
    &&& bv.immovable == v.immovable[b]
    &&& bv.pluggable == v.pluggable[b]
    &&& bv.plugged == v.plugged[b]
    &&& bv.frozen == v.frozen[b]
    &&& bv.behind_curtain == v.behind_curtain[b]
    &&& bv.safe_counter == v.safe_counter[b]
    &&& bv.locked == v.bottle_locked[b]
    &&& bv.filter_color == if v.bottle_color[b] != 0 {
        Some(v.bottle_color[b])
    } else {
        None
    }
    &&& bv.color_curtain == shown_color_curtain(v, b)
    &&& bv.can_move_from == can_move_from_view(v, b)
    &&& bv.interactable == (!v.behind_curtain[b] && v.safe_counter[b] == 0 && !v.bottle_locked[b]
        && shown_color_curtain(v, b) is None)
}

/// Whether `r` is the board as it shows `v` on the board `rows`: each
/// bottle in its place, the freezing, curtain and lock groups, whether the
/// puzzle is solved or stuck, and the legal pours.
pub open spec fn shows_state(r: BoardView, v: StateView, rows: Seq<Seq<u8>>) -> bool {
    &&& r.bottles@.len() == v.bottle_count
    &&& forall|i: int|
        0 <= i < r.bottles@.len() ==> shows_bottle(v, rows, #[trigger] r.bottles@[i], i + 1)
    &&& r.frozen_ranges@ == dedup_seq(frozen_groups_upto(v, v.bottle_count + 1 as int))
    &&& r.curtain_ranges@ == curtain_groups_upto(v, v.bottle_count as int)
    &&& r.lock_groups@ == lock_groups_from(v, 1)
    &&& r.solved == solved_view(v)
    &&& (r.pours is None <==> solved_view(v))
    &&& (r.pours matches Some(p) ==> forall|f: int, t: int|
        0 <= f < 32 && 0 <= t < 32 ==> #[trigger] p.spec_has(f, t) == crate::state::pour_allowed(
            v,
            f,
            t,
        ))
    &&& r.stuck == (r.pours matches Some(p) && forall|f: int, t: int|
        0 <= f < 32 && 0 <= t < 32 ==> !#[trigger] p.spec_has(f, t))
}

/// Whether every bottle of `v` has a place on the board `rows`.
pub open spec fn board_places(v: StateView, rows: Seq<Seq<u8>>) -> bool {
    forall|b: int| 1 <= b <= v.bottle_count ==> #[trigger] bottle_position_view(rows, b) is Some
}

/// The first position, from `k` on, of the bottle view with id `id`.
pub open spec fn find_bottle(bs: Seq<BottleView>, id: u8, k: int) -> int
    decreases bs.len() - k,
{
    if k < 0 || k >= bs.len() {
        bs.len() as int
    } else if bs[k].id == id {
        k
    } else {
        find_bottle(bs, id, k + 1)
    }
}

/// Whether some bottle view has id `id`.
pub open spec fn has_bottle(bs: Seq<BottleView>, id: u8) -> bool {
    exists|i: int| 0 <= i < bs.len() && (#[trigger] bs[i]).id == id
}

proof fn lemma_find_bottle(bs: Seq<BottleView>, id: u8, k: int)
    requires
        0 <= k <= bs.len(),
    ensures
        k <= find_bottle(bs, id, k) <= bs.len(),
        find_bottle(bs, id, k) < bs.len() ==> bs[find_bottle(bs, id, k)].id == id,
        (exists|i: int| k <= i < bs.len() && (#[trigger] bs[i]).id == id) ==> find_bottle(bs, id, k)
            < bs.len(),
    decreases bs.len() - k,
{
    if k < bs.len() && bs[k].id != id {
        lemma_find_bottle(bs, id, k + 1);
        if exists|i: int| k <= i < bs.len() && (#[trigger] bs[i]).id == id {
            let i = choose|i: int| k <= i < bs.len() && (#[trigger] bs[i]).id == id;
            assert(i != k);
        }
    }
}

/// The view of bottle `id`.
fn bottle(state: &State, layout: &Layout, id: u8) -> (r: BottleView)
    requires
        state.wf(),
        1 <= id <= state@.bottle_count,
        bottle_position_view(layout@, id as int) is Some,
    ensures
        shows_bottle(state@, layout@, r, id as int),
{
    let ghost v = state@;
    let (lines, repr_column) = match layout.bottle_position(id) {
        Some(p) => p,
        None => (
            (0, 0),
            0,
        ),
    };
    let height = state.get_height(id);
    let mut items: Vec<ItemView> = Vec::new();
    let mut item: u8 = 0;
    assert(v.height[id as int] <= v.capacity[id as int] <= 16);
    while item < height
        invariant
            state.wf(),
            v == state@,
            1 <= id < BOTTLE_COUNT,
            height == v.height[id as int],
            height <= 16,
            0 <= item <= height,
            items@ == Seq::new(item as nat, |i: int| item_view_of(v, id as int, i)),
        decreases height - item,
    {
        let key = if state.get_item_has_key(id, item) {
            to_index(id, item)
        } else {
            0
        };
        items.push(
            ItemView {
                color: state.get_color(id, item),
                hidden: state.get_item_hidden(id, item),
                locked: state.get_item_locked(id, item),
                key,
            },
        );
        item = item + 1;
        assert(items@ =~= Seq::new(item as nat, |i: int| item_view_of(v, id as int, i)));
    }
    let behind_curtain = state.get_behind_curtain(id);
    let safe_counter = state.get_safe_counter(id);
    let locked = state.get_bottle_locked(id);
    let curtain_color = state.get_color_curtain(id);
    let color_curtain = if state.get_color_curtain_active(id) && curtain_color != 0 {
        Some(curtain_color)
    } else {
        None
    };
    let filter = state.get_bottle_color(id);
    let filter_color = if filter != 0 {
        Some(filter)
    } else {
        None
    };
    BottleView {
        id,
        lines: Lines { start: lines.0, end: lines.1 },
        repr_column,
        capacity: state.get_capacity(id),
        items,
        finalized: state.get_bottle_finalized(id),
        immovable: state.get_bottle_immovable(id),
        pluggable: state.get_pluggable_bottle(id),
        plugged: state.get_bottle_plugged(id),
        frozen: state.get_frozen(id),
        behind_curtain,
        safe_counter,
        locked,
        filter_color,
        color_curtain,
        can_move_from: state.can_move_from(id),
        interactable: !behind_curtain && safe_counter == 0 && !locked && color_curtain.is_none(),
    }
}

impl BottleView {
    /// How many board lines the bottle spans.
    pub fn line_span(&self) -> (r: u8)
        requires
            self.lines.start <= self.lines.end,
        ensures
            r == self.lines.end - self.lines.start,
    {
        self.lines.end - self.lines.start
    }

    /// Where the bottle stands and how much it holds.
    pub fn slot(&self) -> (r: Slot)
        ensures
            r == (Slot { lines: self.lines, repr_column: self.repr_column, capacity: self.capacity }),
    {
        Slot { lines: self.lines, repr_column: self.repr_column, capacity: self.capacity }
    }
}

/// The slot of a bottle view.
pub open spec fn slot_of(b: BottleView) -> Slot {
    Slot { lines: b.lines, repr_column: b.repr_column, capacity: b.capacity }
}

impl BoardView {
    /// The view of `state` on the board `layout`.
    pub fn build(state: &State, layout: &Layout) -> (r: Self)
        requires
            state.wf(),
            board_places(state@, layout@),
        ensures
            shows_state(r, state@, layout@),
    {
        let count = state.bottle_count();
        let mut bottles: Vec<BottleView> = Vec::new();
        let mut id: u8 = 1;
        while id <= count
            invariant
                state.wf(),
                board_places(state@, layout@),
                count == state@.bottle_count,
                1 <= id <= count + 1,
                bottles@.len() == id - 1,
                forall|i: int|
                    0 <= i < bottles@.len() ==> shows_bottle(
                        state@,
                        layout@,
                        #[trigger] bottles@[i],
                        i + 1,
                    ),
            decreases count + 1 - id,
        {
            let view = bottle(state, layout, id);
            bottles.push(view);
            id = id + 1;
        }
        let pours = state.pours();
        let stuck = match pours {
            Some(p) => p.is_empty(),
            None => false,
        };
        BoardView {
            bottles,
            frozen_ranges: state.get_frozen_ranges(),
            curtain_ranges: state.get_curtain_ranges(),
            lock_groups: state.get_lock_group_ranges(),
            solved: state.solved(),
            stuck,
            pours,
        }
    }

    /// Whether pouring from `from` into `to` is possible.
    pub fn can_pour(&self, from: u8, to: u8) -> (r: bool)
        requires
            1 <= from < BOTTLE_COUNT,
            1 <= to < BOTTLE_COUNT,
        ensures
            r == (self.pours matches Some(p) && p.spec_has(from as int, to as int)),
    {
        match self.pours {
            Some(p) => p.has(from, to),
            None => false,
        }
    }

    /// The slots of all bottles, in the order of their views.
    pub fn slots(&self) -> (r: Vec<Slot>)
        ensures
            r@ == self.bottles@.map_values(|b: BottleView| slot_of(b)),
    {
        let mut out: Vec<Slot> = Vec::new();
        let mut k: usize = 0;
        while k < self.bottles.len()
            invariant
                0 <= k <= self.bottles@.len(),
                out@ == self.bottles@.take(k as int).map_values(|b: BottleView| slot_of(b)),
            decreases self.bottles@.len() - k,
        {
            out.push(self.bottles[k].slot());
            k = k + 1;
            assert(out@ =~= self.bottles@.take(k as int).map_values(|b: BottleView| slot_of(b)));
        }
        assert(self.bottles@.take(k as int) =~= self.bottles@);
        out
    }

    /// The view of bottle `id`.
    pub fn get(&self, id: u8) -> (r: &BottleView)
        requires
            has_bottle(self.bottles@, id),
        ensures
            *r == self.bottles@[find_bottle(self.bottles@, id, 0)],
            r.id == id,
    {
        proof {
            lemma_find_bottle(self.bottles@, id, 0);
        }
        let mut k: usize = 0;
        while k < self.bottles.len() && self.bottles[k].id != id
            invariant
                0 <= k <= self.bottles@.len(),
                find_bottle(self.bottles@, id, 0) == find_bottle(self.bottles@, id, k as int),
                find_bottle(self.bottles@, id, 0) < self.bottles@.len(),
            decreases self.bottles@.len() - k,
        {
            k = k + 1;
        }
        &self.bottles[k]
    }
}

} // verus!

verus! {

/// Which change between two views of a bottle `changed` looks for: a
/// curtain lifted, a safe opened, or a plug put in or taken out.
pub open spec fn change_holds(kind: u8, before: BottleView, after: BottleView) -> bool {
    if kind == 0 {
        before.behind_curtain && !after.behind_curtain
    } else if kind == 1 {
        before.safe_counter > 0 && after.safe_counter == 0
    } else {
        before.plugged != after.plugged
    }
}

/// The ids, among the first `k` bottles of `before`, of those for which the
/// change of `kind` happened in `after`.
pub open spec fn changed_upto(
    before: Seq<BottleView>,
    after: Seq<BottleView>,
    kind: u8,
    k: int,
) -> Seq<u8>
    decreases k,
{
    if k <= 0 {
        Seq::empty()
    } else {
        let rest = changed_upto(before, after, kind, k - 1);
        let b = before[k - 1];
        if change_holds(kind, b, after[find_bottle(after, b.id, 0)]) {
            rest.push(b.id)
        } else {
            rest
        }
    }
}

/// Whether every bottle of `before` also has a view in `after`.
pub open spec fn views_match(before: Seq<BottleView>, after: Seq<BottleView>) -> bool {
    forall|i: int| 0 <= i < before.len() ==> has_bottle(after, (#[trigger] before[i]).id)
}

/// The ids of the bottles for which the change of `kind` happened.
fn changed(before: &BoardView, after: &BoardView, kind: u8) -> (r: Vec<u8>)
    requires
        views_match(before.bottles@, after.bottles@),
    ensures
        r@ == changed_upto(before.bottles@, after.bottles@, kind, before.bottles@.len() as int),
{
    let mut out: Vec<u8> = Vec::new();
    let mut k: usize = 0;
    while k < before.bottles.len()
        invariant
            views_match(before.bottles@, after.bottles@),
            0 <= k <= before.bottles@.len(),
            out@ == changed_upto(before.bottles@, after.bottles@, kind, k as int),
        decreases before.bottles@.len() - k,
    {
        let b = &before.bottles[k];
        let a = after.get(b.id);
        let holds = if kind == 0 {
            b.behind_curtain && !a.behind_curtain
        } else if kind == 1 {
            b.safe_counter > 0 && a.safe_counter == 0
        } else {
            b.plugged != a.plugged
        };
        if holds {
            out.push(b.id);
        }
        k = k + 1;
    }
    out
}

/// The ids, among the first `k` bottles of `bs`, of those whose safe the
/// move counts down.
pub open spec fn ticked_upto(bs: Seq<BottleView>, m: MoveView, k: int) -> Seq<u8>
    decreases k,
{
    if k <= 0 {
        Seq::empty()
    } else {
        let rest = ticked_upto(bs, m, k - 1);
        if m.decrement_safe[bs[k - 1].id as int] {
            rest.push(bs[k - 1].id)
        } else {
            rest
        }
    }
}

/// The ids, among the first `k` bottles of `bs`, of those behind a color
/// curtain that the move lifts.
pub open spec fn color_lifted_upto(bs: Seq<BottleView>, m: MoveView, k: int) -> Seq<u8>
    decreases k,
{
    if k <= 0 {
        Seq::empty()
    } else {
        let rest = color_lifted_upto(bs, m, k - 1);
        if bs[k - 1].color_curtain is Some && m.lift_color_curtain[bs[k - 1].id as int] {
            rest.push(bs[k - 1].id)
        } else {
            rest
        }
    }
}

/// Everything the animation needs to know about a pour that has already
/// been applied to the state.
#[derive(Debug)]
pub struct MovePlan {
    pub from: u8,
    pub to: u8,
    pub count: u8,
    pub color: u8,
    pub from_height_before: u8,
    pub to_height_before: u8,
    pub finalize: Option<u8>,
    pub reveal_item: Option<(u8, u8)>,
    pub unlock_item: Option<(u8, u8)>,
    pub unplug: Option<u8>,
    pub plug_toggled: Vec<u8>,
    pub unfreeze: Option<(u8, u8)>,
    pub curtains_lifted: Vec<u8>,
    pub safe_ticks: Vec<u8>,
    pub safes_opened: Vec<u8>,
    pub key_used: Option<(u8, u8)>,
    pub unlock_run: Option<(u8, u8)>,
    pub color_curtains_lifted: Vec<u8>,
}

/// Whether some flag of `f` is set among the bottle slots.
pub open spec fn any_set(f: Seq<bool>) -> bool {
    exists|i: int| 0 <= i < 32 && #[trigger] f[i]
}

impl MovePlan {
    /// The plan of the pour `mov`, seen on the board before and after it.
    pub fn build(mov: &Move, before: &BoardView, after: &BoardView) -> (r: Self)
        requires
            has_bottle(before.bottles@, mov@.from),
            has_bottle(before.bottles@, mov@.to),
            views_match(before.bottles@, after.bottles@),
            forall|i: int| 0 <= i < before.bottles@.len() ==> (#[trigger] before.bottles@[i]).id
                < BOTTLE_COUNT,
        ensures
            r.from == mov@.from,
            r.to == mov@.to,
            r.count == mov@.count,
            r.color == mov@.color,
            r.from_height_before == before.bottles@[find_bottle(
                before.bottles@,
                mov@.from,
                0,
            )].items@.len() as u8,
            r.to_height_before == before.bottles@[find_bottle(
                before.bottles@,
                mov@.to,
                0,
            )].items@.len() as u8,
            r.finalize == if mov@.finalize != 0 {
                Some(mov@.finalize)
            } else {
                None
            },
            r.reveal_item == index_slot(mov@.show_item),
            r.unlock_item == index_slot(mov@.unlock_item),
            r.unplug == if mov@.unplug != 0 {
                Some(mov@.unplug)
            } else {
                None
            },
            r.plug_toggled@ == changed_upto(
                before.bottles@,
                after.bottles@,
                2,
                before.bottles@.len() as int,
            ),
            is_flag_span(mov@.unfreeze_run, r.unfreeze),
            r.curtains_lifted@ == if any_set(mov@.lift_curtain) {
                changed_upto(before.bottles@, after.bottles@, 0, before.bottles@.len() as int)
            } else {
                Seq::empty()
            },
            r.safe_ticks@ == if any_set(mov@.decrement_safe) {
                ticked_upto(before.bottles@, mov@, before.bottles@.len() as int)
            } else {
                Seq::empty()
            },
            r.safes_opened@ == if any_set(mov@.decrement_safe) {
                changed_upto(before.bottles@, after.bottles@, 1, before.bottles@.len() as int)
            } else {
                Seq::empty()
            },
            r.key_used == index_slot(mov@.remove_key),
            is_flag_span(mov@.unlock_bottle, r.unlock_run),
            r.color_curtains_lifted@ == if any_set(mov@.lift_color_curtain) {
                color_lifted_upto(before.bottles@, mov@, before.bottles@.len() as int)
            } else {
                Seq::empty()
            },
    {
        let from = mov.from_bottle();
        let to = mov.to_bottle();
        let curtains_lifted = if mov.lift_curtains() {
            changed(before, after, 0)
        } else {
            Vec::new()
        };
        let (safe_ticks, safes_opened) = if mov.decrement_safe_counters() {
            let mut ticks: Vec<u8> = Vec::new();
            let mut k: usize = 0;
            while k < before.bottles.len()
                invariant
                    forall|i: int| 0 <= i < before.bottles@.len() ==> (
                    #[trigger] before.bottles@[i]).id < BOTTLE_COUNT,
                    0 <= k <= before.bottles@.len(),
                    ticks@ == ticked_upto(before.bottles@, mov@, k as int),
                decreases before.bottles@.len() - k,
            {
                let id = before.bottles[k].id;
                if mov.decrement_safe_counter(id) {
                    ticks.push(id);
                }
                k = k + 1;
            }
            (ticks, changed(before, after, 1))
        } else {
            (Vec::new(), Vec::new())
        };
        let color_curtains_lifted = if mov.lift_color_curtains() {
            let mut lifted: Vec<u8> = Vec::new();
            let mut k: usize = 0;
            while k < before.bottles.len()
                invariant
                    forall|i: int| 0 <= i < before.bottles@.len() ==> (
                    #[trigger] before.bottles@[i]).id < BOTTLE_COUNT,
                    0 <= k <= before.bottles@.len(),
                    lifted@ == color_lifted_upto(before.bottles@, mov@, k as int),
                decreases before.bottles@.len() - k,
            {
                let bottle = &before.bottles[k];
                if bottle.color_curtain.is_some() && mov.lift_color_curtain(bottle.id) {
                    lifted.push(bottle.id);
                }
                k = k + 1;
            }
            lifted
        } else {
            Vec::new()
        };
        MovePlan {
            from,
            to,
            count: mov.count(),
            color: mov.color(),
            from_height_before: before.get(from).items.len() as u8,
            to_height_before: before.get(to).items.len() as u8,
            finalize: mov.finalize_bottle(),
            reveal_item: mov.show_item(),
            unlock_item: mov.unlock_item(),
            unplug: mov.unplug_bottle(),
            plug_toggled: changed(before, after, 2),
            unfreeze: mov.unfreeze_run(),
            curtains_lifted,
            safe_ticks,
            safes_opened,
            key_used: mov.remove_key(),
            unlock_run: mov.unlock_run(),
            color_curtains_lifted,
        }
    }
}

} // verus!

verus! {

/// The ids of the bottles of `bs`, in order, for which the change of
/// `kind` happened in `after`.
spec fn changed_ids(bs: Seq<BottleView>, after: Seq<BottleView>, kind: u8) -> Seq<u8> {
    bs.filter_map(
        |b: BottleView|
            if change_holds(kind, b, after[find_bottle(after, b.id, 0)]) {
                Some(b.id)
            } else {
                None
            },
    )
}

proof fn lemma_changed_ids(before: Seq<BottleView>, after: Seq<BottleView>, kind: u8, k: int)
    requires
        0 <= k <= before.len(),
    ensures
        changed_upto(before, after, kind, k) == changed_ids(before.take(k), after, kind),
    decreases k,
{
    if k > 0 {
        lemma_changed_ids(before, after, kind, k - 1);
        assert(before.take(k).drop_last() =~= before.take(k - 1));
        assert(before.take(k).last() == before[k - 1]);
    }
}

/// The bottles a pour is shown to bring out from behind a curtain are, in
/// board order, exactly those that were behind a curtain before it and are
/// no longer behind one after it.
pub proof fn law_curtains_lifted(before: Seq<BottleView>, after: Seq<BottleView>)
    ensures
        changed_upto(before, after, 0, before.len() as int) == before.filter_map(
            |b: BottleView|
                if b.behind_curtain && !after[find_bottle(after, b.id, 0)].behind_curtain {
                    Some(b.id)
                } else {
                    None
                },
        ),
{
    lemma_changed_ids(before, after, 0, before.len() as int);
    assert(before.take(before.len() as int) =~= before);
    let f = |b: BottleView|
        if change_holds(0, b, after[find_bottle(after, b.id, 0)]) {
            Some(b.id)
        } else {
            None
        };
    let g = |b: BottleView|
        if b.behind_curtain && !after[find_bottle(after, b.id, 0)].behind_curtain {
            Some(b.id)
        } else {
            None
        };
    assert(f =~= g);
}

/// The bottles a pour is shown to open a safe for are, in board order,
/// exactly those whose safe counter was above zero before it and is zero
/// after it.
pub proof fn law_safes_opened(before: Seq<BottleView>, after: Seq<BottleView>)
    ensures
        changed_upto(before, after, 1, before.len() as int) == before.filter_map(
            |b: BottleView|
                if b.safe_counter > 0 && after[find_bottle(after, b.id, 0)].safe_counter == 0 {
                    Some(b.id)
                } else {
                    None
                },
        ),
{
    lemma_changed_ids(before, after, 1, before.len() as int);
    assert(before.take(before.len() as int) =~= before);
    let f = |b: BottleView|
        if change_holds(1, b, after[find_bottle(after, b.id, 0)]) {
            Some(b.id)
        } else {
            None
        };
    let g = |b: BottleView|
        if b.safe_counter > 0 && after[find_bottle(after, b.id, 0)].safe_counter == 0 {
            Some(b.id)
        } else {
            None
        };
    assert(f =~= g);
}

/// The bottles a pour is shown to plug or unplug are, in board order,
/// exactly those whose plug differs before and after it.
pub proof fn law_plugs_toggled(before: Seq<BottleView>, after: Seq<BottleView>)
    ensures
        changed_upto(before, after, 2, before.len() as int) == before.filter_map(
            |b: BottleView|
                if b.plugged != after[find_bottle(after, b.id, 0)].plugged {
                    Some(b.id)
                } else {
                    None
                },
        ),
{
    lemma_changed_ids(before, after, 2, before.len() as int);
    assert(before.take(before.len() as int) =~= before);
    let f = |b: BottleView|
        if change_holds(2, b, after[find_bottle(after, b.id, 0)]) {
            Some(b.id)
        } else {
            None
        };
    let g = |b: BottleView|
        if b.plugged != after[find_bottle(after, b.id, 0)].plugged {
            Some(b.id)
        } else {
            None
        };
    assert(f =~= g);
}

} // verus!
