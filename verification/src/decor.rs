//! Which safes the board draws behind one door: neighbouring safes on one
//! line with equal counters share it.
use vstd::prelude::*;

use crate::layout::{
    board_shape, bottle_char, bottle_position_view, first_pos, lemma_bottle_char_injective,
    lemma_first_pos_cell, lemma_layout_places, lemma_no_adjacent_bottles, validate_error,
};
use crate::reachable::{counted_down, lemma_listed_move, lemma_listed_move_safes, reach_inv};
use crate::search::{is_path, leads_to, one_move};
use crate::starting::{StartingView, lemma_start_reach, start_error, start_state};
use crate::state::{StateView, apply_view, moves_view};
use crate::view::{BoardView, BottleView, shows_bottle};

verus! {

/// Whether bottle `a` stands before bottle `b` on the board: on an earlier
/// line, or on the same line in an earlier column.
pub open spec fn place_before(a: BottleView, b: BottleView) -> bool {
    a.lines.start < b.lines.start || (a.lines.start == b.lines.start && a.repr_column
        < b.repr_column)
}

/// The first position in `r`, from `k` on, whose bottle stands after the
/// bottle at position `x` of `bs`.
pub open spec fn place_pos(bs: Seq<BottleView>, r: Seq<int>, x: int, k: int) -> int
    decreases r.len() - k,
{
    if k < 0 || k >= r.len() {
        r.len() as int
    } else if place_before(bs[x], bs[r[k]]) {
        k
    } else {
        place_pos(bs, r, x, k + 1)
    }
}

/// The positions `s` of `bs` in place order; positions whose bottles stand
/// in the same place keep their order.
pub open spec fn by_place(bs: Seq<BottleView>, s: Seq<int>) -> Seq<int>
    decreases s.len(),
{
    if s.len() == 0 {
        s
    } else {
        let r = by_place(bs, s.drop_last());
        r.insert(place_pos(bs, r, s.last(), 0), s.last())
    }
}

/// The positions `0..n`.
pub open spec fn positions(n: int) -> Seq<int> {
    Seq::new(n as nat, |i: int| i)
}

/// Whether the bottle at position `i` of `bs` is a safe.
pub open spec fn is_safe(bs: Seq<BottleView>, i: int) -> bool {
    bs[i].safe_counter > 0
}

/// Whether a position of `bs` holds a safe, as a predicate.
pub open spec fn safe_at(bs: Seq<BottleView>) -> spec_fn(int) -> bool {
    |i: int| is_safe(bs, i)
}

/// The positions of the safes of `bs`, in place order.
pub open spec fn sorted_safes(bs: Seq<BottleView>) -> Seq<int> {
    by_place(bs, positions(bs.len() as int)).filter(safe_at(bs))
}

/// Whether safe `b`, just after safe `a` in place order, goes behind the
/// same door: both one line high on the same line, `b` in the next column
/// but one, with equal counters.
pub open spec fn joins(a: BottleView, b: BottleView) -> bool {
    &&& a.lines.end - a.lines.start == 1
    &&& b.lines.end - b.lines.start == 1
    &&& a.lines.start == b.lines.start
    &&& a.repr_column + 2 == b.repr_column
    &&& a.safe_counter == b.safe_counter
}

/// The groups of the safes at positions `s`, taken in turn: each one joins
/// the group of the safe before it when it joins that safe, and starts a
/// group of its own otherwise.
pub open spec fn fold_groups(bs: Seq<BottleView>, s: Seq<int>) -> Seq<Seq<u8>>
    decreases s.len(),
{
    if s.len() == 0 {
        Seq::empty()
    } else {
        let g = fold_groups(bs, s.drop_last());
        let x = s.last();
        if s.len() >= 2 && joins(bs[s[s.len() - 2]], bs[x]) {
            g.update(g.len() - 1, g.last().push(bs[x].id))
        } else {
            g.push(seq![bs[x].id])
        }
    }
}

/// The ids of the safes behind each door, doors in place order.
pub open spec fn safe_groups_view(bs: Seq<BottleView>) -> Seq<Seq<u8>> {
    fold_groups(bs, sorted_safes(bs))
}

/// Positions as mathematical integers.
pub open spec fn index_view(s: Seq<usize>) -> Seq<int> {
    s.map_values(|i: usize| i as int)
}

/// Groups as sequences.
pub open spec fn groups_view(g: Seq<Vec<u8>>) -> Seq<Seq<u8>> {
    g.map_values(|v: Vec<u8>| v@)
}

fn stands_before(a: &BottleView, b: &BottleView) -> (r: bool)
    ensures
        r == place_before(*a, *b),
{
    a.lines.start < b.lines.start || (a.lines.start == b.lines.start && a.repr_column
        < b.repr_column)
}

fn shares_door(a: &BottleView, b: &BottleView) -> (r: bool)
    ensures
        r == joins(*a, *b),
{
    let a_one = a.lines.end >= a.lines.start && a.lines.end - a.lines.start == 1;
    let b_one = b.lines.end >= b.lines.start && b.lines.end - b.lines.start == 1;
    let next = (a.repr_column as u16) + 2 == (b.repr_column as u16);
    a_one && b_one && a.lines.start == b.lines.start && next && a.safe_counter == b.safe_counter
}

/// The positions of the bottles of `view` in place order.
fn place_order(view: &BoardView) -> (r: Vec<usize>)
    ensures
        index_view(r@) == by_place(view.bottles@, positions(view.bottles@.len() as int)),
        forall|k: int| 0 <= k < r@.len() ==> #[trigger] r@[k] < view.bottles@.len(),
{
    let ghost bs = view.bottles@;
    let n = view.bottles.len();
    let mut order: Vec<usize> = Vec::new();
    let mut i: usize = 0;
    while i < n
        invariant
            bs == view.bottles@,
            n == bs.len(),
            0 <= i <= n,
            index_view(order@) == by_place(bs, positions(i as int)),
            forall|k: int| 0 <= k < order@.len() ==> #[trigger] order@[k] < n,
        decreases n - i,
    {
        let ghost r = index_view(order@);
        let mut p: usize = 0;
        while p < order.len() && !stands_before(&view.bottles[i], &view.bottles[order[p]])
            invariant
                bs == view.bottles@,
                n == bs.len(),
                i < n,
                0 <= p <= order@.len(),
                r == index_view(order@),
                forall|k: int| 0 <= k < order@.len() ==> #[trigger] order@[k] < n,
                place_pos(bs, r, i as int, 0) == place_pos(bs, r, i as int, p as int),
            decreases order@.len() - p,
        {
            p = p + 1;
        }
        order.insert(p, i);
        proof {
            assert(positions(i + 1).drop_last() =~= positions(i as int));
            assert(positions(i + 1).last() == i);
            assert(index_view(order@) =~= r.insert(p as int, i as int));
        }
        i = i + 1;
    }
    order
}

/// The ids of the safes behind each door, doors in place order: safes are
/// taken in place order, and each one goes behind the door of the safe
/// before it when both are one line high, stand on the same line in columns
/// two apart and have equal counters.
pub fn safe_groups(view: &BoardView) -> (r: Vec<Vec<u8>>)
    ensures
        groups_view(r@) == safe_groups_view(view.bottles@),
{
    let ghost bs = view.bottles@;
    let order = place_order(view);
    let ghost all = index_view(order@);
    let mut safes: Vec<usize> = Vec::new();
    let mut k: usize = 0;
    while k < order.len()
        invariant
            bs == view.bottles@,
            all == index_view(order@),
            0 <= k <= order@.len(),
            index_view(safes@) == all.take(k as int).filter(safe_at(bs)),
            forall|j: int| 0 <= j < order@.len() ==> #[trigger] order@[j] < bs.len(),
            forall|j: int| 0 <= j < safes@.len() ==> #[trigger] safes@[j] < bs.len(),
        decreases order@.len() - k,
    {
        let i = order[k];
        let ghost before = index_view(safes@);
        proof {
            assert(all.take(k + 1).drop_last() =~= all.take(k as int));
            assert(all.take(k + 1).last() == i as int);
            reveal(Seq::filter);
            assert(all.take(k + 1).filter(safe_at(bs)) == if is_safe(bs, i as int) {
                before.push(i as int)
            } else {
                before
            });
        }
        if view.bottles[i].safe_counter > 0 {
            safes.push(i);
            assert(index_view(safes@) =~= before.push(i as int));
        } else {
            assert(index_view(safes@) =~= before);
        }
        k = k + 1;
    }
    assert(all.take(k as int) =~= all);
    let ghost s = index_view(safes@);
    let mut groups: Vec<Vec<u8>> = Vec::new();
    let mut j: usize = 0;
    while j < safes.len()
        invariant
            bs == view.bottles@,
            s == index_view(safes@),
            forall|t: int| 0 <= t < safes@.len() ==> #[trigger] safes@[t] < bs.len(),
            0 <= j <= safes@.len(),
            groups_view(groups@) == fold_groups(bs, s.take(j as int)),
            j > 0 ==> groups@.len() > 0,
        decreases safes@.len() - j,
    {
        let x = safes[j];
        let id = view.bottles[x].id;
        let ghost before = groups@;
        proof {
            assert(s.take(j + 1).drop_last() =~= s.take(j as int));
            assert(s.take(j + 1).last() == x);
        }
        if j > 0 && shares_door(&view.bottles[safes[j - 1]], &view.bottles[x]) {
            assert(s.take(j + 1)[j - 1] == s[j - 1]);
            let mut last = groups.pop().unwrap();
            let ghost old_last = last@;
            last.push(id);
            groups.push(last);
            assert(groups_view(groups@) =~= groups_view(before).update(
                groups_view(before).len() - 1,
                old_last.push(id),
            ));
        } else {
            let mut fresh: Vec<u8> = Vec::new();
            fresh.push(id);
            groups.push(fresh);
            assert(groups_view(groups@) =~= groups_view(before).push(seq![id]));
        }
        j = j + 1;
    }
    assert(s.take(j as int) =~= s);
    groups
}


/// The key of the lock group, among `groups` from `k` on, whose first
/// bottle is `first`, or zero when there is none.
pub open spec fn group_key_from(groups: Seq<(u16, (u8, u8))>, first: u8, k: int) -> u16
    decreases groups.len() - k,
{
    if k < 0 || k >= groups.len() {
        0
    } else if groups[k].1.0 == first {
        groups[k].0
    } else {
        group_key_from(groups, first, k + 1)
    }
}

/// The key of the lock group that starts at bottle `first`, or zero when no
/// lock group starts there.
pub fn key_of(view: &BoardView, first: u8) -> (r: u16)
    ensures
        r == group_key_from(view.lock_groups@, first, 0),
{
    let mut k: usize = 0;
    while k < view.lock_groups.len()
        invariant
            0 <= k <= view.lock_groups@.len(),
            group_key_from(view.lock_groups@, first, 0) == group_key_from(
                view.lock_groups@,
                first,
                k as int,
            ),
        decreases view.lock_groups@.len() - k,
    {
        let (key, range) = view.lock_groups[k];
        if range.0 == first {
            return key;
        }
        k = k + 1;
    }
    0
}

/// Whether `t` lists bottles in place order.
pub open spec fn in_place_order(bs: Seq<BottleView>, t: Seq<int>) -> bool {
    forall|i: int, j: int|
        0 <= i < j < t.len() ==> !place_before(#[trigger] bs[t[j]], #[trigger] bs[t[i]])
}

/// Whether `t` lists each of `s` once, and nothing else.
pub open spec fn lists_once(t: Seq<int>, s: Seq<int>) -> bool {
    &&& t.len() == s.len()
    &&& t.no_duplicates()
    &&& forall|i: int| 0 <= i < t.len() ==> s.contains(#[trigger] t[i])
    &&& forall|i: int| 0 <= i < s.len() ==> t.contains(#[trigger] s[i])
}

proof fn lemma_place_pos(bs: Seq<BottleView>, r: Seq<int>, x: int, k: int)
    requires
        0 <= k <= r.len(),
    ensures
        k <= place_pos(bs, r, x, k) <= r.len(),
        forall|i: int| k <= i < place_pos(bs, r, x, k) ==> !place_before(bs[x], #[trigger] bs[r[i]]),
        place_pos(bs, r, x, k) < r.len() ==> place_before(bs[x], bs[r[place_pos(bs, r, x, k)]]),
    decreases r.len() - k,
{
    if k < r.len() && !place_before(bs[x], bs[r[k]]) {
        lemma_place_pos(bs, r, x, k + 1);
    }
}

/// Place order lists each position once, in place order.
proof fn lemma_by_place(bs: Seq<BottleView>, s: Seq<int>)
    requires
        s.no_duplicates(),
    ensures
        lists_once(by_place(bs, s), s),
        in_place_order(bs, by_place(bs, s)),
    decreases s.len(),
{
    if s.len() > 0 {
        let s0 = s.drop_last();
        let x = s.last();
        assert(s0.no_duplicates());
        lemma_by_place(bs, s0);
        let r = by_place(bs, s0);
        lemma_place_pos(bs, r, x, 0);
        let p = place_pos(bs, r, x, 0);
        let t = r.insert(p, x);
        assert(t == by_place(bs, s));
        assert(!r.contains(x)) by {
            if r.contains(x) {
                let i = choose|i: int| 0 <= i < r.len() && r[i] == x;
                assert(s0.contains(r[i]));
                let j = choose|j: int| 0 <= j < s0.len() && s0[j] == x;
                assert(s[j] == s[s.len() - 1]);
            }
        }
        assert forall|i: int| 0 <= i < t.len() implies s.contains(#[trigger] t[i]) by {
            if i < p {
                assert(s0.contains(r[i]));
            } else if i > p {
                assert(s0.contains(r[i - 1]));
            } else {
                assert(s[s.len() - 1] == x);
            }
            if t[i] != x {
                let j = choose|j: int| 0 <= j < s0.len() && s0[j] == t[i];
                assert(s[j] == t[i]);
            }
        }
        assert forall|i: int| 0 <= i < s.len() implies t.contains(#[trigger] s[i]) by {
            if i < s.len() - 1 {
                assert(r.contains(s0[i]));
                let j = choose|j: int| 0 <= j < r.len() && r[j] == s0[i];
                if j < p {
                    assert(t[j] == s[i]);
                } else {
                    assert(t[j + 1] == s[i]);
                }
            } else {
                assert(t[p] == s[i]);
            }
        }
        assert forall|i: int, j: int| 0 <= i < t.len() && 0 <= j < t.len() && i != j implies t[i]
            != t[j] by {
            if i != p && j != p {
                let ri = if i < p { i } else { i - 1 };
                let rj = if j < p { j } else { j - 1 };
                assert(r[ri] != r[rj]);
            } else if i == p {
                let rj = if j < p { j } else { j - 1 };
                assert(r[rj] != x);
            } else {
                let ri = if i < p { i } else { i - 1 };
                assert(r[ri] != x);
            }
        }
        assert forall|i: int, j: int| 0 <= i < j < t.len() implies !place_before(
            #[trigger] bs[t[j]],
            #[trigger] bs[t[i]],
        ) by {
            if j < p {
                assert(!place_before(bs[r[j]], bs[r[i]]));
            } else if j == p {
                assert(!place_before(bs[x], bs[r[i]]));
            } else if i < p {
                assert(!place_before(bs[r[j - 1]], bs[r[i]]));
            } else if i == p {
                assert(place_before(bs[x], bs[r[p]]));
                if j - 1 > p {
                    assert(!place_before(bs[r[j - 1]], bs[r[p]]));
                }
            } else {
                assert(!place_before(bs[r[j - 1]], bs[r[i - 1]]));
            }
        }
    }
}

/// Whether two views of the board put each bottle in the same place.
pub open spec fn same_places(a: Seq<BottleView>, b: Seq<BottleView>) -> bool {
    &&& a.len() == b.len()
    &&& forall|i: int|
        0 <= i < a.len() ==> (#[trigger] a[i]).lines.start == b[i].lines.start
            && a[i].repr_column == b[i].repr_column
}

proof fn lemma_place_pos_same(a: Seq<BottleView>, b: Seq<BottleView>, r: Seq<int>, x: int, k: int)
    requires
        same_places(a, b),
        0 <= x < a.len(),
        forall|i: int| 0 <= i < r.len() ==> 0 <= #[trigger] r[i] < a.len(),
    ensures
        place_pos(a, r, x, k) == place_pos(b, r, x, k),
    decreases r.len() - k,
{
    if 0 <= k < r.len() {
        assert(a[r[k]].lines.start == b[r[k]].lines.start);
        assert(a[x].lines.start == b[x].lines.start);
        lemma_place_pos_same(a, b, r, x, k + 1);
    }
}

/// Place order depends on the places alone.
proof fn lemma_by_place_same(a: Seq<BottleView>, b: Seq<BottleView>, s: Seq<int>)
    requires
        same_places(a, b),
        s.no_duplicates(),
        forall|i: int| 0 <= i < s.len() ==> 0 <= #[trigger] s[i] < a.len(),
    ensures
        by_place(a, s) == by_place(b, s),
    decreases s.len(),
{
    if s.len() > 0 {
        let s0 = s.drop_last();
        assert(s0.no_duplicates());
        lemma_by_place_same(a, b, s0);
        lemma_by_place(a, s0);
        let r = by_place(a, s0);
        assert forall|i: int| 0 <= i < r.len() implies 0 <= #[trigger] r[i] < a.len() by {
            assert(s0.contains(r[i]));
        }
        lemma_place_pos_same(a, b, r, s.last(), 0);
    }
}


/// The groups of the safes among positions `t`, skipping the other
/// bottles: a safe joins the group before it only when the bottle just
/// before it in `t` is a safe it joins.
pub open spec fn fold_safes(bs: Seq<BottleView>, t: Seq<int>) -> Seq<Seq<u8>>
    decreases t.len(),
{
    if t.len() == 0 {
        Seq::empty()
    } else {
        let g = fold_safes(bs, t.drop_last());
        let x = t.last();
        if !is_safe(bs, x) {
            g
        } else if t.len() >= 2 && is_safe(bs, t[t.len() - 2]) && joins(bs[t[t.len() - 2]], bs[x]) {
            g.update(g.len() - 1, g.last().push(bs[x].id))
        } else {
            g.push(seq![bs[x].id])
        }
    }
}

/// Whether a safe of `t` joins only the bottle right before it in `t`.
pub open spec fn joins_only_next(bs: Seq<BottleView>, t: Seq<int>) -> bool {
    forall|i: int, j: int|
        0 <= i < j < t.len() && joins(#[trigger] bs[t[i]], #[trigger] bs[t[j]]) ==> j == i + 1
}

proof fn lemma_filter_last(bs: Seq<BottleView>, t: Seq<int>)
    ensures
        ({
            let f = t.filter(safe_at(bs));
            &&& f.len() > 0 ==> exists|j: int|
                0 <= j < t.len() && #[trigger] t[j] == f.last() && is_safe(bs, t[j])
            &&& t.len() > 0 && is_safe(bs, t.last()) ==> f.len() > 0 && f.last() == t.last()
        }),
    decreases t.len(),
{
    reveal(Seq::filter);
    if t.len() > 0 {
        lemma_filter_last(bs, t.drop_last());
        let f0 = t.drop_last().filter(safe_at(bs));
        if !is_safe(bs, t.last()) && f0.len() > 0 {
            let j = choose|j: int|
                0 <= j < t.drop_last().len() && #[trigger] t.drop_last()[j] == f0.last() && is_safe(
                    bs,
                    t.drop_last()[j],
                );
            assert(t[j] == f0.last());
        }
    }
}

/// A safe joins its predecessor among the safes the same way as the bottle
/// right before it, where safes join only the bottle right before them.
proof fn lemma_fold_groups_safes(bs: Seq<BottleView>, t: Seq<int>)
    requires
        joins_only_next(bs, t),
    ensures
        fold_groups(bs, t.filter(safe_at(bs))) == fold_safes(bs, t),
    decreases t.len(),
{
    reveal(Seq::filter);
    if t.len() > 0 {
        let t0 = t.drop_last();
        let x = t.last();
        let n = t.len();
        assert(joins_only_next(bs, t0)) by {
            assert forall|i: int, j: int|
                0 <= i < j < t0.len() && joins(#[trigger] bs[t0[i]], #[trigger] bs[t0[j]]) implies j
                == i + 1 by {
                assert(t0[i] == t[i] && t0[j] == t[j]);
            }
        }
        lemma_fold_groups_safes(bs, t0);
        let f0 = t0.filter(safe_at(bs));
        if is_safe(bs, x) {
            let f = f0.push(x);
            assert(t.filter(safe_at(bs)) == f);
            assert(f.drop_last() =~= f0);
            lemma_filter_last(bs, t0);
            let before = f0.len() >= 1 && joins(bs[f0.last()], bs[x]);
            let near = n >= 2 && is_safe(bs, t[n - 2]) && joins(bs[t[n - 2]], bs[x]);
            if near {
                assert(t0.last() == t[n - 2]);
            }
            if before {
                let j = choose|j: int|
                    0 <= j < t0.len() && #[trigger] t0[j] == f0.last() && is_safe(bs, t0[j]);
                assert(t[j] == t0[j]);
                assert(joins(bs[t[j]], bs[t[n - 1]]));
            }
            assert(before == near);
            if n >= 2 && f.len() >= 2 {
                assert(f[f.len() - 2] == f0.last());
            }
        }
    }
}

/// Whether `now` shows the bottles of `first` in the same places with the
/// same ids, with every counter `d` lower, down to zero.
pub open spec fn counted_down_view(first: Seq<BottleView>, now: Seq<BottleView>, d: int) -> bool {
    &&& same_places(first, now)
    &&& forall|i: int|
        0 <= i < first.len() ==> {
            &&& (#[trigger] now[i]).id == first[i].id
            &&& now[i].lines == first[i].lines
            &&& now[i].safe_counter == if first[i].safe_counter > d {
                first[i].safe_counter - d
            } else {
                0
            }
        }
}

/// Whether a group's first safe had a counter above `d` in `first`.
pub open spec fn above(first: Seq<BottleView>, d: int) -> spec_fn(Seq<u8>) -> bool {
    |g: Seq<u8>| g.len() > 0 && first[g[0] - 1].safe_counter > d
}

/// The groups of a board whose counters all went down by `d` are those of
/// the first board whose counters were above `d`.
proof fn lemma_fold_counted_down(first: Seq<BottleView>, now: Seq<BottleView>, d: int, t: Seq<int>)
    requires
        0 <= d,
        counted_down_view(first, now, d),
        forall|i: int| 0 <= i < first.len() ==> (#[trigger] first[i]).id == i + 1,
        forall|i: int| 0 <= i < t.len() ==> 0 <= #[trigger] t[i] < first.len(),
    ensures
        fold_safes(now, t) == fold_safes(first, t).filter(above(first, d)),
        t.len() > 0 && is_safe(first, t.last()) ==> ({
            let g = fold_safes(first, t);
            g.len() > 0 && g.last().len() > 0 && first[g.last()[0] - 1].safe_counter
                == first[t.last()].safe_counter
        }),
    decreases t.len(),
{
    reveal(Seq::filter);
    if t.len() > 0 {
        let t0 = t.drop_last();
        let n = t.len();
        let x = t.last();
        assert(forall|i: int| 0 <= i < t0.len() ==> t0[i] == t[i]);
        lemma_fold_counted_down(first, now, d, t0);
        let g0 = fold_safes(first, t0);
        let h0 = fold_safes(now, t0);
        let p = above(first, d);
        assert(now[x].id == first[x].id);
        if is_safe(first, x) {
            if n >= 2 {
                let y = t[n - 2];
                assert(t0.last() == y);
                assert(now[y].lines == first[y].lines);
                assert(now[y].repr_column == first[y].repr_column);
            }
            let near_first = n >= 2 && is_safe(first, t[n - 2]) && joins(first[t[n - 2]], first[x]);
            let near_now = n >= 2 && is_safe(now, t[n - 2]) && joins(now[t[n - 2]], now[x]);
            if first[x].safe_counter > d {
                assert(near_first == near_now);
                if near_first {
                    assert(g0.len() > 0);
                    let last = g0.last().push(first[x].id);
                    assert(p(g0.last()));
                    assert(p(last));
                    assert(g0 =~= g0.drop_last().push(g0.last()));
                    assert(g0.update(g0.len() - 1, last) =~= g0.drop_last().push(last));
                    assert(g0.filter(p) == g0.drop_last().filter(p).push(g0.last()));
                    assert(g0.drop_last().push(last).drop_last() =~= g0.drop_last());
                    assert(h0.update(h0.len() - 1, last) =~= g0.drop_last().filter(p).push(last));
                } else {
                    let g = g0.push(seq![first[x].id]);
                    assert(g.drop_last() =~= g0);
                    assert(p(seq![first[x].id]));
                }
            } else {
                assert(!is_safe(now, x));
                if near_first {
                    assert(g0.len() > 0);
                    let last = g0.last().push(first[x].id);
                    assert(!p(g0.last()));
                    assert(!p(last));
                    assert(g0 =~= g0.drop_last().push(g0.last()));
                    assert(g0.update(g0.len() - 1, last) =~= g0.drop_last().push(last));
                    assert(g0.drop_last().push(last).drop_last() =~= g0.drop_last());
                    assert(g0.filter(p) == g0.drop_last().filter(p));
                } else {
                    let g = g0.push(seq![first[x].id]);
                    assert(g.drop_last() =~= g0);
                    assert(!p(seq![first[x].id]));
                }
            }
        } else {
            assert(!is_safe(now, x));
        }
    }
}


/// Whether `bs` shows each bottle of `v` in the place that `rows` gives it.
pub open spec fn shows_board(v: StateView, rows: Seq<Seq<u8>>, bs: Seq<BottleView>) -> bool {
    &&& bs.len() == v.bottle_count
    &&& forall|i: int| 0 <= i < bs.len() ==> shows_bottle(v, rows, #[trigger] bs[i], i + 1)
}

/// Whether `b` stands on the line of `a`, in the next column but one.
pub open spec fn next_in_line(a: BottleView, b: BottleView) -> bool {
    a.lines.start == b.lines.start && a.repr_column + 2 == b.repr_column
}

/// On a board that passed its checks, a bottle in the next column but one
/// on the same line comes right after in place order: no bottle stands
/// between them.
proof fn lemma_next_in_line(v: StateView, rows: Seq<Seq<u8>>, bs: Seq<BottleView>)
    requires
        board_shape(rows),
        validate_error(rows, v) is None,
        shows_board(v, rows, bs),
    ensures
        ({
            let t = by_place(bs, positions(bs.len() as int));
            &&& lists_once(t, positions(bs.len() as int))
            &&& forall|i: int, j: int|
                0 <= i < j < t.len() && next_in_line(#[trigger] bs[t[i]], #[trigger] bs[t[j]]) ==> j
                    == i + 1
        }),
{
    let n = bs.len() as int;
    let s = positions(n);
    let t = by_place(bs, s);
    lemma_by_place(bs, s);
    lemma_layout_places(rows, v);
    assert forall|i: int, j: int|
        0 <= i < j < t.len() && next_in_line(#[trigger] bs[t[i]], #[trigger] bs[t[j]]) implies j == i
        + 1 by {
        if j > i + 1 {
            let a = t[i];
            let c = t[i + 1];
            let b = t[j];
            assert(s.contains(a) && s.contains(b) && s.contains(c));
            assert(0 <= a < n && 0 <= b < n && 0 <= c < n);
            assert(!place_before(bs[c], bs[a]));
            assert(!place_before(bs[b], bs[c]));
            assert(shows_bottle(v, rows, bs[a], a + 1));
            assert(shows_bottle(v, rows, bs[b], b + 1));
            assert(shows_bottle(v, rows, bs[c], c + 1));
            assert(bottle_position_view(rows, a + 1) is Some);
            assert(bottle_position_view(rows, b + 1) is Some);
            assert(bottle_position_view(rows, c + 1) is Some);
            lemma_first_pos_cell(rows, bottle_char(a + 1));
            lemma_first_pos_cell(rows, bottle_char(b + 1));
            lemma_first_pos_cell(rows, bottle_char(c + 1));
            let (la, ca) = first_pos(rows, bottle_char(a + 1))->0;
            let (lb, cb) = first_pos(rows, bottle_char(b + 1))->0;
            let (lc, cc) = first_pos(rows, bottle_char(c + 1))->0;
            assert(bs[a].lines.start == la && bs[a].repr_column == ca);
            assert(bs[b].lines.start == lb && bs[b].repr_column == cb);
            assert(bs[c].lines.start == lc && bs[c].repr_column == cc);
            assert(lc == la);
            if cc == ca {
                lemma_bottle_char_injective(a + 1, c + 1);
            } else if cc == cb {
                lemma_bottle_char_injective(b + 1, c + 1);
            } else {
                assert(cc == ca + 1);
                lemma_no_adjacent_bottles(rows, v, la as int, ca as int);
            }
        }
    }
}

/// Along listed moves from a reachable state, every safe counter goes
/// down by the same amount, down to zero.
proof fn lemma_path_safes(p: Seq<StateView>, j: int)
    requires
        is_path(p),
        p.len() > 0,
        reach_inv(p[0]),
        0 <= j < p.len(),
    ensures
        reach_inv(p[j]),
        p[j].bottle_count == p[0].bottle_count,
        exists|d: int| 0 <= d && counted_down(p[0], p[j], d),
    decreases j,
{
    if j == 0 {
        assert(counted_down(p[0], p[0], 0));
    } else {
        lemma_path_safes(p, j - 1);
        assert(one_move(p[j - 1], p[(j - 1) + 1]));
        let u = p[j - 1];
        let i = choose|i: int|
            0 <= i < moves_view(u).len() && p[j] == apply_view(u, #[trigger] moves_view(u)[i]);
        lemma_listed_move(u, i);
        lemma_listed_move_safes(u, i);
        let d = choose|d: int| 0 <= d && counted_down(p[0], u, d);
        let e = choose|e: int| 0 <= e <= 1 && counted_down(u, p[j], e);
        assert forall|b: int| 1 <= b <= p[0].bottle_count implies #[trigger] p[j].safe_counter[b]
            == if p[0].safe_counter[b] > d + e {
            p[0].safe_counter[b] - (d + e)
        } else {
            0
        } by {
            assert(u.safe_counter[b] == if p[0].safe_counter[b] > d {
                p[0].safe_counter[b] - d
            } else {
                0
            });
        }
        assert(counted_down(p[0], p[j], d + e));
    }
}

/// A door that the board shows over safes in a state reached from the
/// start by legal moves was already there, over the same safes, at the
/// start: counters go down in lockstep, so doors only ever open and never
/// re-form. The doors left are exactly those of the start whose counters
/// were above the number of bottles solved since.
pub proof fn law_safe_groups_never_re_form(
    start: StartingView,
    rows: Seq<Seq<u8>>,
    w: StateView,
    k: nat,
    first: Seq<BottleView>,
    now: Seq<BottleView>,
    g: Seq<u8>,
)
    requires
        start_error(start) is None,
        board_shape(rows),
        validate_error(rows, start_state(start)) is None,
        leads_to(start_state(start), w, k),
        shows_board(start_state(start), rows, first),
        shows_board(w, rows, now),
        safe_groups_view(now).contains(g),
    ensures
        safe_groups_view(first).contains(g),
        exists|d: int|
            0 <= d && safe_groups_view(now) == safe_groups_view(first).filter(
                #[trigger] above(first, d),
            ),
{
    let v = start_state(start);
    lemma_start_reach(start);
    let p = choose|p: Seq<StateView>|
        #[trigger] is_path(p) && p.len() == k + 1 && p[0] == v && p[k as int] == w;
    lemma_path_safes(p, k as int);
    let d = choose|d: int| 0 <= d && counted_down(v, w, d);
    let n = first.len() as int;
    assert(now.len() == n);
    assert forall|i: int| 0 <= i < n implies (#[trigger] first[i]).id == i + 1 by {
        assert(shows_bottle(v, rows, first[i], i + 1));
    }
    assert(counted_down_view(first, now, d)) by {
        assert forall|i: int| 0 <= i < n implies (#[trigger] first[i]).lines.start
            == now[i].lines.start && first[i].repr_column == now[i].repr_column by {
            assert(shows_bottle(v, rows, first[i], i + 1));
            assert(shows_bottle(w, rows, now[i], i + 1));
        }
        assert forall|i: int| 0 <= i < n implies {
            &&& (#[trigger] now[i]).id == first[i].id
            &&& now[i].lines == first[i].lines
            &&& now[i].safe_counter == if first[i].safe_counter > d {
                first[i].safe_counter - d
            } else {
                0
            }
        } by {
            assert(shows_bottle(v, rows, first[i], i + 1));
            assert(shows_bottle(w, rows, now[i], i + 1));
            assert(w.safe_counter[i + 1] == if v.safe_counter[i + 1] > d {
                v.safe_counter[i + 1] - d
            } else {
                0
            });
        }
    }
    let s = positions(n);
    lemma_next_in_line(v, rows, first);
    let t = by_place(first, s);
    assert(s.no_duplicates());
    assert forall|i: int| 0 <= i < s.len() implies 0 <= #[trigger] s[i] < first.len() by {}
    lemma_by_place_same(first, now, s);
    assert(by_place(now, s) == t);
    assert forall|i: int| 0 <= i < t.len() implies 0 <= #[trigger] t[i] < first.len() by {
        assert(s.contains(t[i]));
    }
    assert(joins_only_next(first, t)) by {
        assert forall|i: int, j: int|
            0 <= i < j < t.len() && joins(#[trigger] first[t[i]], #[trigger] first[t[j]]) implies j
            == i + 1 by {
            assert(next_in_line(first[t[i]], first[t[j]]));
        }
    }
    assert(joins_only_next(now, t)) by {
        assert forall|i: int, j: int|
            0 <= i < j < t.len() && joins(#[trigger] now[t[i]], #[trigger] now[t[j]]) implies j
            == i + 1 by {
            assert(now[t[i]].lines == first[t[i]].lines);
            assert(now[t[j]].lines == first[t[j]].lines);
            assert(now[t[i]].repr_column == first[t[i]].repr_column);
            assert(now[t[j]].repr_column == first[t[j]].repr_column);
            assert(next_in_line(first[t[i]], first[t[j]]));
        }
    }
    lemma_fold_groups_safes(first, t);
    lemma_fold_groups_safes(now, t);
    lemma_fold_counted_down(first, now, d, t);
    assert(safe_groups_view(now) == safe_groups_view(first).filter(above(first, d)));
    safe_groups_view(first).lemma_filter_contains_rev(above(first, d), g);
}

} // verus!
