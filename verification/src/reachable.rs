//! The invariant that every state reachable from a valid starting state
//! keeps, and why moves computed on such states can always be undone.
use vstd::prelude::*;

use crate::state::{
    BOTTLE_COUNT, ITEM_COUNT, MoveView, StateView, apply_ok, apply_view, below_top, moves_upto,
    curtain_lifted_at,
    moves_view, row_moves, undo_ok, undo_view, lemma_undo_after_apply,
    can_move_from_view, finalized_after, index_bottle, index_item, item_index,
    lemma_apply_wf, lemma_move_apply_ok, lemma_pour_run_bound, lemma_pour_run_color, move_to_view, pour_allowed,
    pour_blocked, pour_count, pour_run, run_end, run_start, undoable, wf_view, is_flag_span,
};

verus! {

/// Items of color `c` among the lowest `k` slots of bottle `b`.
pub open spec fn bottle_color_count(v: StateView, b: int, c: int, k: int) -> nat
    decreases k,
{
    if k <= 0 {
        0
    } else {
        bottle_color_count(v, b, c, k - 1) + if v.content[b][k - 1] == c {
            1nat
        } else {
            0nat
        }
    }
}

/// Items of color `c` in the bottles `1..n`.
pub open spec fn color_total_upto(v: StateView, c: int, n: int) -> nat
    decreases n,
{
    if n <= 1 {
        0
    } else {
        color_total_upto(v, c, n - 1) + bottle_color_count(v, n - 1, c, v.height[n - 1] as int)
    }
}

/// Items of color `c` in all bottles.
pub open spec fn color_total(v: StateView, c: int) -> nat {
    color_total_upto(v, c, (v.bottle_count + 1) as int)
}

/// Whether some solved bottle holds color `c`.
pub open spec fn color_solved(v: StateView, c: int) -> bool {
    exists|b: int| 1 <= b <= v.bottle_count && #[trigger] v.finalized[b] && v.content[b][0] == c
}

/// What every state reachable from a valid starting state keeps, beyond the
/// basic shape:
/// items are real colors; a solved bottle is full of one color that has no
/// item elsewhere; a freezing group is frozen or thawed as a whole; the
/// bottles of a curtain group are behind its curtain and groups do not
/// overlap; a lock group is locked while its key item still holds the key;
/// the recorded number of items of each color is the number in the bottles;
/// and a color curtain is down while its color is not solved.
pub open spec fn reach_inv(v: StateView) -> bool {
    let count = v.bottle_count as int;
    &&& wf_view(v)
    &&& forall|b: int, i: int|
        1 <= b <= count && 0 <= i < v.height[b] ==> #[trigger] v.content[b][i] != 0
    &&& forall|b: int|
        1 <= b <= count && #[trigger] v.finalized[b] ==> v.height[b] == v.capacity[b]
            && v.color_count[v.content[b][0] as int] == v.capacity[b] && forall|i: int|
            0 <= i < v.height[b] ==> #[trigger] v.content[b][i] == v.content[b][0]
    &&& forall|b: int|
        1 <= b < count && #[trigger] v.frozen_run[b] == v.frozen_run[b + 1] ==> v.frozen[b]
            == v.frozen[b + 1]
    &&& forall|b: int| 0 <= b < 32 && #[trigger] v.frozen[b] ==> 1 <= b <= count
    &&& forall|k: int, b: int|
        #![trigger v.curtain_to[k], v.behind_curtain[b]]
        0 <= k < count && v.curtain_from[k] <= b < v.curtain_to[k] ==> v.behind_curtain[b]
    &&& forall|k1: int, k2: int|
        0 <= k1 < count && 0 <= k2 < count && k1 != k2 && v.curtain_from[k1]
            < #[trigger] v.curtain_to[k1] && v.curtain_from[k2] < #[trigger] v.curtain_to[k2]
            ==> v.curtain_to[k1] <= v.curtain_from[k2] || v.curtain_to[k2] <= v.curtain_from[k1]
    &&& forall|b: int|
        1 <= b <= count && #[trigger] v.bottle_key[b] != 0 ==> v.bottle_key[b] < BOTTLE_COUNT
            * ITEM_COUNT && v.bottle_locked[b] == v.has_key[index_bottle(
            v.bottle_key[b] as int,
        )][index_item(v.bottle_key[b] as int)]
    &&& forall|c: int| 1 <= c < 16 ==> #[trigger] color_total(v, c) == v.color_count[c]
    &&& forall|b: int|
        1 <= b <= count && #[trigger] v.color_curtain[b] != 0 ==> (v.color_curtain_active[b]
            <==> !color_solved(v, v.color_curtain[b] as int))
}

} // verus!

verus! {

proof fn lemma_bcc_frame(v: StateView, w: StateView, b: int, bw: int, c: int, k: int)
    requires
        forall|i: int| 0 <= i < k ==> v.content[b][i] == w.content[bw][i],
    ensures
        bottle_color_count(v, b, c, k) == bottle_color_count(w, bw, c, k),
    decreases k,
{
    if k > 0 {
        lemma_bcc_frame(v, w, b, bw, c, k - 1);
    }
}

proof fn lemma_bcc_uniform(v: StateView, b: int, c: int, col: int, lo: int, hi: int)
    requires
        0 <= lo <= hi,
        forall|i: int| lo <= i < hi ==> v.content[b][i] == col,
    ensures
        bottle_color_count(v, b, c, hi) == bottle_color_count(v, b, c, lo) + if c == col {
            hi - lo
        } else {
            0
        },
    decreases hi - lo,
{
    if hi > lo {
        lemma_bcc_uniform(v, b, c, col, lo, hi - 1);
    }
}

proof fn lemma_bcc_bound(v: StateView, b: int, c: int, k: int)
    requires
        k >= 0,
    ensures
        bottle_color_count(v, b, c, k) <= k,
    decreases k,
{
    if k > 0 {
        lemma_bcc_bound(v, b, c, k - 1);
    }
}

/// The items of each color in a bottle, counted over its height.
pub open spec fn bottle_count_of(v: StateView, b: int, c: int) -> nat {
    bottle_color_count(v, b, c, v.height[b] as int)
}

proof fn lemma_total_ge3(v: StateView, c: int, n: int, x: int, y: int, z: int)
    requires
        1 <= x < n,
        1 <= y < n,
        1 <= z < n,
        x != y && y != z && x != z,
    ensures
        color_total_upto(v, c, n) >= bottle_count_of(v, x, c) + bottle_count_of(v, y, c)
            + bottle_count_of(v, z, c),
    decreases n,
{
    let last = n - 1;
    if x == last || y == last || z == last {
        lemma_total_ge2_any(v, c, n - 1, x, y, z, last);
    } else {
        lemma_total_ge3(v, c, n - 1, x, y, z);
    }
}

proof fn lemma_total_ge2_any(v: StateView, c: int, n: int, x: int, y: int, z: int, last: int)
    requires
        last == n,
        1 <= x <= n,
        1 <= y <= n,
        1 <= z <= n,
        x != y && y != z && x != z,
        x == last || y == last || z == last,
    ensures
        color_total_upto(v, c, n + 1) >= bottle_count_of(v, x, c) + bottle_count_of(v, y, c)
            + bottle_count_of(v, z, c),
{
    if x == last {
        lemma_total_ge2(v, c, n, y, z);
    } else if y == last {
        lemma_total_ge2(v, c, n, x, z);
    } else {
        lemma_total_ge2(v, c, n, x, y);
    }
}

proof fn lemma_total_ge2(v: StateView, c: int, n: int, x: int, y: int)
    requires
        1 <= x < n,
        1 <= y < n,
        x != y,
    ensures
        color_total_upto(v, c, n) >= bottle_count_of(v, x, c) + bottle_count_of(v, y, c),
    decreases n,
{
    let last = n - 1;
    if x == last {
        lemma_total_ge1(v, c, n - 1, y);
    } else if y == last {
        lemma_total_ge1(v, c, n - 1, x);
    } else {
        lemma_total_ge2(v, c, n - 1, x, y);
    }
}

proof fn lemma_total_ge1(v: StateView, c: int, n: int, x: int)
    requires
        1 <= x < n,
    ensures
        color_total_upto(v, c, n) >= bottle_count_of(v, x, c),
    decreases n,
{
    if x != n - 1 {
        lemma_total_ge1(v, c, n - 1, x);
    }
}

} // verus!

verus! {

proof fn lemma_bottle_counts_apply(v: StateView, m: MoveView, b: int, c: int)
    requires
        wf_view(v),
        apply_ok(v, m),
        forall|i: int|
            v.height[m.from as int] - m.count <= i < v.height[m.from as int] ==> #[trigger] v.content[m.from as int][i]
                == m.color,
        1 <= b <= v.bottle_count,
    ensures
        ({
            let a = apply_view(v, m);
            let d: int = if c == m.color {
                m.count as int
            } else {
                0
            };
            &&& b == m.from ==> bottle_count_of(a, b, c) + d == bottle_count_of(v, b, c)
            &&& b == m.to ==> bottle_count_of(a, b, c) == bottle_count_of(v, b, c) + d
            &&& b != m.from && b != m.to ==> bottle_count_of(a, b, c) == bottle_count_of(v, b, c)
        }),
{
    let a = apply_view(v, m);
    let hf = v.height[m.from as int] as int;
    let ht = v.height[m.to as int] as int;
    let n = m.count as int;
    assert(v.height[b] <= v.capacity[b] <= 16);
    assert(hf <= v.capacity[m.from as int] <= 16);
    if b == m.from {
        assert forall|i: int| 0 <= i < hf - n implies a.content[b][i] == v.content[b][i] by {}
        lemma_bcc_frame(a, v, b, b, c, hf - n);
        lemma_bcc_uniform(v, b, c, m.color as int, hf - n, hf);
    } else if b == m.to {
        assert forall|i: int| 0 <= i < ht implies a.content[b][i] == v.content[b][i] by {}
        lemma_bcc_frame(a, v, b, b, c, ht);
        lemma_bcc_uniform(a, b, c, m.color as int, ht, ht + n);
    } else {
        assert forall|i: int| 0 <= i < v.height[b] implies a.content[b][i] == v.content[b][i] by {}
        lemma_bcc_frame(a, v, b, b, c, v.height[b] as int);
    }
}

proof fn lemma_total_apply(v: StateView, m: MoveView, c: int, n: int)
    requires
        wf_view(v),
        apply_ok(v, m),
        forall|i: int|
            v.height[m.from as int] - m.count <= i < v.height[m.from as int] ==> #[trigger] v.content[m.from as int][i]
                == m.color,
        1 <= n <= v.bottle_count + 1,
    ensures
        ({
            let d: int = if c == m.color {
                m.count as int
            } else {
                0
            };
            color_total_upto(apply_view(v, m), c, n) + (if m.from < n {
                d
            } else {
                0
            }) == color_total_upto(v, c, n) + (if m.to < n {
                d
            } else {
                0
            })
        }),
    decreases n,
{
    if n > 1 {
        lemma_total_apply(v, m, c, n - 1);
        lemma_bottle_counts_apply(v, m, n - 1, c);
    }
}

} // verus!

verus! {

pub(crate) proof fn lemma_run_start(bits: Seq<bool>, bottle: int, x: int)
    requires
        1 <= x,
    ensures
        1 <= run_start(bits, bottle, x) <= x,
        run_start(bits, bottle, x) == 1 || bits[run_start(bits, bottle, x) - 1] != bits[bottle],
        forall|y: int| run_start(bits, bottle, x) <= y < x ==> #[trigger] bits[y] == bits[bottle],
    decreases x,
{
    if x > 1 && bits[x - 1] == bits[bottle] {
        lemma_run_start(bits, bottle, x - 1);
    }
}

pub(crate) proof fn lemma_run_end(bits: Seq<bool>, bottle: int, x: int, last: int)
    requires
        x <= last,
    ensures
        x <= run_end(bits, bottle, x, last) <= last,
        run_end(bits, bottle, x, last) == last || bits[run_end(bits, bottle, x, last) + 1]
            != bits[bottle],
        forall|y: int| x < y <= run_end(bits, bottle, x, last) ==> #[trigger] bits[y] == bits[bottle],
    decreases last - x,
{
    if x < last && bits[x + 1] == bits[bottle] {
        lemma_run_end(bits, bottle, x + 1, last);
    }
}

proof fn lemma_frozen_down(v: StateView, to: int, y: int)
    requires
        reach_inv(v),
        1 <= y <= to <= v.bottle_count,
        v.frozen[to],
        forall|z: int| y <= z <= to ==> #[trigger] v.frozen_run[z] == v.frozen_run[to],
    ensures
        v.frozen[y],
    decreases to - y,
{
    if y < to {
        lemma_frozen_down(v, to, y + 1);
        assert(v.frozen_run[y] == v.frozen_run[y + 1]);
    }
}

proof fn lemma_frozen_up(v: StateView, to: int, y: int)
    requires
        reach_inv(v),
        1 <= to <= y <= v.bottle_count,
        v.frozen[to],
        forall|z: int| to <= z <= y ==> #[trigger] v.frozen_run[z] == v.frozen_run[to],
    ensures
        v.frozen[y],
    decreases y - to,
{
    if y > to {
        lemma_frozen_up(v, to, y - 1);
        assert(v.frozen_run[y - 1] == v.frozen_run[y]);
    }
}

proof fn lemma_item_index(b: int, i: int)
    requires
        0 <= b < 32,
        0 <= i < 16,
    ensures
        index_bottle(item_index(b, i)) == b,
        index_item(item_index(b, i)) == i,
        0 <= item_index(b, i) < 512,
{
}

/// The pour of a legal move takes the top items of the source, which all
/// have the poured color.
proof fn lemma_poured_items(v: StateView, from: int, to: int, i: int)
    requires
        wf_view(v),
        pour_allowed(v, from, to),
        v.height[from] - pour_count(v, from, to) <= i < v.height[from],
    ensures
        v.content[from][i] == v.content[from][v.height[from] - 1],
        i < v.height[from] - 1 ==> !v.hidden[from][i] && !v.item_locked[from][i],
{
    let hf = v.height[from] as int;
    let color = v.content[from][hf - 1] as int;
    if i < hf - 1 {
        assert(!v.item_locked[from][hf - 1]);
        lemma_pour_run_color(v, from, color, hf - 1, i);
    }
}

/// Every move computed on a reachable state can be undone exactly.
pub proof fn lemma_move_undoable(v: StateView, from: int, to: int)
    requires
        reach_inv(v),
        pour_allowed(v, from, to),
    ensures
        undoable(v, move_to_view(v, from, to)->0),
{
    let m = move_to_view(v, from, to)->0;
    let count = v.bottle_count as int;
    let hf = v.height[from] as int;
    let color = v.content[from][hf - 1] as int;
    let n = pour_count(v, from, to);
    lemma_move_apply_ok(v, from, to);
    assert(v.capacity[from] <= 16 && v.height[from] <= v.capacity[from]);
    assert(v.capacity[to] <= 16 && v.height[to] <= v.capacity[to]);
    assert forall|i: int| hf - m.count <= i < hf implies #[trigger] v.content[from][i] == m.color by {
        lemma_poured_items(v, from, to, i);
    }
    let nt = below_top(hf - n);
    lemma_item_index(from, nt);
    lemma_item_index(from, hf - 1);
    let to_finalized = finalized_after(v, to, n, color);
    if v.finalized[to] {
        assert(v.height[to] == v.capacity[to]);
    }
    if to_finalized && v.frozen[to] {
        let start = run_start(v.frozen_run, to, to);
        let end = run_end(v.frozen_run, to, to, count);
        lemma_run_start(v.frozen_run, to, to);
        lemma_run_end(v.frozen_run, to, to, count);
        assert forall|b: int| 0 <= b < 32 && #[trigger] m.unfreeze_run[b] implies v.frozen[b] by {
            assert(start <= b <= end);
            if b <= to {
                lemma_frozen_down(v, to, b);
            } else {
                lemma_frozen_up(v, to, b);
            }
        }
    }
    assert forall|k: int|
        0 <= k < count && #[trigger] m.lift_curtain[k] implies v.behind_curtain[v.curtain_to[k] - 1] by {
        let b = v.curtain_to[k] - 1;
        assert(v.curtain_from[k] <= b < v.curtain_to[k]);
    }
    assert(color != 0);
    if to_finalized {
        assert forall|b: int|
            0 <= b < 32 && #[trigger] m.lift_color_curtain[b] implies v.color_curtain_active[b] by {
            assert(1 <= b <= count && v.color_curtain[b] == color);
            lemma_no_second_solved(v, from, to);
        }
    }
}

/// A pour that solves `to` with color `c` cannot happen while another
/// bottle already holds `c` solved: that would need more items of `c` than
/// exist.
proof fn lemma_no_second_solved(v: StateView, from: int, to: int)
    requires
        reach_inv(v),
        pour_allowed(v, from, to),
        ({
            let hf = v.height[from] as int;
            finalized_after(v, to, pour_count(v, from, to), v.content[from][hf - 1] as int)
        }),
    ensures
        !color_solved(v, v.content[from][v.height[from] - 1] as int),
{
    if color_solved(v, v.content[from][v.height[from] - 1] as int) {
        let x = choose|x: int|
            1 <= x <= v.bottle_count && #[trigger] v.finalized[x] && v.content[x][0]
                == v.content[from][v.height[from] - 1];
        lemma_second_solved_impossible(v, from, to, x);
    }
}

proof fn lemma_second_solved_impossible(v: StateView, from: int, to: int, x: int)
    requires
        reach_inv(v),
        pour_allowed(v, from, to),
        ({
            let hf = v.height[from] as int;
            finalized_after(v, to, pour_count(v, from, to), v.content[from][hf - 1] as int)
        }),
        1 <= x <= v.bottle_count,
    ensures
        !(v.finalized[x] && v.content[x][0] == v.content[from][v.height[from] - 1]),
{
    if !(v.finalized[x] && v.content[x][0] == v.content[from][v.height[from] - 1]) {
        return;
    }
    let count = v.bottle_count as int;
    let hf = v.height[from] as int;
    let color = v.content[from][hf - 1] as int;
    let n = pour_count(v, from, to);
    lemma_move_apply_ok(v, from, to);
    assert(v.capacity[from] <= 16 && v.height[from] <= v.capacity[from]);
    assert(v.capacity[to] <= 16 && v.height[to] <= v.capacity[to]);
    assert(v.capacity[x] <= 16 && v.capacity[x] > 0);
    assert(color != 0);
    assert(x != from);
    if x == to {
        assert(v.height[to] == v.capacity[to]);
        assert(false);
    }
    // The solved bottle holds all items of the color.
    assert forall|i: int| 0 <= i < v.height[x] implies v.content[x][i] == color by {
        assert(v.content[x][i] == v.content[x][0]);
    }
    lemma_bcc_uniform(v, x, color, color, 0, v.height[x] as int);
    // The receiving bottle holds only this color.
    let bottom = v.content[to][0];
    assert forall|i: int| 0 <= i < v.height[to] implies v.content[to][i] == color by {
        let nb = if bottom == 0 {
            color
        } else {
            bottom as int
        };
        assert(v.content[to][i] == nb);
    }
    lemma_bcc_uniform(v, to, color, color, 0, v.height[to] as int);
    // The source gives at least the poured items.
    assert forall|i: int| hf - n <= i < hf implies v.content[from][i] == color by {
        lemma_poured_items(v, from, to, i);
    }
    lemma_bcc_uniform(v, from, color, color, hf - n, hf);
    lemma_total_ge3(v, color, count + 1, x, to, from);
    assert(color_total(v, color) == v.color_count[color]);
}

} // verus!

verus! {

proof fn lemma_apply_items(v: StateView, from: int, to: int)
    requires
        reach_inv(v),
        pour_allowed(v, from, to),
    ensures
        ({
            let m = move_to_view(v, from, to)->0;
            let a = apply_view(v, m);
            let color = v.content[from][v.height[from] - 1];
            &&& forall|b: int, i: int|
                1 <= b <= a.bottle_count && 0 <= i < a.height[b] ==> #[trigger] a.content[b][i] != 0
            &&& forall|b: int|
                1 <= b <= a.bottle_count && #[trigger] a.finalized[b] ==> a.height[b] == a.capacity[b]
                    && a.color_count[a.content[b][0] as int] == a.capacity[b] && forall|i: int|
                    0 <= i < a.height[b] ==> #[trigger] a.content[b][i] == a.content[b][0]
            &&& m.finalize != 0 ==> m.finalize == to && a.content[to][0] == color
            &&& forall|b: int|
                1 <= b <= v.bottle_count && b != to ==> (#[trigger] a.finalized[b] == v.finalized[b])
                    && (v.finalized[b] ==> a.content[b][0] == v.content[b][0])
            &&& !v.finalized[to] && !v.finalized[from]
        }),
{
    let m = move_to_view(v, from, to)->0;
    let a = apply_view(v, m);
    let hf = v.height[from] as int;
    let ht = v.height[to] as int;
    let color = v.content[from][hf - 1] as int;
    let n = pour_count(v, from, to);
    lemma_move_apply_ok(v, from, to);
    lemma_apply_wf(v, m);
    assert(v.capacity[from] <= 16 && v.height[from] <= v.capacity[from]);
    assert(v.capacity[to] <= 16 && v.height[to] <= v.capacity[to]);
    assert(color != 0);
    if v.finalized[to] {
        assert(v.height[to] == v.capacity[to]);
    }
    assert forall|b: int, i: int|
        1 <= b <= a.bottle_count && 0 <= i < a.height[b] implies #[trigger] a.content[b][i] != 0 by {
        assert(v.height[b] <= v.capacity[b] <= 16);
        if b == to && ht <= i {
        } else {
            assert(a.content[b][i] == v.content[b][i]);
        }
    }
    if m.finalize != 0 {
        let bottom = v.content[to][0];
        assert forall|i: int| 0 <= i < ht implies v.content[to][i] == color by {
            let nb = if bottom == 0 {
                color
            } else {
                bottom as int
            };
            assert(v.content[to][i] == nb);
        }
        assert(a.content[to][0] == color);
    }
    assert forall|b: int|
        1 <= b <= a.bottle_count && #[trigger] a.finalized[b] implies a.height[b] == a.capacity[b]
        && a.color_count[a.content[b][0] as int] == a.capacity[b] && forall|i: int|
        0 <= i < a.height[b] ==> #[trigger] a.content[b][i] == a.content[b][0] by {
        assert(v.height[b] <= v.capacity[b] <= 16);
        if b == to && m.finalize != 0 {
            assert forall|i: int| 0 <= i < a.height[b] implies #[trigger] a.content[b][i]
                == a.content[b][0] by {
                if i < ht {
                    let bottom = v.content[to][0];
                    let nb = if bottom == 0 {
                        color
                    } else {
                        bottom as int
                    };
                    assert(v.content[to][i] == nb);
                }
            }
        } else {
            assert(v.finalized[b]);
            assert(b != from);
            assert(b != to);
            assert forall|i: int| 0 <= i < a.height[b] implies #[trigger] a.content[b][i]
                == a.content[b][0] by {
                assert(v.content[b][i] == v.content[b][0]);
            }
        }
    }
}

proof fn lemma_apply_frozen(v: StateView, from: int, to: int)
    requires
        reach_inv(v),
        pour_allowed(v, from, to),
    ensures
        ({
            let a = apply_view(v, move_to_view(v, from, to)->0);
            &&& forall|b: int|
                1 <= b < a.bottle_count && #[trigger] a.frozen_run[b] == a.frozen_run[b + 1]
                    ==> a.frozen[b] == a.frozen[b + 1]
            &&& forall|b: int| 0 <= b < 32 && #[trigger] a.frozen[b] ==> 1 <= b <= a.bottle_count
        }),
{
    let m = move_to_view(v, from, to)->0;
    let a = apply_view(v, m);
    let count = v.bottle_count as int;
    let hf = v.height[from] as int;
    let color = v.content[from][hf - 1] as int;
    let n = pour_count(v, from, to);
    let to_finalized = finalized_after(v, to, n, color);
    if to_finalized && v.frozen[to] {
        let start = run_start(v.frozen_run, to, to);
        let end = run_end(v.frozen_run, to, to, count);
        lemma_run_start(v.frozen_run, to, to);
        lemma_run_end(v.frozen_run, to, to, count);
        assert forall|b: int|
            1 <= b < a.bottle_count && #[trigger] a.frozen_run[b] == a.frozen_run[b + 1] implies a.frozen[b]
            == a.frozen[b + 1] by {
            assert(v.frozen[b] == v.frozen[b + 1]);
            if start <= b <= end && !(start <= b + 1 <= end) {
                assert(b == end);
                assert(v.frozen_run[b] == v.frozen_run[to]);
            }
            if !(start <= b <= end) && start <= b + 1 <= end {
                assert(b + 1 == start);
                assert(v.frozen_run[b + 1] == v.frozen_run[to]);
            }
        }
    }
}

proof fn lemma_apply_curtains(v: StateView, from: int, to: int)
    requires
        reach_inv(v),
        pour_allowed(v, from, to),
    ensures
        ({
            let a = apply_view(v, move_to_view(v, from, to)->0);
            let count = a.bottle_count as int;
            &&& forall|k: int, b: int|
                #![trigger a.curtain_to[k], a.behind_curtain[b]]
                0 <= k < count && a.curtain_from[k] <= b < a.curtain_to[k] ==> a.behind_curtain[b]
            &&& forall|k1: int, k2: int|
                0 <= k1 < count && 0 <= k2 < count && k1 != k2 && a.curtain_from[k1]
                    < #[trigger] a.curtain_to[k1] && a.curtain_from[k2] < #[trigger] a.curtain_to[k2]
                    ==> a.curtain_to[k1] <= a.curtain_from[k2] || a.curtain_to[k2] <= a.curtain_from[k1]
        }),
{
    let m = move_to_view(v, from, to)->0;
    let a = apply_view(v, m);
    let count = v.bottle_count as int;
    lemma_move_apply_ok(v, from, to);
    assert forall|k: int, b: int|
        #![trigger a.curtain_to[k], a.behind_curtain[b]]
        0 <= k < count && a.curtain_from[k] <= b < a.curtain_to[k] implies a.behind_curtain[b] by {
        assert(a.curtain_to[k] <= v.curtain_to[k]);
        assert(v.curtain_from[k] <= b < v.curtain_to[k]);
        assert(v.behind_curtain[b]);
        if exists|j: int|
            0 <= j < v.bottle_count && #[trigger] m.lift_curtain[j] && v.curtain_to[j] - 1 == b {
            let j = choose|j: int|
                0 <= j < v.bottle_count && #[trigger] m.lift_curtain[j] && v.curtain_to[j] - 1 == b;
            if j != k {
                assert(v.curtain_from[j] < v.curtain_to[j]);
                assert(v.curtain_from[k] < v.curtain_to[k]);
            }
        }
    }
    assert forall|k1: int, k2: int|
        0 <= k1 < count && 0 <= k2 < count && k1 != k2 && a.curtain_from[k1]
            < #[trigger] a.curtain_to[k1] && a.curtain_from[k2] < #[trigger] a.curtain_to[k2]
        implies a.curtain_to[k1] <= a.curtain_from[k2] || a.curtain_to[k2] <= a.curtain_from[k1] by {
        assert(v.curtain_from[k1] < v.curtain_to[k1]);
        assert(v.curtain_from[k2] < v.curtain_to[k2]);
    }
}

proof fn lemma_apply_keys(v: StateView, from: int, to: int)
    requires
        reach_inv(v),
        pour_allowed(v, from, to),
    ensures
        ({
            let a = apply_view(v, move_to_view(v, from, to)->0);
            forall|b: int|
                1 <= b <= a.bottle_count && #[trigger] a.bottle_key[b] != 0 ==> a.bottle_key[b]
                    < BOTTLE_COUNT * ITEM_COUNT && a.bottle_locked[b] == a.has_key[index_bottle(
                    a.bottle_key[b] as int,
                )][index_item(a.bottle_key[b] as int)]
        }),
{
    let m = move_to_view(v, from, to)->0;
    let a = apply_view(v, m);
    let hf = v.height[from] as int;
    let n = pour_count(v, from, to);
    lemma_move_apply_ok(v, from, to);
    assert(v.capacity[from] <= 16 && v.height[from] <= v.capacity[from]);
    let nt = below_top(hf - n);
    lemma_item_index(from, nt);
    assert forall|b: int|
        1 <= b <= a.bottle_count && #[trigger] a.bottle_key[b] != 0 implies a.bottle_key[b]
        < BOTTLE_COUNT * ITEM_COUNT && a.bottle_locked[b] == a.has_key[index_bottle(
        a.bottle_key[b] as int,
    )][index_item(a.bottle_key[b] as int)] by {
        let key = v.bottle_key[b] as int;
        assert(v.bottle_locked[b] == v.has_key[index_bottle(key)][index_item(key)]);
        if m.remove_key != 0 && key != m.remove_key {
            assert(index_bottle(key) != from || index_item(key) != nt);
        }
    }
}

proof fn lemma_apply_colors(v: StateView, from: int, to: int)
    requires
        reach_inv(v),
        pour_allowed(v, from, to),
    ensures
        ({
            let a = apply_view(v, move_to_view(v, from, to)->0);
            &&& forall|c: int| 1 <= c < 16 ==> #[trigger] color_total(a, c) == a.color_count[c]
            &&& forall|b: int|
                1 <= b <= a.bottle_count && #[trigger] a.color_curtain[b] != 0 ==> (
                a.color_curtain_active[b] <==> !color_solved(a, a.color_curtain[b] as int))
        }),
{
    let m = move_to_view(v, from, to)->0;
    let a = apply_view(v, m);
    let count = v.bottle_count as int;
    let hf = v.height[from] as int;
    let color = v.content[from][hf - 1] as int;
    let n = pour_count(v, from, to);
    let to_finalized = finalized_after(v, to, n, color);
    lemma_move_apply_ok(v, from, to);
    assert(v.capacity[from] <= 16 && v.height[from] <= v.capacity[from]);
    assert forall|i: int| hf - m.count <= i < hf implies #[trigger] v.content[from][i] == m.color by {
        lemma_poured_items(v, from, to, i);
    }
    assert forall|c: int| 1 <= c < 16 implies #[trigger] color_total(a, c) == a.color_count[c] by {
        lemma_total_apply(v, m, c, count + 1);
        assert(color_total(v, c) == v.color_count[c]);
        assert(a.color_count[c] == v.color_count[c]);
        assert(m.from < count + 1 && m.to < count + 1);
        assert(color_total_upto(a, c, count + 1) == color_total_upto(v, c, count + 1));
    }
    lemma_apply_items(v, from, to);
    assert forall|b: int|
        1 <= b <= a.bottle_count && #[trigger] a.color_curtain[b] != 0 implies (
        a.color_curtain_active[b] <==> !color_solved(a, a.color_curtain[b] as int)) by {
        let c = v.color_curtain[b] as int;
        assert(v.color_curtain_active[b] <==> !color_solved(v, c));
        if to_finalized && c == color {
            assert(a.finalized[to] && a.content[to][0] == color);
            assert(color_solved(a, c));
        } else {
            if color_solved(a, c) {
                let x = choose|x: int|
                    1 <= x <= a.bottle_count && #[trigger] a.finalized[x] && a.content[x][0] == c;
                if x == to {
                    assert(to_finalized);
                } else {
                    assert(v.finalized[x]);
                    assert(color_solved(v, c));
                }
            }
            if color_solved(v, c) {
                let x = choose|x: int|
                    1 <= x <= v.bottle_count && #[trigger] v.finalized[x] && v.content[x][0] == c;
                assert(x != to);
                assert(a.finalized[x]);
                assert(color_solved(a, c));
            }
        }
    }
}

/// Applying a move computed on a reachable state gives a reachable state.
pub proof fn lemma_apply_reach(v: StateView, from: int, to: int)
    requires
        reach_inv(v),
        pour_allowed(v, from, to),
    ensures
        reach_inv(apply_view(v, move_to_view(v, from, to)->0)),
{
    let m = move_to_view(v, from, to)->0;
    lemma_move_apply_ok(v, from, to);
    lemma_apply_wf(v, m);
    lemma_apply_items(v, from, to);
    lemma_apply_frozen(v, from, to);
    lemma_apply_curtains(v, from, to);
    lemma_apply_keys(v, from, to);
    lemma_apply_colors(v, from, to);
}

} // verus!

verus! {

proof fn lemma_row_legal(v: StateView, from: int, to: int, i: int)
    requires
        0 <= i < row_moves(v, from, to).len(),
    ensures
        exists|t: int|
            #![trigger move_to_view(v, from, t)]
            pour_allowed(v, from, t) && row_moves(v, from, to)[i] == move_to_view(v, from, t)->0,
    decreases to,
{
    if to > 1 {
        let rest = row_moves(v, from, to - 1);
        if i < rest.len() {
            lemma_row_legal(v, from, to - 1, i);
            let t = choose|t: int|
                #![trigger move_to_view(v, from, t)]
                pour_allowed(v, from, t) && rest[i] == move_to_view(v, from, t)->0;
            assert(row_moves(v, from, to)[i] == rest[i]);
            assert(pour_allowed(v, from, t) && row_moves(v, from, to)[i] == move_to_view(v, from, t)->0);
        } else {
            assert(pour_allowed(v, from, to - 1) && row_moves(v, from, to)[i] == move_to_view(
                v,
                from,
                to - 1,
            )->0);
        }
    }
}

proof fn lemma_moves_upto_legal(v: StateView, from: int, i: int)
    requires
        0 <= i < moves_upto(v, from).len(),
    ensures
        exists|f: int, t: int|
            #![trigger move_to_view(v, f, t)]
            pour_allowed(v, f, t) && moves_upto(v, from)[i] == move_to_view(v, f, t)->0,
    decreases from,
{
    if from > 1 {
        let a = moves_upto(v, from - 1);
        let r = row_moves(v, from - 1, (v.bottle_count + 1) as int);
        if i < a.len() {
            lemma_moves_upto_legal(v, from - 1, i);
            let (f, t) = choose|f: int, t: int|
                #![trigger move_to_view(v, f, t)]
                pour_allowed(v, f, t) && a[i] == move_to_view(v, f, t)->0;
            assert(moves_upto(v, from)[i] == a[i]);
            assert(pour_allowed(v, f, t) && moves_upto(v, from)[i] == move_to_view(v, f, t)->0);
        } else {
            lemma_row_legal(v, from - 1, (v.bottle_count + 1) as int, i - a.len());
            let t = choose|t: int|
                #![trigger move_to_view(v, from - 1, t)]
                pour_allowed(v, from - 1, t) && r[i - a.len()] == move_to_view(v, from - 1, t)->0;
            assert(moves_upto(v, from)[i] == r[i - a.len()]);
            assert(pour_allowed(v, from - 1, t) && moves_upto(v, from)[i] == move_to_view(
                v,
                from - 1,
                t,
            )->0);
        }
    }
}

/// Every listed move of a reachable state is a legal pour: applying it
/// keeps the invariant, and undoing it right after gives the state back.
pub proof fn lemma_listed_move(v: StateView, i: int)
    requires
        reach_inv(v),
        0 <= i < moves_view(v).len(),
    ensures
        apply_ok(v, moves_view(v)[i]),
        undoable(v, moves_view(v)[i]),
        reach_inv(apply_view(v, moves_view(v)[i])),
        undo_ok(apply_view(v, moves_view(v)[i]), moves_view(v)[i]),
        undo_view(apply_view(v, moves_view(v)[i]), moves_view(v)[i]) == v,
{
    lemma_moves_upto_legal(v, (v.bottle_count + 1) as int, i);
    let (f, t) = choose|f: int, t: int|
        #![trigger move_to_view(v, f, t)]
        pour_allowed(v, f, t) && moves_view(v)[i] == move_to_view(v, f, t)->0;
    lemma_move_apply_ok(v, f, t);
    lemma_move_undoable(v, f, t);
    lemma_apply_reach(v, f, t);
    lemma_undo_after_apply(v, moves_view(v)[i]);
}


/// Whether every safe counter of `w` is that of `v` lowered by `d`, down to
/// zero.
pub open spec fn counted_down(v: StateView, w: StateView, d: int) -> bool {
    forall|b: int|
        1 <= b <= v.bottle_count ==> #[trigger] w.safe_counter[b] == if v.safe_counter[b] > d {
            v.safe_counter[b] - d
        } else {
            0
        }
}

/// A listed move lowers every safe counter by one when it finishes a
/// bottle and leaves them all as they were otherwise.
pub proof fn lemma_listed_move_safes(v: StateView, i: int)
    requires
        reach_inv(v),
        0 <= i < moves_view(v).len(),
    ensures
        exists|e: int| 0 <= e <= 1 && counted_down(v, apply_view(v, moves_view(v)[i]), e),
        apply_view(v, moves_view(v)[i]).bottle_count == v.bottle_count,
{
    lemma_moves_upto_legal(v, (v.bottle_count + 1) as int, i);
    let (f, t) = choose|f: int, t: int|
        #![trigger move_to_view(v, f, t)]
        pour_allowed(v, f, t) && moves_view(v)[i] == move_to_view(v, f, t)->0;
    let m = moves_view(v)[i];
    let w = apply_view(v, m);
    if m.decrement_safe =~= Seq::new(32, |k: int| false) {
        assert(counted_down(v, w, 0));
    } else {
        assert(counted_down(v, w, 1));
    }
}


/// Whether every hidden item sits in a bottle below its top item: the top
/// item and the empty slots are never hidden.
pub open spec fn hidden_below_top(v: StateView) -> bool {
    forall|b: int, i: int|
        0 <= b < 32 && 0 <= i < 16 && #[trigger] v.hidden[b][i] ==> 1 <= b <= v.bottle_count && i + 1
            < v.height[b]
}

/// A listed move keeps every hidden item below the top of its bottle: the
/// items it pours are visible, and it shows the item it uncovers.
pub proof fn lemma_listed_move_hidden(v: StateView, i: int)
    requires
        reach_inv(v),
        hidden_below_top(v),
        0 <= i < moves_view(v).len(),
    ensures
        hidden_below_top(apply_view(v, moves_view(v)[i])),
{
    lemma_moves_upto_legal(v, (v.bottle_count + 1) as int, i);
    let (f, t) = choose|f: int, t: int|
        #![trigger move_to_view(v, f, t)]
        pour_allowed(v, f, t) && moves_view(v)[i] == move_to_view(v, f, t)->0;
    lemma_move_apply_ok(v, f, t);
    let m = moves_view(v)[i];
    let w = apply_view(v, m);
    let hf = v.height[f] as int;
    let n = m.count as int;
    let c = v.content[f][hf - 1] as int;
    assert(m.from == f && m.to == t);
    assert(n == pour_count(v, f, t));
    lemma_pour_run_bound(v, f, c, hf - 1);
    assert forall|b: int, k: int| 0 <= b < 32 && 0 <= k < 16 && #[trigger] w.hidden[b][k] implies 1
        <= b <= w.bottle_count && k + 1 < w.height[b] by {
        assert(v.hidden[b][k]);
        if b == f {
            if hf - n <= k < hf - 1 {
                if !v.item_locked[f][hf - 1] {
                    lemma_pour_run_color(v, f, c, hf - 1, k);
                }
            }
            if k == hf - n - 1 {
                assert(m.show_item == item_index(f, k));
                assert(index_bottle(item_index(f, k)) == f);
                assert(index_item(item_index(f, k)) == k);
            }
        }
    }
}


/// Whether every locked item is an item of a bottle: no empty slot is
/// locked.
pub open spec fn locks_on_items(v: StateView) -> bool {
    forall|b: int, i: int|
        0 <= b < 32 && 0 <= i < 16 && #[trigger] v.item_locked[b][i] ==> 1 <= b <= v.bottle_count
            && i < v.height[b]
}

/// A listed move takes the lock off the item it moves: a locked item
/// leaves its bottle alone and without its lock.
pub proof fn lemma_listed_move_locks(v: StateView, i: int)
    requires
        reach_inv(v),
        locks_on_items(v),
        0 <= i < moves_view(v).len(),
    ensures
        locks_on_items(apply_view(v, moves_view(v)[i])),
{
    lemma_moves_upto_legal(v, (v.bottle_count + 1) as int, i);
    let (f, t) = choose|f: int, t: int|
        #![trigger move_to_view(v, f, t)]
        pour_allowed(v, f, t) && moves_view(v)[i] == move_to_view(v, f, t)->0;
    lemma_move_apply_ok(v, f, t);
    let m = moves_view(v)[i];
    let w = apply_view(v, m);
    let hf = v.height[f] as int;
    let n = m.count as int;
    let c = v.content[f][hf - 1] as int;
    assert(m.from == f && m.to == t);
    assert(n == pour_count(v, f, t));
    lemma_pour_run_bound(v, f, c, hf - 1);
    assert forall|b: int, k: int| 0 <= b < 32 && 0 <= k < 16 && #[trigger] w.item_locked[b][k] implies 1
        <= b <= w.bottle_count && k < w.height[b] by {
        assert(v.item_locked[b][k]);
        if b == f {
            if hf - n <= k < hf - 1 {
                if !v.item_locked[f][hf - 1] {
                    lemma_pour_run_color(v, f, c, hf - 1, k);
                }
            }
            if k == hf - 1 {
                assert(m.unlock_item == item_index(f, k));
                assert(index_bottle(item_index(f, k)) == f);
                assert(index_item(item_index(f, k)) == k);
            }
        }
    }
}


/// Whether every bottle behind a curtain lies in the span of a curtain
/// group that still hides a bottle.
pub open spec fn curtains_cover(v: StateView) -> bool {
    forall|b: int|
        0 <= b < 32 && #[trigger] v.behind_curtain[b] ==> exists|k: int|
            0 <= k < v.bottle_count && v.curtain_from[k] <= b < #[trigger] v.curtain_to[k]
}

/// A listed move lifts a curtain only from the last bottle of its group, so
/// the bottles still behind a curtain stay in the shrunk group.
pub proof fn lemma_listed_move_curtains(v: StateView, i: int)
    requires
        reach_inv(v),
        curtains_cover(v),
        0 <= i < moves_view(v).len(),
    ensures
        curtains_cover(apply_view(v, moves_view(v)[i])),
{
    let m = moves_view(v)[i];
    let w = apply_view(v, m);
    assert(w.curtain_from == v.curtain_from);
    assert(w.bottle_count == v.bottle_count);
    assert forall|b: int| 0 <= b < 32 && #[trigger] w.behind_curtain[b] implies exists|k: int|
        0 <= k < w.bottle_count && w.curtain_from[k] <= b < #[trigger] w.curtain_to[k] by {
        assert(v.behind_curtain[b]);
        let k = choose|k: int|
            0 <= k < v.bottle_count && v.curtain_from[k] <= b < #[trigger] v.curtain_to[k];
        if m.lift_curtain[k] && v.curtain_to[k] - 1 == b {
            assert(curtain_lifted_at(v, m, b));
        }
        assert(w.curtain_from[k] <= b < w.curtain_to[k]);
    }
}

/// Whether every locked bottle carries the key of its lock group.
pub open spec fn locks_keyed(v: StateView) -> bool {
    forall|b: int| 1 <= b <= v.bottle_count && #[trigger] v.bottle_locked[b] ==> v.bottle_key[b] != 0
}

/// A listed move never locks a bottle and never changes a key.
pub proof fn lemma_listed_move_keyed(v: StateView, i: int)
    requires
        reach_inv(v),
        locks_keyed(v),
        0 <= i < moves_view(v).len(),
    ensures
        locks_keyed(apply_view(v, moves_view(v)[i])),
{
    let w = apply_view(v, moves_view(v)[i]);
    assert forall|b: int| 1 <= b <= w.bottle_count && #[trigger] w.bottle_locked[b] implies w.bottle_key[b] != 0 by {
        assert(v.bottle_locked[b]);
    }
}

/// Whether the bottles that share a key other than zero lie next to each
/// other.
pub open spec fn keys_contiguous(v: StateView) -> bool {
    forall|x: int, i: int, y: int|
        #![trigger v.bottle_key[x], v.bottle_key[i], v.bottle_key[y]]
        1 <= x < i < y <= v.bottle_count && v.bottle_key[x] != 0 && v.bottle_key[x] == v.bottle_key[y]
            ==> v.bottle_key[i] == v.bottle_key[x]
}

/// A listed move leaves every key where it was.
pub proof fn lemma_listed_move_keys_contiguous(v: StateView, i: int)
    requires
        keys_contiguous(v),
        0 <= i < moves_view(v).len(),
    ensures
        keys_contiguous(apply_view(v, moves_view(v)[i])),
{
    let w = apply_view(v, moves_view(v)[i]);
    assert(w.bottle_key == v.bottle_key && w.bottle_count == v.bottle_count);
}

/// Where the keys lie next to each other, the bottles that a listed move
/// unlocks are every bottle from the first to the last of them.
pub proof fn lemma_listed_move_unlock_span(v: StateView, i: int, a: u8, b: u8, x: int)
    requires
        keys_contiguous(v),
        0 <= i < moves_view(v).len(),
        is_flag_span(moves_view(v)[i].unlock_bottle, Some((a, b))),
        a <= x <= b,
    ensures
        moves_view(v)[i].unlock_bottle[x],
{
    lemma_moves_upto_legal(v, (v.bottle_count + 1) as int, i);
    let (f, t) = choose|f: int, t: int|
        #![trigger move_to_view(v, f, t)]
        pour_allowed(v, f, t) && moves_view(v)[i] == move_to_view(v, f, t)->0;
    let m = moves_view(v)[i];
    assert(m.unlock_bottle[a as int] && m.unlock_bottle[b as int]);
    if a < x < b {
        assert(v.bottle_key[a as int] != 0);
        assert(v.bottle_key[x] == v.bottle_key[a as int]);
    }
}

/// Whether the curtain groups that still hide a bottle start at ascending
/// bottles, in the order of the groups.
pub open spec fn curtains_ascending(v: StateView) -> bool {
    forall|k1: int, k2: int|
        0 <= k1 < k2 < v.bottle_count && v.curtain_from[k1] < #[trigger] v.curtain_to[k1]
            && v.curtain_from[k2] < #[trigger] v.curtain_to[k2] ==> v.curtain_from[k1]
            < v.curtain_from[k2]
}

/// A listed move only shrinks curtain groups from their last bottle, so
/// the groups keep their order.
pub proof fn lemma_listed_move_curtains_ascending(v: StateView, i: int)
    requires
        reach_inv(v),
        curtains_ascending(v),
        0 <= i < moves_view(v).len(),
    ensures
        curtains_ascending(apply_view(v, moves_view(v)[i])),
{
    lemma_moves_upto_legal(v, (v.bottle_count + 1) as int, i);
    let (f, t) = choose|f: int, t: int|
        #![trigger move_to_view(v, f, t)]
        pour_allowed(v, f, t) && moves_view(v)[i] == move_to_view(v, f, t)->0;
    let m = moves_view(v)[i];
    let w = apply_view(v, m);
    assert forall|k1: int, k2: int|
        0 <= k1 < k2 < w.bottle_count && w.curtain_from[k1] < #[trigger] w.curtain_to[k1]
            && w.curtain_from[k2] < #[trigger] w.curtain_to[k2] implies w.curtain_from[k1]
        < w.curtain_from[k2] by {
        assert(m.lift_curtain[k1] ==> v.curtain_to[k1] > v.curtain_from[k1]);
        assert(m.lift_curtain[k2] ==> v.curtain_to[k2] > v.curtain_from[k2]);
        assert(w.curtain_to[k1] <= v.curtain_to[k1]);
        assert(w.curtain_to[k2] <= v.curtain_to[k2]);
    }
}

} // verus!
