//! Solvers: a depth-first search with a lossy table of visited states, and
//! a breadth-first search, both keyed by a canonical hash of a state.
use vstd::prelude::*;

use std::hash::{DefaultHasher, Hasher};
use vstd::std_specs::hash::DefaultHasherAdditionalSpecFns;

use crate::reachable::{
    color_total, curtains_cover, hidden_below_top, lemma_listed_move, lemma_listed_move_curtains,
    curtains_ascending, lemma_listed_move_curtains_ascending,
    lemma_listed_move_hidden, lemma_listed_move_keyed, lemma_listed_move_keys_contiguous,
    lemma_listed_move_locks, lemma_listed_move_unlock_span, keys_contiguous, locks_keyed,
    locks_on_items, reach_inv,
};
use crate::starting::{
    StartingView, all_items, feature_count, occurrences, lemma_apply_features, lemma_start_curtains, lemma_start_color_counts, lemma_start_curtains_ascending, lemma_start_hidden, lemma_start_keyed, lemma_start_keys_contiguous, lemma_start_locks,
    lemma_start_reach,
    start_error, start_state,
};
use crate::state::{
    SearchState, State, StateView, apply_view, wf_view, curtain_groups_upto, curtain_range_view, fixed_part,
    index_bottle, index_item, is_flag_span, key_group_end, lemma_key_group_end, lock_groups_from,
    lemma_apply_keeps_fixed, moves_view,
    solved_view, with_fixed_of,
};
use std::collections::{HashSet, VecDeque};
use vstd::std_specs::vecdeque::axiom_spec_len;
use vstd::relations::{sorted_by, total_ordering};

verus! {

/// A flag as a byte.
pub open spec fn flag_byte(f: bool) -> u8 {
    if f {
        1
    } else {
        0
    }
}

/// Whether a bottle carries a feature tied to its place, so that its
/// number must stay part of its record.
pub open spec fn keyed_bottle(v: StateView, b: int) -> bool {
    v.frozen[b] || v.behind_curtain[b] || v.safe_counter[b] != 0 || v.bottle_locked[b]
        || v.color_curtain_active[b] || exists|i: int| 0 <= i < 16 && #[trigger] v.has_key[b][i]
}

/// The part of the record of bottle `b` before its items.
pub open spec fn record_head(v: StateView, b: int) -> Seq<u8> {
    seq![if keyed_bottle(v, b) { b as u8 } else { 0u8 }, v.height[b], v.capacity[b]]
}

/// Byte `k`, counted from the least significant end, of the colors of
/// bottle `b` packed four bits per item, item 0 lowest: item `2 * k` in its
/// low half and item `2 * k + 1` in its high half.
pub open spec fn color_pair(v: StateView, b: int, k: int) -> u8 {
    (v.content[b][2 * k] + 16 * v.content[b][2 * k + 1]) as u8
}

/// The packed colors of bottle `b` as a 64-bit number, most significant
/// byte first.
pub open spec fn colors_be(v: StateView, b: int) -> Seq<u8> {
    Seq::new(8, |k: int| color_pair(v, b, 7 - k))
}

/// Items `lo` to `lo + n - 1` of one per-item flag table of bottle `b` as
/// the bits of a number, item `lo` lowest.
pub open spec fn flag_bits(v: StateView, b: int, table: u8, lo: int, n: nat) -> nat
    decreases n,
{
    if n == 0 {
        0
    } else {
        2 * flag_bits(v, b, table, lo + 1, (n - 1) as nat) + if item_flag(v, b, table, lo) {
            1nat
        } else {
            0nat
        }
    }
}

/// One per-item flag table of bottle `b` (hidden, locked, or holding a key)
/// as a 16-bit number, item 0 lowest, most significant byte first.
pub open spec fn flags_be(v: StateView, b: int, table: u8) -> Seq<u8> {
    seq![flag_bits(v, b, table, 8, 8) as u8, flag_bits(v, b, table, 0, 8) as u8]
}

/// The bottle flags and safe counter of bottle `b`.
pub open spec fn record_tail(v: StateView, b: int) -> Seq<u8> {
    seq![
        flag_byte(v.immovable[b]),
        flag_byte(v.pluggable[b]),
        flag_byte(v.plugged[b]),
        flag_byte(v.frozen[b]),
        flag_byte(v.behind_curtain[b]),
        v.safe_counter[b],
    ]
}

/// The lock, color and color curtain of bottle `b`.
pub open spec fn record_last(v: StateView, b: int) -> Seq<u8> {
    seq![flag_byte(v.bottle_locked[b]), v.bottle_color[b], flag_byte(v.color_curtain_active[b])]
}

/// The record of bottle `b` that the hash sees: its number only where a
/// feature ties the bottle to its place, then everything about it that a
/// move can change or that decides where its items may go.
pub open spec fn bottle_record(v: StateView, b: int) -> Seq<u8> {
    record_head(v, b) + colors_be(v, b) + seq![flag_byte(v.finalized[b])] + flags_be(v, b, 0)
        + flags_be(v, b, 1) + record_tail(v, b) + flags_be(v, b, 2) + record_last(v, b)
}

/// Where byte `i` of the little-endian form of a record comes from in the
/// record: the bytes of the packed colors and of each flag table reversed,
/// every other byte in place.
pub open spec fn le_source(i: int) -> int {
    if 3 <= i < 11 {
        13 - i
    } else if i == 12 || i == 14 || i == 22 {
        i + 1
    } else if i == 13 || i == 15 || i == 23 {
        i - 1
    } else {
        i
    }
}

/// A record with each number in it written least significant byte first,
/// as a little-endian machine lays the bottle's fields out for hashing.
pub open spec fn record_le(r: Seq<u8>) -> Seq<u8> {
    Seq::new(r.len(), |i: int| r[le_source(i)])
}

/// The length of a sequence of `n` records as a 64-bit little-endian
/// number, which is how the hash of a slice starts.
pub open spec fn length_bytes(n: nat) -> Seq<u8> {
    seq![n as u8, 0u8, 0u8, 0u8, 0u8, 0u8, 0u8, 0u8]
}

/// What a `DefaultHasher` is fed for a state: the number of bottles, then
/// each record in canonical order, little-endian.
pub open spec fn hash_input(v: StateView) -> Seq<Seq<u8>> {
    let sorted = sorted_records(bottle_records(v));
    seq![length_bytes(sorted.len())] + sorted.map_values(|r: Seq<u8>| record_le(r))
}

/// The records of all bottles, in bottle order.
pub open spec fn bottle_records(v: StateView) -> Seq<Seq<u8>> {
    Seq::new(v.bottle_count, |i: int| bottle_record(v, i + 1))
}

/// Whether `a` comes before `b` in byte order, comparing from byte `k` on.
pub open spec fn lex_less_from(a: Seq<u8>, b: Seq<u8>, k: int) -> bool
    decreases a.len() - k,
{
    if k < 0 || k >= a.len() || k >= b.len() {
        a.len() < b.len()
    } else if a[k] != b[k] {
        a[k] < b[k]
    } else {
        lex_less_from(a, b, k + 1)
    }
}

/// Whether `a` comes before `b` in byte order.
pub open spec fn lex_less(a: Seq<u8>, b: Seq<u8>) -> bool {
    lex_less_from(a, b, 0)
}

/// The first position, from `k` on, whose record does not come before `x`.
pub open spec fn insert_pos(s: Seq<Seq<u8>>, x: Seq<u8>, k: int) -> int
    decreases s.len() - k,
{
    if k < 0 || k >= s.len() {
        s.len() as int
    } else if !lex_less(s[k], x) {
        k
    } else {
        insert_pos(s, x, k + 1)
    }
}

/// The records in canonical order: each one inserted in turn in front of the
/// first record that does not come before it.
pub open spec fn sorted_records(s: Seq<Seq<u8>>) -> Seq<Seq<u8>>
    decreases s.len(),
{
    if s.len() == 0 {
        s
    } else {
        let rest = sorted_records(s.drop_last());
        rest.insert(insert_pos(rest, s.last(), 0), s.last())
    }
}

/// What the search hash of a state is: the finish value of a
/// `DefaultHasher` fed each record in canonical order.
pub open spec fn search_hash_view(v: StateView) -> u64 {
    DefaultHasher::spec_finish(hash_input(v))
}

proof fn lemma_insert_pos_bound(s: Seq<Seq<u8>>, x: Seq<u8>, k: int)
    requires
        0 <= k <= s.len(),
    ensures
        k <= insert_pos(s, x, k) <= s.len(),
    decreases s.len() - k,
{
    if k < s.len() && lex_less(s[k], x) {
        lemma_insert_pos_bound(s, x, k + 1);
    }
}

proof fn lemma_sorted_record_len(s: Seq<Seq<u8>>)
    requires
        forall|i: int| 0 <= i < s.len() ==> (#[trigger] s[i]).len() == 27,
    ensures
        forall|i: int| 0 <= i < sorted_records(s).len() ==> (#[trigger] sorted_records(s)[i]).len() == 27,
    decreases s.len(),
{
    if s.len() > 0 {
        let rest = sorted_records(s.drop_last());
        lemma_sorted_record_len(s.drop_last());
        lemma_insert_pos_bound(rest, s.last(), 0);
        let p = insert_pos(rest, s.last(), 0);
        assert forall|i: int| 0 <= i < sorted_records(s).len() implies (#[trigger] sorted_records(s)[i]).len()
            == 27 by {
            if i < p {
                assert(sorted_records(s)[i] == rest[i]);
            } else if i > p {
                assert(sorted_records(s)[i] == rest[i - 1]);
            }
        }
    }
}

proof fn lemma_sorted_len(s: Seq<Seq<u8>>)
    ensures
        sorted_records(s).len() == s.len(),
    decreases s.len(),
{
    if s.len() > 0 {
        lemma_sorted_len(s.drop_last());
        lemma_insert_pos_bound(sorted_records(s.drop_last()), s.last(), 0);
    }
}

/// Whether `a` is `b` or comes before it in byte order.
pub open spec fn lex_le(a: Seq<u8>, b: Seq<u8>) -> bool {
    a == b || lex_less(a, b)
}

proof fn lemma_lex_irreflexive(a: Seq<u8>, k: int)
    requires
        0 <= k,
    ensures
        !lex_less_from(a, a, k),
    decreases a.len() - k,
{
    if k < a.len() {
        lemma_lex_irreflexive(a, k + 1);
    }
}

proof fn lemma_lex_asymmetric(a: Seq<u8>, b: Seq<u8>, k: int)
    requires
        0 <= k,
        lex_less_from(a, b, k),
    ensures
        !lex_less_from(b, a, k),
    decreases a.len() - k,
{
    if k < a.len() && k < b.len() && a[k] == b[k] {
        lemma_lex_asymmetric(a, b, k + 1);
    }
}

proof fn lemma_lex_connected(a: Seq<u8>, b: Seq<u8>, k: int)
    requires
        0 <= k,
        !lex_less_from(a, b, k),
        !lex_less_from(b, a, k),
    ensures
        a.len() == b.len(),
        forall|i: int| k <= i < a.len() ==> a[i] == b[i],
    decreases a.len() - k,
{
    if k < a.len() && k < b.len() {
        lemma_lex_connected(a, b, k + 1);
    }
}

proof fn lemma_lex_transitive(a: Seq<u8>, b: Seq<u8>, c: Seq<u8>, k: int)
    requires
        0 <= k,
        lex_less_from(a, b, k),
        lex_less_from(b, c, k),
    ensures
        lex_less_from(a, c, k),
    decreases a.len() - k,
{
    if k < a.len() && k < b.len() && k < c.len() && a[k] == b[k] && b[k] == c[k] {
        lemma_lex_transitive(a, b, c, k + 1);
    }
}

/// Byte order on records is a total order.
proof fn lemma_lex_le_total()
    ensures
        total_ordering(|a: Seq<u8>, b: Seq<u8>| lex_le(a, b)),
{
    let leq = |a: Seq<u8>, b: Seq<u8>| lex_le(a, b);
    assert forall|a: Seq<u8>, b: Seq<u8>| #[trigger] leq(a, b) && #[trigger] leq(b, a) implies a
        == b by {
        if a != b {
            lemma_lex_asymmetric(a, b, 0);
        }
    }
    assert forall|a: Seq<u8>, b: Seq<u8>, c: Seq<u8>| #[trigger]
        leq(a, b) && #[trigger] leq(b, c) implies leq(a, c) by {
        if a != b && b != c {
            lemma_lex_transitive(a, b, c, 0);
        }
    }
    assert forall|a: Seq<u8>, b: Seq<u8>| #[trigger] leq(a, b) || #[trigger] leq(b, a) by {
        if !lex_less(a, b) && !lex_less(b, a) {
            lemma_lex_connected(a, b, 0);
            assert(a =~= b);
        }
    }
}

proof fn lemma_insert_pos_spec(s: Seq<Seq<u8>>, x: Seq<u8>, k: int)
    requires
        0 <= k <= s.len(),
    ensures
        forall|i: int| k <= i < insert_pos(s, x, k) ==> lex_less(#[trigger] s[i], x),
        insert_pos(s, x, k) < s.len() ==> !lex_less(s[insert_pos(s, x, k)], x),
    decreases s.len() - k,
{
    if k < s.len() && lex_less(s[k], x) {
        lemma_insert_pos_spec(s, x, k + 1);
    }
}

/// The canonical order holds the records it was given, each as often, in
/// byte order.
proof fn lemma_sorted_records(s: Seq<Seq<u8>>)
    ensures
        sorted_records(s).to_multiset() == s.to_multiset(),
        sorted_by(sorted_records(s), |a: Seq<u8>, b: Seq<u8>| lex_le(a, b)),
    decreases s.len(),
{
    broadcast use vstd::seq_lib::group_to_multiset_ensures;
    broadcast use vstd::multiset::group_multiset_axioms;

    let leq = |a: Seq<u8>, b: Seq<u8>| lex_le(a, b);
    if s.len() > 0 {
        let rest = sorted_records(s.drop_last());
        let x = s.last();
        lemma_sorted_records(s.drop_last());
        lemma_lex_le_total();
        lemma_insert_pos_bound(rest, x, 0);
        lemma_insert_pos_spec(rest, x, 0);
        let p = insert_pos(rest, x, 0);
        let t = rest.insert(p, x);
        assert(t == sorted_records(s));
        assert(t.remove(p) =~= rest);
        assert(t.to_multiset().remove(x) == rest.to_multiset());
        assert(t.to_multiset().count(x) > 0) by {
            assert(t.contains(x)) by {
                assert(t[p] == x);
            }
        }
        assert(t.to_multiset() =~= rest.to_multiset().insert(x));
        assert(s =~= s.drop_last().push(x));
        assert(s.to_multiset() =~= s.drop_last().to_multiset().insert(x));
        if p < rest.len() {
            assert(leq(x, rest[p])) by {
                if x != rest[p] {
                    if !lex_less(x, rest[p]) {
                        lemma_lex_connected(x, rest[p], 0);
                        assert(x =~= rest[p]);
                    }
                }
            }
        }
        assert forall|i: int, j: int| 0 <= i < j < t.len() implies #[trigger] leq(t[i], t[j]) by {
            if j < p {
                assert(leq(rest[i], rest[j]));
            } else if j == p {
                assert(lex_less(rest[i], x));
            } else if i < p {
                assert(lex_less(rest[i], x));
                assert(leq(x, rest[p]));
                assert(leq(rest[p], rest[j - 1]) || p == j - 1);
            } else if i == p {
                assert(leq(rest[p], rest[j - 1]) || p == j - 1);
            } else {
                assert(leq(rest[i - 1], rest[j - 1]));
            }
        }
    }
}

/// Whether bottle `x` of `w` holds everything that bottle `y` of `v` holds.
pub open spec fn same_bottle(w: StateView, x: int, v: StateView, y: int) -> bool {
    &&& w.height[x] == v.height[y]
    &&& w.capacity[x] == v.capacity[y]
    &&& w.content[x] == v.content[y]
    &&& w.finalized[x] == v.finalized[y]
    &&& w.hidden[x] == v.hidden[y]
    &&& w.item_locked[x] == v.item_locked[y]
    &&& w.immovable[x] == v.immovable[y]
    &&& w.pluggable[x] == v.pluggable[y]
    &&& w.plugged[x] == v.plugged[y]
    &&& w.frozen[x] == v.frozen[y]
    &&& w.behind_curtain[x] == v.behind_curtain[y]
    &&& w.safe_counter[x] == v.safe_counter[y]
    &&& w.has_key[x] == v.has_key[y]
    &&& w.bottle_locked[x] == v.bottle_locked[y]
    &&& w.bottle_color[x] == v.bottle_color[y]
    &&& w.color_curtain_active[x] == v.color_curtain_active[y]
}

/// Whether `w` is `v` with everything in bottles `a` and `b` swapped.
pub open spec fn bottles_swapped(v: StateView, w: StateView, a: int, b: int) -> bool {
    &&& w.bottle_count == v.bottle_count
    &&& forall|x: int|
        1 <= x <= v.bottle_count ==> #[trigger] same_bottle(w, x, v, swap_index(x, a, b))
}

/// Bottle `x` with bottles `a` and `b` traded.
pub open spec fn swap_index(x: int, a: int, b: int) -> int {
    if x == a {
        b
    } else if x == b {
        a
    } else {
        x
    }
}

/// Two bottles that no feature ties to their place can trade everything
/// they hold without changing the search hash.
pub proof fn law_search_hash_swap(v: StateView, w: StateView, a: int, b: int)
    requires
        1 <= a < b <= v.bottle_count,
        bottles_swapped(v, w, a, b),
        !keyed_bottle(v, a),
        !keyed_bottle(v, b),
    ensures
        search_hash_view(v) == search_hash_view(w),
{
    let rv = bottle_records(v);
    let rw = bottle_records(w);
    let swapped = rv.update(a - 1, rv[b - 1]).update(b - 1, rv[a - 1]);
    assert forall|i: int| 0 <= i < rw.len() implies rw[i] == swapped[i] by {
        let x = i + 1;
        let y = swap_index(x, a, b);
        assert(same_bottle(w, x, v, y));
        assert(keyed_bottle(w, x) == keyed_bottle(v, y));
        assert(record_head(w, x) == record_head(v, y));
        assert(colors_be(w, x) =~= colors_be(v, y));
        assert(flags_be(w, x, 0) == flags_be(v, y, 0)) by {
            lemma_flag_bits_same(w, x, v, y, 0, 8, 8);
            lemma_flag_bits_same(w, x, v, y, 0, 0, 8);
        }
        assert(flags_be(w, x, 1) == flags_be(v, y, 1)) by {
            lemma_flag_bits_same(w, x, v, y, 1, 8, 8);
            lemma_flag_bits_same(w, x, v, y, 1, 0, 8);
        }
        assert(flags_be(w, x, 2) == flags_be(v, y, 2)) by {
            lemma_flag_bits_same(w, x, v, y, 2, 8, 8);
            lemma_flag_bits_same(w, x, v, y, 2, 0, 8);
        }
        assert(record_tail(w, x) == record_tail(v, y));
        assert(record_last(w, x) == record_last(v, y));
        assert(rw[i] == bottle_record(v, y));
    }
    assert(rw =~= swapped);
    broadcast use vstd::seq_lib::to_multiset_update;
    broadcast use vstd::multiset::group_multiset_axioms;
    let m = rv.to_multiset();
    let s1 = rv.update(a - 1, rv[b - 1]);
    assert(s1.to_multiset() == m.insert(rv[b - 1]).remove(rv[a - 1]));
    assert(swapped.to_multiset() == s1.to_multiset().insert(rv[a - 1]).remove(s1[b - 1]));
    assert(s1[b - 1] == rv[b - 1]);
    let ra = rv[a - 1];
    let rb = rv[b - 1];
    assert(m.count(ra) >= 1) by {
        broadcast use vstd::seq_lib::to_multiset_contains;
        assert(rv.contains(ra));
    }
    let m1 = m.insert(rb);
    let m2 = m1.remove(ra);
    let m3 = m2.insert(ra);
    let m4 = m3.remove(rb);
    assert forall|z: Seq<u8>| m4.count(z) == m.count(z) by {}
    assert(m4 =~= m);
    assert(swapped.to_multiset() =~= m);
    law_search_hash_permutation(v, w);
}

proof fn lemma_flag_bits_same(w: StateView, x: int, v: StateView, y: int, table: u8, lo: int, n: nat)
    requires
        same_bottle(w, x, v, y),
    ensures
        flag_bits(w, x, table, lo, n) == flag_bits(v, y, table, lo, n),
    decreases n,
{
    if n > 0 {
        lemma_flag_bits_same(w, x, v, y, table, lo + 1, (n - 1) as nat);
    }
}


/// States whose bottles have the same records, in whatever order, get the
/// same search hash: bottles that no feature ties to their place may be
/// exchanged without changing it.
pub proof fn law_search_hash_permutation(v: StateView, w: StateView)
    requires
        bottle_records(v).to_multiset() == bottle_records(w).to_multiset(),
    ensures
        search_hash_view(v) == search_hash_view(w),
{
    lemma_sorted_records(bottle_records(v));
    lemma_sorted_records(bottle_records(w));
    lemma_lex_le_total();
    vstd::seq_lib::lemma_sorted_unique(
        sorted_records(bottle_records(v)),
        sorted_records(bottle_records(w)),
        |a: Seq<u8>, b: Seq<u8>| lex_le(a, b),
    );
}

/// Whether `a` comes before `b` in byte order.
fn bytes_less(a: &Vec<u8>, b: &Vec<u8>) -> (r: bool)
    ensures
        r == lex_less(a@, b@),
{
    let mut k: usize = 0;
    while k < a.len() && k < b.len()
        invariant
            0 <= k <= a@.len(),
            k <= b@.len(),
            lex_less(a@, b@) == lex_less_from(a@, b@, k as int),
        decreases a@.len() - k,
    {
        if a[k] != b[k] {
            return a[k] < b[k];
        }
        k = k + 1;
    }
    a.len() < b.len()
}

/// One of the per-item flag tables of a bottle: hidden, locked, or holding
/// a key.
pub open spec fn item_flag(v: StateView, b: int, table: u8, i: int) -> bool {
    if table == 0 {
        v.hidden[b][i]
    } else if table == 1 {
        v.item_locked[b][i]
    } else {
        v.has_key[b][i]
    }
}

/// Items `lo` to `lo + 7` of one per-item flag table of a bottle as a
/// byte, item `lo` lowest.
fn flag_half_of(state: &State, bottle: u8, table: u8, lo: u8) -> (r: u8)
    requires
        bottle < 32,
        lo == 0 || lo == 8,
    ensures
        r as nat == flag_bits(state@, bottle as int, table, lo as int, 8),
{
    let ghost v = state@;
    let mut acc: u8 = 0;
    let mut i: u8 = 8;
    while i > 0
        invariant
            v == state@,
            bottle < 32,
            lo == 0 || lo == 8,
            0 <= i <= 8,
            acc as nat == flag_bits(v, bottle as int, table, lo + i, (8 - i) as nat),
            acc < two_to((8 - i) as nat),
        decreases i,
    {
        let k = lo + i - 1;
        let flag = if table == 0 {
            state.get_item_hidden(bottle, k)
        } else if table == 1 {
            state.get_item_locked(bottle, k)
        } else {
            state.get_item_has_key(bottle, k)
        };
        proof {
            assert(two_to((8 - i + 1) as nat) == 2 * two_to((8 - i) as nat));
            assert(two_to((8 - i + 1) as nat) <= 256) by {
                reveal_with_fuel(two_to, 9);
                lemma_two_to_mono((8 - i + 1) as nat, 8);
            }
        }
        acc = 2 * acc + if flag {
            1
        } else {
            0
        };
        i = i - 1;
    }
    acc
}

/// Two to the power `n`.
pub open spec fn two_to(n: nat) -> nat
    decreases n,
{
    if n == 0 {
        1
    } else {
        2 * two_to((n - 1) as nat)
    }
}

proof fn lemma_two_to_mono(a: nat, b: nat)
    requires
        a <= b,
    ensures
        two_to(a) <= two_to(b),
    decreases b,
{
    if a < b {
        lemma_two_to_mono(a, (b - 1) as nat);
    }
}

/// The packed colors of a bottle, most significant byte first.
fn colors_be_of(state: &State, bottle: u8) -> (r: Vec<u8>)
    requires
        bottle < 32,
        wf_view(state@),
    ensures
        r@ == colors_be(state@, bottle as int),
{
    let mut out: Vec<u8> = Vec::new();
    let mut k: u8 = 0;
    while k < 8
        invariant
            bottle < 32,
            wf_view(state@),
            0 <= k <= 8,
            out@ == Seq::new(k as nat, |j: int| color_pair(state@, bottle as int, 7 - j)),
        decreases 8 - k,
    {
        let low = state.get_color(bottle, 2 * (7 - k));
        let high = state.get_color(bottle, 2 * (7 - k) + 1);
        out.push(low + 16 * high);
        k = k + 1;
        assert(out@ =~= Seq::new(k as nat, |j: int| color_pair(state@, bottle as int, 7 - j)));
    }
    assert(out@ =~= colors_be(state@, bottle as int));
    out
}

/// A per-item flag table of a bottle as a 16-bit number, most significant
/// byte first.
fn flags_be_of(state: &State, bottle: u8, table: u8) -> (r: Vec<u8>)
    requires
        bottle < 32,
    ensures
        r@ == flags_be(state@, bottle as int, table),
{
    let mut out: Vec<u8> = Vec::new();
    let high = flag_half_of(state, bottle, table, 8);
    let low = flag_half_of(state, bottle, table, 0);
    out.push(high);
    out.push(low);
    assert(out@ =~= flags_be(state@, bottle as int, table));
    out
}

/// A record with each number in it written least significant byte first.
fn record_le_of(r: &Vec<u8>) -> (out: Vec<u8>)
    requires
        r@.len() == 27,
    ensures
        out@ == record_le(r@),
{
    let mut out: Vec<u8> = Vec::new();
    let mut i: usize = 0;
    while i < 27
        invariant
            r@.len() == 27,
            0 <= i <= 27,
            out@ == Seq::new(i as nat, |k: int| r@[le_source(k)]),
        decreases 27 - i,
    {
        let src: usize = if 3 <= i && i < 11 {
            13 - i
        } else if i == 12 || i == 14 || i == 22 {
            i + 1
        } else if i == 13 || i == 15 || i == 23 {
            i - 1
        } else {
            i
        };
        out.push(r[src]);
        i = i + 1;
        assert(out@ =~= Seq::new(i as nat, |k: int| r@[le_source(k)]));
    }
    assert(out@ =~= record_le(r@));
    out
}

/// The record of bottle `bottle`.
fn bottle_record_of(state: &State, bottle: u8) -> (r: Vec<u8>)
    requires
        1 <= bottle < 32,
        wf_view(state@),
    ensures
        r@ == bottle_record(state@, bottle as int),
{
    let ghost v = state@;
    let mut out = record_head_of(state, bottle);
    let mut items = colors_be_of(state, bottle);
    out.append(&mut items);
    let mut finalized: Vec<u8> = Vec::new();
    finalized.push(if state.get_bottle_finalized(bottle) {
        1
    } else {
        0
    });
    assert(finalized@ =~= seq![flag_byte(v.finalized[bottle as int])]);
    out.append(&mut finalized);
    let mut hidden = flags_be_of(state, bottle, 0);
    out.append(&mut hidden);
    let mut locked = flags_be_of(state, bottle, 1);
    out.append(&mut locked);
    let mut tail = record_tail_of(state, bottle);
    out.append(&mut tail);
    let mut keys = flags_be_of(state, bottle, 2);
    out.append(&mut keys);
    let mut last: Vec<u8> = Vec::new();
    last.push(if state.get_bottle_locked(bottle) {
        1
    } else {
        0
    });
    last.push(state.get_bottle_color(bottle));
    last.push(if state.get_color_curtain_active(bottle) {
        1
    } else {
        0
    });
    assert(last@ =~= record_last(v, bottle as int));
    out.append(&mut last);
    out
}

/// The head of the record of bottle `bottle`.
fn record_head_of(state: &State, bottle: u8) -> (r: Vec<u8>)
    requires
        1 <= bottle < 32,
    ensures
        r@ == record_head(state@, bottle as int),
{
    let ghost v = state@;
    let mut has_key = false;
    let mut i: u8 = 0;
    while i < 16
        invariant
            v == state@,
            1 <= bottle < 32,
            0 <= i <= 16,
            has_key == exists|k: int| 0 <= k < i && #[trigger] v.has_key[bottle as int][k],
        decreases 16 - i,
    {
        if state.get_item_has_key(bottle, i) {
            has_key = true;
        }
        i = i + 1;
    }
    let keyed = state.get_frozen(bottle) || state.get_behind_curtain(bottle)
        || state.get_safe_counter(bottle) != 0 || state.get_bottle_locked(bottle)
        || state.get_color_curtain_active(bottle) || has_key;
    let mut out: Vec<u8> = Vec::new();
    out.push(if keyed {
        bottle
    } else {
        0
    });
    out.push(state.get_height(bottle));
    out.push(state.get_capacity(bottle));
    assert(out@ =~= record_head(v, bottle as int));
    out
}

/// The bottle flags and safe counter of bottle `bottle`.
fn record_tail_of(state: &State, bottle: u8) -> (r: Vec<u8>)
    requires
        1 <= bottle < 32,
    ensures
        r@ == record_tail(state@, bottle as int),
{
    let mut tail: Vec<u8> = Vec::new();
    tail.push(if state.get_bottle_immovable(bottle) {
        1
    } else {
        0
    });
    tail.push(if state.get_pluggable_bottle(bottle) {
        1
    } else {
        0
    });
    tail.push(if state.get_bottle_plugged(bottle) {
        1
    } else {
        0
    });
    tail.push(if state.get_frozen(bottle) {
        1
    } else {
        0
    });
    tail.push(if state.get_behind_curtain(bottle) {
        1
    } else {
        0
    });
    tail.push(state.get_safe_counter(bottle));
    assert(tail@ =~= record_tail(state@, bottle as int));
    tail
}

/// The records as sequences.
pub open spec fn records_view(rs: Seq<Vec<u8>>) -> Seq<Seq<u8>> {
    rs.map_values(|r: Vec<u8>| r@)
}

/// A hash of a state that aims to be equal for states that lead to the same
/// outcomes: bottles that no feature ties to their place are only told
/// apart by their contents, in any order.
pub fn search_hash(state: &State) -> (r: u64)
    requires
        state.wf(),
    ensures
        r == search_hash_view(state@),
{
    let ghost v = state@;
    let ghost records = bottle_records(v);
    let count = state.bottle_count();
    let mut sorted: Vec<Vec<u8>> = Vec::new();
    let mut bottle: u8 = 1;
    while bottle <= count
        invariant
            state.wf(),
            v == state@,
            records == bottle_records(v),
            count == v.bottle_count,
            1 <= bottle <= count + 1,
            records_view(sorted@) == sorted_records(records.take(bottle - 1)),
        decreases count + 1 - bottle,
    {
        assert(v.content[bottle as int].len() == 16);
        let record = bottle_record_of(state, bottle);
        let ghost rest = records_view(sorted@);
        let mut p: usize = 0;
        proof {
            lemma_sorted_len(records.take(bottle - 1));
        }
        while p < sorted.len() && bytes_less(&sorted[p], &record)
            invariant
                0 <= p <= sorted@.len(),
                rest == records_view(sorted@),
                insert_pos(rest, record@, 0) == insert_pos(rest, record@, p as int),
            decreases sorted@.len() - p,
        {
            p = p + 1;
        }
        assert(insert_pos(rest, record@, p as int) == p);
        let ghost rec = record@;
        sorted.insert(p, record);
        proof {
            assert(records.take(bottle as int).drop_last() =~= records.take(bottle - 1));
            assert(records.take(bottle as int).last() == rec);
            assert(records_view(sorted@) =~= rest.insert(p as int, rec));
        }
        bottle = bottle + 1;
    }
    assert(records.take(count as int) =~= records);
    proof {
        lemma_sorted_len(records);
        assert forall|i: int| 0 <= i < records.len() implies (#[trigger] records[i]).len() == 27 by {}
        lemma_sorted_record_len(records);
        assert forall|i: int| 0 <= i < sorted@.len() implies (#[trigger] sorted@[i])@.len() == 27 by {
            assert(records_view(sorted@)[i] == sorted@[i]@);
        }
    }
    let ghost sv = records_view(sorted@);
    let mut hasher = DefaultHasher::new();
    let n = sorted.len();
    let prefix: Vec<u8> = vec![n as u8, 0, 0, 0, 0, 0, 0, 0];
    hasher.write(prefix.as_slice());
    proof {
        assert(prefix@ =~= length_bytes(sv.len()));
    }
    let mut j: usize = 0;
    while j < sorted.len()
        invariant
            0 <= j <= sorted@.len(),
            sv == records_view(sorted@),
            forall|i: int| 0 <= i < sorted@.len() ==> (#[trigger] sorted@[i])@.len() == 27,
            hasher@ == seq![length_bytes(sv.len())] + sv.take(j as int).map_values(
                |r: Seq<u8>| record_le(r),
            ),
        decreases sorted@.len() - j,
    {
        let le = record_le_of(&sorted[j]);
        hasher.write(le.as_slice());
        proof {
            assert(sv[j as int] == sorted@[j as int]@);
        }
        j = j + 1;
        assert(hasher@ =~= seq![length_bytes(sv.len())] + sv.take(j as int).map_values(
            |r: Seq<u8>| record_le(r),
        ));
    }
    assert(sv.take(j as int) =~= sv);
    hasher.finish()
}

} // verus!

verus! {

/// The deepest search allowed.
pub const MAX_SEARCH_DEPTH: i8 = 125;

/// Why a search was refused.
#[derive(Clone, Copy, PartialEq, Eq, Debug)]
pub enum SearchError {
    /// A depth below zero or above the deepest search allowed.
    InvalidDepth,
    /// A visited table that is too small, too large or not a power of two.
    InvalidVisitedSize,
}

impl SearchError {
    /// The text that explains this refusal.
    pub fn message(&self) -> (r: String)
        ensures
            r@ == match *self {
                SearchError::InvalidDepth => "invalid depth"@,
                SearchError::InvalidVisitedSize => "invalid visited size"@,
            },
    {
        match self {
            SearchError::InvalidDepth => "invalid depth".to_owned(),
            SearchError::InvalidVisitedSize => "invalid visited size".to_owned(),
        }
    }
}

/// Whether `n` is a power of two.
pub open spec fn is_pow2(n: int) -> bool
    decreases n,
{
    if n <= 1 {
        n == 1
    } else {
        n % 2 == 0 && is_pow2(n / 2)
    }
}

fn power_of_two(n: usize) -> (r: bool)
    ensures
        r == is_pow2(n as int),
{
    let mut x = n;
    while x > 1 && x % 2 == 0
        invariant
            is_pow2(n as int) == is_pow2(x as int),
        decreases x,
    {
        x = x / 2;
    }
    x == 1
}

/// The value kept in the low byte of a table entry, read as a signed byte.
pub open spec fn byte_mark(b: int) -> i8 {
    if b < 128 {
        b as i8
    } else {
        (b - 256) as i8
    }
}

/// A value that a table entry may hold: every signed byte but the two that
/// are never written.
pub open spec fn mark_ok(m: i8) -> bool {
    m != 127 && m != -127
}

/// The entry of a table of `len` entries that a hash uses.
pub open spec fn table_slot(hash: u64, len: int) -> int {
    hash as int % len
}

/// The part of a hash that an entry keeps: its top 24 bits.
pub open spec fn hash_tag(hash: u64) -> int {
    (hash >> 40u64) as int
}

/// A signed byte as the unsigned byte with the same bits.
pub open spec fn mark_byte(v: i8) -> int {
    if v >= 0 {
        v as int
    } else {
        v + 256
    }
}

/// The entry that keeps `value` for `hash`: the tag of the hash above the
/// value's byte.
pub open spec fn table_entry(hash: u64, value: i8) -> u32 {
    (hash_tag(hash) * 256 + mark_byte(value)) as u32
}

/// What a table gives back for a hash: the value in its entry when the
/// entry carries the hash's tag, zero otherwise.
pub open spec fn table_read(t: Seq<u32>, hash: u64) -> i8 {
    let e = t[table_slot(hash, t.len() as int)] as int;
    if e / 256 == hash_tag(hash) {
        byte_mark(e % 256)
    } else {
        0
    }
}

/// Whether `v` is unsolved and its first listed move solves it, with the
/// two states kept in different entries, or under different tags, of a
/// table of `len` entries.
pub open spec fn first_move_solves(v: StateView, len: int) -> bool {
    let w = apply_view(v, moves_view(v)[0]);
    &&& !solved_view(v)
    &&& moves_view(v).len() > 0
    &&& solved_view(w)
    &&& (table_slot(search_hash_view(v), len) != table_slot(search_hash_view(w), len) || hash_tag(
        search_hash_view(v),
    ) != hash_tag(search_hash_view(w)))
}

/// Whether `v` is unsolved and its first listed move solves it, with the
/// two states in different slots of a table of `len` slots.
pub open spec fn first_move_solves_apart(v: StateView, len: int) -> bool {
    let w = apply_view(v, moves_view(v)[0]);
    &&& !solved_view(v)
    &&& moves_view(v).len() > 0
    &&& solved_view(w)
    &&& table_slot(state_hash_view(v), len) != table_slot(state_hash_view(w), len)
}

/// Every entry of the table holds an allowed value.
pub open spec fn table_ok(t: Seq<u32>) -> bool {
    forall|i: int| 0 <= i < t.len() ==> mark_ok(byte_mark(#[trigger] t[i] as int % 256))
}

/// What a search step may return with `remaining` moves left: no solution
/// at all, a search cut short (negative), or one more than the number of
/// moves of the solution found.
pub open spec fn result_ok(r: i8, remaining: int) -> bool {
    r == i8::MIN || -126 <= r <= -1 || 1 <= r <= remaining + 1
}

/// Whether `w` follows from `v` by at most `depth` listed moves.
pub open spec fn within(v: StateView, w: StateView, depth: int) -> bool {
    exists|k: nat| k <= depth && #[trigger] leads_to(v, w, k)
}

/// Whether `n` listed moves lead from `v` to a solved state.
pub open spec fn solvable_in(v: StateView, n: nat) -> bool {
    exists|w: StateView| #[trigger] leads_to(v, w, n) && solved_view(w)
}

/// Whether states within `depth` moves of `start` that share the entry and
/// the tag of their search hashes in a table of `len` entries can be solved
/// in the same numbers of moves, as bottle permutations of each other are.
pub open spec fn harmless_table_collisions(start: StateView, depth: int, len: int) -> bool {
    forall|a: StateView, b: StateView, n: nat|
        within(start, a, depth) && within(start, b, depth) && #[trigger] table_slot(
            search_hash_view(a),
            len,
        ) == #[trigger] table_slot(search_hash_view(b), len) && hash_tag(search_hash_view(a))
            == hash_tag(search_hash_view(b)) && #[trigger] solvable_in(a, n) ==> solvable_in(b, n)
}

/// Whether every positive value the table gives for a state within `depth`
/// moves of `start` is one more than the length of a real solution from it.
pub open spec fn sound_table(t: Seq<u32>, start: StateView, depth: int) -> bool {
    forall|w: StateView|
        within(start, w, depth) && #[trigger] table_read(t, search_hash_view(w)) > 0
            ==> solvable_in(w, (table_read(t, search_hash_view(w)) - 1) as nat)
}

/// No move leads from a state to itself.
pub(crate) proof fn lemma_leads_to_zero(v: StateView)
    ensures
        leads_to(v, v, 0),
{
    let p = seq![v];
    assert(is_path(p));
}

/// A listed move followed by `n` more is `n + 1` moves.
proof fn lemma_leads_to_prepend(v: StateView, c: StateView, w: StateView, n: nat)
    requires
        one_move(v, c),
        leads_to(c, w, n),
    ensures
        leads_to(v, w, n + 1),
{
    let p = choose|p: Seq<StateView>|
        #[trigger] is_path(p) && p.len() == n + 1 && p[0] == c && p[n as int] == w;
    let q = seq![v] + p;
    assert forall|j: int| 0 <= j < q.len() - 1 implies #[trigger] one_move(q[j], q[j + 1]) by {
        if j > 0 {
            assert(q[j] == p[j - 1] && q[j + 1] == p[(j - 1) + 1]);
        }
    }
    assert(is_path(q) && q.len() == (n + 1) + 1 && q[0] == v && q[(n + 1) as int] == w);
}

proof fn lemma_entry_parts(hash: u64, value: i8)
    ensures
        table_entry(hash, value) as int / 256 == hash_tag(hash),
        byte_mark(table_entry(hash, value) as int % 256) == value,
{
    assert((hash >> 40u64) < 0x100_0000u64) by (bit_vector);
    let t = hash_tag(hash);
    let b = mark_byte(value);
    assert(0 <= b < 256);
    assert(0 <= t * 256 + b < 0x1_0000_0000) by (nonlinear_arith)
        requires
            0 <= t < 0x100_0000,
            0 <= b < 256,
    ;
    assert((t * 256 + b) / 256 == t && (t * 256 + b) % 256 == b) by (nonlinear_arith)
        requires
            0 <= t,
            0 <= b < 256,
    ;
}

/// Storing a value for a state within reach keeps the table sound, when
/// the value is not positive or one more than a real solution length.
proof fn lemma_store_sound(
    t: Seq<u32>,
    start: StateView,
    depth: int,
    v: StateView,
    value: i8,
)
    requires
        t.len() > 0,
        sound_table(t, start, depth),
        harmless_table_collisions(start, depth, t.len() as int),
        within(start, v, depth),
        value > 0 ==> solvable_in(v, (value - 1) as nat),
    ensures
        sound_table(
            t.update(
                table_slot(search_hash_view(v), t.len() as int),
                table_entry(search_hash_view(v), value),
            ),
            start,
            depth,
        ),
{
    let hv = search_hash_view(v);
    let slot = table_slot(hv, t.len() as int);
    let t2 = t.update(slot, table_entry(hv, value));
    lemma_entry_parts(hv, value);
    assert forall|w: StateView|
        within(start, w, depth) && #[trigger] table_read(t2, search_hash_view(w)) > 0 implies solvable_in(
        w,
        (table_read(t2, search_hash_view(w)) - 1) as nat,
    ) by {
        let hw = search_hash_view(w);
        let sw = table_slot(hw, t.len() as int);
        assert(0 <= sw < t.len());
        if sw == slot {
            if hash_tag(hw) == hash_tag(hv) && value > 0 {
                assert(solvable_in(v, (value - 1) as nat));
                assert(solvable_in(w, (value - 1) as nat));
            }
        } else {
            assert(t2[sw] == t[sw]);
            assert(table_read(t2, hw) == table_read(t, hw));
        }
    }
}

/// Whether one of the states on the search path, each with the moves it was
/// left, can be solved within those moves and within `n` moves.
pub open spec fn stack_solvable(s: Seq<(StateView, int)>, n: nat) -> bool {
    exists|k: int, m: nat|
        #![trigger solvable_in(s[k].0, m)]
        0 <= k < s.len() && m <= s[k].1 && m <= n && solvable_in(s[k].0, m)
}

/// Whether the failure `value` speaks of solutions of `n` moves: of every
/// length for `i8::MIN`, of at most `-value - 1` moves for another
/// negative value.
pub open spec fn fail_covers(value: i8, n: nat) -> bool {
    value < 0 && (value == i8::MIN || n <= -(value as int) - 1)
}

/// Whether every solution of `x` that the failure `value` speaks of is
/// matched by a solution, no longer, of a state on the search path `s`
/// within the moves left to it.
pub open spec fn excused(x: StateView, value: i8, s: Seq<(StateView, int)>) -> bool {
    forall|n: nat| fail_covers(value, n) && #[trigger] solvable_in(x, n) ==> stack_solvable(s, n)
}

/// Whether the table gives no success for a state within `depth` moves of
/// `start`, and every failure it gives is excused by the search path `s`.
pub open spec fn failures_excused(
    t: Seq<u32>,
    start: StateView,
    depth: int,
    s: Seq<(StateView, int)>,
) -> bool {
    forall|w: StateView|
        within(start, w, depth) ==> #[trigger] table_read(t, search_hash_view(w)) <= 0 && excused(
            w,
            table_read(t, search_hash_view(w)),
            s,
        )
}

proof fn lemma_stack_solvable_more(s: Seq<(StateView, int)>, x: (StateView, int), n: nat, n2: nat)
    requires
        stack_solvable(s, n),
        n <= n2,
    ensures
        stack_solvable(s.push(x), n2),
        stack_solvable(s, n2),
{
    let (k, m) = choose|k: int, m: nat|
        #![trigger solvable_in(s[k].0, m)]
        0 <= k < s.len() && m <= s[k].1 && m <= n && solvable_in(s[k].0, m);
    assert(s.push(x)[k] == s[k]);
    assert(solvable_in(s.push(x)[k].0, m));
}

/// A longer search path excuses every failure that a shorter one does.
proof fn lemma_push_excused(t: Seq<u32>, start: StateView, depth: int, s: Seq<(StateView, int)>, x: (
    StateView,
    int,
))
    requires
        failures_excused(t, start, depth, s),
    ensures
        failures_excused(t, start, depth, s.push(x)),
{
    assert forall|w: StateView| within(start, w, depth) implies #[trigger] table_read(
        t,
        search_hash_view(w),
    ) <= 0 && excused(w, table_read(t, search_hash_view(w)), s.push(x)) by {
        let val = table_read(t, search_hash_view(w));
        assert(excused(w, val, s));
        assert forall|n: nat| fail_covers(val, n) && #[trigger] solvable_in(w, n) implies stack_solvable(
            s.push(x),
            n,
        ) by {
            lemma_stack_solvable_more(s, x, n, n);
        }
    }
}

/// The smallest number of moves that solves `v`, given one that does.
proof fn lemma_min_solvable(v: StateView, n: nat) -> (n0: nat)
    requires
        solvable_in(v, n),
    ensures
        n0 <= n,
        solvable_in(v, n0),
        forall|m: nat| m < n0 ==> !#[trigger] solvable_in(v, m),
    decreases n,
{
    if exists|m: nat| m < n && #[trigger] solvable_in(v, m) {
        let m = choose|m: nat| m < n && #[trigger] solvable_in(v, m);
        lemma_min_solvable(v, m)
    } else {
        n
    }
}

/// Once `x` is taken off the search path, a failure that `x` excused is
/// excused by the rest of the path, when the failure found for `x` itself
/// is.
proof fn lemma_pop_excused(
    t: Seq<u32>,
    start: StateView,
    depth: int,
    s: Seq<(StateView, int)>,
    x: StateView,
    rem: int,
    rv: i8,
)
    requires
        failures_excused(t, start, depth, s.push((x, rem))),
        excused(x, rv, s),
        0 <= rem,
        fail_covers(rv, rem as nat),
    ensures
        failures_excused(t, start, depth, s),
{
    assert forall|w: StateView| within(start, w, depth) implies #[trigger] table_read(
        t,
        search_hash_view(w),
    ) <= 0 && excused(w, table_read(t, search_hash_view(w)), s) by {
        let val = table_read(t, search_hash_view(w));
        assert(excused(w, val, s.push((x, rem))));
        assert forall|n: nat| fail_covers(val, n) && #[trigger] solvable_in(w, n) implies stack_solvable(
            s,
            n,
        ) by {
            let s2 = s.push((x, rem));
            assert(stack_solvable(s2, n));
            let (k, m) = choose|k: int, m: nat|
                #![trigger solvable_in(s2[k].0, m)]
                0 <= k < s2.len() && m <= s2[k].1 && m <= n && solvable_in(s2[k].0, m);
            if k == s.len() {
                assert(fail_covers(rv, m));
                assert(solvable_in(x, m));
                assert(stack_solvable(s, m));
                lemma_stack_solvable_more(s, (x, rem), m, n);
            } else {
                assert(s2[k] == s[k]);
                assert(solvable_in(s[k].0, m));
            }
        }
    }
}

/// Storing an excused failure keeps the table's failures excused.
proof fn lemma_store_excused(
    t: Seq<u32>,
    start: StateView,
    depth: int,
    s: Seq<(StateView, int)>,
    v: StateView,
    value: i8,
)
    requires
        t.len() > 0,
        failures_excused(t, start, depth, s),
        harmless_table_collisions(start, depth, t.len() as int),
        within(start, v, depth),
        value < 0,
        excused(v, value, s),
    ensures
        failures_excused(
            t.update(
                table_slot(search_hash_view(v), t.len() as int),
                table_entry(search_hash_view(v), value),
            ),
            start,
            depth,
            s,
        ),
{
    let hv = search_hash_view(v);
    let slot = table_slot(hv, t.len() as int);
    let t2 = t.update(slot, table_entry(hv, value));
    lemma_entry_parts(hv, value);
    assert forall|w: StateView| within(start, w, depth) implies #[trigger] table_read(
        t2,
        search_hash_view(w),
    ) <= 0 && excused(w, table_read(t2, search_hash_view(w)), s) by {
        let hw = search_hash_view(w);
        let sw = table_slot(hw, t.len() as int);
        assert(0 <= sw < t.len());
        if sw == slot {
            if hash_tag(hw) == hash_tag(hv) {
                assert(table_read(t2, hw) == value);
                assert forall|n: nat| fail_covers(value, n) && #[trigger] solvable_in(w, n) implies stack_solvable(
                    s,
                    n,
                ) by {
                    assert(solvable_in(v, n));
                }
            } else {
                assert(table_read(t2, hw) == 0);
            }
        } else {
            assert(t2[sw] == t[sw]);
            assert(table_read(t2, hw) == table_read(t, hw));
        }
    }
}

/// Whether the table gives `0` or `1` for every solved state within
/// `depth` moves of `start`: no failure and no longer solution is kept for
/// a solved state.
pub open spec fn solved_reads_ok(t: Seq<u32>, start: StateView, depth: int) -> bool {
    forall|w: StateView|
        within(start, w, depth) && solved_view(w) ==> #[trigger] table_read(t, search_hash_view(w)) == 0
            || table_read(t, search_hash_view(w)) == 1
}

/// A state solves in no moves exactly when it is solved.
proof fn lemma_solvable_zero(v: StateView)
    ensures
        solvable_in(v, 0) <==> solved_view(v),
{
    lemma_leads_to_zero(v);
    if solvable_in(v, 0) {
        let w = choose|w: StateView| #[trigger] leads_to(v, w, 0) && solved_view(w);
        lemma_leads_to_zero_same(v, w);
    }
}

/// Storing `1` for a solved state, or anything for an unsolved one, keeps
/// the table's readings of solved states at `0` or `1`.
proof fn lemma_store_solved_reads(t: Seq<u32>, start: StateView, depth: int, v: StateView, value: i8)
    requires
        t.len() > 0,
        solved_reads_ok(t, start, depth),
        harmless_table_collisions(start, depth, t.len() as int),
        within(start, v, depth),
        solved_view(v) ==> value == 1,
    ensures
        solved_reads_ok(
            t.update(
                table_slot(search_hash_view(v), t.len() as int),
                table_entry(search_hash_view(v), value),
            ),
            start,
            depth,
        ),
{
    let hv = search_hash_view(v);
    let slot = table_slot(hv, t.len() as int);
    let t2 = t.update(slot, table_entry(hv, value));
    lemma_entry_parts(hv, value);
    assert forall|w: StateView| within(start, w, depth) && solved_view(w) implies #[trigger] table_read(
        t2,
        search_hash_view(w),
    ) == 0 || table_read(t2, search_hash_view(w)) == 1 by {
        let hw = search_hash_view(w);
        let sw = table_slot(hw, t.len() as int);
        assert(0 <= sw < t.len());
        if sw == slot {
            if hash_tag(hw) == hash_tag(hv) {
                lemma_solvable_zero(w);
                lemma_solvable_zero(v);
                assert(solvable_in(v, 0));
            }
        } else {
            assert(t2[sw] == t[sw]);
            assert(table_read(t2, hw) == table_read(t, hw));
        }
    }
}

/// Whether a search step that reads `read` for its state searches it again
/// with `remaining` moves left, rather than answering from the table.
pub open spec fn searched_again(read: i8, remaining: int) -> bool {
    read == 0 || (read < 0 && read != i8::MIN && -(read + 1) < remaining)
}

/// Whether `w` is not solved but one listed move solves it.
pub open spec fn one_from_solved(w: StateView) -> bool {
    !solvable_in(w, 0) && solvable_in(w, 1)
}

/// Whether `w` shares the table entry and the tag of its search hash, in a
/// table of `len` entries, with a state on the search path `s`.
pub open spec fn on_path(w: StateView, s: Seq<(StateView, int)>, len: int) -> bool {
    exists|k: int|
        0 <= k < s.len() && #[trigger] table_slot(search_hash_view(s[k].0), len) == table_slot(
            search_hash_view(w),
            len,
        ) && hash_tag(search_hash_view(s[k].0)) == hash_tag(search_hash_view(w))
}

/// Whether the table gives `0`, `2` or `-1` for every state within `depth`
/// moves of `start` that is one move from solved and off the search path
/// `s`: a finished search of such a state keeps its one-move solution.
pub open spec fn near_reads_ok(t: Seq<u32>, start: StateView, depth: int, s: Seq<(StateView, int)>) -> bool {
    forall|w: StateView|
        within(start, w, depth) && one_from_solved(w) && !on_path(w, s, t.len() as int)
            ==> #[trigger] table_read(t, search_hash_view(w)) == 0 || table_read(t, search_hash_view(w)) == 2
            || table_read(t, search_hash_view(w)) == -1
}

/// Two states within reach that share an entry and a tag are both one move
/// from solved or neither is.
proof fn lemma_collision_near(start: StateView, depth: int, len: int, a: StateView, b: StateView)
    requires
        harmless_table_collisions(start, depth, len),
        within(start, a, depth),
        within(start, b, depth),
        table_slot(search_hash_view(a), len) == table_slot(search_hash_view(b), len),
        hash_tag(search_hash_view(a)) == hash_tag(search_hash_view(b)),
    ensures
        one_from_solved(a) == one_from_solved(b),
{
    if solvable_in(a, 0) {
        assert(solvable_in(b, 0));
    }
    if solvable_in(b, 0) {
        assert(solvable_in(a, 0));
    }
    if solvable_in(a, 1) {
        assert(solvable_in(b, 1));
    }
    if solvable_in(b, 1) {
        assert(solvable_in(a, 1));
    }
}

/// Storing a value for `v` keeps the readings of states one move from
/// solved, when the value is `2` or `-1` for such a state.
proof fn lemma_store_near(
    t: Seq<u32>,
    start: StateView,
    depth: int,
    s: Seq<(StateView, int)>,
    v: StateView,
    value: i8,
)
    requires
        t.len() > 0,
        near_reads_ok(t, start, depth, s),
        harmless_table_collisions(start, depth, t.len() as int),
        within(start, v, depth),
        one_from_solved(v) ==> value == 2 || value == -1,
    ensures
        near_reads_ok(
            t.update(
                table_slot(search_hash_view(v), t.len() as int),
                table_entry(search_hash_view(v), value),
            ),
            start,
            depth,
            s,
        ),
{
    let hv = search_hash_view(v);
    let slot = table_slot(hv, t.len() as int);
    let t2 = t.update(slot, table_entry(hv, value));
    lemma_entry_parts(hv, value);
    assert forall|w: StateView|
        within(start, w, depth) && one_from_solved(w) && !on_path(w, s, t2.len() as int) implies #[trigger] table_read(
        t2,
        search_hash_view(w),
    ) == 0 || table_read(t2, search_hash_view(w)) == 2 || table_read(t2, search_hash_view(w)) == -1 by {
        let hw = search_hash_view(w);
        let sw = table_slot(hw, t.len() as int);
        assert(0 <= sw < t.len());
        if sw == slot {
            if hash_tag(hw) == hash_tag(hv) {
                lemma_collision_near(start, depth, t.len() as int, v, w);
            }
        } else {
            assert(t2[sw] == t[sw]);
            assert(table_read(t2, hw) == table_read(t, hw));
        }
    }
}

/// Storing anything for `v` keeps the readings of states one move from
/// solved that are off the search path once `v` is on it.
proof fn lemma_store_near_push(
    t: Seq<u32>,
    start: StateView,
    depth: int,
    s: Seq<(StateView, int)>,
    v: StateView,
    rem: int,
    value: i8,
)
    requires
        t.len() > 0,
        near_reads_ok(t, start, depth, s),
    ensures
        near_reads_ok(
            t.update(
                table_slot(search_hash_view(v), t.len() as int),
                table_entry(search_hash_view(v), value),
            ),
            start,
            depth,
            s.push((v, rem)),
        ),
{
    let hv = search_hash_view(v);
    let slot = table_slot(hv, t.len() as int);
    let t2 = t.update(slot, table_entry(hv, value));
    let s2 = s.push((v, rem));
    let len = t.len() as int;
    lemma_entry_parts(hv, value);
    assert forall|w: StateView|
        within(start, w, depth) && one_from_solved(w) && !on_path(w, s2, t2.len() as int) implies #[trigger] table_read(
        t2,
        search_hash_view(w),
    ) == 0 || table_read(t2, search_hash_view(w)) == 2 || table_read(t2, search_hash_view(w)) == -1 by {
        let hw = search_hash_view(w);
        let sw = table_slot(hw, len);
        assert(0 <= sw < t.len());
        if on_path(w, s, len) {
            let k = choose|k: int|
                0 <= k < s.len() && #[trigger] table_slot(search_hash_view(s[k].0), len) == table_slot(hw, len)
                    && hash_tag(search_hash_view(s[k].0)) == hash_tag(hw);
            assert(s2[k] == s[k]);
            assert(on_path(w, s2, len));
        }
        if sw == slot {
            if hash_tag(hw) == hash_tag(hv) {
                assert(s2[s.len() as int].0 == v);
                assert(table_slot(search_hash_view(s2[s.len() as int].0), len) == table_slot(hw, len));
                assert(on_path(w, s2, len));
            }
        } else {
            assert(t2[sw] == t[sw]);
            assert(table_read(t2, hw) == table_read(t, hw));
        }
    }
}

/// Storing for `v`, as its search ends, a value that is `2` or `-1` if `v`
/// is one move from solved restores the readings for the search path
/// without `v`.
proof fn lemma_store_near_pop(
    t: Seq<u32>,
    start: StateView,
    depth: int,
    s: Seq<(StateView, int)>,
    v: StateView,
    rem: int,
    value: i8,
)
    requires
        t.len() > 0,
        near_reads_ok(t, start, depth, s.push((v, rem))),
        harmless_table_collisions(start, depth, t.len() as int),
        within(start, v, depth),
        one_from_solved(v) ==> value == 2 || value == -1,
    ensures
        near_reads_ok(
            t.update(
                table_slot(search_hash_view(v), t.len() as int),
                table_entry(search_hash_view(v), value),
            ),
            start,
            depth,
            s,
        ),
{
    let hv = search_hash_view(v);
    let slot = table_slot(hv, t.len() as int);
    let t2 = t.update(slot, table_entry(hv, value));
    let s2 = s.push((v, rem));
    let len = t.len() as int;
    lemma_entry_parts(hv, value);
    assert forall|w: StateView|
        within(start, w, depth) && one_from_solved(w) && !on_path(w, s, t2.len() as int) implies #[trigger] table_read(
        t2,
        search_hash_view(w),
    ) == 0 || table_read(t2, search_hash_view(w)) == 2 || table_read(t2, search_hash_view(w)) == -1 by {
        let hw = search_hash_view(w);
        let sw = table_slot(hw, len);
        assert(0 <= sw < t.len());
        if sw == slot {
            if hash_tag(hw) == hash_tag(hv) {
                lemma_collision_near(start, depth, len, v, w);
            }
        } else {
            assert(t2[sw] == t[sw]);
            assert(table_read(t2, hw) == table_read(t, hw));
            if on_path(w, s2, len) {
                let k = choose|k: int|
                    0 <= k < s2.len() && #[trigger] table_slot(search_hash_view(s2[k].0), len) == table_slot(hw, len)
                        && hash_tag(search_hash_view(s2[k].0)) == hash_tag(hw);
                if k < s.len() {
                    assert(s2[k] == s[k]);
                    assert(on_path(w, s, len));
                } else {
                    assert(s2[k].0 == v);
                }
            }
        }
    }
}

/// A state one listed move from a solved one has a listed move that solves it.
proof fn lemma_one_move_solves(v: StateView)
    requires
        solvable_in(v, 1),
    ensures
        exists|jj: int| 0 <= jj < moves_view(v).len() && #[trigger] solved_view(apply_view(v, moves_view(v)[jj])),
{
    let w = choose|w: StateView| #[trigger] leads_to(v, w, 1) && solved_view(w);
    let c = lemma_leads_to_split(v, w, 1);
    lemma_leads_to_zero_same(c, w);
    let i = choose|i: int| 0 <= i < moves_view(v).len() && c == apply_view(v, #[trigger] moves_view(v)[i]);
    assert(solved_view(apply_view(v, moves_view(v)[i])));
}

/// A state two listed moves from a solved one has a listed move to a state
/// one listed move from a solved one.
proof fn lemma_two_moves_solve(v: StateView)
    requires
        solvable_in(v, 2),
    ensures
        exists|jj: int|
            0 <= jj < moves_view(v).len() && #[trigger] solvable_in(apply_view(v, moves_view(v)[jj]), 1),
{
    let w = choose|w: StateView| #[trigger] leads_to(v, w, 2) && solved_view(w);
    let c = lemma_leads_to_split(v, w, 2);
    let i = choose|i: int| 0 <= i < moves_view(v).len() && c == apply_view(v, #[trigger] moves_view(v)[i]);
    assert(leads_to(c, w, 1));
    assert(solvable_in(apply_view(v, moves_view(v)[i]), 1));
}

/// A state with no listed move is not one move from solved.
proof fn lemma_no_moves_not_near(v: StateView)
    requires
        moves_view(v).len() == 0,
    ensures
        !solvable_in(v, 1),
{
    if solvable_in(v, 1) {
        lemma_one_move_solves(v);
    }
}

/// A state whose every listed move leads to a state whose failure is
/// excused by the search path with the state added is excused by the path
/// without it: a shortest solution of the state starts with one of those
/// moves, and cannot go through the state itself.
proof fn lemma_loop_excused(v: StateView, trail: Seq<(StateView, int)>, rem: int, rv: i8, all_failed: bool)
    requires
        !solved_view(v),
        1 <= rem < 127,
        (rv == i8::MIN && all_failed) || rv as int == -rem - 1,
        forall|jj: int, n: nat|
            0 <= jj < moves_view(v).len() && (n + 1 <= rem || all_failed) && #[trigger] solvable_in(
                apply_view(v, moves_view(v)[jj]),
                n,
            ) ==> stack_solvable(trail.push((v, rem)), n),
    ensures
        excused(v, rv, trail),
{
    assert forall|n: nat| fail_covers(rv, n) && #[trigger] solvable_in(v, n) implies stack_solvable(trail, n) by {
        let n0 = lemma_min_solvable(v, n);
        let w = choose|w: StateView| #[trigger] leads_to(v, w, n0) && solved_view(w);
        if n0 == 0 {
            lemma_leads_to_zero_same(v, w);
        } else {
            let c = lemma_leads_to_split(v, w, n0);
            let jj = choose|jj: int|
                0 <= jj < moves_view(v).len() && c == apply_view(v, #[trigger] moves_view(v)[jj]);
            let n1 = (n0 - 1) as nat;
            assert(solvable_in(c, n1));
            assert(solvable_in(apply_view(v, moves_view(v)[jj]), n1));
            let t2 = trail.push((v, rem));
            assert(n1 + 1 <= rem || all_failed);
            assert(stack_solvable(t2, n1));
            let (k, m) = choose|k: int, m: nat|
                #![trigger solvable_in(t2[k].0, m)]
                0 <= k < t2.len() && m <= t2[k].1 && m <= n1 && solvable_in(t2[k].0, m);
            if k == trail.len() {
                assert(solvable_in(v, m));
                assert(false);
            } else {
                assert(t2[k] == trail[k]);
                assert(solvable_in(trail[k].0, m));
                assert(stack_solvable(trail, n1));
                lemma_stack_solvable_more(trail, (v, rem), n1, n);
            }
        }
    }
}

/// A state that no move solves has no solution, and an unsolved state
/// no solution in no moves.
proof fn lemma_dead_excused(v: StateView, trail: Seq<(StateView, int)>, rv: i8)
    requires
        !solved_view(v),
        rv == -1 || (rv == i8::MIN && moves_view(v).len() == 0),
    ensures
        excused(v, rv, trail),
{
    assert forall|n: nat| fail_covers(rv, n) && #[trigger] solvable_in(v, n) implies stack_solvable(trail, n) by {
        let w = choose|w: StateView| #[trigger] leads_to(v, w, n) && solved_view(w);
        if n == 0 {
            lemma_leads_to_zero_same(v, w);
        } else {
            let c = lemma_leads_to_split(v, w, n);
        }
    }
}

/// A depth-first search with a lossy table of visited states. A table
/// entry keeps the top 24 bits of a state's hash and the search's result
/// for it, so two states can share an entry; the search can then prune a
/// useful state or return a shorter solution than exists.
pub struct DFS {
    state: State,
    depth: i8,
    visited: Vec<u32>,
    find_first: bool,
}

impl DFS {
    /// The state searched from.
    pub closed spec fn state_view(&self) -> StateView {
        self.state@
    }

    /// The deepest search.
    pub closed spec fn depth_view(&self) -> i8 {
        self.depth
    }

    /// Whether the search stops at the first solution.
    pub closed spec fn find_first_view(&self) -> bool {
        self.find_first
    }

    /// The number of entries of the visited table.
    pub closed spec fn table_len_view(&self) -> nat {
        self.visited@.len()
    }

    /// A search not yet run: a valid depth, a reachable state and an empty
    /// table.
    pub closed spec fn fresh(&self) -> bool {
        &&& 0 <= self.depth <= MAX_SEARCH_DEPTH
        &&& reach_inv(self.state@)
        &&& self.visited@.len() > 0
        &&& forall|i: int| 0 <= i < self.visited@.len() ==> #[trigger] self.visited@[i] == 0
    }

    /// Prepares a search from `state`, at most `depth` moves deep, with a
    /// visited table of `visited_cache_bytes` bytes.
    pub fn new(state: State, depth: i8, visited_cache_bytes: usize, find_first: bool) -> (r: Result<
        Self,
        SearchError,
    >)
        requires
            reach_inv(state@),
        ensures
            match r {
                Ok(dfs) => {
                    &&& 0 <= depth <= MAX_SEARCH_DEPTH
                    &&& !(visited_cache_bytes < 1_000_000 || visited_cache_bytes
                        > 0xff_ff_ff_ff_ff_ff || !is_pow2(visited_cache_bytes as int))
                    &&& dfs.fresh()
                    &&& dfs.state_view() == state@
                    &&& dfs.depth_view() == depth
                    &&& dfs.find_first_view() == find_first
                    &&& dfs.table_len_view() == visited_cache_bytes / 4
                },
                Err(SearchError::InvalidDepth) => !(0 <= depth <= MAX_SEARCH_DEPTH),
                Err(SearchError::InvalidVisitedSize) => 0 <= depth <= MAX_SEARCH_DEPTH && (
                visited_cache_bytes < 1_000_000 || visited_cache_bytes > 0xff_ff_ff_ff_ff_ff
                    || !is_pow2(visited_cache_bytes as int)),
            },
    {
        if depth < 0 || depth > MAX_SEARCH_DEPTH {
            return Err(SearchError::InvalidDepth);
        }
        if visited_cache_bytes < 1_000_000 || visited_cache_bytes as u64 > 0xff_ff_ff_ff_ff_ff
            || !power_of_two(visited_cache_bytes) {
            return Err(SearchError::InvalidVisitedSize);
        }
        let visited: Vec<u32> = vec![0; visited_cache_bytes / 4];
        Ok(DFS { state, depth, visited, find_first })
    }

    /// The result stored for a hash, or zero when the entry belongs to
    /// other states or is empty.
    fn get_visited(&self, hash: u64) -> (r: i8)
        requires
            self.visited@.len() > 0,
            table_ok(self.visited@),
        ensures
            r == table_read(self.visited@, hash),
            mark_ok(r),
            (forall|i: int| 0 <= i < self.visited@.len() ==> #[trigger] self.visited@[i] == 0)
                ==> r == 0,
    {
        let slot = (hash % (self.visited.len() as u64)) as usize;
        let stored = self.visited[slot];
        assert((hash >> 40u64) < 0x100_0000u64) by (bit_vector);
        if (hash >> 40u64) as u32 == stored / 256 {
            let low = stored % 256;
            assert(self.visited@[slot as int] == stored);
            if low < 128 {
                low as i8
            } else {
                (low as i16 - 256) as i8
            }
        } else {
            0
        }
    }

    /// Stores a result for a hash.
    fn set_visited(&mut self, hash: u64, value: i8)
        requires
            old(self).visited@.len() > 0,
            table_ok(old(self).visited@),
            mark_ok(value),
        ensures
            final(self).visited@ == old(self).visited@.update(
                table_slot(hash, old(self).visited@.len() as int),
                table_entry(hash, value),
            ),
            final(self).visited@.len() == old(self).visited@.len(),
            table_ok(final(self).visited@),
            final(self).state == old(self).state,
            final(self).depth == old(self).depth,
            final(self).find_first == old(self).find_first,
    {
        let slot = (hash % (self.visited.len() as u64)) as usize;
        let tag = (hash >> 40u64) as u32;
        assert((hash >> 40u64) < 0x100_0000u64) by (bit_vector);
        let low: u32 = if value >= 0 {
            value as u32
        } else {
            (value as i32 + 256) as u32
        };
        let stored = tag * 256 + low;
        assert(stored as int % 256 == low) by (nonlinear_arith)
            requires
                stored == tag * 256 + low,
                low < 256,
        ;
        self.visited.set(slot, stored);
    }

    /// Searches from the current state with `remaining` moves left, and
    /// gives back the state as it found it.
    #[verifier::rlimit(100)]
    #[verifier::spinoff_prover]
    fn search_recursive(
        &mut self,
        remaining: u8,
        Ghost(start): Ghost<StateView>,
        Ghost(trail): Ghost<Seq<(StateView, int)>>,
        Ghost(ok): Ghost<bool>,
    ) -> (r: i8)
        requires
            reach_inv(old(self).state@),
            table_ok(old(self).visited@),
            old(self).visited@.len() > 0,
            remaining <= MAX_SEARCH_DEPTH,
            remaining <= old(self).depth,
            within(start, old(self).state@, old(self).depth - remaining),
            harmless_table_collisions(start, old(self).depth as int, old(self).visited@.len() as int)
                ==> sound_table(old(self).visited@, start, old(self).depth as int),
            ok && harmless_table_collisions(start, old(self).depth as int, old(self).visited@.len() as int)
                ==> failures_excused(old(self).visited@, start, old(self).depth as int, trail),
            harmless_table_collisions(start, old(self).depth as int, old(self).visited@.len() as int)
                ==> solved_reads_ok(old(self).visited@, start, old(self).depth as int),
            harmless_table_collisions(start, old(self).depth as int, old(self).visited@.len() as int)
                && !old(self).find_first ==> near_reads_ok(old(self).visited@, start, old(self).depth as int, trail),
        ensures
            harmless_table_collisions(start, old(self).depth as int, old(self).visited@.len() as int)
                && !old(self).find_first ==> near_reads_ok(final(self).visited@, start, old(self).depth as int, trail),
            table_read(old(self).visited@, search_hash_view(old(self).state@)) > 0 && table_read(
                old(self).visited@,
                search_hash_view(old(self).state@),
            ) - 1 <= remaining ==> r == table_read(old(self).visited@, search_hash_view(old(self).state@)),
            (harmless_table_collisions(start, old(self).depth as int, old(self).visited@.len() as int)
                && !old(self).find_first && remaining >= 2 && !solvable_in(old(self).state@, 0)
                && !solvable_in(old(self).state@, 1) && searched_again(
                table_read(old(self).visited@, search_hash_view(old(self).state@)),
                remaining as int,
            ) && exists|jj: int|
                0 <= jj < moves_view(old(self).state@).len() && #[trigger] one_from_solved(
                    apply_view(old(self).state@, moves_view(old(self).state@)[jj]),
                ) && !on_path(
                    apply_view(old(self).state@, moves_view(old(self).state@)[jj]),
                    trail,
                    old(self).visited@.len() as int,
                )) ==> r == 3,
            harmless_table_collisions(start, old(self).depth as int, old(self).visited@.len() as int)
                ==> solved_reads_ok(final(self).visited@, start, old(self).depth as int),
            harmless_table_collisions(start, old(self).depth as int, old(self).visited@.len() as int)
                && solved_view(old(self).state@) ==> r == 1,
            (harmless_table_collisions(start, old(self).depth as int, old(self).visited@.len() as int)
                && !old(self).find_first && remaining >= 1 && !solved_view(old(self).state@)
                && searched_again(table_read(old(self).visited@, search_hash_view(old(self).state@)), remaining as int)
                && exists|jj: int|
                0 <= jj < moves_view(old(self).state@).len() && #[trigger] solved_view(
                    apply_view(old(self).state@, moves_view(old(self).state@)[jj]),
                )) ==> r == 2,
            harmless_table_collisions(start, old(self).depth as int, old(self).visited@.len() as int)
                ==> sound_table(final(self).visited@, start, old(self).depth as int) && (r > 0
                ==> solvable_in(old(self).state@, (r - 1) as nat)),
            final(self).state@ == old(self).state@,
            table_ok(final(self).visited@),
            final(self).visited@.len() == old(self).visited@.len(),
            final(self).depth == old(self).depth,
            final(self).find_first == old(self).find_first,
            result_ok(r, remaining as int),
            r < 0 ==> fail_covers(r, remaining as nat),
            ok && harmless_table_collisions(start, old(self).depth as int, old(self).visited@.len() as int)
                && r < 0 ==> excused(old(self).state@, r, trail) && failures_excused(
                final(self).visited@,
                start,
                old(self).depth as int,
                trail,
            ),
            ((forall|i: int| 0 <= i < old(self).visited@.len() ==> #[trigger] old(self).visited@[i] == 0)
                && remaining >= 1 && first_move_solves(old(self).state@, old(self).visited@.len() as int))
                ==> r == 2,
            table_read(old(self).visited@, search_hash_view(old(self).state@)) == 0 ==> {
                &&& solved_view(old(self).state@) ==> r == 1
                &&& (!solved_view(old(self).state@) && remaining == 0) ==> r == -1
                &&& (!solved_view(old(self).state@) && remaining > 0 && moves_view(
                    old(self).state@,
                ).len() == 0) ==> r == i8::MIN
            },
        decreases remaining,
    {
        let ghost v = self.state@;
        let ghost depth = self.depth as int;
        let ghost cf = harmless_table_collisions(start, depth, self.visited@.len() as int);
        proof {
            let k = choose|k: nat| k <= depth - remaining && #[trigger] leads_to(start, v, k);
            assert(leads_to(start, v, k) && k <= depth);
            assert(within(start, v, depth));
        }
        let ghost okc = ok && cf;
        let ghost len = self.visited@.len() as int;
        let ghost first = (forall|i: int| 0 <= i < len ==> #[trigger] self.visited@[i] == 0)
            && remaining >= 1 && first_move_solves(v, len);
        let error_marker: i8 = -(remaining as i8) - 1;
        let hash = search_hash(&self.state);
        let visited = self.get_visited(hash);
        if visited != 0 {
            if visited == i8::MIN {
                return i8::MIN;
            } else if visited < 0 {
                if -(visited + 1) >= remaining as i8 {
                    return visited;
                }
            } else {
                if visited - 1 <= remaining as i8 {
                    return visited;
                } else {
                    return error_marker;
                }
            }
        }
        if self.state.solved() {
            proof {
                if cf {
                    lemma_leads_to_zero(v);
                    lemma_store_sound(self.visited@, start, depth, v, 1);
                    lemma_store_solved_reads(self.visited@, start, depth, v, 1);
                    if !self.find_first {
                        lemma_solvable_zero(v);
                        lemma_store_near(self.visited@, start, depth, trail, v, 1);
                    }
                }
            }
            self.set_visited(hash, 1);
            return 1;
        }
        if remaining == 0 {
            proof {
                if cf {
                    lemma_store_sound(self.visited@, start, depth, v, error_marker);
                    lemma_store_solved_reads(self.visited@, start, depth, v, error_marker);
                    if !self.find_first {
                        lemma_store_near(self.visited@, start, depth, trail, v, error_marker);
                    }
                }
                if okc {
                    lemma_dead_excused(v, trail, error_marker);
                    lemma_store_excused(self.visited@, start, depth, trail, v, error_marker);
                }
            }
            self.set_visited(hash, error_marker);
            return error_marker;
        }
        let moves = self.state.legal_moves();
        if moves.len() == 0 {
            proof {
                if cf {
                    lemma_store_sound(self.visited@, start, depth, v, i8::MIN);
                    lemma_store_solved_reads(self.visited@, start, depth, v, i8::MIN);
                    if !self.find_first {
                        lemma_no_moves_not_near(v);
                        lemma_store_near(self.visited@, start, depth, trail, v, i8::MIN);
                    }
                }
                if okc {
                    lemma_dead_excused(v, trail, i8::MIN);
                    lemma_store_excused(self.visited@, start, depth, trail, v, i8::MIN);
                }
            }
            self.set_visited(hash, i8::MIN);
            return i8::MIN;
        }
        proof {
            if cf {
                lemma_store_sound(self.visited@, start, depth, v, error_marker);
                lemma_store_solved_reads(self.visited@, start, depth, v, error_marker);
            }
        }
        let ghost zeros = self.visited@;
        let ghost trail2 = trail.push((v, remaining as int));
        proof {
            if okc {
                lemma_push_excused(self.visited@, start, depth, trail, (v, remaining as int));
                assert forall|n: nat| fail_covers(error_marker, n) && #[trigger] solvable_in(v, n) implies stack_solvable(
                    trail2,
                    n,
                ) by {
                    assert(trail2[trail.len() as int] == (v, remaining as int));
                    assert(solvable_in(trail2[trail.len() as int].0, n));
                }
                lemma_store_excused(self.visited@, start, depth, trail2, v, error_marker);
            }
            if cf && !self.find_first {
                lemma_store_near_push(self.visited@, start, depth, trail, v, remaining as int, error_marker);
            }
        }
        self.set_visited(hash, error_marker);
        let mut all_failed = true;
        let mut best_value: i8 = i8::MAX;
        let ghost best = cf && !self.find_first;
        let ghost two = cf && !self.find_first && remaining >= 2 && !solvable_in(v, 0) && !solvable_in(v, 1);
        let ghost table_len = self.visited@.len();
        let mut j: usize = 0;
        while j < moves.len()
            invariant
                self.state@ == v,
                v == old(self).state@,
                !solved_view(v),
                moves@.len() > 0,
                table_len == old(self).visited@.len(),
                self.visited@.len() == table_len,
                self.depth == old(self).depth,
                self.find_first == old(self).find_first,
                error_marker == -(remaining as i8) - 1,
                reach_inv(v),
                moves@.len() == moves_view(v).len(),
                forall|i: int| 0 <= i < moves@.len() ==> #[trigger] moves@[i]@ == moves_view(v)[i],
                table_ok(self.visited@),
                self.visited@.len() > 0,
                1 <= remaining <= MAX_SEARCH_DEPTH,
                best_value == i8::MAX || 2 <= best_value <= remaining + 1,
                0 <= j <= moves@.len(),
                depth == self.depth,
                remaining <= depth,
                within(start, v, depth - remaining),
                hash == search_hash_view(v),
                cf == harmless_table_collisions(start, depth, table_len as int),
                cf ==> sound_table(self.visited@, start, depth),
                cf ==> (best_value != i8::MAX ==> solvable_in(v, (best_value - 1) as nat)),
                len == table_len,
                zeros.len() == len,
                first ==> first_move_solves(v, len) && (forall|i: int| 0 <= i < len ==> #[trigger] zeros[i] == 0),
                first && j == 0 ==> self.visited@ == zeros.update(table_slot(hash, len), table_entry(hash, error_marker)),
                first && j >= 1 ==> best_value == 2,
                j == 0 ==> best_value == i8::MAX,
                trail2 == trail.push((v, remaining as int)),
                okc == (ok && cf),
                cf ==> solved_reads_ok(self.visited@, start, depth),
                best == (cf && !self.find_first),
                searched_again(table_read(old(self).visited@, hash), remaining as int),
                cf && !self.find_first ==> near_reads_ok(self.visited@, start, depth, trail2),
                two == (cf && !self.find_first && remaining >= 2 && !solvable_in(v, 0) && !solvable_in(v, 1)),
                two ==> (exists|jj: int|
                    0 <= jj < j && #[trigger] one_from_solved(apply_view(v, moves_view(v)[jj])) && !on_path(
                        apply_view(v, moves_view(v)[jj]),
                        trail,
                        len,
                    )) ==> best_value <= 3,
                best ==> (exists|jj: int| 0 <= jj < j && #[trigger] solved_view(apply_view(v, moves_view(v)[jj])))
                    ==> best_value == 2,
                okc && best_value == i8::MAX ==> failures_excused(self.visited@, start, depth, trail2),
                okc && best_value == i8::MAX ==> forall|jj: int, n: nat|
                    0 <= jj < j && (n + 1 <= remaining || all_failed) && #[trigger] solvable_in(
                        apply_view(v, moves_view(v)[jj]),
                        n,
                    ) ==> stack_solvable(trail2, n),
                first == ((forall|i: int|
                    0 <= i < old(self).visited@.len() ==> #[trigger] old(self).visited@[i] == 0)
                    && remaining >= 1 && first_move_solves(old(self).state@, old(self).visited@.len() as int)),
            decreases moves@.len() - j,
        {
            let mov = moves[j];
            let ghost child = apply_view(v, moves_view(v)[j as int]);
            proof {
                lemma_listed_move(v, j as int);
                assert(one_move(v, child));
                let k = choose|k: nat| k <= depth - remaining && #[trigger] leads_to(start, v, k);
                lemma_leads_to_step(start, v, child, k);
                assert(leads_to(start, child, k + 1) && k + 1 <= depth - (remaining - 1));
                assert(leads_to(start, child, k + 1) && k + 1 <= depth);
                assert(within(start, child, depth));
            }
            proof {
                if first && j == 0 {
                    let hc = search_hash_view(child);
                    let sc = table_slot(hc, len);
                    assert(0 <= sc < len);
                    let e = self.visited@[sc] as int;
                    lemma_entry_parts(hash, error_marker);
                    if sc != table_slot(hash, len) {
                        assert(self.visited@[sc] == zeros[sc]);
                        assert(e == 0);
                    }
                    assert(table_read(self.visited@, hc) == 0);
                }
            }
            let ghost before_call = self.visited@;
            self.state.apply_move_unchecked(mov);
            assert(first && j == 0 ==> self.state@ == child && self.visited@ == before_call);
            let ghost okj = ok && best_value == i8::MAX;
            assert(self.state@ == child && self.visited@ == before_call);
            let result = self.search_recursive(remaining - 1, Ghost(start), Ghost(trail2), Ghost(okj));
            proof {
                if two && one_from_solved(child) && !on_path(child, trail, len) {
                    if on_path(child, trail2, len) {
                        let k = choose|k: int|
                            0 <= k < trail2.len() && #[trigger] table_slot(search_hash_view(trail2[k].0), len)
                                == table_slot(search_hash_view(child), len) && hash_tag(
                                search_hash_view(trail2[k].0),
                            ) == hash_tag(search_hash_view(child));
                        if k < trail.len() {
                            assert(trail2[k] == trail[k]);
                            assert(on_path(child, trail, len));
                        } else {
                            assert(trail2[k].0 == v);
                            lemma_collision_near(start, depth, len, v, child);
                        }
                    }
                    let rd = table_read(before_call, search_hash_view(child));
                    assert(rd == 0 || rd == 2 || rd == -1);
                    if rd != 2 {
                        lemma_solvable_zero(child);
                        lemma_one_move_solves(child);
                        assert(searched_again(rd, remaining - 1));
                    }
                    assert(result == 2);
                }
            }
            assert(first && j == 0 ==> result == 1);
            assert(cf && solved_view(child) ==> result == 1);
            self.state.undo_move_unchecked(mov);
            proof {
                if cf && result > 0 {
                    let w = choose|w: StateView|
                        #[trigger] leads_to(child, w, (result - 1) as nat) && solved_view(w);
                    lemma_leads_to_prepend(v, child, w, (result - 1) as nat);
                    assert(leads_to(v, w, result as nat));
                }
            }
            all_failed = all_failed && result == i8::MIN;
            let ghost best_before = best_value;
            if result > 0 {
                if result + 1 < best_value {
                    best_value = result + 1;
                }
                if self.find_first {
                    proof {
                        if cf {
                            lemma_store_sound(self.visited@, start, depth, v, best_value);
                            lemma_store_solved_reads(self.visited@, start, depth, v, best_value);
                        }
                    }
                    self.set_visited(hash, best_value);
                    return best_value;
                }
            }
            proof {
                if two && (exists|jj: int|
                    0 <= jj < j + 1 && #[trigger] one_from_solved(apply_view(v, moves_view(v)[jj])) && !on_path(
                        apply_view(v, moves_view(v)[jj]),
                        trail,
                        len,
                    )) {
                    let jj = choose|jj: int|
                        0 <= jj < j + 1 && #[trigger] one_from_solved(apply_view(v, moves_view(v)[jj])) && !on_path(
                            apply_view(v, moves_view(v)[jj]),
                            trail,
                            len,
                        );
                    if jj < j {
                        assert(best_before <= 3);
                    } else {
                        assert(result == 2);
                    }
                }
            }
            j = j + 1;
        }
        let return_value = if best_value == i8::MAX {
            if all_failed {
                i8::MIN
            } else {
                error_marker
            }
        } else {
            best_value
        };
        proof {
            if cf {
                lemma_store_sound(self.visited@, start, depth, v, return_value);
                lemma_store_solved_reads(self.visited@, start, depth, v, return_value);
            }
            if cf && !self.find_first {
                if one_from_solved(v) {
                    lemma_one_move_solves(v);
                    assert(best_value == 2);
                }
                lemma_store_near_pop(self.visited@, start, depth, trail, v, remaining as int, return_value);
            }
            if okc && best_value == i8::MAX {
                lemma_loop_excused(v, trail, remaining as int, return_value, all_failed);
                lemma_pop_excused(self.visited@, start, depth, trail, v, remaining as int, return_value);
                lemma_store_excused(self.visited@, start, depth, trail, v, return_value);
            }
        }
        self.set_visited(hash, return_value);
        return_value
    }

    /// Runs the search: the number of moves of the solution found, or `-1`
    /// when none was found within the depth. A solved state needs no move;
    /// an unsolved one with no depth or no legal move has no solution.
    pub fn search(self) -> (r: i8)
        requires
            self.fresh(),
        ensures
            r == -1 || 0 <= r <= self.depth_view(),
            solved_view(self.state_view()) ==> r == 0,
            (!solved_view(self.state_view()) && (self.depth_view() == 0 || moves_view(
                self.state_view(),
            ).len() == 0)) ==> r == -1,
            harmless_table_collisions(
                self.state_view(),
                self.depth_view() as int,
                self.table_len_view() as int,
            ) ==> (r >= 0 ==> solvable_in(self.state_view(), r as nat)),
            (self.depth_view() >= 1 && first_move_solves(self.state_view(), self.table_len_view() as int))
                ==> r == 1,
            harmless_table_collisions(
                self.state_view(),
                self.depth_view() as int,
                self.table_len_view() as int,
            ) ==> (r == -1 ==> forall|k: nat| k <= self.depth_view() ==> !#[trigger] solvable_in(
                self.state_view(),
                k,
            )),
            (harmless_table_collisions(
                self.state_view(),
                self.depth_view() as int,
                self.table_len_view() as int,
            ) && !self.find_first_view() && self.depth_view() >= 1 && !solved_view(self.state_view())
                && exists|j: int|
                0 <= j < moves_view(self.state_view()).len() && #[trigger] solved_view(
                    apply_view(self.state_view(), moves_view(self.state_view())[j]),
                )) ==> r == 1,
            (harmless_table_collisions(
                self.state_view(),
                self.depth_view() as int,
                self.table_len_view() as int,
            ) && !self.find_first_view()) ==> forall|k: nat|
                k <= 2 && k <= self.depth_view() && #[trigger] solvable_in(self.state_view(), k) ==> 0 <= r <= k,
    {
        let mut search = self;
        let depth = search.depth as u8;
        let ghost start = search.state@;
        proof {
            lemma_leads_to_zero(start);
            assert(leads_to(start, start, 0));
            assert forall|w: StateView|
                within(start, w, depth as int) && #[trigger] table_read(
                    search.visited@,
                    search_hash_view(w),
                ) > 0 implies solvable_in(
                w,
                (table_read(search.visited@, search_hash_view(w)) - 1) as nat,
            ) by {
                let sl = table_slot(search_hash_view(w), search.visited@.len() as int);
                assert(search.visited@[sl] == 0);
            }
        }
        proof {
            assert forall|w: StateView| within(start, w, depth as int) implies #[trigger] table_read(
                search.visited@,
                search_hash_view(w),
            ) <= 0 && excused(w, table_read(search.visited@, search_hash_view(w)), Seq::empty()) by {
                let sl = table_slot(search_hash_view(w), search.visited@.len() as int);
                assert(search.visited@[sl] == 0);
            }
        }
        proof {
            assert forall|w: StateView| within(start, w, depth as int) && solved_view(w) implies #[trigger] table_read(
                search.visited@,
                search_hash_view(w),
            ) == 0 || table_read(search.visited@, search_hash_view(w)) == 1 by {
                let sl = table_slot(search_hash_view(w), search.visited@.len() as int);
                assert(search.visited@[sl] == 0);
            }
            let sl = table_slot(search_hash_view(start), search.visited@.len() as int);
            assert(search.visited@[sl] == 0);
            assert forall|w: StateView|
                within(start, w, depth as int) && one_from_solved(w) && !on_path(
                    w,
                    Seq::<(StateView, int)>::empty(),
                    search.visited@.len() as int,
                ) implies #[trigger] table_read(search.visited@, search_hash_view(w)) == 0 || table_read(
                search.visited@,
                search_hash_view(w),
            ) == 2 || table_read(search.visited@, search_hash_view(w)) == -1 by {
                let sl = table_slot(search_hash_view(w), search.visited@.len() as int);
                assert(search.visited@[sl] == 0);
            }
        }
        let ghost cf = harmless_table_collisions(start, depth as int, search.visited@.len() as int);
        let ghost best = cf && !search.find_first;
        proof {
            if best && depth >= 1 && solvable_in(start, 1) && !solvable_in(start, 0) {
                lemma_solvable_zero(start);
                lemma_one_move_solves(start);
            }
            if best && depth >= 2 && solvable_in(start, 2) && !solvable_in(start, 0) && !solvable_in(start, 1) {
                lemma_two_moves_solve(start);
                let jj = choose|jj: int|
                    0 <= jj < moves_view(start).len() && #[trigger] solvable_in(
                        apply_view(start, moves_view(start)[jj]),
                        1,
                    );
                let c = apply_view(start, moves_view(start)[jj]);
                lemma_listed_move(start, jj);
                lemma_leads_to_zero(start);
                assert(one_move(start, c));
                if solvable_in(c, 0) {
                    let w = choose|w: StateView| #[trigger] leads_to(c, w, 0) && solved_view(w);
                    lemma_leads_to_zero_same(c, w);
                    lemma_leads_to_prepend(start, c, w, 0);
                    assert(solvable_in(start, 1));
                }
                assert(one_from_solved(c));
                assert(!on_path(c, Seq::<(StateView, int)>::empty(), search.visited@.len() as int));
            }
        }
        let result = search.search_recursive(depth, Ghost(start), Ghost(Seq::empty()), Ghost(true));
        proof {
            if best {
                lemma_solvable_zero(start);
                assert forall|k: nat|
                    k <= 2 && k <= depth && #[trigger] solvable_in(start, k) implies 1 <= result <= k + 1 by {
                    if solvable_in(start, 0) {
                        assert(result == 1);
                    } else if k >= 1 && solvable_in(start, 1) {
                        assert(result == 2);
                    } else {
                        assert(k == 2);
                        assert(result == 3);
                    }
                }
            }
        }
        proof {
            if harmless_table_collisions(start, depth as int, search.visited@.len() as int) && result < 0 {
                assert forall|k: nat| k <= depth implies !#[trigger] solvable_in(start, k) by {
                    if solvable_in(start, k) {
                        assert(fail_covers(result, k));
                        assert(stack_solvable(Seq::<(StateView, int)>::empty(), k));
                    }
                }
            }
        }
        if result < 0 {
            -1
        } else {
            result - 1
        }
    }
}

} // verus!

verus! {

/// Whether `w` follows from `u` by one listed move.
pub open spec fn one_move(u: StateView, w: StateView) -> bool {
    exists|i: int| 0 <= i < moves_view(u).len() && w == apply_view(u, #[trigger] moves_view(u)[i])
}

/// Whether each state of `p` follows from the one before by one listed move.
pub open spec fn is_path(p: Seq<StateView>) -> bool {
    forall|j: int| 0 <= j < p.len() - 1 ==> #[trigger] one_move(p[j], p[j + 1])
}

/// Whether `w` follows from `v` by `k` listed moves.
pub open spec fn leads_to(v: StateView, w: StateView, k: nat) -> bool {
    exists|p: Seq<StateView>|
        #[trigger] is_path(p) && p.len() == k + 1 && p[0] == v && p[k as int] == w
}

proof fn lemma_path_reach(p: Seq<StateView>, j: int)
    requires
        is_path(p),
        p.len() > 0,
        reach_inv(p[0]),
        0 <= j < p.len(),
    ensures
        reach_inv(p[j]),
        fixed_part(p[j]) == fixed_part(p[0]),
    decreases j,
{
    if j > 0 {
        lemma_path_reach(p, j - 1);
        assert(one_move(p[j - 1], p[(j - 1) + 1]));
        let u = p[j - 1];
        let i = choose|i: int|
            0 <= i < moves_view(u).len() && p[j] == apply_view(u, #[trigger] moves_view(u)[i]);
        lemma_listed_move(u, i);
        lemma_apply_keeps_fixed(u, moves_view(u)[i]);
    }
}

/// What follows from a reachable state by listed moves is reachable too and
/// keeps the fields that no move changes.
pub proof fn lemma_leads_to_reach(v: StateView, w: StateView, k: nat)
    requires
        reach_inv(v),
        leads_to(v, w, k),
    ensures
        reach_inv(w),
        fixed_part(w) == fixed_part(v),
{
    let p = choose|p: Seq<StateView>|
        #[trigger] is_path(p) && p.len() == k + 1 && p[0] == v && p[k as int] == w;
    lemma_path_reach(p, k as int);
}

/// One more listed move extends a sequence of moves.
pub(crate) proof fn lemma_leads_to_step(v: StateView, u: StateView, w: StateView, k: nat)
    requires
        leads_to(v, u, k),
        one_move(u, w),
    ensures
        leads_to(v, w, k + 1),
{
    let p = choose|p: Seq<StateView>|
        #[trigger] is_path(p) && p.len() == k + 1 && p[0] == v && p[k as int] == u;
    let q = p.push(w);
    assert forall|j: int| 0 <= j < q.len() - 1 implies #[trigger] one_move(q[j], q[j + 1]) by {
        if j < p.len() - 1 {
            assert(one_move(p[j], p[j + 1]));
        }
    }
    assert(is_path(q) && q.len() == (k + 1) + 1 && q[0] == v && q[(k + 1) as int] == w);
}

/// A state with the fixed fields of `base` is the same as itself with them.
proof fn lemma_same_fixed(v: StateView, base: StateView)
    requires
        fixed_part(v) == fixed_part(base),
    ensures
        with_fixed_of(v, base) == v,
{
    assert(with_fixed_of(v, base) =~= v);
}

/// Whether states within `depth` moves of `start` that share their search
/// hash can be solved in the same numbers of moves, as bottle permutations
/// of each other are.
pub open spec fn harmless_hash_collisions(start: StateView, depth: int) -> bool {
    forall|a: StateView, b: StateView, n: nat|
        within(start, a, depth) && within(start, b, depth) && #[trigger] search_hash_view(a)
            == #[trigger] search_hash_view(b) && #[trigger] solvable_in(a, n) ==> solvable_in(b, n)
}

/// Whether some state of `disc` from position `from` on, at level `lvl`,
/// can be solved so that its level and its number of moves add up to at
/// most `bound`.
pub open spec fn reaches_frontier(disc: Seq<StateView>, lvl: Seq<int>, from: int, bound: int) -> bool {
    exists|x: int, m: nat|
        from <= x < disc.len() && lvl[x] + m <= bound && #[trigger] solvable_in(disc[x], m)
}

proof fn lemma_leads_to_zero_same(v: StateView, w: StateView)
    requires
        leads_to(v, w, 0),
    ensures
        w == v,
{
    let p = choose|p: Seq<StateView>| #[trigger] is_path(p) && p.len() == 0 + 1 && p[0] == v && p[0int] == w;
}

/// A sequence of moves starts with a first move.
proof fn lemma_leads_to_split(v: StateView, w: StateView, m: nat) -> (c: StateView)
    requires
        m >= 1,
        leads_to(v, w, m),
    ensures
        one_move(v, c),
        leads_to(c, w, (m - 1) as nat),
{
    let p = choose|p: Seq<StateView>|
        #[trigger] is_path(p) && p.len() == m + 1 && p[0] == v && p[m as int] == w;
    assert(one_move(p[0], p[0int + 1]));
    let q = p.drop_first();
    assert forall|j: int| 0 <= j < q.len() - 1 implies #[trigger] one_move(q[j], q[j + 1]) by {
        assert(one_move(p[j + 1], p[(j + 1) + 1]));
    }
    assert(is_path(q) && q.len() == (m - 1) as nat + 1 && q[0] == p[1] && q[(m - 1) as int] == w);
    p[1]
}

/// Whether every listed move out of `s` leads to a state whose search hash
/// is that of a state of `disc`.
pub open spec fn children_met(disc: Seq<StateView>, s: StateView) -> bool {
    children_met_upto(disc, s, moves_view(s).len() as int)
}

/// Whether the first `n` listed moves out of `s` lead to states whose
/// search hashes are those of states of `disc`.
pub open spec fn children_met_upto(disc: Seq<StateView>, s: StateView, n: int) -> bool {
    forall|i: int|
        0 <= i < n ==> exists|x: int|
            0 <= x < disc.len() && #[trigger] search_hash_view(disc[x]) == search_hash_view(
                apply_view(s, #[trigger] moves_view(s)[i]),
            )
}

/// Once every move out of the state at position `h0` leads to a state whose
/// hash was met, a solution from it is matched by one from a state met
/// later, no longer counting levels and moves together.
proof fn lemma_processed(
    input: StateView,
    depth: int,
    disc: Seq<StateView>,
    lvl: Seq<int>,
    h0: int,
    m: nat,
)
    requires
        harmless_hash_collisions(input, depth + 1),
        disc.len() == lvl.len(),
        0 <= h0 < disc.len(),
        0 <= lvl[h0] <= depth,
        !solved_view(disc[h0]),
        forall|x: int| 0 <= x < disc.len() ==> #[trigger] leads_to(input, disc[x], lvl[x] as nat),
        forall|x: int| 0 <= x < disc.len() ==> 0 <= #[trigger] lvl[x] <= lvl[h0] + 1,
        forall|x: int| 0 <= x < h0 ==> #[trigger] lvl[x] <= lvl[h0],
        children_met(disc, disc[h0]),
        forall|y: int, mm: nat|
            0 <= y < h0 && #[trigger] solvable_in(disc[y], mm) ==> reaches_frontier(
                disc,
                lvl,
                h0,
                lvl[y] + mm,
            ),
        solvable_in(disc[h0], m),
    ensures
        reaches_frontier(disc, lvl, h0 + 1, lvl[h0] + m),
    decreases m,
{
    let s = disc[h0];
    let d = lvl[h0];
    let w = choose|w: StateView| #[trigger] leads_to(s, w, m) && solved_view(w);
    if m == 0 {
        lemma_leads_to_zero_same(s, w);
    } else {
        let c = lemma_leads_to_split(s, w, m);
        assert(solvable_in(c, (m - 1) as nat));
        let i = choose|i: int|
            0 <= i < moves_view(s).len() && c == apply_view(s, #[trigger] moves_view(s)[i]);
        let x = choose|x: int|
            0 <= x < disc.len() && #[trigger] search_hash_view(disc[x]) == search_hash_view(
                apply_view(s, moves_view(s)[i]),
            );
        assert(leads_to(input, s, d as nat));
        lemma_leads_to_step(input, s, c, d as nat);
        assert(within(input, c, depth + 1)) by {
            assert(leads_to(input, c, (d + 1) as nat));
        }
        assert(within(input, disc[x], depth + 1)) by {
            assert(leads_to(input, disc[x], lvl[x] as nat));
        }
        assert(solvable_in(disc[x], (m - 1) as nat));
        assert(0 <= lvl[x] <= d + 1);
        if x > h0 {
            assert(reaches_frontier(disc, lvl, h0 + 1, d + m));
        } else if x == h0 {
            lemma_processed(input, depth, disc, lvl, h0, (m - 1) as nat);
            let (x2, m2) = choose|x2: int, m2: nat|
                h0 + 1 <= x2 < disc.len() && lvl[x2] + m2 <= d + (m - 1) && #[trigger] solvable_in(
                    disc[x2],
                    m2,
                );
            assert(reaches_frontier(disc, lvl, h0 + 1, d + m));
        } else {
            assert(reaches_frontier(disc, lvl, h0, lvl[x] + (m - 1)));
            let (x2, m2) = choose|x2: int, m2: nat|
                h0 <= x2 < disc.len() && lvl[x2] + m2 <= lvl[x] + (m - 1) && #[trigger] solvable_in(
                    disc[x2],
                    m2,
                );
            if x2 > h0 {
                assert(reaches_frontier(disc, lvl, h0 + 1, d + m));
            } else {
                assert(lvl[x] <= d);
                lemma_processed(input, depth, disc, lvl, h0, m2);
                let (x3, m3) = choose|x3: int, m3: nat|
                    h0 + 1 <= x3 < disc.len() && lvl[x3] + m3 <= d + m2 && #[trigger] solvable_in(
                        disc[x3],
                        m3,
                    );
                assert(reaches_frontier(disc, lvl, h0 + 1, d + m));
            }
        }
    }
}

/// A breadth-first search from `input_state`, at most `depth` moves deep:
/// the number of moves of the shortest solution it finds, or `-1`. States
/// whose hashes were seen before are skipped, so a hash shared by two
/// states can hide a solution; but a number it gives is always the length
/// of a real sequence of legal moves that solves the puzzle.
#[verifier::spinoff_prover]
#[verifier::rlimit(100)]
pub fn bfs(input_state: &State, depth: i8) -> (r: Result<i8, SearchError>)
    requires
        reach_inv(input_state@),
    ensures
        match r {
            Err(e) => e == SearchError::InvalidDepth && !(0 <= depth <= MAX_SEARCH_DEPTH),
            Ok(n) => {
                &&& 0 <= depth <= MAX_SEARCH_DEPTH
                &&& n == -1 || (0 <= n <= depth && exists|w: StateView|
                    leads_to(input_state@, w, n as nat) && #[trigger] solved_view(w))
                &&& solved_view(input_state@) ==> n == 0
                &&& harmless_hash_collisions(input_state@, depth + 1) ==> {
                    &&& n >= 0 ==> forall|k: nat| k < n ==> !#[trigger] solvable_in(input_state@, k)
                    &&& n == -1 ==> forall|k: nat| k <= depth ==> !#[trigger] solvable_in(input_state@, k)
                }
            },
        },
{
    broadcast use vstd::std_specs::hash::group_hash_axioms;

    if depth < 0 || depth > MAX_SEARCH_DEPTH {
        return Err(SearchError::InvalidDepth);
    }
    let ghost input = input_state@;
    let ghost cf = harmless_hash_collisions(input, depth + 1);
    let mut visited: HashSet<u64> = HashSet::new();
    let mut queue: VecDeque<SearchState> = VecDeque::new();
    let start = SearchState::from_state(input_state);
    proof {
        lemma_same_fixed(input, input);
    }
    queue.push_back(start);
    visited.insert(search_hash(input_state));
    let mut current_states: usize = 1;
    let mut next_states: usize = 0;
    let mut current_depth: i8 = 0;
    let ghost mut first = true;
    let ghost mut disc: Seq<StateView> = seq![input];
    let ghost mut lvl: Seq<int> = seq![0int];
    let ghost mut head: int = 0;
    assert(leads_to(input, input, 0)) by {
        let p = seq![input];
        assert(is_path(p) && p.len() == 0 + 1 && p[0] == input && p[0] == input);
    }
    assert(queue@.len() == 1);
    assert forall|h: u64| #[trigger] visited@.contains(h) implies exists|x: int|
        0 <= x < disc.len() && #[trigger] search_hash_view(disc[x]) == h by {
        assert(search_hash_view(disc[0]) == h);
    }
    loop
        invariant
            input == input_state@,
            reach_inv(input),
            0 <= depth <= MAX_SEARCH_DEPTH,
            0 <= current_depth <= depth,
            queue@.len() == current_states + next_states,
            current_states == 0 ==> queue@.len() == 0,
            forall|i: int|
                0 <= i < queue@.len() ==> leads_to(
                    input,
                    #[trigger] queue@[i].to_spec(*input_state)@,
                    (if i < current_states {
                        current_depth as int
                    } else {
                        current_depth + 1
                    }) as nat,
                ),
            first ==> current_depth == 0 && current_states == 1 && queue@.len() == 1
                && queue@[0].to_spec(*input_state)@ == input,
            solved_view(input) ==> first,
            cf == harmless_hash_collisions(input, depth + 1),
            disc.len() == lvl.len(),
            disc.len() > 0,
            disc[0] == input,
            lvl[0] == 0,
            first ==> head == 0,
            !first ==> head > 0,
            0 <= head <= disc.len(),
            queue@.len() == disc.len() - head,
            forall|i: int|
                0 <= i < queue@.len() ==> #[trigger] queue@[i].to_spec(*input_state)@ == disc[head + i],
            forall|x: int| 0 <= x < disc.len() ==> #[trigger] leads_to(input, disc[x], lvl[x] as nat),
            forall|x: int| 0 <= x < disc.len() ==> 0 <= #[trigger] lvl[x] <= current_depth + 1,
            forall|x: int| 0 <= x < head ==> #[trigger] lvl[x] <= current_depth,
            forall|x: int|
                head <= x < disc.len() ==> #[trigger] lvl[x] == if x < head + current_states {
                    current_depth as int
                } else {
                    current_depth + 1
                },
            forall|h: u64|
                #[trigger] visited@.contains(h) ==> exists|x: int|
                    0 <= x < disc.len() && #[trigger] search_hash_view(disc[x]) == h,
            cf ==> forall|y: int, mm: nat|
                0 <= y < head && #[trigger] solvable_in(disc[y], mm) ==> reaches_frontier(
                    disc,
                    lvl,
                    head,
                    lvl[y] + mm,
                ),
        ensures
            !solved_view(input),
            cf ==> forall|k: nat| k <= depth ==> !#[trigger] solvable_in(input, k),
        decreases depth - current_depth, current_states,
    {
        let search_state = match queue.pop_front() {
            Some(s) => s,
            None => {
                proof {
                    if cf {
                        assert forall|k: nat| k <= depth implies !#[trigger] solvable_in(input, k) by {
                            if solvable_in(input, k) {
                                assert(solvable_in(disc[0], k));
                                assert(reaches_frontier(disc, lvl, head, lvl[0] + k));
                            }
                        }
                    }
                }
                break;
            },
        };
        let mut state = search_state.to_state_unchecked(input_state);
        let ghost s = state@;
        let ghost h0 = head;
        assert(s == disc[h0]);
        assert(leads_to(input, s, current_depth as nat));
        proof {
            lemma_leads_to_reach(input, s, current_depth as nat);
        }
        if state.solved() {
            proof {
                if cf {
                    assert forall|k: nat| k < current_depth implies !#[trigger] solvable_in(input, k) by {
                        if solvable_in(input, k) && h0 > 0 {
                            assert(solvable_in(disc[0], k));
                            let (x, m) = choose|x: int, m: nat|
                                h0 <= x < disc.len() && lvl[x] + m <= lvl[0] + k
                                    && #[trigger] solvable_in(disc[x], m);
                            assert(lvl[x] >= current_depth);
                        }
                    }
                }
            }
            return Ok(current_depth);
        }
        proof {
            first = false;
            head = head + 1;
        }
        let moves = state.legal_moves();
        let mut j: usize = 0;
        while j < moves.len()
            invariant
                input == input_state@,
                reach_inv(input),
                reach_inv(s),
                fixed_part(s) == fixed_part(input),
                leads_to(input, s, current_depth as nat),
                state@ == s,
                moves@.len() == moves_view(s).len(),
                forall|i: int| 0 <= i < moves@.len() ==> #[trigger] moves@[i]@ == moves_view(s)[i],
                0 <= j <= moves@.len(),
                1 <= current_states,
                queue@.len() == current_states - 1 + next_states,
                0 <= current_depth <= depth,
                forall|i: int|
                    0 <= i < queue@.len() ==> leads_to(
                        input,
                        #[trigger] queue@[i].to_spec(*input_state)@,
                        (if i < current_states - 1 {
                            current_depth as int
                        } else {
                            current_depth + 1
                        }) as nat,
                    ),
                cf == harmless_hash_collisions(input, depth + 1),
                !solved_view(s),
                disc.len() == lvl.len(),
                disc[0] == input,
                lvl[0] == 0,
                head == h0 + 1,
                0 <= h0 < disc.len(),
                disc[h0] == s,
                lvl[h0] == current_depth,
                queue@.len() == disc.len() - head,
                forall|i: int|
                    0 <= i < queue@.len() ==> #[trigger] queue@[i].to_spec(*input_state)@ == disc[head
                        + i],
                forall|x: int|
                    0 <= x < disc.len() ==> #[trigger] leads_to(input, disc[x], lvl[x] as nat),
                forall|x: int| 0 <= x < disc.len() ==> 0 <= #[trigger] lvl[x] <= current_depth + 1,
                forall|x: int| 0 <= x < h0 ==> #[trigger] lvl[x] <= current_depth,
                forall|x: int|
                    head <= x < disc.len() ==> #[trigger] lvl[x] == if x < head + current_states - 1 {
                        current_depth as int
                    } else {
                        current_depth + 1
                    },
                forall|h: u64|
                    #[trigger] visited@.contains(h) ==> exists|x: int|
                        0 <= x < disc.len() && #[trigger] search_hash_view(disc[x]) == h,
                children_met_upto(disc, s, j as int),
                cf ==> forall|y: int, mm: nat|
                    0 <= y < h0 && #[trigger] solvable_in(disc[y], mm) ==> reaches_frontier(
                        disc,
                        lvl,
                        h0,
                        lvl[y] + mm,
                    ),
            decreases moves@.len() - j,
        {
            let mov = moves[j];
            proof {
                lemma_listed_move(s, j as int);
                lemma_apply_keeps_fixed(s, moves_view(s)[j as int]);
            }
            state.apply_move_unchecked(mov);
            let ghost next = state@;
            assert(one_move(s, next)) by {
                assert(next == apply_view(s, moves_view(s)[j as int]));
            }
            proof {
                lemma_leads_to_step(input, s, next, current_depth as nat);
            }
            let hash = search_hash(&state);
            let ghost old_visited = visited@;
            let ghost old_disc = disc;
            let ghost old_lvl = lvl;
            if visited.insert(hash) {
                let pushed = SearchState::from_state(&state);
                proof {
                    lemma_same_fixed(next, input);
                }
                queue.push_back(pushed);
                proof {
                    axiom_spec_len(&queue);
                    disc = disc.push(next);
                    lvl = lvl.push(current_depth + 1);
                    assert forall|x: int| 0 <= x < old_disc.len() implies disc[x] == old_disc[x]
                        && lvl[x] == old_lvl[x] by {}
                    assert forall|h: u64| #[trigger] visited@.contains(h) implies exists|x: int|
                        0 <= x < disc.len() && #[trigger] search_hash_view(disc[x]) == h by {
                        if h == hash {
                            assert(search_hash_view(disc[old_disc.len() as int]) == h);
                        } else {
                            assert(old_visited.contains(h));
                            let x = choose|x: int|
                                0 <= x < old_disc.len() && #[trigger] search_hash_view(old_disc[x]) == h;
                            assert(search_hash_view(disc[x]) == h);
                        }
                    }
                    assert forall|i: int| 0 <= i < j + 1 implies exists|x: int|
                        0 <= x < disc.len() && #[trigger] search_hash_view(disc[x]) == search_hash_view(
                            apply_view(s, #[trigger] moves_view(s)[i]),
                        ) by {
                        assert(children_met_upto(old_disc, s, j as int));
                        if i == j {
                            assert(search_hash_view(disc[old_disc.len() as int]) == search_hash_view(
                                apply_view(s, moves_view(s)[i]),
                            ));
                        } else {
                            let x = choose|x: int|
                                0 <= x < old_disc.len() && #[trigger] search_hash_view(old_disc[x])
                                    == search_hash_view(apply_view(s, moves_view(s)[i]));
                            assert(search_hash_view(disc[x]) == search_hash_view(
                                apply_view(s, moves_view(s)[i]),
                            ));
                        }
                    }
                    assert(children_met_upto(disc, s, j + 1));
                    if cf {
                        assert forall|y: int, mm: nat|
                            0 <= y < h0 && #[trigger] solvable_in(disc[y], mm) implies reaches_frontier(
                            disc,
                            lvl,
                            h0,
                            lvl[y] + mm,
                        ) by {
                            assert(solvable_in(old_disc[y], mm));
                            assert(reaches_frontier(old_disc, old_lvl, h0, old_lvl[y] + mm));
                            let (x, m2) = choose|x: int, m2: nat|
                                h0 <= x < old_disc.len() && old_lvl[x] + m2 <= old_lvl[y] + mm
                                    && #[trigger] solvable_in(old_disc[x], m2);
                            assert(solvable_in(disc[x], m2));
                        }
                    }
                }
                next_states = next_states + 1;
            } else {
                proof {
                    assert(old_visited.contains(hash));
                    let x = choose|x: int|
                        0 <= x < disc.len() && #[trigger] search_hash_view(disc[x]) == hash;
                    assert(search_hash_view(disc[x]) == search_hash_view(
                        apply_view(s, moves_view(s)[j as int]),
                    ));
                    assert forall|i: int| 0 <= i < j + 1 implies exists|x: int|
                        0 <= x < disc.len() && #[trigger] search_hash_view(disc[x]) == search_hash_view(
                            apply_view(s, #[trigger] moves_view(s)[i]),
                        ) by {
                        if i < j {
                            assert(children_met_upto(disc, s, j as int));
                        }
                    }
                    assert(children_met_upto(disc, s, j + 1));
                }
            }
            state.undo_move_unchecked(mov);
            j = j + 1;
        }
        proof {
            if cf {
                assert(j == moves_view(s).len());
                assert(children_met(disc, s));
                assert(children_met(disc, disc[h0]));
                assert forall|mm: nat| #[trigger] solvable_in(disc[h0], mm) implies reaches_frontier(
                    disc,
                    lvl,
                    h0 + 1,
                    lvl[h0] + mm,
                ) by {
                    lemma_processed(input, depth as int, disc, lvl, h0, mm);
                }
                assert forall|y: int, mm: nat|
                    0 <= y < head && #[trigger] solvable_in(disc[y], mm) implies reaches_frontier(
                    disc,
                    lvl,
                    head,
                    lvl[y] + mm,
                ) by {
                    if y < h0 {
                        let (x, m2) = choose|x: int, m2: nat|
                            h0 <= x < disc.len() && lvl[x] + m2 <= lvl[y] + mm
                                && #[trigger] solvable_in(disc[x], m2);
                        if x == h0 {
                            let (x3, m3) = choose|x3: int, m3: nat|
                                h0 + 1 <= x3 < disc.len() && lvl[x3] + m3 <= lvl[h0] + m2
                                    && #[trigger] solvable_in(disc[x3], m3);
                        }
                    }
                }
            }
        }
        current_states = current_states - 1;
        if current_states == 0 {
            if current_depth == depth {
                proof {
                    if cf {
                        assert forall|k: nat| k <= depth implies !#[trigger] solvable_in(input, k) by {
                            if solvable_in(input, k) {
                                assert(solvable_in(disc[0], k));
                                let (x, m) = choose|x: int, m: nat|
                                    head <= x < disc.len() && lvl[x] + m <= lvl[0] + k
                                        && #[trigger] solvable_in(disc[x], m);
                            }
                        }
                    }
                }
                return Ok(-1);
            }
            current_states = next_states;
            next_states = 0;
            current_depth = current_depth + 1;
        }
    }
    Ok(-1)
}

} // verus!

verus! {

/// A bottle of a state reached by listed moves from a described starting
/// state has at most one of curtain, safe and lock, as the description had.
pub proof fn lemma_reached_features(start: StartingView, w: StateView, k: nat, b: int)
    requires
        start_error(start) is None,
        leads_to(start_state(start), w, k),
        1 <= b <= start.content.len(),
    ensures
        feature_count(w, b) <= 1,
{
    lemma_start_reach(start);
    let v = start_state(start);
    let p = choose|p: Seq<StateView>|
        #[trigger] is_path(p) && p.len() == k + 1 && p[0] == v && p[k as int] == w;
    lemma_path_features(p, k as int, b);
}

/// In every state reached from a valid start by listed moves, each hidden
/// item lies below the top item of its bottle: the top item is always
/// visible and no empty slot is hidden.
pub proof fn law_hidden_below_top(start: StartingView, w: StateView, k: nat)
    requires
        start_error(start) is None,
        leads_to(start_state(start), w, k),
    ensures
        hidden_below_top(w),
{
    lemma_start_reach(start);
    lemma_start_hidden(start);
    let v = start_state(start);
    let p = choose|p: Seq<StateView>|
        #[trigger] is_path(p) && p.len() == k + 1 && p[0] == v && p[k as int] == w;
    lemma_path_hidden(p, k as int);
}

/// In every state reached from a valid start by listed moves, every locked
/// item is an item of a bottle: a lock goes with the item it holds.
pub proof fn law_locks_on_items(start: StartingView, w: StateView, k: nat)
    requires
        start_error(start) is None,
        leads_to(start_state(start), w, k),
    ensures
        locks_on_items(w),
{
    lemma_start_reach(start);
    lemma_start_locks(start);
    let v = start_state(start);
    let p = choose|p: Seq<StateView>|
        #[trigger] is_path(p) && p.len() == k + 1 && p[0] == v && p[k as int] == w;
    lemma_path_locks(p, k as int);
}

proof fn lemma_path_locks(p: Seq<StateView>, j: int)
    requires
        is_path(p),
        p.len() > 0,
        reach_inv(p[0]),
        locks_on_items(p[0]),
        0 <= j < p.len(),
    ensures
        locks_on_items(p[j]),
    decreases j,
{
    if j > 0 {
        lemma_path_locks(p, j - 1);
        lemma_path_reach(p, j - 1);
        assert(one_move(p[j - 1], p[(j - 1) + 1]));
        let u = p[j - 1];
        let i = choose|i: int|
            0 <= i < moves_view(u).len() && p[j] == apply_view(u, #[trigger] moves_view(u)[i]);
        lemma_listed_move_locks(u, i);
    }
}

/// The curtain groups listed among the first `k` are those with a bottle
/// still behind them, each as its first and last bottle.
proof fn lemma_curtain_groups(v: StateView, k: int, g: (u8, u8))
    requires
        0 <= k,
    ensures
        curtain_groups_upto(v, k).contains(g) <==> exists|q: int|
            0 <= q < k && #[trigger] curtain_range_view(v, q) is Some && v.curtain_from[q]
                < v.curtain_to[q] && g == (v.curtain_from[q], (v.curtain_to[q] - 1) as u8),
    decreases k,
{
    if k > 0 {
        lemma_curtain_groups(v, k - 1, g);
        let r = curtain_groups_upto(v, k - 1);
        if curtain_range_view(v, k - 1) is Some && v.curtain_to[k - 1] > v.curtain_from[k - 1] {
            let e = (v.curtain_from[k - 1], (v.curtain_to[k - 1] - 1) as u8);
            assert(r.push(e).contains(g) <==> (r.contains(g) || g == e)) by {
                if r.push(e).contains(g) {
                    let i = choose|i: int| 0 <= i < r.push(e).len() && r.push(e)[i] == g;
                    if i < r.len() {
                        assert(r[i] == g);
                    }
                }
                if r.contains(g) {
                    let i = choose|i: int| 0 <= i < r.len() && r[i] == g;
                    assert(r.push(e)[i] == g);
                }
                if g == e {
                    assert(r.push(e)[r.len() as int] == g);
                }
            }
        }
    }
}

/// In every state reached from a valid start by listed moves, a bottle is
/// behind a curtain exactly when it lies in one of the curtain groups that
/// the state lists.
pub proof fn law_curtain_groups(start: StartingView, w: StateView, k: nat, b: int)
    requires
        start_error(start) is None,
        leads_to(start_state(start), w, k),
        1 <= b <= w.bottle_count,
    ensures
        w.behind_curtain[b] <==> exists|g: (u8, u8)|
            #[trigger] curtain_groups_upto(w, w.bottle_count as int).contains(g) && g.0 <= b <= g.1,
{
    lemma_start_reach(start);
    lemma_start_curtains(start);
    let v = start_state(start);
    let p = choose|p: Seq<StateView>|
        #[trigger] is_path(p) && p.len() == k + 1 && p[0] == v && p[k as int] == w;
    lemma_path_curtains(p, k as int);
    lemma_leads_to_reach(v, w, k);
    let n = w.bottle_count as int;
    if w.behind_curtain[b] {
        let q = choose|q: int| 0 <= q < n && w.curtain_from[q] <= b < #[trigger] w.curtain_to[q];
        let g = (w.curtain_from[q], (w.curtain_to[q] - 1) as u8);
        lemma_curtain_groups(w, n, g);
        assert(curtain_range_view(w, q) is Some);
        assert(curtain_groups_upto(w, n).contains(g));
    }
    if exists|g: (u8, u8)| #[trigger] curtain_groups_upto(w, n).contains(g) && g.0 <= b <= g.1 {
        let g = choose|g: (u8, u8)| #[trigger] curtain_groups_upto(w, n).contains(g) && g.0 <= b <= g.1;
        lemma_curtain_groups(w, n, g);
        let q = choose|q: int|
            0 <= q < n && #[trigger] curtain_range_view(w, q) is Some && w.curtain_from[q]
                < w.curtain_to[q] && g == (w.curtain_from[q], (w.curtain_to[q] - 1) as u8);
        assert(w.curtain_from[q] <= b < w.curtain_to[q]);
    }
}

/// Whether a bottle with key `key` is locked in `v`: its key item still
/// holds the key.
spec fn key_locks(v: StateView, key: u16) -> bool {
    key != 0 && v.has_key[index_bottle(key as int)][index_item(key as int)]
}

/// The lock groups listed from bottle `c` on start at `c` or later.
proof fn lemma_lock_groups_start(v: StateView, c: int, j: int)
    requires
        0 <= j < lock_groups_from(v, c).len(),
        v.bottle_count < 32,
    ensures
        c <= lock_groups_from(v, c)[j].1.0,
    decreases v.bottle_count + 1 - c,
{
    if 1 <= c <= v.bottle_count {
        let e = key_group_end(v, c, c);
        lemma_key_group_end(v, c, c);
        let rest = lock_groups_from(v, e + 1);
        if v.bottle_locked[c] {
            if j == 0 {
                assert(lock_groups_from(v, c)[0] == (v.bottle_key[c], (c as u8, e as u8)));
            } else {
                assert(lock_groups_from(v, c)[j] == rest[j - 1]);
                lemma_lock_groups_start(v, e + 1, j - 1);
            }
        } else {
            lemma_lock_groups_start(v, e + 1, j);
        }
    }
}

/// Where every bottle is locked exactly when its key is, a bottle from `c`
/// on is locked exactly when it lies in a lock group listed from `c` on.
proof fn lemma_lock_groups_cover(v: StateView, c: int, b: int)
    requires
        1 <= c <= b <= v.bottle_count,
        v.bottle_count < 32,
        forall|x: int| 1 <= x <= v.bottle_count ==> #[trigger] v.bottle_locked[x] == key_locks(v, v.bottle_key[x]),
    ensures
        v.bottle_locked[b] <==> exists|j: int|
            0 <= j < lock_groups_from(v, c).len() && (#[trigger] lock_groups_from(v, c)[j]).1.0 <= b
                <= lock_groups_from(v, c)[j].1.1,
    decreases v.bottle_count + 1 - c,
{
    let gs = lock_groups_from(v, c);
    let e = key_group_end(v, c, c);
    lemma_key_group_end(v, c, c);
    let rest = lock_groups_from(v, e + 1);
    assert(v.bottle_locked[c] == key_locks(v, v.bottle_key[c]));
    if b <= e {
        if b > c {
            assert(v.bottle_key[b] == v.bottle_key[c]);
        }
        assert(v.bottle_locked[b] == v.bottle_locked[c]);
        if v.bottle_locked[c] {
            assert(gs[0] == (v.bottle_key[c], (c as u8, e as u8)));
        } else {
            assert(gs == rest);
            if exists|j: int| 0 <= j < gs.len() && (#[trigger] gs[j]).1.0 <= b <= gs[j].1.1 {
                let j = choose|j: int| 0 <= j < gs.len() && (#[trigger] gs[j]).1.0 <= b <= gs[j].1.1;
                lemma_lock_groups_start(v, e + 1, j);
            }
        }
    } else {
        lemma_lock_groups_cover(v, e + 1, b);
        if v.bottle_locked[c] {
            assert(gs == seq![(v.bottle_key[c], (c as u8, e as u8))] + rest);
            if v.bottle_locked[b] {
                let j = choose|j: int| 0 <= j < rest.len() && (#[trigger] rest[j]).1.0 <= b <= rest[j].1.1;
                assert(gs[j + 1] == rest[j]);
            }
            if exists|j: int| 0 <= j < gs.len() && (#[trigger] gs[j]).1.0 <= b <= gs[j].1.1 {
                let j = choose|j: int| 0 <= j < gs.len() && (#[trigger] gs[j]).1.0 <= b <= gs[j].1.1;
                if j > 0 {
                    assert(gs[j] == rest[j - 1]);
                }
            }
        } else {
            assert(gs == rest);
        }
    }
}

/// In every state reached from a valid start by listed moves, a bottle is
/// locked exactly when it lies in one of the lock groups that the state
/// lists.
pub proof fn law_lock_groups(start: StartingView, w: StateView, k: nat, b: int)
    requires
        start_error(start) is None,
        leads_to(start_state(start), w, k),
        1 <= b <= w.bottle_count,
    ensures
        w.bottle_locked[b] <==> exists|j: int|
            0 <= j < lock_groups_from(w, 1).len() && (#[trigger] lock_groups_from(w, 1)[j]).1.0 <= b
                <= lock_groups_from(w, 1)[j].1.1,
{
    lemma_start_reach(start);
    lemma_start_keyed(start);
    let v = start_state(start);
    let p = choose|p: Seq<StateView>|
        #[trigger] is_path(p) && p.len() == k + 1 && p[0] == v && p[k as int] == w;
    lemma_path_keyed(p, k as int);
    lemma_leads_to_reach(v, w, k);
    assert forall|x: int| 1 <= x <= w.bottle_count implies #[trigger] w.bottle_locked[x] == key_locks(
        w,
        w.bottle_key[x],
    ) by {
        if w.bottle_key[x] != 0 {
            assert(w.bottle_locked[x] == w.has_key[index_bottle(w.bottle_key[x] as int)][index_item(
                w.bottle_key[x] as int,
            )]);
        }
    }
    lemma_lock_groups_cover(w, 1, b);
}

/// In every state reached from a valid start by listed moves, the bottles
/// that a listed move unlocks are every bottle from the first to the last
/// of them: a key opens one group of neighbouring bottles.
pub proof fn law_unlock_span(start: StartingView, w: StateView, k: nat, i: int, a: u8, b: u8, x: int)
    requires
        start_error(start) is None,
        leads_to(start_state(start), w, k),
        0 <= i < moves_view(w).len(),
        is_flag_span(moves_view(w)[i].unlock_bottle, Some((a, b))),
        a <= x <= b,
    ensures
        moves_view(w)[i].unlock_bottle[x],
{
    lemma_start_keys_contiguous(start);
    let v = start_state(start);
    let p = choose|p: Seq<StateView>|
        #[trigger] is_path(p) && p.len() == k + 1 && p[0] == v && p[k as int] == w;
    lemma_path_keys_contiguous(p, k as int);
    lemma_listed_move_unlock_span(w, i, a, b, x);
}

proof fn lemma_path_keys_contiguous(p: Seq<StateView>, j: int)
    requires
        is_path(p),
        p.len() > 0,
        keys_contiguous(p[0]),
        0 <= j < p.len(),
    ensures
        keys_contiguous(p[j]),
    decreases j,
{
    if j > 0 {
        lemma_path_keys_contiguous(p, j - 1);
        assert(one_move(p[j - 1], p[(j - 1) + 1]));
        let u = p[j - 1];
        let i = choose|i: int|
            0 <= i < moves_view(u).len() && p[j] == apply_view(u, #[trigger] moves_view(u)[i]);
        lemma_listed_move_keys_contiguous(u, i);
    }
}

/// Whether every bottle of the group `g` carries its key and is locked.
pub open spec fn locked_run_of_key(w: StateView, g: (u16, (u8, u8))) -> bool {
    forall|b: int| g.1.0 <= b <= g.1.1 ==> #[trigger] w.bottle_key[b] == g.0 && w.bottle_locked[b]
}

/// Each lock group listed from bottle `c` on is a locked run of bottles
/// with one key that reaches as far as that key does on either side.
proof fn lemma_lock_groups_shape(v: StateView, c: int, j: int)
    requires
        v.bottle_count < 32,
        1 <= c,
        c == 1 || c > v.bottle_count || v.bottle_key[c - 1] != v.bottle_key[c],
        0 <= j < lock_groups_from(v, c).len(),
    ensures
        ({
            let g = lock_groups_from(v, c)[j];
            &&& c <= g.1.0 <= g.1.1 <= v.bottle_count
            &&& g.0 == v.bottle_key[g.1.0 as int]
            &&& v.bottle_locked[g.1.0 as int]
            &&& forall|b: int| g.1.0 <= b <= g.1.1 ==> #[trigger] v.bottle_key[b] == g.0
            &&& g.1.0 == 1 || v.bottle_key[g.1.0 - 1] != g.0
            &&& g.1.1 == v.bottle_count || v.bottle_key[g.1.1 + 1] != g.0
        }),
    decreases v.bottle_count + 1 - c,
{
    if 1 <= c <= v.bottle_count {
        let e = key_group_end(v, c, c);
        lemma_key_group_end(v, c, c);
        let rest = lock_groups_from(v, e + 1);
        assert(v.bottle_key[e] == v.bottle_key[c]);
        if v.bottle_locked[c] && j == 0 {
            assert(lock_groups_from(v, c)[0] == (v.bottle_key[c], (c as u8, e as u8)));
        } else {
            let jj = if v.bottle_locked[c] {
                j - 1
            } else {
                j
            };
            assert(lock_groups_from(v, c)[j] == rest[jj]);
            lemma_lock_groups_shape(v, e + 1, jj);
        }
    }
}

/// In every state reached from a valid start by listed moves, each lock
/// group that the state lists has a key other than zero, and is the whole
/// run of neighbouring bottles with that key, every one of them locked.
#[verifier::spinoff_prover]
pub proof fn law_lock_group_shape(start: StartingView, w: StateView, k: nat, j: int)
    requires
        start_error(start) is None,
        leads_to(start_state(start), w, k),
        0 <= j < lock_groups_from(w, 1).len(),
    ensures
        lock_groups_from(w, 1)[j].0 != 0,
        1 <= lock_groups_from(w, 1)[j].1.0 <= lock_groups_from(w, 1)[j].1.1 <= w.bottle_count,
        locked_run_of_key(w, lock_groups_from(w, 1)[j]),
        lock_groups_from(w, 1)[j].1.0 == 1 || w.bottle_key[lock_groups_from(w, 1)[j].1.0 - 1]
            != lock_groups_from(w, 1)[j].0,
        lock_groups_from(w, 1)[j].1.1 == w.bottle_count || w.bottle_key[lock_groups_from(w, 1)[j].1.1
            + 1] != lock_groups_from(w, 1)[j].0,
{
    lemma_start_reach(start);
    lemma_start_keyed(start);
    let v = start_state(start);
    let p = choose|p: Seq<StateView>|
        #[trigger] is_path(p) && p.len() == k + 1 && p[0] == v && p[k as int] == w;
    lemma_path_keyed(p, k as int);
    lemma_leads_to_reach(v, w, k);
    lemma_lock_groups_shape(w, 1, j);
    let g = lock_groups_from(w, 1)[j];
    assert(w.bottle_locked[g.1.0 as int]);
    assert(w.bottle_key[g.1.0 as int] != 0);
    assert(g.0 != 0);
    assert(1 <= g.1.0 <= g.1.1 <= w.bottle_count);
    assert(g.1.0 == 1 || w.bottle_key[g.1.0 - 1] != g.0);
    assert(g.1.1 == w.bottle_count || w.bottle_key[g.1.1 + 1] != g.0);
    assert forall|b: int| g.1.0 <= b <= g.1.1 implies #[trigger] w.bottle_key[b] == g.0 && w.bottle_locked[b] by {
        law_lock_groups(start, w, k, b);
    }
    assert(locked_run_of_key(w, g));
}

/// In every state reached from a valid start by listed moves, the bottles
/// hold as many items of each color as the starting description does.
pub proof fn law_color_counts(start: StartingView, w: StateView, k: nat, c: int)
    requires
        start_error(start) is None,
        leads_to(start_state(start), w, k),
        1 <= c < 16,
    ensures
        color_total(w, c) == occurrences(all_items(start), c as u8),
{
    lemma_start_reach(start);
    lemma_start_color_counts(start, c);
    let v = start_state(start);
    let p = choose|p: Seq<StateView>|
        #[trigger] is_path(p) && p.len() == k + 1 && p[0] == v && p[k as int] == w;
    lemma_path_reach(p, k as int);
}

proof fn lemma_path_keyed(p: Seq<StateView>, j: int)
    requires
        is_path(p),
        p.len() > 0,
        reach_inv(p[0]),
        locks_keyed(p[0]),
        0 <= j < p.len(),
    ensures
        locks_keyed(p[j]),
    decreases j,
{
    if j > 0 {
        lemma_path_keyed(p, j - 1);
        lemma_path_reach(p, j - 1);
        assert(one_move(p[j - 1], p[(j - 1) + 1]));
        let u = p[j - 1];
        let i = choose|i: int|
            0 <= i < moves_view(u).len() && p[j] == apply_view(u, #[trigger] moves_view(u)[i]);
        lemma_listed_move_keyed(u, i);
    }
}

/// The curtain groups listed among the first `k` each span at least one
/// bottle and follow each other without overlapping, in ascending order.
proof fn lemma_curtain_groups_sorted(v: StateView, k: int)
    requires
        reach_inv(v),
        curtains_ascending(v),
        0 <= k <= v.bottle_count,
    ensures
        forall|a: int| 0 <= a < curtain_groups_upto(v, k).len() ==> (#[trigger] curtain_groups_upto(v, k)[a]).0
            <= curtain_groups_upto(v, k)[a].1,
        forall|a: int, b: int|
            0 <= a < b < curtain_groups_upto(v, k).len() ==> (#[trigger] curtain_groups_upto(v, k)[a]).1
                < (#[trigger] curtain_groups_upto(v, k)[b]).0,
    decreases k,
{
    if k > 0 {
        lemma_curtain_groups_sorted(v, k - 1);
        let prev = curtain_groups_upto(v, k - 1);
        let q2 = k - 1;
        if curtain_range_view(v, q2) is Some && v.curtain_to[q2] > v.curtain_from[q2] {
            let g = curtain_groups_upto(v, k);
            let e = (v.curtain_from[q2], (v.curtain_to[q2] - 1) as u8);
            assert(g == prev.push(e));
            assert forall|a: int| 0 <= a < prev.len() implies (#[trigger] prev[a]).1 < e.0 by {
                assert(prev.contains(prev[a]));
                lemma_curtain_groups(v, k - 1, prev[a]);
                let q = choose|q: int|
                    0 <= q < k - 1 && #[trigger] curtain_range_view(v, q) is Some && v.curtain_from[q]
                        < v.curtain_to[q] && prev[a] == (v.curtain_from[q], (v.curtain_to[q] - 1) as u8);
                assert(v.curtain_from[q] < v.curtain_from[q2]);
            }
            assert forall|a: int, b: int| 0 <= a < b < g.len() implies (#[trigger] g[a]).1 < (#[trigger] g[b]).0 by {
                assert(g[a] == prev[a]);
                if b < prev.len() {
                    assert(g[b] == prev[b]);
                }
            }
            assert forall|a: int| 0 <= a < g.len() implies (#[trigger] g[a]).0 <= g[a].1 by {
                if a < prev.len() {
                    assert(g[a] == prev[a]);
                }
            }
        }
    }
}

/// In every state reached from a valid start by listed moves, the curtain
/// groups that the state lists each span at least one bottle and follow
/// each other without overlapping, in ascending order.
pub proof fn law_curtain_groups_sorted(start: StartingView, w: StateView, k: nat)
    requires
        start_error(start) is None,
        leads_to(start_state(start), w, k),
    ensures
        forall|a: int|
            0 <= a < curtain_groups_upto(w, w.bottle_count as int).len() ==> (
            #[trigger] curtain_groups_upto(w, w.bottle_count as int)[a]).0 <= curtain_groups_upto(
                w,
                w.bottle_count as int,
            )[a].1,
        forall|a: int, b: int|
            0 <= a < b < curtain_groups_upto(w, w.bottle_count as int).len() ==> (
            #[trigger] curtain_groups_upto(w, w.bottle_count as int)[a]).1 < (
            #[trigger] curtain_groups_upto(w, w.bottle_count as int)[b]).0,
{
    lemma_start_reach(start);
    lemma_start_curtains_ascending(start);
    let v = start_state(start);
    let p = choose|p: Seq<StateView>|
        #[trigger] is_path(p) && p.len() == k + 1 && p[0] == v && p[k as int] == w;
    lemma_path_curtains_ascending(p, k as int);
    lemma_leads_to_reach(v, w, k);
    lemma_curtain_groups_sorted(w, w.bottle_count as int);
}

proof fn lemma_path_curtains_ascending(p: Seq<StateView>, j: int)
    requires
        is_path(p),
        p.len() > 0,
        reach_inv(p[0]),
        curtains_ascending(p[0]),
        0 <= j < p.len(),
    ensures
        curtains_ascending(p[j]),
    decreases j,
{
    if j > 0 {
        lemma_path_curtains_ascending(p, j - 1);
        lemma_path_reach(p, j - 1);
        assert(one_move(p[j - 1], p[(j - 1) + 1]));
        let u = p[j - 1];
        let i = choose|i: int|
            0 <= i < moves_view(u).len() && p[j] == apply_view(u, #[trigger] moves_view(u)[i]);
        lemma_listed_move_curtains_ascending(u, i);
    }
}

proof fn lemma_path_curtains(p: Seq<StateView>, j: int)
    requires
        is_path(p),
        p.len() > 0,
        reach_inv(p[0]),
        curtains_cover(p[0]),
        0 <= j < p.len(),
    ensures
        curtains_cover(p[j]),
    decreases j,
{
    if j > 0 {
        lemma_path_curtains(p, j - 1);
        lemma_path_reach(p, j - 1);
        assert(one_move(p[j - 1], p[(j - 1) + 1]));
        let u = p[j - 1];
        let i = choose|i: int|
            0 <= i < moves_view(u).len() && p[j] == apply_view(u, #[trigger] moves_view(u)[i]);
        lemma_listed_move_curtains(u, i);
    }
}

proof fn lemma_path_hidden(p: Seq<StateView>, j: int)
    requires
        is_path(p),
        p.len() > 0,
        reach_inv(p[0]),
        hidden_below_top(p[0]),
        0 <= j < p.len(),
    ensures
        hidden_below_top(p[j]),
    decreases j,
{
    if j > 0 {
        lemma_path_hidden(p, j - 1);
        lemma_path_reach(p, j - 1);
        assert(one_move(p[j - 1], p[(j - 1) + 1]));
        let u = p[j - 1];
        let i = choose|i: int|
            0 <= i < moves_view(u).len() && p[j] == apply_view(u, #[trigger] moves_view(u)[i]);
        lemma_listed_move_hidden(u, i);
    }
}

proof fn lemma_path_features(p: Seq<StateView>, j: int, b: int)
    requires
        is_path(p),
        p.len() > 0,
        reach_inv(p[0]),
        0 <= j < p.len(),
        1 <= b <= p[0].bottle_count,
        feature_count(p[0], b) <= 1,
    ensures
        feature_count(p[j], b) <= 1,
    decreases j,
{
    if j > 0 {
        lemma_path_features(p, j - 1, b);
        lemma_path_reach(p, j - 1);
        assert(one_move(p[j - 1], p[(j - 1) + 1]));
        let u = p[j - 1];
        let i = choose|i: int|
            0 <= i < moves_view(u).len() && p[j] == apply_view(u, #[trigger] moves_view(u)[i]);
        lemma_listed_move(u, i);
        lemma_apply_features(u, moves_view(u)[i], b);
    }
}

} // verus!

verus! {

/// The deepest search of the first solver.
pub const FIRST_SOLVER_MAX_DEPTH: i8 = 126;

/// What the hash of the first solver is: the finish value of a
/// `DefaultHasher` fed the record of each bottle in bottle order.
pub open spec fn state_hash_view(v: StateView) -> u64 {
    DefaultHasher::spec_finish(bottle_records(v))
}

/// Whether states within `depth` moves of `start` that share the slot of
/// their hashes in a table of `len` slots can be solved in the same numbers
/// of moves.
pub open spec fn harmless_slot_collisions(start: StateView, depth: int, len: int) -> bool {
    forall|a: StateView, b: StateView, n: nat|
        within(start, a, depth) && within(start, b, depth) && #[trigger] table_slot(
            state_hash_view(a),
            len,
        ) == #[trigger] table_slot(state_hash_view(b), len) && #[trigger] solvable_in(a, n)
            ==> solvable_in(b, n)
}

/// Whether every positive value in the slot of a state within `depth`
/// moves of `start` is one more than the length of a real solution from it.
pub open spec fn sound_slots(t: Seq<i8>, start: StateView, depth: int) -> bool {
    forall|w: StateView|
        within(start, w, depth) && #[trigger] t[table_slot(state_hash_view(w), t.len() as int)]
            > 0 ==> solvable_in(w, (t[table_slot(state_hash_view(w), t.len() as int)] - 1) as nat)
}

/// Whether no slot of a state within `depth` moves of `start` holds a
/// success, and every failure in such a slot is excused by the search path
/// `s`.
pub open spec fn slot_failures_excused(
    t: Seq<i8>,
    start: StateView,
    depth: int,
    s: Seq<(StateView, int)>,
) -> bool {
    forall|w: StateView|
        within(start, w, depth) ==> #[trigger] t[table_slot(state_hash_view(w), t.len() as int)] <= 0
            && excused(w, t[table_slot(state_hash_view(w), t.len() as int)], s)
}

/// A longer search path excuses every failure in the slots that a shorter
/// one does.
proof fn lemma_push_slot_excused(t: Seq<i8>, start: StateView, depth: int, s: Seq<(StateView, int)>, x: (
    StateView,
    int,
))
    requires
        slot_failures_excused(t, start, depth, s),
    ensures
        slot_failures_excused(t, start, depth, s.push(x)),
{
    assert forall|w: StateView| within(start, w, depth) implies #[trigger] t[table_slot(
        state_hash_view(w),
        t.len() as int,
    )] <= 0 && excused(w, t[table_slot(state_hash_view(w), t.len() as int)], s.push(x)) by {
        let val = t[table_slot(state_hash_view(w), t.len() as int)];
        assert(excused(w, val, s));
        assert forall|n: nat| fail_covers(val, n) && #[trigger] solvable_in(w, n) implies stack_solvable(
            s.push(x),
            n,
        ) by {
            lemma_stack_solvable_more(s, x, n, n);
        }
    }
}

/// Once `x` is taken off the search path, the failures in the slots that
/// `x` excused are excused by the rest of the path.
proof fn lemma_pop_slot_excused(
    t: Seq<i8>,
    start: StateView,
    depth: int,
    s: Seq<(StateView, int)>,
    x: StateView,
    rem: int,
    rv: i8,
)
    requires
        slot_failures_excused(t, start, depth, s.push((x, rem))),
        excused(x, rv, s),
        0 <= rem,
        fail_covers(rv, rem as nat),
    ensures
        slot_failures_excused(t, start, depth, s),
{
    assert forall|w: StateView| within(start, w, depth) implies #[trigger] t[table_slot(
        state_hash_view(w),
        t.len() as int,
    )] <= 0 && excused(w, t[table_slot(state_hash_view(w), t.len() as int)], s) by {
        let val = t[table_slot(state_hash_view(w), t.len() as int)];
        assert(excused(w, val, s.push((x, rem))));
        assert forall|n: nat| fail_covers(val, n) && #[trigger] solvable_in(w, n) implies stack_solvable(
            s,
            n,
        ) by {
            let s2 = s.push((x, rem));
            assert(stack_solvable(s2, n));
            let (k, m) = choose|k: int, m: nat|
                #![trigger solvable_in(s2[k].0, m)]
                0 <= k < s2.len() && m <= s2[k].1 && m <= n && solvable_in(s2[k].0, m);
            if k == s.len() {
                assert(fail_covers(rv, m));
                assert(solvable_in(x, m));
                assert(stack_solvable(s, m));
                lemma_stack_solvable_more(s, (x, rem), m, n);
            } else {
                assert(s2[k] == s[k]);
                assert(solvable_in(s[k].0, m));
            }
        }
    }
}

/// Storing an excused failure keeps the failures in the slots excused.
proof fn lemma_store_slot_excused(
    t: Seq<i8>,
    start: StateView,
    depth: int,
    s: Seq<(StateView, int)>,
    v: StateView,
    value: i8,
)
    requires
        t.len() > 0,
        slot_failures_excused(t, start, depth, s),
        harmless_slot_collisions(start, depth, t.len() as int),
        within(start, v, depth),
        value < 0,
        excused(v, value, s),
    ensures
        slot_failures_excused(t.update(table_slot(state_hash_view(v), t.len() as int), value), start, depth, s),
{
    let slot = table_slot(state_hash_view(v), t.len() as int);
    let t2 = t.update(slot, value);
    assert forall|w: StateView| within(start, w, depth) implies #[trigger] t2[table_slot(
        state_hash_view(w),
        t2.len() as int,
    )] <= 0 && excused(w, t2[table_slot(state_hash_view(w), t2.len() as int)], s) by {
        let sw = table_slot(state_hash_view(w), t.len() as int);
        assert(0 <= sw < t.len());
        if sw == slot {
            assert forall|n: nat| fail_covers(value, n) && #[trigger] solvable_in(w, n) implies stack_solvable(
                s,
                n,
            ) by {
                assert(solvable_in(v, n));
            }
        } else {
            assert(t2[sw] == t[sw]);
        }
    }
}

/// Storing a value for a state within reach keeps the slots sound, when the
/// value is not positive or one more than a real solution length.
proof fn lemma_store_slot_sound(t: Seq<i8>, start: StateView, depth: int, v: StateView, value: i8)
    requires
        t.len() > 0,
        sound_slots(t, start, depth),
        harmless_slot_collisions(start, depth, t.len() as int),
        within(start, v, depth),
        value > 0 ==> solvable_in(v, (value - 1) as nat),
    ensures
        sound_slots(
            t.update(table_slot(state_hash_view(v), t.len() as int), value),
            start,
            depth,
        ),
{
    let slot = table_slot(state_hash_view(v), t.len() as int);
    let t2 = t.update(slot, value);
    assert forall|w: StateView|
        within(start, w, depth) && #[trigger] t2[table_slot(state_hash_view(w), t2.len() as int)]
            > 0 implies solvable_in(
        w,
        (t2[table_slot(state_hash_view(w), t2.len() as int)] - 1) as nat,
    ) by {
        let sw = table_slot(state_hash_view(w), t.len() as int);
        if sw == slot {
            if value > 0 {
                assert(solvable_in(v, (value - 1) as nat));
                assert(solvable_in(w, (value - 1) as nat));
            }
        } else {
            assert(t2[sw] == t[sw]);
        }
    }
}

/// The records of the bottles in bottle order.
fn bottle_records_of(state: &State) -> (r: Vec<Vec<u8>>)
    requires
        state.wf(),
    ensures
        records_view(r@) == bottle_records(state@),
{
    let ghost v = state@;
    let count = state.bottle_count();
    let mut out: Vec<Vec<u8>> = Vec::new();
    let mut bottle: u8 = 1;
    while bottle <= count
        invariant
            state.wf(),
            v == state@,
            count == v.bottle_count,
            1 <= bottle <= count + 1,
            records_view(out@) == bottle_records(v).take(bottle - 1),
        decreases count + 1 - bottle,
    {
        assert(v.content[bottle as int].len() == 16);
        let record = bottle_record_of(state, bottle);
        let ghost before = out@;
        let ghost rec = record@;
        out.push(record);
        assert(records_view(out@) =~= records_view(before).push(rec));
        assert(bottle_records(v)[bottle - 1] == rec);
        bottle = bottle + 1;
        assert(records_view(out@) =~= bottle_records(v).take(bottle - 1));
    }
    assert(bottle_records(v).take(count as int) =~= bottle_records(v));
    out
}

/// The first solver: a depth-first search that stops at the first solution,
/// with a table of one signed byte per hash slot and nothing to tell apart
/// the states that share a slot, so a shared slot can prune a useful state
/// or report a solution that does not exist.
pub struct Searcher {
    state: State,
    depth: i8,
    visited: Vec<i8>,
}

impl Searcher {
    /// The state searched from.
    pub closed spec fn state_view(&self) -> StateView {
        self.state@
    }

    /// The deepest search.
    pub closed spec fn depth_view(&self) -> i8 {
        self.depth
    }

    /// The number of slots of the visited table.
    pub closed spec fn table_len_view(&self) -> nat {
        self.visited@.len()
    }

    /// A search not yet run: a valid depth, a reachable state and an empty
    /// table.
    pub closed spec fn fresh(&self) -> bool {
        &&& 0 <= self.depth <= FIRST_SOLVER_MAX_DEPTH
        &&& reach_inv(self.state@)
        &&& self.visited@.len() > 0
        &&& forall|i: int| 0 <= i < self.visited@.len() ==> #[trigger] self.visited@[i] == 0
    }

    /// Prepares a search from `state`, at most `depth` moves deep, with
    /// `visited_size` table slots.
    pub fn new(state: State, depth: i8, visited_size: usize) -> (r: Result<Self, SearchError>)
        requires
            reach_inv(state@),
        ensures
            match r {
                Ok(searcher) => {
                    &&& 0 <= depth <= FIRST_SOLVER_MAX_DEPTH
                    &&& !(visited_size < 1_000_000 || visited_size > u32::MAX || !is_pow2(
                        visited_size as int,
                    ))
                    &&& searcher.fresh()
                    &&& searcher.state_view() == state@
                    &&& searcher.depth_view() == depth
                    &&& searcher.table_len_view() == visited_size
                },
                Err(SearchError::InvalidDepth) => !(0 <= depth <= FIRST_SOLVER_MAX_DEPTH),
                Err(SearchError::InvalidVisitedSize) => 0 <= depth <= FIRST_SOLVER_MAX_DEPTH && (
                visited_size < 1_000_000 || visited_size > u32::MAX || !is_pow2(
                    visited_size as int,
                )),
            },
    {
        if depth < 0 || depth > FIRST_SOLVER_MAX_DEPTH {
            return Err(SearchError::InvalidDepth);
        }
        if visited_size < 1_000_000 || visited_size as u64 > u32::MAX as u64 || !power_of_two(
            visited_size,
        ) {
            return Err(SearchError::InvalidVisitedSize);
        }
        let visited: Vec<i8> = vec![0; visited_size];
        Ok(Searcher { state, depth, visited })
    }

    /// The hash of the current state.
    fn hash_state(&self) -> (r: u64)
        requires
            self.state.wf(),
        ensures
            r == state_hash_view(self.state@),
    {
        let records = bottle_records_of(&self.state);
        let mut hasher = DefaultHasher::new();
        let mut j: usize = 0;
        while j < records.len()
            invariant
                0 <= j <= records@.len(),
                hasher@ == records_view(records@).take(j as int),
            decreases records@.len() - j,
        {
            hasher.write(records[j].as_slice());
            j = j + 1;
            assert(hasher@ =~= records_view(records@).take(j as int));
        }
        assert(records_view(records@).take(j as int) =~= records_view(records@));
        hasher.finish()
    }

    /// The value stored in the slot of a hash.
    fn get_visited(&self, hash: u64) -> (r: i8)
        requires
            self.visited@.len() > 0,
        ensures
            r == self.visited@[table_slot(hash, self.visited@.len() as int)],
            (forall|i: int| 0 <= i < self.visited@.len() ==> #[trigger] self.visited@[i] == 0)
                ==> r == 0,
    {
        self.visited[(hash % (self.visited.len() as u64)) as usize]
    }

    /// Stores a value in the slot of a hash.
    fn set_visited(&mut self, hash: u64, value: i8)
        requires
            old(self).visited@.len() > 0,
        ensures
            final(self).visited@ == old(self).visited@.update(
                table_slot(hash, old(self).visited@.len() as int),
                value,
            ),
            final(self).visited@.len() == old(self).visited@.len(),
            final(self).state == old(self).state,
            final(self).depth == old(self).depth,
    {
        let slot = (hash % (self.visited.len() as u64)) as usize;
        self.visited.set(slot, value);
    }

    /// Searches from the current state with `remaining` moves left, and
    /// gives back the state as it found it.
    fn search_recursive(
        &mut self,
        remaining: u8,
        Ghost(start): Ghost<StateView>,
        Ghost(trail): Ghost<Seq<(StateView, int)>>,
        Ghost(ok): Ghost<bool>,
    ) -> (r: i8)
        requires
            reach_inv(old(self).state@),
            old(self).visited@.len() > 0,
            remaining <= FIRST_SOLVER_MAX_DEPTH,
            remaining <= old(self).depth,
            within(start, old(self).state@, old(self).depth - remaining),
            harmless_slot_collisions(start, old(self).depth as int, old(self).visited@.len() as int)
                ==> sound_slots(old(self).visited@, start, old(self).depth as int),
            ok && harmless_slot_collisions(start, old(self).depth as int, old(self).visited@.len() as int)
                ==> slot_failures_excused(old(self).visited@, start, old(self).depth as int, trail),
        ensures
            harmless_slot_collisions(start, old(self).depth as int, old(self).visited@.len() as int)
                ==> sound_slots(final(self).visited@, start, old(self).depth as int) && (r > 0
                ==> solvable_in(old(self).state@, (r - 1) as nat)),
            final(self).state@ == old(self).state@,
            final(self).visited@.len() == old(self).visited@.len(),
            final(self).depth == old(self).depth,
            r == i8::MIN || -127 <= r <= -1 || 1 <= r <= remaining + 1,
            r < 0 ==> fail_covers(r, remaining as nat),
            ok && harmless_slot_collisions(start, old(self).depth as int, old(self).visited@.len() as int)
                && r < 0 ==> excused(old(self).state@, r, trail) && slot_failures_excused(
                final(self).visited@,
                start,
                old(self).depth as int,
                trail,
            ),
            ((forall|i: int| 0 <= i < old(self).visited@.len() ==> #[trigger] old(self).visited@[i] == 0)
                && remaining >= 1 && first_move_solves_apart(old(self).state@, old(self).visited@.len() as int))
                ==> r == 2,
            old(self).visited@[table_slot(state_hash_view(old(self).state@), old(self).visited@.len() as int)]
                == 0 ==> {
                &&& solved_view(old(self).state@) ==> r == 1
                &&& (!solved_view(old(self).state@) && remaining == 0) ==> r == -1
                &&& (!solved_view(old(self).state@) && remaining > 0 && moves_view(
                    old(self).state@,
                ).len() == 0) ==> r == i8::MIN
            },
        decreases remaining,
    {
        let ghost v = self.state@;
        let ghost depth = self.depth as int;
        let ghost cf = harmless_slot_collisions(start, depth, self.visited@.len() as int);
        proof {
            let k = choose|k: nat| k <= depth - remaining && #[trigger] leads_to(start, v, k);
            assert(leads_to(start, v, k) && k <= depth);
            assert(within(start, v, depth));
        }
        let ghost okc = ok && cf;
        let ghost len = self.visited@.len() as int;
        let ghost first = (forall|i: int| 0 <= i < len ==> #[trigger] self.visited@[i] == 0)
            && remaining >= 1 && first_move_solves_apart(v, len);
        let error_marker: i8 = -(remaining as i8) - 1;
        let hash = self.hash_state();
        let visited = self.get_visited(hash);
        if visited != 0 {
            if visited == i8::MIN {
                return i8::MIN;
            } else if visited < 0 {
                if -(visited + 1) >= remaining as i8 {
                    return visited;
                }
            } else {
                if visited - 1 <= remaining as i8 {
                    return visited;
                } else {
                    return error_marker;
                }
            }
        }
        if self.state.solved() {
            proof {
                lemma_leads_to_zero(v);
            }
            proof {
                if cf {
                    lemma_store_slot_sound(self.visited@, start, depth, v, 1);
                }
            }
            self.set_visited(hash, 1);
            return 1;
        }
        if remaining == 0 {
            proof {
                if cf {
                    lemma_store_slot_sound(self.visited@, start, depth, v, error_marker);
                }
                if okc {
                    lemma_dead_excused(v, trail, error_marker);
                    lemma_store_slot_excused(self.visited@, start, depth, trail, v, error_marker);
                }
            }
            self.set_visited(hash, error_marker);
            return error_marker;
        }
        let moves = self.state.legal_moves();
        if moves.len() == 0 {
            proof {
                if cf {
                    lemma_store_slot_sound(self.visited@, start, depth, v, i8::MIN);
                }
                if okc {
                    lemma_dead_excused(v, trail, i8::MIN);
                    lemma_store_slot_excused(self.visited@, start, depth, trail, v, i8::MIN);
                }
            }
            self.set_visited(hash, i8::MIN);
            return i8::MIN;
        }
        proof {
            if cf {
                lemma_store_slot_sound(self.visited@, start, depth, v, error_marker);
            }
        }
        let ghost zeros = self.visited@;
        let ghost trail2 = trail.push((v, remaining as int));
        proof {
            if okc {
                lemma_push_slot_excused(self.visited@, start, depth, trail, (v, remaining as int));
                assert forall|n: nat| fail_covers(error_marker, n) && #[trigger] solvable_in(v, n) implies stack_solvable(
                    trail2,
                    n,
                ) by {
                    assert(trail2[trail.len() as int] == (v, remaining as int));
                    assert(solvable_in(trail2[trail.len() as int].0, n));
                }
                lemma_store_slot_excused(self.visited@, start, depth, trail2, v, error_marker);
            }
        }
        self.set_visited(hash, error_marker);
        let mut all_failed = true;
        let ghost table_len = self.visited@.len();
        let mut j: usize = 0;
        while j < moves.len()
            invariant
                self.state@ == v,
                v == old(self).state@,
                !solved_view(v),
                moves@.len() > 0,
                table_len == old(self).visited@.len(),
                self.visited@.len() == table_len,
                self.depth == old(self).depth,
                error_marker == -(remaining as i8) - 1,
                reach_inv(v),
                moves@.len() == moves_view(v).len(),
                forall|i: int| 0 <= i < moves@.len() ==> #[trigger] moves@[i]@ == moves_view(v)[i],
                self.visited@.len() > 0,
                1 <= remaining <= FIRST_SOLVER_MAX_DEPTH,
                0 <= j <= moves@.len(),
                depth == self.depth,
                remaining <= depth,
                within(start, v, depth - remaining),
                hash == state_hash_view(v),
                cf == harmless_slot_collisions(start, depth, table_len as int),
                cf ==> sound_slots(self.visited@, start, depth),
                len == table_len,
                zeros.len() == len,
                trail2 == trail.push((v, remaining as int)),
                okc == (ok && cf),
                okc ==> slot_failures_excused(self.visited@, start, depth, trail2),
                okc ==> forall|jj: int, n: nat|
                    0 <= jj < j && (n + 1 <= remaining || all_failed) && #[trigger] solvable_in(
                        apply_view(v, moves_view(v)[jj]),
                        n,
                    ) ==> stack_solvable(trail2, n),
                first == ((forall|i: int|
                    0 <= i < old(self).visited@.len() ==> #[trigger] old(self).visited@[i] == 0)
                    && remaining >= 1 && first_move_solves_apart(old(self).state@, old(self).visited@.len() as int)),
                first ==> j == 0 && (forall|i: int| 0 <= i < len ==> #[trigger] zeros[i] == 0)
                    && self.visited@ == zeros.update(table_slot(hash, len), error_marker),
            decreases moves@.len() - j,
        {
            let mov = moves[j];
            let ghost child = apply_view(v, moves_view(v)[j as int]);
            proof {
                lemma_listed_move(v, j as int);
                assert(one_move(v, child));
                let k = choose|k: nat| k <= depth - remaining && #[trigger] leads_to(start, v, k);
                lemma_leads_to_step(start, v, child, k);
                assert(leads_to(start, child, k + 1) && k + 1 <= depth - (remaining - 1));
            }
            proof {
                if first {
                    let sc = table_slot(state_hash_view(child), len);
                    assert(0 <= sc < len);
                    assert(self.visited@[sc] == zeros[sc]);
                }
            }
            let ghost before_call = self.visited@;
            self.state.apply_move_unchecked(mov);
            assert(first ==> self.state@ == child && self.visited@ == before_call);
            let result = self.search_recursive(remaining - 1, Ghost(start), Ghost(trail2), Ghost(ok));
            assert(first ==> result == 1);
            self.state.undo_move_unchecked(mov);
            proof {
                if cf && result > 0 {
                    let w = choose|w: StateView|
                        #[trigger] leads_to(child, w, (result - 1) as nat) && solved_view(w);
                    lemma_leads_to_prepend(v, child, w, (result - 1) as nat);
                    assert(leads_to(v, w, result as nat));
                }
            }
            all_failed = all_failed && result == i8::MIN;
            if result > 0 {
                proof {
                    if cf {
                        lemma_store_slot_sound(self.visited@, start, depth, v, (result + 1) as i8);
                    }
                }
                self.set_visited(hash, result + 1);
                return result + 1;
            }
            j = j + 1;
        }
        let error_marker = if all_failed {
            i8::MIN
        } else {
            error_marker
        };
        proof {
            if cf {
                lemma_store_slot_sound(self.visited@, start, depth, v, error_marker);
            }
            if okc {
                lemma_loop_excused(v, trail, remaining as int, error_marker, all_failed);
                lemma_pop_slot_excused(self.visited@, start, depth, trail, v, remaining as int, error_marker);
                lemma_store_slot_excused(self.visited@, start, depth, trail, v, error_marker);
            }
        }
        self.set_visited(hash, error_marker);
        error_marker
    }

    /// Runs the search: the number of moves of the first solution found, or
    /// `-1` when none was found within the depth.
    pub fn search(self) -> (r: i8)
        requires
            self.fresh(),
        ensures
            r == -1 || 0 <= r <= self.depth_view(),
            solved_view(self.state_view()) ==> r == 0,
            (!solved_view(self.state_view()) && (self.depth_view() == 0 || moves_view(
                self.state_view(),
            ).len() == 0)) ==> r == -1,
            harmless_slot_collisions(
                self.state_view(),
                self.depth_view() as int,
                self.table_len_view() as int,
            ) ==> (r >= 0 ==> solvable_in(self.state_view(), r as nat)),
            (self.depth_view() >= 1 && first_move_solves_apart(
                self.state_view(),
                self.table_len_view() as int,
            )) ==> r == 1,
            harmless_slot_collisions(
                self.state_view(),
                self.depth_view() as int,
                self.table_len_view() as int,
            ) ==> (r == -1 ==> forall|k: nat| k <= self.depth_view() ==> !#[trigger] solvable_in(
                self.state_view(),
                k,
            )),
    {
        let mut search = self;
        let depth = search.depth as u8;
        let ghost start = search.state@;
        proof {
            lemma_leads_to_zero(start);
            assert(leads_to(start, start, 0));
            assert forall|w: StateView|
                within(start, w, depth as int) && #[trigger] search.visited@[table_slot(
                    state_hash_view(w),
                    search.visited@.len() as int,
                )] > 0 implies solvable_in(
                w,
                (search.visited@[table_slot(state_hash_view(w), search.visited@.len() as int)]
                    - 1) as nat,
            ) by {
                let sl = table_slot(state_hash_view(w), search.visited@.len() as int);
                assert(search.visited@[sl] == 0);
            }
        }
        proof {
            assert forall|w: StateView| within(start, w, depth as int) implies #[trigger] search.visited@[table_slot(
                state_hash_view(w),
                search.visited@.len() as int,
            )] <= 0 && excused(
                w,
                search.visited@[table_slot(state_hash_view(w), search.visited@.len() as int)],
                Seq::empty(),
            ) by {
                let sl = table_slot(state_hash_view(w), search.visited@.len() as int);
                assert(search.visited@[sl] == 0);
            }
        }
        let result = search.search_recursive(depth, Ghost(start), Ghost(Seq::empty()), Ghost(true));
        proof {
            if harmless_slot_collisions(start, depth as int, search.visited@.len() as int) && result < 0 {
                assert forall|k: nat| k <= depth implies !#[trigger] solvable_in(start, k) by {
                    if solvable_in(start, k) {
                        assert(fail_covers(result, k));
                        assert(stack_solvable(Seq::<(StateView, int)>::empty(), k));
                    }
                }
            }
        }
        if result < 0 {
            -1
        } else {
            result - 1
        }
    }
}

} // verus!
