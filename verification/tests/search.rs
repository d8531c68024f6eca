use water_sort::search::{DFS, SearchError, Searcher, bfs, search_hash};
use water_sort::starting::StartingState;
use water_sort::state::State;
use std::hash::{DefaultHasher, Hash, Hasher};

fn puzzle(content: Vec<Vec<u8>>, capacity: Vec<u8>) -> StartingState {
    StartingState {
        content,
        capacity,
        hidden_items: vec![],
        locked_items: vec![],
        immovable_bottles: vec![],
        pluggable_bottles: vec![],
        frozen_bottle_ranges: vec![],
        curtain_ranges: vec![],
        safes: vec![],
        lock_group_ranges: vec![],
        lock_group_keys: vec![],
        colored_bottles: vec![],
        color_curtains: vec![],
    }
}

fn state(content: Vec<Vec<u8>>, capacity: Vec<u8>) -> State {
    State::try_from(&puzzle(content, capacity)).expect("valid")
}

const TABLE: usize = 1 << 20;

#[test]
fn dfs_refuses_bad_settings() {
    let s = state(vec![vec![1], vec![]], vec![4, 4]);
    assert_eq!(DFS::new(s, -1, TABLE, true).err(), Some(SearchError::InvalidDepth));
    assert_eq!(DFS::new(s, 126, TABLE, true).err(), Some(SearchError::InvalidDepth));
    assert_eq!(DFS::new(s, 5, 1 << 10, true).err(), Some(SearchError::InvalidVisitedSize));
    assert_eq!(DFS::new(s, 5, 3_000_000, true).err(), Some(SearchError::InvalidVisitedSize));
    assert_eq!(SearchError::InvalidDepth.message(), "invalid depth");
    assert_eq!(SearchError::InvalidVisitedSize.message(), "invalid visited size");
}

#[test]
fn a_solved_state_needs_no_move() {
    let s = state(vec![vec![], vec![]], vec![4, 4]);
    let dfs = DFS::new(s, 3, TABLE, true).expect("valid");
    assert_eq!(dfs.search(), 0);
    assert_eq!(bfs(&s, 3), Ok(0));
}

#[test]
fn one_pour_solves() {
    let s = state(vec![vec![1, 1, 1], vec![1]], vec![4, 4]);
    assert_eq!(DFS::new(s, 3, TABLE, true).expect("valid").search(), 1);
    assert_eq!(DFS::new(s, 3, TABLE, false).expect("valid").search(), 1);
    assert_eq!(bfs(&s, 3), Ok(1));
}

#[test]
fn no_depth_finds_nothing() {
    let s = state(vec![vec![1, 1, 1], vec![1]], vec![4, 4]);
    assert_eq!(DFS::new(s, 0, TABLE, true).expect("valid").search(), -1);
    assert_eq!(bfs(&s, 0), Ok(-1));
}

#[test]
fn a_two_color_puzzle() {
    let s = state(vec![vec![1, 2, 1, 2], vec![2, 1, 2, 1], vec![], vec![]], vec![4, 4, 4, 4]);
    let best = bfs(&s, 12).expect("valid depth");
    assert!(best > 0);
    let found = DFS::new(s, 12, TABLE, false).expect("valid").search();
    assert!(found >= best);
    assert_eq!(bfs(&s, -3), Err(SearchError::InvalidDepth));
}

#[test]
fn the_hash_ignores_the_order_of_plain_bottles() {
    let a = state(vec![vec![1, 2], vec![2, 1], vec![]], vec![4, 4, 4]);
    let b = state(vec![vec![2, 1], vec![], vec![1, 2]], vec![4, 4, 4]);
    let c = state(vec![vec![1, 1], vec![2, 2], vec![]], vec![4, 4, 4]);
    assert_eq!(search_hash(&a), search_hash(&b));
    assert_ne!(search_hash(&a), search_hash(&c));
}

#[test]
fn the_hash_keeps_the_place_of_tied_bottles() {
    let mut p = puzzle(vec![vec![1, 2], vec![2, 1], vec![]], vec![4, 4, 4]);
    p.safes = vec![(1, 2)];
    let mut q = puzzle(vec![vec![2, 1], vec![1, 2], vec![]], vec![4, 4, 4]);
    q.safes = vec![(2, 2)];
    let a = State::try_from(&p).expect("valid");
    let b = State::try_from(&q).expect("valid");
    assert_ne!(search_hash(&a), search_hash(&b));
}

#[test]
fn three_moves_are_the_least() {
    let s = || state(vec![vec![1, 2], vec![2, 1], vec![]], vec![2, 2, 2]);
    assert_eq!(DFS::new(s(), 10, TABLE, false).expect("valid").search(), 3);
    assert_eq!(DFS::new(s(), 10, TABLE, true).expect("valid").search(), 3);
    assert_eq!(DFS::new(s(), 2, TABLE, false).expect("valid").search(), -1);
    assert_eq!(bfs(&s(), 10), Ok(3));
    assert_eq!(bfs(&s(), 3), Ok(3));
    assert_eq!(bfs(&s(), 2), Ok(-1));
}

#[test]
fn a_first_move_that_solves_is_one_move() {
    let s = || state(vec![vec![1, 1, 1], vec![1]], vec![4, 4]);
    assert_eq!(DFS::new(s(), 5, TABLE, false).expect("valid").search(), 1);
    assert_eq!(DFS::new(s(), 5, TABLE, true).expect("valid").search(), 1);
    assert_eq!(Searcher::new(s(), 5, 1 << 20).expect("valid").search(), 1);
    assert_eq!(bfs(&s(), 5), Ok(1));
}

#[derive(Clone, Copy, Default, Hash, PartialEq, Eq, PartialOrd, Ord)]
struct PlainBottle {
    bottle: u8,
    height: u8,
    capacity: u8,
    content: u64,
    bottle_finalized: bool,
    item_hidden: u16,
    item_locked: u16,
    bottle_immovable: bool,
    pluggable_bottle: bool,
    bottle_plugged: bool,
    frozen: bool,
    behind_curtain: bool,
    safe_counter: u8,
    item_has_key: u16,
    bottle_locked: bool,
    bottle_color: u8,
    color_curtain_active: bool,
}

fn item_bits(state: &State, bottle: u8, flag: fn(&State, u8, u8) -> bool) -> u16 {
    (0..16u8).filter(|&i| flag(state, bottle, i)).map(|i| 1u16 << i).sum()
}

/// The hash computed field by field: each bottle as a struct with derived
/// `Hash` and `Ord`, sorted, and the slice hashed.
fn field_hash(state: &State) -> u64 {
    let mut bottles = Vec::new();
    for b in 1..=state.bottle_count() {
        let item_has_key = item_bits(state, b, State::get_item_has_key);
        let tied = state.get_frozen(b) || state.get_behind_curtain(b) || state.get_safe_counter(b) != 0
            || state.get_bottle_locked(b) || state.get_color_curtain_active(b) || item_has_key != 0;
        bottles.push(PlainBottle {
            bottle: if tied { b } else { 0 },
            height: state.get_height(b),
            capacity: state.get_capacity(b),
            content: (0..16u8).map(|i| u64::from(state.get_color(b, i)) << (4 * i)).sum(),
            bottle_finalized: state.get_bottle_finalized(b),
            item_hidden: item_bits(state, b, State::get_item_hidden),
            item_locked: item_bits(state, b, State::get_item_locked),
            bottle_immovable: state.get_bottle_immovable(b),
            pluggable_bottle: state.get_pluggable_bottle(b),
            bottle_plugged: state.get_bottle_plugged(b),
            frozen: state.get_frozen(b),
            behind_curtain: state.get_behind_curtain(b),
            safe_counter: state.get_safe_counter(b),
            item_has_key,
            bottle_locked: state.get_bottle_locked(b),
            bottle_color: state.get_bottle_color(b),
            color_curtain_active: state.get_color_curtain_active(b),
        });
    }
    bottles.sort_unstable();
    let mut h = DefaultHasher::new();
    bottles.as_slice().hash(&mut h);
    h.finish()
}

#[test]
fn the_hash_matches_the_bottle_fields() {
    let plain = state(vec![vec![1, 2, 3], vec![3, 2, 1, 1], vec![], vec![2, 3]], vec![4, 4, 4, 4]);
    assert_eq!(search_hash(&plain), field_hash(&plain));
    let mut p = puzzle(vec![vec![1, 2, 1], vec![2, 1], vec![1, 2], vec![2], vec![]], vec![4, 4, 4, 4, 4]);
    p.hidden_items = vec![(1, 0), (2, 0)];
    p.curtain_ranges = vec![(4, 5)];
    p.safes = vec![(5, 2)];
    let featured = State::try_from(&p).expect("valid");
    assert_eq!(search_hash(&featured), field_hash(&featured));
}

#[test]
fn the_first_solver_answers_within_its_depth() {
    let s = || state(vec![vec![1, 2], vec![2, 1], vec![]], vec![2, 2, 2]);
    assert_eq!(Searcher::new(s(), 2, 1 << 20).expect("valid").search(), -1);
    assert_eq!(Searcher::new(s(), 10, 1 << 20).expect("valid").search(), 3);
}

#[test]
fn best_mode_finds_the_one_move_that_the_first_solution_passes_by() {
    let s = || {
        let mut p = puzzle(vec![vec![1, 1, 1], vec![], vec![1]], vec![4, 4, 4]);
        p.colored_bottles = vec![(2, 1)];
        State::try_from(&p).expect("valid")
    };
    assert_eq!(DFS::new(s(), 5, TABLE, false).expect("valid").search(), 1);
    assert_eq!(DFS::new(s(), 5, TABLE, true).expect("valid").search(), 2);
    assert_eq!(bfs(&s(), 5), Ok(1));
}
