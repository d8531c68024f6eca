use water_sort::state::{State, from_index, to_index};
use water_sort::starting::StartingState;
use water_sort::bits::Bits;
use water_sort::sizes::{bits_from_build_env, storage_bits};

fn puzzle(content: Vec<Vec<u8>>, capacity: Vec<u8>) -> StartingState {
    StartingState {
        content,
        capacity,
        hidden_items: vec![],
        locked_items: vec![],
        immovable_bottles: vec![],
        pluggable_bottles: vec![],
        frozen_bottle_ranges: vec![],
        curtain_ranges: vec![],
        safes: vec![],
        lock_group_ranges: vec![],
        lock_group_keys: vec![],
        colored_bottles: vec![],
        color_curtains: vec![],
    }
}

#[test]
fn item_indices_round_trip() {
    assert_eq!(to_index(3, 5), 53);
    assert_eq!(from_index(53), (3, 5));
    assert_eq!(from_index(to_index(31, 15)), (31, 15));
}

#[test]
fn a_hidden_item_shows_when_uncovered() {
    let mut p = puzzle(vec![vec![1, 2, 2], vec![1, 1, 1], vec![2, 2]], vec![4, 4, 4]);
    p.hidden_items = vec![(1, 0)];
    let mut state = State::try_from(&p).expect("valid");
    let mov = state.pour(1, 3).expect("legal");
    assert_eq!(mov.count(), 2);
    assert_eq!(mov.show_item(), Some((1, 0)));
    assert!(!state.get_item_hidden(1, 0));
}

#[test]
fn a_locked_item_leaves_alone_and_unlocked() {
    let mut p = puzzle(vec![vec![2, 1, 1], vec![1], vec![]], vec![4, 4, 4]);
    p.locked_items = vec![(1, 2)];
    let mut state = State::try_from(&p).expect("valid");
    assert!(state.get_item_locked(1, 2));
    let mov = state.pour(1, 3).expect("legal");
    assert_eq!(mov.count(), 1);
    assert_eq!(mov.unlock_item(), Some((1, 2)));
    assert!(!state.get_item_locked(1, 2));
    assert!(!state.get_item_locked(3, 0));
    assert_eq!(state.get_height(1), 2);
}

#[test]
fn the_top_item_is_never_hidden() {
    let mut p = puzzle(vec![vec![1, 2, 2, 1], vec![1, 1], vec![], vec![]], vec![4, 4, 4, 4]);
    p.hidden_items = vec![(1, 0), (1, 1)];
    let mut state = State::try_from(&p).expect("valid");
    state.pour(1, 2).expect("legal");
    assert!(!state.get_item_hidden(1, 2));
    let mov = state.pour(1, 3).expect("legal");
    assert_eq!(mov.count(), 1);
    assert_eq!(mov.show_item(), Some((1, 1)));
    assert!(!state.get_item_hidden(1, 1));
    assert!(state.get_item_hidden(1, 0));
    for bottle in state.bottles() {
        let height = state.get_height(bottle);
        for item in height.saturating_sub(1)..16 {
            assert!(!state.get_item_hidden(bottle, item));
        }
    }
}

#[test]
fn solving_a_bottle_counts_safes_down() {
    let mut p = puzzle(vec![vec![1, 1, 1], vec![1], vec![2, 2]], vec![4, 4, 4]);
    p.safes = vec![(3, 1)];
    let mut state = State::try_from(&p).expect("valid");
    assert!(!state.can_move_from(3));
    let mov = state.pour(2, 1).expect("legal");
    assert_eq!(mov.finalize_bottle(), Some(1));
    assert!(mov.decrement_safe_counters());
    assert!(mov.decrement_safe_counter(3));
    assert!(!mov.decrement_safe_counter(2));
    assert_eq!(state.get_safe_counter(3), 0);
    assert!(state.can_move_from(3));
}

#[test]
fn solving_a_frozen_bottle_thaws_its_group() {
    let mut p = puzzle(vec![vec![1, 1, 1], vec![2, 2], vec![1]], vec![4, 4, 4]);
    p.frozen_bottle_ranges = vec![(1, 3)];
    let mut state = State::try_from(&p).expect("valid");
    assert!(state.get_frozen(1) && state.get_frozen(2));
    assert!(!state.can_move_from(2));
    let mov = state.pour(3, 1).expect("legal");
    assert_eq!(mov.unfreeze_run(), Some((1, 2)));
    assert!(!state.get_frozen(2));
    assert_eq!(mov.unlock_run(), None);
    assert!(!mov.lift_curtains());
    assert!(!mov.lift_color_curtains());
    assert_eq!(mov.remove_key(), None);
    assert_eq!(mov.unlock_item(), None);
    assert_eq!(mov.unplug_bottle(), None);
}

#[test]
fn bits_fields_share_the_words() {
    let mut b: Bits<4> = Bits::zero();
    b.set_u16(0, 0x1234);
    b.set_u16(1, 0xABCD);
    assert_eq!(b.get_u8(0), 0x34);
    assert_eq!(b.get_u8(1), 0x12);
    assert_eq!(b.get_u8(2), 0xCD);
    assert_eq!(b.get_u8(3), 0xAB);
    assert_eq!(b.get_u32(0), 0xABCD_1234);
    assert_eq!(b.get_u32(1), 0);
    assert_eq!(b.get_u4(0), 0x4);
    assert!(b.has(2) && !b.has(0));
    b.set_u64(0, 0x0123_4567_89AB_CDEF);
    assert_eq!(b.get_u16(0), 0xCDEF);
    assert_eq!(b.get_u16(3), 0x0123);
}

#[test]
fn bits_hold_fields() {
    let d: Bits<2> = Bits::default();
    assert!(d.is_zero());
    assert_eq!(d.count(), 0);
    let mut b: Bits<4> = Bits::zero();
    b.set(5, true);
    assert!(b.has(5));
    assert!(!b.has(4));
    assert_eq!(b.count(), 1);
    assert_eq!(b.first(), Some(5));
    b.set_u8(3, 0xab);
    assert_eq!(b.get_u8(3), 0xab);
    assert_eq!(b.get_u4(6), 0xb);
    b.set_u16(2, 0x1234);
    assert_eq!(b.get_u16(2), 0x1234);
    assert_eq!(b.last(), Some(44));
}

#[test]
fn build_sizes() {
    assert_eq!(bits_from_build_env(None, 2, 4), 4);
    assert_eq!(bits_from_build_env(Some("3"), 2, 4), 3);
    assert_eq!(bits_from_build_env(Some("12"), 2, 20), 12);
    assert_eq!(storage_bits(5), 32);
    assert_eq!(storage_bits(100), 128);
    assert_eq!(storage_bits(512), 512);
    assert_eq!(storage_bits(4096), 4096);
}
