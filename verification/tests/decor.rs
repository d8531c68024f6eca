use water_sort::decor::{key_of, safe_groups};
use water_sort::view::{BoardView, BottleView, Lines};

fn bottle(id: u8, line: u8, span: u8, column: u8, safe_counter: u8) -> BottleView {
    BottleView {
        id,
        lines: Lines { start: line, end: line + span },
        repr_column: column,
        capacity: 4,
        items: vec![],
        finalized: false,
        immovable: false,
        pluggable: false,
        plugged: false,
        frozen: false,
        behind_curtain: false,
        safe_counter,
        locked: false,
        filter_color: None,
        color_curtain: None,
        can_move_from: false,
        interactable: safe_counter == 0,
    }
}

fn board(bottles: Vec<BottleView>) -> BoardView {
    BoardView {
        bottles,
        frozen_ranges: vec![],
        curtain_ranges: vec![],
        lock_groups: vec![],
        solved: false,
        stuck: false,
        pours: None,
    }
}

/// Five safes and a plain bottle, listed out of place order.
fn vault(counters: [u8; 5]) -> BoardView {
    board(vec![
        bottle(1, 1, 1, 2, counters[0]),
        bottle(2, 0, 1, 0, counters[1]),
        bottle(3, 0, 1, 2, counters[2]),
        bottle(4, 0, 1, 4, counters[3]),
        bottle(5, 0, 1, 6, 0),
        bottle(6, 1, 1, 4, counters[4]),
    ])
}

#[test]
fn neighbouring_safes_with_equal_counters_share_a_door() {
    let groups = safe_groups(&vault([3, 2, 2, 1, 3]));
    assert_eq!(groups, vec![vec![2, 3], vec![4], vec![1, 6]]);
}

#[test]
fn a_taller_safe_stands_alone() {
    let view = board(vec![
        bottle(1, 0, 2, 0, 2),
        bottle(2, 0, 1, 2, 2),
        bottle(3, 0, 1, 4, 2),
    ]);
    assert_eq!(safe_groups(&view), vec![vec![1], vec![2, 3]]);
}

#[test]
fn a_board_without_safes_has_no_doors() {
    assert!(safe_groups(&vault([0, 0, 0, 0, 0])).is_empty());
}

#[test]
fn doors_open_and_never_re_form() {
    let start = safe_groups(&vault([3, 2, 2, 1, 3]));
    for d in 0..4u8 {
        let counters = [3u8, 2, 2, 1, 3].map(|c| c.saturating_sub(d));
        for group in safe_groups(&vault(counters)) {
            assert!(start.contains(&group), "{group:?} is not part of {start:?}");
        }
    }
    assert_eq!(safe_groups(&vault([2, 1, 1, 0, 2])), vec![vec![2, 3], vec![1, 6]]);
}

#[test]
fn slots_follow_the_bottles() {
    let view = vault([1, 1, 1, 1, 1]);
    let slots = view.slots();
    assert_eq!(slots.len(), 6);
    assert_eq!(slots[1], view.bottles[1].slot());
    assert_eq!(slots[1].lines, Lines { start: 0, end: 1 });
    assert_eq!(slots[5].repr_column, 4);
}

#[test]
fn a_door_shows_the_key_of_its_group() {
    let mut view = vault([0, 0, 0, 0, 0]);
    view.lock_groups = vec![(35, (2, 3)), (70, (4, 4))];
    assert_eq!(key_of(&view, 2), 35);
    assert_eq!(key_of(&view, 4), 70);
    assert_eq!(key_of(&view, 3), 0);
}
