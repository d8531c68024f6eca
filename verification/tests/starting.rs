use water_sort::starting::{StartError, StartingState};
use water_sort::state::State;

fn puzzle(content: Vec<Vec<u8>>, capacity: Vec<u8>) -> StartingState {
    StartingState {
        content,
        capacity,
        hidden_items: vec![],
        locked_items: vec![],
        immovable_bottles: vec![],
        pluggable_bottles: vec![],
        frozen_bottle_ranges: vec![],
        curtain_ranges: vec![],
        safes: vec![],
        lock_group_ranges: vec![],
        lock_group_keys: vec![],
        colored_bottles: vec![],
        color_curtains: vec![],
    }
}

fn basic() -> StartingState {
    puzzle(vec![vec![1, 1, 2, 2], vec![2, 2, 1, 1], vec![], vec![]], vec![4, 4, 4, 4])
}

fn refused(s: &StartingState) -> StartError {
    match State::try_from(s) {
        Ok(_) => panic!("the description should be refused"),
        Err(e) => e,
    }
}

#[test]
fn builds_the_described_bottles() {
    let state = State::try_from(&basic()).expect("valid");
    assert_eq!(state.bottle_count(), 4);
    assert_eq!(state.get_height(1), 4);
    assert_eq!(state.get_height(3), 0);
    assert_eq!(state.get_capacity(2), 4);
    assert_eq!(state.get_color(1, 0), 1);
    assert_eq!(state.get_color(1, 3), 2);
    assert_eq!(state.get_color(2, 0), 2);
    assert_eq!(state.get_color(3, 0), 0);
    assert!(!state.solved());
}

#[test]
fn shape_errors() {
    let many = puzzle(vec![vec![]; 32], vec![4; 32]);
    assert_eq!(refused(&many), StartError::TooManyBottles);
    let mismatch = puzzle(vec![vec![1]], vec![4, 4]);
    assert_eq!(refused(&mismatch), StartError::LengthMismatch);
    let long = puzzle(vec![vec![1; 17]], vec![16]);
    assert_eq!(refused(&long), StartError::BottleItemCountTooLarge);
    let zero = puzzle(vec![vec![1]], vec![0]);
    assert_eq!(refused(&zero), StartError::CapacityZero);
    let large = puzzle(vec![vec![1]], vec![17]);
    assert_eq!(refused(&large), StartError::CapacityTooLarge);
    let over = puzzle(vec![vec![1, 1, 1]], vec![2]);
    assert_eq!(refused(&over), StartError::HeightExceedsCapacity);
}

#[test]
fn color_errors() {
    let zero = puzzle(vec![vec![1, 0]], vec![4]);
    assert_eq!(refused(&zero), StartError::InvalidColor);
    let large = puzzle(vec![vec![16]], vec![4]);
    assert_eq!(refused(&large), StartError::InvalidColor);
    let many = puzzle(vec![vec![3; 16], vec![3]], vec![16, 4]);
    assert_eq!(refused(&many), StartError::TooManyItemsOfColor);
    // The first offending item decides.
    let both = puzzle(vec![vec![3; 16], vec![3, 0]], vec![16, 4]);
    assert_eq!(refused(&both), StartError::TooManyItemsOfColor);
    // Sixteen items of one color are already too many.
    let half: Vec<u8> = [vec![1; 8], vec![2; 8]].concat();
    let sixteen = puzzle(vec![half.clone(), half], vec![16, 16]);
    assert_eq!(refused(&sixteen), StartError::TooManyItemsOfColor);
    let fifteen = puzzle(vec![vec![3; 15], vec![4]], vec![16, 4]);
    assert!(State::try_from(&fifteen).is_ok());
}

#[test]
fn feature_list_errors() {
    let mut s = basic();
    s.hidden_items = vec![(0, 0)];
    assert_eq!(refused(&s), StartError::HiddenItemBottleZero);
    s.hidden_items = vec![(5, 0)];
    assert_eq!(refused(&s), StartError::HiddenItemBottleRange);
    s.hidden_items = vec![(1, 3)];
    assert_eq!(refused(&s), StartError::HiddenItemRange);
    s.hidden_items = vec![];
    s.locked_items = vec![(0, 0)];
    assert_eq!(refused(&s), StartError::LockedItemBottleZero);
    s.locked_items = vec![(9, 0)];
    assert_eq!(refused(&s), StartError::LockedItemBottleRange);
    s.locked_items = vec![(3, 0)];
    assert_eq!(refused(&s), StartError::LockedItemRange);
    s.locked_items = vec![];
    s.immovable_bottles = vec![0];
    assert_eq!(refused(&s), StartError::ImmovableBottleZero);
    s.immovable_bottles = vec![5];
    assert_eq!(refused(&s), StartError::ImmovableBottleRange);
    s.immovable_bottles = vec![];
    s.pluggable_bottles = vec![(0, true)];
    assert_eq!(refused(&s), StartError::PluggableBottleZero);
    s.pluggable_bottles = vec![(5, true)];
    assert_eq!(refused(&s), StartError::PluggableBottleRange);
    s.pluggable_bottles = vec![];
    s.safes = vec![(0, 1)];
    assert_eq!(refused(&s), StartError::SafeBottleZero);
    s.safes = vec![(5, 1)];
    assert_eq!(refused(&s), StartError::SafeBottleRange);
    s.safes = vec![(3, 8)];
    assert_eq!(refused(&s), StartError::SafeCounterRange);
    s.safes = vec![];
    s.colored_bottles = vec![(0, 1)];
    assert_eq!(refused(&s), StartError::ColoredBottleZero);
    s.colored_bottles = vec![(5, 1)];
    assert_eq!(refused(&s), StartError::ColoredBottleRange);
    s.colored_bottles = vec![(3, 0)];
    assert_eq!(refused(&s), StartError::ColoredBottleColor);
    s.colored_bottles = vec![];
    s.color_curtains = vec![(0, 1)];
    assert_eq!(refused(&s), StartError::ColorCurtainZero);
    s.color_curtains = vec![(5, 1)];
    assert_eq!(refused(&s), StartError::ColorCurtainRange);
    s.color_curtains = vec![(3, 16)];
    assert_eq!(refused(&s), StartError::ColorCurtainColor);
}

#[test]
fn range_errors() {
    let mut s = basic();
    s.frozen_bottle_ranges = vec![(3, 5), (1, 3)];
    assert_eq!(refused(&s), StartError::RangesNotSorted);
    s.frozen_bottle_ranges = vec![(1, 3), (2, 4)];
    assert_eq!(refused(&s), StartError::RangesOverlapping);
    s.frozen_bottle_ranges = vec![(0, 2)];
    assert_eq!(refused(&s), StartError::RangeContainsZero);
    s.frozen_bottle_ranges = vec![(2, 2)];
    assert_eq!(refused(&s), StartError::InvalidRange);
    s.frozen_bottle_ranges = vec![(2, 6)];
    assert_eq!(refused(&s), StartError::RangeTooLarge);
    s.frozen_bottle_ranges = vec![];
    s.curtain_ranges = vec![(4, 6)];
    assert_eq!(refused(&s), StartError::RangeTooLarge);
}

#[test]
fn lock_group_errors() {
    let mut s = basic();
    s.lock_group_ranges = vec![(3, 4)];
    assert_eq!(refused(&s), StartError::LockGroupCountMismatch);
    s.lock_group_keys = vec![(0, 0)];
    assert_eq!(refused(&s), StartError::KeyBottleZero);
    s.lock_group_keys = vec![(5, 0)];
    assert_eq!(refused(&s), StartError::KeyBottleRange);
    s.lock_group_keys = vec![(1, 4)];
    assert_eq!(refused(&s), StartError::KeyItemRange);
    s.lock_group_keys = vec![(1, 3)];
    assert_eq!(refused(&s), StartError::KeyOnTop);
    s.lock_group_keys = vec![(1, 2)];
    assert_eq!(refused(&s), StartError::KeyNotFirst);
    s.lock_group_keys = vec![(1, 1)];
    s.lock_group_ranges = vec![(1, 2)];
    assert_eq!(refused(&s), StartError::KeyInsideItself);
    s.lock_group_ranges = vec![(3, 4), (4, 5)];
    s.lock_group_keys = vec![(1, 1), (1, 1)];
    assert_eq!(refused(&s), StartError::KeyDuplicate);
}

#[test]
fn more_than_one_feature_is_refused() {
    let mut s = basic();
    s.curtain_ranges = vec![(3, 4)];
    s.safes = vec![(3, 2)];
    assert_eq!(refused(&s), StartError::TooManyFeatures);
}

#[test]
fn a_solved_bottle_is_refused() {
    let s = puzzle(vec![vec![1, 1, 1, 1], vec![]], vec![4, 4]);
    assert_eq!(refused(&s), StartError::FinalizedBottle);
}

#[test]
fn features_are_set() {
    let mut s = basic();
    s.hidden_items = vec![(1, 0)];
    s.locked_items = vec![(2, 0)];
    s.immovable_bottles = vec![4];
    s.pluggable_bottles = vec![(3, true), (3, false)];
    s.safes = vec![(4, 3)];
    s.colored_bottles = vec![(3, 2)];
    s.color_curtains = vec![(3, 1)];
    let state = State::try_from(&s).expect("valid");
    assert!(state.get_item_hidden(1, 0));
    assert!(!state.get_item_hidden(1, 1));
    assert!(state.get_item_locked(2, 0));
    assert!(state.get_bottle_immovable(4));
    assert!(state.get_pluggable_bottle(3));
    // The last entry for a bottle decides whether it starts plugged.
    assert!(!state.get_bottle_plugged(3));
    assert_eq!(state.get_safe_counter(4), 3);
    assert_eq!(state.get_bottle_color(3), 2);
    assert_eq!(state.get_color_curtain(3), 1);
    assert!(state.get_color_curtain_active(3));
}

#[test]
fn groups_are_marked() {
    let mut s = puzzle(
        vec![vec![1, 2], vec![2, 1], vec![1, 2], vec![2, 1], vec![], vec![]],
        vec![4, 4, 4, 4, 4, 4],
    );
    s.frozen_bottle_ranges = vec![(1, 3)];
    s.curtain_ranges = vec![(3, 5)];
    s.lock_group_ranges = vec![(5, 7)];
    s.lock_group_keys = vec![(1, 0)];
    let state = State::try_from(&s).expect("valid");
    assert!(state.get_frozen(1) && state.get_frozen(2) && !state.get_frozen(3));
    assert!(state.get_behind_curtain(3) && state.get_behind_curtain(4));
    assert!(!state.get_behind_curtain(5));
    assert!(state.get_bottle_locked(5) && state.get_bottle_locked(6));
    assert!(state.get_item_has_key(1, 0));
    assert_eq!(state.get_bottle_key(5), 16);
    assert_eq!(state.get_bottle_key(6), 16);
    assert_eq!(state.get_bottle_key(4), 0);
    // Both frozen bottles report their group once.
    assert_eq!(state.get_frozen_ranges(), vec![(1, 2)]);
    assert_eq!(state.get_curtain_ranges(), vec![(3, 4)]);
    assert_eq!(state.get_lock_group_ranges(), vec![(16, (5, 6))]);
}

#[test]
fn messages_match_the_refusals() {
    assert_eq!(StartError::TooManyBottles.message(), "too many bottles");
    assert_eq!(StartError::KeyNotFirst.message(), "lock group key must be the first item of a pour");
    assert_eq!(
        StartError::TooManyFeatures.message(),
        "at most one of curtain, safe, or lock can be chosen per bottle"
    );
}

#[test]
fn lock_groups_follow_the_locked_bottles() {
    let mut s = puzzle(
        vec![vec![1, 2, 1], vec![2, 1], vec![1, 2], vec![2, 1], vec![1, 2], vec![], vec![]],
        vec![4, 4, 4, 4, 4, 4, 4],
    );
    s.lock_group_ranges = vec![(3, 6)];
    s.lock_group_keys = vec![(1, 0)];
    let mut state = State::try_from(&s).expect("valid");
    let locked = |st: &State| (1..=7u8).filter(|&b| st.get_bottle_locked(b)).collect::<Vec<u8>>();
    assert_eq!(state.get_lock_group_ranges(), vec![(16, (3, 5))]);
    assert_eq!(locked(&state), vec![3, 4, 5]);
    let first = state.pour(1, 6).expect("legal");
    assert_eq!(first.unlock_run(), None);
    assert_eq!(state.get_lock_group_ranges(), vec![(16, (3, 5))]);
    assert_eq!(locked(&state), vec![3, 4, 5]);
    // Uncovering the key item opens the whole group at once.
    let second = state.pour(1, 7).expect("legal");
    assert_eq!(second.unlock_run(), Some((3, 5)));
    assert_eq!(state.get_lock_group_ranges(), vec![]);
    assert_eq!(locked(&state), Vec::<u8>::new());
}

#[test]
fn curtain_groups_come_in_order_and_colors_are_kept() {
    let mut s = puzzle(
        vec![vec![1, 2], vec![2, 1], vec![1, 2], vec![2, 1], vec![1, 2], vec![]],
        vec![4, 4, 4, 4, 4, 4],
    );
    s.curtain_ranges = vec![(2, 4), (4, 6)];
    let mut state = State::try_from(&s).expect("valid");
    assert_eq!(state.get_curtain_ranges(), vec![(2, 3), (4, 5)]);
    let count = |st: &State, c: u8| {
        (1..=st.bottle_count())
            .map(|b| (0..st.get_height(b)).filter(|&i| st.get_color(b, i) == c).count())
            .sum::<usize>()
    };
    assert!(state.pour(1, 6).is_ok());
    assert_eq!((count(&state, 1), count(&state, 2)), (5, 5));
}
