use water_sort::history::History;
use water_sort::starting::StartingState;
use water_sort::state::{PourError, State};

fn puzzle(content: Vec<Vec<u8>>, capacity: Vec<u8>) -> StartingState {
    StartingState {
        content,
        capacity,
        hidden_items: vec![],
        locked_items: vec![],
        immovable_bottles: vec![],
        pluggable_bottles: vec![],
        frozen_bottle_ranges: vec![],
        curtain_ranges: vec![],
        safes: vec![],
        lock_group_ranges: vec![],
        lock_group_keys: vec![],
        colored_bottles: vec![],
        color_curtains: vec![],
    }
}

fn start() -> State {
    let s = puzzle(vec![vec![1, 1, 2, 2], vec![2, 2, 1, 1], vec![], vec![]], vec![4, 4, 4, 4]);
    State::try_from(&s).expect("valid")
}

fn snapshot(state: &State) -> Vec<(u8, Vec<u8>, bool)> {
    state
        .bottles()
        .map(|b| {
            let items = (0..16).map(|i| state.get_color(b, i)).collect();
            (state.get_height(b), items, state.get_bottle_finalized(b))
        })
        .collect()
}

#[test]
fn a_pour_moves_the_top_run() {
    let mut state = start();
    let mov = state.pour(1, 3).expect("legal");
    assert_eq!(mov.from_bottle(), 1);
    assert_eq!(mov.to_bottle(), 3);
    assert_eq!(mov.count(), 2);
    assert_eq!(mov.color(), 2);
    assert_eq!(mov.finalize_bottle(), None);
    assert_eq!(state.get_height(1), 2);
    assert_eq!(state.get_height(3), 2);
    assert_eq!(state.get_color(3, 1), 2);
}

#[test]
fn an_illegal_pour_is_refused() {
    let mut state = start();
    let before = snapshot(&state);
    assert_eq!(state.pour(3, 1).err(), Some(PourError::MoveNotAllowed));
    assert_eq!(state.pour(1, 2).err(), Some(PourError::MoveNotAllowed));
    assert_eq!(snapshot(&state), before);
}

#[test]
fn rewind_undoes_a_pour() {
    let mut history = History::from(start());
    let before = snapshot(history.state());
    assert!(!history.can_rewind());
    history.pour(1, 3).expect("legal");
    assert!(history.can_rewind());
    assert!(!history.can_forward());
    assert!(history.rewind());
    assert_eq!(snapshot(history.state()), before);
    assert!(history.can_forward());
    assert!(!history.can_rewind());
}

#[test]
fn forward_redoes_a_rewound_pour() {
    let mut history = History::from(start());
    history.pour(1, 3).expect("legal");
    let after = snapshot(history.state());
    assert!(history.rewind());
    assert!(history.forward());
    assert_eq!(snapshot(history.state()), after);
    assert!(!history.forward());
}

#[test]
fn a_new_pour_forgets_rewound_pours() {
    let mut history = History::from(start());
    history.pour(1, 3).expect("legal");
    assert!(history.rewind());
    history.pour(2, 3).expect("legal");
    assert!(!history.can_forward());
}

#[test]
fn solving_finalizes_and_ends_the_game() {
    let s = puzzle(vec![vec![1, 1, 1], vec![1]], vec![4, 4]);
    let mut history = History::from(State::try_from(&s).expect("valid"));
    let mov = history.pour(2, 1).expect("legal");
    assert_eq!(mov.finalize_bottle(), Some(1));
    assert!(history.state().solved());
    assert!(history.state().get_bottle_finalized(1));
    assert_eq!(history.pour(1, 2).err(), Some(PourError::AlreadySolved));
    assert!(history.state().pours().is_none());
}

#[test]
fn pours_lists_the_legal_moves() {
    let state = start();
    let pours = state.pours().expect("not solved");
    assert!(!pours.is_empty());
    assert!(pours.has(1, 3));
    assert!(pours.has(2, 4));
    assert!(!pours.has(1, 2));
    assert!(!pours.has(3, 1));
}

#[test]
fn a_rewound_pour_stays_to_redo_until_a_new_pour() {
    let mut history = History::from(start());
    history.pour(1, 3).expect("legal");
    history.pour(2, 4).expect("legal");
    assert!(history.rewind());
    assert!(history.can_forward());
    assert!(history.rewind());
    assert!(history.can_forward());
    assert!(!history.rewind());
    assert!(history.can_forward());
    assert!(history.pour(1, 1).is_err());
    assert!(history.can_forward());
    history.pour(1, 4).expect("legal");
    assert!(!history.can_forward());
}
