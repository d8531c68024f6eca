use water_sort::hud::{NavAction, NavRequest, Overlay, level_text, nav_enabled, state_of};
use water_sort::input::Selection;
use water_sort::level::{Level, LevelData};
use water_sort::session::Session;
use water_sort::starting::StartingState;

fn level(content: Vec<Vec<u8>>, layout: &str) -> Level {
    let capacity = vec![4; content.len()];
    let data = LevelData {
        description: "y".repeat(100),
        layout: vec![layout.to_string()],
        starting_state: StartingState {
            content,
            capacity,
            hidden_items: vec![],
            locked_items: vec![],
            immovable_bottles: vec![],
            pluggable_bottles: vec![],
            frozen_bottle_ranges: vec![],
            curtain_ranges: vec![],
            safes: vec![],
            lock_group_ranges: vec![],
            lock_group_keys: vec![],
            colored_bottles: vec![],
            color_curtains: vec![],
        },
    };
    match Level::try_from(data) {
        Ok(level) => level,
        Err(e) => panic!("{}", e.message()),
    }
}

fn puzzle() -> Level {
    level(vec![vec![1, 1, 2, 2], vec![2, 2, 1, 1], vec![], vec![]], "||1|2|3|4||")
}

#[test]
fn banners_say_what_happened() {
    assert_eq!(Overlay::Clear.banner(), "");
    assert_eq!(Overlay::Complete.banner(), "LEVEL COMPLETE");
    assert_eq!(Overlay::Stuck.banner(), "NO MORE MOVES");
    assert_eq!(Overlay::Exhausted.banner(), "NO MORE LEVELS\nCOME BACK LATER");
}

#[test]
fn the_overlay_follows_the_board() {
    let mut session = Session::new(0, Some(puzzle())).expect("level given");
    let view = session.view();
    assert_eq!(state_of(&view, false, &session), Overlay::Clear);
    session.history_mut().pour(1, 3).expect("legal pour");
    session.history_mut().pour(2, 1).expect("legal pour");
    session.history_mut().pour(2, 3).expect("legal pour");
    let solved = session.view();
    assert!(solved.solved);
    assert_eq!(state_of(&solved, true, &session), Overlay::Clear);
    assert_eq!(state_of(&solved, false, &session), Overlay::Complete);
    assert!(!session.advance(None));
    assert_eq!(state_of(&solved, true, &session), Overlay::Exhausted);
}

#[test]
fn a_board_without_moves_is_stuck() {
    let session = Session::new(0, Some(level(vec![vec![1, 2, 1, 2], vec![2, 1, 2, 1]], "||||1|2||||"))).expect("level given");
    let view = session.view();
    assert!(view.stuck);
    assert_eq!(state_of(&view, false, &session), Overlay::Stuck);
}

#[test]
fn nav_buttons_follow_the_history() {
    let mut session = Session::new(0, Some(puzzle())).expect("level given");
    assert!(!nav_enabled(NavAction::Rewind, &session, Overlay::Clear));
    assert!(!nav_enabled(NavAction::Forward, &session, Overlay::Clear));
    assert!(!nav_enabled(NavAction::Next, &session, Overlay::Clear));
    session.history_mut().pour(1, 3).expect("legal pour");
    assert!(nav_enabled(NavAction::Rewind, &session, Overlay::Clear));
    assert!(session.rewind());
    assert!(nav_enabled(NavAction::Forward, &session, Overlay::Clear));
    assert!(nav_enabled(NavAction::Next, &session, Overlay::Complete));
}

#[test]
fn a_press_is_handled_once() {
    let mut request = NavRequest::new();
    assert_eq!(request.take(), None);
    request.0 = Some(NavAction::Next);
    assert_eq!(request.take(), Some(NavAction::Next));
    assert_eq!(request.take(), None);
}

#[test]
fn a_selection_is_set_and_cleared() {
    let mut selection = Selection::new();
    assert_eq!(selection.get(), None);
    selection.select(3);
    assert_eq!(selection.get(), Some(3));
    selection.clear();
    assert_eq!(selection.get(), None);
}

#[test]
fn the_header_counts_levels_from_one() {
    let first = Session::new(0, Some(puzzle())).expect("level given");
    assert_eq!(level_text(&first), "LEVEL 1");
    let later = Session::new(41, Some(puzzle())).expect("level given");
    assert_eq!(level_text(&later), "LEVEL 42");
    let hundredth = Session::new(99, Some(puzzle())).expect("level given");
    assert_eq!(level_text(&hundredth), "LEVEL 100");
}
