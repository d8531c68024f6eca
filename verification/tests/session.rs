use water_sort::input::{Action, decide};
use water_sort::level::{Level, LevelData};
use water_sort::session::{Session, legal_pours, resume_index, solve};
use water_sort::starting::StartingState;

fn puzzle(content: Vec<Vec<u8>>, capacity: Vec<u8>) -> StartingState {
    StartingState {
        content,
        capacity,
        hidden_items: vec![],
        locked_items: vec![],
        immovable_bottles: vec![],
        pluggable_bottles: vec![],
        frozen_bottle_ranges: vec![],
        curtain_ranges: vec![],
        safes: vec![],
        lock_group_ranges: vec![],
        lock_group_keys: vec![],
        colored_bottles: vec![],
        color_curtains: vec![],
    }
}

fn level() -> Level {
    let data = LevelData {
        description: "y".repeat(100),
        layout: vec!["||1|2|3|4||".to_string()],
        starting_state: puzzle(
            vec![vec![1, 1, 2, 2], vec![2, 2, 1, 1], vec![], vec![]],
            vec![4, 4, 4, 4],
        ),
    };
    match Level::try_from(data) {
        Ok(level) => level,
        Err(e) => panic!("{}", e.message()),
    }
}

fn first_legal_pour(session: &Session) -> (u8, u8) {
    let state = session.state();
    let pours = state.pours().expect("the level is not solved");
    for from in state.bottles() {
        for to in state.bottles() {
            if from != to && pours.has(from, to) {
                return (from, to);
            }
        }
    }
    panic!("a fresh level has a legal pour");
}

fn items(session: &Session) -> Vec<Vec<u8>> {
    session
        .view()
        .bottles
        .iter()
        .map(|bottle| bottle.items.iter().map(|item| item.color).collect())
        .collect()
}

#[test]
fn a_session_needs_a_level() {
    assert!(Session::new(3, None).is_none());
    let session = Session::new(3, Some(level())).expect("level given");
    assert_eq!(session.index(), 3);
    assert!(!session.can_rewind() && !session.can_forward());
    assert!(!session.exhausted());
}

#[test]
fn history_navigation_returns_to_the_same_view() {
    let mut session = Session::new(0, Some(level())).expect("level given");
    let start = session.view();
    let (from, to) = first_legal_pour(&session);
    session.history_mut().pour(from, to).expect("legal pour");

    let poured = session.view();
    assert!(session.can_rewind());
    assert!(!session.can_forward());

    assert!(session.rewind());
    assert_eq!(session.view().bottles, start.bottles);
    assert!(session.can_forward());

    assert!(session.forward());
    assert_eq!(session.view().bottles, poured.bottles);
    assert!(!session.forward());
}

#[test]
fn a_pour_changes_what_the_session_shows() {
    let mut session = Session::new(0, Some(level())).expect("level given");
    let start = items(&session);
    session.history_mut().pour(1, 3).expect("legal pour");
    let after = items(&session);
    assert_ne!(start, after);
    assert_eq!(after, vec![vec![1, 1], vec![2, 2, 1, 1], vec![2, 2], vec![]]);
}

#[test]
fn selection_follows_the_spec() {
    let session = Session::new(0, Some(level())).expect("level given");
    let view = session.view();
    let movable = view
        .bottles
        .iter()
        .find(|bottle| bottle.can_move_from)
        .expect("a level starts with a legal source");

    assert_eq!(decide(None, None, &view), Action::Deselect);
    assert_eq!(decide(None, Some(movable.id), &view), Action::Select(movable.id));
    assert_eq!(decide(Some(movable.id), Some(movable.id), &view), Action::Deselect);

    let other = view
        .bottles
        .iter()
        .find(|bottle| bottle.id != movable.id)
        .expect("more than one bottle");
    assert_eq!(
        decide(Some(movable.id), Some(other.id), &view),
        Action::Pour { from: movable.id, to: other.id }
    );
}

#[test]
fn advancing_runs_out_of_levels() {
    // Three levels are shipped here; the session walks through all of them.
    let shipped = 3;
    let next_level = |index: usize| if index < shipped { Some(level()) } else { None };
    let mut session = Session::new(0, next_level(0)).expect("the first level exists");
    let mut levels = 1;
    while session.advance(next_level(session.index() + 1)) {
        assert_eq!(session.index(), levels);
        levels += 1;
    }
    assert!(levels > 1);
    assert_eq!(levels, shipped);
    assert!(session.exhausted());
    assert!(!session.can_rewind());
}

#[test]
fn a_rewind_after_running_out_resumes_play() {
    let mut session = Session::new(0, Some(level())).expect("level given");
    assert!(!session.advance(None));
    assert!(session.exhausted());
    session.history_mut().pour(1, 3).expect("legal pour");
    assert!(session.rewind());
    assert!(!session.exhausted());
}

#[test]
fn a_solved_level_is_recorded_once() {
    let mut session = Session::new(5, Some(level())).expect("level given");
    assert_eq!(session.record_completion(false), None);
    assert_eq!(session.record_completion(true), Some(5));
    assert_eq!(session.record_completion(true), None);
}

#[test]
fn legal_pours_lists_sources_then_targets() {
    let mut session = Session::new(0, Some(level())).expect("level given");
    assert_eq!(legal_pours(&session), vec![(1, 3), (1, 4), (2, 3), (2, 4)]);
    session.history_mut().pour(1, 3).expect("legal pour");
    assert_eq!(legal_pours(&session), vec![(1, 4), (2, 1), (2, 4), (3, 4)]);
}

#[test]
fn the_walk_finds_a_solution() {
    let path = solve(level()).expect("the level has a solution");
    assert!(!path.is_empty());
    let mut session = Session::new(0, Some(level())).expect("level given");
    for (from, to) in path {
        session.history_mut().pour(from, to).expect("legal pour");
    }
    assert!(session.view().solved);
    assert!(legal_pours(&session).is_empty());
}

#[test]
fn the_walk_gives_up_without_a_legal_pour() {
    let data = LevelData {
        description: "y".repeat(100),
        layout: vec!["||||1|2||||".to_string()],
        starting_state: puzzle(vec![vec![1, 2, 1, 2], vec![2, 1, 2, 1]], vec![4, 4]),
    };
    let stuck = match Level::try_from(data) {
        Ok(level) => level,
        Err(e) => panic!("{}", e.message()),
    };
    assert_eq!(solve(stuck), None);
}

#[test]
fn the_walk_answers_a_one_pour_level_with_that_pour() {
    let data = LevelData {
        description: "y".repeat(100),
        layout: vec!["||||1|2||||".to_string()],
        starting_state: puzzle(vec![vec![1, 1, 1], vec![1]], vec![4, 4]),
    };
    let level = match Level::try_from(data) {
        Ok(level) => level,
        Err(e) => panic!("{}", e.message()),
    };
    assert_eq!(solve(level), Some(vec![(1, 2)]));
}

#[test]
fn resuming_picks_the_next_level_that_exists() {
    assert_eq!(resume_index(None, 3), 0);
    assert_eq!(resume_index(Some(0), 3), 1);
    assert_eq!(resume_index(Some(1), 3), 2);
    assert_eq!(resume_index(Some(2), 3), 2);
    assert_eq!(resume_index(Some(usize::MAX), 3), 2);
    assert_eq!(resume_index(Some(5), 1), 0);
}
