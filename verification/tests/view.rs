use water_sort::input::{Action, decide};
use water_sort::layout::Layout;
use water_sort::search::{Searcher, SearchError};
use water_sort::starting::StartingState;
use water_sort::state::State;
use water_sort::view::{BoardView, Lines, MovePlan};

fn puzzle(content: Vec<Vec<u8>>, capacity: Vec<u8>) -> StartingState {
    StartingState {
        content,
        capacity,
        hidden_items: vec![],
        locked_items: vec![],
        immovable_bottles: vec![],
        pluggable_bottles: vec![],
        frozen_bottle_ranges: vec![],
        curtain_ranges: vec![],
        safes: vec![],
        lock_group_ranges: vec![],
        lock_group_keys: vec![],
        colored_bottles: vec![],
        color_curtains: vec![],
    }
}

fn board() -> (State, Layout) {
    let s = puzzle(vec![vec![1, 1, 2, 2], vec![2, 2, 1, 1], vec![], vec![]], vec![4, 4, 4, 4]);
    let state = State::try_from(&s).expect("valid");
    let layout = Layout::new(&vec!["||1|2|3|4||".to_string()], &state).expect("valid");
    (state, layout)
}

#[test]
fn the_board_shows_each_bottle() {
    let (state, layout) = board();
    let view = BoardView::build(&state, &layout);
    assert_eq!(view.bottles.len(), 4);
    let first = view.get(1);
    assert_eq!(first.lines, Lines { start: 0, end: 1 });
    assert_eq!(first.line_span(), 1);
    assert_eq!(first.repr_column, 2);
    let colors: Vec<u8> = first.items.iter().map(|item| item.color).collect();
    assert_eq!(colors, vec![1, 1, 2, 2]);
    assert!(first.can_move_from && first.interactable);
    assert!(!view.get(3).can_move_from);
    assert!(!view.solved && !view.stuck);
    assert!(view.can_pour(1, 3));
    assert!(!view.can_pour(3, 1));
}

#[test]
fn clicks_select_and_pour() {
    let (state, layout) = board();
    let view = BoardView::build(&state, &layout);
    assert_eq!(decide(None, Some(1), &view), Action::Select(1));
    assert_eq!(decide(None, Some(3), &view), Action::Ignore);
    assert_eq!(decide(Some(1), Some(1), &view), Action::Deselect);
    assert_eq!(decide(Some(1), Some(3), &view), Action::Pour { from: 1, to: 3 });
    assert_eq!(decide(Some(1), None, &view), Action::Deselect);
}

#[test]
fn a_solved_board_takes_no_clicks() {
    let s = puzzle(vec![vec![1, 1, 1], vec![1]], vec![4, 4]);
    let mut state = State::try_from(&s).expect("valid");
    let layout = Layout::new(&vec!["||||1|2||||".to_string()], &state).expect("valid");
    state.pour(2, 1).expect("legal");
    let view = BoardView::build(&state, &layout);
    assert!(view.solved);
    assert!(view.pours.is_none());
    assert_eq!(decide(None, Some(1), &view), Action::Deselect);
}

#[test]
fn a_plan_describes_the_pour() {
    let (mut state, layout) = board();
    let before = BoardView::build(&state, &layout);
    let mov = state.pour(1, 3).expect("legal");
    let after = BoardView::build(&state, &layout);
    let plan = MovePlan::build(&mov, &before, &after);
    assert_eq!((plan.from, plan.to, plan.count, plan.color), (1, 3, 2, 2));
    assert_eq!(plan.from_height_before, 4);
    assert_eq!(plan.to_height_before, 0);
    assert_eq!(plan.finalize, None);
    assert!(plan.plug_toggled.is_empty());
    assert!(plan.curtains_lifted.is_empty());
    assert!(plan.safe_ticks.is_empty());
}

#[test]
fn a_plan_lists_the_safes_that_tick() {
    let mut p = puzzle(vec![vec![1, 1, 1], vec![1], vec![2, 2], vec![]], vec![4, 4, 4, 4]);
    p.safes = vec![(3, 1)];
    let mut state = State::try_from(&p).expect("valid");
    let layout = Layout::new(&vec!["||1|2|3|4||".to_string()], &state).expect("valid");
    let before = BoardView::build(&state, &layout);
    assert!(!before.get(3).interactable);
    let mov = state.pour(2, 1).expect("legal");
    let after = BoardView::build(&state, &layout);
    let plan = MovePlan::build(&mov, &before, &after);
    assert_eq!(plan.finalize, Some(1));
    assert_eq!(plan.safe_ticks, vec![3]);
    assert_eq!(plan.safes_opened, vec![3]);
}

#[test]
fn the_first_solver() {
    let s = puzzle(vec![vec![1, 1, 1], vec![1]], vec![4, 4]);
    let state = State::try_from(&s).expect("valid");
    assert_eq!(Searcher::new(state, 3, 1 << 20).expect("valid").search(), 1);
    assert_eq!(Searcher::new(state, 0, 1 << 20).expect("valid").search(), -1);
    assert_eq!(Searcher::new(state, 127, 1 << 20).err(), Some(SearchError::InvalidDepth));
    assert_eq!(Searcher::new(state, 3, 1000).err(), Some(SearchError::InvalidVisitedSize));
    let solved = State::try_from(&puzzle(vec![vec![], vec![]], vec![4, 4])).expect("valid");
    assert_eq!(Searcher::new(solved, 3, 1 << 20).expect("valid").search(), 0);
}
