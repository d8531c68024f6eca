use water_sort::layout::{Layout, LayoutError};
use water_sort::level::{Level, LevelData, LevelError};
use water_sort::starting::{StartError, StartingState};
use water_sort::state::State;

fn puzzle(content: Vec<Vec<u8>>, capacity: Vec<u8>) -> StartingState {
    StartingState {
        content,
        capacity,
        hidden_items: vec![],
        locked_items: vec![],
        immovable_bottles: vec![],
        pluggable_bottles: vec![],
        frozen_bottle_ranges: vec![],
        curtain_ranges: vec![],
        safes: vec![],
        lock_group_ranges: vec![],
        lock_group_keys: vec![],
        colored_bottles: vec![],
        color_curtains: vec![],
    }
}

fn state4() -> State {
    let s = puzzle(vec![vec![1, 1, 2, 2], vec![2, 2, 1, 1], vec![], vec![]], vec![4, 4, 4, 4]);
    State::try_from(&s).expect("valid")
}

fn lines(l: &[&str]) -> Vec<String> {
    l.iter().map(|s| s.to_string()).collect()
}

fn layout_err(data: &[&str], state: &State) -> LayoutError {
    match Layout::new(&lines(data), state) {
        Ok(_) => panic!("the layout should be refused"),
        Err(e) => e,
    }
}

#[test]
fn a_single_line_board() {
    let layout = Layout::new(&lines(&["||1|2|3|4||"]), &state4()).expect("valid");
    assert_eq!(layout.line_count(), 1);
    assert_eq!(layout.bottle_position(1), Some(((0, 1), 2)));
    assert_eq!(layout.bottle_position(4), Some(((0, 1), 8)));
    assert_eq!(layout.bottle_position(5), None);
    assert_eq!(layout.bottle_position(0), None);
}

fn tall() -> State {
    let s = puzzle(vec![vec![1, 1, 1, 1, 1], vec![1, 1, 1], vec![]], vec![8, 4, 4]);
    State::try_from(&s).expect("valid")
}

#[test]
fn a_tall_bottle_spans_lines() {
    let layout = Layout::new(&lines(&["|||2|1|3|||", "|||||1|||||"]), &tall());
    let layout = match layout {
        Ok(l) => l,
        Err(e) => panic!("{}", e.message()),
    };
    assert_eq!(layout.line_count(), 2);
    assert_eq!(layout.bottle_position(1), Some(((0, 2), 5)));
    assert_eq!(layout.bottle_position(2), Some(((0, 1), 3)));
}

#[test]
fn line_errors() {
    let state = state4();
    assert_eq!(layout_err(&[], &state), LayoutError::LineCount);
    assert_eq!(layout_err(&["a", "b", "c", "d"], &state), LayoutError::LineCount);
    assert_eq!(layout_err(&["||1|2|3|4|é"], &state), LayoutError::NotAscii);
    assert_eq!(layout_err(&["1|2|3|4"], &state), LayoutError::LineLength);
    assert_eq!(layout_err(&["||1|2|3|4|\0"], &state), LayoutError::UnusedMarker);
    assert_eq!(layout_err(&["||1|2|3|4|x"], &state), LayoutError::BadChars);
    assert_eq!(layout_err(&["|||||||||||"], &state), LayoutError::OnlySeparators);
    assert_eq!(layout_err(&["|1|2|3|4|||"], &state), LayoutError::UnbalancedSeparators);
    assert_eq!(layout_err(&["||12||3|4||"], &state), LayoutError::NotAlternating);
}

#[test]
fn board_errors() {
    let state = state4();
    assert_eq!(layout_err(&["|||1|2|3|||"], &state), LayoutError::UsedChars);
    assert_eq!(layout_err(&["||1|1|3|4||"], &state), LayoutError::UsedChars);
    assert_eq!(layout_err(&["||1|2|3|4||", "|||||1|||||"], &state), LayoutError::CharCount);
    assert_eq!(layout_err(&["|||2|1|3|||", "||||1|2||||"], &tall()), LayoutError::NotStacked);
    assert_eq!(layout_err(&["|||1|2|3|||"], &tall()), LayoutError::CharCount);
}

#[test]
fn group_errors() {
    let mut s = puzzle(vec![vec![1, 2], vec![2, 1], vec![1, 2], vec![2, 1]], vec![4, 4, 4, 4]);
    s.frozen_bottle_ranges = vec![(1, 3)];
    let state = State::try_from(&s).expect("valid");
    assert!(Layout::new(&lines(&["||1|2|3|4||"]), &state).is_ok());
    assert_eq!(layout_err(&["||2|1|3|4||"], &state), LayoutError::GroupNotInLine);
    assert_eq!(layout_err(&["|||||1|||||", "|||2|3|4|||"], &state), LayoutError::GroupNotInLine);
}

#[test]
fn layout_messages() {
    assert_eq!(LayoutError::LineCount.message(), "no or too many lines");
    assert_eq!(LayoutError::NotStacked.message(), "bottle chars are not properly stacked");
}

fn description(n: usize) -> String {
    "x".repeat(n)
}

#[test]
fn a_level_checks_everything() {
    let level = Level::try_from(LevelData {
        description: description(120),
        layout: lines(&["||1|2|3|4||"]),
        starting_state: puzzle(
            vec![vec![1, 1, 2, 2], vec![2, 2, 1, 1], vec![], vec![]],
            vec![4, 4, 4, 4],
        ),
    });
    let level = match level {
        Ok(l) => l,
        Err(e) => panic!("{}", e.message()),
    };
    assert_eq!(level.description.len(), 120);
    assert_eq!(level.starting_state.bottle_count(), 4);
    assert_eq!(level.layout.line_count(), 1);
}

#[test]
fn level_errors() {
    let data = |d: String, l: Vec<String>, s: StartingState| LevelData {
        description: d,
        layout: l,
        starting_state: s,
    };
    let good = || puzzle(vec![vec![1, 1, 2, 2], vec![2, 2, 1, 1], vec![], vec![]], vec![4, 4, 4, 4]);
    let e = Level::try_from(data(description(99), lines(&["||1|2|3|4||"]), good())).err();
    assert_eq!(e, Some(LevelError::DescriptionLength));
    let e = Level::try_from(data(description(201), lines(&["||1|2|3|4||"]), good())).err();
    assert_eq!(e, Some(LevelError::DescriptionLength));
    let e = Level::try_from(data(format!("{}é", description(120)), lines(&["||1|2|3|4||"]), good()))
        .err();
    assert_eq!(e, Some(LevelError::DescriptionNotAscii));
    let e = Level::try_from(data(description(150), lines(&["||1|2|3|4||"]), puzzle(vec![vec![0]], vec![4])))
        .err();
    assert_eq!(e, Some(LevelError::Start(StartError::InvalidColor)));
    let e = Level::try_from(data(description(200), lines(&["|||1|2|3|||"]), good())).err();
    assert_eq!(e, Some(LevelError::Layout(LayoutError::UsedChars)));
    assert_eq!(LevelError::DescriptionNotAscii.message(), "description is not ascii");
}
