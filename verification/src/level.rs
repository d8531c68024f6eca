//! A level: its description, its board and its starting state, checked
//! together.
use vstd::prelude::*;

use crate::layout::{
    Layout, LayoutError, bottle_position_view, layout_error, layout_error_text, lemma_layout_places,
    lines_view, rows_of,
};
use crate::reachable::reach_inv;
use crate::starting::{StartError, StartingState, error_text, start_error, start_state};
use crate::state::State;
use vstd::string::StrSliceExecFns;
use vstd::utf8::is_ascii_chars;

verus! {

/// The shortest description a level may have.
pub const DESCRIPTION_MIN_LEN: usize = 100;

/// The longest description a level may have.
pub const DESCRIPTION_MAX_LEN: usize = 200;

/// A level as it is written down.
pub struct LevelData {
    pub description: String,
    pub layout: Vec<String>,
    pub starting_state: StartingState,
}

/// A checked level.
pub struct Level {
    pub description: String,
    pub layout: Layout,
    pub starting_state: State,
}

/// Why a level was refused.
#[derive(Clone, Copy, PartialEq, Eq, Debug)]
pub enum LevelError {
    /// The description is not ASCII.
    DescriptionNotAscii,
    /// The description is shorter or longer than allowed.
    DescriptionLength,
    /// The starting state was refused.
    Start(StartError),
    /// The board was refused.
    Layout(LayoutError),
}

/// The text that explains a refusal.
pub open spec fn level_error_text(e: LevelError) -> Seq<char> {
    match e {
        LevelError::DescriptionNotAscii => "description is not ascii"@,
        LevelError::DescriptionLength => "description too short or too long"@,
        LevelError::Start(e) => error_text(e),
        LevelError::Layout(e) => layout_error_text(e),
    }
}

impl LevelError {
    /// The text that explains this refusal.
    pub fn message(&self) -> (r: String)
        ensures
            r@ == level_error_text(*self),
    {
        match self {
            LevelError::DescriptionNotAscii => "description is not ascii".to_owned(),
            LevelError::DescriptionLength => "description too short or too long".to_owned(),
            LevelError::Start(e) => e.message(),
            LevelError::Layout(e) => e.message(),
        }
    }
}

/// Every check on a level, in order: an ASCII description of allowed
/// length, then its starting state, then its board against that state.
pub open spec fn level_error(
    description: Seq<char>,
    layout: Seq<Seq<char>>,
    start: crate::starting::StartingView,
) -> Option<LevelError> {
    if !is_ascii_chars(description) {
        Some(LevelError::DescriptionNotAscii)
    } else if !(DESCRIPTION_MIN_LEN <= description.len() <= DESCRIPTION_MAX_LEN) {
        Some(LevelError::DescriptionLength)
    } else if start_error(start) is Some {
        Some(LevelError::Start(start_error(start)->0))
    } else if layout_error(layout, start_state(start)) is Some {
        Some(LevelError::Layout(layout_error(layout, start_state(start))->0))
    } else {
        None
    }
}

impl Level {
    /// Checks a level as written down and builds it.
    pub fn try_from(value: LevelData) -> (r: Result<Level, LevelError>)
        ensures
            match r {
                Ok(level) => {
                    &&& level_error(
                        value.description@,
                        lines_view(value.layout@),
                        value.starting_state@,
                    ) is None
                    &&& level.description@ == value.description@
                    &&& level.starting_state@ == start_state(value.starting_state@)
                    &&& reach_inv(level.starting_state@)
                    &&& level.layout@ == rows_of(lines_view(value.layout@))
                    &&& forall|b: int|
                        1 <= b <= level.starting_state@.bottle_count ==> #[trigger] bottle_position_view(
                            level.layout@,
                            b,
                        ) is Some
                },
                Err(e) => level_error(
                    value.description@,
                    lines_view(value.layout@),
                    value.starting_state@,
                ) == Some(e),
            },
    {
        if !value.description.is_ascii() {
            return Err(LevelError::DescriptionNotAscii);
        }
        let len = value.description.as_str().unicode_len();
        if len < DESCRIPTION_MIN_LEN || len > DESCRIPTION_MAX_LEN {
            return Err(LevelError::DescriptionLength);
        }
        let starting_state = match State::try_from(&value.starting_state) {
            Ok(s) => s,
            Err(e) => {
                return Err(LevelError::Start(e));
            },
        };
        let layout = match Layout::new(&value.layout, &starting_state) {
            Ok(l) => l,
            Err(e) => {
                return Err(LevelError::Layout(e));
            },
        };
        proof {
            lemma_layout_places(layout@, starting_state@);
        }
        Ok(Level { description: value.description, layout, starting_state })
    }
}

} // verus!
