//! What a click on the board asks for, given the current selection.
use vstd::prelude::*;

use crate::view::{BoardView, BottleView, find_bottle, has_bottle};

verus! {

/// What a click asks for.
#[derive(Clone, Copy, PartialEq, Eq, Debug)]
pub enum Action {
    Ignore,
    Deselect,
    Select(u8),
    Pour { from: u8, to: u8 },
}

/// The action for a click on bottle `clicked` (or on no bottle) with
/// `selection` selected: nothing goes once the board is solved or stuck, or
/// for a click beside the bottles or on a bottle that cannot be interacted
/// with; otherwise a first click selects a bottle that can be poured from,
/// a second click on it lets it go, and a click on another bottle pours.
pub open spec fn action_of(
    selection: Option<u8>,
    clicked: Option<u8>,
    solved: bool,
    stuck: bool,
    bottles: Seq<BottleView>,
) -> Action {
    if solved || stuck {
        Action::Deselect
    } else {
        match clicked {
            None => Action::Deselect,
            Some(id) => {
                let b = bottles[find_bottle(bottles, id, 0)];
                if !b.interactable {
                    Action::Deselect
                } else {
                    match selection {
                        None => if b.can_move_from {
                            Action::Select(id)
                        } else {
                            Action::Ignore
                        },
                        Some(selected) => if selected == id {
                            Action::Deselect
                        } else {
                            Action::Pour { from: selected, to: id }
                        },
                    }
                }
            },
        }
    }
}

/// The bottle selected to pour from, if any.
pub struct Selection(Option<u8>);

impl View for Selection {
    type V = Option<u8>;

    closed spec fn view(&self) -> Option<u8> {
        self.0
    }
}

impl Selection {
    /// Nothing selected.
    pub fn new() -> (r: Self)
        ensures
            r@ is None,
    {
        Selection(None)
    }

    /// The selected bottle.
    pub fn get(&self) -> (r: Option<u8>)
        ensures
            r == self@,
    {
        self.0
    }

    /// Lets the selection go.
    pub fn clear(&mut self)
        ensures
            final(self)@ is None,
    {
        self.0 = None;
    }

    /// Selects bottle `id`.
    pub fn select(&mut self, id: u8)
        ensures
            final(self)@ == Some(id),
    {
        self.0 = Some(id);
    }
}

/// Decides what a click asks for.
pub fn decide(selection: Option<u8>, clicked: Option<u8>, view: &BoardView) -> (r: Action)
    requires
        clicked matches Some(id) ==> has_bottle(view.bottles@, id),
    ensures
        r == action_of(selection, clicked, view.solved, view.stuck, view.bottles@),
{
    if view.solved || view.stuck {
        return Action::Deselect;
    }
    let id = match clicked {
        Some(id) => id,
        None => {
            return Action::Deselect;
        },
    };
    let bottle = view.get(id);
    if !bottle.interactable {
        return Action::Deselect;
    }
    match selection {
        None => if bottle.can_move_from {
            Action::Select(id)
        } else {
            Action::Ignore
        },
        Some(selected) => if selected == id {
            Action::Deselect
        } else {
            Action::Pour { from: selected, to: id }
        },
    }
}

} // verus!
