//! What the heads-up display asks for and shows: the navigation buttons and
//! the banner over the board.
use vstd::prelude::*;
use vstd::string::StringExecFns;

use crate::session::Session;
use crate::view::BoardView;

verus! {

/// What a navigation button asks for.
#[derive(Clone, Copy, PartialEq, Eq, Debug)]
pub enum NavAction {
    Rewind,
    Forward,
    Next,
}

/// A navigation press waiting to be handled.
pub struct NavRequest(pub Option<NavAction>);

impl NavRequest {
    /// No press waiting.
    pub fn new() -> (r: Self)
        ensures
            r.0 is None,
    {
        NavRequest(None)
    }

    /// Hands out the waiting press, leaving none.
    pub fn take(&mut self) -> (r: Option<NavAction>)
        ensures
            r == old(self).0,
            final(self).0 is None,
    {
        let r = self.0;
        self.0 = None;
        r
    }
}

/// What the banner over the board says.
#[derive(Clone, Copy, PartialEq, Eq, Structural, Debug)]
pub enum Overlay {
    Clear,
    Complete,
    Stuck,
    Exhausted,
}

/// The banner for the levels running out, a level solved, a board with no
/// legal move left, or nothing; nothing while a pour still plays.
pub open spec fn overlay_of(exhausted: bool, busy: bool, solved: bool, stuck: bool) -> Overlay {
    if exhausted {
        Overlay::Exhausted
    } else if busy {
        Overlay::Clear
    } else if solved {
        Overlay::Complete
    } else if stuck {
        Overlay::Stuck
    } else {
        Overlay::Clear
    }
}

/// The text of a banner.
pub open spec fn banner_text(o: Overlay) -> Seq<char> {
    match o {
        Overlay::Clear => ""@,
        Overlay::Complete => "LEVEL COMPLETE"@,
        Overlay::Stuck => "NO MORE MOVES"@,
        Overlay::Exhausted => "NO MORE LEVELS\nCOME BACK LATER"@,
    }
}

impl Overlay {
    /// The text of the banner.
    pub fn banner(self) -> (r: &'static str)
        ensures
            r@ == banner_text(self),
    {
        match self {
            Overlay::Clear => "",
            Overlay::Complete => "LEVEL COMPLETE",
            Overlay::Stuck => "NO MORE MOVES",
            Overlay::Exhausted => "NO MORE LEVELS\nCOME BACK LATER",
        }
    }
}

/// The banner for the board `view` of `session`, `busy` telling whether a
/// pour is still playing.
pub fn state_of(view: &BoardView, busy: bool, session: &Session) -> (r: Overlay)
    ensures
        r == overlay_of(session.exhausted_view(), busy, view.solved, view.stuck),
{
    if session.exhausted() {
        Overlay::Exhausted
    } else if busy {
        Overlay::Clear
    } else if view.solved {
        Overlay::Complete
    } else if view.stuck {
        Overlay::Stuck
    } else {
        Overlay::Clear
    }
}

/// Whether a navigation button can be pressed: taking back needs a move to
/// take back, redoing needs a move taken back, and the next level needs the
/// level complete.
pub fn nav_enabled(action: NavAction, session: &Session, overlay: Overlay) -> (r: bool)
    requires
        session.wf(),
    ensures
        r == match action {
            NavAction::Rewind => session.history_view()@.length > 0,
            NavAction::Forward => session.history_view()@.length
                < session.history_view()@.moves.len(),
            NavAction::Next => overlay == Overlay::Complete,
        },
{
    match action {
        NavAction::Rewind => session.can_rewind(),
        NavAction::Forward => session.can_forward(),
        NavAction::Next => overlay == Overlay::Complete,
    }
}


/// The character of digit `d`.
pub open spec fn digit_char(d: int) -> char {
    (48 + d) as char
}

/// The decimal digits of `n`, most significant first.
pub open spec fn decimal_text(n: nat) -> Seq<char>
    decreases n,
{
    if n < 10 {
        seq![digit_char(n as int)]
    } else {
        decimal_text(n / 10).push(digit_char((n % 10) as int))
    }
}

/// The digits `ds`, least significant first, as characters, most
/// significant first.
pub open spec fn digits_text(ds: Seq<u8>) -> Seq<char>
    decreases ds.len(),
{
    if ds.len() == 0 {
        Seq::empty()
    } else {
        seq![digit_char(ds.last() as int)] + digits_text(ds.drop_last())
    }
}

fn digit_str(d: u8) -> (r: &'static str)
    requires
        d < 10,
    ensures
        r@ == seq![digit_char(d as int)],
{
    proof {
        reveal_strlit("0");
        reveal_strlit("1");
        reveal_strlit("2");
        reveal_strlit("3");
        reveal_strlit("4");
        reveal_strlit("5");
        reveal_strlit("6");
        reveal_strlit("7");
        reveal_strlit("8");
        reveal_strlit("9");
    }
    match d {
        0 => "0",
        1 => "1",
        2 => "2",
        3 => "3",
        4 => "4",
        5 => "5",
        6 => "6",
        7 => "7",
        8 => "8",
        _ => "9",
    }
}

/// The header text: the level number, counted from one.
pub fn level_text(session: &Session) -> (r: String)
    requires
        session.index_view() < usize::MAX,
    ensures
        r@ == "LEVEL "@ + decimal_text((session.index_view() + 1) as nat),
{
    let n = session.index() + 1;
    let mut m = n;
    let mut digits: Vec<u8> = Vec::new();
    while m >= 10
        invariant
            decimal_text(n as nat) == decimal_text(m as nat) + digits_text(digits@),
            forall|i: int| 0 <= i < digits@.len() ==> #[trigger] digits@[i] < 10,
        decreases m,
    {
        let ghost before = digits@;
        digits.push((m % 10) as u8);
        assert(digits@.drop_last() =~= before);
        assert(decimal_text(m as nat) == decimal_text((m / 10) as nat).push(
            digit_char((m % 10) as int),
        ));
        assert(decimal_text((m / 10) as nat) + digits_text(digits@) =~= decimal_text(
            (m / 10) as nat,
        ).push(digit_char((m % 10) as int)) + digits_text(before));
        m = m / 10;
    }
    let mut text = String::from_str("LEVEL ");
    proof {
        reveal_strlit("LEVEL ");
    }
    text.append(digit_str(m as u8));
    let mut k: usize = digits.len();
    proof {
        assert(digits@.take(k as int) =~= digits@);
        assert(decimal_text(m as nat) == seq![digit_char(m as int)]);
        assert(text@ + digits_text(digits@) =~= "LEVEL "@ + (decimal_text(m as nat) + digits_text(
            digits@,
        )));
    }
    while k > 0
        invariant
            0 <= k <= digits@.len(),
            forall|i: int| 0 <= i < digits@.len() ==> #[trigger] digits@[i] < 10,
            text@ + digits_text(digits@.take(k as int)) == "LEVEL "@ + decimal_text(n as nat),
        decreases k,
    {
        let ghost before = text@;
        k = k - 1;
        text.append(digit_str(digits[k]));
        assert(digits@.take(k + 1).drop_last() =~= digits@.take(k as int));
        assert(digits@.take(k + 1).last() == digits@[k as int]);
        assert(before + digits_text(digits@.take(k + 1)) =~= text@ + digits_text(
            digits@.take(k as int),
        ));
    }
    assert(digits@.take(0) =~= Seq::<u8>::empty());
    assert(text@ + digits_text(Seq::<u8>::empty()) =~= text@);
    text
}
} // verus!
