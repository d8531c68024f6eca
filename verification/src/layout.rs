//! Where the bottles stand on the board: up to three lines of bottle
//! characters and separators, checked against a state.
use vstd::prelude::*;

use crate::reachable::{lemma_run_end, lemma_run_start};
use crate::state::{
    State, StateView, curtain_groups_upto, dedup_seq, frozen_groups_upto, key_group_end,
    lock_groups_from, wf_view,
};
use vstd::utf8::is_ascii_chars;

verus! {

/// Lines of the board.
pub const LINES: u8 = 3;

/// Bottle columns of a line.
pub const COLUMNS: u8 = 6;

/// Bytes of one line: a bottle character per column, separators between.
pub const REPR_LINE_LEN: u8 = 11;

/// The byte between the columns of a line.
pub const SEPARATOR: u8 = 124;

/// The byte that fills unused lines.
pub const REPR_UNUSED_MARKER: u8 = 0;

/// The largest capacity of a bottle that spans one, two or three lines.
pub open spec fn max_capacity(lines: int) -> int {
    if lines == 1 {
        4
    } else if lines == 2 {
        10
    } else {
        16
    }
}

/// Why a layout was refused.
#[derive(Clone, Copy, PartialEq, Eq, Debug)]
pub enum LayoutError {
    /// No line or too many lines.
    LineCount,
    /// A line that is not ASCII.
    NotAscii,
    /// A line of the wrong length.
    LineLength,
    /// A line that holds the unused marker.
    UnusedMarker,
    /// A line with a byte that is neither a bottle character nor a separator.
    BadChars,
    /// A line of separators only.
    OnlySeparators,
    /// A line with more separators in front than behind, or the reverse.
    UnbalancedSeparators,
    /// A line whose bottle characters and separators do not alternate.
    NotAlternating,
    /// Not one bottle character per bottle.
    UsedChars,
    /// A bottle too large for the board.
    CapacityTooLarge,
    /// A bottle on more or fewer lines than its capacity asks for.
    CharCount,
    /// A bottle whose lines are not stacked in one column.
    NotStacked,
    /// A group bottle that spans more than one line.
    GroupSpansLines,
    /// A group whose bottles do not stand in one line, ascending and
    /// without gaps.
    GroupNotInLine,
}

/// The text that explains a refusal.
pub open spec fn layout_error_text(e: LayoutError) -> Seq<char> {
    match e {
        LayoutError::LineCount => "no or too many lines"@,
        LayoutError::NotAscii => "line data is not only ascii"@,
        LayoutError::LineLength => "bad line data length"@,
        LayoutError::UnusedMarker => "input line contains unused marker"@,
        LayoutError::BadChars => "bad line chars"@,
        LayoutError::OnlySeparators => "line only consists of separators"@,
        LayoutError::UnbalancedSeparators => "number of prefix and suffix separators should match"@,
        LayoutError::NotAlternating => "not alternating separator and index"@,
        LayoutError::UsedChars => "used chars does not match bottle count"@,
        LayoutError::CapacityTooLarge => "bottle capacity too large"@,
        LayoutError::CharCount => "bottle char count does not match expected line count"@,
        LayoutError::NotStacked => "bottle chars are not properly stacked"@,
        LayoutError::GroupSpansLines => "freezable, curtain, or lock group bottle cannot span multiple rows"@,
        LayoutError::GroupNotInLine => "freezable, curtain, or lock group not in single line ascending without gaps"@,
    }
}

impl LayoutError {
    /// The text that explains this refusal.
    pub fn message(&self) -> (r: String)
        ensures
            r@ == layout_error_text(*self),
    {
        match self {
            LayoutError::LineCount => "no or too many lines".to_owned(),
            LayoutError::NotAscii => "line data is not only ascii".to_owned(),
            LayoutError::LineLength => "bad line data length".to_owned(),
            LayoutError::UnusedMarker => "input line contains unused marker".to_owned(),
            LayoutError::BadChars => "bad line chars".to_owned(),
            LayoutError::OnlySeparators => "line only consists of separators".to_owned(),
            LayoutError::UnbalancedSeparators => "number of prefix and suffix separators should match".to_owned(),
            LayoutError::NotAlternating => "not alternating separator and index".to_owned(),
            LayoutError::UsedChars => "used chars does not match bottle count".to_owned(),
            LayoutError::CapacityTooLarge => "bottle capacity too large".to_owned(),
            LayoutError::CharCount => "bottle char count does not match expected line count".to_owned(),
            LayoutError::NotStacked => "bottle chars are not properly stacked".to_owned(),
            LayoutError::GroupSpansLines => "freezable, curtain, or lock group bottle cannot span multiple rows".to_owned(),
            LayoutError::GroupNotInLine => "freezable, curtain, or lock group not in single line ascending without gaps".to_owned(),
        }
    }
}

/// The board: three lines of bytes, the unused ones filled with the marker.
#[derive(Clone, Copy)]
pub struct Layout {
    rows: [[u8; 11]; 3],
}

impl View for Layout {
    type V = Seq<Seq<u8>>;

    closed spec fn view(&self) -> Seq<Seq<u8>> {
        Seq::new(3, |l: int| self.rows@[l]@)
    }
}

/// The character of bottle `bottle`: `1` to `9`, then `A` to `I`.
pub open spec fn bottle_char(bottle: int) -> u8 {
    if bottle <= 9 {
        (48 + bottle) as u8
    } else {
        (55 + bottle) as u8
    }
}

/// Whether `ch` is the character of a bottle.
pub open spec fn is_bottle_char(ch: u8) -> bool {
    49 <= ch <= 57 || 65 <= ch <= 73
}

/// The number of lines, from line `l` on, before the first unused one.
pub open spec fn used_from(rows: Seq<Seq<u8>>, l: int) -> int
    decreases 3 - l,
{
    if l >= 3 || rows[l][0] == REPR_UNUSED_MARKER {
        0
    } else {
        1 + used_from(rows, l + 1)
    }
}

/// The used lines: those before the first line that starts with the marker.
pub open spec fn used_lines(rows: Seq<Seq<u8>>) -> Seq<Seq<u8>> {
    rows.take(used_from(rows, 0))
}

/// The first position, in reading order from position `p` on (line
/// `p / 11`, column `p % 11`), where `lines` hold `ch`.
pub open spec fn first_pos_from(lines: Seq<Seq<u8>>, ch: u8, p: int) -> Option<(u8, u8)>
    decreases lines.len() * 11 - p,
{
    if p < 0 || p >= lines.len() * 11 {
        None
    } else if lines[p / 11][p % 11] == ch {
        Some(((p / 11) as u8, (p % 11) as u8))
    } else {
        first_pos_from(lines, ch, p + 1)
    }
}

/// The first position of `ch` in the used lines of `rows`, in reading order.
pub open spec fn first_pos(rows: Seq<Seq<u8>>, ch: u8) -> Option<(u8, u8)> {
    first_pos_from(used_lines(rows), ch, 0)
}

/// How many lines, from line `l` on, hold `ch` in column `c` without a gap.
pub open spec fn stack_from(rows: Seq<Seq<u8>>, l: int, c: int, ch: u8) -> int
    decreases 3 - l,
{
    if l < 0 || l >= 3 || rows[l][c] != ch {
        0
    } else {
        1 + stack_from(rows, l + 1, c, ch)
    }
}

/// Where bottle `bottle` stands: its lines as `[from, to)` and its column.
pub open spec fn bottle_position_view(rows: Seq<Seq<u8>>, bottle: int) -> Option<((u8, u8), u8)> {
    if bottle < 1 || bottle > 18 {
        None
    } else {
        match first_pos(rows, bottle_char(bottle)) {
            None => None,
            Some((l, c)) => Some(
                (
                    (l, (l + stack_from(rows, l as int, c as int, bottle_char(bottle))) as u8),
                    c,
                ),
            ),
        }
    }
}

impl Layout {
    /// The character of `bottle`, or `None` past the eighteenth bottle.
    fn bottle_to_char(bottle: u8) -> (r: Option<u8>)
        ensures
            r == if 1 <= bottle <= 18 {
                Some(bottle_char(bottle as int))
            } else {
                None
            },
    {
        if bottle == 0 || bottle > 18 {
            None
        } else if bottle <= 9 {
            Some(48 + bottle)
        } else {
            Some(55 + bottle)
        }
    }

    /// The number of used lines.
    fn used(&self) -> (r: usize)
        ensures
            r == used_from(self@, 0),
            r <= 3,
    {
        proof {
            reveal_with_fuel(used_from, 4);
        }
        if self.rows[0][0] == REPR_UNUSED_MARKER {
            0
        } else if self.rows[1][0] == REPR_UNUSED_MARKER {
            1
        } else if self.rows[2][0] == REPR_UNUSED_MARKER {
            2
        } else {
            3
        }
    }

    proof fn lemma_used(&self)
        ensures
            0 <= used_from(self@, 0) <= 3,
            used_lines(self@).len() == used_from(self@, 0),
    {
        reveal_with_fuel(used_from, 4);
    }

    /// The number of lines the board uses.
    pub fn line_count(&self) -> (r: u8)
        ensures
            r == used_from(self@, 0),
    {
        self.used() as u8
    }

    /// The first position of `ch` in the used lines, in reading order.
    fn first_position(&self, ch: u8) -> (r: Option<(u8, u8)>)
        ensures
            r == first_pos(self@, ch),
    {
        let used = self.used();
        let ghost lines = used_lines(self@);
        let mut l: usize = 0;
        while l < used
            invariant
                used == used_from(self@, 0),
                used <= 3,
                lines == used_lines(self@),
                lines.len() == used,
                0 <= l <= used,
                first_pos(self@, ch) == first_pos_from(lines, ch, l * 11),
            decreases used - l,
        {
            let mut c: usize = 0;
            while c < 11
                invariant
                    used == used_from(self@, 0),
                    used <= 3,
                    lines == used_lines(self@),
                    lines.len() == used,
                    0 <= l < used,
                    0 <= c <= 11,
                    first_pos(self@, ch) == first_pos_from(lines, ch, l * 11 + c),
                decreases 11 - c,
            {
                let p = l * 11 + c;
                assert(p / 11 == l && p % 11 == c);
                assert(lines[l as int] == self@[l as int]);
                if self.rows[l][c] == ch {
                    return Some((l as u8, c as u8));
                }
                c = c + 1;
            }
            l = l + 1;
        }
        None
    }

    /// How many lines, from line `l` on, hold `ch` in column `c`.
    fn stack_count(&self, l: u8, c: u8, ch: u8) -> (r: u8)
        requires
            c < 11,
        ensures
            r == stack_from(self@, l as int, c as int, ch),
            r <= 3,
    {
        let mut x: usize = l as usize;
        let mut n: u8 = 0;
        while x < 3 && self.rows[x][c as usize] == ch
            invariant
                c < 11,
                l <= x,
                n == x - l,
                n <= 3,
                stack_from(self@, l as int, c as int, ch) == n + stack_from(self@, x as int, c as int, ch),
            decreases 3 - x,
        {
            x = x + 1;
            n = n + 1;
        }
        n
    }

    /// Where bottle `bottle` stands: its lines as `[from, to)` and its column.
    pub fn bottle_position(&self, bottle: u8) -> (r: Option<((u8, u8), u8)>)
        ensures
            r == bottle_position_view(self@, bottle as int),
    {
        let ch = match Self::bottle_to_char(bottle) {
            Some(ch) => ch,
            None => {
                return None;
            },
        };
        let (line, column) = match self.first_position(ch) {
            Some(p) => p,
            None => {
                return None;
            },
        };
        proof {
            self.lemma_used();
            lemma_first_pos_bounds(used_lines(self@), ch, 0);
        }
        let count = self.stack_count(line, column, ch);
        Some(((line, line + count), column))
    }
}

/// A position found lies within the lines.
proof fn lemma_first_pos_bounds(lines: Seq<Seq<u8>>, ch: u8, p: int)
    requires
        lines.len() <= 3,
        0 <= p,
    ensures
        first_pos_from(lines, ch, p) matches Some((l, c)) ==> l < lines.len() && c < 11 && lines[l
            as int][c as int] == ch,
    decreases lines.len() * 11 - p,
{
    if p < lines.len() * 11 && lines[p / 11][p % 11] != ch {
        lemma_first_pos_bounds(lines, ch, p + 1);
    }
}

} // verus!

verus! {

/// Separators at the front of `line`, from byte `k` on.
pub open spec fn lead_seps(line: Seq<u8>, k: int) -> int
    decreases 11 - k,
{
    if k < 0 || k >= 11 || line[k] != SEPARATOR {
        0
    } else {
        1 + lead_seps(line, k + 1)
    }
}

/// Separators at the back of `line`, ending before byte `k`.
pub open spec fn trail_seps(line: Seq<u8>, k: int) -> int
    decreases k,
{
    if k <= 0 || k > 11 || line[k - 1] != SEPARATOR {
        0
    } else {
        1 + trail_seps(line, k - 1)
    }
}

/// Whether byte `i` of a line whose content starts at byte `p` is what it
/// must be: a bottle character at even distance from `p`, else a separator.
pub open spec fn alternates(line: Seq<u8>, p: int, i: int) -> bool {
    if (i - p) % 2 == 0 {
        is_bottle_char(line[i])
    } else {
        line[i] == SEPARATOR
    }
}

/// The checks on one used line, in order: only bottle characters and
/// separators, not separators only, as many separators in front as behind,
/// and bottle characters and separators alternating in between.
pub open spec fn line_error(line: Seq<u8>) -> Option<LayoutError> {
    let p = lead_seps(line, 0);
    let q = trail_seps(line, 11);
    if exists|k: int| 0 <= k < 11 && !(#[trigger] line[k] == SEPARATOR || is_bottle_char(line[k])) {
        Some(LayoutError::BadChars)
    } else if forall|k: int| 0 <= k < 11 ==> #[trigger] line[k] == SEPARATOR {
        Some(LayoutError::OnlySeparators)
    } else if p != q {
        Some(LayoutError::UnbalancedSeparators)
    } else if exists|i: int| p <= i < 11 - q && !#[trigger] alternates(line, p, i) {
        Some(LayoutError::NotAlternating)
    } else {
        None
    }
}

/// The first refused line among `lines`, from line `l` on.
pub open spec fn lines_error_from(lines: Seq<Seq<u8>>, l: int) -> Option<LayoutError>
    decreases lines.len() - l,
{
    if l < 0 || l >= lines.len() {
        None
    } else if line_error(lines[l]) is Some {
        line_error(lines[l])
    } else {
        lines_error_from(lines, l + 1)
    }
}

proof fn lemma_lead_seps(line: Seq<u8>, k: int)
    requires
        0 <= k <= 11,
    ensures
        0 <= lead_seps(line, k) <= 11 - k,
        forall|i: int| k <= i < k + lead_seps(line, k) ==> #[trigger] line[i] == SEPARATOR,
        k + lead_seps(line, k) < 11 ==> line[k + lead_seps(line, k)] != SEPARATOR,
    decreases 11 - k,
{
    if k < 11 && line[k] == SEPARATOR {
        lemma_lead_seps(line, k + 1);
    }
}

proof fn lemma_trail_seps(line: Seq<u8>, k: int)
    requires
        0 <= k <= 11,
    ensures
        0 <= trail_seps(line, k) <= k,
        forall|i: int| k - trail_seps(line, k) <= i < k ==> #[trigger] line[i] == SEPARATOR,
        k - trail_seps(line, k) > 0 ==> line[k - trail_seps(line, k) - 1] != SEPARATOR,
    decreases k,
{
    if k > 0 && line[k - 1] == SEPARATOR {
        lemma_trail_seps(line, k - 1);
    }
}

impl Layout {
    /// Checks one used line.
    fn validate_line(line: [u8; 11]) -> (r: Option<LayoutError>)
        ensures
            r == line_error(line@),
    {
        let ghost s = line@;
        let mut k: usize = 0;
        while k < 11
            invariant
                s == line@,
                0 <= k <= 11,
                forall|j: int| 0 <= j < k ==> (#[trigger] s[j] == SEPARATOR || is_bottle_char(s[j])),
            decreases 11 - k,
        {
            let ch = line[k];
            if !(ch == SEPARATOR || (49 <= ch && ch <= 57) || (65 <= ch && ch <= 73)) {
                assert(!(s[k as int] == SEPARATOR || is_bottle_char(s[k as int])));
                return Some(LayoutError::BadChars);
            }
            k = k + 1;
        }
        let mut all_separators = true;
        let mut k: usize = 0;
        while k < 11
            invariant
                s == line@,
                0 <= k <= 11,
                all_separators == forall|j: int| 0 <= j < k ==> #[trigger] s[j] == SEPARATOR,
            decreases 11 - k,
        {
            if line[k] != SEPARATOR {
                all_separators = false;
            }
            k = k + 1;
        }
        if all_separators {
            return Some(LayoutError::OnlySeparators);
        }
        let ghost k = choose|j: int| 0 <= j < 11 && s[j] != SEPARATOR;
        let mut prefix: usize = 0;
        while prefix < 11 && line[prefix] == SEPARATOR
            invariant
                s == line@,
                0 <= prefix <= 11,
                lead_seps(s, 0) == prefix + lead_seps(s, prefix as int),
            decreases 11 - prefix,
        {
            prefix = prefix + 1;
        }
        let mut suffix: usize = 0;
        while suffix < 11 && line[10 - suffix] == SEPARATOR
            invariant
                s == line@,
                0 <= suffix <= 11,
                trail_seps(s, 11) == suffix + trail_seps(s, 11 - suffix),
            decreases 11 - suffix,
        {
            suffix = suffix + 1;
        }
        if prefix != suffix {
            return Some(LayoutError::UnbalancedSeparators);
        }
        proof {
            lemma_lead_seps(s, 0);
            lemma_trail_seps(s, 11);
        }
        assert(prefix + suffix <= 11) by {
            if prefix + suffix > 11 {
                assert(s[k] == SEPARATOR);
            }
        }
        let end = 11 - suffix;
        let mut i: usize = prefix;
        while i < end
            invariant
                s == line@,
                prefix <= i <= end <= 11,
                prefix == lead_seps(s, 0),
                end == 11 - trail_seps(s, 11),
                prefix == trail_seps(s, 11),
                forall|j: int| 0 <= j < 11 ==> (#[trigger] s[j] == SEPARATOR || is_bottle_char(s[j])),
                !forall|j: int| 0 <= j < 11 ==> #[trigger] s[j] == SEPARATOR,
                forall|j: int| prefix <= j < i ==> #[trigger] alternates(s, prefix as int, j),
            decreases end - i,
        {
            let ch = line[i];
            let ok = if (i - prefix) % 2 == 0 {
                (49 <= ch && ch <= 57) || (65 <= ch && ch <= 73)
            } else {
                ch == SEPARATOR
            };
            if !ok {
                assert(!alternates(s, prefix as int, i as int));
                return Some(LayoutError::NotAlternating);
            }
            i = i + 1;
        }
        None
    }
}

} // verus!

verus! {

/// `a` unless it is `None`, then `b`.
pub open spec fn either(a: Option<LayoutError>, b: Option<LayoutError>) -> Option<LayoutError> {
    if a is Some {
        a
    } else {
        b
    }
}

/// How often `ch` occurs in `row` before byte `k`.
pub open spec fn row_count(row: Seq<u8>, ch: u8, k: int) -> int
    decreases k,
{
    if k <= 0 {
        0
    } else {
        row_count(row, ch, k - 1) + if row[k - 1] == ch {
            1int
        } else {
            0int
        }
    }
}

/// How often `ch` occurs in the first `l` lines.
pub open spec fn char_count(lines: Seq<Seq<u8>>, ch: u8, l: int) -> int
    decreases l,
{
    if l <= 0 {
        0
    } else {
        char_count(lines, ch, l - 1) + row_count(lines[l - 1], ch, 11)
    }
}

/// The bottles among `1..=b` whose character appears on the used lines. On
/// lines that passed their checks, every byte other than a separator is a
/// bottle character, so this counts the distinct characters in use.
pub open spec fn used_bottles(rows: Seq<Seq<u8>>, b: int) -> int
    decreases b,
{
    if b <= 0 {
        0
    } else {
        used_bottles(rows, b - 1) + if first_pos(rows, bottle_char(b)) is Some {
            1int
        } else {
            0int
        }
    }
}

/// The lines a bottle of `capacity` spans, or zero when it is too large.
pub open spec fn expected_lines(capacity: int) -> int {
    if capacity <= max_capacity(1) {
        1
    } else if capacity <= max_capacity(2) {
        2
    } else if capacity <= max_capacity(3) {
        3
    } else {
        0
    }
}

/// The checks on bottle `b`: it fits on the board, its character appears
/// once per line its capacity asks for, and those lines stack in one
/// column.
pub open spec fn bottle_error(rows: Seq<Seq<u8>>, v: StateView, b: int) -> Option<LayoutError> {
    let ch = bottle_char(b);
    let lines = used_lines(rows);
    let expected = expected_lines(v.capacity[b] as int);
    if expected == 0 {
        Some(LayoutError::CapacityTooLarge)
    } else if char_count(lines, ch, lines.len() as int) != expected {
        Some(LayoutError::CharCount)
    } else {
        match first_pos(rows, ch) {
            None => None,
            Some((l, c)) => if stack_from(rows, l as int, c as int, ch) != expected {
                Some(LayoutError::NotStacked)
            } else {
                None
            },
        }
    }
}

/// The first refused bottle, from bottle `b` on.
pub open spec fn bottles_error_from(rows: Seq<Seq<u8>>, v: StateView, b: int) -> Option<LayoutError>
    decreases v.bottle_count + 1 - b,
{
    if b < 1 || b > v.bottle_count {
        None
    } else {
        either(bottle_error(rows, v, b), bottles_error_from(rows, v, b + 1))
    }
}

/// The checks on the bottles `start + o ..= end` of a group whose first
/// bottle stands at line `l`, column `c`: each fits on one line and stands
/// two bytes right of the one before.
pub open spec fn offsets_error(
    rows: Seq<Seq<u8>>,
    v: StateView,
    start: int,
    end: int,
    l: int,
    c: int,
    o: int,
) -> Option<LayoutError>
    decreases end - start - o + 1,
{
    let b = start + o;
    if o < 0 || b > end {
        None
    } else if v.capacity[b] > max_capacity(1) {
        Some(LayoutError::GroupSpansLines)
    } else if c + 2 * o >= 11 || rows[l][c + 2 * o] != bottle_char(b) {
        Some(LayoutError::GroupNotInLine)
    } else {
        offsets_error(rows, v, start, end, l, c, o + 1)
    }
}

/// The checks on a group of bottles `start..=end`.
pub open spec fn group_error(rows: Seq<Seq<u8>>, v: StateView, g: (u8, u8)) -> Option<LayoutError> {
    match first_pos(rows, bottle_char(g.0 as int)) {
        None => None,
        Some((l, c)) => offsets_error(rows, v, g.0 as int, g.1 as int, l as int, c as int, 0),
    }
}

/// The first refused group among `gs`, from group `j` on.
pub open spec fn groups_error_from(
    rows: Seq<Seq<u8>>,
    v: StateView,
    gs: Seq<(u8, u8)>,
    j: int,
) -> Option<LayoutError>
    decreases gs.len() - j,
{
    if j < 0 || j >= gs.len() {
        None
    } else {
        either(group_error(rows, v, gs[j]), groups_error_from(rows, v, gs, j + 1))
    }
}

/// The bottles of each lock group.
pub open spec fn lock_spans(v: StateView) -> Seq<(u8, u8)> {
    lock_groups_from(v, 1).map_values(|g: (u16, (u8, u8))| g.1)
}

/// Every check of a board against a state, in order: the used lines, one
/// character per bottle, each bottle, then the freezing, curtain and lock
/// groups.
pub open spec fn validate_error(rows: Seq<Seq<u8>>, v: StateView) -> Option<LayoutError> {
    let count = v.bottle_count as int;
    either(
        lines_error_from(used_lines(rows), 0),
        either(
            if used_bottles(rows, 18) != count {
                Some(LayoutError::UsedChars)
            } else {
                None
            },
            either(
                bottles_error_from(rows, v, 1),
                either(
                    groups_error_from(rows, v, dedup_seq(frozen_groups_upto(v, count + 1)), 0),
                    either(
                        groups_error_from(rows, v, curtain_groups_upto(v, count), 0),
                        groups_error_from(rows, v, lock_spans(v), 0),
                    ),
                ),
            ),
        ),
    )
}

proof fn lemma_used_bottles_bound(rows: Seq<Seq<u8>>, b: int)
    requires
        0 <= b,
    ensures
        0 <= used_bottles(rows, b) <= b,
    decreases b,
{
    if b > 0 {
        lemma_used_bottles_bound(rows, b - 1);
    }
}

/// Valid groups: within the bottles, first bottle not after the last.
pub open spec fn groups_in_bottles(gs: Seq<(u8, u8)>, count: int) -> bool {
    forall|j: int| 0 <= j < gs.len() ==> 1 <= (#[trigger] gs[j]).0 <= gs[j].1 <= count
}

impl Layout {
    /// How often `ch` occurs on the used lines.
    fn count_char(&self, ch: u8) -> (r: usize)
        ensures
            r == char_count(used_lines(self@), ch, used_lines(self@).len() as int),
    {
        proof {
            self.lemma_used();
        }
        let used = self.used();
        let ghost lines = used_lines(self@);
        let mut total: usize = 0;
        let mut l: usize = 0;
        while l < used
            invariant
                used == lines.len(),
                used == used_from(self@, 0),
                lines == used_lines(self@),
                used <= 3,
                0 <= l <= used,
                total == char_count(lines, ch, l as int),
                total <= l * 11,
            decreases used - l,
        {
            assert(lines[l as int] == self@[l as int]);
            let mut k: usize = 0;
            let mut n: usize = 0;
            while k < 11
                invariant
                    used == lines.len(),
                    lines == used_lines(self@),
                    0 <= l < used <= 3,
                    0 <= k <= 11,
                    n == row_count(lines[l as int], ch, k as int),
                    n <= k,
                    lines[l as int] == self.rows@[l as int]@,
                decreases 11 - k,
            {
                if self.rows[l][k] == ch {
                    n = n + 1;
                }
                k = k + 1;
            }
            total = total + n;
            l = l + 1;
        }
        total
    }

    /// Checks bottle `bottle`.
    fn validate_bottle(&self, state: &State, bottle: u8) -> (r: Option<LayoutError>)
        requires
            state.wf(),
            1 <= bottle <= 18,
            bottle <= state@.bottle_count,
        ensures
            r == bottle_error(self@, state@, bottle as int),
    {
        let ch = if bottle <= 9 {
            48 + bottle
        } else {
            55 + bottle
        };
        let capacity = state.get_capacity(bottle);
        let expected: usize = if capacity <= 4 {
            1
        } else if capacity <= 10 {
            2
        } else if capacity <= 16 {
            3
        } else {
            return Some(LayoutError::CapacityTooLarge);
        };
        if self.count_char(ch) != expected {
            return Some(LayoutError::CharCount);
        }
        match self.first_position(ch) {
            None => None,
            Some((line, column)) => {
                proof {
                    self.lemma_used();
                    lemma_first_pos_bounds(used_lines(self@), ch, 0);
                }
                if self.stack_count(line, column, ch) as usize != expected {
                    Some(LayoutError::NotStacked)
                } else {
                    None
                }
            },
        }
    }

    /// Checks that the bottles of each group stand in one line, ascending,
    /// without gaps, and each on a single line.
    fn validate_ranges(&self, state: &State, groups: &Vec<(u8, u8)>) -> (r: Option<LayoutError>)
        requires
            state.wf(),
            state@.bottle_count <= 18,
            groups_in_bottles(groups@, state@.bottle_count as int),
        ensures
            r == groups_error_from(self@, state@, groups@, 0),
    {
        let mut j: usize = 0;
        while j < groups.len()
            invariant
                state.wf(),
                state@.bottle_count <= 18,
                groups_in_bottles(groups@, state@.bottle_count as int),
                0 <= j <= groups@.len(),
                groups_error_from(self@, state@, groups@, 0) == groups_error_from(
                    self@,
                    state@,
                    groups@,
                    j as int,
                ),
            decreases groups@.len() - j,
        {
            let (start, end) = groups[j];
            assert(1 <= start <= end <= state@.bottle_count) by {
                assert(groups@[j as int] == (start, end));
            }
            let start_ch = if start <= 9 {
                48 + start
            } else {
                55 + start
            };
            match self.first_position(start_ch) {
                None => {},
                Some((line, column)) => {
                    proof {
                        self.lemma_used();
                        lemma_first_pos_bounds(used_lines(self@), start_ch, 0);
                    }
                    let mut bottle: u8 = start;
                    let mut offset: usize = 0;
                    while bottle <= end
                        invariant
                            state.wf(),
                            0 <= j < groups@.len(),
                            groups@[j as int] == (start, end),
                            groups_error_from(self@, state@, groups@, 0) == groups_error_from(
                                self@,
                                state@,
                                groups@,
                                j as int,
                            ),
                            first_pos(self@, bottle_char(start as int)) == Some((line, column)),
                            1 <= start <= end <= state@.bottle_count <= 18,
                            start <= bottle <= end + 1,
                            offset == bottle - start,
                            line < 3,
                            column < 11,
                            group_error(self@, state@, (start, end)) == offsets_error(
                                self@,
                                state@,
                                start as int,
                                end as int,
                                line as int,
                                column as int,
                                offset as int,
                            ),
                        decreases end + 1 - bottle,
                    {
                        if state.get_capacity(bottle) > 4 {
                            return Some(LayoutError::GroupSpansLines);
                        }
                        let expected = if bottle <= 9 {
                            48 + bottle
                        } else {
                            55 + bottle
                        };
                        let position = column as usize + 2 * offset;
                        if position >= 11 || self.rows[line as usize][position] != expected {
                            return Some(LayoutError::GroupNotInLine);
                        }
                        bottle = bottle + 1;
                        offset = offset + 1;
                    }
                },
            }
            j = j + 1;
        }
        None
    }
}

} // verus!

verus! {

proof fn lemma_frozen_groups_bounds(v: StateView, x: int)
    requires
        wf_view(v),
        x <= v.bottle_count + 1,
    ensures
        groups_in_bottles(frozen_groups_upto(v, x), v.bottle_count as int),
    decreases x,
{
    if x > 1 {
        lemma_frozen_groups_bounds(v, x - 1);
        if v.frozen[x - 1] {
            lemma_run_start(v.frozen_run, x - 1, x - 1);
            lemma_run_end(v.frozen_run, x - 1, x - 1, v.bottle_count as int);
            let gs = frozen_groups_upto(v, x);
            assert forall|j: int| 0 <= j < gs.len() implies 1 <= (#[trigger] gs[j]).0 <= gs[j].1
                <= v.bottle_count by {
                if j < gs.len() - 1 {
                    assert(gs[j] == frozen_groups_upto(v, x - 1)[j]);
                }
            }
        }
    }
}

proof fn lemma_dedup_bounds(s: Seq<(u8, u8)>, count: int)
    requires
        groups_in_bottles(s, count),
    ensures
        groups_in_bottles(dedup_seq(s), count),
    decreases s.len(),
{
    if s.len() > 1 {
        lemma_dedup_bounds(s.drop_last(), count);
        let d = dedup_seq(s);
        assert forall|j: int| 0 <= j < d.len() implies 1 <= (#[trigger] d[j]).0 <= d[j].1 <= count by {
            if j < dedup_seq(s.drop_last()).len() {
                assert(d[j] == dedup_seq(s.drop_last())[j]);
            } else {
                assert(d[j] == s[s.len() - 1]);
            }
        }
    }
}

proof fn lemma_curtain_groups_bounds(v: StateView, k: int)
    requires
        wf_view(v),
        k <= 32,
    ensures
        groups_in_bottles(curtain_groups_upto(v, k), v.bottle_count as int),
    decreases k,
{
    if k > 0 {
        lemma_curtain_groups_bounds(v, k - 1);
        let gs = curtain_groups_upto(v, k);
        assert forall|j: int| 0 <= j < gs.len() implies 1 <= (#[trigger] gs[j]).0 <= gs[j].1
            <= v.bottle_count by {
            if j < curtain_groups_upto(v, k - 1).len() {
                assert(gs[j] == curtain_groups_upto(v, k - 1)[j]);
            }
        }
    }
}

proof fn lemma_lock_groups_bounds(v: StateView, b: int)
    requires
        wf_view(v),
        1 <= b,
    ensures
        forall|j: int|
            0 <= j < lock_groups_from(v, b).len() ==> 1 <= (#[trigger] lock_groups_from(v, b)[j]).1.0
                <= lock_groups_from(v, b)[j].1.1 <= v.bottle_count,
    decreases v.bottle_count + 1 - b,
{
    if 1 <= b <= v.bottle_count {
        let e = key_group_end(v, b, b);
        if b <= e <= v.bottle_count {
            lemma_lock_groups_bounds(v, e + 1);
            let gs = lock_groups_from(v, b);
            let rest = lock_groups_from(v, e + 1);
            assert forall|j: int| 0 <= j < gs.len() implies 1 <= (#[trigger] gs[j]).1.0 <= gs[j].1.1
                <= v.bottle_count by {
                if v.bottle_locked[b] && j > 0 {
                    assert(gs[j] == rest[j - 1]);
                }
            }
        }
    }
}

/// The checks on one line as given: ASCII, eleven bytes long, and without
/// the unused marker.
pub open spec fn data_line_error(line: Seq<char>) -> Option<LayoutError> {
    if !is_ascii_chars(line) {
        Some(LayoutError::NotAscii)
    } else if line.len() != REPR_LINE_LEN {
        Some(LayoutError::LineLength)
    } else if exists|k: int| 0 <= k < line.len() && #[trigger] line[k] as u8 == REPR_UNUSED_MARKER {
        Some(LayoutError::UnusedMarker)
    } else {
        None
    }
}

/// The first refused line as given, from line `j` on.
pub open spec fn data_error_from(data: Seq<Seq<char>>, j: int) -> Option<LayoutError>
    decreases data.len() - j,
{
    if j < 0 || j >= data.len() {
        None
    } else {
        either(data_line_error(data[j]), data_error_from(data, j + 1))
    }
}

/// The board's lines: the given lines as bytes, then unused lines.
pub open spec fn rows_of(data: Seq<Seq<char>>) -> Seq<Seq<u8>> {
    Seq::new(
        3,
        |l: int| Seq::new(11, |k: int| if l < data.len() { data[l][k] as u8 } else { 0u8 }),
    )
}

/// Every check on the given lines and on the board they make, in order.
pub open spec fn layout_error(data: Seq<Seq<char>>, v: StateView) -> Option<LayoutError> {
    if data.len() == 0 || data.len() > LINES {
        Some(LayoutError::LineCount)
    } else {
        either(data_error_from(data, 0), validate_error(rows_of(data), v))
    }
}

/// The lines as character sequences.
pub open spec fn lines_view(data: Seq<String>) -> Seq<Seq<char>> {
    Seq::new(data.len(), |i: int| data[i]@)
}

impl Layout {
    /// Checks the board against a state.
    fn validate(&self, state: &State) -> (r: Option<LayoutError>)
        requires
            state.wf(),
        ensures
            r == validate_error(self@, state@),
    {
        proof {
            self.lemma_used();
        }
        let used = self.used();
        let ghost lines = used_lines(self@);
        let mut l: usize = 0;
        while l < used
            invariant
                used == lines.len(),
                used == used_from(self@, 0),
                lines == used_lines(self@),
                used <= 3,
                0 <= l <= used,
                lines_error_from(lines, 0) == lines_error_from(lines, l as int),
            decreases used - l,
        {
            assert(self.rows@[l as int]@ == lines[l as int]);
            if let Some(e) = Self::validate_line(self.rows[l]) {
                return Some(e);
            }
            l = l + 1;
        }
        let mut n: usize = 0;
        let mut b: u8 = 1;
        while b <= 18
            invariant
                1 <= b <= 19,
                n == used_bottles(self@, b - 1),
                n <= b - 1,
            decreases 19 - b,
        {
            let ch = if b <= 9 {
                48 + b
            } else {
                55 + b
            };
            if self.first_position(ch).is_some() {
                n = n + 1;
            }
            b = b + 1;
        }
        let count = state.bottle_count();
        if n != count as usize {
            return Some(LayoutError::UsedChars);
        }
        let mut bottle: u8 = 1;
        while bottle <= count
            invariant
                state.wf(),
                count == state@.bottle_count <= 18,
                lines_error_from(used_lines(self@), 0) is None,
                used_bottles(self@, 18) == count,
                1 <= bottle <= count + 1,
                bottles_error_from(self@, state@, 1) == bottles_error_from(self@, state@, bottle as int),
            decreases count + 1 - bottle,
        {
            if let Some(e) = self.validate_bottle(state, bottle) {
                return Some(e);
            }
            bottle = bottle + 1;
        }
        let frozen = state.get_frozen_ranges();
        proof {
            lemma_frozen_groups_bounds(state@, count + 1);
            lemma_dedup_bounds(frozen_groups_upto(state@, count + 1), count as int);
        }
        if let Some(e) = self.validate_ranges(state, &frozen) {
            return Some(e);
        }
        let curtains = state.get_curtain_ranges();
        proof {
            lemma_curtain_groups_bounds(state@, count as int);
        }
        if let Some(e) = self.validate_ranges(state, &curtains) {
            return Some(e);
        }
        let locks = state.get_lock_group_ranges();
        let mut spans: Vec<(u8, u8)> = Vec::new();
        let mut j: usize = 0;
        while j < locks.len()
            invariant
                0 <= j <= locks@.len(),
                spans@ == locks@.take(j as int).map_values(|g: (u16, (u8, u8))| g.1),
            decreases locks@.len() - j,
        {
            spans.push(locks[j].1);
            j = j + 1;
            assert(spans@ =~= locks@.take(j as int).map_values(|g: (u16, (u8, u8))| g.1));
        }
        assert(locks@.take(j as int) =~= locks@);
        proof {
            lemma_lock_groups_bounds(state@, 1);
            assert(spans@ == lock_spans(state@));
            assert forall|k: int| 0 <= k < spans@.len() implies 1 <= (#[trigger] spans@[k]).0
                <= spans@[k].1 <= count by {
                assert(spans@[k] == lock_groups_from(state@, 1)[k].1);
            }
        }
        self.validate_ranges(state, &spans)
    }

    /// Builds the board from its lines, each eleven bytes of bottle
    /// characters and separators, and checks it against `state`.
    pub fn new(data: &Vec<String>, state: &State) -> (r: Result<Layout, LayoutError>)
        requires
            state.wf(),
        ensures
            match r {
                Ok(layout) => layout_error(lines_view(data@), state@) is None && layout@ == rows_of(
                    lines_view(data@),
                ),
                Err(e) => layout_error(lines_view(data@), state@) == Some(e),
            },
    {
        broadcast use vstd::string::group_string_axioms;

        let ghost lines = lines_view(data@);
        let n = data.len();
        if n == 0 || n > 3 {
            return Err(LayoutError::LineCount);
        }
        let mut rows = [[0u8; 11]; 3];
        assert(rows@[0]@ =~= Seq::new(11, |k: int| 0u8));
        let mut j: usize = 0;
        while j < n
            invariant
                lines == lines_view(data@),
                n == data@.len(),
                1 <= n <= 3,
                0 <= j <= n,
                data_error_from(lines, 0) == data_error_from(lines, j as int),
                forall|l: int| 0 <= l < 3 ==> (#[trigger] rows@[l])@ == (if l < j {
                    rows_of(lines)[l]
                } else {
                    Seq::new(11, |k: int| 0u8)
                }),
            decreases n - j,
        {
            let line = &data[j];
            assert(line@ == lines[j as int]);
            if !line.is_ascii() {
                return Err(LayoutError::NotAscii);
            }
            let text = line.as_str();
            let bytes = text.as_bytes();
            proof {
                vstd::string::is_ascii_spec_bytes(text);
            }
            assert(bytes@ =~= Seq::new(line@.len(), |i: int| line@[i] as u8));
            if bytes.len() != 11 {
                return Err(LayoutError::LineLength);
            }
            let mut k: usize = 0;
            while k < 11
                invariant
                    bytes@.len() == 11,
                    bytes@ == Seq::new(line@.len(), |i: int| line@[i] as u8),
                    lines == lines_view(data@),
                    n == data@.len(),
                    1 <= n <= 3,
                    0 <= j < n,
                    line@ == lines[j as int],
                    is_ascii_chars(line@),
                    data_error_from(lines, 0) == data_error_from(lines, j as int),
                    0 <= k <= 11,
                    forall|i: int| 0 <= i < k ==> #[trigger] line@[i] as u8 != REPR_UNUSED_MARKER,
                decreases 11 - k,
            {
                if bytes[k] == 0 {
                    assert(line@[k as int] as u8 == REPR_UNUSED_MARKER);
                    return Err(LayoutError::UnusedMarker);
                }
                k = k + 1;
            }
            let mut k: usize = 0;
            while k < 11
                invariant
                    0 <= j < n <= 3,
                    bytes@.len() == 11,
                    bytes@ == Seq::new(line@.len(), |i: int| line@[i] as u8),
                    line@ == lines[j as int],
                    lines == lines_view(data@),
                    0 <= k <= 11,
                    forall|i: int| 0 <= i < k ==> #[trigger] rows@[j as int]@[i] == bytes@[i],
                    forall|l: int| 0 <= l < 3 && l != j ==> (#[trigger] rows@[l])@ == (if l < j {
                        rows_of(lines)[l]
                    } else {
                        Seq::new(11, |k: int| 0u8)
                    }),
                decreases 11 - k,
            {
                rows[j][k] = bytes[k];
                k = k + 1;
            }
            assert(rows@[j as int]@ =~= rows_of(lines)[j as int]);
            j = j + 1;
        }
        let layout = Layout { rows };
        assert(layout@ =~~= rows_of(lines));
        match layout.validate(state) {
            Some(e) => Err(e),
            None => Ok(layout),
        }
    }
}

} // verus!

verus! {

proof fn lemma_none_from(lines: Seq<Seq<u8>>, ch: u8, p: int)
    requires
        0 <= p,
        first_pos_from(lines, ch, p) is None,
    ensures
        forall|q: int| p <= q < lines.len() * 11 ==> #[trigger] lines[q / 11][q % 11] != ch,
    decreases lines.len() * 11 - p,
{
    if p < lines.len() * 11 {
        lemma_none_from(lines, ch, p + 1);
    }
}

proof fn lemma_row_count_zero(row: Seq<u8>, ch: u8, k: int)
    requires
        forall|i: int| 0 <= i < k ==> #[trigger] row[i] != ch,
    ensures
        row_count(row, ch, k) == 0,
    decreases k,
{
    if k > 0 {
        lemma_row_count_zero(row, ch, k - 1);
    }
}

proof fn lemma_char_count_zero(lines: Seq<Seq<u8>>, ch: u8, l: int)
    requires
        forall|x: int, i: int| 0 <= x < l && 0 <= i < 11 ==> #[trigger] lines[x][i] != ch,
    ensures
        char_count(lines, ch, l) == 0,
    decreases l,
{
    if l > 0 {
        lemma_char_count_zero(lines, ch, l - 1);
        lemma_row_count_zero(lines[l - 1], ch, 11);
    }
}

/// A character that occurs on the used lines has a first position.
proof fn lemma_count_has_pos(rows: Seq<Seq<u8>>, ch: u8)
    requires
        rows.len() == 3,
        char_count(used_lines(rows), ch, used_lines(rows).len() as int) > 0,
    ensures
        first_pos(rows, ch) is Some,
{
    let lines = used_lines(rows);
    reveal_with_fuel(used_from, 4);
    if first_pos_from(lines, ch, 0) is None {
        lemma_none_from(lines, ch, 0);
        assert forall|x: int, i: int| 0 <= x < lines.len() && 0 <= i < 11 implies #[trigger] lines[x][i]
            != ch by {
            let q = x * 11 + i;
            assert(q / 11 == x && q % 11 == i);
            assert(0 <= q < lines.len() * 11);
        }
        lemma_char_count_zero(lines, ch, lines.len() as int);
    }
}

proof fn lemma_bottles_error_none(rows: Seq<Seq<u8>>, v: StateView, from: int, b: int)
    requires
        bottles_error_from(rows, v, from) is None,
        1 <= from <= b <= v.bottle_count,
    ensures
        bottle_error(rows, v, b) is None,
    decreases b - from,
{
    if from < b {
        lemma_bottles_error_none(rows, v, from + 1, b);
    }
}

/// A board that passed its checks gives every bottle of the state a place.
pub proof fn lemma_layout_places(rows: Seq<Seq<u8>>, v: StateView)
    requires
        rows.len() == 3,
        validate_error(rows, v) is None,
    ensures
        forall|b: int| 1 <= b <= v.bottle_count ==> #[trigger] bottle_position_view(rows, b) is Some,
{
    lemma_used_bottles_bound(rows, 18);
    assert forall|b: int| 1 <= b <= v.bottle_count implies #[trigger] bottle_position_view(rows, b)
        is Some by {
        lemma_bottles_error_none(rows, v, 1, b);
        lemma_count_has_pos(rows, bottle_char(b));
    }
}


/// A board view has three lines of eleven bytes.
pub open spec fn board_shape(rows: Seq<Seq<u8>>) -> bool {
    rows.len() == 3 && forall|l: int| 0 <= l < 3 ==> #[trigger] rows[l].len() == 11
}

impl Layout {
    /// The view of a layout has the shape of a board.
    pub proof fn lemma_shape(&self)
        ensures
            board_shape(self@),
    {
    }
}

proof fn lemma_used_from_bound(rows: Seq<Seq<u8>>, l: int)
    requires
        0 <= l <= 3,
    ensures
        0 <= used_from(rows, l) <= 3 - l,
    decreases 3 - l,
{
    if l < 3 && rows[l][0] != REPR_UNUSED_MARKER {
        lemma_used_from_bound(rows, l + 1);
    }
}

proof fn lemma_first_pos_from_cell(lines: Seq<Seq<u8>>, ch: u8, p: int)
    requires
        0 <= p,
        lines.len() <= 3,
        first_pos_from(lines, ch, p) is Some,
    ensures
        ({
            let (l, c) = first_pos_from(lines, ch, p)->0;
            &&& l < lines.len()
            &&& c < 11
            &&& lines[l as int][c as int] == ch
        }),
    decreases lines.len() * 11 - p,
{
    if p < lines.len() * 11 && lines[p / 11][p % 11] != ch {
        lemma_first_pos_from_cell(lines, ch, p + 1);
    }
}

/// The first place of a character holds it, on a used line.
pub(crate) proof fn lemma_first_pos_cell(rows: Seq<Seq<u8>>, ch: u8)
    requires
        rows.len() == 3,
        first_pos(rows, ch) is Some,
    ensures
        ({
            let (l, c) = first_pos(rows, ch)->0;
            &&& l < used_from(rows, 0)
            &&& c < 11
            &&& rows[l as int][c as int] == ch
        }),
{
    lemma_used_from_bound(rows, 0);
    lemma_first_pos_from_cell(used_lines(rows), ch, 0);
}

proof fn lemma_lines_error_none(lines: Seq<Seq<u8>>, from: int, l: int)
    requires
        lines_error_from(lines, from) is None,
        0 <= from <= l < lines.len(),
    ensures
        line_error(lines[l]) is None,
    decreases l - from,
{
    if from < l {
        lemma_lines_error_none(lines, from + 1, l);
    }
}

/// On a board that passed its checks, no two bottle characters stand side
/// by side on a used line.
pub(crate) proof fn lemma_no_adjacent_bottles(rows: Seq<Seq<u8>>, v: StateView, l: int, c: int)
    requires
        board_shape(rows),
        validate_error(rows, v) is None,
        0 <= l < used_from(rows, 0),
        0 <= c,
        c + 1 < 11,
    ensures
        !(is_bottle_char(rows[l][c]) && is_bottle_char(rows[l][c + 1])),
{
    lemma_used_from_bound(rows, 0);
    let lines = used_lines(rows);
    lemma_lines_error_none(lines, 0, l);
    let line = lines[l];
    assert(line == rows[l]);
    let p = lead_seps(line, 0);
    let q = trail_seps(line, 11);
    if is_bottle_char(rows[l][c]) && is_bottle_char(rows[l][c + 1]) {
        lemma_lead_seps(line, 0);
        lemma_trail_seps(line, 11);
        if c < p {
            assert(line[c] == SEPARATOR);
        }
        if c + 1 >= 11 - q {
            assert(line[c + 1] == SEPARATOR);
        }
        assert(alternates(line, p, c));
        assert(alternates(line, p, c + 1));
    }
}

/// Distinct bottles have distinct characters.
pub(crate) proof fn lemma_bottle_char_injective(a: int, b: int)
    requires
        1 <= a <= 18,
        1 <= b <= 18,
        bottle_char(a) == bottle_char(b),
    ensures
        a == b,
{
}

} // verus!
