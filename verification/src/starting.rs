//! The description of a level's starting position, and the state built from
//! it once every check that a valid puzzle has to pass succeeds.
use vstd::prelude::*;
use vstd::seq_lib::lemma_flatten_concat;

use crate::ranges::{
    in_ranges, lemma_range_valid, lemma_ranges_ordered, lemma_run_same_side, run_error, run_flags,
};
use crate::reachable::{bottle_color_count, color_solved, color_total, color_total_upto, reach_inv};
use crate::state::{
    BOTTLE_COUNT, COLOR_COUNT, ITEM_COUNT, MAX_SAFE_COUNTER, State, StateView, below_top,
    curtain_groups_upto, curtain_range_view, finalized_after, key_group_end, lemma_key_group_end,
    lock_groups_from, index_bottle, index_item, item_index,
    pour_include_view, wf_view, zero_view,
};

verus! {

/// Why a starting description was refused.
#[derive(Clone, Copy, PartialEq, Eq, Debug)]
pub enum StartError {
    /// Too many bottles.
    TooManyBottles,
    /// Content and capacity lengths do not match.
    LengthMismatch,
    /// Bottle item count too large.
    BottleItemCountTooLarge,
    /// Capacity zero.
    CapacityZero,
    /// Capacity too large.
    CapacityTooLarge,
    /// Height exceeds capacity.
    HeightExceedsCapacity,
    /// Invalid color value.
    InvalidColor,
    /// Too many items of a single color.
    TooManyItemsOfColor,
    /// Hidden item bottle is zero.
    HiddenItemBottleZero,
    /// Hidden item bottle not in range.
    HiddenItemBottleRange,
    /// Hidden item not in range.
    HiddenItemRange,
    /// Locked item bottle is zero.
    LockedItemBottleZero,
    /// Locked item bottle not in range.
    LockedItemBottleRange,
    /// Locked item not in range.
    LockedItemRange,
    /// Immovable bottle is zero.
    ImmovableBottleZero,
    /// Immovable bottle not in range.
    ImmovableBottleRange,
    /// Pluggable bottle is zero.
    PluggableBottleZero,
    /// Pluggable bottle not in range.
    PluggableBottleRange,
    /// Bottle ranges not sorted.
    RangesNotSorted,
    /// Bottle ranges overlapping.
    RangesOverlapping,
    /// Bottle range contains zero.
    RangeContainsZero,
    /// Invalid bottle range.
    InvalidRange,
    /// Bottle range too large.
    RangeTooLarge,
    /// Safe counter bottle is zero.
    SafeBottleZero,
    /// Safe counter bottle not in range.
    SafeBottleRange,
    /// Safe counter value not in range.
    SafeCounterRange,
    /// Number of lock group ranges and keys don't match.
    LockGroupCountMismatch,
    /// Lock group key bottle is zero.
    KeyBottleZero,
    /// Lock group key bottle not in range.
    KeyBottleRange,
    /// Lock group key item not in range.
    KeyItemRange,
    /// Lock group key should not start on top of a bottle.
    KeyOnTop,
    /// Lock group key must be the first item of a pour.
    KeyNotFirst,
    /// Lock group key stored inside itself.
    KeyInsideItself,
    /// Lock group key duplicate.
    KeyDuplicate,
    /// At most one of curtain, safe, or lock can be chosen per bottle.
    TooManyFeatures,
    /// Colored bottle is zero.
    ColoredBottleZero,
    /// Colored bottle not in range.
    ColoredBottleRange,
    /// Colored bottle color value not in range.
    ColoredBottleColor,
    /// Color curtain bottle is zero.
    ColorCurtainZero,
    /// Color curtain bottle not in range.
    ColorCurtainRange,
    /// Color curtain value not in range.
    ColorCurtainColor,
    /// Finalized bottles not allowed.
    FinalizedBottle,
}

/// The text that explains a refusal.
pub open spec fn error_text(e: StartError) -> Seq<char> {
    match e {
        StartError::TooManyBottles => "too many bottles"@,
        StartError::LengthMismatch => "content and capacity lengths do not match"@,
        StartError::BottleItemCountTooLarge => "bottle item count too large"@,
        StartError::CapacityZero => "capacity zero"@,
        StartError::CapacityTooLarge => "capacity too large"@,
        StartError::HeightExceedsCapacity => "height exceeds capacity"@,
        StartError::InvalidColor => "invalid color value"@,
        StartError::TooManyItemsOfColor => "too many items of a single color"@,
        StartError::HiddenItemBottleZero => "hidden item bottle is zero"@,
        StartError::HiddenItemBottleRange => "hidden item bottle not in range"@,
        StartError::HiddenItemRange => "hidden item not in range"@,
        StartError::LockedItemBottleZero => "locked item bottle is zero"@,
        StartError::LockedItemBottleRange => "locked item bottle not in range"@,
        StartError::LockedItemRange => "locked item not in range"@,
        StartError::ImmovableBottleZero => "immovable bottle is zero"@,
        StartError::ImmovableBottleRange => "immovable bottle not in range"@,
        StartError::PluggableBottleZero => "pluggable bottle is zero"@,
        StartError::PluggableBottleRange => "pluggable bottle not in range"@,
        StartError::RangesNotSorted => "bottle ranges not sorted"@,
        StartError::RangesOverlapping => "bottle ranges overlapping"@,
        StartError::RangeContainsZero => "bottle range contains zero"@,
        StartError::InvalidRange => "invalid bottle range"@,
        StartError::RangeTooLarge => "bottle range too large"@,
        StartError::SafeBottleZero => "safe counter bottle is zero"@,
        StartError::SafeBottleRange => "safe counter bottle not in range"@,
        StartError::SafeCounterRange => "safe counter value not in range"@,
        StartError::LockGroupCountMismatch => "number of lock group ranges and keys don't match"@,
        StartError::KeyBottleZero => "lock group key bottle is zero"@,
        StartError::KeyBottleRange => "lock group key bottle not in range"@,
        StartError::KeyItemRange => "lock group key item not in range"@,
        StartError::KeyOnTop => "lock group key should not start on top of a bottle"@,
        StartError::KeyNotFirst => "lock group key must be the first item of a pour"@,
        StartError::KeyInsideItself => "lock group key stored inside itself"@,
        StartError::KeyDuplicate => "lock group key duplicate"@,
        StartError::TooManyFeatures => "at most one of curtain, safe, or lock can be chosen per bottle"@,
        StartError::ColoredBottleZero => "colored bottle is zero"@,
        StartError::ColoredBottleRange => "colored bottle not in range"@,
        StartError::ColoredBottleColor => "colored bottle color value not in range"@,
        StartError::ColorCurtainZero => "color curtain bottle is zero"@,
        StartError::ColorCurtainRange => "color curtain bottle not in range"@,
        StartError::ColorCurtainColor => "color curtain value not in range"@,
        StartError::FinalizedBottle => "finalized bottles not allowed"@,
    }
}

impl StartError {
    /// The text that explains this refusal.
    pub fn message(&self) -> (r: String)
        ensures
            r@ == error_text(*self),
    {
        match self {
            StartError::TooManyBottles => "too many bottles".to_owned(),
            StartError::LengthMismatch => "content and capacity lengths do not match".to_owned(),
            StartError::BottleItemCountTooLarge => "bottle item count too large".to_owned(),
            StartError::CapacityZero => "capacity zero".to_owned(),
            StartError::CapacityTooLarge => "capacity too large".to_owned(),
            StartError::HeightExceedsCapacity => "height exceeds capacity".to_owned(),
            StartError::InvalidColor => "invalid color value".to_owned(),
            StartError::TooManyItemsOfColor => "too many items of a single color".to_owned(),
            StartError::HiddenItemBottleZero => "hidden item bottle is zero".to_owned(),
            StartError::HiddenItemBottleRange => "hidden item bottle not in range".to_owned(),
            StartError::HiddenItemRange => "hidden item not in range".to_owned(),
            StartError::LockedItemBottleZero => "locked item bottle is zero".to_owned(),
            StartError::LockedItemBottleRange => "locked item bottle not in range".to_owned(),
            StartError::LockedItemRange => "locked item not in range".to_owned(),
            StartError::ImmovableBottleZero => "immovable bottle is zero".to_owned(),
            StartError::ImmovableBottleRange => "immovable bottle not in range".to_owned(),
            StartError::PluggableBottleZero => "pluggable bottle is zero".to_owned(),
            StartError::PluggableBottleRange => "pluggable bottle not in range".to_owned(),
            StartError::RangesNotSorted => "bottle ranges not sorted".to_owned(),
            StartError::RangesOverlapping => "bottle ranges overlapping".to_owned(),
            StartError::RangeContainsZero => "bottle range contains zero".to_owned(),
            StartError::InvalidRange => "invalid bottle range".to_owned(),
            StartError::RangeTooLarge => "bottle range too large".to_owned(),
            StartError::SafeBottleZero => "safe counter bottle is zero".to_owned(),
            StartError::SafeBottleRange => "safe counter bottle not in range".to_owned(),
            StartError::SafeCounterRange => "safe counter value not in range".to_owned(),
            StartError::LockGroupCountMismatch => "number of lock group ranges and keys don't match".to_owned(),
            StartError::KeyBottleZero => "lock group key bottle is zero".to_owned(),
            StartError::KeyBottleRange => "lock group key bottle not in range".to_owned(),
            StartError::KeyItemRange => "lock group key item not in range".to_owned(),
            StartError::KeyOnTop => "lock group key should not start on top of a bottle".to_owned(),
            StartError::KeyNotFirst => "lock group key must be the first item of a pour".to_owned(),
            StartError::KeyInsideItself => "lock group key stored inside itself".to_owned(),
            StartError::KeyDuplicate => "lock group key duplicate".to_owned(),
            StartError::TooManyFeatures => "at most one of curtain, safe, or lock can be chosen per bottle".to_owned(),
            StartError::ColoredBottleZero => "colored bottle is zero".to_owned(),
            StartError::ColoredBottleRange => "colored bottle not in range".to_owned(),
            StartError::ColoredBottleColor => "colored bottle color value not in range".to_owned(),
            StartError::ColorCurtainZero => "color curtain bottle is zero".to_owned(),
            StartError::ColorCurtainRange => "color curtain bottle not in range".to_owned(),
            StartError::ColorCurtainColor => "color curtain value not in range".to_owned(),
            StartError::FinalizedBottle => "finalized bottles not allowed".to_owned(),
        }
    }
}

/// A level's starting position as it is written down: per bottle its items
/// from the bottom up and its capacity, then the features, with bottles
/// numbered from one.
pub struct StartingState {
    pub content: Vec<Vec<u8>>,
    pub capacity: Vec<u8>,
    /// Items as `(bottle, item)` whose color is not shown.
    pub hidden_items: Vec<(u8, u8)>,
    /// Items as `(bottle, item)` that are locked in place.
    pub locked_items: Vec<(u8, u8)>,
    pub immovable_bottles: Vec<u8>,
    /// Pluggable bottles, with whether they start plugged.
    pub pluggable_bottles: Vec<(u8, bool)>,
    /// Freezing groups as bottle ranges `[from, to)`.
    pub frozen_bottle_ranges: Vec<(u8, u8)>,
    /// Curtain groups as bottle ranges `[from, to)`.
    pub curtain_ranges: Vec<(u8, u8)>,
    /// Bottles in a safe, with the safe's counter.
    pub safes: Vec<(u8, u8)>,
    /// Lock groups as bottle ranges `[from, to)`.
    pub lock_group_ranges: Vec<(u8, u8)>,
    /// For each lock group, the item `(bottle, item)` that holds its key.
    pub lock_group_keys: Vec<(u8, u8)>,
    /// Bottles that only take one color, with that color.
    pub colored_bottles: Vec<(u8, u8)>,
    /// Bottles behind a color curtain, with the curtain's color.
    pub color_curtains: Vec<(u8, u8)>,
}

/// A starting position as sequences.
#[verifier::ext_equal]
pub struct StartingView {
    pub content: Seq<Seq<u8>>,
    pub capacity: Seq<u8>,
    pub hidden_items: Seq<(u8, u8)>,
    pub locked_items: Seq<(u8, u8)>,
    pub immovable_bottles: Seq<u8>,
    pub pluggable_bottles: Seq<(u8, bool)>,
    pub frozen_bottle_ranges: Seq<(u8, u8)>,
    pub curtain_ranges: Seq<(u8, u8)>,
    pub safes: Seq<(u8, u8)>,
    pub lock_group_ranges: Seq<(u8, u8)>,
    pub lock_group_keys: Seq<(u8, u8)>,
    pub colored_bottles: Seq<(u8, u8)>,
    pub color_curtains: Seq<(u8, u8)>,
}

impl View for StartingState {
    type V = StartingView;

    open spec fn view(&self) -> StartingView {
        StartingView {
            content: Seq::new(self.content.len() as nat, |b: int| self.content@[b]@),
            capacity: self.capacity@,
            hidden_items: self.hidden_items@,
            locked_items: self.locked_items@,
            immovable_bottles: self.immovable_bottles@,
            pluggable_bottles: self.pluggable_bottles@,
            frozen_bottle_ranges: self.frozen_bottle_ranges@,
            curtain_ranges: self.curtain_ranges@,
            safes: self.safes@,
            lock_group_ranges: self.lock_group_ranges@,
            lock_group_keys: self.lock_group_keys@,
            colored_bottles: self.colored_bottles@,
            color_curtains: self.color_curtains@,
        }
    }
}

/// `a` unless it is `None`, then `b`.
pub open spec fn or_else(a: Option<StartError>, b: Option<StartError>) -> Option<StartError> {
    if a is Some {
        a
    } else {
        b
    }
}

/// How often `c` occurs in `items`.
pub open spec fn occurrences(items: Seq<u8>, c: u8) -> nat
    decreases items.len(),
{
    if items.len() == 0 {
        0
    } else {
        occurrences(items.drop_last(), c) + if items.last() == c {
            1nat
        } else {
            0nat
        }
    }
}

/// The first refusal met while counting `items` in order: an item that is
/// no real color, or the sixteenth item of one color, since the count per
/// color must be less than the largest bottle size.
pub open spec fn color_error(items: Seq<u8>) -> Option<StartError>
    decreases items.len(),
{
    if items.len() == 0 {
        None
    } else if color_error(items.drop_last()) is Some {
        color_error(items.drop_last())
    } else if items.last() == 0 || items.last() >= COLOR_COUNT {
        Some(StartError::InvalidColor)
    } else if occurrences(items.drop_last(), items.last()) >= ITEM_COUNT - 1 {
        Some(StartError::TooManyItemsOfColor)
    } else {
        None
    }
}

/// All items, bottle after bottle.
pub open spec fn all_items(s: StartingView) -> Seq<u8> {
    s.content.flatten()
}

/// The checks on the bottles themselves, in order.
pub open spec fn shape_error(s: StartingView) -> Option<StartError> {
    let n = s.content.len() as int;
    if n >= BOTTLE_COUNT {
        Some(StartError::TooManyBottles)
    } else if n != s.capacity.len() {
        Some(StartError::LengthMismatch)
    } else if exists|b: int| 0 <= b < n && (#[trigger] s.content[b]).len() > ITEM_COUNT {
        Some(StartError::BottleItemCountTooLarge)
    } else if exists|b: int| 0 <= b < n && #[trigger] s.capacity[b] == 0 {
        Some(StartError::CapacityZero)
    } else if exists|b: int| 0 <= b < n && #[trigger] s.capacity[b] > ITEM_COUNT {
        Some(StartError::CapacityTooLarge)
    } else if exists|b: int| 0 <= b < n && (#[trigger] s.content[b]).len() > s.capacity[b] {
        Some(StartError::HeightExceedsCapacity)
    } else {
        None
    }
}

/// The first entry of `list`, from position `j` on, that `f` refuses.
pub open spec fn first_error_from<T>(
    list: Seq<T>,
    f: spec_fn(T) -> Option<StartError>,
    j: int,
) -> Option<StartError>
    decreases list.len() - j,
{
    if j >= list.len() {
        None
    } else if f(list[j]) is Some {
        f(list[j])
    } else {
        first_error_from(list, f, j + 1)
    }
}

/// The first entry of `list` that `f` refuses.
pub open spec fn first_error<T>(list: Seq<T>, f: spec_fn(T) -> Option<StartError>) -> Option<StartError> {
    first_error_from(list, f, 0)
}

/// A bottle number that is zero, or past the last bottle.
pub open spec fn bottle_error(
    s: StartingView,
    bottle: u8,
    zero: StartError,
    range: StartError,
) -> Option<StartError> {
    if bottle == 0 {
        Some(zero)
    } else if bottle > s.content.len() {
        Some(range)
    } else {
        None
    }
}

/// The number of items in bottle `bottle` (counted from one).
pub open spec fn bottle_len(s: StartingView, bottle: int) -> int {
    s.content[bottle - 1].len() as int
}

/// A hidden item must lie below the top item of its bottle.
pub open spec fn hidden_error(s: StartingView, p: (u8, u8)) -> Option<StartError> {
    or_else(
        bottle_error(s, p.0, StartError::HiddenItemBottleZero, StartError::HiddenItemBottleRange),
        if p.1 >= below_top(bottle_len(s, p.0 as int)) {
            Some(StartError::HiddenItemRange)
        } else {
            None
        },
    )
}

/// A locked item must be one of the items of its bottle.
pub open spec fn locked_error(s: StartingView, p: (u8, u8)) -> Option<StartError> {
    or_else(
        bottle_error(s, p.0, StartError::LockedItemBottleZero, StartError::LockedItemBottleRange),
        if p.1 >= bottle_len(s, p.0 as int) {
            Some(StartError::LockedItemRange)
        } else {
            None
        },
    )
}

/// An immovable bottle must exist.
pub open spec fn immovable_error(s: StartingView, b: u8) -> Option<StartError> {
    bottle_error(s, b, StartError::ImmovableBottleZero, StartError::ImmovableBottleRange)
}

/// A pluggable bottle must exist.
pub open spec fn pluggable_error(s: StartingView, p: (u8, bool)) -> Option<StartError> {
    bottle_error(s, p.0, StartError::PluggableBottleZero, StartError::PluggableBottleRange)
}

/// A safe must hold an existing bottle and a counter of at most seven.
pub open spec fn safe_error(s: StartingView, p: (u8, u8)) -> Option<StartError> {
    or_else(
        bottle_error(s, p.0, StartError::SafeBottleZero, StartError::SafeBottleRange),
        if p.1 > MAX_SAFE_COUNTER {
            Some(StartError::SafeCounterRange)
        } else {
            None
        },
    )
}

/// A colored bottle must exist and take a real color.
pub open spec fn colored_error(s: StartingView, p: (u8, u8)) -> Option<StartError> {
    or_else(
        bottle_error(s, p.0, StartError::ColoredBottleZero, StartError::ColoredBottleRange),
        if p.1 == 0 || p.1 >= COLOR_COUNT {
            Some(StartError::ColoredBottleColor)
        } else {
            None
        },
    )
}

/// A color curtain must hide an existing bottle and wait for a real color.
pub open spec fn color_curtain_error(s: StartingView, p: (u8, u8)) -> Option<StartError> {
    or_else(
        bottle_error(s, p.0, StartError::ColorCurtainZero, StartError::ColorCurtainRange),
        if p.1 == 0 || p.1 >= COLOR_COUNT {
            Some(StartError::ColorCurtainColor)
        } else {
            None
        },
    )
}

/// The key of lock group `j`: an item of an existing bottle below its top
/// item, not joined in one pour with the item above it, outside its own
/// group, and no other group's key.
pub open spec fn key_error(s: StartingView, j: int) -> Option<StartError> {
    let key = s.lock_group_keys[j];
    let range = s.lock_group_ranges[j];
    let bottle = key.0 as int;
    let item = key.1 as int;
    let v = start_state(s);
    if bottle == 0 {
        Some(StartError::KeyBottleZero)
    } else if bottle > s.content.len() {
        Some(StartError::KeyBottleRange)
    } else if item >= bottle_len(s, bottle) {
        Some(StartError::KeyItemRange)
    } else if item == bottle_len(s, bottle) - 1 {
        Some(StartError::KeyOnTop)
    } else if pour_include_view(v, bottle, item, s.content[bottle - 1][item + 1] as int)
        && pour_include_view(v, bottle, item + 1, s.content[bottle - 1][item + 1] as int) {
        Some(StartError::KeyNotFirst)
    } else if range.0 <= bottle < range.1 {
        Some(StartError::KeyInsideItself)
    } else if exists|k: int| 0 <= k < j && #[trigger] s.lock_group_keys[k] == key {
        Some(StartError::KeyDuplicate)
    } else {
        None
    }
}

/// The first refused key, from group `j` on.
pub open spec fn key_error_from(s: StartingView, j: int) -> Option<StartError>
    decreases s.lock_group_keys.len() - j,
{
    if j >= s.lock_group_keys.len() {
        None
    } else if key_error(s, j) is Some {
        key_error(s, j)
    } else {
        key_error_from(s, j + 1)
    }
}

/// The checks on the lock groups, in order.
pub open spec fn lock_error(s: StartingView) -> Option<StartError> {
    if s.lock_group_ranges.len() != s.lock_group_keys.len() {
        Some(StartError::LockGroupCountMismatch)
    } else {
        or_else(run_error(s.lock_group_ranges, s.content.len() as int), key_error_from(s, 0))
    }
}

/// How many of curtain, safe and lock a bottle has.
pub open spec fn feature_count(v: StateView, b: int) -> int {
    (if v.behind_curtain[b] {
        1int
    } else {
        0int
    }) + (if v.safe_counter[b] != 0 {
        1int
    } else {
        0int
    }) + (if v.bottle_locked[b] {
        1int
    } else {
        0int
    })
}

/// Every check but the last, in order.
pub open spec fn start_error_before_final(s: StartingView) -> Option<StartError> {
    let n = s.content.len() as int;
    or_else(
        shape_error(s),
        or_else(
            color_error(all_items(s)),
            or_else(
                first_error(s.hidden_items, |p: (u8, u8)| hidden_error(s, p)),
                or_else(
                    first_error(s.locked_items, |p: (u8, u8)| locked_error(s, p)),
                    or_else(
                        first_error(s.immovable_bottles, |b: u8| immovable_error(s, b)),
                        or_else(
                            first_error(s.pluggable_bottles, |p: (u8, bool)| pluggable_error(s, p)),
                            or_else(
                                run_error(s.frozen_bottle_ranges, n),
                                or_else(
                                    run_error(s.curtain_ranges, n),
                                    or_else(
                                        first_error(s.safes, |p: (u8, u8)| safe_error(s, p)),
                                        or_else(
                                            lock_error(s),
                                            or_else(
                                                if exists|b: int|
                                                    1 <= b <= n && feature_count(start_state(s), b)
                                                        > 1 {
                                                    Some(StartError::TooManyFeatures)
                                                } else {
                                                    None
                                                },
                                                or_else(
                                                    first_error(
                                                        s.colored_bottles,
                                                        |p: (u8, u8)| colored_error(s, p),
                                                    ),
                                                    first_error(
                                                        s.color_curtains,
                                                        |p: (u8, u8)| color_curtain_error(s, p),
                                                    ),
                                                ),
                                            ),
                                        ),
                                    ),
                                ),
                            ),
                        ),
                    ),
                ),
            ),
        ),
    )
}

/// Every check on a starting description, in the order they are made; the
/// last refuses a bottle that would already count as solved.
pub open spec fn start_error(s: StartingView) -> Option<StartError> {
    or_else(
        start_error_before_final(s),
        if exists|b: int|
            1 <= b <= s.content.len() && finalized_after(start_state(s), b, 0, 0) {
            Some(StartError::FinalizedBottle)
        } else {
            None
        },
    )
}

/// The value given to bottle `b` by the last entry of `list` for it, or zero.
pub open spec fn last_value(list: Seq<(u8, u8)>, b: int) -> u8
    decreases list.len(),
{
    if list.len() == 0 {
        0
    } else if list.last().0 == b {
        list.last().1
    } else {
        last_value(list.drop_last(), b)
    }
}

/// The flag given to bottle `b` by the last entry of `list` for it, or false.
pub open spec fn last_flag(list: Seq<(u8, bool)>, b: int) -> bool
    decreases list.len(),
{
    if list.len() == 0 {
        false
    } else if list.last().0 == b {
        list.last().1
    } else {
        last_flag(list.drop_last(), b)
    }
}

/// The key item index of the last lock group among `ranges` that holds
/// bottle `b`, or zero.
pub open spec fn key_of(ranges: Seq<(u8, u8)>, keys: Seq<(u8, u8)>, b: int) -> u16
    decreases ranges.len(),
{
    if ranges.len() == 0 {
        0
    } else if ranges.last().0 <= b < ranges.last().1 {
        item_index(keys[ranges.len() - 1].0 as int, keys[ranges.len() - 1].1 as int) as u16
    } else {
        key_of(ranges.drop_last(), keys, b)
    }
}

/// The bottles, their capacities and their items, on an otherwise empty
/// state.
pub open spec fn start_base(s: StartingView) -> StateView {
    let n = s.content.len() as int;
    StateView {
        bottle_count: n as nat,
        height: Seq::new(32, |b: int| if 1 <= b <= n { bottle_len(s, b) as u8 } else { 0u8 }),
        capacity: Seq::new(32, |b: int| if 1 <= b <= n { s.capacity[b - 1] } else { 0u8 }),
        content: Seq::new(
            32,
            |b: int|
                Seq::new(
                    16,
                    |i: int|
                        if 1 <= b <= n && i < bottle_len(s, b) {
                            s.content[b - 1][i]
                        } else {
                            0u8
                        },
                ),
        ),
        ..zero_view()
    }
}

/// The state that a valid starting description describes.
pub open spec fn start_state(s: StartingView) -> StateView {
    let n = s.content.len() as int;
    StateView {
        color_count: Seq::new(16, |c: int| occurrences(all_items(s), c as u8) as u8),
        hidden: Seq::new(
            32,
            |b: int|
                Seq::new(
                    16,
                    |i: int|
                        exists|j: int|
                            0 <= j < s.hidden_items.len() && (#[trigger] s.hidden_items[j]).0 == b
                                && s.hidden_items[j].1 == i,
                ),
        ),
        item_locked: Seq::new(
            32,
            |b: int|
                Seq::new(
                    16,
                    |i: int|
                        exists|j: int|
                            0 <= j < s.locked_items.len() && (#[trigger] s.locked_items[j]).0 == b
                                && s.locked_items[j].1 == i,
                ),
        ),
        immovable: Seq::new(
            32,
            |b: int|
                exists|j: int| 0 <= j < s.immovable_bottles.len() && #[trigger] s.immovable_bottles[j] == b,
        ),
        pluggable: Seq::new(
            32,
            |b: int|
                exists|j: int|
                    0 <= j < s.pluggable_bottles.len() && (#[trigger] s.pluggable_bottles[j]).0 == b,
        ),
        plugged: Seq::new(32, |b: int| last_flag(s.pluggable_bottles, b)),
        frozen_run: run_flags(s.frozen_bottle_ranges, n),
        frozen: Seq::new(32, |b: int| in_ranges(s.frozen_bottle_ranges, b)),
        curtain_from: Seq::new(
            32,
            |k: int| if k < s.curtain_ranges.len() { s.curtain_ranges[k].0 } else { 0u8 },
        ),
        curtain_to: Seq::new(
            32,
            |k: int| if k < s.curtain_ranges.len() { s.curtain_ranges[k].1 } else { 0u8 },
        ),
        behind_curtain: Seq::new(32, |b: int| in_ranges(s.curtain_ranges, b)),
        safe_counter: Seq::new(32, |b: int| last_value(s.safes, b)),
        has_key: Seq::new(
            32,
            |b: int|
                Seq::new(
                    16,
                    |i: int|
                        exists|j: int|
                            0 <= j < s.lock_group_keys.len() && (#[trigger] s.lock_group_keys[j]).0
                                == b && s.lock_group_keys[j].1 == i,
                ),
        ),
        bottle_key: Seq::new(32, |b: int| key_of(s.lock_group_ranges, s.lock_group_keys, b)),
        bottle_locked: Seq::new(32, |b: int| in_ranges(s.lock_group_ranges, b)),
        bottle_color: Seq::new(32, |b: int| last_value(s.colored_bottles, b)),
        color_curtain: Seq::new(32, |b: int| last_value(s.color_curtains, b)),
        color_curtain_active: Seq::new(
            32,
            |b: int|
                exists|j: int| 0 <= j < s.color_curtains.len() && (#[trigger] s.color_curtains[j]).0 == b,
        ),
        ..start_base(s)
    }
}


/// The checks on the bottles themselves.
fn shape_check(s: &StartingState) -> (r: Option<StartError>)
    ensures
        r == shape_error(s@),
{
    let n = s.content.len();
    if n >= BOTTLE_COUNT {
        return Some(StartError::TooManyBottles);
    }
    if n != s.capacity.len() {
        return Some(StartError::LengthMismatch);
    }
    let ghost v = s@;
    let mut b: usize = 0;
    while b < n
        invariant
            n == v.content.len(),
            n == v.capacity.len(),
            n < BOTTLE_COUNT,
            v == s@,
            0 <= b <= n,
            forall|q: int| 0 <= q < b ==> (#[trigger] v.content[q]).len() <= ITEM_COUNT,
        decreases n - b,
    {
        if s.content[b].len() > ITEM_COUNT {
            assert(v.content[b as int].len() > ITEM_COUNT);
            return Some(StartError::BottleItemCountTooLarge);
        }
        b = b + 1;
    }
    let mut b: usize = 0;
    while b < n
        invariant
            n == v.content.len(),
            n == v.capacity.len(),
            n < BOTTLE_COUNT,
            v == s@,
            0 <= b <= n,
            forall|q: int| 0 <= q < n ==> (#[trigger] v.content[q]).len() <= ITEM_COUNT,
            forall|q: int| 0 <= q < b ==> #[trigger] v.capacity[q] != 0,
        decreases n - b,
    {
        if s.capacity[b] == 0 {
            assert(v.capacity[b as int] == 0);
            return Some(StartError::CapacityZero);
        }
        b = b + 1;
    }
    let mut b: usize = 0;
    while b < n
        invariant
            n == v.content.len(),
            n == v.capacity.len(),
            n < BOTTLE_COUNT,
            v == s@,
            0 <= b <= n,
            forall|q: int| 0 <= q < n ==> (#[trigger] v.content[q]).len() <= ITEM_COUNT,
            forall|q: int| 0 <= q < n ==> #[trigger] v.capacity[q] != 0,
            forall|q: int| 0 <= q < b ==> #[trigger] v.capacity[q] <= ITEM_COUNT,
        decreases n - b,
    {
        if s.capacity[b] as usize > ITEM_COUNT {
            assert(v.capacity[b as int] > ITEM_COUNT);
            return Some(StartError::CapacityTooLarge);
        }
        b = b + 1;
    }
    let mut b: usize = 0;
    while b < n
        invariant
            n == v.content.len(),
            n == v.capacity.len(),
            n < BOTTLE_COUNT,
            v == s@,
            0 <= b <= n,
            forall|q: int| 0 <= q < n ==> (#[trigger] v.content[q]).len() <= ITEM_COUNT,
            forall|q: int| 0 <= q < n ==> #[trigger] v.capacity[q] != 0,
            forall|q: int| 0 <= q < n ==> #[trigger] v.capacity[q] <= ITEM_COUNT,
            forall|q: int| 0 <= q < b ==> (#[trigger] v.content[q]).len() <= v.capacity[q],
        decreases n - b,
    {
        if s.content[b].len() > s.capacity[b] as usize {
            assert(v.content[b as int].len() > v.capacity[b as int]);
            return Some(StartError::HeightExceedsCapacity);
        }
        b = b + 1;
    }
    None
}


/// The bottles `1..=b` filled in, and the lowest `i` items of bottle `b + 1`,
/// with the heights and capacities of the bottles `1..=h`.
spec fn filled_upto(s: StartingView, b: int, i: int, h: int) -> StateView {
    StateView {
        bottle_count: s.content.len() as nat,
        height: Seq::new(32, |q: int| if 1 <= q <= h { bottle_len(s, q) as u8 } else { 0u8 }),
        capacity: Seq::new(32, |q: int| if 1 <= q <= h { s.capacity[q - 1] } else { 0u8 }),
        content: Seq::new(
            32,
            |q: int|
                Seq::new(
                    16,
                    |k: int|
                        if 1 <= q <= b && k < bottle_len(s, q) {
                            s.content[q - 1][k]
                        } else if q == b + 1 && k < i {
                            s.content[b][k]
                        } else {
                            0u8
                        },
                ),
        ),
        ..zero_view()
    }
}

proof fn lemma_occurrences_push(items: Seq<u8>, x: u8, c: u8)
    ensures
        occurrences(items.push(x), c) == occurrences(items, c) + if x == c {
            1nat
        } else {
            0nat
        },
{
    assert(items.push(x).drop_last() =~= items);
}

proof fn lemma_color_error_push(items: Seq<u8>, x: u8)
    ensures
        color_error(items.push(x)) == if color_error(items) is Some {
            color_error(items)
        } else if x == 0 || x >= COLOR_COUNT {
            Some(StartError::InvalidColor)
        } else if occurrences(items, x) >= ITEM_COUNT - 1 {
            Some(StartError::TooManyItemsOfColor)
        } else {
            None
        },
{
    assert(items.push(x).drop_last() =~= items);
}

/// Fills in the bottles and counts the items of each color.
fn fill_content(state: &mut State, s: &StartingState) -> (r: Option<StartError>)
    requires
        shape_error(s@) is None,
        old(state)@ == (StateView { bottle_count: s@.content.len() as nat, ..zero_view() }),
    ensures
        r == color_error(all_items(s@)),
        r is None ==> final(state)@ == (StateView {
            color_count: start_state(s@).color_count,
            ..start_base(s@)
        }),
{
    let ghost v = s@;
    let n = s.content.len();
    let mut counts: Vec<u8> = Vec::new();
    let mut c: usize = 0;
    while c < COLOR_COUNT
        invariant
            0 <= c <= COLOR_COUNT,
            counts@.len() == c,
            forall|k: int| 0 <= k < c ==> #[trigger] counts@[k] == 0,
        decreases COLOR_COUNT - c,
    {
        counts.push(0);
        c = c + 1;
    }
    assert(v.content.take(0).flatten() =~= Seq::<u8>::empty());
    assert(filled_upto(v, 0, 0, 0) =~~= state@);
    let mut b: usize = 0;
    while b < n
        invariant
            v == s@,
            n == v.content.len(),
            shape_error(v) is None,
            0 <= b <= n,
            counts@.len() == COLOR_COUNT,
            forall|k: int| 0 <= k < COLOR_COUNT ==> #[trigger] counts@[k] == occurrences(
                v.content.take(b as int).flatten(),
                k as u8,
            ),
            color_error(v.content.take(b as int).flatten()) is None,
            state@ == filled_upto(v, b as int, 0, b as int),
        decreases n - b,
    {
        let bottle = &s.content[b];
        assert(bottle@ == v.content[b as int]);
        assert(v.content[b as int].len() <= ITEM_COUNT);
        assert(v.content[b as int].len() <= v.capacity[b as int]);
        let len = bottle.len();
        let index = (b + 1) as u8;
        state.set_capacity(index, s.capacity[b]);
        state.set_height(index, len as u8);
        let ghost done = v.content.take(b as int).flatten();
        assert(state@ =~= filled_upto(v, b as int, 0, b + 1));
        let mut i: usize = 0;
        while i < len
            invariant
                v == s@,
                n == v.content.len(),
                shape_error(v) is None,
                0 <= b < n,
                index == b + 1,
                bottle@ == v.content[b as int],
                len == bottle@.len(),
                len <= ITEM_COUNT,
                0 <= i <= len,
                done == v.content.take(b as int).flatten(),
                counts@.len() == COLOR_COUNT,
                forall|k: int| 0 <= k < COLOR_COUNT ==> #[trigger] counts@[k] == occurrences(
                    done + bottle@.take(i as int),
                    k as u8,
                ),
                color_error(done + bottle@.take(i as int)) is None,
                state@ == filled_upto(v, b as int, i as int, b + 1),
            decreases len - i,
        {
            let color = bottle[i];
            let ghost before = done + bottle@.take(i as int);
            assert(done + bottle@.take(i + 1) =~= before.push(color));
            proof {
                lemma_color_error_push(before, color);
                lemma_flatten_split(v.content, b as int, i + 1);
                if color_error(before.push(color)) is Some {
                    lemma_color_error_prefix(
                        before.push(color),
                        bottle@.skip(i + 1) + v.content.skip(b + 1).flatten(),
                    );
                    assert(all_items(v) =~= before.push(color) + (bottle@.skip(i + 1)
                        + v.content.skip(b + 1).flatten()));
                }
            }
            if color == 0 || color as usize >= COLOR_COUNT {
                return Some(StartError::InvalidColor);
            }
            state.set_color(index, i as u8, color);
            let count = counts[color as usize];
            if count as usize >= ITEM_COUNT - 1 {
                return Some(StartError::TooManyItemsOfColor);
            }
            counts.set(color as usize, count + 1);
            proof {
                assert forall|k: int| 0 <= k < COLOR_COUNT implies #[trigger] counts@[k] == occurrences(
                    before.push(color),
                    k as u8,
                ) by {
                    lemma_occurrences_push(before, color, k as u8);
                }
            }
            i = i + 1;
            assert(state@ =~~= filled_upto(v, b as int, i as int, b + 1));
        }
        proof {
            assert(bottle@.take(len as int) =~= bottle@);
            assert(v.content.take(b + 1) =~= v.content.take(b as int).push(v.content[b as int]));
            v.content.take(b as int).lemma_flatten_push(v.content[b as int]);
        }
        b = b + 1;
        assert(state@ =~~= filled_upto(v, b as int, 0, b as int));
    }
    assert(v.content.take(n as int) =~= v.content);
    let mut c: usize = 1;
    while c < COLOR_COUNT
        invariant
            v == s@,
            n == v.content.len(),
            1 <= c <= COLOR_COUNT,
            counts@.len() == COLOR_COUNT,
            forall|k: int| 0 <= k < COLOR_COUNT ==> #[trigger] counts@[k] == occurrences(
                all_items(v),
                k as u8,
            ),
            state@ == (StateView {
                color_count: Seq::new(
                    16,
                    |k: int| if 1 <= k < c { occurrences(all_items(v), k as u8) as u8 } else { 0u8 },
                ),
                ..filled_upto(v, n as int, 0, n as int)
            }),
        decreases COLOR_COUNT - c,
    {
        state.set_color_count(c as u8, counts[c]);
        c = c + 1;
        assert(state@.color_count =~= Seq::new(
            16,
            |k: int| if 1 <= k < c { occurrences(all_items(v), k as u8) as u8 } else { 0u8 },
        ));
    }
    proof {
        lemma_no_color_zero(all_items(v));
        assert(filled_upto(v, n as int, 0, n as int) =~~= start_base(v));
        assert(state@.color_count =~= start_state(v).color_count);
    }
    None
}

/// The items of all bottles, split after item `i` of bottle `b`.
proof fn lemma_flatten_split(content: Seq<Seq<u8>>, b: int, i: int)
    requires
        0 <= b < content.len(),
        0 <= i <= content[b].len(),
    ensures
        content.flatten() =~= content.take(b).flatten() + content[b].take(i) + (content[b].skip(i)
            + content.skip(b + 1).flatten()),
{
    assert(content =~= content.take(b) + (seq![content[b]] + content.skip(b + 1)));
    lemma_flatten_concat(content.take(b), seq![content[b]] + content.skip(b + 1));
    lemma_flatten_concat(seq![content[b]], content.skip(b + 1));
    seq![content[b]].lemma_flatten_one_element();
    assert(content[b] =~= content[b].take(i) + content[b].skip(i));
}

/// A refusal within the first items stays the refusal of the whole.
proof fn lemma_color_error_prefix(a: Seq<u8>, b: Seq<u8>)
    requires
        color_error(a) is Some,
    ensures
        color_error(a + b) == color_error(a),
    decreases b.len(),
{
    if b.len() == 0 {
        assert(a + b =~= a);
    } else {
        lemma_color_error_prefix(a, b.drop_last());
        assert(a + b =~= (a + b.drop_last()).push(b.last()));
        lemma_color_error_push(a + b.drop_last(), b.last());
    }
}

/// Without a refusal, no item has color zero.
proof fn lemma_no_color_zero(items: Seq<u8>)
    requires
        color_error(items) is None,
    ensures
        occurrences(items, 0) == 0,
    decreases items.len(),
{
    if items.len() > 0 {
        lemma_no_color_zero(items.drop_last());
    }
}


/// Marks the hidden items.
fn mark_hidden(state: &mut State, s: &StartingState) -> (r: Option<StartError>)
    requires
        shape_error(s@) is None,
        old(state)@.hidden == zero_view().hidden,
    ensures
        r == first_error(s@.hidden_items, |p: (u8, u8)| hidden_error(s@, p)),
        r is None ==> final(state)@ == (StateView { hidden: start_state(s@).hidden, ..old(state)@ }),
{
    let ghost v = s@;
    let ghost orig = state@;
    let n = s.content.len();
    let list = &s.hidden_items;
    let mut j: usize = 0;
    assert(state@ =~~= (StateView {
        hidden: Seq::new(
            32,
            |b: int|
                Seq::new(
                    16,
                    |i: int|
                        exists|k: int| 0 <= k < j && (#[trigger] list@[k]).0 == b && list@[k].1 == i,
                ),
        ),
        ..orig
    }));
    while j < list.len()
        invariant
            v == s@,
            n == v.content.len(),
            shape_error(v) is None,
            list@ == v.hidden_items,
            0 <= j <= list@.len(),
            first_error(v.hidden_items, |p: (u8, u8)| hidden_error(s@, p)) == first_error_from(
                v.hidden_items,
                |p: (u8, u8)| hidden_error(s@, p),
                j as int,
            ),
            state@ == (StateView {
                hidden: Seq::new(
                    32,
                    |b: int|
                        Seq::new(
                            16,
                            |i: int|
                                exists|k: int|
                                    0 <= k < j && (#[trigger] list@[k]).0 == b && list@[k].1 == i,
                        ),
                ),
                ..orig
            }),
        decreases list@.len() - j,
    {
        let (bottle, item) = list[j];
        if bottle == 0 {
            return Some(StartError::HiddenItemBottleZero);
        }
        if bottle as usize > n {
            return Some(StartError::HiddenItemBottleRange);
        }
        let len = s.content[bottle as usize - 1].len();
        assert(len == bottle_len(v, bottle as int));
        let top = if len > 0 {
            len - 1
        } else {
            0
        };
        if item as usize >= top {
            return Some(StartError::HiddenItemRange);
        }
        assert(v.content[bottle - 1].len() <= ITEM_COUNT);
        state.set_item_hidden(bottle, item, true);
        j = j + 1;
        assert(state@ =~~= (StateView {
            hidden: Seq::new(
                32,
                |b: int|
                    Seq::new(
                        16,
                        |i: int|
                            exists|k: int| 0 <= k < j && (#[trigger] list@[k]).0 == b && list@[k].1 == i,
                    ),
            ),
            ..orig
        }));
    }
    assert(state@ =~~= (StateView { hidden: start_state(v).hidden, ..orig }));
    None
}


/// Marks the locked items.
fn mark_locked(state: &mut State, s: &StartingState) -> (r: Option<StartError>)
    requires
        shape_error(s@) is None,
        old(state)@.item_locked == zero_view().item_locked,
    ensures
        r == first_error(s@.locked_items, |p: (u8, u8)| locked_error(s@, p)),
        r is None ==> final(state)@ == (StateView {
            item_locked: start_state(s@).item_locked,
            ..old(state)@
        }),
{
    let ghost v = s@;
    let ghost orig = state@;
    let n = s.content.len();
    let list = &s.locked_items;
    let mut j: usize = 0;
    assert(state@ =~~= (StateView {
        item_locked: Seq::new(
            32,
            |b: int|
                Seq::new(
                    16,
                    |i: int|
                        exists|k: int| 0 <= k < j && (#[trigger] list@[k]).0 == b && list@[k].1 == i,
                ),
        ),
        ..orig
    }));
    while j < list.len()
        invariant
            v == s@,
            n == v.content.len(),
            shape_error(v) is None,
            list@ == v.locked_items,
            0 <= j <= list@.len(),
            first_error(v.locked_items, |p: (u8, u8)| locked_error(s@, p)) == first_error_from(
                v.locked_items,
                |p: (u8, u8)| locked_error(s@, p),
                j as int,
            ),
            state@ == (StateView {
                item_locked: Seq::new(
                    32,
                    |b: int|
                        Seq::new(
                            16,
                            |i: int|
                                exists|k: int|
                                    0 <= k < j && (#[trigger] list@[k]).0 == b && list@[k].1 == i,
                        ),
                ),
                ..orig
            }),
        decreases list@.len() - j,
    {
        let (bottle, item) = list[j];
        if bottle == 0 {
            return Some(StartError::LockedItemBottleZero);
        }
        if bottle as usize > n {
            return Some(StartError::LockedItemBottleRange);
        }
        let len = s.content[bottle as usize - 1].len();
        assert(len == bottle_len(v, bottle as int));
        if item as usize >= len {
            return Some(StartError::LockedItemRange);
        }
        assert(v.content[bottle - 1].len() <= ITEM_COUNT);
        state.set_item_locked(bottle, item, true);
        j = j + 1;
        assert(state@ =~~= (StateView {
            item_locked: Seq::new(
                32,
                |b: int|
                    Seq::new(
                        16,
                        |i: int|
                            exists|k: int| 0 <= k < j && (#[trigger] list@[k]).0 == b && list@[k].1 == i,
                    ),
            ),
            ..orig
        }));
    }
    assert(state@ =~~= (StateView { item_locked: start_state(v).item_locked, ..orig }));
    None
}

/// Marks the immovable bottles.
fn mark_immovable(state: &mut State, s: &StartingState) -> (r: Option<StartError>)
    requires
        shape_error(s@) is None,
        old(state)@.immovable == zero_view().immovable,
    ensures
        r == first_error(s@.immovable_bottles, |b: u8| immovable_error(s@, b)),
        r is None ==> final(state)@ == (StateView {
            immovable: start_state(s@).immovable,
            ..old(state)@
        }),
{
    let ghost v = s@;
    let ghost orig = state@;
    let n = s.content.len();
    let list = &s.immovable_bottles;
    let mut j: usize = 0;
    assert(state@ =~~= (StateView {
        immovable: Seq::new(32, |b: int| exists|k: int| 0 <= k < j && #[trigger] list@[k] == b),
        ..orig
    }));
    while j < list.len()
        invariant
            v == s@,
            n == v.content.len(),
            shape_error(v) is None,
            list@ == v.immovable_bottles,
            0 <= j <= list@.len(),
            first_error(v.immovable_bottles, |b: u8| immovable_error(s@, b)) == first_error_from(
                v.immovable_bottles,
                |b: u8| immovable_error(s@, b),
                j as int,
            ),
            state@ == (StateView {
                immovable: Seq::new(32, |b: int| exists|k: int| 0 <= k < j && #[trigger] list@[k] == b),
                ..orig
            }),
        decreases list@.len() - j,
    {
        let bottle = list[j];
        if bottle == 0 {
            return Some(StartError::ImmovableBottleZero);
        }
        if bottle as usize > n {
            return Some(StartError::ImmovableBottleRange);
        }
        state.set_bottle_immovable(bottle, true);
        j = j + 1;
        assert(state@ =~~= (StateView {
            immovable: Seq::new(32, |b: int| exists|k: int| 0 <= k < j && #[trigger] list@[k] == b),
            ..orig
        }));
    }
    assert(state@ =~~= (StateView { immovable: start_state(v).immovable, ..orig }));
    None
}

/// Marks the pluggable bottles and plugs those that start plugged.
fn mark_pluggable(state: &mut State, s: &StartingState) -> (r: Option<StartError>)
    requires
        shape_error(s@) is None,
        old(state)@.pluggable == zero_view().pluggable,
        old(state)@.plugged == zero_view().plugged,
    ensures
        r == first_error(s@.pluggable_bottles, |p: (u8, bool)| pluggable_error(s@, p)),
        r is None ==> final(state)@ == (StateView {
            pluggable: start_state(s@).pluggable,
            plugged: start_state(s@).plugged,
            ..old(state)@
        }),
{
    let ghost v = s@;
    let ghost orig = state@;
    let n = s.content.len();
    let list = &s.pluggable_bottles;
    let mut j: usize = 0;
    assert(state@ =~~= (StateView {
        pluggable: Seq::new(32, |b: int| exists|k: int| 0 <= k < j && (#[trigger] list@[k]).0 == b),
        plugged: Seq::new(32, |b: int| last_flag(list@.take(j as int), b)),
        ..orig
    }));
    while j < list.len()
        invariant
            v == s@,
            n == v.content.len(),
            shape_error(v) is None,
            list@ == v.pluggable_bottles,
            0 <= j <= list@.len(),
            first_error(v.pluggable_bottles, |p: (u8, bool)| pluggable_error(s@, p))
                == first_error_from(
                v.pluggable_bottles,
                |p: (u8, bool)| pluggable_error(s@, p),
                j as int,
            ),
            state@ == (StateView {
                pluggable: Seq::new(
                    32,
                    |b: int| exists|k: int| 0 <= k < j && (#[trigger] list@[k]).0 == b,
                ),
                plugged: Seq::new(32, |b: int| last_flag(list@.take(j as int), b)),
                ..orig
            }),
        decreases list@.len() - j,
    {
        let (bottle, plugged) = list[j];
        if bottle == 0 {
            return Some(StartError::PluggableBottleZero);
        }
        if bottle as usize > n {
            return Some(StartError::PluggableBottleRange);
        }
        state.set_pluggable_bottle(bottle, true);
        state.set_bottle_plugged(bottle, plugged);
        assert(list@.take(j + 1).drop_last() =~= list@.take(j as int));
        j = j + 1;
        assert(state@ =~~= (StateView {
            pluggable: Seq::new(
                32,
                |b: int| exists|k: int| 0 <= k < j && (#[trigger] list@[k]).0 == b,
            ),
            plugged: Seq::new(32, |b: int| last_flag(list@.take(j as int), b)),
            ..orig
        }));
    }
    assert(list@.take(j as int) =~= list@);
    assert(state@ =~~= (StateView {
        pluggable: start_state(v).pluggable,
        plugged: start_state(v).plugged,
        ..orig
    }));
    None
}


/// Marks the freezing groups and freezes their bottles.
fn mark_frozen(state: &mut State, s: &StartingState) -> (r: Option<StartError>)
    requires
        shape_error(s@) is None,
        old(state)@.bottle_count == s@.content.len(),
    ensures
        r == run_error(s@.frozen_bottle_ranges, s@.content.len() as int),
        r is None ==> final(state)@ == (StateView {
            frozen_run: start_state(s@).frozen_run,
            frozen: start_state(s@).frozen,
            ..old(state)@
        }),
{
    match state.compute_run(&s.frozen_bottle_ranges) {
        Err(e) => Some(e),
        Ok((run, set)) => {
            state.set_frozen_bits(run, set);
            None
        },
    }
}

/// Puts the bottles of each curtain group behind its curtain.
fn mark_curtains(state: &mut State, s: &StartingState) -> (r: Option<StartError>)
    requires
        shape_error(s@) is None,
        old(state)@.bottle_count == s@.content.len(),
        old(state)@.curtain_from == zero_view().curtain_from,
        old(state)@.curtain_to == zero_view().curtain_to,
    ensures
        r == run_error(s@.curtain_ranges, s@.content.len() as int),
        r is None ==> final(state)@ == (StateView {
            curtain_from: start_state(s@).curtain_from,
            curtain_to: start_state(s@).curtain_to,
            behind_curtain: start_state(s@).behind_curtain,
            ..old(state)@
        }),
{
    let ghost v = s@;
    let set = match state.compute_run(&s.curtain_ranges) {
        Err(e) => {
            return Some(e);
        },
        Ok((_, set)) => set,
    };
    state.set_behind_curtain_bits(set);
    let ghost orig = state@;
    let list = &s.curtain_ranges;
    proof {
        crate::ranges::lemma_ranges_len(list@, v.content.len() as int);
    }
    let mut k: usize = 0;
    assert(state@ =~~= (StateView {
        curtain_from: Seq::new(32, |q: int| if q < k { list@[q].0 } else { 0u8 }),
        curtain_to: Seq::new(32, |q: int| if q < k { list@[q].1 } else { 0u8 }),
        ..orig
    }));
    while k < list.len()
        invariant
            v == s@,
            list@ == v.curtain_ranges,
            list@.len() <= v.content.len() < BOTTLE_COUNT,
            0 <= k <= list@.len(),
            state@ == (StateView {
                curtain_from: Seq::new(32, |q: int| if q < k { list@[q].0 } else { 0u8 }),
                curtain_to: Seq::new(32, |q: int| if q < k { list@[q].1 } else { 0u8 }),
                ..orig
            }),
        decreases list@.len() - k,
    {
        let (from, to) = list[k];
        state.set_curtain_range(k as u8, from, to);
        k = k + 1;
        assert(state@ =~~= (StateView {
            curtain_from: Seq::new(32, |q: int| if q < k { list@[q].0 } else { 0u8 }),
            curtain_to: Seq::new(32, |q: int| if q < k { list@[q].1 } else { 0u8 }),
            ..orig
        }));
    }
    assert(state@ =~~= (StateView {
        curtain_from: start_state(v).curtain_from,
        curtain_to: start_state(v).curtain_to,
        behind_curtain: start_state(v).behind_curtain,
        ..old(state)@
    }));
    None
}

/// Puts bottles into safes with their counters.
fn mark_safes(state: &mut State, s: &StartingState) -> (r: Option<StartError>)
    requires
        shape_error(s@) is None,
        old(state)@.safe_counter == zero_view().safe_counter,
    ensures
        r == first_error(s@.safes, |p: (u8, u8)| safe_error(s@, p)),
        r is None ==> final(state)@ == (StateView {
            safe_counter: start_state(s@).safe_counter,
            ..old(state)@
        }),
{
    let ghost v = s@;
    let ghost orig = state@;
    let n = s.content.len();
    let list = &s.safes;
    let mut j: usize = 0;
    assert(state@ =~~= (StateView {
        safe_counter: Seq::new(32, |b: int| last_value(list@.take(j as int), b)),
        ..orig
    }));
    while j < list.len()
        invariant
            v == s@,
            n == v.content.len(),
            shape_error(v) is None,
            list@ == v.safes,
            0 <= j <= list@.len(),
            first_error(v.safes, |p: (u8, u8)| safe_error(s@, p)) == first_error_from(
                v.safes,
                |p: (u8, u8)| safe_error(s@, p),
                j as int,
            ),
            state@ == (StateView {
                safe_counter: Seq::new(32, |b: int| last_value(list@.take(j as int), b)),
                ..orig
            }),
        decreases list@.len() - j,
    {
        let (bottle, counter) = list[j];
        if bottle == 0 {
            return Some(StartError::SafeBottleZero);
        }
        if bottle as usize > n {
            return Some(StartError::SafeBottleRange);
        }
        if counter as usize > MAX_SAFE_COUNTER {
            return Some(StartError::SafeCounterRange);
        }
        state.set_safe_counter(bottle, counter);
        assert(list@.take(j + 1).drop_last() =~= list@.take(j as int));
        j = j + 1;
        assert(state@ =~~= (StateView {
            safe_counter: Seq::new(32, |b: int| last_value(list@.take(j as int), b)),
            ..orig
        }));
    }
    assert(list@.take(j as int) =~= list@);
    assert(state@ =~~= (StateView { safe_counter: start_state(v).safe_counter, ..orig }));
    None
}

/// Gives bottles the one color they take.
fn mark_colored(state: &mut State, s: &StartingState) -> (r: Option<StartError>)
    requires
        shape_error(s@) is None,
        old(state)@.bottle_color == zero_view().bottle_color,
    ensures
        r == first_error(s@.colored_bottles, |p: (u8, u8)| colored_error(s@, p)),
        r is None ==> final(state)@ == (StateView {
            bottle_color: start_state(s@).bottle_color,
            ..old(state)@
        }),
{
    let ghost v = s@;
    let ghost orig = state@;
    let n = s.content.len();
    let list = &s.colored_bottles;
    let mut j: usize = 0;
    assert(state@ =~~= (StateView {
        bottle_color: Seq::new(32, |b: int| last_value(list@.take(j as int), b)),
        ..orig
    }));
    while j < list.len()
        invariant
            v == s@,
            n == v.content.len(),
            shape_error(v) is None,
            list@ == v.colored_bottles,
            0 <= j <= list@.len(),
            first_error(v.colored_bottles, |p: (u8, u8)| colored_error(s@, p)) == first_error_from(
                v.colored_bottles,
                |p: (u8, u8)| colored_error(s@, p),
                j as int,
            ),
            state@ == (StateView {
                bottle_color: Seq::new(32, |b: int| last_value(list@.take(j as int), b)),
                ..orig
            }),
        decreases list@.len() - j,
    {
        let (bottle, color) = list[j];
        if bottle == 0 {
            return Some(StartError::ColoredBottleZero);
        }
        if bottle as usize > n {
            return Some(StartError::ColoredBottleRange);
        }
        if color == 0 || color as usize >= COLOR_COUNT {
            return Some(StartError::ColoredBottleColor);
        }
        state.set_bottle_color(bottle, color);
        assert(list@.take(j + 1).drop_last() =~= list@.take(j as int));
        j = j + 1;
        assert(state@ =~~= (StateView {
            bottle_color: Seq::new(32, |b: int| last_value(list@.take(j as int), b)),
            ..orig
        }));
    }
    assert(list@.take(j as int) =~= list@);
    assert(state@ =~~= (StateView { bottle_color: start_state(v).bottle_color, ..orig }));
    None
}

/// Puts bottles behind color curtains.
fn mark_color_curtains(state: &mut State, s: &StartingState) -> (r: Option<StartError>)
    requires
        shape_error(s@) is None,
        old(state)@.color_curtain == zero_view().color_curtain,
        old(state)@.color_curtain_active == zero_view().color_curtain_active,
    ensures
        r == first_error(s@.color_curtains, |p: (u8, u8)| color_curtain_error(s@, p)),
        r is None ==> final(state)@ == (StateView {
            color_curtain: start_state(s@).color_curtain,
            color_curtain_active: start_state(s@).color_curtain_active,
            ..old(state)@
        }),
{
    let ghost v = s@;
    let ghost orig = state@;
    let n = s.content.len();
    let list = &s.color_curtains;
    let mut j: usize = 0;
    assert(state@ =~~= (StateView {
        color_curtain: Seq::new(32, |b: int| last_value(list@.take(j as int), b)),
        color_curtain_active: Seq::new(
            32,
            |b: int| exists|k: int| 0 <= k < j && (#[trigger] list@[k]).0 == b,
        ),
        ..orig
    }));
    while j < list.len()
        invariant
            v == s@,
            n == v.content.len(),
            shape_error(v) is None,
            list@ == v.color_curtains,
            0 <= j <= list@.len(),
            first_error(v.color_curtains, |p: (u8, u8)| color_curtain_error(s@, p))
                == first_error_from(
                v.color_curtains,
                |p: (u8, u8)| color_curtain_error(s@, p),
                j as int,
            ),
            state@ == (StateView {
                color_curtain: Seq::new(32, |b: int| last_value(list@.take(j as int), b)),
                color_curtain_active: Seq::new(
                    32,
                    |b: int| exists|k: int| 0 <= k < j && (#[trigger] list@[k]).0 == b,
                ),
                ..orig
            }),
        decreases list@.len() - j,
    {
        let (bottle, color) = list[j];
        if bottle == 0 {
            return Some(StartError::ColorCurtainZero);
        }
        if bottle as usize > n {
            return Some(StartError::ColorCurtainRange);
        }
        if color == 0 || color as usize >= COLOR_COUNT {
            return Some(StartError::ColorCurtainColor);
        }
        state.set_color_curtain(bottle, color);
        state.set_color_curtain_active(bottle, true);
        assert(list@.take(j + 1).drop_last() =~= list@.take(j as int));
        j = j + 1;
        assert(state@ =~~= (StateView {
            color_curtain: Seq::new(32, |b: int| last_value(list@.take(j as int), b)),
            color_curtain_active: Seq::new(
                32,
                |b: int| exists|k: int| 0 <= k < j && (#[trigger] list@[k]).0 == b,
            ),
            ..orig
        }));
    }
    assert(list@.take(j as int) =~= list@);
    assert(state@ =~~= (StateView {
        color_curtain: start_state(v).color_curtain,
        color_curtain_active: start_state(v).color_curtain_active,
        ..orig
    }));
    None
}


/// Checks the lock groups, locks their bottles and hands out their keys.
fn mark_lock_groups(state: &mut State, s: &StartingState) -> (r: Option<StartError>)
    requires
        shape_error(s@) is None,
        old(state)@.bottle_count == s@.content.len(),
        old(state)@.content == start_state(s@).content,
        old(state)@.hidden == start_state(s@).hidden,
        old(state)@.item_locked == start_state(s@).item_locked,
        old(state)@.has_key == zero_view().has_key,
        old(state)@.bottle_key == zero_view().bottle_key,
    ensures
        r == lock_error(s@),
        r is None ==> final(state)@ == (StateView {
            has_key: start_state(s@).has_key,
            bottle_key: start_state(s@).bottle_key,
            bottle_locked: start_state(s@).bottle_locked,
            ..old(state)@
        }),
{
    let ghost v = s@;
    let n = s.content.len();
    let ranges = &s.lock_group_ranges;
    let keys = &s.lock_group_keys;
    if ranges.len() != keys.len() {
        return Some(StartError::LockGroupCountMismatch);
    }
    let set = match state.compute_run(ranges) {
        Err(e) => {
            return Some(e);
        },
        Ok((_, set)) => set,
    };
    state.set_locked_bits(set);
    let ghost orig = state@;
    let mut j: usize = 0;
    assert(state@ =~~= (StateView {
        has_key: Seq::new(
            32,
            |b: int|
                Seq::new(
                    16,
                    |i: int|
                        exists|k: int| 0 <= k < j && (#[trigger] keys@[k]).0 == b && keys@[k].1 == i,
                ),
        ),
        bottle_key: Seq::new(32, |b: int| key_of(ranges@.take(j as int), keys@, b)),
        ..orig
    }));
    while j < keys.len()
        invariant
            v == s@,
            n == v.content.len(),
            shape_error(v) is None,
            ranges@ == v.lock_group_ranges,
            keys@ == v.lock_group_keys,
            ranges@.len() == keys@.len(),
            run_error(ranges@, n as int) is None,
            0 <= j <= keys@.len(),
            key_error_from(v, 0) == key_error_from(v, j as int),
            orig.content == start_state(v).content,
            orig.hidden == start_state(v).hidden,
            orig.item_locked == start_state(v).item_locked,
            state@ == (StateView {
                has_key: Seq::new(
                    32,
                    |b: int|
                        Seq::new(
                            16,
                            |i: int|
                                exists|k: int|
                                    0 <= k < j && (#[trigger] keys@[k]).0 == b && keys@[k].1 == i,
                        ),
                ),
                bottle_key: Seq::new(32, |b: int| key_of(ranges@.take(j as int), keys@, b)),
                ..orig
            }),
        decreases keys@.len() - j,
    {
        let (bottle, item) = keys[j];
        let (from, to) = ranges[j];
        if bottle == 0 {
            return Some(StartError::KeyBottleZero);
        }
        if bottle as usize > n {
            return Some(StartError::KeyBottleRange);
        }
        let contents = &s.content[bottle as usize - 1];
        assert(contents@ == v.content[bottle - 1]);
        let len = contents.len();
        if item as usize >= len {
            return Some(StartError::KeyItemRange);
        }
        if item as usize == len - 1 {
            return Some(StartError::KeyOnTop);
        }
        assert(len <= ITEM_COUNT);
        let color = contents[item as usize + 1];
        if state.pour_include(bottle, item, color) && state.pour_include(bottle, item + 1, color) {
            return Some(StartError::KeyNotFirst);
        }
        if from <= bottle && bottle < to {
            return Some(StartError::KeyInsideItself);
        }
        if state.get_item_has_key(bottle, item) {
            assert(exists|k: int| 0 <= k < j && #[trigger] v.lock_group_keys[k] == (bottle, item));
            return Some(StartError::KeyDuplicate);
        }
        assert(!exists|k: int| 0 <= k < j && #[trigger] v.lock_group_keys[k] == (bottle, item));
        state.set_item_has_key(bottle, item, true);
        let key = crate::state::to_index(bottle, item);
        proof {
            crate::ranges::lemma_range_valid(ranges@, n as int, j as int);
        }
        let ghost before = state@;
        let mut i: u8 = from;
        while i < to
            invariant
                1 <= from <= i <= to <= BOTTLE_COUNT,
                state@ == (StateView {
                    bottle_key: Seq::new(
                        32,
                        |b: int|
                            if from <= b < i {
                                key
                            } else {
                                before.bottle_key[b]
                            },
                    ),
                    ..before
                }),
                before.bottle_key.len() == 32,
            decreases to - i,
        {
            state.set_bottle_key(i, key);
            i = i + 1;
            assert(state@ =~~= (StateView {
                bottle_key: Seq::new(
                    32,
                    |b: int|
                        if from <= b < i {
                            key
                        } else {
                            before.bottle_key[b]
                        },
                ),
                ..before
            }));
        }
        assert(ranges@.take(j + 1).drop_last() =~= ranges@.take(j as int));
        j = j + 1;
        assert(state@ =~~= (StateView {
            has_key: Seq::new(
                32,
                |b: int|
                    Seq::new(
                        16,
                        |i: int|
                            exists|k: int|
                                0 <= k < j && (#[trigger] keys@[k]).0 == b && keys@[k].1 == i,
                    ),
            ),
            bottle_key: Seq::new(32, |b: int| key_of(ranges@.take(j as int), keys@, b)),
            ..orig
        }));
    }
    assert(ranges@.take(j as int) =~= ranges@);
    assert(state@ =~~= (StateView {
        has_key: start_state(v).has_key,
        bottle_key: start_state(v).bottle_key,
        bottle_locked: start_state(v).bottle_locked,
        ..old(state)@
    }));
    None
}


/// Refuses a bottle with more than one of curtain, safe and lock.
fn check_features(state: &State, s: &StartingState) -> (r: Option<StartError>)
    requires
        state@.bottle_count == s@.content.len() < BOTTLE_COUNT,
        state@.behind_curtain == start_state(s@).behind_curtain,
        state@.safe_counter == start_state(s@).safe_counter,
        state@.bottle_locked == start_state(s@).bottle_locked,
    ensures
        r == if exists|b: int| 1 <= b <= s@.content.len() && feature_count(start_state(s@), b) > 1 {
            Some(StartError::TooManyFeatures)
        } else {
            None
        },
{
    let ghost v = start_state(s@);
    let n = s.content.len();
    let mut b: usize = 1;
    while b <= n
        invariant
            n == s@.content.len() < BOTTLE_COUNT,
            1 <= b <= n + 1,
            state@.behind_curtain == v.behind_curtain,
            state@.safe_counter == v.safe_counter,
            state@.bottle_locked == v.bottle_locked,
            v == start_state(s@),
            forall|q: int| 1 <= q < b ==> #[trigger] feature_count(v, q) <= 1,
        decreases n + 1 - b,
    {
        let bottle = b as u8;
        let curtain: usize = if state.get_behind_curtain(bottle) {
            1
        } else {
            0
        };
        let safe: usize = if state.get_safe_counter(bottle) != 0 {
            1
        } else {
            0
        };
        let locked: usize = if state.get_bottle_locked(bottle) {
            1
        } else {
            0
        };
        if curtain + safe + locked > 1 {
            assert(feature_count(v, b as int) > 1);
            return Some(StartError::TooManyFeatures);
        }
        b = b + 1;
    }
    None
}

/// Refuses a bottle that would already count as solved.
fn check_finalized(state: &State) -> (r: Option<StartError>)
    requires
        wf_view(state@),
    ensures
        r == if exists|b: int| 1 <= b <= state@.bottle_count && finalized_after(state@, b, 0, 0) {
            Some(StartError::FinalizedBottle)
        } else {
            None
        },
{
    let n = state.bottle_count();
    let mut b: u8 = 1;
    while b <= n
        invariant
            wf_view(state@),
            n == state@.bottle_count,
            1 <= b <= n + 1,
            forall|q: int| 1 <= q < b ==> !#[trigger] finalized_after(state@, q, 0, 0),
        decreases n + 1 - b,
    {
        if state.compute_bottle_finalized(b, 0, 0) {
            return Some(StartError::FinalizedBottle);
        }
        b = b + 1;
    }
    None
}

impl State {
    /// Builds the state that a starting description describes, or the first
    /// check it fails. A built state keeps the invariant of all reachable
    /// states.
    pub fn try_from(value: &StartingState) -> (r: Result<State, StartError>)
        ensures
            match r {
                Ok(st) => start_error(value@) is None && st@ == start_state(value@) && reach_inv(st@),
                Err(e) => start_error(value@) == Some(e),
            },
    {
        let ghost v = value@;
        if let Some(e) = shape_check(value) {
            return Err(e);
        }
        let mut state = State::zero();
        state.set_bottle_count(value.content.len() as u8);
        if let Some(e) = fill_content(&mut state, value) {
            return Err(e);
        }
        if let Some(e) = mark_hidden(&mut state, value) {
            return Err(e);
        }
        if let Some(e) = mark_locked(&mut state, value) {
            return Err(e);
        }
        if let Some(e) = mark_immovable(&mut state, value) {
            return Err(e);
        }
        if let Some(e) = mark_pluggable(&mut state, value) {
            return Err(e);
        }
        if let Some(e) = mark_frozen(&mut state, value) {
            return Err(e);
        }
        if let Some(e) = mark_curtains(&mut state, value) {
            return Err(e);
        }
        if let Some(e) = mark_safes(&mut state, value) {
            return Err(e);
        }
        if let Some(e) = mark_lock_groups(&mut state, value) {
            return Err(e);
        }
        if let Some(e) = check_features(&state, value) {
            return Err(e);
        }
        if let Some(e) = mark_colored(&mut state, value) {
            return Err(e);
        }
        if let Some(e) = mark_color_curtains(&mut state, value) {
            return Err(e);
        }
        assert(state@ =~~= start_state(v));
        proof {
            lemma_start_wf(v);
        }
        if let Some(e) = check_finalized(&state) {
            return Err(e);
        }
        proof {
            lemma_start_reach(v);
        }
        Ok(state)
    }
}


/// Without a refusal from `f`, `f` accepts every entry.
proof fn lemma_first_error_none<T>(
    list: Seq<T>,
    f: spec_fn(T) -> Option<StartError>,
    from: int,
    j: int,
)
    requires
        first_error_from(list, f, from) is None,
        0 <= from <= j < list.len(),
    ensures
        f(list[j]) is None,
    decreases j - from,
{
    if from < j {
        lemma_first_error_none(list, f, from + 1, j);
    }
}

/// A nonzero `last_value` is the value of an entry for that bottle.
proof fn lemma_last_value(list: Seq<(u8, u8)>, b: int)
    ensures
        last_value(list, b) != 0 ==> exists|j: int|
            0 <= j < list.len() && (#[trigger] list[j]).0 == b && list[j].1 == last_value(list, b),
    decreases list.len(),
{
    if list.len() > 0 && list.last().0 != b {
        lemma_last_value(list.drop_last(), b);
        if last_value(list, b) != 0 {
            let j = choose|j: int|
                0 <= j < list.drop_last().len() && (#[trigger] list.drop_last()[j]).0 == b
                    && list.drop_last()[j].1 == last_value(list, b);
            assert(list[j] == list.drop_last()[j]);
        }
    } else if list.len() > 0 {
        assert(list[list.len() - 1] == list.last());
    }
}

/// A set `last_flag` comes from an entry for that bottle.
proof fn lemma_last_flag(list: Seq<(u8, bool)>, b: int)
    ensures
        last_flag(list, b) ==> exists|j: int| 0 <= j < list.len() && (#[trigger] list[j]).0 == b,
    decreases list.len(),
{
    if list.len() > 0 && list.last().0 != b {
        lemma_last_flag(list.drop_last(), b);
        if last_flag(list, b) {
            let j = choose|j: int| 0 <= j < list.drop_last().len() && (#[trigger] list.drop_last()[j]).0 == b;
            assert(list[j] == list.drop_last()[j]);
        }
    } else if list.len() > 0 {
        assert(list[list.len() - 1] == list.last());
    }
}

/// Without a refusal, every item is a real color.
proof fn lemma_colors_valid(items: Seq<u8>, k: int)
    requires
        color_error(items) is None,
        0 <= k < items.len(),
    ensures
        0 < items[k] < COLOR_COUNT,
    decreases items.len(),
{
    if k < items.len() - 1 {
        lemma_colors_valid(items.drop_last(), k);
        assert(items.drop_last()[k] == items[k]);
    }
}

/// Without a refusal, no color has sixteen items or more.
proof fn lemma_color_count_bound(items: Seq<u8>, c: u8)
    requires
        color_error(items) is None,
    ensures
        occurrences(items, c) < ITEM_COUNT,
    decreases items.len(),
{
    if items.len() > 0 {
        lemma_color_count_bound(items.drop_last(), c);
    }
}

/// Without a refusal, each item of each bottle is a real color.
proof fn lemma_item_valid(s: StartingView, b: int, i: int)
    requires
        color_error(all_items(s)) is None,
        0 <= b < s.content.len(),
        0 <= i < s.content[b].len(),
    ensures
        0 < s.content[b][i] < COLOR_COUNT,
{
    lemma_flatten_split(s.content, b, i);
    let a = s.content.take(b).flatten() + s.content[b].take(i);
    assert(all_items(s)[a.len() as int] == s.content[b][i]);
    lemma_colors_valid(all_items(s), a.len() as int);
}

/// The shape that a description without a refusal gives.
proof fn lemma_start_wf(s: StartingView)
    requires
        start_error_before_final(s) is None,
    ensures
        wf_view(start_state(s)),
{
    let v = start_state(s);
    let n = s.content.len() as int;
    assert forall|b: int| 0 <= b < n implies (#[trigger] s.content[b]).len() <= s.capacity[b]
        && 0 < s.capacity[b] <= ITEM_COUNT by {}
    assert forall|b: int, i: int| 0 <= b < 32 && 0 <= i < 16 implies #[trigger] v.content[b][i] < 16 by {
        if 1 <= b <= n && i < bottle_len(s, b) {
            lemma_item_valid(s, b - 1, i);
        }
    }
    assert forall|b: int| 0 <= b < 32 implies #[trigger] v.safe_counter[b] <= MAX_SAFE_COUNTER
        && v.bottle_color[b] < 16 && v.color_curtain[b] < 16 by {
        lemma_last_value(s.safes, b);
        lemma_last_value(s.colored_bottles, b);
        lemma_last_value(s.color_curtains, b);
        if v.safe_counter[b] != 0 {
            let j = choose|j: int|
                0 <= j < s.safes.len() && (#[trigger] s.safes[j]).0 == b && s.safes[j].1
                    == last_value(s.safes, b);
            lemma_first_error_none(s.safes, |p: (u8, u8)| safe_error(s, p), 0, j);
        }
        if v.bottle_color[b] != 0 {
            let j = choose|j: int|
                0 <= j < s.colored_bottles.len() && (#[trigger] s.colored_bottles[j]).0 == b
                    && s.colored_bottles[j].1 == last_value(s.colored_bottles, b);
            lemma_first_error_none(s.colored_bottles, |p: (u8, u8)| colored_error(s, p), 0, j);
        }
        if v.color_curtain[b] != 0 {
            let j = choose|j: int|
                0 <= j < s.color_curtains.len() && (#[trigger] s.color_curtains[j]).0 == b
                    && s.color_curtains[j].1 == last_value(s.color_curtains, b);
            lemma_first_error_none(
                s.color_curtains,
                |p: (u8, u8)| color_curtain_error(s, p),
                0,
                j,
            );
        }
    }
    assert forall|b: int| 0 <= b < 32 && #[trigger] v.plugged[b] implies v.pluggable[b] by {
        lemma_last_flag(s.pluggable_bottles, b);
    }
    assert forall|c: int| 0 <= c < 16 implies #[trigger] v.color_count[c] <= ITEM_COUNT by {
        lemma_color_count_bound(all_items(s), c as u8);
    }
    crate::ranges::lemma_ranges_len(s.curtain_ranges, n);
    assert forall|k: int| 0 <= k < 32 implies (#[trigger] v.curtain_from[k] == 0 && v.curtain_to[k]
        == 0) || (1 <= v.curtain_from[k] <= v.curtain_to[k] <= v.bottle_count + 1 && k
        < v.bottle_count) by {
        if k < s.curtain_ranges.len() {
            crate::ranges::lemma_range_valid(s.curtain_ranges, n, k);
        }
    }
}


proof fn lemma_occurrences_concat(a: Seq<u8>, b: Seq<u8>, c: u8)
    ensures
        occurrences(a + b, c) == occurrences(a, c) + occurrences(b, c),
    decreases b.len(),
{
    if b.len() == 0 {
        assert(a + b =~= a);
    } else {
        lemma_occurrences_concat(a, b.drop_last(), c);
        assert((a + b).drop_last() =~= a + b.drop_last());
    }
}

/// The items of color `c` among the lowest `k` slots of a bottle of the
/// built state are those among the lowest `k` items of its description.
proof fn lemma_bottle_count_start(s: StartingView, b: int, c: u8, k: int)
    requires
        1 <= b <= s.content.len() < BOTTLE_COUNT,
        0 <= k <= bottle_len(s, b) <= ITEM_COUNT,
    ensures
        bottle_color_count(start_state(s), b, c as int, k) == occurrences(s.content[b - 1].take(k), c),
    decreases k,
{
    if k > 0 {
        lemma_bottle_count_start(s, b, c, k - 1);
        assert(s.content[b - 1].take(k).drop_last() =~= s.content[b - 1].take(k - 1));
    }
}

/// The items of color `c` in the bottles `1..m` of the built state are those
/// of the first `m - 1` bottles of its description.
proof fn lemma_color_total_start(s: StartingView, c: u8, m: int)
    requires
        shape_error(s) is None,
        1 <= m <= s.content.len() + 1,
    ensures
        color_total_upto(start_state(s), c as int, m) == occurrences(
            s.content.take(m - 1).flatten(),
            c,
        ),
    decreases m,
{
    if m <= 1 {
        assert(s.content.take(0) =~= Seq::<Seq<u8>>::empty());
    } else {
        lemma_color_total_start(s, c, m - 1);
        let b = m - 1;
        assert(s.content[b - 1].len() <= ITEM_COUNT);
        lemma_bottle_count_start(s, b, c, bottle_len(s, b));
        assert(s.content[b - 1].take(bottle_len(s, b)) =~= s.content[b - 1]);
        assert(s.content.take(m - 1) =~= s.content.take(m - 2).push(s.content[m - 2]));
        s.content.take(m - 2).lemma_flatten_push(s.content[m - 2]);
        lemma_occurrences_concat(s.content.take(m - 2).flatten(), s.content[m - 2], c);
    }
}

/// A nonzero key of a bottle comes from a lock group that holds it.
proof fn lemma_key_of(ranges: Seq<(u8, u8)>, keys: Seq<(u8, u8)>, b: int)
    ensures
        key_of(ranges, keys, b) != 0 ==> exists|j: int|
            0 <= j < ranges.len() && (#[trigger] ranges[j]).0 <= b < ranges[j].1 && key_of(
                ranges,
                keys,
                b,
            ) == item_index(keys[j].0 as int, keys[j].1 as int) as u16,
    decreases ranges.len(),
{
    if ranges.len() > 0 {
        if ranges.last().0 <= b < ranges.last().1 {
            assert(ranges[ranges.len() - 1] == ranges.last());
        } else {
            lemma_key_of(ranges.drop_last(), keys, b);
            if key_of(ranges, keys, b) != 0 {
                let j = choose|j: int|
                    0 <= j < ranges.drop_last().len() && (#[trigger] ranges.drop_last()[j]).0 <= b
                        < ranges.drop_last()[j].1 && key_of(ranges.drop_last(), keys, b)
                        == item_index(keys[j].0 as int, keys[j].1 as int) as u16;
                assert(ranges[j] == ranges.drop_last()[j]);
            }
        }
    }
}

proof fn lemma_key_error_none(s: StartingView, from: int, j: int)
    requires
        key_error_from(s, from) is None,
        0 <= from <= j < s.lock_group_keys.len(),
    ensures
        key_error(s, j) is None,
    decreases j - from,
{
    if from < j {
        lemma_key_error_none(s, from + 1, j);
    }
}

proof fn lemma_item_index_parts(bottle: int, item: int)
    requires
        0 <= bottle < BOTTLE_COUNT,
        0 <= item < ITEM_COUNT,
    ensures
        item_index(bottle, item) / 16 == bottle,
        item_index(bottle, item) % 16 == item,
        item_index(bottle, item) < BOTTLE_COUNT * ITEM_COUNT,
{
}

/// A state built from a description without a refusal keeps the invariant
/// of all reachable states.
pub proof fn lemma_start_reach(s: StartingView)
    requires
        start_error(s) is None,
    ensures
        reach_inv(start_state(s)),
{
    let v = start_state(s);
    let n = s.content.len() as int;
    lemma_start_wf(s);
    assert forall|b: int, i: int| 1 <= b <= n && 0 <= i < v.height[b] implies #[trigger] v.content[b][i]
        != 0 by {
        lemma_item_valid(s, b - 1, i);
    }
    assert forall|b: int| 1 <= b < n && #[trigger] v.frozen_run[b] == v.frozen_run[b + 1] implies v.frozen[b]
        == v.frozen[b + 1] by {
        lemma_run_same_side(s.frozen_bottle_ranges, n, b);
    }
    assert forall|b: int| 0 <= b < 32 && #[trigger] v.frozen[b] implies 1 <= b <= n by {
        let j = choose|j: int|
            0 <= j < s.frozen_bottle_ranges.len() && (#[trigger] s.frozen_bottle_ranges[j]).0 <= b
                < s.frozen_bottle_ranges[j].1;
        lemma_range_valid(s.frozen_bottle_ranges, n, j);
    }
    assert forall|k: int, b: int|
        0 <= k < n && v.curtain_from[k] <= b < #[trigger] v.curtain_to[k] implies #[trigger] v.behind_curtain[b] by {
        if k < s.curtain_ranges.len() {
            assert(s.curtain_ranges[k].0 <= b < s.curtain_ranges[k].1);
        }
    }
    assert forall|k1: int, k2: int|
        0 <= k1 < n && 0 <= k2 < n && k1 != k2 && v.curtain_from[k1] < #[trigger] v.curtain_to[k1]
            && v.curtain_from[k2] < #[trigger] v.curtain_to[k2] implies v.curtain_to[k1]
        <= v.curtain_from[k2] || v.curtain_to[k2] <= v.curtain_from[k1] by {
        if k1 < k2 {
            lemma_ranges_ordered(s.curtain_ranges, n, k1, k2);
        } else {
            lemma_ranges_ordered(s.curtain_ranges, n, k2, k1);
        }
    }
    assert forall|b: int| 1 <= b <= n && #[trigger] v.bottle_key[b] != 0 implies v.bottle_key[b]
        < BOTTLE_COUNT * ITEM_COUNT && v.bottle_locked[b] == v.has_key[index_bottle(
        v.bottle_key[b] as int,
    )][index_item(v.bottle_key[b] as int)] by {
        let ranges = s.lock_group_ranges;
        let keys = s.lock_group_keys;
        lemma_key_of(ranges, keys, b);
        let j = choose|j: int|
            0 <= j < ranges.len() && (#[trigger] ranges[j]).0 <= b < ranges[j].1 && key_of(
                ranges,
                keys,
                b,
            ) == item_index(keys[j].0 as int, keys[j].1 as int) as u16;
        lemma_key_error_none(s, 0, j);
        let bottle = keys[j].0 as int;
        let item = keys[j].1 as int;
        assert(s.content[bottle - 1].len() <= ITEM_COUNT);
        lemma_item_index_parts(bottle, item);
        assert(v.has_key[bottle][item]);
        assert(v.bottle_locked[b]);
    }
    assert forall|c: int| 1 <= c < 16 implies #[trigger] color_total(v, c) == v.color_count[c] by {
        lemma_color_total_start(s, c as u8, n + 1);
        assert(s.content.take(n) =~= s.content);
        lemma_color_count_bound(all_items(s), c as u8);
    }
    assert forall|b: int| 1 <= b <= n && #[trigger] v.color_curtain[b] != 0 implies (
    v.color_curtain_active[b] <==> !color_solved(v, v.color_curtain[b] as int)) by {
        lemma_last_value(s.color_curtains, b);
    }
}

} // verus!

verus! {

/// In a state built from a description without a refusal, every hidden
/// item lies below the top item of its bottle.
pub proof fn lemma_start_hidden(s: StartingView)
    requires
        start_error(s) is None,
    ensures
        crate::reachable::hidden_below_top(start_state(s)),
{
    let v = start_state(s);
    assert(start_error_before_final(s) is None);
    assert(first_error(s.hidden_items, |p: (u8, u8)| hidden_error(s, p)) is None);
    assert forall|b: int, i: int| 0 <= b < 32 && 0 <= i < 16 && #[trigger] v.hidden[b][i] implies 1
        <= b <= v.bottle_count && i + 1 < v.height[b] by {
        let j = choose|j: int|
            0 <= j < s.hidden_items.len() && (#[trigger] s.hidden_items[j]).0 == b
                && s.hidden_items[j].1 == i;
        lemma_first_error_none(s.hidden_items, |p: (u8, u8)| hidden_error(s, p), 0, j);
    }
}

/// In a state built from a description without a refusal, every locked
/// item is an item of a bottle.
pub proof fn lemma_start_locks(s: StartingView)
    requires
        start_error(s) is None,
    ensures
        crate::reachable::locks_on_items(start_state(s)),
{
    let v = start_state(s);
    assert(start_error_before_final(s) is None);
    assert(first_error(s.locked_items, |p: (u8, u8)| locked_error(s, p)) is None);
    assert forall|b: int, i: int| 0 <= b < 32 && 0 <= i < 16 && #[trigger] v.item_locked[b][i] implies 1
        <= b <= v.bottle_count && i < v.height[b] by {
        let j = choose|j: int|
            0 <= j < s.locked_items.len() && (#[trigger] s.locked_items[j]).0 == b
                && s.locked_items[j].1 == i;
        lemma_first_error_none(s.locked_items, |p: (u8, u8)| locked_error(s, p), 0, j);
    }
}

/// In a state built from a description without a refusal, every bottle
/// behind a curtain lies in one of the curtain groups.
pub proof fn lemma_start_curtains(s: StartingView)
    requires
        start_error(s) is None,
    ensures
        crate::reachable::curtains_cover(start_state(s)),
{
    let v = start_state(s);
    let n = s.content.len() as int;
    assert(start_error_before_final(s) is None);
    assert(run_error(s.curtain_ranges, n) is None);
    crate::ranges::lemma_ranges_len(s.curtain_ranges, n);
    assert forall|b: int| 0 <= b < 32 && #[trigger] v.behind_curtain[b] implies exists|k: int|
        0 <= k < v.bottle_count && v.curtain_from[k] <= b < #[trigger] v.curtain_to[k] by {
        let j = choose|j: int|
            0 <= j < s.curtain_ranges.len() && (#[trigger] s.curtain_ranges[j]).0 <= b
                < s.curtain_ranges[j].1;
        assert(v.curtain_from[j] <= b < v.curtain_to[j]);
    }
}

/// A move never adds a curtain, a safe or a lock to a bottle.
pub proof fn lemma_apply_features(v: StateView, m: crate::state::MoveView, b: int)
    requires
        crate::state::apply_ok(v, m),
        0 <= b < 32,
    ensures
        feature_count(crate::state::apply_view(v, m), b) <= feature_count(v, b),
{
}

/// A bottle inside one of the lock groups gets a key other than zero when
/// every group's key item lies in a real bottle.
proof fn lemma_key_of_in(ranges: Seq<(u8, u8)>, keys: Seq<(u8, u8)>, b: int)
    requires
        keys.len() >= ranges.len(),
        forall|j: int| 0 <= j < ranges.len() ==> (#[trigger] keys[j]).0 != 0,
        in_ranges(ranges, b),
    ensures
        key_of(ranges, keys, b) != 0,
    decreases ranges.len(),
{
    let n = ranges.len() as int;
    if ranges.last().0 <= b < ranges.last().1 {
        let k = keys[n - 1];
        assert(k.0 != 0);
        assert(16 <= item_index(k.0 as int, k.1 as int) < 0x10000);
    } else {
        let j = choose|j: int| 0 <= j < ranges.len() && (#[trigger] ranges[j]).0 <= b < ranges[j].1;
        assert(j != n - 1);
        assert(ranges.drop_last()[j] == ranges[j]);
        assert forall|i: int| 0 <= i < ranges.drop_last().len() implies (#[trigger] keys[i]).0 != 0 by {
            assert(keys[i] == keys[i]);
        }
        lemma_key_of_in(ranges.drop_last(), keys, b);
    }
}

/// In a state built from a description without a refusal, every locked
/// bottle carries the key of its group.
pub proof fn lemma_start_keyed(s: StartingView)
    requires
        start_error(s) is None,
    ensures
        crate::reachable::locks_keyed(start_state(s)),
{
    let v = start_state(s);
    let ranges = s.lock_group_ranges;
    let keys = s.lock_group_keys;
    assert(start_error_before_final(s) is None);
    assert(lock_error(s) is None);
    assert(key_error_from(s, 0) is None);
    assert forall|j: int| 0 <= j < ranges.len() implies (#[trigger] keys[j]).0 != 0 by {
        lemma_key_error_none(s, 0, j);
    }
    assert forall|b: int| 1 <= b <= v.bottle_count && #[trigger] v.bottle_locked[b] implies v.bottle_key[b] != 0 by {
        lemma_key_of_in(ranges, keys, b);
    }
}

/// In ordered ranges, a bottle inside range `j` gets the key of group `j`.
proof fn lemma_key_of_exact(ranges: Seq<(u8, u8)>, keys: Seq<(u8, u8)>, j: int, b: int)
    requires
        forall|p: int, q: int| 0 <= p < q < ranges.len() ==> #[trigger] ranges[p].1 <= #[trigger] ranges[q].0,
        0 <= j < ranges.len(),
        ranges[j].0 <= b < ranges[j].1,
    ensures
        key_of(ranges, keys, b) == item_index(keys[j].0 as int, keys[j].1 as int) as u16,
    decreases ranges.len(),
{
    let n = ranges.len() as int;
    if j < n - 1 {
        assert(ranges[j].1 <= ranges[n - 1].0);
        assert(!(ranges.last().0 <= b < ranges.last().1));
        assert(ranges.drop_last()[j] == ranges[j]);
        assert forall|p: int, q: int| 0 <= p < q < ranges.drop_last().len() implies #[trigger] ranges.drop_last()[p].1
            <= #[trigger] ranges.drop_last()[q].0 by {
            assert(ranges[p].1 <= ranges[q].0);
        }
        lemma_key_of_exact(ranges.drop_last(), keys, j, b);
    }
}

/// In a state built from a description without a refusal, the bottles that
/// share a key lie next to each other: each key opens one group.
pub proof fn lemma_start_keys_contiguous(s: StartingView)
    requires
        start_error(s) is None,
    ensures
        crate::reachable::keys_contiguous(start_state(s)),
{
    let v = start_state(s);
    let n = s.content.len() as int;
    let ranges = s.lock_group_ranges;
    let keys = s.lock_group_keys;
    assert(start_error_before_final(s) is None);
    assert(lock_error(s) is None);
    assert(run_error(ranges, n) is None);
    assert(key_error_from(s, 0) is None);
    assert forall|p: int, q: int| 0 <= p < q < ranges.len() implies #[trigger] ranges[p].1 <= #[trigger] ranges[q].0 by {
        lemma_ranges_ordered(ranges, n, p, q);
    }
    assert forall|x: int, i: int, y: int|
        #![trigger v.bottle_key[x], v.bottle_key[i], v.bottle_key[y]]
        1 <= x < i < y <= v.bottle_count && v.bottle_key[x] != 0 && v.bottle_key[x] == v.bottle_key[y]
            implies v.bottle_key[i] == v.bottle_key[x] by {
        lemma_key_of(ranges, keys, x);
        lemma_key_of(ranges, keys, y);
        let jx = choose|j: int|
            0 <= j < ranges.len() && (#[trigger] ranges[j]).0 <= x < ranges[j].1 && key_of(ranges, keys, x)
                == item_index(keys[j].0 as int, keys[j].1 as int) as u16;
        let jy = choose|j: int|
            0 <= j < ranges.len() && (#[trigger] ranges[j]).0 <= y < ranges[j].1 && key_of(ranges, keys, y)
                == item_index(keys[j].0 as int, keys[j].1 as int) as u16;
        if jx != jy {
            lemma_key_error_none(s, 0, jx);
            lemma_key_error_none(s, 0, jy);
            let (bx, ix) = (keys[jx].0 as int, keys[jx].1 as int);
            let (by, iy) = (keys[jy].0 as int, keys[jy].1 as int);
            assert(s.content[bx - 1].len() <= s.capacity[bx - 1] <= ITEM_COUNT);
            assert(s.content[by - 1].len() <= s.capacity[by - 1] <= ITEM_COUNT);
            lemma_item_index_parts(bx, ix);
            lemma_item_index_parts(by, iy);
            assert(keys[jx] == keys[jy]);
            if jx < jy {
                assert(exists|k: int| 0 <= k < jy && #[trigger] keys[k] == keys[jy]);
            } else {
                assert(exists|k: int| 0 <= k < jx && #[trigger] keys[k] == keys[jx]);
            }
        }
        lemma_key_of_exact(ranges, keys, jx, i);
    }
}

/// In a state built from a description without a refusal, the curtain
/// groups start at ascending bottles.
pub proof fn lemma_start_curtains_ascending(s: StartingView)
    requires
        start_error(s) is None,
    ensures
        crate::reachable::curtains_ascending(start_state(s)),
{
    let v = start_state(s);
    let n = s.content.len() as int;
    assert(start_error_before_final(s) is None);
    assert(run_error(s.curtain_ranges, n) is None);
    assert forall|k1: int, k2: int|
        0 <= k1 < k2 < v.bottle_count && v.curtain_from[k1] < #[trigger] v.curtain_to[k1]
            && v.curtain_from[k2] < #[trigger] v.curtain_to[k2] implies v.curtain_from[k1]
        < v.curtain_from[k2] by {
        assert(k2 < s.curtain_ranges.len());
        lemma_ranges_ordered(s.curtain_ranges, n, k1, k2);
    }
}

/// In a state built from a description without a refusal, the recorded
/// number of items of each color is the number in the description.
pub proof fn lemma_start_color_counts(s: StartingView, c: int)
    requires
        start_error(s) is None,
        1 <= c < 16,
    ensures
        start_state(s).color_count[c] == occurrences(all_items(s), c as u8),
{
    lemma_start_reach(s);
    lemma_color_count_bound(all_items(s), c as u8);
}

/// The curtain groups among the first `k` of a state built from `s`: the
/// first `k` described curtain ranges, each as its first and last bottle.
proof fn lemma_start_curtain_groups_upto(s: StartingView, k: int)
    requires
        start_error(s) is None,
        0 <= k <= s.curtain_ranges.len(),
    ensures
        curtain_groups_upto(start_state(s), k) == s.curtain_ranges.take(k).map_values(
            |r: (u8, u8)| (r.0, (r.1 - 1) as u8),
        ),
    decreases k,
{
    let v = start_state(s);
    let n = s.content.len() as int;
    let f = |r: (u8, u8)| (r.0, (r.1 - 1) as u8);
    assert(start_error_before_final(s) is None);
    assert(run_error(s.curtain_ranges, n) is None);
    if k > 0 {
        lemma_start_curtain_groups_upto(s, k - 1);
        lemma_range_valid(s.curtain_ranges, n, k - 1);
        assert(curtain_range_view(v, k - 1) is Some);
        assert(s.curtain_ranges.take(k).map_values(f) =~= s.curtain_ranges.take(k - 1).map_values(f).push(
            f(s.curtain_ranges[k - 1]),
        ));
    } else {
        assert(s.curtain_ranges.take(0).map_values(f) =~= Seq::<(u8, u8)>::empty());
    }
}

/// The curtain groups of a state built from a description without a
/// refusal are the described curtain ranges, in order, each as its first
/// and last bottle.
pub proof fn law_start_curtain_groups(s: StartingView)
    requires
        start_error(s) is None,
    ensures
        curtain_groups_upto(start_state(s), start_state(s).bottle_count as int)
            == s.curtain_ranges.map_values(|r: (u8, u8)| (r.0, (r.1 - 1) as u8)),
{
    let v = start_state(s);
    let n = s.content.len() as int;
    let m = s.curtain_ranges.len() as int;
    assert(start_error_before_final(s) is None);
    assert(run_error(s.curtain_ranges, n) is None);
    crate::ranges::lemma_ranges_len(s.curtain_ranges, n);
    lemma_start_curtain_groups_upto(s, m);
    lemma_start_groups_rest(s, m, n);
    assert(s.curtain_ranges.take(m) =~= s.curtain_ranges);
}

proof fn lemma_start_groups_rest(s: StartingView, m: int, k: int)
    requires
        start_error(s) is None,
        m == s.curtain_ranges.len(),
        m <= k <= s.content.len(),
    ensures
        curtain_groups_upto(start_state(s), k) == curtain_groups_upto(start_state(s), m),
    decreases k,
{
    if k > m {
        lemma_start_groups_rest(s, m, k - 1);
        assert(curtain_range_view(start_state(s), k - 1) is None);
    }
}

/// The described lock groups from group `j` on, each with the item index of
/// its key and its first and last bottle.
pub open spec fn described_lock_groups(s: StartingView, j: int) -> Seq<(u16, (u8, u8))> {
    Seq::new(
        (s.lock_group_ranges.len() - j) as nat,
        |i: int|
            (
                item_index(s.lock_group_keys[j + i].0 as int, s.lock_group_keys[j + i].1 as int) as u16,
                (s.lock_group_ranges[j + i].0, (s.lock_group_ranges[j + i].1 - 1) as u8),
            ),
    )
}

proof fn lemma_key_of_outside(ranges: Seq<(u8, u8)>, keys: Seq<(u8, u8)>, b: int)
    requires
        !in_ranges(ranges, b),
    ensures
        key_of(ranges, keys, b) == 0,
    decreases ranges.len(),
{
    if ranges.len() > 0 {
        assert(ranges.last() == ranges[ranges.len() - 1]);
        assert forall|j: int| 0 <= j < ranges.drop_last().len() implies !((#[trigger] ranges.drop_last()[j]).0
            <= b < ranges.drop_last()[j].1) by {
            assert(ranges.drop_last()[j] == ranges[j]);
        }
        lemma_key_of_outside(ranges.drop_last(), keys, b);
    }
}

/// The facts about the described lock groups of a description without a
/// refusal: in order, without overlap, within the bottles, keyed by items
/// of real bottles, each key used once.
proof fn lemma_lock_ranges_facts(s: StartingView)
    requires
        start_error(s) is None,
    ensures
        forall|p: int, q: int|
            0 <= p < q < s.lock_group_ranges.len() ==> #[trigger] s.lock_group_ranges[p].1
                <= #[trigger] s.lock_group_ranges[q].0,
        forall|j: int|
            0 <= j < s.lock_group_ranges.len() ==> 1 <= (#[trigger] s.lock_group_ranges[j]).0
                < s.lock_group_ranges[j].1 <= s.content.len() + 1,
        forall|j: int| 0 <= j < s.lock_group_ranges.len() ==> (#[trigger] s.lock_group_keys[j]).0 != 0,
        s.lock_group_keys.len() == s.lock_group_ranges.len(),
{
    let n = s.content.len() as int;
    let ranges = s.lock_group_ranges;
    assert(start_error_before_final(s) is None);
    assert(lock_error(s) is None);
    assert(run_error(ranges, n) is None);
    assert(key_error_from(s, 0) is None);
    assert forall|p: int, q: int| 0 <= p < q < ranges.len() implies #[trigger] ranges[p].1
        <= #[trigger] ranges[q].0 by {
        lemma_ranges_ordered(ranges, n, p, q);
    }
    assert forall|j: int| 0 <= j < ranges.len() implies 1 <= (#[trigger] ranges[j]).0 < ranges[j].1
        <= n + 1 by {
        lemma_range_valid(ranges, n, j);
    }
    assert forall|j: int| 0 <= j < ranges.len() implies (#[trigger] s.lock_group_keys[j]).0 != 0 by {
        lemma_key_error_none(s, 0, j);
    }
}

/// Two described groups with the same key item index are one group.
proof fn lemma_lock_keys_distinct(s: StartingView, j0: int, j1: int)
    requires
        start_error(s) is None,
        0 <= j0 < s.lock_group_ranges.len(),
        0 <= j1 < s.lock_group_ranges.len(),
        item_index(s.lock_group_keys[j0].0 as int, s.lock_group_keys[j0].1 as int) as u16 == item_index(
            s.lock_group_keys[j1].0 as int,
            s.lock_group_keys[j1].1 as int,
        ) as u16,
    ensures
        j0 == j1,
{
    let keys = s.lock_group_keys;
    assert(start_error_before_final(s) is None);
    assert(lock_error(s) is None);
    assert(key_error_from(s, 0) is None);
    if j0 != j1 {
        lemma_key_error_none(s, 0, j0);
        lemma_key_error_none(s, 0, j1);
        assert(s.content[keys[j0].0 - 1].len() <= s.capacity[keys[j0].0 - 1] <= ITEM_COUNT);
        assert(s.content[keys[j1].0 - 1].len() <= s.capacity[keys[j1].0 - 1] <= ITEM_COUNT);
        lemma_item_index_parts(keys[j0].0 as int, keys[j0].1 as int);
        lemma_item_index_parts(keys[j1].0 as int, keys[j1].1 as int);
        assert(keys[j0] == keys[j1]);
        if j0 < j1 {
            assert(exists|k: int| 0 <= k < j1 && #[trigger] keys[k] == keys[j1]);
        } else {
            assert(exists|k: int| 0 <= k < j0 && #[trigger] keys[k] == keys[j0]);
        }
    }
}

/// The run of one key that starts a described group ends with the group.
proof fn lemma_lock_group_run(s: StartingView, j0: int)
    requires
        start_error(s) is None,
        0 <= j0 < s.lock_group_ranges.len(),
    ensures
        ({
            let v = start_state(s);
            let c = s.lock_group_ranges[j0].0 as int;
            &&& v.bottle_key[c] == item_index(
                s.lock_group_keys[j0].0 as int,
                s.lock_group_keys[j0].1 as int,
            ) as u16
            &&& v.bottle_locked[c]
            &&& key_group_end(v, c, c) == s.lock_group_ranges[j0].1 - 1
        }),
{
    let v = start_state(s);
    let ranges = s.lock_group_ranges;
    let keys = s.lock_group_keys;
    lemma_lock_ranges_facts(s);
    let c = ranges[j0].0 as int;
    let kj = item_index(keys[j0].0 as int, keys[j0].1 as int) as u16;
    lemma_key_of_exact(ranges, keys, j0, c);
    assert(in_ranges(ranges, c));
    let e = key_group_end(v, c, c);
    lemma_key_group_end(v, c, c);
    let last = ranges[j0].1 - 1;
    if e < last {
        lemma_key_of_exact(ranges, keys, j0, e + 1);
    }
    if e > last {
        let b = last + 1;
        assert(v.bottle_key[b] == kj);
        lemma_key_of(ranges, keys, b);
        let j1 = choose|j: int|
            0 <= j < ranges.len() && (#[trigger] ranges[j]).0 <= b < ranges[j].1 && key_of(ranges, keys, b)
                == item_index(keys[j].0 as int, keys[j].1 as int) as u16;
        lemma_lock_keys_distinct(s, j0, j1);
    }
}

/// A bottle from `c` on that lies in no described group before group `j0`
/// starts has no key and no lock, and neither has the rest of its run.
proof fn lemma_lock_gap_run(s: StartingView, c: int, j0: int)
    requires
        start_error(s) is None,
        1 <= c <= s.content.len(),
        0 <= j0 <= s.lock_group_ranges.len(),
        j0 == s.lock_group_ranges.len() || c < s.lock_group_ranges[j0].0,
        j0 == 0 || s.lock_group_ranges[j0 - 1].1 <= c,
    ensures
        !start_state(s).bottle_locked[c],
        j0 < s.lock_group_ranges.len() ==> key_group_end(start_state(s), c, c) < s.lock_group_ranges[j0].0,
{
    let v = start_state(s);
    let ranges = s.lock_group_ranges;
    let keys = s.lock_group_keys;
    let m = ranges.len() as int;
    lemma_lock_ranges_facts(s);
    assert(!in_ranges(ranges, c)) by {
        if in_ranges(ranges, c) {
            let j = choose|j: int| 0 <= j < ranges.len() && (#[trigger] ranges[j]).0 <= c < ranges[j].1;
            if j < j0 - 1 {
                assert(ranges[j].1 <= ranges[j0 - 1].0);
            }
            if j > j0 {
                assert(ranges[j0].1 <= ranges[j].0);
            }
        }
    }
    lemma_key_of_outside(ranges, keys, c);
    let e = key_group_end(v, c, c);
    lemma_key_group_end(v, c, c);
    if j0 < m && ranges[j0].0 <= e {
        let b = ranges[j0].0 as int;
        assert(v.bottle_key[b] == v.bottle_key[c]);
        assert(in_ranges(ranges, b));
        lemma_key_of_in(ranges, keys, b);
    }
}

/// From bottle `c` on, where every group before `j0` ends by `c` and group
/// `j0` does not start before it, a state built from `s` lists the described
/// lock groups from `j0` on.
proof fn lemma_start_lock_groups_from(s: StartingView, c: int, j0: int)
    requires
        start_error(s) is None,
        1 <= c <= s.content.len() + 1,
        0 <= j0 <= s.lock_group_ranges.len(),
        j0 == s.lock_group_ranges.len() || c <= s.lock_group_ranges[j0].0,
        j0 == 0 || s.lock_group_ranges[j0 - 1].1 <= c,
    ensures
        lock_groups_from(start_state(s), c) == described_lock_groups(s, j0),
    decreases s.content.len() + 1 - c,
{
    let v = start_state(s);
    let n = s.content.len() as int;
    let ranges = s.lock_group_ranges;
    let keys = s.lock_group_keys;
    let m = ranges.len() as int;
    lemma_lock_ranges_facts(s);
    if c > n {
        assert(described_lock_groups(s, j0) =~= Seq::<(u16, (u8, u8))>::empty());
    } else if j0 < m && c == ranges[j0].0 {
        lemma_lock_group_run(s, j0);
        let kj = item_index(keys[j0].0 as int, keys[j0].1 as int) as u16;
        let e = key_group_end(v, c, c);
        if j0 + 1 < m {
            assert(ranges[j0].1 <= ranges[j0 + 1].0);
        }
        lemma_start_lock_groups_from(s, e + 1, j0 + 1);
        assert(lock_groups_from(v, c) == seq![(kj, (c as u8, e as u8))] + lock_groups_from(v, e + 1));
        assert(described_lock_groups(s, j0) =~= seq![(kj, (c as u8, e as u8))] + described_lock_groups(
            s,
            j0 + 1,
        ));
    } else {
        lemma_lock_gap_run(s, c, j0);
        let e = key_group_end(v, c, c);
        lemma_key_group_end(v, c, c);
        lemma_start_lock_groups_from(s, e + 1, j0);
    }
}

/// The lock groups of a state built from a description without a refusal
/// are the described ones, in order, each with the item index of its key
/// and its first and last bottle.
pub proof fn law_start_lock_groups(s: StartingView)
    requires
        start_error(s) is None,
    ensures
        lock_groups_from(start_state(s), 1) == described_lock_groups(s, 0),
{
    assert(start_error_before_final(s) is None);
    assert(run_error(s.lock_group_ranges, s.content.len() as int) is None);
    if s.lock_group_ranges.len() > 0 {
        lemma_range_valid(s.lock_group_ranges, s.content.len() as int, 0);
    }
    lemma_start_lock_groups_from(s, 1, 0);
}

} // verus!

verus! {

/// A description is accepted only if no bottle of the state it builds has
/// more than one of: standing behind a curtain, sitting in a safe with a
/// counter above zero, belonging to a lock group.
pub proof fn law_one_feature_per_bottle(s: StartingView)
    requires
        start_error(s) is None,
    ensures
        forall|b: int|
            1 <= b <= s.content.len() ==> {
                let v = #[trigger] start_state(s).safe_counter[b];
                &&& !(start_state(s).behind_curtain[b] && v != 0)
                &&& !(start_state(s).behind_curtain[b] && start_state(s).bottle_locked[b])
                &&& !(v != 0 && start_state(s).bottle_locked[b])
            },
{
    assert(start_error_before_final(s) is None);
    let n = s.content.len() as int;
    assert(!(exists|b: int| 1 <= b <= n && feature_count(start_state(s), b) > 1));
    assert forall|b: int| 1 <= b <= s.content.len() implies {
        let v = #[trigger] start_state(s).safe_counter[b];
        &&& !(start_state(s).behind_curtain[b] && v != 0)
        &&& !(start_state(s).behind_curtain[b] && start_state(s).bottle_locked[b])
        &&& !(v != 0 && start_state(s).bottle_locked[b])
    } by {
        assert(feature_count(start_state(s), b) <= 1);
    }
}

} // verus!
