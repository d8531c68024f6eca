//! The game state packed into bit sets, the legal moves, and how a move is
//! applied and taken back.
use vstd::prelude::*;

use itertools::Itertools;

use crate::bits::Bits;

verus! {

/// Bits of an item index inside a bottle.
pub const ITEM_BITS: usize = 4;

/// Bits of a bottle index.
pub const BOTTLE_BITS: usize = 5;

/// Bits of a color value.
pub const COLOR_BITS: usize = 4;

/// Bits of a safe counter.
pub const SAFE_COUNTER_BITS: usize = 3;

/// Bits of a bottle height or capacity: one more than an item index.
pub const BOTTLE_SIZE_BITS: usize = 5;

/// Items a bottle can hold at most.
pub const ITEM_COUNT: usize = 16;

/// Bottle slots; slot zero is reserved, so at most `BOTTLE_COUNT - 1` bottles.
pub const BOTTLE_COUNT: usize = 32;

/// Color values; zero is reserved for "no item".
pub const COLOR_COUNT: usize = 16;

/// The largest value of a safe counter.
pub const MAX_SAFE_COUNTER: usize = 7;

/// The game state as mathematical values: one entry per bottle slot (and per
/// item slot of a bottle, or per color value).
#[verifier::ext_equal]
pub struct StateView {
    pub bottle_count: nat,
    pub height: Seq<u8>,
    pub capacity: Seq<u8>,
    pub content: Seq<Seq<u8>>,
    pub finalized: Seq<bool>,
    pub color_count: Seq<u8>,
    pub hidden: Seq<Seq<bool>>,
    pub item_locked: Seq<Seq<bool>>,
    pub immovable: Seq<bool>,
    pub pluggable: Seq<bool>,
    pub plugged: Seq<bool>,
    pub frozen_run: Seq<bool>,
    pub frozen: Seq<bool>,
    pub curtain_from: Seq<u8>,
    pub curtain_to: Seq<u8>,
    pub behind_curtain: Seq<bool>,
    pub safe_counter: Seq<u8>,
    pub has_key: Seq<Seq<bool>>,
    pub bottle_key: Seq<u16>,
    pub bottle_locked: Seq<bool>,
    pub bottle_color: Seq<u8>,
    pub color_curtain: Seq<u8>,
    pub color_curtain_active: Seq<bool>,
}

/// Represents the current game state without history.
///
/// Bottles are numbered from one; slot zero is reserved. Each color has
/// exactly one bottle, so the count per color must be less than the
/// maximum bottle size. At most one of curtain, safe, or lock can be chosen per
/// bottle.
#[derive(Clone, Copy)]
pub struct State {
    pub(crate) bottle_count: u8,
    /// One 4-bit color per item slot, at `bottle * ITEM_COUNT + item`.
    pub(crate) content: Bits<128>,
    /// One byte per bottle.
    pub(crate) height: Bits<16>,
    /// One byte per bottle; greater than zero for every bottle.
    pub(crate) capacity: Bits<16>,
    pub(crate) bottle_finalized: Bits<2>,
    /// One byte per color.
    pub(crate) color_count: Bits<8>,
    /// The user cannot see this item. Items connected by color are only
    /// poured until the first hidden item. The top item is always visible.
    pub(crate) item_hidden: Bits<32>,
    /// This item can only be moved out alone, and nothing can be poured onto
    /// it. The lock disappears once the item has been removed.
    pub(crate) item_locked: Bits<32>,
    /// Can only be filled, never poured from. Fixed after initialization.
    pub(crate) bottle_immovable: Bits<2>,
    /// On each move, all plugged bottles are unplugged and vice versa. An
    /// emptied pluggable bottle stays unplugged for good.
    pub(crate) pluggable_bottle: Bits<2>,
    pub(crate) bottle_plugged: Bits<2>,
    /// Groups of neighbouring bottles, marked by runs of equal bits. A frozen
    /// bottle can only be filled until a bottle of its group is solved.
    pub(crate) frozen_run: Bits<2>,
    pub(crate) frozen: Bits<2>,
    /// Per curtain group two bytes: the first bottle and one past the last
    /// bottle still behind the curtain; both zero when unused.
    pub(crate) curtain_range: Bits<32>,
    /// A bottle behind a curtain is hidden and cannot be interacted with.
    pub(crate) behind_curtain: Bits<2>,
    /// A bottle in a safe (counter above zero) is hidden and cannot be
    /// interacted with; each solved bottle counts every safe down by one.
    pub(crate) safe_counter: Bits<8>,
    /// The item whose arrival on top of its bottle unlocks a lock group.
    pub(crate) item_has_key: Bits<32>,
    /// Per bottle, the index of the key item of its lock group, or zero.
    pub(crate) bottle_key: Bits<32>,
    pub(crate) bottle_locked: Bits<2>,
    /// Only items of this color can be poured into the bottle; zero allows
    /// all. Fixed after initialization.
    pub(crate) bottle_color: Bits<8>,
    /// The bottle cannot be interacted with until this color is solved.
    pub(crate) color_curtain: Bits<8>,
    pub(crate) color_curtain_active: Bits<2>,
}

/// One flag per bottle slot.
pub open spec fn flags_view(bits: Bits<2>) -> Seq<bool> {
    Seq::new(32, |b: int| bits.spec_has(b))
}

/// One flag per item slot of each bottle slot.
pub open spec fn item_flags_view(bits: Bits<32>) -> Seq<Seq<bool>> {
    Seq::new(32, |b: int| Seq::new(16, |i: int| bits.spec_has(b * 16 + i)))
}

/// One byte per slot.
pub open spec fn bytes_view<const N: usize>(bits: Bits<N>, n: nat) -> Seq<u8> {
    Seq::new(n, |b: int| bits.spec_u8(b))
}

/// One nibble per bottle slot.
pub open spec fn nibbles_view(bits: Bits<8>) -> Seq<u8> {
    Seq::new(32, |b: int| bits.spec_u4(b))
}

/// One color per item slot of each bottle slot.
pub open spec fn content_view(bits: Bits<128>) -> Seq<Seq<u8>> {
    Seq::new(32, |b: int| Seq::new(16, |i: int| bits.spec_u4(b * 16 + i)))
}

/// The even (`side == 0`) or odd bytes of the curtain ranges.
pub open spec fn curtain_view(bits: Bits<32>, side: int) -> Seq<u8> {
    Seq::new(32, |k: int| bits.spec_u8(2 * k + side))
}

/// One 16-bit word per bottle slot.
pub open spec fn keys_view(bits: Bits<32>) -> Seq<u16> {
    Seq::new(32, |b: int| bits.spec_u16(b))
}

impl View for State {
    type V = StateView;

    closed spec fn view(&self) -> StateView {
        StateView {
            bottle_count: self.bottle_count as nat,
            height: bytes_view(self.height, 32),
            capacity: bytes_view(self.capacity, 32),
            content: content_view(self.content),
            finalized: flags_view(self.bottle_finalized),
            color_count: bytes_view(self.color_count, 16),
            hidden: item_flags_view(self.item_hidden),
            item_locked: item_flags_view(self.item_locked),
            immovable: flags_view(self.bottle_immovable),
            pluggable: flags_view(self.pluggable_bottle),
            plugged: flags_view(self.bottle_plugged),
            frozen_run: flags_view(self.frozen_run),
            frozen: flags_view(self.frozen),
            curtain_from: curtain_view(self.curtain_range, 0),
            curtain_to: curtain_view(self.curtain_range, 1),
            behind_curtain: flags_view(self.behind_curtain),
            safe_counter: nibbles_view(self.safe_counter),
            has_key: item_flags_view(self.item_has_key),
            bottle_key: keys_view(self.bottle_key),
            bottle_locked: flags_view(self.bottle_locked),
            bottle_color: nibbles_view(self.bottle_color),
            color_curtain: nibbles_view(self.color_curtain),
            color_curtain_active: flags_view(self.color_curtain_active),
        }
    }
}


impl State {
    /// Whether the bottle is solved: full with one color, plugged by a cork.
    pub fn get_bottle_finalized(&self, bottle: u8) -> (r: bool)
        requires
            bottle < BOTTLE_COUNT,
        ensures
            r == self@.finalized[bottle as int],
    {
        self.bottle_finalized.has(bottle as usize)
    }

    pub(crate) fn set_bottle_finalized(&mut self, bottle: u8, value: bool)
        requires
            bottle < BOTTLE_COUNT,
        ensures
            final(self)@ == (StateView { finalized: old(self)@.finalized.update(bottle as int, value), ..old(self)@ }),
    {
        self.bottle_finalized.set(bottle as usize, value);
        assert(self@.finalized =~= old(self)@.finalized.update(bottle as int, value));
    }

    /// Whether nothing can be poured out of the bottle.
    pub fn get_bottle_immovable(&self, bottle: u8) -> (r: bool)
        requires
            bottle < BOTTLE_COUNT,
        ensures
            r == self@.immovable[bottle as int],
    {
        self.bottle_immovable.has(bottle as usize)
    }

    pub(crate) fn set_bottle_immovable(&mut self, bottle: u8, value: bool)
        requires
            bottle < BOTTLE_COUNT,
        ensures
            final(self)@ == (StateView { immovable: old(self)@.immovable.update(bottle as int, value), ..old(self)@ }),
    {
        self.bottle_immovable.set(bottle as usize, value);
        assert(self@.immovable =~= old(self)@.immovable.update(bottle as int, value));
    }

    /// Whether the bottle toggles its plug on every move.
    pub fn get_pluggable_bottle(&self, bottle: u8) -> (r: bool)
        requires
            bottle < BOTTLE_COUNT,
        ensures
            r == self@.pluggable[bottle as int],
    {
        self.pluggable_bottle.has(bottle as usize)
    }

    pub(crate) fn set_pluggable_bottle(&mut self, bottle: u8, value: bool)
        requires
            bottle < BOTTLE_COUNT,
        ensures
            final(self)@ == (StateView { pluggable: old(self)@.pluggable.update(bottle as int, value), ..old(self)@ }),
    {
        self.pluggable_bottle.set(bottle as usize, value);
        assert(self@.pluggable =~= old(self)@.pluggable.update(bottle as int, value));
    }

    /// Whether the bottle is plugged right now.
    pub fn get_bottle_plugged(&self, bottle: u8) -> (r: bool)
        requires
            bottle < BOTTLE_COUNT,
        ensures
            r == self@.plugged[bottle as int],
    {
        self.bottle_plugged.has(bottle as usize)
    }

    pub(crate) fn set_bottle_plugged(&mut self, bottle: u8, value: bool)
        requires
            bottle < BOTTLE_COUNT,
        ensures
            final(self)@ == (StateView { plugged: old(self)@.plugged.update(bottle as int, value), ..old(self)@ }),
    {
        self.bottle_plugged.set(bottle as usize, value);
        assert(self@.plugged =~= old(self)@.plugged.update(bottle as int, value));
    }

    /// Whether the bottle is frozen.
    pub fn get_frozen(&self, bottle: u8) -> (r: bool)
        requires
            bottle < BOTTLE_COUNT,
        ensures
            r == self@.frozen[bottle as int],
    {
        self.frozen.has(bottle as usize)
    }




    /// Whether the bottle is behind a curtain.
    pub fn get_behind_curtain(&self, bottle: u8) -> (r: bool)
        requires
            bottle < BOTTLE_COUNT,
        ensures
            r == self@.behind_curtain[bottle as int],
    {
        self.behind_curtain.has(bottle as usize)
    }

    pub(crate) fn set_behind_curtain(&mut self, bottle: u8, value: bool)
        requires
            bottle < BOTTLE_COUNT,
        ensures
            final(self)@ == (StateView { behind_curtain: old(self)@.behind_curtain.update(bottle as int, value), ..old(self)@ }),
    {
        self.behind_curtain.set(bottle as usize, value);
        assert(self@.behind_curtain =~= old(self)@.behind_curtain.update(bottle as int, value));
    }

    /// Whether the bottle belongs to a locked group.
    pub fn get_bottle_locked(&self, bottle: u8) -> (r: bool)
        requires
            bottle < BOTTLE_COUNT,
        ensures
            r == self@.bottle_locked[bottle as int],
    {
        self.bottle_locked.has(bottle as usize)
    }


    /// Whether the color curtain of the bottle is still down.
    pub fn get_color_curtain_active(&self, bottle: u8) -> (r: bool)
        requires
            bottle < BOTTLE_COUNT,
        ensures
            r == self@.color_curtain_active[bottle as int],
    {
        self.color_curtain_active.has(bottle as usize)
    }

    pub(crate) fn set_color_curtain_active(&mut self, bottle: u8, value: bool)
        requires
            bottle < BOTTLE_COUNT,
        ensures
            final(self)@ == (StateView { color_curtain_active: old(self)@.color_curtain_active.update(bottle as int, value), ..old(self)@ }),
    {
        self.color_curtain_active.set(bottle as usize, value);
        assert(self@.color_curtain_active =~= old(self)@.color_curtain_active.update(bottle as int, value));
    }

    /// Whether the item is hidden from the player.
    pub fn get_item_hidden(&self, bottle: u8, item: u8) -> (r: bool)
        requires
            bottle < BOTTLE_COUNT,
            item < ITEM_COUNT,
        ensures
            r == self@.hidden[bottle as int][item as int],
    {
        self.item_hidden.has(bottle as usize * ITEM_COUNT + item as usize)
    }

    pub(crate) fn set_item_hidden(&mut self, bottle: u8, item: u8, value: bool)
        requires
            bottle < BOTTLE_COUNT,
            item < ITEM_COUNT,
        ensures
            final(self)@ == (StateView {
                hidden: old(self)@.hidden.update(
                    bottle as int,
                    old(self)@.hidden[bottle as int].update(item as int, value),
                ),
                ..old(self)@
            }),
    {
        self.item_hidden.set(bottle as usize * ITEM_COUNT + item as usize, value);
        assert forall|b: int| 0 <= b < 32 implies #[trigger] self@.hidden[b] =~= old(self)@.hidden.update(
            bottle as int,
            old(self)@.hidden[bottle as int].update(item as int, value),
        )[b] by {
            assert forall|i: int| 0 <= i < 16 implies self@.hidden[b][i] == (if b == bottle && i
                == item {
                value
            } else {
                old(self)@.hidden[b][i]
            }) by {
                if b != bottle || i != item {
                    assert(b * 16 + i != bottle * 16 + item);
                }
            }
        }
        assert(self@.hidden =~= old(self)@.hidden.update(
            bottle as int,
            old(self)@.hidden[bottle as int].update(item as int, value),
        ));
    }

    /// Whether the item is locked.
    pub fn get_item_locked(&self, bottle: u8, item: u8) -> (r: bool)
        requires
            bottle < BOTTLE_COUNT,
            item < ITEM_COUNT,
        ensures
            r == self@.item_locked[bottle as int][item as int],
    {
        self.item_locked.has(bottle as usize * ITEM_COUNT + item as usize)
    }

    pub(crate) fn set_item_locked(&mut self, bottle: u8, item: u8, value: bool)
        requires
            bottle < BOTTLE_COUNT,
            item < ITEM_COUNT,
        ensures
            final(self)@ == (StateView {
                item_locked: old(self)@.item_locked.update(
                    bottle as int,
                    old(self)@.item_locked[bottle as int].update(item as int, value),
                ),
                ..old(self)@
            }),
    {
        self.item_locked.set(bottle as usize * ITEM_COUNT + item as usize, value);
        assert forall|b: int| 0 <= b < 32 implies #[trigger] self@.item_locked[b] =~= old(self)@.item_locked.update(
            bottle as int,
            old(self)@.item_locked[bottle as int].update(item as int, value),
        )[b] by {
            assert forall|i: int| 0 <= i < 16 implies self@.item_locked[b][i] == (if b == bottle && i
                == item {
                value
            } else {
                old(self)@.item_locked[b][i]
            }) by {
                if b != bottle || i != item {
                    assert(b * 16 + i != bottle * 16 + item);
                }
            }
        }
        assert(self@.item_locked =~= old(self)@.item_locked.update(
            bottle as int,
            old(self)@.item_locked[bottle as int].update(item as int, value),
        ));
    }

    /// Whether the item carries the key of a lock group.
    pub fn get_item_has_key(&self, bottle: u8, item: u8) -> (r: bool)
        requires
            bottle < BOTTLE_COUNT,
            item < ITEM_COUNT,
        ensures
            r == self@.has_key[bottle as int][item as int],
    {
        self.item_has_key.has(bottle as usize * ITEM_COUNT + item as usize)
    }

    pub(crate) fn set_item_has_key(&mut self, bottle: u8, item: u8, value: bool)
        requires
            bottle < BOTTLE_COUNT,
            item < ITEM_COUNT,
        ensures
            final(self)@ == (StateView {
                has_key: old(self)@.has_key.update(
                    bottle as int,
                    old(self)@.has_key[bottle as int].update(item as int, value),
                ),
                ..old(self)@
            }),
    {
        self.item_has_key.set(bottle as usize * ITEM_COUNT + item as usize, value);
        assert forall|b: int| 0 <= b < 32 implies #[trigger] self@.has_key[b] =~= old(self)@.has_key.update(
            bottle as int,
            old(self)@.has_key[bottle as int].update(item as int, value),
        )[b] by {
            assert forall|i: int| 0 <= i < 16 implies self@.has_key[b][i] == (if b == bottle && i
                == item {
                value
            } else {
                old(self)@.has_key[b][i]
            }) by {
                if b != bottle || i != item {
                    assert(b * 16 + i != bottle * 16 + item);
                }
            }
        }
        assert(self@.has_key =~= old(self)@.has_key.update(
            bottle as int,
            old(self)@.has_key[bottle as int].update(item as int, value),
        ));
    }

    /// The number of items in the bottle.
    pub fn get_height(&self, bottle: u8) -> (r: u8)
        requires
            bottle < BOTTLE_COUNT,
        ensures
            r == self@.height[bottle as int],
    {
        self.height.get_u8(bottle as usize)
    }

    pub(crate) fn set_height(&mut self, bottle: u8, value: u8)
        requires
            bottle < BOTTLE_COUNT,
        ensures
            final(self)@ == (StateView { height: old(self)@.height.update(bottle as int, value), ..old(self)@ }),
    {
        self.height.set_u8(bottle as usize, value);
        assert(self@.height =~= old(self)@.height.update(bottle as int, value));
    }

    /// The number of items the bottle can hold.
    pub fn get_capacity(&self, bottle: u8) -> (r: u8)
        requires
            bottle < BOTTLE_COUNT,
        ensures
            r == self@.capacity[bottle as int],
    {
        self.capacity.get_u8(bottle as usize)
    }

    pub(crate) fn set_capacity(&mut self, bottle: u8, value: u8)
        requires
            bottle < BOTTLE_COUNT,
        ensures
            final(self)@ == (StateView { capacity: old(self)@.capacity.update(bottle as int, value), ..old(self)@ }),
    {
        self.capacity.set_u8(bottle as usize, value);
        assert(self@.capacity =~= old(self)@.capacity.update(bottle as int, value));
    }

    /// The number of items of a color in the whole state.
    pub(crate) fn get_color_count(&self, color: u8) -> (r: u8)
        requires
            color < COLOR_COUNT,
        ensures
            r == self@.color_count[color as int],
    {
        self.color_count.get_u8(color as usize)
    }

    pub(crate) fn set_color_count(&mut self, color: u8, value: u8)
        requires
            color < COLOR_COUNT,
        ensures
            final(self)@ == (StateView { color_count: old(self)@.color_count.update(color as int, value), ..old(self)@ }),
    {
        self.color_count.set_u8(color as usize, value);
        assert(self@.color_count =~= old(self)@.color_count.update(color as int, value));
    }

    /// The safe counter of the bottle; zero when it is not in a safe.
    pub fn get_safe_counter(&self, bottle: u8) -> (r: u8)
        requires
            bottle < BOTTLE_COUNT,
        ensures
            r == self@.safe_counter[bottle as int],
            r < 16,
    {
        self.safe_counter.get_u4(bottle as usize)
    }

    pub(crate) fn set_safe_counter(&mut self, bottle: u8, value: u8)
        requires
            bottle < BOTTLE_COUNT,
            value < 16,
        ensures
            final(self)@ == (StateView { safe_counter: old(self)@.safe_counter.update(bottle as int, value), ..old(self)@ }),
    {
        self.safe_counter.set_u4(bottle as usize, value);
        assert(self@.safe_counter =~= old(self)@.safe_counter.update(bottle as int, value));
    }

    /// The only color that can be poured into the bottle, or zero.
    pub fn get_bottle_color(&self, bottle: u8) -> (r: u8)
        requires
            bottle < BOTTLE_COUNT,
        ensures
            r == self@.bottle_color[bottle as int],
            r < 16,
    {
        self.bottle_color.get_u4(bottle as usize)
    }

    pub(crate) fn set_bottle_color(&mut self, bottle: u8, value: u8)
        requires
            bottle < BOTTLE_COUNT,
            value < 16,
        ensures
            final(self)@ == (StateView { bottle_color: old(self)@.bottle_color.update(bottle as int, value), ..old(self)@ }),
    {
        self.bottle_color.set_u4(bottle as usize, value);
        assert(self@.bottle_color =~= old(self)@.bottle_color.update(bottle as int, value));
    }

    /// The color whose solving lifts the color curtain of the bottle, or zero.
    pub fn get_color_curtain(&self, bottle: u8) -> (r: u8)
        requires
            bottle < BOTTLE_COUNT,
        ensures
            r == self@.color_curtain[bottle as int],
            r < 16,
    {
        self.color_curtain.get_u4(bottle as usize)
    }

    pub(crate) fn set_color_curtain(&mut self, bottle: u8, value: u8)
        requires
            bottle < BOTTLE_COUNT,
            value < 16,
        ensures
            final(self)@ == (StateView { color_curtain: old(self)@.color_curtain.update(bottle as int, value), ..old(self)@ }),
    {
        self.color_curtain.set_u4(bottle as usize, value);
        assert(self@.color_curtain =~= old(self)@.color_curtain.update(bottle as int, value));
    }

    /// The color of an item slot; zero when the slot is empty.
    pub fn get_color(&self, bottle: u8, item: u8) -> (r: u8)
        requires
            bottle < BOTTLE_COUNT,
            item < ITEM_COUNT,
        ensures
            r == self@.content[bottle as int][item as int],
            r < 16,
    {
        self.content.get_u4(bottle as usize * ITEM_COUNT + item as usize)
    }

    pub(crate) fn set_color(&mut self, bottle: u8, item: u8, color: u8)
        requires
            bottle < BOTTLE_COUNT,
            item < ITEM_COUNT,
            color < 16,
        ensures
            final(self)@ == (StateView {
                content: old(self)@.content.update(
                    bottle as int,
                    old(self)@.content[bottle as int].update(item as int, color),
                ),
                ..old(self)@
            }),
    {
        self.content.set_u4(bottle as usize * ITEM_COUNT + item as usize, color);
        assert forall|b: int| 0 <= b < 32 implies #[trigger] self@.content[b] =~= old(self)@.content.update(
            bottle as int,
            old(self)@.content[bottle as int].update(item as int, color),
        )[b] by {
            assert forall|i: int| 0 <= i < 16 implies self@.content[b][i] == (if b == bottle && i
                == item {
                color
            } else {
                old(self)@.content[b][i]
            }) by {
                if b != bottle || i != item {
                    assert(b * 16 + i != bottle * 16 + item);
                }
            }
        }
        assert(self@.content =~= old(self)@.content.update(
            bottle as int,
            old(self)@.content[bottle as int].update(item as int, color),
        ));
    }

    /// The index of the key item of the lock group of the bottle, or zero.
    pub fn get_bottle_key(&self, bottle: u8) -> (r: u16)
        requires
            bottle < BOTTLE_COUNT,
        ensures
            r == self@.bottle_key[bottle as int],
    {
        self.bottle_key.get_u16(bottle as usize)
    }

    pub(crate) fn set_bottle_key(&mut self, bottle: u8, key: u16)
        requires
            bottle < BOTTLE_COUNT,
        ensures
            final(self)@ == (StateView { bottle_key: old(self)@.bottle_key.update(bottle as int, key), ..old(self)@ }),
    {
        self.bottle_key.set_u16(bottle as usize, key);
        assert(self@.bottle_key =~= old(self)@.bottle_key.update(bottle as int, key));
    }

    /// The curtain group `index` as its first bottle and one past its last
    /// bottle still behind the curtain, or `None` when the group is unused.
    pub(crate) fn get_curtain_range(&self, index: u8) -> (r: Option<(u8, u8)>)
        requires
            index < BOTTLE_COUNT,
        ensures
            r == curtain_range_view(self@, index as int),
    {
        let from = self.curtain_range.get_u8(index as usize * 2);
        let to = self.curtain_range.get_u8(index as usize * 2 + 1);
        if from == 0 && to == 0 {
            None
        } else {
            Some((from, to))
        }
    }

    pub(crate) fn set_curtain_range(&mut self, index: u8, from: u8, to: u8)
        requires
            index < BOTTLE_COUNT,
        ensures
            final(self)@ == (StateView {
                curtain_from: old(self)@.curtain_from.update(index as int, from),
                curtain_to: old(self)@.curtain_to.update(index as int, to),
                ..old(self)@
            }),
    {
        self.curtain_range.set_u8(index as usize * 2, from);
        self.curtain_range.set_u8(index as usize * 2 + 1, to);
        assert(self@.curtain_from =~= old(self)@.curtain_from.update(index as int, from));
        assert(self@.curtain_to =~= old(self)@.curtain_to.update(index as int, to));
    }
}

/// The curtain group `k` of `v`, or `None` when both of its bytes are zero.
pub open spec fn curtain_range_view(v: StateView, k: int) -> Option<(u8, u8)> {
    if v.curtain_from[k] == 0 && v.curtain_to[k] == 0 {
        None
    } else {
        Some((v.curtain_from[k], v.curtain_to[k]))
    }
}

} // verus!

verus! {

/// The index of an item slot: `bottle * ITEM_COUNT + item`.
pub open spec fn item_index(bottle: int, item: int) -> int {
    bottle * 16 + item
}

/// `n - 1`, or zero for zero.
pub open spec fn below_top(n: int) -> int {
    if n > 0 {
        n - 1
    } else {
        0
    }
}

/// The basic shape every state keeps: bottle count in range, heights within
/// capacities, empty slots above the items, counters and colors in range,
/// plugs only on pluggable bottles, and curtain groups within the bottles.
pub open spec fn wf_view(v: StateView) -> bool {
    &&& v.bottle_count < BOTTLE_COUNT
    &&& v.height.len() == 32 && v.capacity.len() == 32 && v.content.len() == 32
    &&& v.finalized.len() == 32 && v.color_count.len() == 16 && v.hidden.len() == 32
    &&& v.item_locked.len() == 32 && v.immovable.len() == 32 && v.pluggable.len() == 32
    &&& v.plugged.len() == 32 && v.frozen_run.len() == 32 && v.frozen.len() == 32
    &&& v.curtain_from.len() == 32 && v.curtain_to.len() == 32 && v.behind_curtain.len() == 32
    &&& v.safe_counter.len() == 32 && v.has_key.len() == 32 && v.bottle_key.len() == 32
    &&& v.bottle_locked.len() == 32 && v.bottle_color.len() == 32 && v.color_curtain.len() == 32
    &&& v.color_curtain_active.len() == 32
    &&& forall|b: int| 0 <= b < 32 ==> #[trigger] v.content[b].len() == 16
    &&& forall|b: int| 0 <= b < 32 ==> #[trigger] v.hidden[b].len() == 16
    &&& forall|b: int| 0 <= b < 32 ==> #[trigger] v.item_locked[b].len() == 16
    &&& forall|b: int| 0 <= b < 32 ==> #[trigger] v.has_key[b].len() == 16
    &&& forall|b: int|
        1 <= b <= v.bottle_count ==> 0 < #[trigger] v.capacity[b] <= ITEM_COUNT && v.height[b]
            <= v.capacity[b]
    &&& forall|b: int, i: int|
        1 <= b <= v.bottle_count && v.height[b] <= i < 16 ==> #[trigger] v.content[b][i] == 0
    &&& forall|b: int, i: int| 0 <= b < 32 && 0 <= i < 16 ==> #[trigger] v.content[b][i] < 16
    &&& forall|b: int|
        0 <= b < 32 ==> #[trigger] v.safe_counter[b] <= MAX_SAFE_COUNTER && v.bottle_color[b]
            < 16 && v.color_curtain[b] < 16
    &&& forall|b: int| 0 <= b < 32 ==> (#[trigger] v.plugged[b] ==> v.pluggable[b])
    &&& forall|c: int| 0 <= c < 16 ==> #[trigger] v.color_count[c] <= ITEM_COUNT
    &&& forall|k: int|
        0 <= k < 32 ==> (#[trigger] v.curtain_from[k] == 0 && v.curtain_to[k] == 0) || (1
            <= v.curtain_from[k] <= v.curtain_to[k] <= v.bottle_count + 1 && k < v.bottle_count)
}

/// Whether `bottle` can be poured from: not empty, not immovable, plugged,
/// frozen, solved, hidden behind a curtain, in a safe, locked, or behind a
/// color curtain.
pub open spec fn can_move_from_view(v: StateView, bottle: int) -> bool {
    !(v.height[bottle] == 0 || v.immovable[bottle] || v.plugged[bottle] || v.frozen[bottle]
        || v.finalized[bottle] || v.behind_curtain[bottle] || v.safe_counter[bottle] != 0
        || v.bottle_locked[bottle] || v.color_curtain_active[bottle])
}

/// Whether the item joins a pour of `color`: same color, visible, unlocked.
pub open spec fn pour_include_view(v: StateView, bottle: int, item: int, color: int) -> bool {
    v.content[bottle][item] == color && !v.hidden[bottle][item] && !v.item_locked[bottle][item]
}

/// How many items just below slot `n` (slots `n - 1`, `n - 2`, ...) join a
/// pour of `color`, stopping at the first that does not.
pub open spec fn pour_run(v: StateView, bottle: int, color: int, n: int) -> nat
    decreases n,
{
    if n <= 0 {
        0
    } else if pour_include_view(v, bottle, n - 1, color) {
        1 + pour_run(v, bottle, color, n - 1)
    } else {
        0
    }
}

/// Whether `bottle` is solved once `add_count` items of `add_color` are
/// poured onto it: exactly full, one visible unlocked color, and that color
/// has no item elsewhere.
pub open spec fn finalized_after(v: StateView, bottle: int, add_count: int, add_color: int) -> bool {
    let height = v.height[bottle] as int;
    let capacity = v.capacity[bottle] as int;
    let bottom = v.content[bottle][0];
    let new_bottom = if bottom == 0 {
        add_color
    } else {
        bottom as int
    };
    &&& height + add_count == capacity
    &&& forall|i: int|
        0 <= i < height ==> #[trigger] v.content[bottle][i] == new_bottom && !v.hidden[bottle][i]
            && !v.item_locked[bottle][i]
    &&& (add_color == 0 || add_color == new_bottom)
    &&& v.color_count[new_bottom] == capacity
}

/// Whether a pour from `from` into `to` is blocked on the receiving side.
pub open spec fn pour_blocked(v: StateView, from: int, to: int) -> bool {
    let from_top_color = v.content[from][below_top(v.height[from] as int)];
    let to_height = v.height[to] as int;
    let to_top = below_top(to_height);
    let space = v.capacity[to] - to_height;
    ||| from == to
    ||| space == 0
    ||| (to_height > 0 && from_top_color != v.content[to][to_top])
    ||| (to_height > 0 && v.item_locked[to][to_top])
    ||| v.plugged[to]
    ||| v.behind_curtain[to]
    ||| v.safe_counter[to] != 0
    ||| v.bottle_locked[to]
    ||| (v.bottle_color[to] != 0 && v.bottle_color[to] != from_top_color)
    ||| v.color_curtain_active[to]
}

/// The number of items a pour from `from` into `to` moves.
pub open spec fn pour_count(v: StateView, from: int, to: int) -> int {
    let from_height = v.height[from] as int;
    let color = v.content[from][from_height - 1] as int;
    let run: int = 1 + if v.item_locked[from][from_height - 1] {
        0
    } else {
        pour_run(v, from, color, from_height - 1) as int
    };
    let space = v.capacity[to] - v.height[to];
    if run < space {
        run
    } else {
        space
    }
}

/// The lowest bottle of the maximal run of equal `bits` around `bottle`.
pub open spec fn run_start(bits: Seq<bool>, bottle: int, x: int) -> int
    decreases x,
{
    if x <= 1 || bits[x - 1] != bits[bottle] {
        x
    } else {
        run_start(bits, bottle, x - 1)
    }
}

/// The highest bottle (not above `last`) of the maximal run of equal `bits`
/// around `bottle`.
pub open spec fn run_end(bits: Seq<bool>, bottle: int, x: int, last: int) -> int
    decreases last - x,
{
    if x >= last || bits[x + 1] != bits[bottle] {
        x
    } else {
        run_end(bits, bottle, x + 1, last)
    }
}

/// The bottles `1..=count` for which `pred` holds, as flags over all slots.
pub open spec fn bottle_flags(count: int, pred: spec_fn(int) -> bool) -> Seq<bool> {
    Seq::new(32, |i: int| 1 <= i <= count && pred(i))
}

/// No flag set.
pub open spec fn no_flags() -> Seq<bool> {
    Seq::new(32, |i: int| false)
}

/// Everything a move changes, as mathematical values.
pub struct MoveView {
    pub from: u8,
    pub to: u8,
    pub count: u8,
    pub color: u8,
    pub finalize: u8,
    pub show_item: u16,
    pub unlock_item: u16,
    pub unplug: u8,
    pub unfreeze_run: Seq<bool>,
    pub lift_curtain: Seq<bool>,
    pub decrement_safe: Seq<bool>,
    pub remove_key: u16,
    pub unlock_bottle: Seq<bool>,
    pub lift_color_curtain: Seq<bool>,
}

/// The move that pours from `from` into `to`, provided `from` can be poured
/// from; `None` when the receiving side blocks it.
pub open spec fn move_to_view(v: StateView, from: int, to: int) -> Option<MoveView> {
    if pour_blocked(v, from, to) {
        None
    } else {
        let count = v.bottle_count as int;
        let from_height = v.height[from] as int;
        let color = v.content[from][from_height - 1] as int;
        let n = pour_count(v, from, to);
        let next_height = from_height - n;
        let next_top = below_top(next_height);
        let to_finalized = finalized_after(v, to, n, color);
        let has_key = next_height > 0 && v.has_key[from][next_top];
        let key = item_index(from, next_top);
        Some(
            MoveView {
                from: from as u8,
                to: to as u8,
                count: n as u8,
                color: color as u8,
                finalize: if to_finalized {
                    to as u8
                } else {
                    0
                },
                show_item: if next_height > 0 && v.hidden[from][next_top] {
                    key as u16
                } else {
                    0
                },
                unlock_item: if v.item_locked[from][from_height - 1] {
                    item_index(from, from_height - 1) as u16
                } else {
                    0
                },
                unplug: if next_height == 0 && v.pluggable[from] {
                    from as u8
                } else {
                    0
                },
                unfreeze_run: if to_finalized && v.frozen[to] {
                    let start = run_start(v.frozen_run, to, to);
                    let end = run_end(v.frozen_run, to, to, count);
                    Seq::new(32, |i: int| start <= i <= end)
                } else {
                    no_flags()
                },
                lift_curtain: if to_finalized {
                    Seq::new(
                        32,
                        |k: int|
                            k < count && v.curtain_to[k] > v.curtain_from[k],
                    )
                } else {
                    no_flags()
                },
                decrement_safe: if to_finalized {
                    bottle_flags(count, |i: int| v.safe_counter[i] != 0)
                } else {
                    no_flags()
                },
                remove_key: if has_key {
                    key as u16
                } else {
                    0
                },
                unlock_bottle: if has_key {
                    bottle_flags(count, |i: int| v.bottle_key[i] == key)
                } else {
                    no_flags()
                },
                lift_color_curtain: if to_finalized {
                    bottle_flags(count, |i: int| v.color_curtain[i] == color)
                } else {
                    no_flags()
                },
            },
        )
    }
}

} // verus!

verus! {

/// Splits an item index into its bottle and item.
pub fn from_index(index: u16) -> (r: (u8, u8))
    requires
        index < BOTTLE_COUNT * ITEM_COUNT,
    ensures
        r.0 == index / 16,
        r.1 == index % 16,
        item_index(r.0 as int, r.1 as int) == index,
{
    let bottle = index as usize / ITEM_COUNT;
    let item = index as usize % ITEM_COUNT;
    (bottle as u8, item as u8)
}

/// The index of an item: `bottle * ITEM_COUNT + item`.
pub fn to_index(bottle: u8, item: u8) -> (r: u16)
    requires
        bottle < BOTTLE_COUNT,
        item < ITEM_COUNT,
    ensures
        r == item_index(bottle as int, item as int),
{
    assert(bottle as u16 * 16 <= 31 * 16) by (nonlinear_arith)
        requires
            bottle < 32,
    ;
    bottle as u16 * ITEM_COUNT as u16 + item as u16
}

/// Collects all changes to apply a move, which can be undone. Optional item
/// indices and bottles use zero for "none", as slot zero is reserved.
#[derive(Clone, Copy)]
pub struct Move {
    from_bottle: u8,
    to_bottle: u8,
    count: u8,
    color: u8,
    finalize_bottle: u8,
    show_item: u16,
    unlock_item: u16,
    unplug_bottle: u8,
    unfreeze_run: Bits<2>,
    lift_curtain_range: Bits<2>,
    decrement_safe_counter: Bits<2>,
    remove_key: u16,
    unlock_bottle: Bits<2>,
    lift_color_curtain: Bits<2>,
}

impl View for Move {
    type V = MoveView;

    closed spec fn view(&self) -> MoveView {
        MoveView {
            from: self.from_bottle,
            to: self.to_bottle,
            count: self.count,
            color: self.color,
            finalize: self.finalize_bottle,
            show_item: self.show_item,
            unlock_item: self.unlock_item,
            unplug: self.unplug_bottle,
            unfreeze_run: flags_view(self.unfreeze_run),
            lift_curtain: flags_view(self.lift_curtain_range),
            decrement_safe: flags_view(self.decrement_safe_counter),
            remove_key: self.remove_key,
            unlock_bottle: flags_view(self.unlock_bottle),
            lift_color_curtain: flags_view(self.lift_color_curtain),
        }
    }
}

impl Move {
    /// A move that changes nothing, used to fill buffers.
    pub fn zero() -> (m: Self)
        ensures
            m@.from == 0 && m@.to == 0 && m@.count == 0,
    {
        Move {
            from_bottle: 0,
            to_bottle: 0,
            count: 0,
            color: 0,
            finalize_bottle: 0,
            show_item: 0,
            unlock_item: 0,
            unplug_bottle: 0,
            unfreeze_run: Bits::zero(),
            lift_curtain_range: Bits::zero(),
            decrement_safe_counter: Bits::zero(),
            remove_key: 0,
            unlock_bottle: Bits::zero(),
            lift_color_curtain: Bits::zero(),
        }
    }
}

impl State {
    /// Whether the item joins a pour of `color`.
    pub(crate) fn pour_include(&self, bottle: u8, item: u8, color: u8) -> (r: bool)
        requires
            bottle < BOTTLE_COUNT,
            item < ITEM_COUNT,
        ensures
            r == pour_include_view(self@, bottle as int, item as int, color as int),
    {
        (self.get_color(bottle, item) == color) && !self.get_item_hidden(bottle, item)
            && !self.get_item_locked(bottle, item)
    }

    /// Whether `bottle` would be solved once `add_count` items of
    /// `add_color` are poured onto it.
    pub(crate) fn compute_bottle_finalized(&self, bottle: u8, add_count: u8, add_color: u8) -> (r: bool)
        requires
            wf_view(self@),
            1 <= bottle <= self@.bottle_count,
            add_color < COLOR_COUNT,
        ensures
            r == finalized_after(self@, bottle as int, add_count as int, add_color as int),
    {
        let height = self.get_height(bottle);
        let capacity = self.get_capacity(bottle);
        assert(self@.capacity[bottle as int] <= ITEM_COUNT);
        let bottom_color = self.get_color(bottle, 0);
        let new_bottom_color = if bottom_color == 0 {
            add_color
        } else {
            bottom_color
        };
        let mut finalized = true;
        let mut i: u8 = 0;
        while i < height
            invariant
                wf_view(self@),
                1 <= bottle <= self@.bottle_count,
                height == self@.height[bottle as int],
                height <= ITEM_COUNT,
                i <= height,
                finalized == forall|j: int|
                    0 <= j < i ==> #[trigger] self@.content[bottle as int][j] == new_bottom_color
                        && !self@.hidden[bottle as int][j] && !self@.item_locked[bottle as int][j],
            decreases height - i,
        {
            finalized = finalized && self.get_color(bottle, i) == new_bottom_color
                && !self.get_item_hidden(bottle, i) && !self.get_item_locked(bottle, i);
            i = i + 1;
        }
        if !(height as u16 + add_count as u16 == capacity as u16) || !finalized {
            return false;
        }
        if !(add_color == 0 || add_color == new_bottom_color) {
            return false;
        }
        self.get_color_count(new_bottom_color) == capacity
    }
}

} // verus!

verus! {

impl State {
    /// The maximal run of equal `b` bits around `bottle`, within the
    /// bottles, as flags and as its first and last bottle.
    pub(crate) fn bottle_run(&self, b: Bits<2>, bottle: u8) -> (r: (Bits<2>, (u8, u8)))
        requires
            self@.bottle_count < BOTTLE_COUNT,
            1 <= bottle <= self@.bottle_count,
        ensures
            r.1.0 == run_start(flags_view(b), bottle as int, bottle as int),
            r.1.1 == run_end(flags_view(b), bottle as int, bottle as int, self@.bottle_count as int),
            flags_view(r.0) == Seq::new(32, |i: int| r.1.0 <= i <= r.1.1),
            1 <= r.1.0 <= bottle <= r.1.1 <= self@.bottle_count,
    {
        let ghost bits = flags_view(b);
        let mut out = Bits::<2>::zero();
        let mut start = bottle;
        let mut end = bottle;
        out.set(bottle as usize, true);
        let offset_set = b.has(bottle as usize);
        let mut i = bottle;
        while i > 1
            invariant
                1 <= i <= bottle,
                bottle < 32,
                start == i,
                end == bottle,
                offset_set == bits[bottle as int],
                bits == flags_view(b),
                run_start(bits, bottle as int, bottle as int) == run_start(bits, bottle as int, i as int),
                forall|j: int| 0 <= j < 32 ==> #[trigger] out.spec_has(j) == (i <= j <= bottle),
            ensures
                1 <= start <= bottle,
                end == bottle,
                run_start(bits, bottle as int, bottle as int) == start,
                forall|j: int| 0 <= j < 32 ==> #[trigger] out.spec_has(j) == (start <= j <= bottle),
            decreases i,
        {
            if b.has((i - 1) as usize) != offset_set {
                break;
            }
            out.set((i - 1) as usize, true);
            start = i - 1;
            i = i - 1;
        }
        let mut i = bottle;
        while i < self.bottle_count
            invariant
                bottle <= i <= self@.bottle_count,
                self@.bottle_count < 32,
                end == i,
                1 <= start <= bottle,
                start == run_start(bits, bottle as int, bottle as int),
                offset_set == bits[bottle as int],
                bits == flags_view(b),
                run_end(bits, bottle as int, bottle as int, self@.bottle_count as int) == run_end(
                    bits,
                    bottle as int,
                    i as int,
                    self@.bottle_count as int,
                ),
                forall|j: int| 0 <= j < 32 ==> #[trigger] out.spec_has(j) == (start <= j <= i),
            ensures
                bottle <= end <= self@.bottle_count,
                run_end(bits, bottle as int, bottle as int, self@.bottle_count as int) == end,
                forall|j: int| 0 <= j < 32 ==> #[trigger] out.spec_has(j) == (start <= j <= end),
            decreases self@.bottle_count - i,
        {
            if b.has((i + 1) as usize) != offset_set {
                break;
            }
            out.set((i + 1) as usize, true);
            end = i + 1;
            i = i + 1;
        }
        assert(flags_view(out) =~= Seq::new(32, |j: int| start <= j <= end));
        (out, (start, end))
    }

    /// The bottles whose safe counter is running.
    fn safe_flags(&self) -> (r: Bits<2>)
        requires
            self@.bottle_count < BOTTLE_COUNT,
        ensures
            flags_view(r) == bottle_flags(self@.bottle_count as int, |i: int| self@.safe_counter[i] != 0),
    {
        let mut acc = Bits::<2>::zero();
        let mut i: u8 = 1;
        while i <= self.bottle_count
            invariant
                1 <= i <= self@.bottle_count + 1,
                self@.bottle_count < 32,
                forall|j: int|
                    0 <= j < 32 ==> #[trigger] acc.spec_has(j) == (1 <= j < i && self@.safe_counter[j] != 0),
            decreases self@.bottle_count + 1 - i,
        {
            let counter = self.get_safe_counter(i);
            acc.set(i as usize, counter != 0);
            i = i + 1;
        }
        assert(flags_view(acc) =~= bottle_flags(self@.bottle_count as int, |i: int| self@.safe_counter[i] != 0));
        acc
    }

    /// The bottles whose lock group opens with the key item `key`.
    fn key_flags(&self, key: u16) -> (r: Bits<2>)
        requires
            self@.bottle_count < BOTTLE_COUNT,
        ensures
            flags_view(r) == bottle_flags(self@.bottle_count as int, |i: int| self@.bottle_key[i] == key),
    {
        let mut acc = Bits::<2>::zero();
        let mut i: u8 = 1;
        while i <= self.bottle_count
            invariant
                1 <= i <= self@.bottle_count + 1,
                self@.bottle_count < 32,
                forall|j: int|
                    0 <= j < 32 ==> #[trigger] acc.spec_has(j) == (1 <= j < i && self@.bottle_key[j] == key),
            decreases self@.bottle_count + 1 - i,
        {
            let k = self.get_bottle_key(i);
            acc.set(i as usize, k == key);
            i = i + 1;
        }
        assert(flags_view(acc) =~= bottle_flags(self@.bottle_count as int, |i: int| self@.bottle_key[i] == key));
        acc
    }

    /// The bottles behind a color curtain of `color`.
    fn color_curtain_flags(&self, color: u8) -> (r: Bits<2>)
        requires
            self@.bottle_count < BOTTLE_COUNT,
        ensures
            flags_view(r) == bottle_flags(self@.bottle_count as int, |i: int| self@.color_curtain[i] == color),
    {
        let mut acc = Bits::<2>::zero();
        let mut i: u8 = 1;
        while i <= self.bottle_count
            invariant
                1 <= i <= self@.bottle_count + 1,
                self@.bottle_count < 32,
                forall|j: int|
                    0 <= j < 32 ==> #[trigger] acc.spec_has(j) == (1 <= j < i && self@.color_curtain[j] == color),
            decreases self@.bottle_count + 1 - i,
        {
            let c = self.get_color_curtain(i);
            acc.set(i as usize, c == color);
            i = i + 1;
        }
        assert(flags_view(acc) =~= bottle_flags(self@.bottle_count as int, |i: int| self@.color_curtain[i] == color));
        acc
    }

    /// The curtain groups that still hide a bottle.
    fn curtain_flags(&self) -> (r: Bits<2>)
        requires
            self@.bottle_count < BOTTLE_COUNT,
        ensures
            flags_view(r) == Seq::new(
                32,
                |k: int| k < self@.bottle_count && self@.curtain_to[k] > self@.curtain_from[k],
            ),
    {
        let mut acc = Bits::<2>::zero();
        let mut i: u8 = 0;
        while i < self.bottle_count
            invariant
                0 <= i <= self@.bottle_count,
                self@.bottle_count < 32,
                forall|j: int|
                    0 <= j < 32 ==> #[trigger] acc.spec_has(j) == (0 <= j < i && self@.curtain_to[j] > self@.curtain_from[j]),
            decreases self@.bottle_count - i,
        {
            let value = match self.get_curtain_range(i) {
                Some((from, to)) => to > from,
                None => false,
            };
            acc.set(i as usize, value);
            i = i + 1;
        }
        assert(flags_view(acc) =~= Seq::new(
            32,
            |k: int| k < self@.bottle_count && self@.curtain_to[k] > self@.curtain_from[k],
        ));
        acc
    }
}

} // verus!

verus! {

impl State {
    /// The move that pours from `from` into `to`, or `None` when the
    /// receiving side does not accept it.
    fn move_to(&self, from: u8, to: u8) -> (r: Option<Move>)
        requires
            wf_view(self@),
            1 <= from <= self@.bottle_count,
            1 <= to <= self@.bottle_count,
            can_move_from_view(self@, from as int),
        ensures
            match r {
                Some(m) => move_to_view(self@, from as int, to as int) == Some(m@),
                None => move_to_view(self@, from as int, to as int) is None,
            },
    {
        let ghost v = self@;
        let from_height = self.get_height(from);
        let to_height = self.get_height(to);
        let to_capacity = self.get_capacity(to);
        assert(v.capacity[to as int] <= ITEM_COUNT && v.height[to as int] <= v.capacity[to as int]);
        assert(v.capacity[from as int] <= ITEM_COUNT && v.height[from as int] <= v.capacity[from as int]);
        let space = to_capacity - to_height;
        let from_top_color = self.get_color(from, from_height.saturating_sub(1));
        let to_top_color = self.get_color(to, to_height.saturating_sub(1));
        let to_bottle_color = self.get_bottle_color(to);
        let to_top_item_locked = self.get_item_locked(to, to_height.saturating_sub(1));

        if (from == to) || (space == 0) || (to_height > 0 && from_top_color != to_top_color) || (
        to_height > 0 && to_top_item_locked) || self.get_bottle_plugged(to)
            || self.get_behind_curtain(to) || (self.get_safe_counter(to) != 0)
            || self.get_bottle_locked(to) || (to_bottle_color != 0 && to_bottle_color
            != from_top_color) || self.get_color_curtain_active(to) {
            return None;
        }
        let from_top_item_locked = self.get_item_locked(from, from_height - 1);

        let mut count: u8 = 1;
        if !from_top_item_locked {
            let mut i: u8 = from_height - 1;
            while i > 0 && self.pour_include(from, i - 1, from_top_color)
                invariant
                    wf_view(self@),
                    v == self@,
                    1 <= from <= v.bottle_count,
                    i <= from_height - 1,
                    from_height <= ITEM_COUNT,
                    count + i == from_height,
                    count - 1 + pour_run(v, from as int, from_top_color as int, i as int) == pour_run(
                        v,
                        from as int,
                        from_top_color as int,
                        from_height - 1,
                    ),
                decreases i,
            {
                count = count + 1;
                i = i - 1;
            }
        }
        let count = if count < space {
            count
        } else {
            space
        };
        assert(count == pour_count(v, from as int, to as int));
        let next_from_height = from_height - count;
        let next_from_top_index = next_from_height.saturating_sub(1);

        let to_finalized = self.compute_bottle_finalized(to, count, from_top_color);
        let finalize_bottle = if to_finalized {
            to
        } else {
            0
        };

        let has_key = next_from_height > 0 && self.get_item_has_key(from, next_from_top_index);
        let (remove_key, unlock_bottle) = if has_key {
            let key = to_index(from, next_from_top_index);
            (key, self.key_flags(key))
        } else {
            (0, Bits::zero())
        };

        let show_item = if next_from_height > 0 && self.get_item_hidden(from, next_from_top_index) {
            to_index(from, next_from_top_index)
        } else {
            0
        };
        let unlock_item = if from_top_item_locked {
            to_index(from, from_height - 1)
        } else {
            0
        };
        let unplug_bottle = if next_from_height == 0 && self.get_pluggable_bottle(from) {
            from
        } else {
            0
        };
        let unfreeze_run = if to_finalized && self.get_frozen(to) {
            let (run, _) = self.bottle_run(self.frozen_run, to);
            run
        } else {
            Bits::zero()
        };
        let lift_curtain_range = if to_finalized {
            self.curtain_flags()
        } else {
            Bits::zero()
        };
        let decrement_safe_counter = if to_finalized {
            self.safe_flags()
        } else {
            Bits::zero()
        };
        let lift_color_curtain = if to_finalized {
            self.color_curtain_flags(from_top_color)
        } else {
            Bits::zero()
        };
        let m = Move {
            from_bottle: from,
            to_bottle: to,
            count,
            color: from_top_color,
            finalize_bottle,
            show_item,
            unlock_item,
            unplug_bottle,
            unfreeze_run,
            lift_curtain_range,
            decrement_safe_counter,
            remove_key,
            unlock_bottle,
            lift_color_curtain,
        };
        proof {
            let mv = move_to_view(v, from as int, to as int)->0;
            assert(m@.from == mv.from);
            assert(m@.to == mv.to);
            assert(m@.count == mv.count);
            assert(m@.color == mv.color);
            assert(m@.finalize == mv.finalize);
            assert(m@.show_item == mv.show_item);
            assert(m@.unlock_item == mv.unlock_item);
            assert(m@.unplug == mv.unplug);
            assert(m@.unfreeze_run == mv.unfreeze_run);
            assert(m@.lift_curtain == mv.lift_curtain);
            assert(m@.decrement_safe == mv.decrement_safe);
            assert(m@.remove_key == mv.remove_key);
            assert(m@.unlock_bottle == mv.unlock_bottle);
            assert(m@.lift_color_curtain == mv.lift_color_curtain);
        }
        Some(m)
    }
}

} // verus!

verus! {

/// The bottle of an item index.
pub open spec fn index_bottle(index: int) -> int {
    index / 16
}

/// The item slot of an item index.
pub open spec fn index_item(index: int) -> int {
    index % 16
}

/// Sets one flag of a per-item table.
pub open spec fn set_item_flag(t: Seq<Seq<bool>>, index: int, value: bool) -> Seq<Seq<bool>> {
    t.update(index_bottle(index), t[index_bottle(index)].update(index_item(index), value))
}

/// What a move needs from the state it is applied to: a pour between two
/// different bottles that fits, and change sets that refer to existing
/// items, running counters and curtain groups that still hide a bottle.
pub open spec fn apply_ok(v: StateView, m: MoveView) -> bool {
    let count = v.bottle_count as int;
    &&& 1 <= m.from <= count
    &&& 1 <= m.to <= count
    &&& m.from != m.to
    &&& m.count <= v.height[m.from as int]
    &&& v.height[m.to as int] + m.count <= v.capacity[m.to as int]
    &&& m.color < COLOR_COUNT
    &&& (m.finalize == 0 || 1 <= m.finalize <= count)
    &&& m.show_item < BOTTLE_COUNT * ITEM_COUNT
    &&& m.unlock_item < BOTTLE_COUNT * ITEM_COUNT
    &&& m.remove_key < BOTTLE_COUNT * ITEM_COUNT
    &&& (m.unplug == 0 || 1 <= m.unplug <= count)
    &&& m.unfreeze_run.len() == 32 && m.lift_curtain.len() == 32 && m.decrement_safe.len() == 32
    &&& m.unlock_bottle.len() == 32 && m.lift_color_curtain.len() == 32
    &&& forall|k: int|
        0 <= k < count && #[trigger] m.lift_curtain[k] ==> v.curtain_to[k] > v.curtain_from[k]
    &&& forall|b: int|
        1 <= b <= count && #[trigger] m.decrement_safe[b] ==> v.safe_counter[b] > 0
}

/// Whether bottle `b` is the new top slot of a curtain group that a move
/// lifts.
pub open spec fn curtain_lifted_at(v: StateView, m: MoveView, b: int) -> bool {
    exists|k: int|
        0 <= k < v.bottle_count && #[trigger] m.lift_curtain[k] && v.curtain_to[k] - 1 == b
}

/// The state after applying the move.
pub open spec fn apply_view(v: StateView, m: MoveView) -> StateView {
    let from = m.from as int;
    let to = m.to as int;
    let n = m.count as int;
    let hf = v.height[from] as int;
    let ht = v.height[to] as int;
    let count = v.bottle_count as int;
    let pluggable = if m.unplug != 0 {
        v.pluggable.update(m.unplug as int, false)
    } else {
        v.pluggable
    };
    StateView {
        height: v.height.update(from, (hf - n) as u8).update(to, (ht + n) as u8),
        content: Seq::new(
            32,
            |b: int|
                Seq::new(
                    16,
                    |i: int|
                        if b == from && hf - n <= i < hf {
                            0u8
                        } else if b == to && ht <= i < ht + n {
                            m.color
                        } else {
                            v.content[b][i]
                        },
                ),
        ),
        finalized: if m.finalize != 0 {
            v.finalized.update(m.finalize as int, true)
        } else {
            v.finalized
        },
        hidden: if m.show_item != 0 {
            set_item_flag(v.hidden, m.show_item as int, false)
        } else {
            v.hidden
        },
        item_locked: if m.unlock_item != 0 {
            set_item_flag(v.item_locked, m.unlock_item as int, false)
        } else {
            v.item_locked
        },
        pluggable: pluggable,
        plugged: Seq::new(32, |b: int| !v.plugged[b] && pluggable[b]),
        frozen: Seq::new(32, |b: int| v.frozen[b] && !m.unfreeze_run[b]),
        curtain_to: Seq::new(
            32,
            |k: int|
                if k < count && m.lift_curtain[k] {
                    (v.curtain_to[k] - 1) as u8
                } else {
                    v.curtain_to[k]
                },
        ),
        behind_curtain: Seq::new(
            32,
            |b: int|
                if curtain_lifted_at(v, m, b) {
                    false
                } else {
                    v.behind_curtain[b]
                },
        ),
        safe_counter: Seq::new(
            32,
            |b: int|
                if 1 <= b <= count && m.decrement_safe[b] {
                    (v.safe_counter[b] - 1) as u8
                } else {
                    v.safe_counter[b]
                },
        ),
        has_key: if m.remove_key != 0 {
            set_item_flag(v.has_key, m.remove_key as int, false)
        } else {
            v.has_key
        },
        bottle_locked: if m.remove_key != 0 {
            Seq::new(32, |b: int| v.bottle_locked[b] && !m.unlock_bottle[b])
        } else {
            v.bottle_locked
        },
        color_curtain_active: Seq::new(
            32,
            |b: int| v.color_curtain_active[b] && !m.lift_color_curtain[b],
        ),
        ..v
    }
}

/// What undoing a move needs from the state: the pour can be reversed, and
/// every lifted curtain group still has a bottle outside its curtain.
pub open spec fn undo_ok(v: StateView, m: MoveView) -> bool {
    let count = v.bottle_count as int;
    &&& 1 <= m.from <= count
    &&& 1 <= m.to <= count
    &&& m.from != m.to
    &&& m.count <= v.height[m.to as int]
    &&& v.height[m.from as int] + m.count <= v.capacity[m.from as int]
    &&& m.color < COLOR_COUNT
    &&& (m.finalize == 0 || 1 <= m.finalize <= count)
    &&& m.show_item < BOTTLE_COUNT * ITEM_COUNT
    &&& m.unlock_item < BOTTLE_COUNT * ITEM_COUNT
    &&& m.remove_key < BOTTLE_COUNT * ITEM_COUNT
    &&& (m.unplug == 0 || 1 <= m.unplug <= count)
    &&& m.unfreeze_run.len() == 32 && m.lift_curtain.len() == 32 && m.decrement_safe.len() == 32
    &&& m.unlock_bottle.len() == 32 && m.lift_color_curtain.len() == 32
    &&& forall|k: int|
        0 <= k < count && #[trigger] m.lift_curtain[k] ==> v.curtain_from[k] >= 1
            && v.curtain_to[k] < count + 1
    &&& forall|b: int|
        1 <= b <= count && #[trigger] m.decrement_safe[b] ==> v.safe_counter[b] < MAX_SAFE_COUNTER
}

/// Whether bottle `b` is the first bottle outside a curtain group that the
/// move lifted, which undoing puts back behind the curtain.
pub open spec fn curtain_lowered_at(v: StateView, m: MoveView, b: int) -> bool {
    exists|k: int| 0 <= k < v.bottle_count && #[trigger] m.lift_curtain[k] && v.curtain_to[k] == b
}

/// The state after undoing the move.
pub open spec fn undo_view(v: StateView, m: MoveView) -> StateView {
    let from = m.from as int;
    let to = m.to as int;
    let n = m.count as int;
    let hf = v.height[from] as int;
    let ht = v.height[to] as int;
    let count = v.bottle_count as int;
    StateView {
        height: v.height.update(from, (hf + n) as u8).update(to, (ht - n) as u8),
        content: Seq::new(
            32,
            |b: int|
                Seq::new(
                    16,
                    |i: int|
                        if b == from && hf <= i < hf + n {
                            m.color
                        } else if b == to && ht - n <= i < ht {
                            0u8
                        } else {
                            v.content[b][i]
                        },
                ),
        ),
        finalized: if m.finalize != 0 {
            v.finalized.update(m.finalize as int, false)
        } else {
            v.finalized
        },
        hidden: if m.show_item != 0 {
            set_item_flag(v.hidden, m.show_item as int, true)
        } else {
            v.hidden
        },
        item_locked: if m.unlock_item != 0 {
            set_item_flag(v.item_locked, m.unlock_item as int, true)
        } else {
            v.item_locked
        },
        plugged: Seq::new(32, |b: int| !v.plugged[b] && v.pluggable[b]),
        pluggable: if m.unplug != 0 {
            v.pluggable.update(m.unplug as int, true)
        } else {
            v.pluggable
        },
        frozen: Seq::new(32, |b: int| v.frozen[b] || m.unfreeze_run[b]),
        curtain_to: Seq::new(
            32,
            |k: int|
                if k < count && m.lift_curtain[k] {
                    (v.curtain_to[k] + 1) as u8
                } else {
                    v.curtain_to[k]
                },
        ),
        behind_curtain: Seq::new(
            32,
            |b: int|
                if curtain_lowered_at(v, m, b) {
                    true
                } else {
                    v.behind_curtain[b]
                },
        ),
        safe_counter: Seq::new(
            32,
            |b: int|
                if 1 <= b <= count && m.decrement_safe[b] {
                    (v.safe_counter[b] + 1) as u8
                } else {
                    v.safe_counter[b]
                },
        ),
        has_key: if m.remove_key != 0 {
            set_item_flag(v.has_key, m.remove_key as int, true)
        } else {
            v.has_key
        },
        bottle_locked: if m.remove_key != 0 {
            Seq::new(32, |b: int| v.bottle_locked[b] || m.unlock_bottle[b])
        } else {
            v.bottle_locked
        },
        color_curtain_active: Seq::new(
            32,
            |b: int| v.color_curtain_active[b] || m.lift_color_curtain[b],
        ),
        ..v
    }
}

} // verus!

verus! {

impl State {
    /// Applies a move computed for this state.
    pub(crate) fn apply_move_unchecked(&mut self, mov: Move)
        requires
            wf_view(old(self)@),
            apply_ok(old(self)@, mov@),
        ensures
            final(self)@ == apply_view(old(self)@, mov@),
    {
        let ghost v = self@;
        let ghost m = mov@;
        let from_height = self.get_height(mov.from_bottle);
        let to_height = self.get_height(mov.to_bottle);
        assert(v.capacity[m.to as int] <= ITEM_COUNT);
        assert(v.capacity[m.from as int] <= ITEM_COUNT && v.height[m.from as int] <= v.capacity[m.from as int]);

        let mut i = from_height - mov.count;
        proof {
            let c0 = Seq::new(
                32,
                |b: int|
                    Seq::new(
                        16,
                        |j: int|
                            if b == m.from && from_height - m.count <= j < i {
                                0u8
                            } else {
                                v.content[b][j]
                            },
                    ),
            );
            assert forall|b: int| 0 <= b < 32 implies #[trigger] v.content[b] =~= c0[b] by {}
            assert(v.content =~= c0);
        }
        while i < from_height
            invariant
                wf_view(v),
                apply_ok(v, m),
                m == mov@,
                from_height == v.height[m.from as int],
                from_height <= ITEM_COUNT,
                from_height - mov.count <= i <= from_height,
                self@ == (StateView {
                    content: Seq::new(
                        32,
                        |b: int|
                            Seq::new(
                                16,
                                |j: int|
                                    if b == m.from && from_height - m.count <= j < i {
                                        0u8
                                    } else {
                                        v.content[b][j]
                                    },
                            ),
                    ),
                    ..v
                }),
            decreases from_height - i,
        {
            self.set_color(mov.from_bottle, i, 0);
            i = i + 1;
            proof {
                assert forall|b: int| 0 <= b < 32 implies #[trigger] self@.content[b] =~= Seq::new(
                    16,
                    |j: int|
                        if b == m.from && from_height - m.count <= j < i {
                            0u8
                        } else {
                            v.content[b][j]
                        },
                ) by {}
                assert(self@.content =~= Seq::new(
                    32,
                    |b: int|
                        Seq::new(
                            16,
                            |j: int|
                                if b == m.from && from_height - m.count <= j < i {
                                    0u8
                                } else {
                                    v.content[b][j]
                                },
                        ),
                ));
            }
        }
        let ghost v1 = self@;
        let mut i = to_height;
        proof {
            let c0 = Seq::new(
                32,
                |b: int|
                    Seq::new(
                        16,
                        |j: int|
                            if b == m.to && to_height <= j < i {
                                m.color
                            } else {
                                v1.content[b][j]
                            },
                    ),
            );
            assert forall|b: int| 0 <= b < 32 implies #[trigger] v1.content[b] =~= c0[b] by {}
            assert(v1.content =~= c0);
        }
        while i < to_height + mov.count
            invariant
                wf_view(v),
                apply_ok(v, m),
                m == mov@,
                to_height == v.height[m.to as int],
                to_height + m.count <= ITEM_COUNT,
                to_height <= i <= to_height + mov.count,
                self@ == (StateView {
                    content: Seq::new(
                        32,
                        |b: int|
                            Seq::new(
                                16,
                                |j: int|
                                    if b == m.to && to_height <= j < i {
                                        m.color
                                    } else {
                                        v1.content[b][j]
                                    },
                            ),
                    ),
                    ..v1
                }),
            decreases to_height + mov.count - i,
        {
            self.set_color(mov.to_bottle, i, mov.color);
            i = i + 1;
            proof {
                assert forall|b: int| 0 <= b < 32 implies #[trigger] self@.content[b] =~= Seq::new(
                    16,
                    |j: int|
                        if b == m.to && to_height <= j < i {
                            m.color
                        } else {
                            v1.content[b][j]
                        },
                ) by {}
                assert(self@.content =~= Seq::new(
                    32,
                    |b: int|
                        Seq::new(
                            16,
                            |j: int|
                                if b == m.to && to_height <= j < i {
                                    m.color
                                } else {
                                    v1.content[b][j]
                                },
                        ),
                ));
            }
        }
        assert forall|b: int| 0 <= b < 32 implies #[trigger] self@.content[b] =~= apply_view(
            v,
            m,
        ).content[b] by {}
        assert(self@.content =~= apply_view(v, m).content);

        self.set_height(mov.from_bottle, from_height - mov.count);
        self.set_height(mov.to_bottle, to_height + mov.count);

        if mov.finalize_bottle != 0 {
            self.set_bottle_finalized(mov.finalize_bottle, true);
        }
        if mov.show_item != 0 {
            let (bottle, item) = from_index(mov.show_item);
            self.set_item_hidden(bottle, item, false);
        }
        if mov.unlock_item != 0 {
            let (bottle, item) = from_index(mov.unlock_item);
            self.set_item_locked(bottle, item, false);
        }
        if mov.unplug_bottle != 0 {
            self.set_pluggable_bottle(mov.unplug_bottle, false);
        }
        self.bottle_plugged = self.bottle_plugged.not().bitand(self.pluggable_bottle);
        self.frozen.bitand_assign(mov.unfreeze_run.not());
        assert(self@.plugged =~= apply_view(v, m).plugged);
        assert(self@.frozen =~= apply_view(v, m).frozen);
        let ghost v2 = self@;

        if !mov.lift_curtain_range.is_zero() {
            let mut i: u8 = 0;
            while i < self.bottle_count
                invariant
                    wf_view(v),
                    apply_ok(v, m),
                    m == mov@,
                    v2.bottle_count == v.bottle_count,
                    v2.curtain_from == v.curtain_from,
                    v2.curtain_to == v.curtain_to,
                    v2.behind_curtain == v.behind_curtain,
                    0 <= i <= v.bottle_count,
                    self@ == (StateView {
                        curtain_to: Seq::new(
                            32,
                            |k: int|
                                if k < i && m.lift_curtain[k] {
                                    (v.curtain_to[k] - 1) as u8
                                } else {
                                    v.curtain_to[k]
                                },
                        ),
                        behind_curtain: Seq::new(
                            32,
                            |b: int|
                                if exists|k: int|
                                    0 <= k < i && #[trigger] m.lift_curtain[k] && v.curtain_to[k] - 1
                                        == b {
                                    false
                                } else {
                                    v.behind_curtain[b]
                                },
                        ),
                        ..v2
                    }),
                ensures
                    self@ == (StateView {
                        curtain_to: apply_view(v, m).curtain_to,
                        behind_curtain: apply_view(v, m).behind_curtain,
                        ..v2
                    }),
                decreases v.bottle_count - i,
            {
                if !mov.lift_curtain_range.has(i as usize) {
                    i = i + 1;
                    proof {
                        assert(self@.curtain_to =~= Seq::new(
                            32,
                            |k: int|
                                if k < i && m.lift_curtain[k] {
                                    (v.curtain_to[k] - 1) as u8
                                } else {
                                    v.curtain_to[k]
                                },
                        ));
                        assert forall|b: int| 0 <= b < 32 implies self@.behind_curtain[b] == (if exists|k: int|
                            0 <= k < i && #[trigger] m.lift_curtain[k] && v.curtain_to[k] - 1
                                == b {
                            false
                        } else {
                            v.behind_curtain[b]
                        }) by {
                            if exists|k: int|
                                0 <= k < i && #[trigger] m.lift_curtain[k] && v.curtain_to[k] - 1
                                    == b {
                                let k = choose|k: int|
                                    0 <= k < i && #[trigger] m.lift_curtain[k] && v.curtain_to[k] - 1
                                        == b;
                                if k == i - 1 {
                                    assert(!m.lift_curtain[k]);
                                }
                            }
                        }
                        assert(self@.behind_curtain =~= Seq::new(
                            32,
                            |b: int|
                                if exists|k: int|
                                    0 <= k < i && #[trigger] m.lift_curtain[k] && v.curtain_to[k] - 1
                                        == b {
                                    false
                                } else {
                                    v.behind_curtain[b]
                                },
                        ));
                    }
                    continue;
                }
                let range = self.get_curtain_range(i);
                let (from, to) = match range {
                    Some(r) => r,
                    None => {
                        proof {
                            assert(m.lift_curtain[i as int]);
                            assert(false);
                        }
                        break;
                    },
                };
                assert(from == v.curtain_from[i as int] && to == v.curtain_to[i as int]);
                self.set_curtain_range(i, from, to - 1);
                self.set_behind_curtain(to - 1, false);
                i = i + 1;
                proof {
                    assert(self@.curtain_to =~= Seq::new(
                        32,
                        |k: int|
                            if k < i && m.lift_curtain[k] {
                                (v.curtain_to[k] - 1) as u8
                            } else {
                                v.curtain_to[k]
                            },
                    ));
                    assert(self@.curtain_from =~= v2.curtain_from);
                    assert forall|b: int| 0 <= b < 32 implies self@.behind_curtain[b] == (if exists|k: int|
                        0 <= k < i && #[trigger] m.lift_curtain[k] && v.curtain_to[k] - 1 == b {
                        false
                    } else {
                        v.behind_curtain[b]
                    }) by {
                        if b == to - 1 {
                            assert(m.lift_curtain[i - 1]);
                        } else if exists|k: int|
                            0 <= k < i && #[trigger] m.lift_curtain[k] && v.curtain_to[k] - 1 == b {
                            let k = choose|k: int|
                                0 <= k < i && #[trigger] m.lift_curtain[k] && v.curtain_to[k] - 1
                                    == b;
                            assert(k != i - 1);
                        }
                    }
                    assert(self@.behind_curtain =~= Seq::new(
                        32,
                        |b: int|
                            if exists|k: int|
                                0 <= k < i && #[trigger] m.lift_curtain[k] && v.curtain_to[k] - 1
                                    == b {
                                false
                            } else {
                                v.behind_curtain[b]
                            },
                    ));
                }
            }
        } else {
            assert forall|k: int| 0 <= k < 32 implies !m.lift_curtain[k] by {}
            assert(apply_view(v, m).curtain_to =~= v.curtain_to);
            assert(apply_view(v, m).behind_curtain =~= v.behind_curtain);
        }
        let ghost v3 = self@;

        if !mov.decrement_safe_counter.is_zero() {
            let mut i: u8 = 1;
            while i <= self.bottle_count
                invariant
                    wf_view(v),
                    apply_ok(v, m),
                    m == mov@,
                    v3.bottle_count == v.bottle_count,
                    v3.safe_counter == v.safe_counter,
                    1 <= i <= (v.bottle_count + 1) as int,
                    self@ == (StateView {
                        safe_counter: Seq::new(
                            32,
                            |b: int|
                                if 1 <= b < i && m.decrement_safe[b] {
                                    (v.safe_counter[b] - 1) as u8
                                } else {
                                    v.safe_counter[b]
                                },
                        ),
                        ..v3
                    }),
                decreases v.bottle_count + 1 - i,
            {
                let dec: u8 = if mov.decrement_safe_counter.has(i as usize) {
                    1
                } else {
                    0
                };
                assert(m.decrement_safe[i as int] == (dec == 1));
                assert(dec == 1 ==> v.safe_counter[i as int] > 0);
                let new_counter = self.get_safe_counter(i) - dec;
                self.set_safe_counter(i, new_counter);
                i = i + 1;
                assert(self@.safe_counter =~= Seq::new(
                    32,
                    |b: int|
                        if 1 <= b < i && m.decrement_safe[b] {
                            (v.safe_counter[b] - 1) as u8
                        } else {
                            v.safe_counter[b]
                        },
                ));
            }
            assert(self@.safe_counter =~= apply_view(v, m).safe_counter);
        } else {
            assert forall|k: int| 0 <= k < 32 implies !m.decrement_safe[k] by {}
            assert(apply_view(v, m).safe_counter =~= v.safe_counter);
        }

        if mov.remove_key != 0 {
            let (bottle, item) = from_index(mov.remove_key);
            self.set_item_has_key(bottle, item, false);
            self.bottle_locked.bitand_assign(mov.unlock_bottle.not());
            assert(self@.bottle_locked =~= apply_view(v, m).bottle_locked);
        }
        self.color_curtain_active.bitand_assign(mov.lift_color_curtain.not());
        assert(self@.color_curtain_active =~= apply_view(v, m).color_curtain_active);
        assert(self@ =~= apply_view(v, m));
    }
}

} // verus!

verus! {

impl State {
    /// Reverts a move that was applied to reach this state.
    pub(crate) fn undo_move_unchecked(&mut self, mov: Move)
        requires
            wf_view(old(self)@),
            undo_ok(old(self)@, mov@),
        ensures
            final(self)@ == undo_view(old(self)@, mov@),
    {
        let ghost v = self@;
        let ghost m = mov@;
        let from_height = self.get_height(mov.from_bottle);
        let to_height = self.get_height(mov.to_bottle);
        assert(v.capacity[m.from as int] <= ITEM_COUNT);
        assert(v.capacity[m.to as int] <= ITEM_COUNT && v.height[m.to as int] <= v.capacity[m.to as int]);

        let mut i = from_height;
        proof {
            let c0 = Seq::new(
                32,
                |b: int|
                    Seq::new(
                        16,
                        |j: int|
                            if b == m.from && from_height <= j < i {
                                m.color
                            } else {
                                v.content[b][j]
                            },
                    ),
            );
            assert forall|b: int| 0 <= b < 32 implies #[trigger] v.content[b] =~= c0[b] by {}
            assert(v.content =~= c0);
        }
        while i < from_height + mov.count
            invariant
                wf_view(v),
                undo_ok(v, m),
                m == mov@,
                from_height == v.height[m.from as int],
                from_height + m.count <= ITEM_COUNT,
                from_height <= i <= from_height + mov.count,
                self@ == (StateView {
                    content: Seq::new(
                        32,
                        |b: int|
                            Seq::new(
                                16,
                                |j: int|
                                    if b == m.from && from_height <= j < i {
                                        m.color
                                    } else {
                                        v.content[b][j]
                                    },
                            ),
                    ),
                    ..v
                }),
            decreases from_height + mov.count - i,
        {
            self.set_color(mov.from_bottle, i, mov.color);
            i = i + 1;
            proof {
                assert forall|b: int| 0 <= b < 32 implies #[trigger] self@.content[b] =~= Seq::new(
                    16,
                    |j: int|
                        if b == m.from && from_height <= j < i {
                            m.color
                        } else {
                            v.content[b][j]
                        },
                ) by {}
                assert(self@.content =~= Seq::new(
                    32,
                    |b: int|
                        Seq::new(
                            16,
                            |j: int|
                                if b == m.from && from_height <= j < i {
                                    m.color
                                } else {
                                    v.content[b][j]
                                },
                        ),
                ));
            }
        }
        let ghost v1 = self@;
        let mut i = to_height - mov.count;
        proof {
            let c0 = Seq::new(
                32,
                |b: int|
                    Seq::new(
                        16,
                        |j: int|
                            if b == m.to && to_height - m.count <= j < i {
                                0u8
                            } else {
                                v1.content[b][j]
                            },
                    ),
            );
            assert forall|b: int| 0 <= b < 32 implies #[trigger] v1.content[b] =~= c0[b] by {}
            assert(v1.content =~= c0);
        }
        while i < to_height
            invariant
                wf_view(v),
                undo_ok(v, m),
                m == mov@,
                to_height == v.height[m.to as int],
                to_height <= ITEM_COUNT,
                to_height - m.count <= i <= to_height,
                self@ == (StateView {
                    content: Seq::new(
                        32,
                        |b: int|
                            Seq::new(
                                16,
                                |j: int|
                                    if b == m.to && to_height - m.count <= j < i {
                                        0u8
                                    } else {
                                        v1.content[b][j]
                                    },
                            ),
                    ),
                    ..v1
                }),
            decreases to_height - i,
        {
            self.set_color(mov.to_bottle, i, 0);
            i = i + 1;
            proof {
                assert forall|b: int| 0 <= b < 32 implies #[trigger] self@.content[b] =~= Seq::new(
                    16,
                    |j: int|
                        if b == m.to && to_height - m.count <= j < i {
                            0u8
                        } else {
                            v1.content[b][j]
                        },
                ) by {}
                assert(self@.content =~= Seq::new(
                    32,
                    |b: int|
                        Seq::new(
                            16,
                            |j: int|
                                if b == m.to && to_height - m.count <= j < i {
                                    0u8
                                } else {
                                    v1.content[b][j]
                                },
                        ),
                ));
            }
        }
        assert forall|b: int| 0 <= b < 32 implies #[trigger] self@.content[b] =~= undo_view(
            v,
            m,
        ).content[b] by {}
        assert(self@.content =~= undo_view(v, m).content);

        self.set_height(mov.from_bottle, from_height + mov.count);
        self.set_height(mov.to_bottle, to_height - mov.count);

        if mov.finalize_bottle != 0 {
            self.set_bottle_finalized(mov.finalize_bottle, false);
        }
        if mov.show_item != 0 {
            let (bottle, item) = from_index(mov.show_item);
            self.set_item_hidden(bottle, item, true);
        }
        if mov.unlock_item != 0 {
            let (bottle, item) = from_index(mov.unlock_item);
            self.set_item_locked(bottle, item, true);
        }
        self.bottle_plugged = self.bottle_plugged.not().bitand(self.pluggable_bottle);
        if mov.unplug_bottle != 0 {
            self.set_pluggable_bottle(mov.unplug_bottle, true);
        }
        self.frozen.bitor_assign(mov.unfreeze_run);
        assert(self@.plugged =~= undo_view(v, m).plugged);
        assert(self@.frozen =~= undo_view(v, m).frozen);
        let ghost v2 = self@;

        if !mov.lift_curtain_range.is_zero() {
            let mut i: u8 = 0;
            while i < self.bottle_count
                invariant
                    wf_view(v),
                    undo_ok(v, m),
                    m == mov@,
                    v2.bottle_count == v.bottle_count,
                    v2.curtain_from == v.curtain_from,
                    v2.curtain_to == v.curtain_to,
                    v2.behind_curtain == v.behind_curtain,
                    0 <= i <= v.bottle_count,
                    self@ == (StateView {
                        curtain_to: Seq::new(
                            32,
                            |k: int|
                                if k < i && m.lift_curtain[k] {
                                    (v.curtain_to[k] + 1) as u8
                                } else {
                                    v.curtain_to[k]
                                },
                        ),
                        behind_curtain: Seq::new(
                            32,
                            |b: int|
                                if exists|k: int|
                                    0 <= k < i && #[trigger] m.lift_curtain[k] && v.curtain_to[k]
                                        == b {
                                    true
                                } else {
                                    v.behind_curtain[b]
                                },
                        ),
                        ..v2
                    }),
                ensures
                    self@ == (StateView {
                        curtain_to: undo_view(v, m).curtain_to,
                        behind_curtain: undo_view(v, m).behind_curtain,
                        ..v2
                    }),
                decreases v.bottle_count - i,
            {
                if !mov.lift_curtain_range.has(i as usize) {
                    i = i + 1;
                    proof {
                        assert(self@.curtain_to =~= Seq::new(
                            32,
                            |k: int|
                                if k < i && m.lift_curtain[k] {
                                    (v.curtain_to[k] + 1) as u8
                                } else {
                                    v.curtain_to[k]
                                },
                        ));
                        assert forall|b: int| 0 <= b < 32 implies self@.behind_curtain[b] == (if exists|k: int|
                            0 <= k < i && #[trigger] m.lift_curtain[k] && v.curtain_to[k] == b {
                            true
                        } else {
                            v.behind_curtain[b]
                        }) by {
                            if exists|k: int|
                                0 <= k < i && #[trigger] m.lift_curtain[k] && v.curtain_to[k] == b {
                                let k = choose|k: int|
                                    0 <= k < i && #[trigger] m.lift_curtain[k] && v.curtain_to[k]
                                        == b;
                                if k == i - 1 {
                                    assert(!m.lift_curtain[k]);
                                }
                            }
                        }
                        assert(self@.behind_curtain =~= Seq::new(
                            32,
                            |b: int|
                                if exists|k: int|
                                    0 <= k < i && #[trigger] m.lift_curtain[k] && v.curtain_to[k]
                                        == b {
                                    true
                                } else {
                                    v.behind_curtain[b]
                                },
                        ));
                    }
                    continue;
                }
                let range = self.get_curtain_range(i);
                let (from, to) = match range {
                    Some(r) => r,
                    None => {
                        proof {
                            assert(m.lift_curtain[i as int]);
                            assert(false);
                        }
                        break;
                    },
                };
                assert(from == v.curtain_from[i as int] && to == v.curtain_to[i as int]);
                assert(m.lift_curtain[i as int]);
                self.set_curtain_range(i, from, to + 1);
                self.set_behind_curtain(to, true);
                i = i + 1;
                proof {
                    assert(self@.curtain_to =~= Seq::new(
                        32,
                        |k: int|
                            if k < i && m.lift_curtain[k] {
                                (v.curtain_to[k] + 1) as u8
                            } else {
                                v.curtain_to[k]
                            },
                    ));
                    assert(self@.curtain_from =~= v2.curtain_from);
                    assert forall|b: int| 0 <= b < 32 implies self@.behind_curtain[b] == (if exists|k: int|
                        0 <= k < i && #[trigger] m.lift_curtain[k] && v.curtain_to[k] == b {
                        true
                    } else {
                        v.behind_curtain[b]
                    }) by {
                        if b == to {
                            assert(m.lift_curtain[i - 1]);
                        } else if exists|k: int|
                            0 <= k < i && #[trigger] m.lift_curtain[k] && v.curtain_to[k] == b {
                            let k = choose|k: int|
                                0 <= k < i && #[trigger] m.lift_curtain[k] && v.curtain_to[k] == b;
                            assert(k != i - 1);
                        }
                    }
                    assert(self@.behind_curtain =~= Seq::new(
                        32,
                        |b: int|
                            if exists|k: int|
                                0 <= k < i && #[trigger] m.lift_curtain[k] && v.curtain_to[k]
                                    == b {
                                true
                            } else {
                                v.behind_curtain[b]
                            },
                    ));
                }
            }
        } else {
            assert forall|k: int| 0 <= k < 32 implies !m.lift_curtain[k] by {}
            assert(undo_view(v, m).curtain_to =~= v.curtain_to);
            assert(undo_view(v, m).behind_curtain =~= v.behind_curtain);
        }
        let ghost v3 = self@;

        if !mov.decrement_safe_counter.is_zero() {
            let mut i: u8 = 1;
            while i <= self.bottle_count
                invariant
                    wf_view(v),
                    undo_ok(v, m),
                    m == mov@,
                    v3.bottle_count == v.bottle_count,
                    v3.safe_counter == v.safe_counter,
                    1 <= i <= (v.bottle_count + 1) as int,
                    self@ == (StateView {
                        safe_counter: Seq::new(
                            32,
                            |b: int|
                                if 1 <= b < i && m.decrement_safe[b] {
                                    (v.safe_counter[b] + 1) as u8
                                } else {
                                    v.safe_counter[b]
                                },
                        ),
                        ..v3
                    }),
                decreases v.bottle_count + 1 - i,
            {
                let inc: u8 = if mov.decrement_safe_counter.has(i as usize) {
                    1
                } else {
                    0
                };
                assert(m.decrement_safe[i as int] == (inc == 1));
                assert(inc == 1 ==> v.safe_counter[i as int] < MAX_SAFE_COUNTER);
                assert(v.safe_counter[i as int] <= MAX_SAFE_COUNTER);
                let new_counter = self.get_safe_counter(i) + inc;
                self.set_safe_counter(i, new_counter);
                i = i + 1;
                assert(self@.safe_counter =~= Seq::new(
                    32,
                    |b: int|
                        if 1 <= b < i && m.decrement_safe[b] {
                            (v.safe_counter[b] + 1) as u8
                        } else {
                            v.safe_counter[b]
                        },
                ));
            }
            assert(self@.safe_counter =~= undo_view(v, m).safe_counter);
        } else {
            assert forall|k: int| 0 <= k < 32 implies !m.decrement_safe[k] by {}
            assert(undo_view(v, m).safe_counter =~= v.safe_counter);
        }

        if mov.remove_key != 0 {
            let (bottle, item) = from_index(mov.remove_key);
            self.set_item_has_key(bottle, item, true);
            self.bottle_locked.bitor_assign(mov.unlock_bottle);
            assert(self@.bottle_locked =~= undo_view(v, m).bottle_locked);
        }
        self.color_curtain_active.bitor_assign(mov.lift_color_curtain);
        assert(self@.color_curtain_active =~= undo_view(v, m).color_curtain_active);
        assert(self@ =~= undo_view(v, m));
    }
}

} // verus!

verus! {

/// What makes a move exactly reversible in the state it is applied to: the
/// poured items are there, and every flag the move clears or counter it
/// lowers is set or running before.
pub open spec fn undoable(v: StateView, m: MoveView) -> bool {
    let from = m.from as int;
    let to = m.to as int;
    let hf = v.height[from] as int;
    let count = v.bottle_count as int;
    &&& forall|i: int| hf - m.count <= i < hf ==> #[trigger] v.content[from][i] == m.color
    &&& (m.finalize != 0 ==> !v.finalized[m.finalize as int])
    &&& (m.show_item != 0 ==> v.hidden[index_bottle(m.show_item as int)][index_item(
        m.show_item as int,
    )])
    &&& (m.unlock_item != 0 ==> v.item_locked[index_bottle(m.unlock_item as int)][index_item(
        m.unlock_item as int,
    )])
    &&& (m.remove_key != 0 ==> v.has_key[index_bottle(m.remove_key as int)][index_item(
        m.remove_key as int,
    )])
    &&& (m.unplug != 0 ==> !v.plugged[m.unplug as int] && v.pluggable[m.unplug as int])
    &&& forall|b: int| 0 <= b < 32 && #[trigger] m.unfreeze_run[b] ==> v.frozen[b]
    &&& forall|k: int|
        0 <= k < count && #[trigger] m.lift_curtain[k] ==> v.behind_curtain[v.curtain_to[k] - 1]
    &&& (m.remove_key != 0 ==> forall|b: int|
        0 <= b < 32 && #[trigger] m.unlock_bottle[b] ==> v.bottle_locked[b])
    &&& forall|b: int| 0 <= b < 32 && #[trigger] m.lift_color_curtain[b] ==> v.color_curtain_active[b]
}

/// Applying a move keeps the basic shape of the state.
#[verifier::spinoff_prover]
#[verifier::rlimit(30)]
pub proof fn lemma_apply_wf(v: StateView, m: MoveView)
    requires
        wf_view(v),
        apply_ok(v, m),
    ensures
        wf_view(apply_view(v, m)),
{
    let a = apply_view(v, m);
    assert forall|b: int, i: int|
        1 <= b <= a.bottle_count && a.height[b] <= i < 16 implies #[trigger] a.content[b][i] == 0 by {
        assert(v.content[b][i] == 0 || (b == m.from && i >= a.height[b]));
    }
    assert forall|k: int| 0 <= k < 32 implies (#[trigger] a.curtain_from[k] == 0 && a.curtain_to[k]
        == 0) || (1 <= a.curtain_from[k] <= a.curtain_to[k] <= a.bottle_count + 1 && k
        < a.bottle_count) by {
        if k < v.bottle_count && m.lift_curtain[k] {
            assert(v.curtain_to[k] > v.curtain_from[k]);
        }
    }
}

/// Undoing a move right after applying it gives back the state it was
/// applied to.
pub proof fn lemma_undo_after_apply(v: StateView, m: MoveView)
    requires
        wf_view(v),
        apply_ok(v, m),
        undoable(v, m),
    ensures
        undo_ok(apply_view(v, m), m),
        undo_view(apply_view(v, m), m) == v,
{
    let a = apply_view(v, m);
    let u = undo_view(a, m);
    lemma_apply_wf(v, m);
    assert forall|k: int|
        0 <= k < a.bottle_count && #[trigger] m.lift_curtain[k] implies a.curtain_from[k] >= 1
        && a.curtain_to[k] < a.bottle_count + 1 by {
        assert(v.curtain_to[k] > v.curtain_from[k]);
    }
    assert forall|b: int| 0 <= b < 32 implies #[trigger] u.content[b] =~= v.content[b] by {
        assert forall|i: int| 0 <= i < 16 implies u.content[b][i] == v.content[b][i] by {
            if b == m.to && v.height[m.to as int] <= i < v.height[m.to as int] + m.count {
                assert(v.content[b][i] == 0);
            }
        }
    }
    assert(u.content =~= v.content);
    assert(u.height =~= v.height);
    assert(u.finalized =~= v.finalized);
    if m.show_item != 0 {
        let ib = index_bottle(m.show_item as int);
        assert(u.hidden[ib] =~= v.hidden[ib]);
    }
    assert(u.hidden =~= v.hidden);
    if m.unlock_item != 0 {
        let ib = index_bottle(m.unlock_item as int);
        assert(u.item_locked[ib] =~= v.item_locked[ib]);
    }
    assert(u.item_locked =~= v.item_locked);
    if m.remove_key != 0 {
        let ib = index_bottle(m.remove_key as int);
        assert(u.has_key[ib] =~= v.has_key[ib]);
    }
    assert(u.has_key =~= v.has_key);
    assert(u.pluggable =~= v.pluggable);
    assert(u.plugged =~= v.plugged);
    assert(u.frozen =~= v.frozen);
    assert forall|k: int| 0 <= k < 32 implies #[trigger] u.curtain_to[k] == v.curtain_to[k] by {
        if k < v.bottle_count && m.lift_curtain[k] {
            assert(v.curtain_to[k] > v.curtain_from[k]);
        }
    }
    assert(u.curtain_to =~= v.curtain_to);
    assert forall|b: int| 0 <= b < 32 implies #[trigger] u.behind_curtain[b] == v.behind_curtain[b] by {
        if curtain_lowered_at(a, m, b) {
            let k = choose|k: int|
                0 <= k < a.bottle_count && #[trigger] m.lift_curtain[k] && a.curtain_to[k] == b;
            assert(v.curtain_to[k] > v.curtain_from[k]);
            assert(v.behind_curtain[v.curtain_to[k] - 1]);
        } else if curtain_lifted_at(v, m, b) {
            let k = choose|k: int|
                0 <= k < v.bottle_count && #[trigger] m.lift_curtain[k] && v.curtain_to[k] - 1 == b;
            assert(v.curtain_to[k] > v.curtain_from[k]);
            assert(a.curtain_to[k] == b);
        }
    }
    assert(u.behind_curtain =~= v.behind_curtain);
    assert(u.safe_counter =~= v.safe_counter);
    assert(u.bottle_locked =~= v.bottle_locked);
    assert(u.color_curtain_active =~= v.color_curtain_active);
    assert(u =~= v);
}

} // verus!

verus! {

/// Whether `v` is solved: every non-empty bottle is finalized.
pub open spec fn solved_view(v: StateView) -> bool {
    forall|b: int| 1 <= b <= v.bottle_count ==> #[trigger] v.height[b] == 0 || v.finalized[b]
}

/// Whether pouring from `from` into `to` is a legal move.
pub open spec fn pour_allowed(v: StateView, from: int, to: int) -> bool {
    &&& 1 <= from <= v.bottle_count
    &&& 1 <= to <= v.bottle_count
    &&& can_move_from_view(v, from)
    &&& !pour_blocked(v, from, to)
}

/// The legal moves out of `from` into the bottles `1..to`, in order.
pub open spec fn row_moves(v: StateView, from: int, to: int) -> Seq<MoveView>
    decreases to,
{
    if to <= 1 {
        Seq::empty()
    } else {
        let rest = row_moves(v, from, to - 1);
        if pour_allowed(v, from, to - 1) {
            rest.push(move_to_view(v, from, to - 1)->0)
        } else {
            rest
        }
    }
}

/// The legal moves out of the bottles `1..from`, ordered by source, then by
/// destination.
pub open spec fn moves_upto(v: StateView, from: int) -> Seq<MoveView>
    decreases from,
{
    if from <= 1 {
        Seq::empty()
    } else {
        moves_upto(v, from - 1) + row_moves(v, from - 1, (v.bottle_count + 1) as int)
    }
}

/// All legal moves of `v`.
pub open spec fn moves_view(v: StateView) -> Seq<MoveView> {
    moves_upto(v, (v.bottle_count + 1) as int)
}

proof fn lemma_row_len(v: StateView, from: int, to: int)
    ensures
        row_moves(v, from, to).len() <= if to < 1 {
            0
        } else {
            to - 1
        },
    decreases to,
{
    if to > 1 {
        lemma_row_len(v, from, to - 1);
    }
}

proof fn lemma_moves_len(v: StateView, from: int)
    requires
        0 <= v.bottle_count < 32,
    ensures
        moves_upto(v, from).len() <= if from < 1 {
            0
        } else {
            (from - 1) * v.bottle_count
        },
    decreases from,
{
    if from > 1 {
        lemma_moves_len(v, from - 1);
        lemma_row_len(v, from - 1, (v.bottle_count + 1) as int);
        assert((from - 2) * v.bottle_count + v.bottle_count == (from - 1) * v.bottle_count)
            by (nonlinear_arith);
    }
}

/// The legal pours of a state, as a table over source and destination.
#[derive(Clone, Copy)]
pub struct Pours(Bits<64>);

impl Pours {
    /// Whether the table holds the pour from `from` into `to`.
    pub closed spec fn spec_has(&self, from: int, to: int) -> bool {
        self.0.spec_has(from * 32 + to)
    }

    fn with(self, from: u8, to: u8) -> (r: Self)
        requires
            1 <= from < BOTTLE_COUNT,
            1 <= to < BOTTLE_COUNT,
        ensures
            r.spec_has(from as int, to as int),
            forall|f: int, t: int|
                #![trigger r.spec_has(f, t)]
                0 <= f < 32 && 0 <= t < 32 && (f != from || t != to) ==> r.spec_has(f, t)
                    == self.spec_has(f, t),
    {
        let mut p = self;
        p.0.set(from as usize * BOTTLE_COUNT + to as usize, true);
        assert forall|f: int, t: int|
            0 <= f < 32 && 0 <= t < 32 && (f != from || t != to) implies p.spec_has(f, t)
            == self.spec_has(f, t) by {
            assert(f * 32 + t != from * 32 + to);
            assert(0 <= f * 32 + t < 1024);
        }
        p
    }

    /// Whether no pour is possible.
    pub fn is_empty(&self) -> (r: bool)
        ensures
            r == forall|f: int, t: int|
                0 <= f < 32 && 0 <= t < 32 ==> !#[trigger] self.spec_has(f, t),
    {
        let r = self.0.is_zero();
        proof {
            if !r {
                let i = choose|i: int| 0 <= i < 1024 && self.0.spec_has(i);
                assert(i == (i / 32) * 32 + i % 32);
                assert(self.spec_has(i / 32, i % 32));
            }
        }
        r
    }

    /// Whether pouring from `from` into `to` is possible.
    pub fn has(&self, from: u8, to: u8) -> (r: bool)
        requires
            1 <= from < BOTTLE_COUNT,
            1 <= to < BOTTLE_COUNT,
        ensures
            r == self.spec_has(from as int, to as int),
    {
        self.0.has(from as usize * BOTTLE_COUNT + to as usize)
    }
}

/// Why a pour was refused.
#[derive(Clone, Copy, PartialEq, Eq, Debug)]
pub enum PourError {
    /// Every bottle is already solved.
    AlreadySolved,
    /// The pour is not a legal move.
    MoveNotAllowed,
}

impl State {
    /// The well-formedness that every state built from a starting state keeps.
    pub open spec fn wf(&self) -> bool {
        wf_view(self@)
    }

    /// The bottles, numbered `1..=bottle_count`.
    pub fn bottles(&self) -> (r: std::ops::Range<u8>)
        requires
            self.wf(),
        ensures
            r.start == 1,
            r.end == self@.bottle_count + 1,
    {
        1..self.bottle_count + 1
    }

    /// The number of bottles.
    pub fn bottle_count(&self) -> (r: u8)
        ensures
            r == self@.bottle_count,
    {
        self.bottle_count
    }

    /// Whether every non-empty bottle is solved.
    pub fn solved(&self) -> (r: bool)
        requires
            self.wf(),
        ensures
            r == solved_view(self@),
    {
        let mut bottle: u8 = 1;
        while bottle <= self.bottle_count
            invariant
                self.wf(),
                1 <= bottle <= self@.bottle_count + 1,
                forall|b: int| 1 <= b < bottle ==> #[trigger] self@.height[b] == 0 || self@.finalized[b],
            decreases self@.bottle_count + 1 - bottle,
        {
            if self.get_height(bottle) != 0 && !self.get_bottle_finalized(bottle) {
                return false;
            }
            bottle = bottle + 1;
        }
        true
    }

    /// Whether the player can pour out of `bottle`.
    pub fn can_move_from(&self, bottle: u8) -> (r: bool)
        requires
            bottle < BOTTLE_COUNT,
        ensures
            r == can_move_from_view(self@, bottle as int),
    {
        let from_height = self.get_height(bottle);
        let invalid = (from_height == 0) || self.get_bottle_immovable(bottle)
            || self.get_bottle_plugged(bottle) || self.get_frozen(bottle)
            || self.get_bottle_finalized(bottle) || self.get_behind_curtain(bottle)
            || (self.get_safe_counter(bottle) != 0) || self.get_bottle_locked(bottle)
            || self.get_color_curtain_active(bottle);
        !invalid
    }

    /// Writes all legal moves into `buffer`, ordered by source, then by
    /// destination, and returns their number.
    pub(crate) fn fill_moves(&self, buffer: &mut [Move; 1024]) -> (n: usize)
        requires
            self.wf(),
        ensures
            n == moves_view(self@).len(),
            n <= 1024,
            forall|i: int| 0 <= i < n ==> #[trigger] final(buffer)@[i]@ == moves_view(self@)[i],
            forall|i: int| n <= i < 1024 ==> #[trigger] final(buffer)@[i] == old(buffer)@[i],
    {
        let ghost v = self@;
        let mut index: usize = 0;
        let mut from: u8 = 1;
        while from <= self.bottle_count
            invariant
                self.wf(),
                v == self@,
                1 <= from <= (v.bottle_count + 1) as int,
                index == moves_upto(v, from as int).len(),
                forall|i: int| 0 <= i < index ==> #[trigger] buffer@[i]@ == moves_upto(v, from as int)[i],
                forall|i: int| index <= i < 1024 ==> #[trigger] buffer@[i] == old(buffer)@[i],
            decreases v.bottle_count + 1 - from,
        {
            proof {
                lemma_moves_len(v, from as int);
                assert((from - 1) * v.bottle_count <= 30 * 31) by (nonlinear_arith)
                    requires
                        from <= v.bottle_count,
                        v.bottle_count < 32,
                ;
            }
            if self.can_move_from(from) {
                let mut to: u8 = 1;
                while to <= self.bottle_count
                    invariant
                        self.wf(),
                        v == self@,
                        1 <= from <= v.bottle_count,
                        can_move_from_view(v, from as int),
                        1 <= to <= (v.bottle_count + 1) as int,
                        moves_upto(v, from as int).len() <= (from - 1) * v.bottle_count,
                        (from - 1) * v.bottle_count <= 30 * 31,
                        index == moves_upto(v, from as int).len() + row_moves(v, from as int, to as int).len(),
                        forall|i: int|
                            0 <= i < index ==> #[trigger] buffer@[i]@ == (moves_upto(v, from as int)
                                + row_moves(v, from as int, to as int))[i],
                        forall|i: int| index <= i < 1024 ==> #[trigger] buffer@[i] == old(buffer)@[i],
                    decreases v.bottle_count + 1 - to,
                {
                    proof {
                        lemma_row_len(v, from as int, to as int);
                    }
                    match self.move_to(from, to) {
                        Some(mov) => {
                            buffer[index] = mov;
                            index = index + 1;
                        },
                        None => {},
                    }
                    to = to + 1;
                }
            } else {
                proof {
                    lemma_row_empty(v, from as int, (v.bottle_count + 1) as int);
                }
            }
            assert(moves_upto(v, from + 1) == moves_upto(v, from as int) + row_moves(
                v,
                from as int,
                (v.bottle_count + 1) as int,
            ));
            from = from + 1;
        }
        proof {
            lemma_moves_len(v, (v.bottle_count + 1) as int);
            assert(v.bottle_count * v.bottle_count <= 31 * 31) by (nonlinear_arith)
                requires
                    v.bottle_count < 32,
            ;
        }
        index
    }

    /// All legal moves, or `None` when the state is solved.
    pub(crate) fn moves(&self) -> (r: Option<Vec<Move>>)
        requires
            self.wf(),
        ensures
            match r {
                None => solved_view(self@),
                Some(ms) => !solved_view(self@) && ms@.len() == moves_view(self@).len() && forall|i: int|
                    0 <= i < ms@.len() ==> #[trigger] ms@[i]@ == moves_view(self@)[i],
            },
    {
        if self.solved() {
            return None;
        }
        Some(self.legal_moves())
    }

    /// All legal moves, in the order of `moves_view`.
    pub(crate) fn legal_moves(&self) -> (ms: Vec<Move>)
        requires
            self.wf(),
        ensures
            ms@.len() == moves_view(self@).len(),
            forall|i: int| 0 <= i < ms@.len() ==> #[trigger] ms@[i]@ == moves_view(self@)[i],
    {
        let mut buffer = [Move::zero(); 1024];
        let n = self.fill_moves(&mut buffer);
        let mut out: Vec<Move> = Vec::new();
        let mut i: usize = 0;
        while i < n
            invariant
                n == moves_view(self@).len(),
                n <= 1024,
                i <= n,
                out@.len() == i,
                forall|j: int| 0 <= j < n ==> #[trigger] buffer@[j]@ == moves_view(self@)[j],
                forall|j: int| 0 <= j < i ==> #[trigger] out@[j]@ == moves_view(self@)[j],
            decreases n - i,
        {
            out.push(buffer[i]);
            i = i + 1;
        }
        out
    }
}

proof fn lemma_row_empty(v: StateView, from: int, to: int)
    requires
        !can_move_from_view(v, from),
    ensures
        row_moves(v, from, to) == Seq::<MoveView>::empty(),
    decreases to,
{
    if to > 1 {
        lemma_row_empty(v, from, to - 1);
    }
}

} // verus!

verus! {

/// At most `n` items lie below slot `n`.
pub proof fn lemma_pour_run_bound(v: StateView, b: int, c: int, n: int)
    ensures
        pour_run(v, b, c, n) <= if n < 0 {
            0
        } else {
            n
        },
    decreases n,
{
    if n > 0 {
        lemma_pour_run_bound(v, b, c, n - 1);
    }
}

/// The items counted by `pour_run` all have the poured color.
pub proof fn lemma_pour_run_color(v: StateView, b: int, c: int, n: int, i: int)
    requires
        n - pour_run(v, b, c, n) <= i < n,
    ensures
        v.content[b][i] == c,
        !v.hidden[b][i],
        !v.item_locked[b][i],
    decreases n,
{
    if n > 0 && i < n - 1 {
        lemma_pour_run_color(v, b, c, n - 1, i);
    }
}

/// A legal move can be applied to the state it was computed for.
pub proof fn lemma_move_apply_ok(v: StateView, from: int, to: int)
    requires
        wf_view(v),
        pour_allowed(v, from, to),
    ensures
        move_to_view(v, from, to) is Some,
        apply_ok(v, move_to_view(v, from, to)->0),
{
    let m = move_to_view(v, from, to)->0;
    let hf = v.height[from] as int;
    lemma_pour_run_bound(v, from, v.content[from][hf - 1] as int, hf - 1);
    assert(v.capacity[to] <= ITEM_COUNT && v.height[to] <= v.capacity[to]);
    assert(v.capacity[from] <= ITEM_COUNT && v.height[from] <= v.capacity[from]);
    let nh = hf - m.count;
    assert(item_index(from, below_top(nh)) < BOTTLE_COUNT * ITEM_COUNT);
    assert(item_index(from, hf - 1) < BOTTLE_COUNT * ITEM_COUNT);
    assert(v.content[from][hf - 1] < 16);
}

impl State {
    /// All legal pours, or `None` when the state is solved.
    pub fn pours(&self) -> (r: Option<Pours>)
        requires
            self.wf(),
        ensures
            match r {
                None => solved_view(self@),
                Some(p) => !solved_view(self@) && forall|f: int, t: int|
                    0 <= f < 32 && 0 <= t < 32 ==> #[trigger] p.spec_has(f, t) == pour_allowed(
                        self@,
                        f,
                        t,
                    ),
            },
    {
        if self.solved() {
            return None;
        }
        let ghost v = self@;
        let mut pours = Pours(Bits::zero());
        let mut from: u8 = 1;
        while from <= self.bottle_count
            invariant
                self.wf(),
                v == self@,
                1 <= from <= v.bottle_count + 1,
                forall|f: int, t: int|
                    0 <= f < 32 && 0 <= t < 32 ==> #[trigger] pours.spec_has(f, t) == (f < from
                        && pour_allowed(v, f, t)),
            decreases v.bottle_count + 1 - from,
        {
            if self.can_move_from(from) {
                let mut to: u8 = 1;
                while to <= self.bottle_count
                    invariant
                        self.wf(),
                        v == self@,
                        1 <= from <= v.bottle_count,
                        1 <= to <= v.bottle_count + 1,
                        can_move_from_view(v, from as int),
                        forall|f: int, t: int|
                            0 <= f < 32 && 0 <= t < 32 ==> #[trigger] pours.spec_has(f, t) == ((f
                                < from || (f == from && t < to)) && pour_allowed(v, f, t)),
                    decreases v.bottle_count + 1 - to,
                {
                    if self.move_to(from, to).is_some() {
                        pours = pours.with(from, to);
                    }
                    to = to + 1;
                }
            }
            from = from + 1;
        }
        Some(pours)
    }

    /// Pours from `from` into `to` and returns the applied move.
    pub fn pour(&mut self, from: u8, to: u8) -> (r: Result<Move, PourError>)
        requires
            old(self).wf(),
        ensures
            final(self).wf(),
            match r {
                Err(PourError::AlreadySolved) => solved_view(old(self)@)
                    && final(self)@ == old(self)@,
                Err(PourError::MoveNotAllowed) => !solved_view(old(self)@)
                    && !pour_allowed(old(self)@, from as int, to as int)
                    && final(self)@ == old(self)@,
                Ok(m) => !solved_view(old(self)@)
                    && pour_allowed(old(self)@, from as int, to as int)
                    && move_to_view(old(self)@, from as int, to as int) == Some(m@)
                    && final(self)@ == apply_view(old(self)@, m@),
            },
    {
        if self.solved() {
            return Err(PourError::AlreadySolved);
        }
        if from < 1 || from > self.bottle_count || to < 1 || to > self.bottle_count {
            return Err(PourError::MoveNotAllowed);
        }
        if !self.can_move_from(from) {
            return Err(PourError::MoveNotAllowed);
        }
        match self.move_to(from, to) {
            Some(mov) => {
                proof {
                    lemma_move_apply_ok(self@, from as int, to as int);
                    lemma_apply_wf(self@, mov@);
                }
                self.apply_move_unchecked(mov);
                Ok(mov)
            },
            None => Err(PourError::MoveNotAllowed),
        }
    }
}

} // verus!

verus! {

/// The view of a state with no bottles and nothing set.
pub open spec fn zero_view() -> StateView {
    StateView {
        bottle_count: 0,
        height: Seq::new(32, |b: int| 0u8),
        capacity: Seq::new(32, |b: int| 0u8),
        content: Seq::new(32, |b: int| Seq::new(16, |i: int| 0u8)),
        finalized: Seq::new(32, |b: int| false),
        color_count: Seq::new(16, |c: int| 0u8),
        hidden: Seq::new(32, |b: int| Seq::new(16, |i: int| false)),
        item_locked: Seq::new(32, |b: int| Seq::new(16, |i: int| false)),
        immovable: Seq::new(32, |b: int| false),
        pluggable: Seq::new(32, |b: int| false),
        plugged: Seq::new(32, |b: int| false),
        frozen_run: Seq::new(32, |b: int| false),
        frozen: Seq::new(32, |b: int| false),
        curtain_from: Seq::new(32, |k: int| 0u8),
        curtain_to: Seq::new(32, |k: int| 0u8),
        behind_curtain: Seq::new(32, |b: int| false),
        safe_counter: Seq::new(32, |b: int| 0u8),
        has_key: Seq::new(32, |b: int| Seq::new(16, |i: int| false)),
        bottle_key: Seq::new(32, |b: int| 0u16),
        bottle_locked: Seq::new(32, |b: int| false),
        bottle_color: Seq::new(32, |b: int| 0u8),
        color_curtain: Seq::new(32, |b: int| 0u8),
        color_curtain_active: Seq::new(32, |b: int| false),
    }
}

proof fn lemma_zero_words<const N: usize>(b: Bits<N>)
    requires
        b.words() == Seq::new(N as nat, |i: int| 0u16),
    ensures
        forall|i: int| 0 <= i < N * 4 ==> #[trigger] b.spec_u4(i) == 0,
        forall|i: int| 0 <= i < N * 2 ==> #[trigger] b.spec_u8(i) == 0,
        forall|i: int| 0 <= i < N ==> #[trigger] b.spec_u16(i) == 0,
        forall|i: int| 0 <= i < N * 16 ==> !#[trigger] b.spec_has(i),
{
    b.lemma_zero_fields();
}

impl State {
    /// A state with no bottles and nothing set.
    pub(crate) fn zero() -> (s: Self)
        ensures
            s@ == zero_view(),
    {
        let s = State {
            bottle_count: 0,
            content: Bits::zero(),
            height: Bits::zero(),
            capacity: Bits::zero(),
            bottle_finalized: Bits::zero(),
            color_count: Bits::zero(),
            item_hidden: Bits::zero(),
            item_locked: Bits::zero(),
            bottle_immovable: Bits::zero(),
            pluggable_bottle: Bits::zero(),
            bottle_plugged: Bits::zero(),
            frozen_run: Bits::zero(),
            frozen: Bits::zero(),
            curtain_range: Bits::zero(),
            behind_curtain: Bits::zero(),
            safe_counter: Bits::zero(),
            item_has_key: Bits::zero(),
            bottle_key: Bits::zero(),
            bottle_locked: Bits::zero(),
            bottle_color: Bits::zero(),
            color_curtain: Bits::zero(),
            color_curtain_active: Bits::zero(),
        };
        proof {
            lemma_zero_words(s.content);
            lemma_zero_words(s.height);
            lemma_zero_words(s.capacity);
            lemma_zero_words(s.bottle_finalized);
            lemma_zero_words(s.color_count);
            lemma_zero_words(s.item_hidden);
            lemma_zero_words(s.item_locked);
            lemma_zero_words(s.bottle_immovable);
            lemma_zero_words(s.pluggable_bottle);
            lemma_zero_words(s.bottle_plugged);
            lemma_zero_words(s.frozen_run);
            lemma_zero_words(s.frozen);
            lemma_zero_words(s.curtain_range);
            lemma_zero_words(s.behind_curtain);
            lemma_zero_words(s.safe_counter);
            lemma_zero_words(s.item_has_key);
            lemma_zero_words(s.bottle_key);
            lemma_zero_words(s.bottle_locked);
            lemma_zero_words(s.bottle_color);
            lemma_zero_words(s.color_curtain);
            lemma_zero_words(s.color_curtain_active);
            let z = zero_view();
            let v = s@;
            assert forall|b: int| 0 <= b < 32 implies #[trigger] v.content[b] =~= z.content[b] by {}
            assert forall|b: int| 0 <= b < 32 implies #[trigger] v.hidden[b] =~= z.hidden[b] by {}
            assert forall|b: int| 0 <= b < 32 implies #[trigger] v.item_locked[b] =~= z.item_locked[b] by {}
            assert forall|b: int| 0 <= b < 32 implies #[trigger] v.has_key[b] =~= z.has_key[b] by {}
            assert(v =~= z);
        }
        s
    }

    /// Sets the bottle count.
    pub(crate) fn set_bottle_count(&mut self, count: u8)
        ensures
            final(self)@ == (StateView { bottle_count: count as nat, ..old(self)@ }),
    {
        self.bottle_count = count;
    }

    /// Sets the freezing groups and the frozen bottles.
    pub(crate) fn set_frozen_bits(&mut self, run: Bits<2>, frozen: Bits<2>)
        ensures
            final(self)@ == (StateView {
                frozen_run: flags_view(run),
                frozen: flags_view(frozen),
                ..old(self)@
            }),
    {
        self.frozen_run = run;
        self.frozen = frozen;
    }

    /// Sets which bottles are behind a curtain.
    pub(crate) fn set_behind_curtain_bits(&mut self, behind: Bits<2>)
        ensures
            final(self)@ == (StateView { behind_curtain: flags_view(behind), ..old(self)@ }),
    {
        self.behind_curtain = behind;
    }

    /// Sets which bottles are locked.
    pub(crate) fn set_locked_bits(&mut self, locked: Bits<2>)
        ensures
            final(self)@ == (StateView { bottle_locked: flags_view(locked), ..old(self)@ }),
    {
        self.bottle_locked = locked;
    }
}


/// `r` is the first and last set flag of `f` among the bottle slots, or
/// `None` when no flag is set.
pub open spec fn is_flag_span(f: Seq<bool>, r: Option<(u8, u8)>) -> bool {
    match r {
        None => forall|i: int| 0 <= i < 32 ==> !#[trigger] f[i],
        Some((a, b)) => {
            &&& a <= b < 32
            &&& f[a as int]
            &&& f[b as int]
            &&& forall|i: int| 0 <= i < a ==> !#[trigger] f[i]
            &&& forall|i: int| b < i < 32 ==> !#[trigger] f[i]
        },
    }
}

/// The item slot `(bottle, item)` of a nonzero item index, or `None` for zero.
pub open spec fn index_slot(index: u16) -> Option<(u8, u8)> {
    if index != 0 {
        Some((index_bottle(index as int) as u8, index_item(index as int) as u8))
    } else {
        None
    }
}

/// The first and last set flag of `bits`.
fn flag_span(bits: &Bits<2>) -> (r: Option<(u8, u8)>)
    ensures
        is_flag_span(flags_view(*bits), r),
{
    match (bits.first(), bits.last()) {
        (Some(a), Some(b)) => Some((a as u8, b as u8)),
        _ => None,
    }
}

/// Whether any flag of `bits` is set.
fn any_flag(bits: &Bits<2>) -> (r: bool)
    ensures
        r == exists|i: int| 0 <= i < 32 && #[trigger] flags_view(*bits)[i],
{
    let zero = bits.is_zero();
    proof {
        if !zero {
            let i = choose|i: int| 0 <= i < 32 && bits.spec_has(i);
            assert(flags_view(*bits)[i]);
        }
    }
    !zero
}

/// The slot of an item index, without a bound on the index.
fn slot_of(index: u16) -> (r: Option<(u8, u8)>)
    ensures
        r == index_slot(index),
{
    if index != 0 {
        Some(((index / 16) as u8, (index % 16) as u8))
    } else {
        None
    }
}

impl Move {
    /// The bottle poured from.
    pub fn from_bottle(&self) -> (r: u8)
        ensures
            r == self@.from,
    {
        self.from_bottle
    }

    /// The bottle poured into.
    pub fn to_bottle(&self) -> (r: u8)
        ensures
            r == self@.to,
    {
        self.to_bottle
    }

    /// How many items move.
    pub fn count(&self) -> (r: u8)
        ensures
            r == self@.count,
    {
        self.count
    }

    /// The color of the items that move.
    pub fn color(&self) -> (r: u8)
        ensures
            r == self@.color,
    {
        self.color
    }

    /// The bottle that the move solves, if any.
    pub fn finalize_bottle(&self) -> (r: Option<u8>)
        ensures
            r == if self@.finalize != 0 {
                Some(self@.finalize)
            } else {
                None
            },
    {
        if self.finalize_bottle != 0 {
            Some(self.finalize_bottle)
        } else {
            None
        }
    }

    /// The hidden item that the move uncovers, if any.
    pub fn show_item(&self) -> (r: Option<(u8, u8)>)
        ensures
            r == index_slot(self@.show_item),
    {
        slot_of(self.show_item)
    }

    /// The locked item that the move frees, if any.
    pub fn unlock_item(&self) -> (r: Option<(u8, u8)>)
        ensures
            r == index_slot(self@.unlock_item),
    {
        slot_of(self.unlock_item)
    }

    /// The pluggable bottle whose plug the move removes for good, if any.
    pub fn unplug_bottle(&self) -> (r: Option<u8>)
        ensures
            r == if self@.unplug != 0 {
                Some(self@.unplug)
            } else {
                None
            },
    {
        if self.unplug_bottle != 0 {
            Some(self.unplug_bottle)
        } else {
            None
        }
    }

    /// The first and last bottle of the freezing group that the move thaws.
    pub fn unfreeze_run(&self) -> (r: Option<(u8, u8)>)
        ensures
            is_flag_span(self@.unfreeze_run, r),
    {
        flag_span(&self.unfreeze_run)
    }

    /// Whether the move lifts a curtain.
    pub fn lift_curtains(&self) -> (r: bool)
        ensures
            r == exists|i: int| 0 <= i < 32 && #[trigger] self@.lift_curtain[i],
    {
        let r = any_flag(&self.lift_curtain_range);
        assert(self@.lift_curtain == flags_view(self.lift_curtain_range));
        r
    }

    /// Whether the move counts down any safe.
    pub fn decrement_safe_counters(&self) -> (r: bool)
        ensures
            r == exists|i: int| 0 <= i < 32 && #[trigger] self@.decrement_safe[i],
    {
        let r = any_flag(&self.decrement_safe_counter);
        assert(self@.decrement_safe == flags_view(self.decrement_safe_counter));
        r
    }

    /// Whether the move counts down the safe of `bottle`.
    pub fn decrement_safe_counter(&self, bottle: u8) -> (r: bool)
        requires
            bottle < BOTTLE_COUNT,
        ensures
            r == self@.decrement_safe[bottle as int],
    {
        self.decrement_safe_counter.has(bottle as usize)
    }

    /// The key item whose key the move uses up, if any.
    pub fn remove_key(&self) -> (r: Option<(u8, u8)>)
        ensures
            r == index_slot(self@.remove_key),
    {
        slot_of(self.remove_key)
    }

    /// The first and last bottle of the lock group that the move unlocks.
    pub fn unlock_run(&self) -> (r: Option<(u8, u8)>)
        ensures
            is_flag_span(self@.unlock_bottle, r),
    {
        flag_span(&self.unlock_bottle)
    }

    /// Whether the move lifts any color curtain.
    pub fn lift_color_curtains(&self) -> (r: bool)
        ensures
            r == exists|i: int| 0 <= i < 32 && #[trigger] self@.lift_color_curtain[i],
    {
        let r = any_flag(&self.lift_color_curtain);
        assert(self@.lift_color_curtain == flags_view(self.lift_color_curtain));
        r
    }

    /// Whether the move lifts the color curtain of `bottle`.
    pub fn lift_color_curtain(&self, bottle: u8) -> (r: bool)
        requires
            bottle < BOTTLE_COUNT,
        ensures
            r == self@.lift_color_curtain[bottle as int],
    {
        self.lift_color_curtain.has(bottle as usize)
    }
}


/// `s` with every element that equals the one before it left out.
pub open spec fn dedup_seq(s: Seq<(u8, u8)>) -> Seq<(u8, u8)>
    decreases s.len(),
{
    if s.len() <= 1 {
        s
    } else if s.last() == s[s.len() - 2] {
        dedup_seq(s.drop_last())
    } else {
        dedup_seq(s.drop_last()).push(s.last())
    }
}

/// Collapses each run of equal neighbouring pairs into its first pair, by
/// `Itertools::dedup` of the itertools crate: it keeps an element unless it
/// equals the element kept just before it.
#[verifier::external_body]
fn dedup_pairs(pairs: Vec<(u8, u8)>) -> (r: Vec<(u8, u8)>)
    ensures
        r@ == dedup_seq(pairs@),
{
    pairs.into_iter().dedup().collect()
}

/// The freezing group of each frozen bottle below `x`, as its first and last
/// bottle, in bottle order.
pub open spec fn frozen_groups_upto(v: StateView, x: int) -> Seq<(u8, u8)>
    decreases x,
{
    if x <= 1 {
        Seq::empty()
    } else if v.frozen[x - 1] {
        frozen_groups_upto(v, x - 1).push(
            (
                run_start(v.frozen_run, x - 1, x - 1) as u8,
                run_end(v.frozen_run, x - 1, x - 1, v.bottle_count as int) as u8,
            ),
        )
    } else {
        frozen_groups_upto(v, x - 1)
    }
}

/// The curtain groups among the first `k` that still hide a bottle, as
/// their first and last bottle.
pub open spec fn curtain_groups_upto(v: StateView, k: int) -> Seq<(u8, u8)>
    decreases k,
{
    if k <= 0 {
        Seq::empty()
    } else if curtain_range_view(v, k - 1) is Some && v.curtain_to[k - 1] > v.curtain_from[k - 1] {
        curtain_groups_upto(v, k - 1).push(
            (v.curtain_from[k - 1], (v.curtain_to[k - 1] - 1) as u8),
        )
    } else {
        curtain_groups_upto(v, k - 1)
    }
}

/// The last bottle, from `x` on, that carries the key of bottle `b` without
/// a bottle of another key in between.
pub open spec fn key_group_end(v: StateView, b: int, x: int) -> int
    decreases v.bottle_count - x,
{
    if x >= v.bottle_count || v.bottle_key[x + 1] != v.bottle_key[b] {
        x
    } else {
        key_group_end(v, b, x + 1)
    }
}

/// The locked groups of neighbouring bottles with one key, from bottle `b`
/// on, with that key and their first and last bottle.
pub open spec fn lock_groups_from(v: StateView, b: int) -> Seq<(u16, (u8, u8))>
    decreases v.bottle_count + 1 - b,
{
    if b < 1 || b > v.bottle_count {
        Seq::empty()
    } else {
        let e = key_group_end(v, b, b);
        if e < b || e > v.bottle_count {
            Seq::empty()
        } else if v.bottle_locked[b] {
            seq![(v.bottle_key[b], (b as u8, e as u8))] + lock_groups_from(v, e + 1)
        } else {
            lock_groups_from(v, e + 1)
        }
    }
}

pub(crate) proof fn lemma_key_group_end(v: StateView, b: int, x: int)
    requires
        x <= v.bottle_count,
    ensures
        x <= key_group_end(v, b, x) <= v.bottle_count,
        forall|y: int| x < y <= key_group_end(v, b, x) ==> #[trigger] v.bottle_key[y] == v.bottle_key[b],
        key_group_end(v, b, x) < v.bottle_count ==> v.bottle_key[key_group_end(v, b, x) + 1]
            != v.bottle_key[b],
    decreases v.bottle_count - x,
{
    if !(x >= v.bottle_count || v.bottle_key[x + 1] != v.bottle_key[b]) {
        lemma_key_group_end(v, b, x + 1);
    }
}

impl State {
    /// The freezing group of each frozen bottle, as its first and last
    /// bottle, in bottle order, with each group given once per stretch of
    /// frozen bottles that share it.
    pub fn get_frozen_ranges(&self) -> (r: Vec<(u8, u8)>)
        requires
            self.wf(),
        ensures
            r@ == dedup_seq(frozen_groups_upto(self@, self@.bottle_count + 1 as int)),
    {
        let count = self.bottle_count;
        let mut groups: Vec<(u8, u8)> = Vec::new();
        let mut bottle: u8 = 1;
        while bottle <= count
            invariant
                self.wf(),
                count == self@.bottle_count,
                1 <= bottle <= count + 1,
                groups@ == frozen_groups_upto(self@, bottle as int),
            decreases count + 1 - bottle,
        {
            if self.get_frozen(bottle) {
                let (_, span) = self.bottle_run(self.frozen_run, bottle);
                groups.push(span);
            }
            bottle = bottle + 1;
        }
        dedup_pairs(groups)
    }

    /// The curtain groups that still hide a bottle, as their first and last
    /// bottle.
    pub fn get_curtain_ranges(&self) -> (r: Vec<(u8, u8)>)
        requires
            self.wf(),
        ensures
            r@ == curtain_groups_upto(self@, self@.bottle_count as int),
    {
        let count = self.bottle_count;
        let mut groups: Vec<(u8, u8)> = Vec::new();
        let mut k: u8 = 0;
        while k < count
            invariant
                self.wf(),
                count == self@.bottle_count,
                0 <= k <= count,
                groups@ == curtain_groups_upto(self@, k as int),
            decreases count - k,
        {
            match self.get_curtain_range(k) {
                Some((from, to)) => {
                    if to > from {
                        groups.push((from, to - 1));
                    }
                },
                None => {},
            }
            k = k + 1;
        }
        groups
    }

    /// The locked groups of neighbouring bottles that share a key, with that
    /// key and their first and last bottle, in bottle order.
    pub fn get_lock_group_ranges(&self) -> (r: Vec<(u16, (u8, u8))>)
        requires
            self.wf(),
        ensures
            r@ == lock_groups_from(self@, 1),
    {
        let count = self.bottle_count;
        let mut groups: Vec<(u16, (u8, u8))> = Vec::new();
        let mut bottle: u8 = 1;
        while bottle <= count
            invariant
                self.wf(),
                count == self@.bottle_count,
                1 <= bottle <= count + 1,
                groups@ + lock_groups_from(self@, bottle as int) == lock_groups_from(self@, 1),
            decreases count + 1 - bottle,
        {
            let start = bottle;
            let key = self.get_bottle_key(start);
            bottle = bottle + 1;
            while bottle <= count && self.get_bottle_key(bottle) == key
                invariant
                    self.wf(),
                    count == self@.bottle_count,
                    1 <= start < bottle <= count + 1,
                    key == self@.bottle_key[start as int],
                    key_group_end(self@, start as int, start as int) == key_group_end(
                        self@,
                        start as int,
                        bottle - 1,
                    ),
                decreases count + 1 - bottle,
            {
                bottle = bottle + 1;
            }
            proof {
                lemma_key_group_end(self@, start as int, start as int);
            }
            assert(key_group_end(self@, start as int, start as int) == bottle - 1);
            if self.get_bottle_locked(start) {
                let ghost rest = lock_groups_from(self@, bottle as int);
                groups.push((key, (start, bottle - 1)));
                assert(groups@ + rest =~= lock_groups_from(self@, 1)) by {
                    assert(lock_groups_from(self@, start as int) == seq![(key, (start, (bottle - 1) as u8))] + rest);
                }
            } else {
                assert(lock_groups_from(self@, start as int) == lock_groups_from(self@, bottle as int));
            }
        }
        assert(lock_groups_from(self@, bottle as int) =~= Seq::<(u16, (u8, u8))>::empty());
        assert(groups@ =~= groups@ + lock_groups_from(self@, bottle as int));
        groups
    }
}

} // verus!

verus! {

/// The fields of `v` that no move changes.
pub open spec fn fixed_part(v: StateView) -> (nat, Seq<u8>, Seq<u8>, Seq<bool>, Seq<bool>, Seq<u16>, Seq<u8>, Seq<u8>) {
    (v.bottle_count, v.capacity, v.color_count, v.immovable, v.frozen_run, v.bottle_key, v.bottle_color, v.color_curtain)
}

/// `v` with the fields that no move changes taken from `base`.
pub open spec fn with_fixed_of(v: StateView, base: StateView) -> StateView {
    StateView {
        bottle_count: base.bottle_count,
        capacity: base.capacity,
        color_count: base.color_count,
        immovable: base.immovable,
        frozen_run: base.frozen_run,
        bottle_key: base.bottle_key,
        bottle_color: base.bottle_color,
        color_curtain: base.color_curtain,
        ..v
    }
}

/// A move changes none of the fixed fields.
pub proof fn lemma_apply_keeps_fixed(v: StateView, m: MoveView)
    ensures
        fixed_part(apply_view(v, m)) == fixed_part(v),
{
}

/// The fields of a state that moves can change; the others come from the
/// starting state when it is turned back into a state.
#[derive(Clone, Copy)]
pub(crate) struct SearchState {
    content: Bits<128>,
    height: Bits<16>,
    bottle_finalized: Bits<2>,
    item_hidden: Bits<32>,
    item_locked: Bits<32>,
    pluggable_bottle: Bits<2>,
    bottle_plugged: Bits<2>,
    frozen: Bits<2>,
    curtain_range: Bits<32>,
    behind_curtain: Bits<2>,
    safe_counter: Bits<8>,
    item_has_key: Bits<32>,
    bottle_locked: Bits<2>,
    color_curtain_active: Bits<2>,
}

impl SearchState {
    /// The changing fields of `state`.
    pub(crate) fn from_state(state: &State) -> (r: SearchState)
        ensures
            forall|base: State| #[trigger] r.to_spec(base)@ == with_fixed_of(state@, base@),
    {
        SearchState {
            content: state.content,
            height: state.height,
            bottle_finalized: state.bottle_finalized,
            item_hidden: state.item_hidden,
            item_locked: state.item_locked,
            pluggable_bottle: state.pluggable_bottle,
            bottle_plugged: state.bottle_plugged,
            frozen: state.frozen,
            curtain_range: state.curtain_range,
            behind_curtain: state.behind_curtain,
            safe_counter: state.safe_counter,
            item_has_key: state.item_has_key,
            bottle_locked: state.bottle_locked,
            color_curtain_active: state.color_curtain_active,
        }
    }

    /// The state with these changing fields and the other fields of `base`.
    pub(crate) closed spec fn to_spec(self, base: State) -> State {
        State {
            bottle_count: base.bottle_count,
            content: self.content,
            height: self.height,
            capacity: base.capacity,
            bottle_finalized: self.bottle_finalized,
            color_count: base.color_count,
            item_hidden: self.item_hidden,
            item_locked: self.item_locked,
            bottle_immovable: base.bottle_immovable,
            pluggable_bottle: self.pluggable_bottle,
            bottle_plugged: self.bottle_plugged,
            frozen_run: base.frozen_run,
            frozen: self.frozen,
            curtain_range: self.curtain_range,
            behind_curtain: self.behind_curtain,
            safe_counter: self.safe_counter,
            item_has_key: self.item_has_key,
            bottle_key: base.bottle_key,
            bottle_locked: self.bottle_locked,
            bottle_color: base.bottle_color,
            color_curtain: base.color_curtain,
            color_curtain_active: self.color_curtain_active,
        }
    }

    /// The state with these changing fields and the other fields of `base`.
    pub(crate) fn to_state_unchecked(self, base: &State) -> (r: State)
        ensures
            r == self.to_spec(*base),
    {
        State {
            bottle_count: base.bottle_count,
            content: self.content,
            height: self.height,
            capacity: base.capacity,
            bottle_finalized: self.bottle_finalized,
            color_count: base.color_count,
            item_hidden: self.item_hidden,
            item_locked: self.item_locked,
            bottle_immovable: base.bottle_immovable,
            pluggable_bottle: self.pluggable_bottle,
            bottle_plugged: self.bottle_plugged,
            frozen_run: base.frozen_run,
            frozen: self.frozen,
            curtain_range: self.curtain_range,
            behind_curtain: self.behind_curtain,
            safe_counter: self.safe_counter,
            item_has_key: self.item_has_key,
            bottle_key: base.bottle_key,
            bottle_locked: self.bottle_locked,
            bottle_color: base.bottle_color,
            color_curtain: base.color_curtain,
            color_curtain_active: self.color_curtain_active,
        }
    }
}

} // verus!

verus! {

/// A legal pour lands only where the receiving bottle takes it: another
/// bottle with room, empty or topped by an unlocked item of the poured
/// color, neither plugged, behind a curtain, in a safe, locked nor behind
/// an active color curtain, and, when the bottle takes a single color, only
/// an item of that color.
pub proof fn law_pour_receiver(v: StateView, f: int, t: int)
    requires
        wf_view(v),
        pour_allowed(v, f, t),
    ensures
        f != t,
        v.height[f] > 0,
        v.height[t] < v.capacity[t],
        v.height[t] > 0 ==> v.content[t][v.height[t] - 1] == v.content[f][v.height[f] - 1]
            && !v.item_locked[t][v.height[t] - 1],
        !v.plugged[t] && !v.behind_curtain[t] && v.safe_counter[t] == 0 && !v.bottle_locked[t]
            && !v.color_curtain_active[t],
        v.bottle_color[t] != 0 ==> v.bottle_color[t] == v.content[f][v.height[f] - 1],
        !v.immovable[f] && !v.plugged[f] && !v.frozen[f] && !v.finalized[f] && !v.behind_curtain[f]
            && v.safe_counter[f] == 0 && !v.bottle_locked[f] && !v.color_curtain_active[f],
{
}

/// A legal pour moves at least one item, all of the top color of the
/// poured-from bottle, from the top of that bottle onto the top of the
/// receiving one, and leaves every other bottle's items as they were.
pub proof fn law_pour_moves_top_items(v: StateView, f: int, t: int)
    requires
        wf_view(v),
        pour_allowed(v, f, t),
    ensures
        ({
            let m = move_to_view(v, f, t)->0;
            let w = apply_view(v, m);
            let n = m.count as int;
            &&& 1 <= n <= v.height[f]
            &&& w.height[f] == v.height[f] - n
            &&& w.height[t] == v.height[t] + n
            &&& m.color == v.content[f][v.height[f] - 1]
            &&& forall|i: int|
                v.height[f] - n <= i < v.height[f] ==> #[trigger] v.content[f][i] == m.color
            &&& forall|i: int|
                v.height[t] <= i < v.height[t] + n ==> #[trigger] w.content[t][i] == m.color
            &&& forall|b: int, i: int|
                0 <= b < 32 && 0 <= i < 16 && b != f && b != t ==> #[trigger] w.content[b][i] == v.content[b][i]
        }),
{
    let m = move_to_view(v, f, t)->0;
    let hf = v.height[f] as int;
    let c = v.content[f][hf - 1] as int;
    lemma_pour_run_bound(v, f, c, hf - 1);
    assert forall|i: int| hf - m.count <= i < hf implies #[trigger] v.content[f][i] == m.color by {
        if i < hf - 1 {
            lemma_pour_run_color(v, f, c, hf - 1, i);
        }
    }
}

/// Every pour turns the plug of each bottle that stays pluggable: plugged
/// bottles come unplugged and unplugged ones plugged. The poured-from bottle
/// stops being pluggable once it is emptied, and no other bottle changes
/// whether it is pluggable; a bottle that is not pluggable is never plugged.
pub proof fn law_pour_toggles_plugs(v: StateView, f: int, t: int)
    requires
        wf_view(v),
        pour_allowed(v, f, t),
    ensures
        ({
            let w = apply_view(v, move_to_view(v, f, t)->0);
            &&& forall|b: int| 0 <= b < 32 && #[trigger] w.pluggable[b] ==> w.plugged[b] == !v.plugged[b]
            &&& forall|b: int| 0 <= b < 32 && !#[trigger] w.pluggable[b] ==> !w.plugged[b]
            &&& forall|b: int| 0 <= b < 32 && b != f ==> #[trigger] w.pluggable[b] == v.pluggable[b]
            &&& w.pluggable[f] == (v.pluggable[f] && w.height[f] != 0)
        }),
{
    let m = move_to_view(v, f, t)->0;
    let w = apply_view(v, m);
    let hf = v.height[f] as int;
    lemma_pour_run_bound(v, f, v.content[f][hf - 1] as int, hf - 1);
    assert(0 <= hf - m.count);
    assert(w.height[f] == hf - m.count);
}

/// Undoing a move turns the plug of each bottle that was pluggable back, as
/// the move turned it, and makes the bottle the move emptied pluggable again.
pub proof fn law_undo_toggles_plugs(w: StateView, m: MoveView)
    requires
        wf_view(w),
        m.unplug < 32,
    ensures
        forall|b: int| 0 <= b < 32 && #[trigger] w.pluggable[b] ==> undo_view(w, m).plugged[b] == !w.plugged[b],
        forall|b: int| 0 <= b < 32 && !#[trigger] w.pluggable[b] ==> !undo_view(w, m).plugged[b],
        m.unplug != 0 ==> undo_view(w, m).pluggable[m.unplug as int],
{
}

} // verus!
