use vstd::prelude::*;

verus! {

/// Bit of `ItemExtensions` telling that the item carries a visibility flag.
pub const HAS_VISIBILITY: u8 = 1;

/// Bit of `ItemExtensions` telling that the item carries an opacity value.
pub const HAS_OPACITY: u8 = 2;

/// The optional extensions an item carries beyond its position.
#[derive(Clone, Copy, Debug, PartialEq, Eq)]
pub struct ItemExtensions {
    pub bits: u8,
}

impl ItemExtensions {
    pub open spec fn has(self, flag: u8) -> bool {
        self.bits & flag != 0
    }

    pub fn contains(&self, flag: u8) -> (r: bool)
        ensures
            r == self.has(flag),
    {
        self.bits & flag != 0
    }
}

/// The fields common to every item: its extensions, its position and the
/// extra data the extensions select.
#[derive(Clone, Copy, Debug)]
pub struct ItemBase {
    pub extensions: ItemExtensions,
    pub x: i64,
    pub y: i64,
    /// Meaningful only when the item has the visibility extension.
    pub visible: bool,
    /// Meaningful only when the item has the opacity extension.
    pub opacity: u8,
}

impl ItemBase {
    /// An item without the visibility extension is always visible.
    pub open spec fn visible_spec(self) -> bool {
        self.extensions.has(HAS_VISIBILITY) ==> self.visible
    }

    pub fn is_visible(&self) -> (r: bool)
        ensures
            r == self.visible_spec(),
    {
        if self.extensions.contains(HAS_VISIBILITY) {
            self.visible
        } else {
            true
        }
    }
}

} // verus!
