//! One frame of controller state.

use vstd::prelude::*;

verus! {

/// One frame of logical controller state.
///
/// This is the unit of input scripting: a recorded session is a list of
/// these, and a headless host replays them. The core never sees host keys.
#[derive(Debug, Clone, Copy, PartialEq, Eq, Structural, Hash)]
pub struct FrameInput {
    /// Held buttons, one bit each. See the `BTN_*` constants.
    pub buttons: u8,
}

pub const BTN_UP: u8 = 1;

pub const BTN_DOWN: u8 = 2;

pub const BTN_LEFT: u8 = 4;

pub const BTN_RIGHT: u8 = 8;

pub const BTN_A: u8 = 16;

pub const BTN_B: u8 = 32;

/// The Menu key. It never reaches a cart: the console strips it before
/// the cart's step and hands it to the shell.
pub const BTN_MENU: u8 = 64;

/// The bits a cart may see.
pub const CART_BUTTONS: u8 = 0x3f;

/// Number of logical buttons a cart can query with `btn(n)`.
pub const BUTTON_COUNT: u8 = 6;

impl Default for FrameInput {
    fn default() -> (i: FrameInput)
        ensures
            i.buttons == 0,
    {
        FrameInput { buttons: 0 }
    }
}

impl FrameInput {
    /// Whether logical button `n` is held: it is one that a cart can
    /// query, and its bit is set.
    pub open spec fn holds(self, n: u8) -> bool {
        n < BUTTON_COUNT && self.buttons & (1u8 << n) != 0
    }

    pub fn new(buttons: u8) -> (i: FrameInput)
        ensures
            i == (FrameInput { buttons }),
    {
        FrameInput { buttons }
    }

    /// Whether logical button `n` (0 = up, 1 = down, 2 = left, 3 = right,
    /// 4 = A, 5 = B) is held. Out-of-range buttons read as released.
    pub fn held(&self, n: u8) -> (r: bool)
        ensures
            r == self.holds(n),
    {
        n < BUTTON_COUNT && self.buttons & (1u8 << n) != 0
    }

    /// The same input with the Menu bit removed: what a cart sees.
    pub fn for_cart(self) -> (i: FrameInput)
        ensures
            i.buttons == self.buttons & CART_BUTTONS,
            i.buttons & BTN_MENU == 0,
            forall|n: u8| i.holds(n) == self.holds(n),
    {
        let b = self.buttons;
        proof {
            assert(b & 0x3f & 64 == 0u8) by (bit_vector);
            assert forall|n: u8| (FrameInput { buttons: b & 0x3f }).holds(n) == self.holds(n) by {
                assert(n < 6 ==> (b & 0x3f & (1u8 << n) != 0) == (b & (1u8 << n) != 0))
                    by (bit_vector);
            }
        }
        FrameInput { buttons: self.buttons & CART_BUTTONS }
    }

    pub fn with(self, bits: u8) -> (i: FrameInput)
        ensures
            i.buttons == self.buttons | bits,
    {
        FrameInput { buttons: self.buttons | bits }
    }
}

} // verus!
