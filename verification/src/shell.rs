//! The shell side of the console.
//!
//! The shell is a second guest with its own draw state: it draws an
//! overlay the console composes over the cart's screen, keyed on colour
//! 0, and talks to the console through [`SysState`], the data behind the
//! shell guest's `sys` table. The cart guest's state has no `SysState`,
//! which is how a cart never reaches host authority.
//!
//! Requests the shell makes (`run`, `quit`, `restart`, settings) are
//! queued here during its step and applied by the console afterwards, so
//! a request never tears down the guest that is making it.

use vstd::prelude::*;
use crate::fault::Fault;

verus! {

/// A cart the shell can list and run.
#[derive(Debug, Clone, PartialEq, Eq)]
pub struct CartEntry {
    /// Stable name the shell passes back to `sys.run`.
    pub name: String,
    /// Display title from the manifest, or the name.
    pub title: String,
}

/// Host-side settings the shell edits. Applying them is the host's job
/// (the window scale, the network link) or the console's (the master
/// volume, the network permission).
#[derive(Debug, Clone, Copy, PartialEq, Eq, Structural)]
pub struct Settings {
    pub scale: u32,
    /// Master volume, 0 to 100.
    pub volume: u32,
    /// Whether carts may use the network.
    pub net: bool,
}

/// The settings of a first start.
pub open spec fn default_settings() -> Settings {
    Settings { scale: 2, volume: 100, net: false }
}

impl Default for Settings {
    fn default() -> (s: Settings)
        ensures
            s == default_settings(),
    {
        Settings { scale: 2, volume: 100, net: false }
    }
}

/// What the shell asked for during its step.
#[derive(Debug, Clone, PartialEq, Eq)]
pub enum SysRequest {
    Run(String),
    Quit,
    Restart,
    SetScale(u32),
    SetVolume(u32),
    SetNet(bool),
    Paused(bool),
}

/// Most requests one step of the shell can queue.
pub const MAX_REQUESTS: usize = 64;

/// The data behind `sys`. Lives in the shell's draw state.
#[derive(Debug)]
pub struct SysState {
    pub carts: Vec<CartEntry>,
    pub settings: Settings,
    /// The cart's fault, copied in before each shell step.
    pub fault: Option<Fault>,
    /// Whether a cart is loaded.
    pub running: bool,
    pub paused: bool,
    /// Menu went down this frame.
    pub menu_pressed: bool,
    pub requests: Vec<SysRequest>,
}

impl SysState {
    pub fn new(carts: Vec<CartEntry>, settings: Settings) -> (s: SysState)
        ensures
            s.carts == carts,
            s.settings == settings,
            s.fault is None,
            !s.running,
            !s.paused,
            !s.menu_pressed,
            s.requests@ == Seq::<SysRequest>::empty(),
    {
        SysState {
            carts,
            settings,
            fault: None,
            running: false,
            paused: false,
            menu_pressed: false,
            requests: Vec::new(),
        }
    }

    /// Queue a request. A frame of shell code makes at most a handful of
    /// requests; a loop of them is bounded by the shell's own cycle
    /// budget, and the list by [`MAX_REQUESTS`]: what comes beyond is
    /// dropped.
    pub fn request(&mut self, r: SysRequest)
        ensures
            final(self).requests@ == (if old(self).requests@.len() < MAX_REQUESTS {
                old(self).requests@.push(r)
            } else {
                old(self).requests@
            }),
            final(self).carts == old(self).carts,
            final(self).settings == old(self).settings,
            final(self).fault == old(self).fault,
            final(self).running == old(self).running,
            final(self).paused == old(self).paused,
            final(self).menu_pressed == old(self).menu_pressed,
    {
        if self.requests.len() < MAX_REQUESTS {
            self.requests.push(r);
        }
    }
}

/// Two pictures laid over each other: where the overlay shows colour 0
/// the cart's pixel stays. As long as the shorter of the two.
pub open spec fn composed(cart: Seq<u8>, overlay: Seq<u8>) -> Seq<u8> {
    Seq::new(
        if cart.len() < overlay.len() {
            cart.len()
        } else {
            overlay.len()
        },
        |i: int|
            if overlay[i] == 0 {
                cart[i]
            } else {
                overlay[i]
            },
    )
}

/// Compose `overlay` over `cart` into `out`: every overlay pixel that is
/// not colour 0 replaces the cart's. All three are the same size.
pub fn compose(cart: &[u8], overlay: &[u8], out: &mut Vec<u8>)
    ensures
        final(out)@ == composed(cart@, overlay@),
{
    out.clear();
    let mut i: usize = 0;
    while i < cart.len() && i < overlay.len()
        invariant
            i <= cart@.len(),
            i <= overlay@.len(),
            out@ =~= composed(cart@, overlay@).take(i as int),
        decreases cart.len() - i,
    {
        let o = overlay[i];
        out.push(if o == 0 { cart[i] } else { o });
        i += 1;
    }
    assert(out@ =~= composed(cart@, overlay@));
}

/// An overlay that draws nothing leaves the cart's picture as it is, and
/// one without colour 0 hides it.
pub proof fn law_overlay_keys_on_zero(cart: Seq<u8>, overlay: Seq<u8>)
    requires
        cart.len() == overlay.len(),
    ensures
        (forall|i: int| 0 <= i < overlay.len() ==> overlay[i] == 0) ==> composed(cart, overlay)
            == cart,
        (forall|i: int| 0 <= i < overlay.len() ==> overlay[i] != 0) ==> composed(cart, overlay)
            == overlay,
{
    if forall|i: int| 0 <= i < overlay.len() ==> overlay[i] == 0 {
        assert(composed(cart, overlay) =~= cart);
    }
    if forall|i: int| 0 <= i < overlay.len() ==> overlay[i] != 0 {
        assert(composed(cart, overlay) =~= overlay);
    }
}

} // verus!
