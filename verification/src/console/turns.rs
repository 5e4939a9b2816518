//! What a frame does in turn, and what each request of the shell changes.

use vstd::prelude::*;
use super::stepping::{master_of, shell_sees};
use super::{Cart, Console, FrameOutput, Guest};
use crate::buf::Rect;
use crate::draw::{canvas_of, DrawState};
use crate::fault::{Fault, FaultView};
use crate::input::FrameInput;
use crate::net::{event_views, CommandView, Event, INBOX_CAP};
use crate::resources::BufId;
use crate::shell::{composed, SysRequest};
use crate::text::dec;

verus! {

/// The volume that is asked for is the one that is heard, up to the
/// loudest.
pub proof fn law_a_volume_is_heard_as_it_was_set(v: u32)
    ensures
        v <= 100 ==> master_of(v) == v,
        100 <= v <= 255 ==> master_of(v) == 100,
        master_of(v) <= 100,
{
}

/// Each request of the shell for a setting changes that setting and no
/// other, is passed on to the host behind those before it, and takes
/// effect: a volume in the cart's sound, the network in what the next cart
/// may do, a pause in the shell.
pub proof fn law_a_request_changes_what_it_names<G>(was: Console<G>, now: Console<G>, r: SysRequest)
    requires
        was.shell is Some && now.shell is Some,
        was.shell->0.state.sys is Some,
        !(r is Run) && !(r is Restart) && !(r is Quit),
        now.changed(was, r),
    ensures
        now.shell->0.state.sys is Some,
        ({
            let a = was.shell->0;
            let b = now.shell->0;
            let x = a.state.sys->0.settings;
            let y = b.state.sys->0.settings;
            let heard = now.cart.state.audio@.master;
            match r {
                SysRequest::Paused(on) => b.paused == on && y == x && now.cart == was.cart
                    && now.net_env == was.net_env && b.host_requests == a.host_requests,
                SysRequest::SetScale(n) => y.scale == n && y.volume == x.volume && y.net == x.net
                    && now.cart == was.cart && now.net_env == was.net_env && b.paused == a.paused
                    && b.host_requests@ == a.host_requests@.push(r),
                SysRequest::SetVolume(v) => y.volume == v && y.scale == x.scale && y.net == x.net
                    && (v <= 100 ==> heard == v) && now.cart.guest == was.cart.guest
                    && now.cart.frame == was.cart.frame && now.cart.status == was.cart.status
                    && now.net_env == was.net_env && b.paused == a.paused && b.host_requests@
                    == a.host_requests@.push(r),
                SysRequest::SetNet(on) => y.net == on && y.scale == x.scale && y.volume == x.volume
                    && now.cart == was.cart && now.net_env.permitted == on && now.net_env.invite
                    == was.net_env.invite && b.paused == a.paused && b.host_requests@
                    == a.host_requests@.push(r),
                _ => true,
            }
        }),
{
}

/// What the host offers waits behind what was waiting, and the log of the
/// last frame is gone; a cart without a network is offered nothing.
pub proof fn law_events_wait_their_turn<G: Guest>(
    was: Console<G>,
    now: Console<G>,
    events: Seq<Event>,
)
    requires
        now.readied(was, events),
    ensures
        now.cart.state.log@.len() == 0,
        was.cart.state.net is Some ==> now.cart.net_pending@ == was.cart.net_pending@ + events,
        was.cart.state.net is None ==> now.cart.net_pending@ == was.cart.net_pending@,
        now.cart.guest == was.cart.guest,
        now.shell == was.shell,
{
}

/// A frame that begins takes the events that waited longest, at most a
/// batch of them, and leaves the rest waiting.
pub proof fn law_a_frame_takes_the_oldest_events<G>(was: Cart<G>, now: Cart<G>)
    requires
        now.begun(was),
        was.state.net is Some,
        was.frame < u64::MAX,
    ensures
        ({
            let n = if was.net_pending@.len() < 64 {
                was.net_pending@.len() as int
            } else {
                64
            };
            &&& now.state.net is Some
            &&& now.state.net->0@ == was.state.net->0@.begun(event_views(was.net_pending@.take(n)))
            &&& now.net_pending@ == was.net_pending@.skip(n)
            &&& now.frame == was.frame + 1
            &&& now.guest == was.guest
        }),
{
}

/// A paused cart stands still. One that is not paused runs with the buttons
/// that are held and not stale, without the Menu key.
pub proof fn law_a_paused_cart_stands_still<G: Guest>(
    was: Console<G>,
    now: Console<G>,
    input: FrameInput,
)
    requires
        was.shell is Some,
        now.cart_turn(was, input),
    ensures
        was.shell->0.paused ==> now.cart == was.cart,
        !was.shell->0.paused ==> now.cart.ran(
            was.cart,
            FrameInput { buttons: (input.buttons & !(was.shell->0.stale & input.buttons)) & 0x3f },
        ),
        now.shell is Some && now.shell->0.menu_was == (input.buttons & 64 != 0),
{
}

/// While its overlay is up the shell sees the six buttons; else it sees
/// none.
pub proof fn law_the_shell_has_the_buttons_of_its_overlay(buttons: u8)
    ensures
        shell_sees(buttons, true) == buttons & 0x3f,
        shell_sees(buttons, false) == 0,
{
}

/// A button that is held when the overlay goes away is stale; nothing else
/// becomes stale. What is shown is the overlay over the cart, pixel by
/// pixel.
pub proof fn law_the_overlay_lies_over_the_cart<G: Guest>(
    was: Console<G>,
    now: Console<G>,
    input: FrameInput,
    up: bool,
    i: int,
)
    requires
        was.shell is Some,
        now.presented(was, input, up),
    ensures
        now.cart == was.cart,
        now.shell is Some,
        now.shell->0.stale == (if up && !was.overlay_up() {
            input.buttons
        } else {
            was.shell->0.stale
        }),
        ({
            let below = canvas_of(was.cart.state.res.screen_of()).pixels;
            let above = canvas_of(was.shell->0.state.res.screen_of()).pixels;
            was.shell->0.status@ is None && 0 <= i < below.len() && i < above.len()
                ==> now.shell->0.presentation@[i] == (if above[i] == 0 {
                below[i]
            } else {
                above[i]
            })
        }),
{
}

/// Where the overlay shows colour 0 the picture below it is seen, and
/// elsewhere the overlay.
pub proof fn law_an_overlay_is_seen_where_it_has_colour(cart: Seq<u8>, overlay: Seq<u8>, i: int)
    requires
        cart.len() == overlay.len(),
        0 <= i < cart.len(),
    ensures
        composed(cart, overlay).len() == cart.len(),
        overlay[i] == 0 ==> composed(cart, overlay)[i] == cart[i],
        overlay[i] != 0 ==> composed(cart, overlay)[i] == overlay[i],
{
}

/// A cart that faults keeps its fault, is silent, and leaves its session;
/// one that does not is as its frame left it.
pub proof fn law_a_fault_ends_a_cart<G>(was: Cart<G>, now: Cart<G>, r: Result<(), Fault>)
    requires
        now.ended(was, r),
    ensures
        r is Ok ==> now == was,
        r matches Err(f) ==> {
            &&& now.status@ == Some(f@)
            &&& now.state.audio@.music is None && now.state.audio@.sfx.len() == 0
            &&& was.in_session() || was.net_teardown ==> now.net_teardown
            &&& !(was.in_session() || was.net_teardown) ==> !now.net_teardown
            &&& now.state.pen == was.state.pen && now.state.res == was.state.res
            &&& now.frame == was.frame
        },
{
}

/// The room for events is what the inbox has left beyond those that wait,
/// and never more than a batch; a cart without a network has none.
pub proof fn law_there_is_room_for_what_fits<G>(c: Console<G>)
    ensures
        0 <= c.room_now() <= 64,
        c.cart.state.net is None ==> c.room_now() == 0,
        c.cart.state.net matches Some(n) && n@.remote_room is None && c.room_now() > 0
            ==> c.cart.state.net->0@.inbox.len() + c.cart.net_pending@.len() + c.room_now() <= INBOX_CAP,
        c.cart.state.net matches Some(n) && n@.remote_room is None && n@.inbox.len() == 0
            && c.cart.net_pending@.len() == 0 ==> c.room_now() == 64,
        c.cart.state.net matches Some(n) && n@.remote_room == Some(0usize) ==> c.room_now() == 0,
{
}

/// A cart that was torn down owes its peer that it leaves, and nothing of
/// what it asked for; any other owes what it asked for, in order.
pub proof fn law_a_torn_down_cart_only_leaves<G>(c: Console<G>)
    ensures
        c.cart.net_teardown ==> c.owed() == seq![CommandView::Leave],
        !c.cart.net_teardown && c.cart.state.net is Some ==> c.owed()
            == c.cart.state.net->0@.outbox,
        !c.cart.net_teardown && c.cart.state.net is None ==> c.owed().len() == 0,
{
}

/// Another cart takes the place of the one that was there: a session of
/// that one is over, and the new one sounds at the volume of the settings.
pub proof fn law_a_new_cart_takes_its_place<G>(was: Console<G>, now: Console<G>, cart: Cart<G>)
    requires
        now.installed(was, cart),
        was.shell is Some,
    ensures
        now.cart.guest == cart.guest && now.cart.frame == cart.frame,
        now.cart.net_teardown == (was.cart.net_teardown || was.cart.in_session()),
        was.shell->0.shown_settings().volume <= 100 ==> now.cart.state.audio@.master
            == was.shell->0.shown_settings().volume,
        now.shell is Some && !now.shell->0.paused,
        now.shell->0.guest == was.shell->0.guest,
        now.net_env == was.net_env,
{
}

/// A fault is told as its code, its place and its message.
pub proof fn law_a_fault_is_told_with_its_place(f: FaultView)
    ensures
        f.line is None ==> f.location() == f.file,
        f.line matches Some(n) ==> f.location() == f.file + seq![':'] + dec(n as nat),
        f.text() == f.code + seq![' '] + f.location() + seq![':', ' '] + f.message,
{
}

/// A buffer that is let go is no longer drawn on or read from: the pen goes
/// back to the screen, clipped to all of it, and has no sheet where it was
/// the sheet. The rest of the pen stays.
pub proof fn law_the_pen_lets_a_buffer_go(d: DrawState, id: BufId)
    requires
        id != BufId::screen_id(),
    ensures
        ({
            let p = d.pen_without(id);
            &&& p.target != id && p.sheet != Some(id)
            &&& d.pen.target == id ==> p.target == BufId::screen_id() && p.clip == (Rect {
                x: 0,
                y: 0,
                w: d.width as i32,
                h: d.height as i32,
            })
            &&& d.pen.target != id ==> p.target == d.pen.target && p.clip == d.pen.clip
            &&& d.pen.sheet != Some(id) ==> p.sheet == d.pen.sheet
            &&& p.camera == d.pen.camera && p.fillp == d.pen.fillp && p.table == d.pen.table
        }),
{
}

/// What is shown is what the shell presents while it lives, and the cart's
/// own screen where there is none or it has died; what is heard is the cart,
/// or silence while it is paused.
pub proof fn law_what_is_shown_and_heard<G>(c: Console<G>, o: FrameOutput)
    requires
        c.gives(o),
    ensures
        c.shell matches Some(s) && s.status@ is None ==> o.screen@ == c.shell->0.presentation@,
        c.shell is None || c.shell->0.status@ is Some ==> o.screen@ == canvas_of(
            c.cart.state.res.screen_of(),
        ).pixels,
        c.shell is Some && c.shell->0.paused ==> o.audio@ == c.silence@,
        c.shell is None || !c.shell->0.paused ==> o.audio@ == c.cart.state.audio@.out,
        o.frame == c.cart.frame && o.width == c.cart.state.width && o.height == c.cart.state.height,
{
}

} // verus!
