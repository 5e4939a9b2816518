//! What a link does with the commands of a frame and the events that wait.

use vstd::prelude::*;
use super::link::{ActionView, LinkView, Pushed};
use super::{CommandView, EventView, FailCode, Reason};

verus! {

/// A Leave closes an open transport and tells the cart that it was closed,
/// permitted or not; without one it does nothing.
pub proof fn law_a_leave_closes_the_transport(p: Pushed)
    requires
        CommandView::Leave.flaw() is None,
        p.link.pending.len() < super::link::PENDING_CAP,
    ensures
        ({
            let q = p.then_one(CommandView::Leave);
            &&& p.link.live ==> q.actions == p.actions.push(ActionView::Close) && !q.link.live
                && q.link.pending == p.link.pending.push(
                EventView::Disconnected { reason: Reason::Closed },
            )
            &&& !p.link.live ==> q == p
            &&& q.link.permitted == p.link.permitted && q.built == p.built
        }),
{
}

/// What is sent goes to the open transport behind what went before it, and
/// nowhere without one; a link without permission passes nothing on.
pub proof fn law_a_send_needs_an_open_transport(p: Pushed, data: Seq<u8>)
    requires
        (CommandView::Send { data }).flaw() is None,
    ensures
        ({
            let c = CommandView::Send { data };
            let q = p.then_one(c);
            &&& p.link.live && p.link.permitted ==> q.actions == p.actions.push(ActionView::Push(c))
            &&& !(p.link.live && p.link.permitted) ==> q.actions == p.actions
            &&& q.link == p.link
        }),
{
}

/// The first Host or Join of a frame builds a transport and is passed on to
/// it; a host that has none, and a second one of a frame, is answered with a
/// failure.
pub proof fn law_a_request_builds_a_transport(p: Pushed, c: CommandView)
    requires
        c.flaw() is None,
        c is Host || c is Join,
        p.link.permitted,
        !p.link.live,
        p.link.pending.len() < super::link::PENDING_CAP,
        p.link.constructed < u32::MAX,
    ensures
        ({
            let q = p.then_one(c);
            &&& !p.built && p.link.able ==> q.link.live && q.built && q.link.constructed
                == p.link.constructed + 1 && q.actions == p.actions.push(ActionView::Build).push(
                ActionView::Push(c),
            ) && q.link.pending == p.link.pending
            &&& !p.built && !p.link.able ==> !q.link.live && q.actions == p.actions
                && q.link.pending == p.link.pending.push(
                EventView::failure(FailCode::Disabled, "this host has no transport"@),
            )
            &&& p.built ==> !q.link.live && q.actions == p.actions && q.link.pending
                == p.link.pending.push(
                EventView::failure(FailCode::Declined, "one session per frame"@),
            )
        }),
{
}

/// The events of some that take room: all but the changes of permission.
pub open spec fn roomed(v: Seq<EventView>) -> int
    decreases v.len(),
{
    if v.len() == 0 {
        0
    } else {
        roomed(v.skip(1)) + (if v[0] is Permission {
            0int
        } else {
            1
        })
    }
}

/// Waiting events go out from the front while there is room for them: those
/// that go out fill no more than the room, what is left of it is what they
/// did not take, and the first that stays needs room that is not there. A
/// change of permission needs none.
pub proof fn law_events_go_out_while_there_is_room(pending: Seq<EventView>, room: int)
    requires
        room >= 0,
    ensures
        ({
            let n = LinkView::leaving(pending, room);
            &&& 0 <= n <= pending.len()
            &&& roomed(pending.take(n)) <= room
            &&& LinkView::room_left(pending, room) == room - roomed(pending.take(n))
            &&& n < pending.len() ==> !(pending[n] is Permission) && LinkView::room_left(
                pending,
                room,
            ) == 0
        }),
    decreases pending.len(),
{
    let n = LinkView::leaving(pending, room);
    if pending.len() > 0 && (pending[0] is Permission || room > 0) {
        let rest = pending.skip(1);
        let r = if pending[0] is Permission {
            room
        } else {
            room - 1
        };
        law_events_go_out_while_there_is_room(rest, r);
        assert(pending.take(n).skip(1) =~= rest.take(n - 1));
        assert(pending.take(n)[0] == pending[0]);
    } else {
        assert(roomed(pending.take(0)) == 0);
    }
}

} // verus!
