//! When and in which order a pair of transports joined in process delivers
//! what it was handed, and what each side learns of the other.

use vstd::prelude::*;
use super::memory::{due, ready, said, PairView, SideStatus, SideView, MEMORY_TICKET};
use super::{CommandView, EventView, FailCode, Reason};

verus! {

/// A poll takes events from the front, as many as are due and fit: one that
/// it takes is due, and it stops only at its limit, at the end or at one
/// that is not.
pub proof fn law_a_poll_takes_what_is_due(q: Seq<(u64, EventView)>, polls: u64, max: int, i: int)
    requires
        max >= 0,
    ensures
        ({
            let n = ready(q, polls, max);
            &&& 0 <= n <= max && n <= q.len()
            &&& 0 <= i < n ==> q[i].0 < polls
            &&& n < max && n < q.len() ==> q[n].0 >= polls
        }),
    decreases q.len(),
{
    if max > 0 && q.len() > 0 && q[0].0 < polls {
        law_a_poll_takes_what_is_due(q.skip(1), polls, max - 1, i - 1);
    }
}

/// What a side is handed comes out once, in order: what a poll gives and
/// what it leaves are together what was there.
pub proof fn law_a_poll_loses_nothing(s: SideView, max: int)
    requires
        max >= 0,
    ensures
        ({
            let n = ready(s.queue, due(s.polls, 1), max);
            &&& said(s.queue.take(n)) + said(s.polled(max).queue) == said(s.queue)
            &&& s.polled(max).status == s.status
            &&& s.polls < u64::MAX ==> s.polled(max).polls == s.polls + 1
        }),
{
    let n = ready(s.queue, due(s.polls, 1), max);
    law_a_poll_takes_what_is_due(s.queue, due(s.polls, 1), max, 0);
    assert(said(s.queue.take(n)) + said(s.polled(max).queue) =~= said(s.queue));
}

/// An event waits as many polls as the delay says: a side that has nothing
/// else gives it at the first poll after those, and not before.
pub proof fn law_an_event_waits_its_delay(s: SideView, delay: u64, e: EventView, k: u64)
    requires
        s.queue.len() == 0,
        1 <= k,
        s.polls + delay <= u64::MAX,
        s.polls + k <= u64::MAX,
    ensures
        ready(s.handed(delay, e).queue, (s.polls + k) as u64, 1) == (if k > delay {
            1int
        } else {
            0
        }),
        said(s.handed(delay, e).queue) == seq![e],
{
    let q = s.handed(delay, e).queue;
    assert(q.len() == 1 && q[0] == ((s.polls + delay) as u64, e));
    reveal_with_fuel(ready, 3);
    assert(said(q) =~= seq![e]);
}

/// A side that leaves a session tells the other that it left, and one that
/// is lost that it was lost: the other is told last, a host listens again
/// and a joiner is off, and what the other had waiting still waits.
pub proof fn law_going_away_is_told(p: PairView, me: int)
    requires
        0 <= me < 2,
        p.coupled(),
        p.sides[me].status is Connected,
    ensures
        ({
            let other = 1 - me;
            let a = p.pushed(me, CommandView::Leave);
            let b = p.lost(me);
            let listens = if p.sides[other].host {
                SideStatus::Hosting
            } else {
                SideStatus::Off
            };
            &&& said(a.sides[other].queue) == said(p.sides[other].queue).push(
                EventView::Disconnected { reason: Reason::Left },
            )
            &&& said(b.sides[other].queue) == said(p.sides[other].queue).push(
                EventView::Disconnected { reason: Reason::Lost },
            )
            &&& a.sides[other].status == listens && b.sides[other].status == listens
            &&& a.sides[me].status is Off && b.sides[me].status is Off
            &&& a.sides[me].alive == p.sides[me].alive && !b.sides[me].alive
            &&& a.sides[me].queue.len() == 0 && !a.sides[me].host
        }),
{
    let other = 1 - me;
    assert(said(p.pushed(me, CommandView::Leave).sides[other].queue) =~= said(
        p.sides[other].queue,
    ).push(EventView::Disconnected { reason: Reason::Left }));
    assert(said(p.lost(me).sides[other].queue) =~= said(p.sides[other].queue).push(
        EventView::Disconnected { reason: Reason::Lost },
    ));
}

/// A command that cannot be done is answered to the side that gave it, and
/// the other side does not notice.
pub proof fn law_a_refused_command_is_answered(p: PairView, me: int, ticket: Seq<char>, data: Seq<u8>)
    requires
        0 <= me < 2,
        p.coupled(),
    ensures
        ({
            let other = 1 - me;
            let host = p.pushed(me, CommandView::Host);
            let join = p.pushed(me, CommandView::Join { ticket });
            let send = p.pushed(me, CommandView::Send { data });
            &&& !(p.sides[me].status is Off) ==> host.sides[other] == p.sides[other]
                && host.sides[me].status == p.sides[me].status && host.sides[me].queue.last().1
                == EventView::failure(FailCode::Declined, "already hosting"@)
            &&& p.sides[me].status is Off ==> host.sides[other] == p.sides[other]
                && host.sides[me].status is Hosting && host.sides[me].host
                && host.sides[me].queue.last().1 == (EventView::Hosting { ticket: MEMORY_TICKET@ })
            &&& ticket != MEMORY_TICKET@ ==> join.sides[other] == p.sides[other]
                && join.sides[me].status == p.sides[me].status && join.sides[me].queue.last().1
                == EventView::failure(FailCode::Ticket, "not a memory ticket"@)
            &&& ticket == MEMORY_TICKET@ && !(p.sides[other].alive && p.sides[other].status
                is Hosting) ==> join.sides[other] == p.sides[other] && join.sides[me].status
                == p.sides[me].status && join.sides[me].queue.last().1 == EventView::failure(
                FailCode::Connect,
                "no host is listening"@,
            )
            &&& !(p.sides[me].status is Connected) ==> send.sides[other] == p.sides[other]
                && send.sides[me].queue.last().1 == EventView::failure(
                FailCode::Declined,
                "no session"@,
            )
        }),
{
}

} // verus!
