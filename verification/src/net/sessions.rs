//! What the network does to a cart's session, event by event, and what the
//! cart's own calls do to it.

use vstd::prelude::*;
use super::{
    up, CommandView, EventView, FailCode, NetView, Reason, Status, INBOX_CAP, MAX_COMMANDS,
    MAX_SENDS,
};

verus! {

/// The last event of a frame's batch is told to the state that the others
/// left.
proof fn lemma_last_event(s: NetView, batch: Seq<EventView>, e: EventView)
    ensures
        s.begun(batch.push(e)) == s.begun(batch).admitted_one(e),
{
    assert(batch.push(e).drop_last() =~= batch);
}

/// At the start of a frame nothing is asked for yet.
proof fn lemma_clean_frame(s: NetView, batch: Seq<EventView>)
    ensures
        s.begun(batch).outbox.len() == 0,
        s.begun(batch).sends == 0,
    decreases batch.len(),
{
    if batch.len() > 0 {
        lemma_clean_frame(s, batch.drop_last());
    }
}

/// A session that ended is over: whatever a cart was doing, after the peer
/// left or was lost it is not connected and has no peer, nothing can be
/// sent, and it waits for another peer exactly where it still has a ticket.
/// Without one it may host or join again at once.
pub proof fn law_a_lost_session_is_over(
    s: NetView,
    batch: Seq<EventView>,
    reason: Reason,
    data: Seq<u8>,
    c: CommandView,
)
    ensures
        ({
            let v = s.begun(batch);
            let w = s.begun(batch.push(EventView::Disconnected { reason }));
            &&& w.peer is None
            &&& w.ticket == v.ticket
            &&& !(reason is Closed) ==> {
                &&& !(w.status is Connected)
                &&& w.status is Hosting <==> v.ticket is Some
                &&& w.status is Ended <==> v.ticket is None
                &&& !w.sendable()
                &&& w.sent_with(data) == w
                &&& v.ticket is None ==> !w.live()
                &&& v.ticket is None && w.permitted ==> w.asked(Status::Joining, c).outbox
                    == seq![c] && w.asked(Status::Joining, c).status is Joining
            }
            &&& reason is Closed ==> w.status == v.status
        }),
{
    let e = EventView::Disconnected { reason };
    lemma_last_event(s, batch, e);
    lemma_clean_frame(s, batch.push(e));
    let w = s.begun(batch.push(e));
    assert(w.outbox =~= seq![]);
    assert(seq![].push(c) =~= seq![c]);
}

/// A session that opened is open: after the peer came the cart is
/// connected to it, and the first message it sends is queued as it is.
pub proof fn law_an_open_session_carries_messages(
    s: NetView,
    batch: Seq<EventView>,
    peer: u32,
    data: Seq<u8>,
)
    ensures
        ({
            let v = s.begun(batch);
            let w = s.begun(batch.push(EventView::Connected { peer }));
            &&& w.status is Connected
            &&& w.peer == Some(peer)
            &&& w.ticket == v.ticket
            &&& w.live()
            &&& w.sendable()
            &&& w.sent_with(data).outbox == seq![CommandView::Send { data }]
            &&& w.sent_with(data).sent == up(w.sent)
            &&& w.sent_with(data).status is Connected
        }),
{
    let e = EventView::Connected { peer };
    lemma_last_event(s, batch, e);
    lemma_clean_frame(s, batch.push(e));
    let w = s.begun(batch.push(e));
    assert(w.outbox =~= seq![]);
    assert(seq![].push(CommandView::Send { data }) =~= seq![CommandView::Send { data }]);
}

/// A ticket that came is kept for the cart to show, and a cart that was
/// not connected yet waits for its peer; a message is counted and changes
/// nothing else; a granted permission changes only that.
pub proof fn law_other_events_leave_the_session(
    s: NetView,
    batch: Seq<EventView>,
    ticket: Seq<char>,
    from: u32,
    data: Seq<u8>,
)
    ensures
        ({
            let v = s.begun(batch);
            let h = s.begun(batch.push(EventView::Hosting { ticket }));
            let m = s.begun(batch.push(EventView::Message { from, data }));
            let g = s.begun(batch.push(EventView::Permission { granted: true }));
            &&& h.ticket == Some(ticket) && h.peer == v.peer
            &&& h.status is Connected <==> v.status is Connected
            &&& !(v.status is Connected) ==> h.status is Hosting
            &&& m.status == v.status && m.peer == v.peer && m.ticket == v.ticket
            &&& m.received == up(v.received)
            &&& g.permitted && g.status == v.status && g.peer == v.peer && g.ticket == v.ticket
            &&& g.received == v.received && h.received == v.received
        }),
{
    lemma_last_event(s, batch, EventView::Hosting { ticket });
    lemma_last_event(s, batch, EventView::Message { from, data });
    lemma_last_event(s, batch, EventView::Permission { granted: true });
}

/// A failure ends a request that was not answered yet, and nothing else: a
/// cart that has its ticket goes on waiting, and one that is connected
/// stays so.
pub proof fn law_a_failure_ends_an_open_request(
    s: NetView,
    batch: Seq<EventView>,
    code: FailCode,
    detail: Seq<char>,
)
    ensures
        ({
            let v = s.begun(batch);
            let w = s.begun(batch.push(EventView::Failed { code, detail }));
            &&& v.status is Joining ==> w.status is Ended
            &&& v.status is Hosting && v.ticket is None ==> w.status is Ended
            &&& v.status is Hosting && v.ticket is Some ==> w.status is Hosting
            &&& v.status is Connected || v.status is Off || v.status is Ended ==> w.status
                == v.status
            &&& w.peer == v.peer && w.ticket == v.ticket
        }),
{
    lemma_last_event(s, batch, EventView::Failed { code, detail });
}

/// An event that is told is the last that waits in the inbox, or is
/// counted as dropped where the inbox is full and the event is no control.
pub proof fn law_an_event_waits_or_is_counted(s: NetView, batch: Seq<EventView>, e: EventView)
    requires
        !(e is Permission),
    ensures
        ({
            let v = s.begun(batch);
            let w = s.begun(batch.push(e));
            &&& v.inbox.len() < INBOX_CAP ==> w.inbox == v.inbox.push(e) && w.admitted
                == v.admitted.push(e) && w.dropped == v.dropped
            &&& v.inbox.len() >= INBOX_CAP ==> w.inbox == v.inbox && w.admitted == v.admitted
                && w.dropped == up(v.dropped)
        }),
{
    lemma_last_event(s, batch, e);
}

/// A request queues its command and stands as it was asked for; a second
/// one while a session is open is declined and asks for nothing.
pub proof fn law_one_session_at_a_time(
    v: NetView,
    status: Status,
    c: CommandView,
    other: Status,
    d: CommandView,
)
    requires
        v.permitted,
        v.outbox.len() < MAX_COMMANDS,
        status is Hosting || status is Joining,
    ensures
        ({
            let w = v.asked(status, c);
            let x = w.asked(other, d);
            &&& v.status is Off || v.status is Ended ==> {
                &&& w.status == status && w.ticket is None && w.outbox == v.outbox.push(c)
                &&& w.inbox == v.inbox
                &&& x.outbox == w.outbox
                &&& w.inbox.len() < INBOX_CAP ==> x.inbox.last() is Failed
                    && x.inbox.last()->Failed_code is Declined
            }
            &&& v.status is Connected ==> w.outbox == v.outbox && w.status is Connected
        }),
{
}

/// A cart sends what it is allowed in a frame and no more: each message
/// goes behind what was asked for, as it is, while it is connected; one too
/// many is counted as dropped and queued nowhere.
pub proof fn law_sends_are_queued_in_order(v: NetView, data: Seq<u8>)
    ensures
        ({
            let w = v.sent_with(data);
            let room = v.sends < MAX_SENDS && v.outbox.len() < MAX_COMMANDS;
            &&& v.status is Connected && room ==> w.outbox == v.outbox.push(
                CommandView::Send { data },
            ) && w.sent == up(v.sent) && w.sends == v.sends + 1 && w.dropped == v.dropped
            &&& v.status is Connected && !room ==> w.outbox == v.outbox && w.dropped == up(v.dropped)
                && w.sent == v.sent
            &&& !(v.status is Connected) ==> w == v
            &&& v.sendable() <==> v.status is Connected && room
        }),
{
}

/// Leaving ends an open session and asks for the peer to be told; a cart
/// without one changes nothing.
pub proof fn law_leaving_ends_the_session(v: NetView)
    ensures
        ({
            let w = v.left();
            let open = v.status is Hosting || v.status is Joining || v.status is Connected;
            &&& open ==> w.status is Ended && w.ticket is None && w.peer is None && !w.sendable()
            &&& open && v.outbox.len() < MAX_COMMANDS ==> w.outbox == v.outbox.push(
                CommandView::Leave,
            )
            &&& !open ==> w == v
            &&& w.inbox == v.inbox
        }),
{
}

/// Whether a cart that is connected has a peer.
pub open spec fn paired(v: NetView) -> bool {
    v.status is Connected ==> v.peer is Some
}

/// Whatever a cart calls and whatever it is told, it is connected only
/// while it has a peer. The one exception is the word that its own leaving
/// closed the session, which it has left by then.
pub proof fn law_only_a_peer_connects(
    v: NetView,
    e: EventView,
    status: Status,
    c: CommandView,
    data: Seq<u8>,
    permitted: bool,
    invite: Option<Seq<char>>,
)
    requires
        paired(v),
        e is Disconnected && e->reason is Closed ==> !(v.status is Connected),
        status is Hosting || status is Joining,
    ensures
        paired(NetView::fresh(permitted, invite)),
        paired(v.begun(seq![])),
        paired(v.begun(seq![]).admitted_one(e)),
        paired(v.admitted_one(e)),
        paired(v.asked(status, c)),
        paired(v.sent_with(data)),
        paired(v.left()),
{
}

} // verus!
