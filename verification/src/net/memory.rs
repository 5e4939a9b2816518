//! Two transports joined in process, for tests and the pair fixtures.

use std::collections::VecDeque;
use vstd::prelude::*;
use vstd::string::*;
use crate::net::{
    event_views, Command, CommandView, Event, EventView, FailCode, Reason, INBOX_CAP,
};
use crate::text::str_eq;

verus! {

/// The ticket the memory pair's host hands out.
pub const MEMORY_TICKET: &'static str = "memory:pair";

#[derive(Debug, Clone, Copy, PartialEq, Eq, Structural)]
pub enum SideStatus {
    Off,
    Hosting,
    Connected,
}

/// One end of the pair.
#[derive(Debug)]
pub struct Side {
    pub status: SideStatus,
    /// Whether this side called `host`: a host goes back to listening
    /// when its peer leaves, a joiner goes back to off.
    pub host: bool,
    /// Events for this side, each with the poll count it becomes
    /// deliverable behind.
    pub queue: VecDeque<(u64, Event)>,
    pub polls: u64,
    pub alive: bool,
}

/// Two transports joined in process, each addressed by its side, 0 or 1.
/// `Host` on either side yields `Hosting` with [`MEMORY_TICKET`]; `Join`
/// with that ticket connects them; `Send` delivers to the other side;
/// `Leave` tells the other side `Left`; losing a side tells the other
/// `Lost`. Knobs: a delivery delay in polls and a queue capacity, so a
/// harness can stall and pressure a cart.
#[derive(Debug)]
pub struct MemoryTransport {
    pub sides: [Side; 2],
    /// Polls an event waits before it is deliverable.
    pub delay: u64,
    /// Queue length at which a send is refused as full.
    pub capacity: usize,
}

/// A side as plain values.
#[verifier::ext_equal]
pub struct SideView {
    pub status: SideStatus,
    pub host: bool,
    pub queue: Seq<(u64, EventView)>,
    pub polls: u64,
    pub alive: bool,
}

pub open spec fn queue_views(q: Seq<(u64, Event)>) -> Seq<(u64, EventView)> {
    q.map_values(|p: (u64, Event)| (p.0, p.1@))
}

impl View for Side {
    type V = SideView;

    open spec fn view(&self) -> SideView {
        SideView {
            status: self.status,
            host: self.host,
            queue: queue_views(self.queue@),
            polls: self.polls,
            alive: self.alive,
        }
    }
}

/// The pair as plain values.
#[verifier::ext_equal]
pub struct PairView {
    pub sides: Seq<SideView>,
    pub delay: u64,
    pub capacity: usize,
}

impl View for MemoryTransport {
    type V = PairView;

    open spec fn view(&self) -> PairView {
        PairView {
            sides: self.sides@.map_values(|s: Side| s@),
            delay: self.delay,
            capacity: self.capacity,
        }
    }
}

pub open spec fn fresh_side() -> SideView {
    SideView { status: SideStatus::Off, host: false, queue: seq![], polls: 0, alive: true }
}

/// When an event that is handed over now becomes deliverable.
pub open spec fn due(polls: u64, delay: u64) -> u64 {
    if polls + delay > u64::MAX {
        u64::MAX
    } else {
        (polls + delay) as u64
    }
}

/// How many events of a queue are deliverable, up to `max`.
pub open spec fn ready(q: Seq<(u64, EventView)>, polls: u64, max: int) -> int
    decreases q.len(),
{
    if max <= 0 || q.len() == 0 || q[0].0 >= polls {
        0
    } else {
        1 + ready(q.skip(1), polls, max - 1)
    }
}

pub open spec fn said(q: Seq<(u64, EventView)>) -> Seq<EventView> {
    q.map_values(|p: (u64, EventView)| p.1)
}

impl SideView {
    /// The status after the peer of a connected side goes away.
    pub open spec fn after_peer(self) -> SideStatus {
        if self.host {
            SideStatus::Hosting
        } else {
            SideStatus::Off
        }
    }

    pub open spec fn with(self, status: SideStatus) -> SideView {
        SideView { status, ..self }
    }

    pub open spec fn handed(self, delay: u64, e: EventView) -> SideView {
        SideView { queue: self.queue.push((due(self.polls, delay), e)), ..self }
    }

    /// A side polled for some events.
    pub open spec fn polled(self, max: int) -> SideView {
        let polls = due(self.polls, 1);
        SideView { polls, queue: self.queue.skip(ready(self.queue, polls, max)), ..self }
    }
}

impl PairView {
    /// Another state of one side.
    pub open spec fn with(self, me: int, s: SideView) -> PairView {
        PairView { sides: self.sides.update(me, s), ..self }
    }

    /// An event handed to one side.
    pub open spec fn handed(self, to: int, e: EventView) -> PairView {
        self.with(to, self.sides[to].handed(self.delay, e))
    }

    /// The pair after a command of one side.
    pub open spec fn pushed(self, me: int, c: CommandView) -> PairView {
        let other = 1 - me;
        let status = self.sides[me].status;
        match c {
            CommandView::Host => if !(status is Off) {
                self.handed(me, EventView::failure(FailCode::Declined, "already hosting"@))
            } else {
                self.with(
                    me,
                    SideView { status: SideStatus::Hosting, host: true, ..self.sides[me] },
                ).handed(me, EventView::Hosting { ticket: MEMORY_TICKET@ })
            },
            CommandView::Join { ticket } => if ticket != MEMORY_TICKET@ {
                self.handed(me, EventView::failure(FailCode::Ticket, "not a memory ticket"@))
            } else if !self.sides[other].alive || !(self.sides[other].status is Hosting) {
                self.handed(me, EventView::failure(FailCode::Connect, "no host is listening"@))
            } else {
                self.with(me, self.sides[me].with(SideStatus::Connected)).with(
                    other,
                    self.sides[other].with(SideStatus::Connected),
                ).handed(me, EventView::Connected { peer: 1 }).handed(
                    other,
                    EventView::Connected { peer: 1 },
                )
            },
            CommandView::Send { data } => if !(status is Connected) {
                self.handed(me, EventView::failure(FailCode::Declined, "no session"@))
            } else if self.sides[other].queue.len() >= self.capacity {
                self.handed(
                    me,
                    EventView::failure(FailCode::QueueFull, "the peer's queue is full"@),
                )
            } else {
                self.handed(other, EventView::Message { from: 1, data })
            },
            CommandView::Leave => {
                let told = if status is Connected {
                    self.with(other, self.sides[other].with(self.sides[other].after_peer())).handed(
                        other,
                        EventView::Disconnected { reason: Reason::Left },
                    )
                } else {
                    self
                };
                told.with(
                    me,
                    SideView {
                        status: SideStatus::Off,
                        host: false,
                        queue: seq![],
                        ..told.sides[me]
                    },
                )
            },
        }
    }

    /// The pair once a side was lost.
    pub open spec fn lost(self, me: int) -> PairView {
        let other = 1 - me;
        let told = if self.sides[me].status is Connected {
            self.with(other, self.sides[other].with(self.sides[other].after_peer())).handed(
                other,
                EventView::Disconnected { reason: Reason::Lost },
            )
        } else {
            self
        };
        told.with(me, SideView { status: SideStatus::Off, alive: false, ..told.sides[me] })
    }

    /// What holds of every pair: a session has two ends.
    pub open spec fn coupled(self) -> bool {
        self.sides.len() == 2 && (self.sides[0].status is Connected <==> self.sides[1].status
            is Connected)
    }
}

fn due_at(polls: u64, delay: u64) -> (r: u64)
    ensures
        r == due(polls, delay),
{
    polls.saturating_add(delay)
}

fn fresh() -> (s: Side)
    ensures
        s@ == fresh_side(),
{
    let s = Side {
        status: SideStatus::Off,
        host: false,
        queue: VecDeque::new(),
        polls: 0,
        alive: true,
    };
    assert(s@ =~= fresh_side());
    s
}

impl MemoryTransport {
    pub fn pair() -> (p: MemoryTransport)
        ensures
            p@ == (PairView {
                sides: seq![fresh_side(), fresh_side()],
                delay: 0,
                capacity: INBOX_CAP,
            }),
            p@.coupled(),
    {
        let p = MemoryTransport { sides: [fresh(), fresh()], delay: 0, capacity: INBOX_CAP };
        assert(p@.sides =~= seq![fresh_side(), fresh_side()]);
        p
    }

    /// Polls an event waits before it is delivered (default 0).
    pub fn set_delay(&mut self, polls: u64)
        ensures
            final(self)@ == (PairView { delay: polls, ..old(self)@ }),
    {
        self.delay = polls;
    }

    /// Queued events at which the other side's send is refused as
    /// `net_queue_full` (default [`INBOX_CAP`]).
    pub fn set_capacity(&mut self, n: usize)
        ensures
            final(self)@ == (PairView { capacity: n, ..old(self)@ }),
    {
        self.capacity = n;
    }

    fn deliver(&mut self, to: usize, e: Event)
        requires
            to < 2,
        ensures
            final(self)@ == old(self)@.handed(to as int, e@),
    {
        let at: u64 = due_at(self.sides[to].polls, self.delay);
        let ghost before = self.sides@[to as int].queue@;
        self.sides[to].queue.push_back((at, e));
        proof {
            assert(queue_views(self.sides@[to as int].queue@) =~= queue_views(before).push(
                (at, e@),
            ));
            assert(self@.sides =~= old(self)@.handed(to as int, e@).sides);
        }
    }

    fn set_status(&mut self, me: usize, status: SideStatus)
        requires
            me < 2,
        ensures
            final(self)@ == old(self)@.with(me as int, old(self)@.sides[me as int].with(status)),
    {
        self.sides[me].status = status;
        assert(self@.sides =~= old(self)@.with(
            me as int,
            old(self)@.sides[me as int].with(status),
        ).sides);
    }

    /// The other side's peer went away.
    fn part(&mut self, other: usize, reason: Reason)
        requires
            other < 2,
        ensures
            final(self)@ == old(self)@.with(
                other as int,
                old(self)@.sides[other as int].with(old(self)@.sides[other as int].after_peer()),
            ).handed(other as int, EventView::Disconnected { reason }),
    {
        // A host keeps listening after its peer leaves.
        let next = if self.sides[other].host { SideStatus::Hosting } else { SideStatus::Off };
        self.set_status(other, next);
        self.deliver(other, Event::Disconnected { reason });
    }

    /// A command of one side.
    pub fn push(&mut self, me: usize, cmd: Command)
        requires
            me < 2,
            old(self)@.coupled(),
        ensures
            final(self)@ == old(self)@.pushed(me as int, cmd@),
            final(self)@.coupled(),
    {
        let other: usize = 1 - me;
        let status = self.sides[me].status;
        match cmd {
            Command::Host => {
                if status != SideStatus::Off {
                    self.deliver(me, Event::failed(FailCode::Declined, "already hosting"));
                } else {
                    let ghost before = self@;
                    self.sides[me].status = SideStatus::Hosting;
                    self.sides[me].host = true;
                    assert(self@.sides =~= before.with(
                        me as int,
                        SideView {
                            status: SideStatus::Hosting,
                            host: true,
                            ..before.sides[me as int]
                        },
                    ).sides);
                    self.deliver(me, Event::Hosting { ticket: MEMORY_TICKET.to_owned() });
                }
            },
            Command::Join { ticket } => {
                if !str_eq(ticket.as_str(), MEMORY_TICKET) {
                    self.deliver(me, Event::failed(FailCode::Ticket, "not a memory ticket"));
                } else if !self.sides[other].alive || self.sides[other].status
                    != SideStatus::Hosting {
                    self.deliver(me, Event::failed(FailCode::Connect, "no host is listening"));
                } else {
                    self.set_status(me, SideStatus::Connected);
                    self.set_status(other, SideStatus::Connected);
                    self.deliver(me, Event::Connected { peer: 1 });
                    self.deliver(other, Event::Connected { peer: 1 });
                }
            },
            Command::Send { data } => {
                if status != SideStatus::Connected {
                    self.deliver(me, Event::failed(FailCode::Declined, "no session"));
                } else if self.sides[other].queue.len() >= self.capacity {
                    self.deliver(
                        me,
                        Event::failed(FailCode::QueueFull, "the peer's queue is full"),
                    );
                } else {
                    self.deliver(other, Event::Message { from: 1, data });
                }
            },
            Command::Leave => {
                if status == SideStatus::Connected {
                    self.part(other, Reason::Left);
                }
                let ghost told = self@;
                self.sides[me].status = SideStatus::Off;
                self.sides[me].host = false;
                self.sides[me].queue.clear();
                proof {
                    assert(queue_views(self.sides@[me as int].queue@) =~= seq![]);
                    assert(self@.sides =~= told.with(
                        me as int,
                        SideView {
                            status: SideStatus::Off,
                            host: false,
                            queue: seq![],
                            ..told.sides[me as int]
                        },
                    ).sides);
                }
            },
        }
    }

    /// Append at most `max` events that have arrived for one side since
    /// the last call, in order, and leave the rest for later.
    #[verifier::spinoff_prover]
    #[verifier::rlimit(50)]
    pub fn poll(&mut self, me: usize, out: &mut Vec<Event>, max: usize)
        requires
            me < 2,
            old(self)@.coupled(),
        ensures
            final(self)@ == old(self)@.with(
                me as int,
                old(self)@.sides[me as int].polled(max as int),
            ),
            final(self)@.coupled(),
            ({
                let s = old(self)@.sides[me as int];
                event_views(final(out)@) == event_views(old(out)@) + said(
                    s.queue.take(ready(s.queue, due(s.polls, 1), max as int)),
                )
            }),
    {
        let ghost start = self@;
        let ghost s = start.sides[me as int];
        let polls: u64 = due_at(self.sides[me].polls, 1);
        self.sides[me].polls = polls;
        let ghost total = ready(s.queue, polls, max as int);
        let mut n: usize = 0;
        proof {
            assert(self.sides@[me as int]@.queue =~= s.queue.skip(0));
            assert(said(s.queue.take(0)) =~= seq![]);
            assert(event_views(out@) + seq![] =~= event_views(out@));
        }
        while n < max
            invariant_except_break
                total == n + ready(s.queue.skip(n as int), polls, max - n),
            invariant
                me < 2,
                n <= max,
                n <= s.queue.len(),
                s == start.sides[me as int],
                start == old(self)@,
                start.sides.len() == 2,
                polls == due(s.polls, 1),
                total == ready(s.queue, polls, max as int),
                self.sides@.len() == 2,
                self@.sides =~= start.sides.update(
                    me as int,
                    SideView { polls, queue: s.queue.skip(n as int), ..s },
                ),
                self.delay == start.delay,
                self.capacity == start.capacity,
                event_views(out@) == event_views(old(out)@) + said(s.queue.take(n as int)),
            ensures
                total == n,
            decreases max - n,
        {
            let ghost sides = self.sides@;
            let ghost q = self.sides@[me as int].queue@;
            assert(self@.sides[1 - me] == start.sides[1 - me]);
            assert(self@.sides[me as int].queue == queue_views(q));
            assert(queue_views(q) == s.queue.skip(n as int));
            if self.sides[me].queue.len() == 0 {
                break;
            }
            let first: u64 = self.sides[me].queue[0].0;
            assert(queue_views(q)[0].0 == first);
            if first >= polls {
                break;
            }
            match self.sides[me].queue.pop_front() {
                None => {
                    break;
                },
                Some(p) => {
                    proof {
                        assert(p == q[0]);
                        assert(queue_views(q)[0] == (p.0, p.1@));
                        assert(queue_views(self.sides@[me as int].queue@) =~= queue_views(
                            q,
                        ).skip(1));
                        assert(s.queue.skip(n as int).skip(1) =~= s.queue.skip(n + 1));
                        assert(said(s.queue.take(n + 1)) =~= said(s.queue.take(n as int)).push(
                            p.1@,
                        ));
                    }
                    let ghost before = out@;
                    out.push(p.1);
                    proof {
                        assert(event_views(out@) =~= event_views(before).push(p.1@));
                        assert(event_views(old(out)@) + said(s.queue.take(n + 1)) =~= (event_views(
                            old(out)@,
                        ) + said(s.queue.take(n as int))).push(p.1@));
                    }
                    n += 1;
                    proof {
                        assert(self.sides@[1 - me] == sides[1 - me]);
                        assert(self@.sides[1 - me] == start.sides[1 - me]);
                        assert(self@.sides[me as int] =~= SideView {
                            polls,
                            queue: s.queue.skip(n as int),
                            ..s
                        });
                    }
                },
            }
        }
        assert(self@ =~= start.with(me as int, s.polled(max as int)));
    }

    /// One side is gone for good.
    pub fn lose(&mut self, me: usize)
        requires
            me < 2,
            old(self)@.coupled(),
        ensures
            final(self)@ == old(self)@.lost(me as int),
            final(self)@.coupled(),
    {
        let other: usize = 1 - me;
        if self.sides[me].status == SideStatus::Connected {
            self.part(other, Reason::Lost);
        }
        let ghost told = self@;
        self.sides[me].alive = false;
        self.sides[me].status = SideStatus::Off;
        assert(self@.sides =~= told.with(
            me as int,
            SideView { status: SideStatus::Off, alive: false, ..told.sides[me as int] },
        ).sides);
    }
}

/// A host that is listening and a joiner that has its ticket are
/// connected, and each is told.
pub proof fn law_a_ticket_connects(p: PairView, me: int)
    requires
        0 <= me < 2,
        p.coupled(),
        p.sides[1 - me].status is Hosting,
        p.sides[1 - me].alive,
    ensures
        ({
            let q = p.pushed(me, CommandView::Join { ticket: MEMORY_TICKET@ });
            &&& q.sides[0].status is Connected && q.sides[1].status is Connected
            &&& q.sides[me].queue.last().1 == (EventView::Connected { peer: 1 })
            &&& q.sides[1 - me].queue.last().1 == (EventView::Connected { peer: 1 })
        }),
{
}

/// What a connected side sends stands last in the other's queue, unless
/// that is full; then the sender is told and the other side keeps what it
/// had.
pub proof fn law_a_message_is_queued_or_refused(p: PairView, me: int, data: Seq<u8>)
    requires
        0 <= me < 2,
        p.coupled(),
        p.sides[me].status is Connected,
    ensures
        ({
            let other = 1 - me;
            let q = p.pushed(me, CommandView::Send { data });
            if p.sides[other].queue.len() < p.capacity {
                said(q.sides[other].queue) == said(p.sides[other].queue).push(
                    EventView::Message { from: 1, data },
                )
            } else {
                q.sides[other] == p.sides[other] && q.sides[me].queue.last().1
                    == EventView::failure(FailCode::QueueFull, "the peer's queue is full"@)
            }
        }),
{
    let other = 1 - me;
    let q = p.pushed(me, CommandView::Send { data });
    if p.sides[other].queue.len() < p.capacity {
        assert(said(q.sides[other].queue) =~= said(p.sides[other].queue).push(
            EventView::Message { from: 1, data },
        ));
    }
}

} // verus!
