//! The host's half of a networked cart: the permission gate, when a
//! transport is built and dropped, and the events waiting for a frame.
//! Every host that runs a networked cart steps through one of these; a
//! replay has none.
//!
//! The link decides; the host owns the transport and does what the link
//! says with it.

use std::collections::VecDeque;
use vstd::prelude::*;
use vstd::string::*;
use crate::net::{
    command_views, event_views, Command, CommandView, Event, EventView, FailCode, Reason, INBOX_CAP,
};

verus! {

/// Events of a link's own making (a close, a failure) it keeps waiting
/// for a frame; past it, non-control ones are dropped, so a cart that
/// hosts and leaves every frame without reading cannot grow the host's
/// queue.
pub const PENDING_CAP: usize = INBOX_CAP;

/// What the host does with its transport.
#[derive(Debug, PartialEq, Eq)]
pub enum LinkAction {
    /// Build a transport.
    Build,
    /// Hand a command to the transport.
    Push(Command),
    /// Hand `Leave` to the transport and drop it.
    Close,
}

pub enum ActionView {
    Build,
    Push(CommandView),
    Close,
}

impl View for LinkAction {
    type V = ActionView;

    open spec fn view(&self) -> ActionView {
        match self {
            LinkAction::Build => ActionView::Build,
            LinkAction::Push(c) => ActionView::Push(c@),
            LinkAction::Close => ActionView::Close,
        }
    }
}

pub open spec fn action_views(v: Seq<LinkAction>) -> Seq<ActionView> {
    v.map_values(|a: LinkAction| a@)
}

#[derive(Debug)]
pub struct Link {
    /// Whether a transport is built.
    pub live: bool,
    /// Whether this host can build one.
    pub able: bool,
    pub permitted: bool,
    pub pending: VecDeque<Event>,
    pub constructed: u32,
}

/// A link as plain values.
#[verifier::ext_equal]
pub struct LinkView {
    pub live: bool,
    pub able: bool,
    pub permitted: bool,
    pub pending: Seq<EventView>,
    pub constructed: int,
}

impl View for Link {
    type V = LinkView;

    open spec fn view(&self) -> LinkView {
        LinkView {
            live: self.live,
            able: self.able,
            permitted: self.permitted,
            pending: event_views(self.pending@),
            constructed: self.constructed as int,
        }
    }
}

/// What a frame's commands have come to: the link, what the host is to do,
/// and whether a transport was built this frame.
#[verifier::ext_equal]
pub struct Pushed {
    pub link: LinkView,
    pub actions: Seq<ActionView>,
    pub built: bool,
}

impl LinkView {
    pub open spec fn queued(self, e: EventView) -> LinkView {
        if !e.control() && self.pending.len() >= PENDING_CAP {
            self
        } else {
            LinkView { pending: self.pending.push(e), ..self }
        }
    }

    /// The link after a change of permission.
    pub open spec fn with_permission(self, on: bool) -> LinkView {
        if on == self.permitted {
            self
        } else if on {
            LinkView { permitted: true, ..self }.queued(EventView::Permission { granted: true })
        } else {
            LinkView { permitted: false, live: false, pending: seq![], ..self }.queued(
                EventView::Permission { granted: false },
            )
        }
    }

    /// Whether a change of permission closes a transport.
    pub open spec fn closes(self, on: bool) -> bool {
        !on && self.permitted && self.live
    }

    /// How many waiting events go out for a frame with some room: control
    /// events take none.
    pub open spec fn leaving(pending: Seq<EventView>, room: int) -> int
        decreases pending.len(),
    {
        if pending.len() == 0 {
            0
        } else if pending[0].control() {
            1 + LinkView::leaving(pending.skip(1), room)
        } else if room <= 0 {
            0
        } else {
            1 + LinkView::leaving(pending.skip(1), room - 1)
        }
    }

    /// The room that is left for the transport's events.
    pub open spec fn room_left(pending: Seq<EventView>, room: int) -> int
        decreases pending.len(),
    {
        if pending.len() == 0 {
            room
        } else if pending[0].control() {
            LinkView::room_left(pending.skip(1), room)
        } else if room <= 0 {
            room
        } else {
            LinkView::room_left(pending.skip(1), room - 1)
        }
    }
}

/// Transports built, counted up to the largest number.
pub open spec fn one_more(n: int) -> int {
    if n < u32::MAX {
        n + 1
    } else {
        n
    }
}

impl Pushed {
    /// One command.
    pub open spec fn then_one(self, c: CommandView) -> Pushed {
        let l = self.link;
        if c.flaw() is Some {
            self
        } else if c is Leave {
            if l.live {
                Pushed {
                    link: LinkView { live: false, ..l }.queued(
                        EventView::Disconnected { reason: Reason::Closed },
                    ),
                    actions: self.actions.push(ActionView::Close),
                    ..self
                }
            } else {
                self
            }
        } else if !l.permitted {
            self
        } else if c is Send {
            if l.live {
                Pushed { actions: self.actions.push(ActionView::Push(c)), ..self }
            } else {
                self
            }
        } else if l.live {
            Pushed { actions: self.actions.push(ActionView::Push(c)), ..self }
        } else if self.built {
            Pushed {
                link: l.queued(EventView::failure(FailCode::Declined, "one session per frame"@)),
                ..self
            }
        } else if l.able {
            Pushed {
                link: LinkView { live: true, constructed: one_more(l.constructed), ..l },
                actions: self.actions.push(ActionView::Build).push(ActionView::Push(c)),
                built: true,
            }
        } else {
            Pushed {
                link: l.queued(
                    EventView::failure(FailCode::Disabled, "this host has no transport"@),
                ),
                ..self
            }
        }
    }

    /// Commands in order.
    pub open spec fn then_all(self, cs: Seq<CommandView>) -> Pushed
        decreases cs.len(),
    {
        if cs.len() == 0 {
            self
        } else {
            self.then_all(cs.drop_last()).then_one(cs.last())
        }
    }
}

impl LinkView {
    /// A frame's commands.
    pub open spec fn pushed(self, cs: Seq<CommandView>) -> Pushed {
        Pushed { link: self, actions: seq![], built: false }.then_all(cs)
    }
}

impl Link {
    /// A link that builds its transport on the first `Host` or `Join`. Not
    /// permitted until `set_permitted(true)`.
    pub fn new() -> (l: Link)
        ensures
            l@ == (LinkView {
                live: false,
                able: true,
                permitted: false,
                pending: seq![],
                constructed: 0,
            }),
    {
        let l = Link {
            live: false,
            able: true,
            permitted: false,
            pending: VecDeque::new(),
            constructed: 0,
        };
        assert(l@.pending =~= seq![]);
        l
    }

    /// A link with no transport at all: every command is dropped.
    pub fn offline() -> (l: Link)
        ensures
            l@ == (LinkView {
                live: false,
                able: false,
                permitted: false,
                pending: seq![],
                constructed: 0,
            }),
    {
        let mut l = Link::new();
        l.able = false;
        l
    }

    /// A permitted link over a ready transport (the memory pair).
    pub fn over() -> (l: Link)
        ensures
            l@ == (LinkView {
                live: false,
                able: true,
                permitted: true,
                pending: seq![],
                constructed: 0,
            }),
    {
        let mut l = Link::new();
        l.permitted = true;
        l
    }

    pub fn is_permitted(&self) -> (r: bool)
        ensures
            r == self@.permitted,
    {
        self.permitted
    }

    /// Grant or withdraw permission. Withdrawing it ends any session,
    /// drops the transport and discards every waiting event; the cart is
    /// told through a `Permission` event. `true` where the host is to hand
    /// `Leave` to its transport and drop it.
    pub fn set_permitted(&mut self, on: bool) -> (close: bool)
        ensures
            final(self)@ == old(self)@.with_permission(on),
            close == old(self)@.closes(on),
    {
        if on == self.permitted {
            return false;
        }
        self.permitted = on;
        let close = !on && self.live;
        if !on {
            self.live = false;
            self.pending.clear();
            assert(self@ =~= (LinkView {
                permitted: false,
                live: false,
                pending: seq![],
                ..old(self)@
            }));
        }
        self.queue(Event::Permission { granted: on });
        close
    }

    /// Queue an event of this link's own making, within [`PENDING_CAP`]:
    /// past it a non-control event is dropped, as the cart's inbox drops,
    /// so the queue is bounded whether or not the cart reads.
    fn queue(&mut self, e: Event)
        ensures
            final(self)@ == old(self)@.queued(e@),
    {
        if !e.is_control() && self.pending.len() >= PENDING_CAP {
            return;
        }
        let ghost before = self.pending@;
        self.pending.push_back(e);
        assert(event_views(self.pending@) =~= event_views(before).push(e@));
        assert(self@ =~= old(self)@.queued(e@));
    }

    /// Whether a transport is currently constructed.
    pub fn is_live(&self) -> (r: bool)
        ensures
            r == self@.live,
    {
        self.live
    }

    /// How many transports this link has had built: a test hook, so a
    /// replay or a denied run can prove none was.
    pub fn constructions(&self) -> (n: u32)
        ensures
            n == self@.constructed,
    {
        self.constructed
    }

    /// What the host does with the frame's commands. Without permission
    /// every command is dropped (the cart already saw `net_denied`), and a
    /// `Leave` always closes. One transport per frame: a cart that hosts
    /// and leaves in the same frame builds one, not one per command pair.
    pub fn push(&mut self, commands: Vec<Command>) -> (actions: Vec<LinkAction>)
        ensures
            ({
                let end = old(self)@.pushed(command_views(commands@));
                final(self)@ == end.link && action_views(actions@) == end.actions
            }),
    {
        let ghost all = command_views(commands@);
        let ghost start = Pushed { link: self@, actions: seq![], built: false };
        let mut actions: Vec<LinkAction> = Vec::new();
        let mut built = false;
        let mut i: usize = 0;
        proof {
            assert(action_views(actions@) =~= seq![]);
            assert(all.take(0) =~= seq![]);
        }
        while i < commands.len()
            invariant
                i <= commands@.len(),
                all == command_views(commands@),
                start == (Pushed { link: old(self)@, actions: seq![], built: false }),
                (Pushed { link: self@, actions: action_views(actions@), built }) == start.then_all(
                    all.take(i as int),
                ),
            decreases commands.len() - i,
        {
            let ghost before = Pushed { link: self@, actions: action_views(actions@), built };
            proof {
                let t = all.take(i + 1);
                assert(t.drop_last() =~= all.take(i as int));
                assert(t.last() == all[i as int]);
                assert(all[i as int] == commands@[i as int]@);
            }
            built = self.push_one(&commands[i], &mut actions, built);
            assert((Pushed { link: self@, actions: action_views(actions@), built })
                =~= before.then_one(all[i as int]));
            i += 1;
        }
        assert(all.take(i as int) =~= all);
        actions
    }

    /// One command; whether a transport was built this frame.
    fn push_one(&mut self, c: &Command, actions: &mut Vec<LinkAction>, built: bool) -> (b: bool)
        ensures
            (Pushed { link: final(self)@, actions: action_views(final(actions)@), built: b })
                == (Pushed {
                link: old(self)@,
                actions: action_views(old(actions)@),
                built,
            }).then_one(c@),
    {
        if c.check().is_err() {
            return built;
        }
        match c {
            Command::Leave => {
                if self.live {
                    self.live = false;
                    let ghost before = actions@;
                    actions.push(LinkAction::Close);
                    self.queue(Event::Disconnected { reason: Reason::Closed });
                    assert(action_views(actions@) =~= action_views(before).push(ActionView::Close));
                }
                built
            },
            Command::Send { .. } => {
                if self.permitted && self.live {
                    push_action(actions, c);
                }
                built
            },
            _ => {
                if !self.permitted {
                    return built;
                }
                if self.live {
                    push_action(actions, c);
                    return built;
                }
                if built {
                    self.queue(Event::failed(FailCode::Declined, "one session per frame"));
                    return built;
                }
                if !self.able {
                    self.queue(Event::failed(FailCode::Disabled, "this host has no transport"));
                    return built;
                }
                self.live = true;
                if self.constructed < u32::MAX {
                    self.constructed += 1;
                }
                let ghost before = actions@;
                actions.push(LinkAction::Build);
                assert(action_views(actions@) =~= action_views(before).push(ActionView::Build));
                push_action(actions, c);
                true
            },
        }
    }

    /// Up to `room` events for the next frame: what was waiting goes out
    /// here, then the host asks its transport for at most as many as this
    /// returns. Control events do not count.
    pub fn poll(&mut self, out: &mut Vec<Event>, room: usize) -> (left: usize)
        ensures
            ({
                let p = old(self)@.pending;
                let n = LinkView::leaving(p, room as int);
                &&& final(self)@ == (LinkView { pending: p.skip(n), ..old(self)@ })
                &&& event_views(final(out)@) == event_views(old(out)@) + p.take(n)
                &&& left == (if old(self)@.live {
                    LinkView::room_left(p, room as int)
                } else {
                    0
                })
            }),
    {
        let ghost p = self@.pending;
        let ghost n = 0int;
        let mut left: usize = room;
        proof {
            assert(p.skip(0) =~= p);
            assert(event_views(out@) + p.take(0) =~= event_views(out@));
        }
        loop
            invariant_except_break
                LinkView::leaving(p, room as int) == n + LinkView::leaving(p.skip(n), left as int),
                LinkView::room_left(p, room as int) == LinkView::room_left(
                    p.skip(n),
                    left as int,
                ),
            invariant
                p == old(self)@.pending,
                0 <= n <= p.len(),
                self@ =~= (LinkView { pending: p.skip(n), ..old(self)@ }),
                event_views(out@) == event_views(old(out)@) + p.take(n),
            ensures
                LinkView::leaving(p, room as int) == n,
                LinkView::room_left(p, room as int) == left,
            decreases p.len() - n,
        {
            let ghost q = self.pending@;
            assert(event_views(q) == p.skip(n));
            if self.pending.len() == 0 {
                break;
            }
            let control = self.pending[0].is_control();
            assert(event_views(q)[0] == q[0]@);
            if !control && left == 0 {
                break;
            }
            match self.pending.pop_front() {
                None => {
                    break;
                },
                Some(e) => {
                    if !control {
                        left -= 1;
                    }
                    proof {
                        assert(event_views(self.pending@) =~= event_views(q).skip(1));
                        assert(p.skip(n).skip(1) =~= p.skip(n + 1));
                    }
                    let ghost before = out@;
                    out.push(e);
                    proof {
                        assert(event_views(out@) =~= event_views(before).push(e@));
                        assert(event_views(old(out)@) + p.take(n + 1) =~= (event_views(old(out)@)
                            + p.take(n)).push(e@));
                        n = n + 1;
                    }
                },
            }
        }
        if self.live {
            left
        } else {
            0
        }
    }
}

/// Another command that asks for the same.
fn copy_command(c: &Command) -> (r: Command)
    ensures
        r@ == c@,
{
    match c {
        Command::Host => Command::Host,
        Command::Join { ticket } => Command::Join { ticket: ticket.clone() },
        Command::Send { data } => Command::Send {
            data: vstd::slice::slice_to_vec(data.as_slice()),
        },
        Command::Leave => Command::Leave,
    }
}

fn push_action(actions: &mut Vec<LinkAction>, c: &Command)
    ensures
        action_views(final(actions)@) == action_views(old(actions)@).push(ActionView::Push(c@)),
{
    let ghost before = actions@;
    actions.push(LinkAction::Push(copy_command(c)));
    assert(action_views(actions@) =~= action_views(before).push(ActionView::Push(c@)));
}

/// A link's queue is bounded whether or not the cart reads: commands push
/// it past its bound only as far as it was.
pub proof fn law_the_queue_is_bounded(p: Pushed, cs: Seq<CommandView>)
    ensures
        p.then_all(cs).link.pending.len() <= PENDING_CAP || p.then_all(cs).link.pending
            == p.link.pending,
    decreases cs.len(),
{
    if cs.len() > 0 {
        law_the_queue_is_bounded(p, cs.drop_last());
    }
}

/// The transports that a frame's actions build.
pub open spec fn builds(a: Seq<ActionView>) -> int
    decreases a.len(),
{
    if a.len() == 0 {
        0
    } else {
        builds(a.drop_last()) + (if a.last() is Build {
            1int
        } else {
            0
        })
    }
}

/// A link builds at most one transport a frame.
pub proof fn law_one_transport_a_frame(l: LinkView, cs: Seq<CommandView>)
    ensures
        builds(l.pushed(cs).actions) == (if l.pushed(cs).built {
            1int
        } else {
            0
        }),
    decreases cs.len(),
{
    if cs.len() > 0 {
        law_one_transport_a_frame(l, cs.drop_last());
        let before = l.pushed(cs.drop_last());
        let a = before.actions;
        let c = cs.last();
        assert(a.push(ActionView::Close).drop_last() =~= a);
        assert(a.push(ActionView::Push(c)).drop_last() =~= a);
        assert(a.push(ActionView::Build).drop_last() =~= a);
        assert(a.push(ActionView::Build).push(ActionView::Push(c)).drop_last() =~= a.push(
            ActionView::Build,
        ));
        assert(builds(a.push(ActionView::Build)) == builds(a) + 1);
        assert(l.pushed(cs) == before.then_one(c));
    } else {
        assert(builds(seq![]) == 0);
    }
}

/// Without permission commands go nowhere: no transport is built, nothing
/// is handed to one, and nothing but a close is asked of the host.
pub proof fn law_a_denied_link_only_closes(l: LinkView, cs: Seq<CommandView>)
    requires
        !l.permitted,
    ensures
        !l.pushed(cs).link.permitted,
        l.pushed(cs).link.constructed == l.constructed,
        forall|i: int|
            0 <= i < l.pushed(cs).actions.len() ==> #[trigger] l.pushed(cs).actions[i] is Close,
    decreases cs.len(),
{
    if cs.len() > 0 {
        law_a_denied_link_only_closes(l, cs.drop_last());
        let before = l.pushed(cs.drop_last());
        let after = l.pushed(cs);
        assert(after == before.then_one(cs.last()));
        assert forall|i: int| 0 <= i < after.actions.len() implies #[trigger] after.actions[i]
            is Close by {
            if i < before.actions.len() {
                assert(after.actions[i] == before.actions[i]);
            }
        }
    }
}

/// A change of permission: the link has the permission it was given, and
/// nothing changes where it had it. Withdrawing closes an open transport
/// and discards every waiting event, so that the next frame gets exactly
/// the withdrawal, whatever its room; granting only adds its event behind
/// those that wait.
pub proof fn law_permission_is_as_it_was_set(l: LinkView, on: bool, room: int)
    ensures
        ({
            let m = l.with_permission(on);
            let told = EventView::Permission { granted: on };
            &&& m.permitted == on
            &&& on == l.permitted ==> m == l && !l.closes(on)
            &&& on && !l.permitted ==> m == (LinkView {
                permitted: true,
                pending: l.pending.push(told),
                ..l
            }) && !l.closes(on)
            &&& !on && l.permitted ==> {
                &&& m == (LinkView { permitted: false, live: false, pending: seq![told], ..l })
                &&& l.closes(on) == l.live
                &&& m.pending.take(LinkView::leaving(m.pending, room)) == seq![told]
                &&& m.pending.skip(LinkView::leaving(m.pending, room)).len() == 0
            }
        }),
{
    let m = l.with_permission(on);
    let told = EventView::Permission { granted: on };
    if !on && l.permitted {
        assert(m.pending =~= seq![told]);
        assert(m.pending.skip(1) =~= seq![]);
        assert(LinkView::leaving(m.pending.skip(1), room) == 0);
        assert(LinkView::leaving(m.pending, room) == 1);
        assert(m.pending.take(1) =~= seq![told]);
    }
}

} // verus!
