//! The console's networking half: admission of the host's events at the
//! top of a cart step, the frame's commands out after it, and the `Leave`
//! a torn-down cart owes its peer. Nothing here is reachable from a cart
//! except through its networking state.

use std::collections::VecDeque;
use vstd::prelude::*;
use crate::console::{Cart, Console, Guest, Host, Hosted};
use crate::draw::DrawState;
use crate::input::FrameInput;
use crate::net::link::{action_views, Link, LinkAction, LinkView};
use crate::net::{
    command_views, event_views, text_in, Command, CommandView, Event, NetEnv, NetState, NetView,
    MAX_BATCH,
};

verus! {

impl<G> Console<G> {
    /// The console with the host's events waiting: a cart without the
    /// service can be offered nothing.
    pub open spec fn offered(&self, o: Console<G>, events: Seq<Event>) -> bool {
        &&& *self == (Console { cart: self.cart, ..o })
        &&& self.cart == (Cart { net_pending: self.cart.net_pending, ..o.cart })
        &&& self.cart.net_pending@ == (if o.cart.state.net is Some {
            o.cart.net_pending@ + events
        } else {
            o.cart.net_pending@
        })
    }

    /// Queue the host's events for admission. They are admitted, at most
    /// [`MAX_BATCH`] per step, when the cart actually steps; a paused cart
    /// keeps them waiting, and the host is expected to offer no more than
    /// [`Console::net_room`] at a time.
    pub fn offer_net_events(&mut self, events: Vec<Event>)
        requires
            old(self).wf(),
        ensures
            final(self).wf(),
            final(self).offered(*old(self), events@),
    {
        if self.cart.state.net.is_none() {
            return;
        }
        let mut events = events;
        let ghost all = events@;
        let mut rest: VecDeque<Event> = VecDeque::new();
        // Taken from the end, put in front.
        while events.len() > 0
            invariant
                events@ + rest@ =~= all,
            decreases events.len(),
        {
            match events.pop() {
                Some(e) => {
                    rest.push_front(e);
                },
                None => {},
            }
        }
        assert(rest@ =~= all);
        self.cart.net_pending.append(&mut rest);
    }

    /// The room for a frame, less what is waiting.
    pub open spec fn room_now(&self) -> int {
        match self.cart.state.net {
            None => 0,
            Some(net) => if room_of(net@) > self.cart.net_pending@.len() {
                room_of(net@) - self.cart.net_pending@.len()
            } else {
                0
            },
        }
    }

    /// How many events the host may offer now: the inbox's room less what
    /// is already waiting, never more than the batch bound.
    pub fn net_room(&self) -> (n: usize)
        ensures
            n == self.room_now(),
            n <= MAX_BATCH,
    {
        match &self.cart.state.net {
            Some(net) => {
                let room = net.room();
                let waiting: usize = self.cart.net_pending.len();
                if room > waiting {
                    room - waiting
                } else {
                    0
                }
            },
            None => 0,
        }
    }

    /// The commands a console owes the link: a torn-down session's `Leave`
    /// alone, else what the cart queued.
    pub open spec fn owed(&self) -> Seq<CommandView> {
        if self.cart.net_teardown {
            seq![CommandView::Leave]
        } else {
            match self.cart.state.net {
                Some(a) => a@.outbox,
                None => seq![],
            }
        }
    }

    /// The commands the cart issued in the last step, or a single `Leave`
    /// when the cart was torn down (fault, quit, restart or a new cart)
    /// with a session live. Drained. The torn-down cart's own commands go
    /// with it: a faulted cart does not step again, so what its last frame
    /// queued would otherwise be drained on the next host tick and build a
    /// transport for a stopped cart.
    pub fn take_net_commands(&mut self) -> (v: Vec<Command>)
        requires
            old(self).wf(),
        ensures
            final(self).wf(),
            *final(self) == (Console { cart: final(self).cart, ..*old(self) }),
            final(self).cart == (Cart {
                state: final(self).cart.state,
                net_teardown: false,
                ..old(self).cart
            }),
            final(self).cart.state == (DrawState {
                net: final(self).cart.state.net,
                ..old(self).cart.state
            }),
            match (old(self).cart.state.net, final(self).cart.state.net) {
                (Some(a), Some(b)) => b@ == (NetView { outbox: seq![], ..a@ }),
                (None, None) => true,
                _ => false,
            },
            command_views(v@) == old(self).owed(),
    {
        let mut v: Vec<Command> = Vec::new();
        if self.cart.state.net.is_some() {
            let net = self.cart.state.net.as_mut().unwrap();
            std::mem::swap(&mut v, &mut net.outbox);
            assert(command_views(net.outbox@) =~= seq![]);
            assert(net@ =~= (NetView { outbox: seq![], ..old(self).cart.state.net->0@ }));
        }
        if self.cart.net_teardown {
            self.cart.net_teardown = false;
            let mut leave: Vec<Command> = Vec::new();
            leave.push(Command::Leave);
            assert(command_views(leave@) =~= seq![CommandView::Leave]);
            return leave;
        }
        proof {
            if old(self).cart.state.net is None {
                assert(command_views(v@) =~= seq![]);
            }
        }
        v
    }

    /// Set the initial environment for carts that declare the service: the
    /// permission of the run and the invite ticket. Applies to the current
    /// cart if it has not started, and to every cart the shell loads
    /// afterwards.
    pub fn set_net_env(&mut self, env: NetEnv)
        requires
            old(self).wf(),
        ensures
            final(self).wf(),
            final(self).net_env == env,
            final(self).shell == old(self).shell,
            final(self).cart == (Cart { state: final(self).cart.state, ..old(self).cart }),
            final(self).cart.state == (DrawState {
                net: final(self).cart.state.net,
                ..old(self).cart.state
            }),
            match (old(self).cart.state.net, final(self).cart.state.net) {
                (Some(a), Some(b)) => b@ == (if old(self).cart.frame == 0 {
                    NetView { permitted: env.permitted, invite: text_in(env.invite), ..a@ }
                } else {
                    a@
                }),
                (None, None) => true,
                _ => false,
            },
    {
        if self.cart.frame == 0 && self.cart.state.net.is_some() {
            let net = self.cart.state.net.as_mut().unwrap();
            net.permitted = env.permitted;
            net.invite = crate::net::copy_text(&env.invite);
            assert(net@ =~= (NetView {
                permitted: env.permitted,
                invite: text_in(env.invite),
                ..old(self).cart.state.net->0@
            }));
        }
        self.net_env = env;
    }

    /// The cart's networking state, if it declares the service.
    pub fn net_state(&self) -> (n: Option<&NetState>)
        ensures
            match n {
                Some(x) => self.cart.state.net == Some(*x),
                None => self.cart.state.net is None,
            },
    {
        self.cart.state.net.as_ref()
    }

    /// The events that a link has for the next frame, and how many more
    /// the host may take from its transport.
    pub fn poll_linked(&self, link: &mut Link) -> (r: (Vec<Event>, usize))
        ensures
            ({
                let p = old(link)@.pending;
                let n = LinkView::leaving(p, self.room_now());
                &&& final(link)@ == (LinkView { pending: p.skip(n), ..old(link)@ })
                &&& event_views(r.0@) == p.take(n)
                &&& r.1 == (if old(link)@.live {
                    LinkView::room_left(p, self.room_now())
                } else {
                    0
                })
            }),
    {
        let mut events: Vec<Event> = Vec::new();
        let room = self.net_room();
        let left = link.poll(&mut events, room);
        proof {
            let p = old(link)@.pending;
            let n = LinkView::leaving(p, room as int);
            assert(event_views(Seq::<Event>::empty()) =~= seq![]);
            assert(event_views(events@) =~= p.take(n));
        }
        (events, left)
    }
}

/// The room that a state has for a frame.
pub open spec fn room_of(v: NetView) -> int {
    match v.remote_room {
        Some(r) => if r < MAX_BATCH {
            r as int
        } else {
            MAX_BATCH as int
        },
        None => if v.inbox.len() + MAX_BATCH <= crate::net::INBOX_CAP {
            MAX_BATCH as int
        } else if v.inbox.len() <= crate::net::INBOX_CAP {
            crate::net::INBOX_CAP - v.inbox.len()
        } else {
            0
        },
    }
}

impl<G: Guest> Console<G> {
    /// One frame of a networked cart: step with the events that arrived,
    /// hand the commands to the link. What the host is to do with its
    /// transport.
    pub fn step_linked<H: Host<G>>(
        &mut self,
        host: &mut Hosted<H>,
        link: &mut Link,
        input: FrameInput,
        events: Vec<Event>,
    ) -> (actions: Vec<LinkAction>)
        requires
            old(self).wf(),
        ensures
            final(self).wf(),
            !final(self).cart.net_teardown,
            exists|mid: Console<G>|
                {
                    let end = old(link)@.pushed(mid.owed());
                    &&& mid.wf()
                    &&& #[trigger] mid.stepped(*old(self), input)
                    &&& mid.steps_from::<H>(
                        *old(self),
                        input,
                        events@,
                        old(host).asked(),
                        final(host).asked(),
                    )
                    &&& final(link)@ == end.link
                    &&& action_views(actions@) == end.actions
                    &&& final(self).owed() == Seq::<CommandView>::empty()
                    &&& *final(self) == (Console { cart: final(self).cart, ..mid })
                    &&& final(self).cart == (Cart {
                        state: final(self).cart.state,
                        net_teardown: false,
                        ..mid.cart
                    })
                    &&& final(self).cart.state == (DrawState {
                        net: final(self).cart.state.net,
                        ..mid.cart.state
                    })
                },
    {
        let ghost start = *self;
        let _ = self.step_with(host, input, events);
        let ghost mid = *self;
        assert(mid.stepped(start, input));
        let commands = self.take_net_commands();
        let actions = link.push(commands);
        assert(link@ == old(link)@.pushed(mid.owed()).link);
        actions
    }
}

} // verus!
