//! A cart guest that lives in a worker process. The console, the shell
//! and the hosts step it like any other guest; each step sends the frame's
//! input to the worker and copies the frame that comes back (pixels,
//! palette, log, profile, PCM and the saves the cart made) into the draw
//! state, so everything above it is unchanged.
//!
//! A responsive host waits only a short while for the frame; when it has
//! not arrived the step returns with the previous picture, silent, without
//! sending a new input, and keeps waiting on later steps until the
//! watchdog deadline.
//!
//! What is sent, what is kept for later and what a reply does is decided
//! here; the host owns the worker's pipe and the clock.

use vstd::prelude::*;
use vstd::string::*;
use crate::audio::{MixerView, SAMPLES_PER_FRAME};
use crate::broker::{dead_after, late_text, refusal, Answer, StepError, Worker};
use crate::draw::{canvas_of, DrawState};
use crate::fault::{Fault, FaultView};
use crate::ipc::{saves_of, Message, OwnedFrame, Saves};
use crate::net::{
    command_views, event_views, Command, CommandView, Event, EventView, NetView, MAX_BATCH,
    MAX_COMMANDS,
};
use crate::palette::SYSTEM_COLOURS;
use crate::resources::BufId;
use crate::save::{write_refusal, SaveStore};
use crate::text::{dec, push_dec, texts};

verus! {

/// How long a responsive step waits for the frame before letting the host
/// loop go round again, in milliseconds.
pub const RESPONSIVE_POLL_MS: u64 = 12;

/// The file a worker fault is reported against.
pub const FAULT_FILE: &'static str = "worker";

pub fn fault_of(e: &StepError) -> (f: Fault)
    ensures
        f@ == worker_fault(e.code@, e.message@),
{
    Fault::new(e.code.as_str(), FAULT_FILE, None, e.message.as_str())
}

/// What a worker sends back for a step: the frame, the slots the cart
/// wrote, its commands and the room that its inbox has left.
#[derive(Debug)]
pub struct Reply {
    pub frame: OwnedFrame,
    pub saves: Saves,
    pub commands: Vec<Command>,
    pub net_room: usize,
}

/// What a broker keeps between the steps of a worker's cart.
#[derive(Debug)]
pub struct RemoteGuest {
    /// Whether a step is in flight.
    pub pending: bool,
    /// Control events (a permission change) the console's mirror admitted
    /// on a tick the worker did not see, because a step was in flight;
    /// they go first on the next step. Room is zero while a step is in
    /// flight, so nothing else can arrive then. At most [`MAX_BATCH`], the
    /// newest kept.
    pub carried: Vec<Event>,
}

/// The newest events of a list, at most a batch.
pub open spec fn newest(v: Seq<EventView>) -> Seq<EventView> {
    if v.len() > MAX_BATCH {
        v.skip(v.len() - MAX_BATCH)
    } else {
        v
    }
}

/// The first events of a list, at most a batch.
pub open spec fn batch(v: Seq<EventView>) -> Seq<EventView> {
    if v.len() > MAX_BATCH {
        v.take(MAX_BATCH as int)
    } else {
        v
    }
}

/// What is left behind a batch.
pub open spec fn behind(v: Seq<EventView>) -> Seq<EventView> {
    if v.len() > MAX_BATCH {
        v.skip(MAX_BATCH as int)
    } else {
        seq![]
    }
}

/// The events of a networking state's batch.
pub open spec fn admitted_of(d: DrawState) -> Seq<EventView> {
    match d.net {
        Some(n) => n@.admitted,
        None => seq![],
    }
}

/// What sending a step leaves: the events that go with it, what is carried
/// to the next, and no room while it is in flight.
pub open spec fn sends(
    was: RemoteGuest,
    now: RemoteGuest,
    from: DrawState,
    to: DrawState,
    events: Seq<EventView>,
) -> bool {
    &&& now.pending == was.pending
    &&& to == (DrawState { net: to.net, ..from })
    &&& match (from.net, to.net) {
        (Some(a), Some(b)) => {
            let all = event_views(was.carried@) + a@.admitted;
            &&& b@ == (NetView { remote_room: Some(0usize), ..a@ })
            &&& events == batch(all)
            &&& event_views(now.carried@) == behind(all)
        },
        (None, None) => events.len() == 0 && now.carried == was.carried,
        _ => false,
    }
}

/// What a tick leaves that the worker does not see: its events are carried.
pub open spec fn carries(
    was: RemoteGuest,
    now: RemoteGuest,
    from: DrawState,
    to: DrawState,
) -> bool {
    &&& now.pending == was.pending
    &&& to == (DrawState { net: to.net, ..from })
    &&& match (from.net, to.net) {
        (Some(a), Some(b)) => {
            &&& b@ == (NetView { admitted: seq![], ..a@ })
            &&& event_views(now.carried@) == newest(event_views(was.carried@) + a@.admitted)
        },
        (None, None) => now.carried == was.carried,
        _ => false,
    }
}

/// What a reply leaves: the frame is shown, the worker's commands are the
/// outbox, its room less what is carried bounds the next step, and the
/// frame's state is the outcome. The slots that go on to disk.
pub open spec fn receives(
    was: RemoteGuest,
    now: RemoteGuest,
    from: DrawState,
    to: DrawState,
    frame: OwnedFrame,
    saves: Seq<(u8, Seq<u8>)>,
    commands: Seq<CommandView>,
    room: usize,
    outcome: Result<(), Fault>,
    forwards: Seq<u8>,
) -> bool {
    &&& !now.pending
    &&& now.carried == was.carried
    &&& shown(from, to, frame, saves)
    &&& match (from.net, to.net) {
        (Some(a), Some(b)) => b@ == (NetView {
            outbox: commands,
            inbox: seq![],
            remote_room: Some(
                if room > was.carried@.len() {
                    (room - was.carried@.len()) as usize
                } else {
                    0usize
                },
            ),
            ..a@
        }),
        (None, None) => true,
        _ => false,
    }
    &&& forwards == forwarded(from.saves, saves)
    &&& match (outcome, frame.state@) {
        (Ok(_), None) => true,
        (Err(f), Some(v)) => f@ == v,
        _ => false,
    }
}

/// What a frame leaves that brings nothing new: the last picture, silent.
pub open spec fn waits(from: DrawState, to: DrawState) -> bool {
    &&& to == (DrawState { audio: to.audio, ..from })
    &&& to.audio@ == (MixerView {
        external: Some(Seq::new(SAMPLES_PER_FRAME as nat, |i: int| 0i16)),
        ..from.audio@
    })
}

/// The fault of a worker.
pub open spec fn worker_fault(code: Seq<char>, message: Seq<char>) -> FaultView {
    FaultView { code, message, file: "worker"@, line: None }
}

/// How long a step waits for its frame, in milliseconds: a responsive host
/// only a short while, any other the whole bound of a step.
pub fn wait_ms(responsive: bool, step_ms: u64) -> (ms: u64)
    ensures
        ms == (if responsive {
            RESPONSIVE_POLL_MS
        } else {
            step_ms
        }),
{
    if responsive {
        RESPONSIVE_POLL_MS
    } else {
        step_ms
    }
}

fn copy_events(v: &Vec<Event>, from: usize, to: usize) -> (r: Vec<Event>)
    requires
        from <= to <= v@.len(),
    ensures
        event_views(r@) == event_views(v@).subrange(from as int, to as int),
{
    let mut r: Vec<Event> = Vec::new();
    let mut i: usize = from;
    let ghost all = event_views(v@);
    while i < to
        invariant
            from <= i <= to <= v@.len(),
            all == event_views(v@),
            event_views(r@) =~= all.subrange(from as int, i as int),
        decreases to - i,
    {
        let ghost before = r@;
        r.push(v[i].copy());
        proof {
            assert(event_views(r@) =~= event_views(before).push(all[i as int]));
            assert(all.subrange(from as int, i + 1) =~= all.subrange(from as int, i as int).push(
                all[i as int],
            ));
        }
        i += 1;
    }
    r
}

impl RemoteGuest {
    pub fn new() -> (g: RemoteGuest)
        ensures
            !g.pending,
            event_views(g.carried@) == Seq::<EventView>::empty(),
    {
        let g = RemoteGuest { pending: false, carried: Vec::new() };
        assert(event_views(g.carried@) =~= Seq::<EventView>::empty());
        g
    }

    /// The events of the step that is sent now: what was carried, then
    /// this tick's batch. The carried events and the batch are each within
    /// the bound, but not together: the worker takes one batch, so the
    /// tail rides the next step and the recording stays what the cart saw.
    /// There is no room while the step is in flight.
    pub fn send(&mut self, state: &mut DrawState) -> (events: Vec<Event>)
        requires
            old(state).wf(),
            event_views(old(self).carried@).len() + admitted_of(*old(state)).len() <= usize::MAX,
        ensures
            final(state).wf(),
            sends(*old(self), *final(self), *old(state), *final(state), event_views(events@)),
            events@.len() <= MAX_BATCH,
    {
        if state.net.is_none() {
            return Vec::new();
        }
        let net = state.net.as_mut().unwrap();
        net.remote_room = Some(0);
        let mut all: Vec<Event> = Vec::new();
        std::mem::swap(&mut all, &mut self.carried);
        let ghost first = event_views(all@);
        let mut rest = copy_events(&net.admitted, 0, net.admitted.len());
        proof {
            assert(event_views(net.admitted@).subrange(0, net.admitted@.len() as int)
                =~= event_views(net.admitted@));
        }
        all.append(&mut rest);
        let ghost list = event_views(all@);
        assert(list =~= first + old(state).net->0@.admitted);
        if all.len() > MAX_BATCH {
            let tail = copy_events(&all, MAX_BATCH, all.len());
            self.carried = tail;
            let head = copy_events(&all, 0, MAX_BATCH);
            proof {
                assert(list.subrange(MAX_BATCH as int, list.len() as int) =~= behind(list));
                assert(list.subrange(0, MAX_BATCH as int) =~= batch(list));
                assert(event_views(head@).len() == MAX_BATCH);
            }
            return head;
        }
        assert(event_views(self.carried@) =~= Seq::<EventView>::empty());
        all
    }

    /// A tick the worker does not see: what the mirror admitted (control
    /// events only, the room being zero) would be cleared by the next
    /// tick, so it is kept for the next step.
    pub fn carry(&mut self, state: &mut DrawState)
        requires
            old(state).wf(),
            event_views(old(self).carried@).len() + admitted_of(*old(state)).len() <= usize::MAX,
        ensures
            final(state).wf(),
            carries(*old(self), *final(self), *old(state), *final(state)),
    {
        if state.net.is_none() {
            return;
        }
        let net = state.net.as_mut().unwrap();
        let ghost was = net@;
        let ghost first = event_views(self.carried@);
        let mut all: Vec<Event> = Vec::new();
        std::mem::swap(&mut all, &mut self.carried);
        let mut rest = copy_events(&net.admitted, 0, net.admitted.len());
        assert(event_views(net.admitted@).subrange(0, net.admitted@.len() as int) =~= was.admitted);
        net.admitted = Vec::new();
        assert(net@ =~= (NetView { admitted: seq![], ..was }));
        all.append(&mut rest);
        let ghost list = event_views(all@);
        assert(list =~= first + was.admitted);
        if all.len() > MAX_BATCH {
            let n: usize = all.len();
            let tail = copy_events(&all, n - MAX_BATCH, n);
            assert(list.subrange(list.len() - MAX_BATCH, list.len() as int) =~= newest(list));
            self.carried = tail;
        } else {
            self.carried = all;
        }
    }

    /// A reply came: copy it into the draw state. The carried events ride
    /// the next step, within the same batch bound, so the room offered
    /// shrinks by as many. The slots that the host is to write to disk.
    pub fn receive(&mut self, state: &mut DrawState, reply: Reply) -> (r: (
        Result<(), Fault>,
        Vec<u8>,
    ))
        requires
            old(state).wf(),
            reply.commands@.len() <= MAX_COMMANDS,
        ensures
            final(state).wf(),
            receives(
                *old(self),
                *final(self),
                *old(state),
                *final(state),
                reply.frame,
                saves_of(reply.saves@),
                command_views(reply.commands@),
                reply.net_room,
                r.0,
                r.1@,
            ),
    {
        self.pending = false;
        let outcome = match reply.frame.state.fault() {
            Some(f) => Err(f.copy()),
            None => Ok(()),
        };
        if state.net.is_some() {
            let net = state.net.as_mut().unwrap();
            let ghost was = net@;
            let room: usize = if reply.net_room > self.carried.len() {
                reply.net_room - self.carried.len()
            } else {
                0
            };
            // The worker's console is the real one: its commands become
            // this frame's outbox and its room bounds the next step. The
            // mirror's own inbox is never read by a cart, so it is emptied
            // here; left to fill, it would make the mirror drop events the
            // worker had room for.
            net.outbox = reply.commands;
            net.remote_room = Some(room);
            net.inbox.clear();
            assert(event_views(net.inbox@) =~= seq![]);
            assert(net@ =~= (NetView {
                outbox: command_views(reply.commands@),
                inbox: seq![],
                remote_room: Some(room),
                ..was
            }));
        }
        let forwards = show(state, &reply.frame, &reply.saves);
        (outcome, forwards)
    }

    /// The start of a step: the events of the one that is to be sent now,
    /// or nothing where one is in flight and this tick is carried.
    pub fn begin(&mut self, state: &mut DrawState) -> (r: Option<Vec<Event>>)
        requires
            old(state).wf(),
            event_views(old(self).carried@).len() + admitted_of(*old(state)).len() <= usize::MAX,
        ensures
            final(state).wf(),
            r is Some <==> !old(self).pending,
            match r {
                Some(events) => events@.len() <= MAX_BATCH && sends(
                    *old(self),
                    *final(self),
                    *old(state),
                    *final(state),
                    event_views(events@),
                ),
                None => carries(*old(self), *final(self), *old(state), *final(state)),
            },
    {
        if self.pending {
            self.carry(state);
            None
        } else {
            Some(self.send(state))
        }
    }

    /// What writing the step to the worker came to: it is in flight, or
    /// the cart cannot go on.
    pub fn sent(&mut self, r: Result<(), StepError>) -> (outcome: Result<(), Fault>)
        ensures
            *final(self) == (RemoteGuest { pending: old(self).pending || r is Ok, ..*old(self) }),
            match (outcome, r) {
                (Ok(_), Ok(_)) => true,
                (Err(f), Err(e)) => f@ == worker_fault(e.code@, e.message@),
                _ => false,
            },
    {
        match r {
            Ok(()) => {
                self.pending = true;
                Ok(())
            },
            Err(e) => Err(fault_of(&e)),
        }
    }

    /// The end of a step, once the host waited for the frame of the one in
    /// flight: show it where it came, give the worker up where it has had
    /// its whole time, and otherwise wait on. The outcome of the step, and
    /// the slots that the host is to write to disk.
    pub fn conclude(
        &mut self,
        state: &mut DrawState,
        worker: &mut Worker,
        answer: Answer,
        waited_ms: u64,
        step_ms: u64,
    ) -> (r: (Result<(), Fault>, Vec<u8>))
        requires
            old(state).wf(),
        ensures
            final(state).wf(),
            match (refusal(*old(worker), answer), answer) {
                (Some((code, message)), _) => {
                    &&& r.0 is Err && r.0->Err_0@ == worker_fault(code, message)
                    &&& r.1@.len() == 0
                    &&& *final(self) == *old(self) && *final(state) == *old(state)
                    &&& *final(worker) == (Worker {
                        dead: dead_after(*old(worker), answer),
                        ..*old(worker)
                    })
                },
                (None, Answer::Said(Message::Frame { frame, saves })) => {
                    &&& receives(
                        *old(self),
                        *final(self),
                        *old(state),
                        *final(state),
                        frame,
                        saves_of(saves@),
                        seq![],
                        0,
                        r.0,
                        r.1@,
                    )
                    &&& *final(worker) == *old(worker)
                },
                (None, _) => {
                    &&& r.1@.len() == 0
                    &&& *final(self) == *old(self)
                    &&& if waited_ms >= step_ms {
                        &&& r.0 is Err && r.0->Err_0@ == worker_fault(
                            "watchdog_timeout"@,
                            late_text(waited_ms),
                        )
                        &&& *final(state) == *old(state)
                        &&& *final(worker) == (Worker { dead: true, ..*old(worker) })
                    } else {
                        &&& r.0 is Ok
                        &&& waits(*old(state), *final(state))
                        &&& *final(worker) == *old(worker)
                    }
                },
            },
    {
        match worker.poll_frame(answer) {
            Err(e) => (Err(fault_of(&e)), Vec::new()),
            Ok(Some((frame, saves))) => {
                let commands: Vec<Command> = Vec::new();
                assert(command_views(commands@) =~= seq![]);
                self.receive(state, Reply { frame, saves, commands, net_room: 0 })
            },
            Ok(None) => if Worker::gave_up(waited_ms, step_ms) {
                let e = worker.watchdog_expired(waited_ms);
                (Err(fault_of(&e)), Vec::new())
            } else {
                wait_on(state);
                (Ok(()), Vec::new())
            },
        }
    }
}

/// The lines of a frame put behind a log.
pub open spec fn logged_all(log: Seq<Seq<char>>, lines: Seq<Seq<char>>) -> Seq<Seq<char>>
    decreases lines.len(),
{
    if lines.len() == 0 {
        log
    } else {
        DrawState::logged(logged_all(log, lines.drop_last()), lines.last())
    }
}

/// Slots once some were written; a write that is refused changes nothing.
pub open spec fn written_all(slots: Seq<Option<Seq<u8>>>, saves: Seq<(u8, Seq<u8>)>) -> Seq<
    Option<Seq<u8>>,
>
    decreases saves.len(),
{
    if saves.len() == 0 {
        slots
    } else {
        let s = written_all(slots, saves.drop_last());
        let (slot, bytes) = saves.last();
        if write_refusal(slot, bytes.len() as int) is None {
            s.update(slot as int, Some(bytes))
        } else {
            s
        }
    }
}

/// The slots of some writes that go on to disk.
pub open spec fn forwarded(store: SaveStore, saves: Seq<(u8, Seq<u8>)>) -> Seq<u8>
    decreases saves.len(),
{
    if saves.len() == 0 {
        seq![]
    } else {
        let f = forwarded(store, saves.drop_last());
        let (slot, bytes) = saves.last();
        if write_refusal(slot, bytes.len() as int) is None && store.on_disk(slot) {
            f.push(slot)
        } else {
            f
        }
    }
}

/// Pixels with others laid over their first ones.
pub open spec fn laid_over(screen: Seq<u8>, pixels: Seq<u8>) -> Seq<u8> {
    Seq::new(
        screen.len(),
        |i: int|
            if i < pixels.len() {
                pixels[i]
            } else {
                screen[i]
            },
    )
}

/// What a frame leaves of a draw state.
pub open spec fn shown(
    was: DrawState,
    now: DrawState,
    f: OwnedFrame,
    saves: Seq<(u8, Seq<u8>)>,
) -> bool {
    &&& now == (DrawState {
        res: now.res,
        palette: now.palette,
        log: now.log,
        profile: now.profile,
        audio: now.audio,
        saves: now.saves,
        net: now.net,
        ..was
    })
    &&& canvas_of(now.res.screen_of()).pixels == laid_over(
        canvas_of(was.res.screen_of()).pixels,
        f.pixels@,
    )
    &&& forall|id: BufId| id != BufId::screen_id() ==> #[trigger] now.res.live(id) == was.res.live(
        id,
    )
    &&& now.res.ledger == was.res.ledger
    &&& now.res.names == was.res.names
    &&& now.palette@ == was.palette@.take(SYSTEM_COLOURS as int) + f.palette@.skip(
        SYSTEM_COLOURS as int,
    )
    &&& texts(now.log@) == logged_all(texts(was.log@), texts(f.log@))
    &&& now.profile.cycles@ == f.profile.cycles@ && now.profile.budget == f.profile.budget
        && now.profile.lua_mem == f.profile.lua_mem
    &&& now.audio@ == (MixerView {
        external: Some(
            Seq::new(
                SAMPLES_PER_FRAME as nat,
                |i: int|
                    if i < f.audio@.len() {
                        f.audio@[i]
                    } else {
                        0i16
                    },
            ),
        ),
        ..was.audio@
    })
    &&& now.saves.slots() == written_all(was.saves.slots(), saves)
}

/// Lay a frame's pixels over the screen.
fn show_pixels(state: &mut DrawState, pixels: &Vec<u8>)
    requires
        old(state).wf(),
    ensures
        final(state).wf(),
        *final(state) == (DrawState { res: final(state).res, ..*old(state) }),
        canvas_of(final(state).res.screen_of()).pixels == laid_over(
            canvas_of(old(state).res.screen_of()).pixels,
            pixels@,
        ),
        forall|id: BufId|
            id != BufId::screen_id() ==> #[trigger] final(state).res.live(id) == old(
                state,
            ).res.live(id),
        final(state).res.ledger == old(state).res.ledger,
        final(state).res.names == old(state).res.names,
{
    let ghost old_pixels = canvas_of(state.res.screen_of()).pixels;
    let mut screen: Vec<u8> = Vec::new();
    {
        let now = state.screen_pixels();
        let mut i: usize = 0;
        while i < now.len()
            invariant
                i <= now@.len(),
                now@ == old_pixels,
                screen@ =~= laid_over(old_pixels, pixels@).take(i as int),
            decreases now.len() - i,
        {
            let p = if i < pixels.len() { pixels[i] } else { now[i] };
            screen.push(p);
            i += 1;
        }
    }
    assert(screen@ =~= laid_over(old_pixels, pixels@));
    let _done = state.set_screen_pixels(screen.as_slice());
}

/// Copy a worker's frame into the draw state. The slots that the host is
/// to write to disk: the store keeps its own disk failures for it.
fn show(state: &mut DrawState, frame: &OwnedFrame, saves: &Saves) -> (forwards: Vec<u8>)
    requires
        old(state).wf(),
    ensures
        final(state).wf(),
        final(state).net == old(state).net,
        shown(*old(state), *final(state), *frame, saves_of(saves@)),
        forwards@ == forwarded(old(state).saves, saves_of(saves@)),
{
    show_pixels(state, &frame.pixels);
    state.palette.set_cart_entries(&frame.palette);
    let ghost list = texts(frame.log@);
    let ghost first = texts(state.log@);
    let mut i: usize = 0;
    assert(list.take(0) =~= seq![]);
    let ghost base = *state;
    while i < frame.log.len()
        invariant
            i <= frame.log@.len(),
            list == texts(frame.log@),
            base.wf(),
            *state == (DrawState { log: state.log, ..base }),
            texts(state.log@) == logged_all(first, list.take(i as int)),
        decreases frame.log.len() - i,
    {
        proof {
            let t = list.take(i + 1);
            assert(t.drop_last() =~= list.take(i as int));
            assert(t.last() == list[i as int]);
            assert(list[i as int] == frame.log@[i as int]@);
        }
        state.log_line(frame.log[i].clone());
        i += 1;
    }
    assert(list.take(i as int) =~= list);
    state.profile = frame.profile;
    state.audio.set_external(frame.audio.as_slice());
    let ghost mid = *state;
    let ghost slots = state.saves.slots();
    let ghost pairs = saves_of(saves@);
    let mut forwards: Vec<u8> = Vec::new();
    let mut k: usize = 0;
    assert(pairs.take(0) =~= seq![]);
    while k < saves.len()
        invariant
            k <= saves@.len(),
            pairs == saves_of(saves@),
            mid.wf(),
            *state == (DrawState { saves: state.saves, ..mid }),
            state.saves.slots() == written_all(slots, pairs.take(k as int)),
            forall|slot: u8| #[trigger] state.saves.on_disk(slot) == mid.saves.on_disk(slot),
            forwards@ == forwarded(mid.saves, pairs.take(k as int)),
        decreases saves.len() - k,
    {
        proof {
            let t = pairs.take(k + 1);
            assert(t.drop_last() =~= pairs.take(k as int));
            assert(t.last() == pairs[k as int]);
            assert(pairs[k as int] == (saves@[k as int].0, saves@[k as int].1@));
        }
        match state.saves.write(saves[k].0, saves[k].1.as_slice()) {
            Ok(forward) => if forward {
                forwards.push(saves[k].0);
            },
            Err(_) => {},
        }
        k += 1;
    }
    assert(pairs.take(k as int) =~= pairs);
    forwards
}

/// A frame that brings nothing new: the last picture stays, it is silent,
/// and the input is not consumed.
pub fn wait_on(state: &mut DrawState)
    requires
        old(state).wf(),
    ensures
        final(state).wf(),
        waits(*old(state), *final(state)),
{
    let none: Vec<i16> = Vec::new();
    state.audio.set_external(none.as_slice());
    proof {
        let s = Seq::new(
            SAMPLES_PER_FRAME as nat,
            |i: int|
                if i < none@.len() {
                    none@[i]
                } else {
                    0i16
                },
        );
        assert(s =~= Seq::new(SAMPLES_PER_FRAME as nat, |i: int| 0i16));
    }
}

pub open spec fn screen_text(w: u32, h: u32, width: u32, height: u32) -> Seq<char> {
    "worker reports a "@ + dec(w as nat) + "x"@ + dec(h as nat) + " screen, the manifest says "@
        + dec(width as nat) + "x"@ + dec(height as nat)
}

/// Whether a worker's screen is the manifest's.
pub fn check_screen(w: u32, h: u32, state: &DrawState) -> (r: Result<(), Fault>)
    ensures
        if (w, h) == (state.width, state.height) {
            r is Ok
        } else {
            r is Err && r->Err_0@ == (FaultView {
                code: "worker_error"@,
                message: screen_text(w, h, state.width, state.height),
                file: "worker"@,
                line: None,
            })
        },
{
    if w == state.width && h == state.height {
        return Ok(());
    }
    let mut m = "worker reports a ".to_owned();
    push_dec(&mut m, w as u64);
    m.append("x");
    push_dec(&mut m, h as u64);
    m.append(" screen, the manifest says ");
    push_dec(&mut m, state.width as u64);
    m.append("x");
    push_dec(&mut m, state.height as u64);
    assert(m@ =~= screen_text(w, h, state.width, state.height));
    Err(Fault::new("worker_error", FAULT_FILE, None, m.as_str()))
}

/// Nothing that the mirror admitted is lost on a tick: what is sent and
/// what is carried are the events, in order.
pub proof fn law_sent_and_carried_are_all(all: Seq<EventView>)
    ensures
        batch(all) + behind(all) == all,
        batch(all).len() <= MAX_BATCH,
{
    assert(batch(all) + behind(all) =~= all);
}

/// A worker's picture is shown as it was drawn: where the screens are the
/// same size and the system colours agree, what is on the screen, the
/// palette and the sound are the worker's.
pub proof fn law_a_workers_frame_is_shown_as_it_was(
    was: DrawState,
    now: DrawState,
    f: OwnedFrame,
    saves: Seq<(u8, Seq<u8>)>,
)
    requires
        shown(was, now, f, saves),
        f.pixels@.len() == canvas_of(was.res.screen_of()).pixels.len(),
        f.palette@.take(SYSTEM_COLOURS as int) == was.palette@.take(SYSTEM_COLOURS as int),
        f.audio@.len() == SAMPLES_PER_FRAME,
    ensures
        canvas_of(now.res.screen_of()).pixels == f.pixels@,
        now.palette@ == f.palette@,
        now.audio@.external == Some(f.audio@),
{
    assert(laid_over(canvas_of(was.res.screen_of()).pixels, f.pixels@) =~= f.pixels@);
    assert(f.palette@.take(SYSTEM_COLOURS as int) + f.palette@.skip(SYSTEM_COLOURS as int)
        =~= f.palette@);
    let heard = Seq::new(
        SAMPLES_PER_FRAME as nat,
        |i: int|
            if i < f.audio@.len() {
                f.audio@[i]
            } else {
                0i16
            },
    );
    assert(heard =~= f.audio@);
}

/// A save of the cart reaches the broker's slots: the last write of a slot
/// stands, whatever other slots were written behind it.
pub proof fn law_the_last_write_of_a_slot_stands(
    slots: Seq<Option<Seq<u8>>>,
    saves: Seq<(u8, Seq<u8>)>,
    k: int,
)
    requires
        slots.len() == 8,
        0 <= k < saves.len(),
        write_refusal(saves[k].0, saves[k].1.len() as int) is None,
        forall|j: int| k < j < saves.len() ==> (#[trigger] saves[j]).0 != saves[k].0,
    ensures
        written_all(slots, saves)[saves[k].0 as int] == Some(saves[k].1),
    decreases saves.len(),
{
    let before = saves.drop_last();
    lemma_slots_stay(slots, before);
    if k < saves.len() - 1 {
        assert(before[k] == saves[k]);
        assert forall|j: int| k < j < before.len() implies (#[trigger] before[j]).0
            != before[k].0 by {
            assert(before[j] == saves[j]);
        }
        law_the_last_write_of_a_slot_stands(slots, before, k);
        assert(saves[saves.len() - 1].0 != saves[k].0);
    }
}

proof fn lemma_slots_stay(slots: Seq<Option<Seq<u8>>>, saves: Seq<(u8, Seq<u8>)>)
    requires
        slots.len() == 8,
    ensures
        written_all(slots, saves).len() == slots.len(),
    decreases saves.len(),
{
    if saves.len() > 0 {
        lemma_slots_stay(slots, saves.drop_last());
    }
}

} // verus!
