//! What a worker's answers come to.

use vstd::prelude::*;
use crate::broker::{dead_after, refusal, Answer, Worker};
use crate::draw::DrawState;
use crate::fault::Fault;
use crate::filing::law_a_batch_is_the_first_events;
use crate::ipc::{MessageView, OwnedFrame};
use crate::net::{event_views, CommandView, EventView};
use crate::remote::{receives, sends, waits, RemoteGuest};

verus! {

/// Of a living worker a frame is taken, and waiting goes on while nothing
/// came; an error is told in its own words, and anything else is the
/// worker's fault. Of a dead one nothing is taken.
pub proof fn law_only_a_frame_is_taken(w: Worker, a: Answer)
    ensures
        w.dead ==> refusal(w, a) is Some && dead_after(w, a),
        !w.dead && refusal(w, a) is None ==> a is Silent || (a matches Answer::Said(m) && m@ is Frame),
        !w.dead && a is Silent ==> refusal(w, a) is None,
        !w.dead ==> (a matches Answer::Said(m) ==> match m@ {
            MessageView::Frame { .. } => refusal(w, a) is None,
            MessageView::Error { code, message } => refusal(w, a) == Some((code, message)),
            _ => refusal(w, a) matches Some(e) && e.0 == "worker_error"@,
        }),
        !w.dead ==> (a matches Answer::Refused(why) ==> refusal(w, a) == Some(
            ("worker_error"@, why@),
        )),
{
}

/// A worker that sends a frame or an error lives on, and so does one that
/// is silent; one that sends anything else or closes its pipe is dead, and
/// a dead one stays dead.
pub proof fn law_a_worker_dies_of_a_bad_answer(w: Worker, a: Answer)
    ensures
        w.dead ==> dead_after(w, a),
        !w.dead ==> (dead_after(w, a) <==> match a {
            Answer::Said(m) => !(m@ is Frame || m@ is Error),
            Answer::Refused(_) => true,
            Answer::Silent => false,
            Answer::Gone => true,
        }),
{
}

/// A reply brings the worker's commands, in place of those before them, and
/// its room less what is still carried; nothing waits in the inbox, and no
/// step is in flight.
pub proof fn law_a_reply_brings_commands_and_room(
    was: RemoteGuest,
    now: RemoteGuest,
    from: DrawState,
    to: DrawState,
    frame: OwnedFrame,
    saves: Seq<(u8, Seq<u8>)>,
    commands: Seq<CommandView>,
    room: usize,
    outcome: Result<(), Fault>,
    forwards: Seq<u8>,
)
    requires
        receives(was, now, from, to, frame, saves, commands, room, outcome, forwards),
        from.net is Some,
    ensures
        !now.pending,
        now.carried == was.carried,
        to.net is Some && to.net->0@.outbox == commands && to.net->0@.inbox.len() == 0,
        room >= was.carried@.len() ==> to.net->0@.remote_room == Some(
            (room - was.carried@.len()) as usize,
        ),
        room < was.carried@.len() ==> to.net->0@.remote_room == Some(0usize),
        frame.state@ is None ==> outcome is Ok,
        frame.state@ matches Some(v) ==> (outcome matches Err(f) && f@ == v),
{
}

/// A step takes what is carried and what was admitted, the oldest first; it
/// leaves no room until its reply.
pub proof fn law_a_step_takes_the_oldest_events(
    was: RemoteGuest,
    now: RemoteGuest,
    from: DrawState,
    to: DrawState,
    events: Seq<EventView>,
)
    requires
        sends(was, now, from, to, events),
        from.net is Some,
    ensures
        events + event_views(now.carried@) == event_views(was.carried@) + from.net->0@.admitted,
        events.len() <= 64,
        to.net is Some && to.net->0@.remote_room == Some(0usize),
{
    let all = event_views(was.carried@) + from.net->0@.admitted;
    law_a_batch_is_the_first_events(all);
}

/// While no frame comes the last picture stays and there is silence.
pub proof fn law_waiting_is_silent(from: DrawState, to: DrawState, i: int)
    requires
        waits(from, to),
        0 <= i < 735,
    ensures
        to.res == from.res && to.palette == from.palette,
        to.audio@.external is Some && to.audio@.external->0.len() == 735,
        to.audio@.external->0[i] == 0,
{
}

} // verus!
