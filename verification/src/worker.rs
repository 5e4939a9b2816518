//! The worker side: what `kuula worker` answers to each message of its
//! broker. It never touches the file system; the cart arrives as a
//! snapshot in the `Load` message, the save slots with it, and every save
//! the cart makes travels back to the broker in the next `Frame`, which
//! persists it. Reading and writing the pipe is the host's.

use std::rc::Rc;
use vstd::prelude::*;
use vstd::set_lib::*;
use vstd::string::*;
use crate::broker::WORKER_ERROR;
use crate::console::{Cart, Console, ConsoleState, Guest, History, Host, Hosted, Preload};
use crate::draw::{log_fits, DrawState};
use crate::ipc::{
    channels, frame_ok, saves_of, saves_ok, FrameView, Message, MessageView, OwnedFrame,
};
use crate::save::{
    blank, filled, pairs_view, to_others, write_refusal, MemoryStore, RecordingStore, SaveStore,
    SLOT_BYTES, SLOT_COUNT,
};
use crate::snapshot::Snapshot;
use crate::text::texts;

verus! {

/// Exit code when the broker spoke garbage.
pub const EXIT_PROTOCOL: u8 = 3;

/// Test hook: when set, the worker exits on its first `Step` so the
/// broker's dead-worker path can be exercised end to end.
pub const CRASH_HOOK: &'static str = "KUULA_TEST_WORKER_CRASH";

/// Test hook: when set, the worker never answers its first `Step`, so
/// the broker's watchdog path can be exercised end to end.
pub const HANG_HOOK: &'static str = "KUULA_TEST_WORKER_HANG";

/// What a worker does about a message: answer and read on, or exit.
#[derive(Debug)]
pub enum Served {
    Reply(Message),
    Exit(u8),
}

/// What a console's frame is, as it travels.
pub open spec fn frame_of<G>(c: Console<G>) -> FrameView {
    FrameView {
        frame: c.cart.frame,
        width: c.cart.state.width,
        height: c.cart.state.height,
        pixels: c.shown_screen(),
        palette: channels(c.cart.state.palette@),
        log: texts(c.cart.state.log@),
        fault: c.cart.status@,
        cycles: c.cart.state.profile.cycles@,
        budget: c.cart.state.profile.budget,
        lua_mem: c.cart.state.profile.lua_mem,
        audio: c.heard(),
    }
}

fn copy_lines(v: &Vec<String>) -> (r: Vec<String>)
    ensures
        texts(r@) == texts(v@),
{
    let mut r: Vec<String> = Vec::new();
    let mut i: usize = 0;
    while i < v.len()
        invariant
            i <= v@.len(),
            texts(r@) =~= texts(v@).take(i as int),
        decreases v.len() - i,
    {
        let ghost before = r@;
        r.push(v[i].clone());
        assert(texts(r@) =~= texts(before).push(texts(v@)[i as int]));
        i += 1;
    }
    assert(texts(v@).take(i as int) =~= texts(v@));
    r
}

/// The frame a console gives, owned.
pub fn owned_frame<G>(c: &Console<G>) -> (f: OwnedFrame)
    requires
        c.wf(),
    ensures
        f@ == frame_of(*c),
{
    let out = c.output();
    let state = match c.cart.status.fault() {
        Some(f) => ConsoleState::Faulted(f.copy()),
        None => ConsoleState::Running,
    };
    let f = OwnedFrame {
        frame: out.frame,
        width: out.width,
        height: out.height,
        pixels: out.screen.clone(),
        palette: *out.palette,
        log: copy_lines(out.log),
        state,
        profile: *out.profile,
        audio: vstd::slice::slice_to_vec(out.audio),
    };
    f
}

pub open spec fn says(m: Message, message: Seq<char>) -> bool {
    m@ == (MessageView::Error { code: "worker_error"@, message })
}

/// A cart of a source, in its own process: loaded with its assets and
/// without the network, whatever its slots.
pub open spec fn loaded_here<G, H: Host<G>>(
    c: Cart<G>,
    source: Rc<Snapshot>,
    was: History,
    now: History,
) -> bool {
    exists|k: Cart<G>| #[trigger]
        k.loaded::<H>(source, Preload::Decode, false, None, was, now) && c == (Cart {
            state: DrawState { saves: c.state.saves, ..k.state },
            ..k
        })
}

/// Answer one message. A cart is loaded anew by each `Load`, with its
/// slots; a `Step` needs one.
pub fn serve<G: Guest, H: Host<G>>(
    console: &mut Option<Console<G>>,
    host: &mut Hosted<H>,
    message: Message,
) -> (r: Served)
    requires
        *old(console) matches Some(c) ==> c.wf(),
    ensures
        *final(console) matches Some(c) ==> c.wf(),
        match message {
            Message::Load { snapshot, saves } => match filled(blank(), pairs_view(saves@), 0) {
                Ok(slots) => match (r, *final(console)) {
                    (Served::Reply(m), Some(c)) => {
                        &&& m@ == (MessageView::Ready {
                            width: c.cart.state.width,
                            height: c.cart.state.height,
                        })
                        &&& c.shell is None
                        &&& c.cart.frame == 0
                        &&& c.cart.source matches Some(s)
                        &&& *s == snapshot
                        &&& loaded_here::<G, H>(c.cart, s, old(host).asked(), final(host).asked())
                        &&& c.cart.state.saves is Recording
                        &&& c.cart.state.saves.slots() == slots
                        &&& c.cart.state.saves.noted().len() == 0
                    },
                    _ => false,
                },
                Err(e) => {
                    &&& r matches Served::Reply(m)
                    &&& says(m, "initial saves refused: "@ + (e.code + ": "@ + e.message))
                    &&& *final(console) == *old(console)
                },
            },
            Message::Step(input) => match (*old(console), *final(console)) {
                (Some(a), Some(b)) => match r {
                    Served::Reply(m) => match m@ {
                        MessageView::Frame { frame, saves } => {
                            &&& frame == frame_of(b)
                            &&& b.cart.state.saves.noted().len() == 0
                            &&& exists|mid: Console<G>|
                                {
                                    &&& mid.wf()
                                    &&& #[trigger] mid.stepped(a, input)
                                    &&& mid.steps_from::<H>(
                                        a,
                                        input,
                                        Seq::empty(),
                                        old(host).asked(),
                                        final(host).asked(),
                                    )
                                    &&& saves == mid.cart.state.saves.noted()
                                    &&& frame == frame_of(mid)
                                    &&& b.cart.state.saves.slots() == mid.cart.state.saves.slots()
                                    &&& b.cart == (Cart {
                                        state: DrawState {
                                            saves: b.cart.state.saves,
                                            ..mid.cart.state
                                        },
                                        ..mid.cart
                                    })
                                }
                        },
                        _ => false,
                    },
                    _ => false,
                },
                (None, None) => {
                    &&& r matches Served::Reply(m)
                    &&& says(m, "Step before Load"@)
                },
                _ => false,
            },
            Message::Stop => r == Served::Exit(0) && *final(console) == *old(console),
            _ => r == Served::Exit(EXIT_PROTOCOL) && *final(console) == *old(console),
        },
{
    match message {
        Message::Load { snapshot, saves } => match MemoryStore::from_slots(&saves) {
            Ok(store) => {
                let recording = RecordingStore::new(store);
                assert(pairs_view(recording.writes@) =~= seq![]);
                let source = Rc::new(snapshot);
                let ghost from = source;
                let mut c = Console::new(source, host);
                let ghost k = c.cart;
                assert(k.loaded::<H>(
                    from,
                    Preload::Decode,
                    false,
                    None,
                    old(host).asked(),
                    host.asked(),
                ));
                c.set_save_store(SaveStore::Recording(recording));
                assert(loaded_here::<G, H>(c.cart, from, old(host).asked(), host.asked()));
                let out = c.output();
                let ready = Message::Ready { width: out.width, height: out.height };
                *console = Some(c);
                Served::Reply(ready)
            },
            Err(e) => {
                let mut m = "initial saves refused: ".to_owned();
                m.append(e.text().as_str());
                Served::Reply(Message::Error { code: WORKER_ERROR.to_owned(), message: m })
            },
        },
        Message::Step(input) => {
            let mut taken: Option<Console<G>> = None;
            std::mem::swap(&mut taken, console);
            match taken {
                Some(c) => {
                    let mut c = c;
                    let ghost start = c;
                    {
                        let _ = c.step(host, input);
                    }
                    let ghost mid = c;
                    assert(mid.stepped(start, input));
                    let frame = owned_frame(&c);
                    let saves = c.cart.state.saves.take_writes();
                    assert(saves_of(saves@) =~= pairs_view(saves@));
                    assert(c.shown_screen() == mid.shown_screen());
                    *console = Some(c);
                    Served::Reply(Message::Frame { frame, saves })
                },
                None => Served::Reply(
                    Message::Error {
                        code: WORKER_ERROR.to_owned(),
                        message: "Step before Load".to_owned(),
                    },
                ),
            }
        },
        Message::Stop => Served::Exit(0),
        _ => Served::Exit(EXIT_PROTOCOL),
    }
}

/// Slots that differ are at most as many as there are.
proof fn lemma_few_slots(s: Seq<(u8, Seq<u8>)>)
    requires
        forall|i: int| 0 <= i < s.len() ==> (#[trigger] s[i]).0 < SLOT_COUNT,
        forall|i: int, j: int|
            0 <= i < j < s.len() ==> (#[trigger] s[i]).0 != (#[trigger] s[j]).0,
    ensures
        s.len() <= SLOT_COUNT,
{
    let names = Seq::new(s.len(), |i: int| s[i].0 as int);
    assert(names.no_duplicates()) by {
        assert forall|i: int, j: int|
            0 <= i < names.len() && 0 <= j < names.len() && i != j implies names[i] != names[j] by {
            if i < j {
                assert(s[i].0 != s[j].0);
            } else {
                assert(s[j].0 != s[i].0);
            }
        }
    }
    names.unique_seq_to_set();
    lemma_int_range(0, SLOT_COUNT as int);
    assert(names.to_set().subset_of(set_int_range(0, SLOT_COUNT as int))) by {
        assert forall|n: int| names.to_set().contains(n) implies set_int_range(
            0,
            SLOT_COUNT as int,
        ).contains(n) by {
            let i = choose|i: int| 0 <= i < names.len() && names[i] == n;
            assert(s[i].0 < SLOT_COUNT);
        }
    }
    lemma_len_subset(names.to_set(), set_int_range(0, SLOT_COUNT as int));
}

/// The writes to other slots are writes, in order, and none is to the
/// slot.
proof fn lemma_others(s: Seq<(u8, Seq<u8>)>, slot: u8)
    requires
        forall|i: int, j: int|
            0 <= i < j < s.len() ==> (#[trigger] s[i]).0 != (#[trigger] s[j]).0,
    ensures
        forall|i: int|
            0 <= i < to_others(s, slot).len() ==> s.contains(#[trigger] to_others(s, slot)[i])
                && to_others(s, slot)[i].0 != slot,
        forall|i: int, j: int|
            0 <= i < j < to_others(s, slot).len() ==> (#[trigger] to_others(s, slot)[i]).0 != (
            #[trigger] to_others(s, slot)[j]).0,
    decreases s.len(),
{
    if s.len() > 0 {
        let t = s.drop_last();
        let o = to_others(s, slot);
        let p = to_others(t, slot);
        lemma_others(t, slot);
        assert forall|i: int| 0 <= i < o.len() implies s.contains(#[trigger] o[i]) && o[i].0
            != slot by {
            if i < p.len() {
                assert(o[i] == p[i]);
                let k = choose|k: int| 0 <= k < t.len() && t[k] == p[i];
                assert(s[k] == p[i]);
            } else {
                assert(s[s.len() - 1] == o[i]);
            }
        }
        assert forall|i: int, j: int| 0 <= i < j < o.len() implies (#[trigger] o[i]).0 != (
        #[trigger] o[j]).0 by {
            assert(o[i] == p[i]);
            if j < p.len() {
                assert(o[j] == p[j]);
            } else {
                let k = choose|k: int| 0 <= k < t.len() && t[k] == p[i];
                assert(s[k] == p[i]);
                assert(s[k].0 != s[s.len() - 1].0);
            }
        }
    }
}

/// What a worker notes of a cart's writes can always be sent: a frame's
/// saves hold each slot at most once, within its size.
pub proof fn law_noted_writes_can_be_sent(writes: Seq<(u8, Seq<u8>)>, slot: u8, bytes: Seq<u8>)
    requires
        saves_ok(writes),
        write_refusal(slot, bytes.len() as int) is None,
    ensures
        saves_ok(to_others(writes, slot).push((slot, bytes))),
{
    let o = to_others(writes, slot);
    let end = o.push((slot, bytes));
    lemma_others(writes, slot);
    assert forall|i: int| 0 <= i < end.len() implies (#[trigger] end[i]).0 < SLOT_COUNT
        && end[i].1.len() <= SLOT_BYTES by {
        if i < o.len() {
            let k = choose|k: int| 0 <= k < writes.len() && writes[k] == o[i];
            assert(writes[k] == end[i]);
        }
    }
    assert forall|i: int, j: int| 0 <= i < j < end.len() implies (#[trigger] end[i]).0 != (
    #[trigger] end[j]).0 by {
        assert(end[i] == o[i]);
        if j < o.len() {
            assert(end[j] == o[j]);
        }
    }
    lemma_few_slots(end);
}

/// A worker's frame can always be sent: the screen is one of the two, and
/// a log that was written within its bounds fits.
pub proof fn law_a_consoles_frame_can_be_sent<G>(c: Console<G>)
    requires
        c.wf(),
        c.shell is None,
        log_fits(texts(c.cart.state.log@)),
    ensures
        frame_ok(frame_of(c)),
{
    let f = frame_of(c);
    let screen = c.cart.state.res.screen_of();
    assert(screen.wf());
    crate::palette::lemma_palette_len(c.cart.state.palette);
    assert forall|i: int| 0 <= i < f.palette.len() implies (#[trigger] f.palette[i]).len() == 3 by {
        assert(f.palette[i] == c.cart.state.palette@[i]@);
    }
}

} // verus!
