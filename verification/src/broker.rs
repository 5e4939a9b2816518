//! The broker side of the worker split: everything a worker sends back is
//! hostile input. What a reply, a refusal or a silence means is decided
//! here; the host owns the process, its pipe and the clock, and kills a
//! worker that these functions say is dead.
//!
//! Every wait has a deadline: a worker that stops answering is killed and
//! the run ends with `watchdog_timeout`, the wall-clock backstop, distinct
//! from the deterministic `budget_exceeded` the meter produces.

use vstd::prelude::*;
use vstd::string::*;
use crate::fault::Fault;
use crate::ipc::{Message, MessageView, OwnedFrame, ReadError, ReadErrorView, Saves};
use crate::text::{chars_of, dec, parse_unsigned, parse_unsigned_of, push_dec};

verus! {

/// Memory the worker process may commit.
pub const WORKER_MEMORY_LIMIT: usize = 512 * 1024 * 1024;

pub const WORKER_ERROR: &'static str = "worker_error";

/// Wall time one step may take before the worker is killed, in
/// milliseconds. The meter ends a runaway frame in a few milliseconds;
/// this only catches native code the meter cannot see.
pub const STEP_TIMEOUT_MS: u64 = 10_000;

/// Loading compiles and decodes the whole cart.
pub const LOAD_TIMEOUT_MS: u64 = 30_000;

/// How long `stop` waits for a clean exit before killing.
pub const STOP_TIMEOUT_MS: u64 = 2_000;

/// Test hook: overrides both timeouts, in milliseconds, so the watchdog
/// path can be tested without waiting ten seconds.
pub const WATCHDOG_HOOK: &'static str = "KUULA_TEST_WATCHDOG_MS";

/// Line printed when `--no-sandbox` skips the token.
pub const NO_SANDBOX_WARNING: &'static str =
    "warning: --no-sandbox: the worker runs without an AppContainer token";

/// Why a step could not be run.
#[derive(Debug, Clone, PartialEq, Eq)]
pub struct StepError {
    pub code: String,
    pub message: String,
}

impl StepError {
    /// Whether the error says something under a code.
    pub open spec fn says(self, code: Seq<char>, message: Seq<char>) -> bool {
        self.code@ == code && self.message@ == message
    }

    pub fn new(code: &str, message: &str) -> (e: StepError)
        ensures
            e.says(code@, message@),
    {
        StepError { code: code.to_owned(), message: message.to_owned() }
    }
}

/// What came of waiting for a worker.
#[derive(Debug)]
pub enum Answer {
    /// A well-formed message.
    Said(Message),
    /// The reader stopped, and why.
    Refused(String),
    /// Nothing in time.
    Silent,
    /// The pipe is gone.
    Gone,
}

/// What a broker knows of its worker: whether it is to be treated as dead,
/// and whether its pipe was closed.
#[derive(Debug, Clone, Copy, PartialEq, Eq, Structural)]
pub struct Worker {
    pub dead: bool,
    pub stopped: bool,
}

pub open spec fn tag_of(m: MessageView) -> Seq<char> {
    match m {
        MessageView::Load { .. } => "Load"@,
        MessageView::Step { .. } => "Step"@,
        MessageView::Stop => "Stop"@,
        MessageView::Ready { .. } => "Ready"@,
        MessageView::Frame { .. } => "Frame"@,
        MessageView::Error { .. } => "Error"@,
    }
}

pub fn tag_name(m: &Message) -> (s: &'static str)
    ensures
        s@ == tag_of(m@),
{
    match m {
        Message::Load { .. } => "Load",
        Message::Step(_) => "Step",
        Message::Stop => "Stop",
        Message::Ready { .. } => "Ready",
        Message::Frame { .. } => "Frame",
        Message::Error { .. } => "Error",
    }
}

/// What a read error is called.
pub open spec fn read_text(e: ReadErrorView) -> Seq<char> {
    match e {
        ReadErrorView::Io(t) => "pipe: "@ + t,
        ReadErrorView::Proto(t) => "protocol: "@ + t,
    }
}

/// What a reader of the worker's pipe passes on of one read: the message,
/// or why it stops.
pub fn read_answer(read: Result<Option<Message>, ReadError>) -> (a: Answer)
    ensures
        match (read, a) {
            (Ok(Some(m)), Answer::Said(n)) => m == n,
            (Ok(None), Answer::Refused(why)) => why@ == "worker closed the pipe"@,
            (Err(e), Answer::Refused(why)) => why@ == "worker reply refused: "@ + read_text(e@),
            _ => false,
        },
{
    match read {
        Ok(Some(m)) => Answer::Said(m),
        Ok(None) => Answer::Refused("worker closed the pipe".to_owned()),
        Err(e) => {
            let mut why = "worker reply refused: ".to_owned();
            why.append(e.text().as_str());
            Answer::Refused(why)
        },
    }
}

pub open spec fn late_text(ms: u64) -> Seq<char> {
    "worker did not reply within "@ + dec(ms as nat) + " ms"@
}

/// What is wrong with what came of waiting for a frame, as a code and a
/// message. Nothing is where the frame came, or has not come yet.
pub open spec fn refusal(w: Worker, answer: Answer) -> Option<(Seq<char>, Seq<char>)> {
    if w.dead {
        Some(("worker_error"@, "worker is gone"@))
    } else {
        match answer {
            Answer::Said(m) => match m@ {
                MessageView::Frame { .. } => None,
                MessageView::Error { code, message } => Some((code, message)),
                v => Some(("worker_error"@, "unexpected reply "@ + tag_of(v))),
            },
            Answer::Refused(why) => Some(("worker_error"@, why@)),
            Answer::Silent => None,
            Answer::Gone => Some(("worker_error"@, "worker closed the pipe"@)),
        }
    }
}

/// Whether a worker is dead once its answer came: an error is an answer,
/// anything else that is no frame kills it.
pub open spec fn dead_after(w: Worker, answer: Answer) -> bool {
    w.dead || match answer {
        Answer::Said(m) => !(m@ is Frame) && !(m@ is Error),
        Answer::Silent => false,
        _ => true,
    }
}

/// The bounds on a step and on a load, in milliseconds.
pub fn timeouts(hook: Option<&str>) -> (r: (u64, u64))
    ensures
        r == (match hook {
            Some(t) => match parse_unsigned(t@, u64::MAX as nat) {
                Some(n) => (n as u64, n as u64),
                None => (STEP_TIMEOUT_MS, LOAD_TIMEOUT_MS),
            },
            None => (STEP_TIMEOUT_MS, LOAD_TIMEOUT_MS),
        }),
{
    if let Some(t) = hook {
        let chars = chars_of(t);
        if let Some(n) = parse_unsigned_of(chars.as_slice(), u64::MAX) {
            return (n, n);
        }
    }
    (STEP_TIMEOUT_MS, LOAD_TIMEOUT_MS)
}

impl Worker {
    pub fn new() -> (w: Worker)
        ensures
            w == (Worker { dead: false, stopped: false }),
    {
        Worker { dead: false, stopped: false }
    }

    /// Whether a message can be sent.
    pub fn may_send(&self) -> (r: Result<(), StepError>)
        ensures
            r is Ok <==> !self.dead && !self.stopped,
            self.dead ==> r is Err && r->Err_0.says("worker_error"@, "worker is gone"@),
            !self.dead && self.stopped ==> r is Err && r->Err_0.says(
                "worker_error"@,
                "worker has been stopped"@,
            ),
    {
        if self.dead {
            return Err(StepError::new(WORKER_ERROR, "worker is gone"));
        }
        if self.stopped {
            return Err(StepError::new(WORKER_ERROR, "worker has been stopped"));
        }
        Ok(())
    }

    /// A write to the pipe failed.
    pub fn send_failed(&mut self, why: &str) -> (e: StepError)
        ensures
            final(self).dead,
            final(self).stopped == old(self).stopped,
            e.says("worker_error"@, "could not write to worker: "@ + why@),
    {
        self.dead = true;
        let mut m = "could not write to worker: ".to_owned();
        m.append(why);
        StepError { code: WORKER_ERROR.to_owned(), message: m }
    }

    fn unexpected(&mut self, m: &Message) -> (e: StepError)
        ensures
            final(self).dead,
            final(self).stopped == old(self).stopped,
            e.says("worker_error"@, "unexpected reply "@ + tag_of(m@)),
    {
        self.dead = true;
        let mut t = "unexpected reply ".to_owned();
        t.append(tag_name(m));
        StepError { code: WORKER_ERROR.to_owned(), message: t }
    }

    /// What a wait for the answer to `Load` came to: the screen's size, or
    /// why the cart cannot run. Anything but a well-formed message in time
    /// kills the worker.
    pub fn load(&mut self, answer: Answer, timeout_ms: u64) -> (r: Result<(u32, u32), StepError>)
        ensures
            final(self).stopped == old(self).stopped,
            match answer {
                Answer::Said(m) => match m@ {
                    MessageView::Ready { width, height } => r == Ok::<(u32, u32), StepError>(
                        (width, height),
                    ) && *final(self) == *old(self),
                    MessageView::Error { code, message } => r is Err && r->Err_0.says(
                        code,
                        message,
                    ) && *final(self) == *old(self),
                    v => r is Err && r->Err_0.says(
                        "worker_error"@,
                        "unexpected reply "@ + tag_of(v),
                    ) && final(self).dead,
                },
                Answer::Refused(why) => r is Err && r->Err_0.says("worker_error"@, why@)
                    && final(self).dead,
                Answer::Silent => r is Err && r->Err_0.says(
                    "watchdog_timeout"@,
                    late_text(timeout_ms),
                ) && final(self).dead,
                Answer::Gone => r is Err && r->Err_0.says(
                    "worker_error"@,
                    "worker closed the pipe"@,
                ) && final(self).dead,
            },
    {
        match answer {
            Answer::Said(m) => match m {
                Message::Ready { width, height } => Ok((width, height)),
                Message::Error { code, message } => Err(StepError { code, message }),
                other => Err(self.unexpected(&other)),
            },
            Answer::Refused(why) => {
                self.dead = true;
                Err(StepError { code: WORKER_ERROR.to_owned(), message: why })
            },
            Answer::Silent => Err(self.watchdog_expired(timeout_ms)),
            Answer::Gone => {
                self.dead = true;
                Err(StepError::new(WORKER_ERROR, "worker closed the pipe"))
            },
        }
    }

    /// What a wait for the frame of the step in flight came to. `Ok(None)`
    /// means it has not arrived yet, which is not a failure: the caller
    /// decides when the watchdog is up. A malformed or unexpected reply
    /// kills the worker.
    pub fn poll_frame(&mut self, answer: Answer) -> (r: Result<Option<(OwnedFrame, Saves)>, StepError>)
        ensures
            *final(self) == (Worker { dead: dead_after(*old(self), answer), ..*old(self) }),
            match refusal(*old(self), answer) {
                Some((code, message)) => r is Err && r->Err_0.says(code, message),
                None => r == Ok::<Option<(OwnedFrame, Saves)>, StepError>(
                    match answer {
                        Answer::Said(Message::Frame { frame, saves }) => Some((frame, saves)),
                        _ => None,
                    },
                ),
            },
    {
        if self.dead {
            return Err(StepError::new(WORKER_ERROR, "worker is gone"));
        }
        match answer {
            Answer::Said(m) => match m {
                Message::Frame { frame, saves } => Ok(Some((frame, saves))),
                Message::Error { code, message } => Err(StepError { code, message }),
                other => Err(self.unexpected(&other)),
            },
            Answer::Refused(why) => {
                self.dead = true;
                Err(StepError { code: WORKER_ERROR.to_owned(), message: why })
            },
            Answer::Silent => Ok(None),
            Answer::Gone => {
                self.dead = true;
                Err(StepError::new(WORKER_ERROR, "worker closed the pipe"))
            },
        }
    }

    /// The caller waited in all for a frame that never came: the worker is
    /// dead, and this is the fault.
    pub fn watchdog_expired(&mut self, waited_ms: u64) -> (e: StepError)
        ensures
            final(self).dead,
            final(self).stopped == old(self).stopped,
            e.says("watchdog_timeout"@, late_text(waited_ms)),
    {
        self.dead = true;
        let mut m = "worker did not reply within ".to_owned();
        push_dec(&mut m, waited_ms);
        m.append(" ms");
        StepError { code: Fault::WATCHDOG_TIMEOUT.to_owned(), message: m }
    }

    /// Whether a wait without a frame is at its end.
    pub fn gave_up(waited_ms: u64, timeout_ms: u64) -> (r: bool)
        ensures
            r == (waited_ms >= timeout_ms),
    {
        waited_ms >= timeout_ms
    }

    /// Whether `Stop` is still to be sent before the pipe is closed.
    pub fn stop(&mut self) -> (send: bool)
        ensures
            send == (!old(self).dead && !old(self).stopped),
            final(self).stopped,
            final(self).dead == old(self).dead,
    {
        let send = !self.dead && !self.stopped;
        self.stopped = true;
        send
    }
}

} // verus!
