//! The command line's decisions: what a set of flags asks for, when it is
//! refused and in which words, how a headless run is set up and what it
//! reports, and the exit codes. Parsing the arguments, files, processes
//! and printing are the host's.
//!
//! Exit codes: 0 when the window is closed or the headless run finishes
//! with the cart still running, 1 when the cart faulted or the worker
//! failed, 2 on a usage error, 3 when `net` failed.

use vstd::prelude::*;
use vstd::string::*;
use crate::console::{ConsoleState, Preload};
use crate::fault::Fault;
use crate::input::FrameInput;
use crate::ipc::OwnedFrame;
use crate::manifest::{Manifest, ManifestError, Service};
use crate::net::{NetEnv, MAX_TICKET};
use crate::save::{blank, filled, pairs_view, MemoryStore, SaveErrorView};
use crate::text::{dec, push_dec, str_eq, texts};

verus! {

pub const EXIT_OK: u8 = 0;

pub const EXIT_FAULT: u8 = 1;

pub const EXIT_USAGE: u8 = 2;

/// Exit code for a `net_*` failure.
pub const EXIT_NET: u8 = 3;

/// Frames a headless run steps when `--frames` is not given.
pub const DEFAULT_FRAMES: u64 = 60;

/// The line behind a usage error.
pub const USAGE: &'static str =
    "usage: kuula run <dir> [--scale N] [--headless ...]   (<dir> must contain main.lua)";

// ----- networking ---------------------------------------------------------------------------

/// How a run was permitted to use the network.
#[derive(Debug, Clone, PartialEq, Eq)]
pub enum NetMode {
    Host,
    Join(String),
}

/// What a mode is, as plain values: the ticket of a session to join.
pub open spec fn mode_of(args: Seq<Seq<char>>) -> Result<Option<Seq<char>>, Seq<char>> {
    if args.len() == 1 && args[0] == "host"@ {
        Ok(None)
    } else if args.len() == 2 && args[0] == "join"@ {
        if vstd::utf8::encode_utf8(args[1]).len() > MAX_TICKET {
            Err("the ticket is too long"@)
        } else {
            Ok(Some(args[1]))
        }
    } else if args.len() == 1 && args[0] == "join"@ {
        Err("--net join needs a ticket"@)
    } else {
        Err("--net takes `host` or `join <ticket>`"@)
    }
}

impl NetMode {
    pub open spec fn ticket(&self) -> Option<Seq<char>> {
        match self {
            NetMode::Host => None,
            NetMode::Join(t) => Some(t@),
        }
    }

    /// `--net host` or `--net join <ticket>`.
    pub fn parse(args: &Vec<String>) -> (r: Result<NetMode, String>)
        ensures
            match (r, mode_of(texts(args@))) {
                (Ok(m), Ok(t)) => m.ticket() == t,
                (Err(e), Err(t)) => e@ == t,
                _ => false,
            },
    {
        let ghost all = texts(args@);
        if args.len() == 1 {
            assert(all[0] == args@[0]@);
            if str_eq(args[0].as_str(), "host") {
                return Ok(NetMode::Host);
            }
            if str_eq(args[0].as_str(), "join") {
                proof {
                    reveal_strlit("host");
                    reveal_strlit("join");
                    assert("host"@[0] != "join"@[0]);
                }
                return Err("--net join needs a ticket".to_owned());
            }
        }
        if args.len() == 2 {
            assert(all[0] == args@[0]@ && all[1] == args@[1]@);
            if str_eq(args[0].as_str(), "join") {
                if args[1].as_str().as_bytes().len() > MAX_TICKET {
                    return Err("the ticket is too long".to_owned());
                }
                return Ok(NetMode::Join(args[1].clone()));
            }
        }
        Err("--net takes `host` or `join <ticket>`".to_owned())
    }

    /// What a cart may see of the network in this mode.
    pub fn env(&self) -> (e: NetEnv)
        ensures
            e.permitted,
            match (e.invite, self.ticket()) {
                (None, None) => true,
                (Some(t), Some(u)) => t@ == u,
                _ => false,
            },
    {
        NetEnv {
            permitted: true,
            invite: match self {
                NetMode::Host => None,
                NetMode::Join(t) => Some(t.clone()),
            },
        }
    }
}

/// The environment of a run: its own `--net`, or the recorded one.
pub fn run_env(net: &Option<NetMode>, recorded: Option<NetEnv>) -> (e: NetEnv)
    ensures
        env_is(e, *net, recorded),
{
    match net {
        Some(m) => m.env(),
        None => match recorded {
            Some(r) => r,
            None => NetEnv::default(),
        },
    }
}

/// Whether a manifest declares the `net` service; one that is missing or
/// does not parse declares nothing (the console reports it).
pub fn declares_net(manifest: &Option<Result<Manifest, ManifestError>>) -> (r: bool)
    ensures
        r == (*manifest matches Some(Ok(m)) && m.services@.contains(Service::Net)),
{
    match manifest {
        Some(Ok(m)) => m.has_service(Service::Net),
        _ => false,
    }
}

// ----- flags --------------------------------------------------------------------------------

/// The flags of `run` that decide how the cart runs.
#[derive(Debug, Clone, Copy, PartialEq, Eq, Structural)]
pub struct RunFlags {
    pub headless: bool,
    /// Whether `--frames` was given.
    pub frames: bool,
    pub worker: bool,
    pub in_process: bool,
    pub no_sandbox: bool,
    pub profile: bool,
    /// Whether `--replay` was given.
    pub replay: bool,
    pub timing: bool,
}

/// How carts run: in this process, or in a worker under the sandbox.
#[derive(Debug, Clone, Copy, PartialEq, Eq, Structural)]
pub struct CartRunner {
    pub worker: bool,
    pub sandboxed: bool,
    /// Bounded waits for each step, for a windowed host.
    pub responsive: bool,
}

impl CartRunner {
    /// In-process when `in_process`; otherwise a worker, sandboxed unless
    /// `no_sandbox`.
    pub fn new(in_process: bool, no_sandbox: bool, responsive: bool) -> (r: CartRunner)
        ensures
            r == (CartRunner { worker: !in_process, sandboxed: !no_sandbox, responsive }),
    {
        CartRunner { worker: !in_process, sandboxed: !no_sandbox, responsive }
    }

    pub fn in_process() -> (r: CartRunner)
        ensures
            r == (CartRunner { worker: false, sandboxed: true, responsive: false }),
    {
        CartRunner { worker: false, sandboxed: true, responsive: false }
    }

    /// Whether the broker decodes a cart's assets: only for in-process
    /// carts, a worker decodes its own.
    pub fn preload(&self) -> (p: Preload)
        ensures
            p == (if self.worker {
                Preload::Skip
            } else {
                Preload::Decode
            }),
    {
        if self.worker {
            Preload::Skip
        } else {
            Preload::Decode
        }
    }
}

pub const IN_PROCESS_HEADLESS: &'static str =
    "--in-process applies to windowed runs; headless runs are in-process unless --worker";

pub const NO_SANDBOX_NO_WORKER: &'static str =
    "--no-sandbox applies to a worker: --worker headless, or a windowed run without --in-process";

impl RunFlags {
    /// Whether no window opens.
    pub open spec fn is_headless(&self) -> bool {
        self.headless || self.frames || self.worker || self.profile || self.replay || self.timing
    }

    /// Whether the cart runs in a worker.
    pub open spec fn has_worker(&self) -> bool {
        if self.is_headless() {
            self.worker
        } else {
            !self.in_process
        }
    }

    /// Why the flags do not fit together.
    pub open spec fn refusal(&self) -> Option<Seq<char>> {
        if self.is_headless() && self.in_process {
            Some(IN_PROCESS_HEADLESS@)
        } else if self.no_sandbox && !self.has_worker() {
            Some(NO_SANDBOX_NO_WORKER@)
        } else {
            None
        }
    }

    /// Whether no window opens, and how the cart runs.
    pub fn plan(&self) -> (r: Result<(bool, CartRunner), &'static str>)
        ensures
            match (r, self.refusal()) {
                (Ok(p), None) => p == (
                    self.is_headless(),
                    CartRunner {
                        worker: self.has_worker(),
                        sandboxed: !self.no_sandbox,
                        responsive: !self.is_headless(),
                    },
                ),
                (Err(e), Some(t)) => e@ == t,
                _ => false,
            },
    {
        let headless = self.headless || self.frames || self.worker || self.profile || self.replay
            || self.timing;
        if headless && self.in_process {
            return Err(IN_PROCESS_HEADLESS);
        }
        let bare = if headless {
            !self.worker
        } else {
            self.in_process
        };
        if self.no_sandbox && bare {
            return Err(NO_SANDBOX_NO_WORKER);
        }
        if headless {
            Ok((true, CartRunner::new(!self.worker, self.no_sandbox, false)))
        } else {
            Ok((false, CartRunner::new(self.in_process, self.no_sandbox, true)))
        }
    }
}

/// Whether `screenshot` can capture a frame: they count from 1.
pub fn check_frame(frame: u64) -> (r: Result<(), &'static str>)
    ensures
        r is Ok <==> frame != 0,
        r is Err ==> r->Err_0@ == "--frame counts from 1"@,
{
    if frame == 0 {
        Err("--frame counts from 1")
    } else {
        Ok(())
    }
}

// ----- cart paths ---------------------------------------------------------------------------

/// Why a path is not a cart, or nothing.
pub open spec fn path_refusal(
    path: Seq<char>,
    is_archive: bool,
    is_dir: bool,
    has_main: bool,
) -> Option<Seq<char>> {
    if !is_archive && !is_dir {
        Some(path + " is not a directory or a .zip/.cart file"@)
    } else if !has_main {
        Some(path + " does not contain main.lua"@)
    } else {
        None
    }
}

/// Check a cart path, a directory or a packed cart, before its snapshot
/// is used.
pub fn check_path(path: &str, is_archive: bool, is_dir: bool, has_main: bool) -> (r: Result<
    (),
    String,
>)
    ensures
        match (r, path_refusal(path@, is_archive, is_dir, has_main)) {
            (Ok(_), None) => true,
            (Err(e), Some(t)) => e@ == t,
            _ => false,
        },
{
    if !is_archive && !is_dir {
        let mut m = path.to_owned();
        m.append(" is not a directory or a .zip/.cart file");
        return Err(m);
    }
    if !has_main {
        let mut m = path.to_owned();
        m.append(" does not contain main.lua");
        return Err(m);
    }
    Ok(())
}

/// What `build` says of a cart it packed.
pub fn packed_line(entries: u64, bytes: u64, out: &str) -> (s: String)
    ensures
        s@ == "packed "@ + dec(entries as nat) + " entries, "@ + dec(bytes as nat)
            + " bytes into "@ + out@,
{
    let mut s = "packed ".to_owned();
    push_dec(&mut s, entries);
    s.append(" entries, ");
    push_dec(&mut s, bytes);
    s.append(" bytes into ");
    s.append(out);
    s
}

/// The title of a cart's window.
pub fn window_title(name: Option<&str>) -> (s: String)
    ensures
        s@ == "Kuula - "@ + (match name {
            Some(n) => n@,
            None => "cart"@,
        }),
{
    let mut s = "Kuula - ".to_owned();
    match name {
        Some(n) => {
            s.append(n);
        },
        None => {
            s.append("cart");
        },
    }
    s
}

// ----- transcripts --------------------------------------------------------------------------

/// What is recorded of the console that a window makes for the nth time.
#[derive(Debug, Clone, Copy, PartialEq, Eq, Structural)]
pub enum Recording {
    /// The first run is recorded.
    Start,
    /// A restart starts the cart over, which a transcript cannot express,
    /// so recording stops at the first restart.
    Restarted,
    Off,
}

pub fn recording(record: bool, made: u32) -> (r: Recording)
    ensures
        r == (if !record {
            Recording::Off
        } else if made == 1 {
            Recording::Start
        } else {
            Recording::Restarted
        }),
{
    if !record {
        Recording::Off
    } else if made == 1 {
        Recording::Start
    } else {
        Recording::Restarted
    }
}

/// Whether a transcript of another cart is replayed: with a warning when
/// that was asked for, else refused.
pub fn other_cart(why: &str, any_cart: bool) -> (r: Result<String, String>)
    ensures
        match r {
            Ok(w) => any_cart && w@ == why@ + "; the replay verifies nothing"@,
            Err(e) => !any_cart && e@ == why@ + " (pass --replay-any-cart to replay anyway)"@,
        },
{
    let mut m = why.to_owned();
    if any_cart {
        m.append("; the replay verifies nothing");
        Ok(m)
    } else {
        m.append(" (pass --replay-any-cart to replay anyway)");
        Err(m)
    }
}

/// Whether a transcript's seed is this runtime's.
pub fn check_seed(seed: u64, ours: u64) -> (r: Result<(), String>)
    ensures
        r is Ok <==> seed == ours,
        r is Err ==> r->Err_0@ == "the transcript was recorded with seed "@ + dec(seed as nat)
            + ", this runtime uses "@ + dec(ours as nat),
{
    if seed == ours {
        return Ok(());
    }
    let mut m = "the transcript was recorded with seed ".to_owned();
    push_dec(&mut m, seed);
    m.append(", this runtime uses ");
    push_dec(&mut m, ours);
    Err(m)
}

/// The warning for a transcript of another runtime.
pub fn runtime_warning(runtime: &str, ours: &str) -> (w: Option<String>)
    ensures
        w is None <==> runtime@ == ours@,
        w is Some ==> w->0@ == "the transcript was recorded by runtime "@ + runtime@
            + ", this is "@ + ours@,
{
    if str_eq(runtime, ours) {
        return None;
    }
    let mut m = "the transcript was recorded by runtime ".to_owned();
    m.append(runtime);
    m.append(", this is ");
    m.append(ours);
    Some(m)
}

/// The words of a check on a transcript: the warnings it is replayed with,
/// or why it is not.
pub open spec fn transcript_words(
    other: Option<Seq<char>>,
    any_cart: bool,
    seed: u64,
    our_seed: u64,
    runtime: Seq<char>,
    our_runtime: Seq<char>,
) -> Result<Seq<Seq<char>>, Seq<char>> {
    let first: Seq<Seq<char>> = match other {
        Some(why) => seq![why + "; the replay verifies nothing"@],
        None => seq![],
    };
    if other is Some && !any_cart {
        Err(other->0 + " (pass --replay-any-cart to replay anyway)"@)
    } else if seed != our_seed {
        Err(
            "the transcript was recorded with seed "@ + dec(seed as nat) + ", this runtime uses "@
                + dec(our_seed as nat),
        )
    } else if runtime != our_runtime {
        Ok(
            first.push(
                "the transcript was recorded by runtime "@ + runtime + ", this is "@ + our_runtime,
            ),
        )
    } else {
        Ok(first)
    }
}

/// Check a transcript before it is replayed: `other` is why it is not of
/// this cart, if it is not.
pub fn check_transcript(
    other: Option<&str>,
    any_cart: bool,
    seed: u64,
    our_seed: u64,
    runtime: &str,
    our_runtime: &str,
) -> (r: Result<Vec<String>, String>)
    ensures
        match (
            r,
            transcript_words(
                match other {
                    Some(t) => Some(t@),
                    None => None,
                },
                any_cart,
                seed,
                our_seed,
                runtime@,
                our_runtime@,
            ),
        ) {
            (Ok(w), Ok(v)) => texts(w@) == v,
            (Err(e), Err(v)) => e@ == v,
            _ => false,
        },
{
    let mut warnings: Vec<String> = Vec::new();
    assert(texts(warnings@) =~= seq![]);
    if let Some(why) = other {
        match other_cart(why, any_cart) {
            Ok(w) => {
                warnings.push(w);
                assert(texts(warnings@) =~= seq![why@ + "; the replay verifies nothing"@]);
            },
            Err(e) => return Err(e),
        }
    }
    if let Err(e) = check_seed(seed, our_seed) {
        return Err(e);
    }
    let ghost first = texts(warnings@);
    if let Some(w) = runtime_warning(runtime, our_runtime) {
        let ghost words = w@;
        warnings.push(w);
        assert(texts(warnings@) =~= first.push(words));
    }
    Ok(warnings)
}

/// Whether a transcript can be replayed where the cart runs.
pub fn check_replay(networked: bool, worker: bool) -> (r: Result<(), &'static str>)
    ensures
        r is Err <==> networked && worker,
        r is Err ==> r->Err_0@
            == "a networked transcript replays in process, not with --worker"@,
{
    if networked && worker {
        Err("a networked transcript replays in process, not with --worker")
    } else {
        Ok(())
    }
}

/// What is said of a transcript that was written.
pub fn recorded_line(frames: u64, path: &str) -> (s: String)
    ensures
        s@ == "recorded "@ + dec(frames as nat) + " frames into "@ + path@,
{
    let mut s = "recorded ".to_owned();
    push_dec(&mut s, frames);
    s.append(" frames into ");
    s.append(path);
    s
}

/// The warning for a run that a transcript could not hold.
pub fn outgrown_line(path: &str, frames: u64) -> (s: String)
    ensures
        s@ == "the run outgrew a transcript; "@ + path@ + " holds its first "@ + dec(
            frames as nat,
        ) + " frames"@,
{
    let mut s = "the run outgrew a transcript; ".to_owned();
    s.append(path);
    s.append(" holds its first ");
    push_dec(&mut s, frames);
    s.append(" frames");
    s
}

// ----- headless runs ------------------------------------------------------------------------

/// How many frames a run steps: what was asked for, else the transcript's
/// length, else the default.
pub fn run_length(frames: Option<u64>, transcript: Option<u64>) -> (n: u64)
    ensures
        n == (match (frames, transcript) {
            (Some(f), _) => f,
            (None, Some(t)) => t,
            (None, None) => DEFAULT_FRAMES,
        }),
{
    match frames {
        Some(f) => f,
        None => match transcript {
            Some(t) => t,
            None => DEFAULT_FRAMES,
        },
    }
}

/// What a run replays: the inputs and the initial slots of a transcript,
/// and its network's environment if it has one.
#[derive(Debug)]
pub struct Replay {
    pub path: String,
    pub inputs: Vec<FrameInput>,
    pub saves: Vec<(u8, Vec<u8>)>,
    pub net: Option<NetEnv>,
}

/// How a headless run goes: the inputs, the slots that the cart starts
/// with, how many frames it steps, the environment it sees, and whether a
/// link is built for it. A replay never builds one, so no endpoint can be
/// constructed.
#[derive(Debug)]
pub struct RunPlan {
    pub inputs: Vec<FrameInput>,
    pub store: MemoryStore,
    pub frames: u64,
    pub env: NetEnv,
    pub linked: bool,
}

/// Why a run cannot replay.
pub open spec fn replay_refusal(r: Replay, worker: bool) -> Option<Seq<char>> {
    match filled(blank(), pairs_view(r.saves@), 0) {
        Err(e) => Some(r.path@ + ": initial saves: "@ + (e.code + ": "@ + e.message)),
        Ok(_) => if r.net is Some && worker {
            Some("a networked transcript replays in process, not with --worker"@)
        } else {
            None
        },
    }
}

/// Whether an environment is a run's.
pub open spec fn env_is(e: NetEnv, net: Option<NetMode>, recorded: Option<NetEnv>) -> bool {
    match (net, recorded) {
        (Some(m), _) => e.permitted && match (e.invite, m.ticket()) {
            (None, None) => true,
            (Some(t), Some(u)) => t@ == u,
            _ => false,
        },
        (None, Some(r)) => e == r,
        (None, None) => !e.permitted && e.invite is None,
    }
}

/// Set up a headless run from its flags, and from a transcript or an input
/// script. The slots of a replay are isolated; a run without one starts
/// with none.
pub fn plan_headless(
    frames: Option<u64>,
    script: Vec<FrameInput>,
    replay: Option<Replay>,
    worker: bool,
    net: &Option<NetMode>,
) -> (r: Result<RunPlan, String>)
    ensures
        match replay {
            Some(t) => match (r, replay_refusal(t, worker)) {
                (Err(e), Some(why)) => e@ == why,
                (Ok(p), None) => {
                    &&& p.inputs == t.inputs
                    &&& Ok::<Seq<Option<Seq<u8>>>, SaveErrorView>(p.store@) == filled(
                        blank(),
                        pairs_view(t.saves@),
                        0,
                    )
                    &&& p.frames == (match frames {
                        Some(f) => f,
                        None => t.inputs@.len() as u64,
                    })
                    &&& env_is(p.env, *net, t.net)
                    &&& p.linked == (*net is Some)
                },
                _ => false,
            },
            None => match r {
                Ok(p) => {
                    &&& p.inputs == script
                    &&& p.store@ == blank()
                    &&& p.frames == (match frames {
                        Some(f) => f,
                        None => DEFAULT_FRAMES,
                    })
                    &&& env_is(p.env, *net, None)
                    &&& p.linked == (*net is Some)
                },
                Err(_) => false,
            },
        },
{
    match replay {
        Some(t) => {
            let store = match MemoryStore::from_slots(&t.saves) {
                Ok(s) => s,
                Err(e) => {
                    let mut m = t.path;
                    m.append(": initial saves: ");
                    m.append(e.text().as_str());
                    return Err(m);
                },
            };
            if let Err(why) = check_replay(t.net.is_some(), worker) {
                return Err(why.to_owned());
            }
            let frames = run_length(frames, Some(t.inputs.len() as u64));
            let env = run_env(net, t.net);
            Ok(RunPlan { inputs: t.inputs, store, frames, env, linked: net.is_some() })
        },
        None => {
            let frames = run_length(frames, None);
            let env = run_env(net, None);
            Ok(
                RunPlan {
                    inputs: script,
                    store: MemoryStore::new(),
                    frames,
                    env,
                    linked: net.is_some(),
                },
            )
        },
    }
}

/// The buttons of a frame: the script's, or none behind its end.
pub fn input_at(inputs: &Vec<FrameInput>, frame: u64) -> (i: FrameInput)
    ensures
        i == (if frame < inputs@.len() {
            inputs@[frame as int]
        } else {
            FrameInput { buttons: 0 }
        }),
{
    if frame < inputs.len() as u64 {
        inputs[frame as usize]
    } else {
        FrameInput::new(0)
    }
}

/// What a headless run keeps of its frames.
#[derive(Debug)]
pub struct Kept {
    /// The run's PCM, written as one WAV beside the frames.
    pub audio: Vec<i16>,
    /// Why a frame's picture could not be written; later frames are not
    /// attempted.
    pub failed: Option<String>,
    /// The last frame, for a screenshot.
    pub last: Option<OwnedFrame>,
}

impl Kept {
    pub fn new() -> (k: Kept)
        ensures
            k.audio@.len() == 0,
            k.failed is None,
            k.last is None,
    {
        Kept { audio: Vec::new(), failed: None, last: None }
    }

    /// Keep what is needed of a frame; whether its picture is written.
    pub fn take(&mut self, frame: OwnedFrame, out: bool, screenshot: bool) -> (write: bool)
        requires
            old(self).audio@.len() + frame.audio@.len() <= usize::MAX,
        ensures
            write == (out && old(self).failed is None),
            final(self).failed == old(self).failed,
            final(self).audio@ == (if out {
                old(self).audio@ + frame.audio@
            } else {
                old(self).audio@
            }),
            final(self).last == (if screenshot {
                Some(frame)
            } else {
                old(self).last
            }),
    {
        if out {
            let mut i: usize = 0;
            assert(frame.audio@.take(0) =~= seq![]);
            assert(self.audio@ =~= old(self).audio@ + frame.audio@.take(0));
            while i < frame.audio.len()
                invariant
                    i <= frame.audio@.len(),
                    self.audio@ == old(self).audio@ + frame.audio@.take(i as int),
                    self.failed == old(self).failed,
                    self.last == old(self).last,
                decreases frame.audio.len() - i,
            {
                self.audio.push(frame.audio[i]);
                assert(self.audio@ =~= old(self).audio@ + frame.audio@.take(i + 1));
                i += 1;
            }
            assert(frame.audio@.take(i as int) =~= frame.audio@);
        }
        let write = out && self.failed.is_none();
        if screenshot {
            self.last = Some(frame);
        }
        write
    }
}

/// What came of a headless run.
#[derive(Debug)]
pub struct RunSummary {
    pub frames_run: u64,
    pub hash: String,
    pub state: String,
    /// Why the run ended early, if it did.
    pub error: Option<String>,
    pub fault: Option<Fault>,
}

/// A run's report: the line for everyone, the line for what went wrong
/// and the exit code.
pub struct Report {
    pub line: String,
    pub complaint: Option<String>,
    pub code: u8,
}

/// The one-line outcome and the exit code.
pub fn report(summary: &RunSummary) -> (r: Report)
    ensures
        r.line@ == "frames "@ + dec(summary.frames_run as nat) + " hash "@ + summary.hash@
            + " state "@ + summary.state@,
        match (summary.error, summary.fault) {
            (Some(e), _) => r.code == EXIT_FAULT && r.complaint is Some && r.complaint->0@ == e@,
            (None, Some(f)) => r.code == EXIT_FAULT && r.complaint is Some && r.complaint->0@
                == f@.text(),
            (None, None) => r.code == EXIT_OK && r.complaint is None,
        },
{
    let mut line = "frames ".to_owned();
    push_dec(&mut line, summary.frames_run);
    line.append(" hash ");
    line.append(summary.hash.as_str());
    line.append(" state ");
    line.append(summary.state.as_str());
    if let Some(e) = &summary.error {
        return Report { line, complaint: Some(e.clone()), code: EXIT_FAULT };
    }
    if let Some(f) = &summary.fault {
        return Report { line, complaint: Some(f.text()), code: EXIT_FAULT };
    }
    Report { line, complaint: None, code: EXIT_OK }
}

/// The exit code of a windowed run: the host says so when it broke, and a
/// cart that faulted was told about when it happened.
pub fn window_exit(ended: &Option<ConsoleState>) -> (code: u8)
    ensures
        code == (match *ended {
            Some(s) => if s@ is None {
                EXIT_OK
            } else {
                EXIT_FAULT
            },
            None => EXIT_FAULT,
        }),
{
    match ended {
        Some(s) => match s.fault() {
            None => EXIT_OK,
            Some(_) => EXIT_FAULT,
        },
        None => EXIT_FAULT,
    }
}

/// The exit code behind a recording: a transcript that could not be
/// written is the failure of the run.
pub fn recorded_exit(outcome: u8, written: Option<u8>) -> (code: u8)
    ensures
        code == (match written {
            Some(c) if c != EXIT_OK => c,
            _ => outcome,
        }),
{
    match written {
        Some(c) => if c != EXIT_OK {
            c
        } else {
            outcome
        },
        None => outcome,
    }
}

// ----- timing -------------------------------------------------------------------------------

/// Times in order.
pub open spec fn in_order(s: Seq<u64>) -> bool {
    forall|i: int, j: int| 0 <= i <= j < s.len() ==> s[i] <= s[j]
}

/// A time put at its place among others in order.
fn insert_sorted(v: &mut Vec<u64>, t: u64)
    requires
        in_order(old(v)@),
    ensures
        in_order(final(v)@),
        final(v)@.to_multiset() == old(v)@.to_multiset().insert(t),
        final(v)@.len() == old(v)@.len() + 1,
{
    let mut i: usize = 0;
    while i < v.len() && v[i] <= t
        invariant
            v@ == old(v)@,
            i <= v@.len(),
            forall|k: int| 0 <= k < i ==> #[trigger] v@[k] <= t,
        decreases v.len() - i,
    {
        i += 1;
    }
    proof {
        old(v)@.to_multiset_ensures();
        let new = old(v)@.insert(i as int, t);
        assert forall|a: int, b: int| 0 <= a <= b < new.len() implies new[a] <= new[b] by {
            if a > i {
                assert(new[a] == old(v)@[a - 1]);
            }
            if b > i {
                assert(new[b] == old(v)@[b - 1]);
            }
            if a == i && b > i {
                assert(old(v)@[i as int] <= old(v)@[b - 1]);
            }
        }
        assert(new.to_multiset() =~= old(v)@.to_multiset().insert(t)) by {
            vstd::seq_lib::to_multiset_insert(old(v)@, i as int, t);
        }
    }
    v.insert(i, t);
}

/// The median (the upper one of an even number) and the largest of some
/// times.
pub fn timing(times: &Vec<u64>) -> (r: Option<(u64, u64)>)
    ensures
        r is None <==> times@.len() == 0,
        r matches Some(p) ==> forall|s: Seq<u64>|
            in_order(s) && #[trigger] s.to_multiset() == times@.to_multiset() ==> p.0
                == s[s.len() as int / 2] && p.1 == s.last(),
{
    if times.len() == 0 {
        return None;
    }
    let mut v: Vec<u64> = Vec::new();
    let mut i: usize = 0;
    proof {
        assert(times@.take(0) =~= seq![]);
        assert(v@ =~= seq![]);
    }
    while i < times.len()
        invariant
            i <= times@.len(),
            v@.len() == i,
            in_order(v@),
            v@.to_multiset() == times@.take(i as int).to_multiset(),
        decreases times.len() - i,
    {
        proof {
            assert(times@.take(i + 1) =~= times@.take(i as int).push(times@[i as int]));
            times@.take(i as int).to_multiset_ensures();
        }
        insert_sorted(&mut v, times[i]);
        i += 1;
    }
    proof {
        assert(times@.take(i as int) =~= times@);
        assert forall|s: Seq<u64>|
            in_order(s) && #[trigger] s.to_multiset() == times@.to_multiset() implies s == v@ by {
            let leq = |a: u64, b: u64| a <= b;
            assert(vstd::relations::sorted_by(s, leq));
            assert(vstd::relations::sorted_by(v@, leq));
            assert(vstd::relations::total_ordering(leq));
            vstd::seq_lib::lemma_sorted_unique(s, v@, leq);
        }
    }
    Some((v[v.len() / 2], v[v.len() - 1]))
}

// ----- the diagnostic -----------------------------------------------------------------------

/// What a session with a peer gives.
#[derive(Debug)]
pub enum SessionEvent {
    Text(String),
    /// A cart peer's message, by its length.
    Data(u64),
    PeerClosed,
    PeerLost(String),
    /// A failure, by its code and detail.
    Error(String, String),
}

/// What the diagnostic does about it: say a line and go on, say a line
/// and leave, or fail.
#[derive(Debug)]
pub enum Told {
    Line(String),
    Left(String),
    Failed(String),
}

pub open spec fn told_line(e: SessionEvent) -> Seq<char> {
    match e {
        SessionEvent::Text(t) => "peer says: "@ + t@,
        SessionEvent::Data(n) => "peer sent data: "@ + dec(n as nat) + " bytes"@,
        SessionEvent::PeerClosed => "peer closed"@,
        SessionEvent::PeerLost(why) => "net_connect peer lost: "@ + why@,
        SessionEvent::Error(code, detail) => code@ + " "@ + detail@,
    }
}

/// Whether an event is told as it should be: texts and data are lines,
/// a close is a clean end, a loss and an error are failures.
pub open spec fn tells(e: SessionEvent, t: Told) -> bool {
    match (e, t) {
        (SessionEvent::Text(_), Told::Line(s)) => s@ == told_line(e),
        (SessionEvent::Data(_), Told::Line(s)) => s@ == told_line(e),
        (SessionEvent::PeerClosed, Told::Left(s)) => s@ == told_line(e),
        (SessionEvent::PeerLost(_), Told::Failed(s)) => s@ == told_line(e),
        (SessionEvent::Error(_, _), Told::Failed(s)) => s@ == told_line(e),
        _ => false,
    }
}

pub fn told(e: &SessionEvent) -> (t: Told)
    ensures
        tells(*e, t),
{
    match e {
        SessionEvent::Text(t) => {
            let mut s = "peer says: ".to_owned();
            s.append(t.as_str());
            Told::Line(s)
        },
        SessionEvent::Data(n) => {
            let mut s = "peer sent data: ".to_owned();
            push_dec(&mut s, *n);
            s.append(" bytes");
            Told::Line(s)
        },
        SessionEvent::PeerClosed => Told::Left("peer closed".to_owned()),
        SessionEvent::PeerLost(why) => {
            let mut s = "net_connect peer lost: ".to_owned();
            s.append(why.as_str());
            Told::Failed(s)
        },
        SessionEvent::Error(code, detail) => {
            let mut s = code.clone();
            s.append(" ");
            s.append(detail.as_str());
            Told::Failed(s)
        },
    }
}

/// What the diagnostic does on a turn of its wait.
#[derive(Debug)]
pub enum Turn {
    /// Ctrl+C: say bye, close and leave.
    Bye,
    /// Nothing came in time.
    Wait,
    Heard(Told),
}

/// A turn of a chat: until the peer leaves or Ctrl+C.
pub fn chat_turn(interrupted: bool, event: &Option<SessionEvent>) -> (t: Turn)
    ensures
        match t {
            Turn::Bye => interrupted,
            Turn::Wait => !interrupted && *event is None,
            Turn::Heard(w) => !interrupted && (*event matches Some(e) && tells(e, w)),
        },
{
    if interrupted {
        return Turn::Bye;
    }
    match event {
        None => Turn::Wait,
        Some(e) => Turn::Heard(told(e)),
    }
}

/// Whether `--say` waits on for the peer's greeting before it leaves.
pub fn waits_for_greeting(heard: bool, late: bool, interrupted: bool) -> (r: bool)
    ensures
        r == (!heard && !late && !interrupted),
{
    !heard && !late && !interrupted
}

/// How often `--say` sends its text: at least once.
pub fn times_said(repeat: u32) -> (n: u32)
    ensures
        n == (if repeat < 1 {
            1
        } else {
            repeat
        }),
{
    if repeat < 1 {
        1
    } else {
        repeat
    }
}

/// The greeting of a session.
pub fn greeting(name: &str) -> (s: String)
    ensures
        s@ == "hello from "@ + name@,
{
    let mut s = "hello from ".to_owned();
    s.append(name);
    s
}

/// The exit code of a diagnostic that failed: a cancelled wait after
/// Ctrl+C is a clean end.
pub fn net_exit(cancelled: bool, interrupted: bool) -> (code: u8)
    ensures
        code == (if cancelled && interrupted {
            EXIT_OK
        } else {
            EXIT_NET
        }),
{
    if cancelled && interrupted {
        EXIT_OK
    } else {
        EXIT_NET
    }
}

/// A run that `--no-sandbox` applies to always has a worker, and a
/// windowed run always has responsive waits.
pub proof fn law_only_a_worker_is_unconfined(flags: RunFlags)
    requires
        flags.refusal() is None,
    ensures
        flags.no_sandbox ==> flags.has_worker(),
        flags.worker ==> flags.is_headless() && flags.has_worker(),
        flags.in_process ==> !flags.is_headless() && !flags.has_worker(),
{
}

} // verus!
