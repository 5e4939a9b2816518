//! The cart-facing networking contract.
//!
//! A cart asks for things with [`Command`]s during its frame and is told
//! things with [`Event`]s at the top of a later frame. Everything a cart
//! can observe is an event admitted at a frame boundary, so a recorded
//! run replays without a peer.
//!
//! Three pieces live here:
//!
//! - [`NetState`], the cart's half, inside its draw state: status, ticket,
//!   peer, the bounded inbox and outbox, counters. Present only for a cart
//!   whose manifest declares `services = ["net"]`.
//! - [`memory::MemoryTransport`], two transports joined in process, for
//!   tests and the pair fixtures.
//! - [`link::Link`], the host's half: the permission gate, when a
//!   transport is built and dropped, and the bounded queue of events
//!   waiting for a frame.
//!
//! The library knows no socket: a host carries commands and events to
//! where they go.

pub mod delivery;
pub mod link;
pub mod linking;
pub mod memory;
pub mod sessions;

use std::collections::VecDeque;
use vstd::prelude::*;
use vstd::slice::slice_to_vec;
use vstd::string::*;
use vstd::utf8::*;
use crate::text::{dec, push_dec, str_eq};
use crate::wire::{clip, clipped};

verus! {

/// Longest message payload, in bytes; the wire's `Data` limit.
pub const MAX_DATA: usize = 1024;

/// Longest ticket a cart may hand to `join`.
pub const MAX_TICKET: usize = 1024;

/// Longest failure detail carried on an event.
pub const MAX_DETAIL: usize = 256;

/// Events the inbox holds before the host stops offering more. Control
/// events (a permission change) may push it past this by a few.
pub const INBOX_CAP: usize = 256;

/// Most events admitted in one frame, and the batch bound of a
/// transcript record and of a step of a worker.
pub const MAX_BATCH: usize = 64;

/// `send` calls one frame may queue.
pub const MAX_SENDS: usize = 16;

/// Commands one frame's outbox may hold in all: the sends plus the
/// control commands (`host`, `join`, `leave`).
pub const MAX_COMMANDS: usize = 32;

// ----- commands ---------------------------------------------------------------------------

/// What a cart asks for during a frame.
#[derive(Debug, Clone, PartialEq, Eq)]
pub enum Command {
    Host,
    Join { ticket: String },
    Send { data: Vec<u8> },
    Leave,
}

/// A command as plain values.
pub enum CommandView {
    Host,
    Join { ticket: Seq<char> },
    Send { data: Seq<u8> },
    Leave,
}

impl View for Command {
    type V = CommandView;

    open spec fn view(&self) -> CommandView {
        match self {
            Command::Host => CommandView::Host,
            Command::Join { ticket } => CommandView::Join { ticket: ticket@ },
            Command::Send { data } => CommandView::Send { data: data@ },
            Command::Leave => CommandView::Leave,
        }
    }
}

impl CommandView {
    /// What is wrong with a command's size.
    pub open spec fn flaw(self) -> Option<Seq<char>> {
        match self {
            CommandView::Join { ticket } if encode_utf8(ticket).len() > MAX_TICKET => Some(
                "ticket of "@ + dec(encode_utf8(ticket).len()) + " bytes, at most 1024"@,
            ),
            CommandView::Send { data } if data.len() == 0 || data.len() > MAX_DATA => Some(
                "data of "@ + dec(data.len()) + " bytes, must be 1 to 1024"@,
            ),
            _ => None,
        }
    }

    pub open spec fn op(self) -> Seq<char> {
        match self {
            CommandView::Host => "host"@,
            CommandView::Join { .. } => "join"@,
            CommandView::Send { .. } => "send"@,
            CommandView::Leave => "leave"@,
        }
    }
}

impl Command {
    /// Whether the command is well formed under the size bounds.
    pub fn check(&self) -> (r: Result<(), String>)
        ensures
            match (r, self@.flaw()) {
                (Ok(_), None) => true,
                (Err(e), Some(t)) => e@ == t,
                _ => false,
            },
    {
        match self {
            Command::Join { ticket } => {
                let n: usize = ticket.as_str().as_bytes().len();
                if n > MAX_TICKET {
                    let mut m = "ticket of ".to_owned();
                    push_dec(&mut m, n as u64);
                    m.append(" bytes, at most 1024");
                    return Err(m);
                }
            },
            Command::Send { data } => {
                let n: usize = data.len();
                if n == 0 || n > MAX_DATA {
                    let mut m = "data of ".to_owned();
                    push_dec(&mut m, n as u64);
                    m.append(" bytes, must be 1 to 1024");
                    return Err(m);
                }
            },
            _ => {},
        }
        Ok(())
    }

    /// The `op` name a transcript records.
    pub fn op(&self) -> (s: &'static str)
        ensures
            s@ == self@.op(),
    {
        match self {
            Command::Host => "host",
            Command::Join { .. } => "join",
            Command::Send { .. } => "send",
            Command::Leave => "leave",
        }
    }
}

pub open spec fn command_views(v: Seq<Command>) -> Seq<CommandView> {
    v.map_values(|c: Command| c@)
}

// ----- events -----------------------------------------------------------------------------

/// Why a session ended.
#[derive(Debug, Clone, Copy, PartialEq, Eq, Structural)]
pub enum Reason {
    /// The peer said bye.
    Left,
    /// The transport lost the peer.
    Lost,
    /// This side asked to leave.
    Closed,
}

impl Reason {
    pub open spec fn spelled(self) -> Seq<char> {
        match self {
            Reason::Left => "left"@,
            Reason::Lost => "lost"@,
            Reason::Closed => "closed"@,
        }
    }

    pub fn as_str(self) -> (s: &'static str)
        ensures
            s@ == self.spelled(),
    {
        match self {
            Reason::Left => "left",
            Reason::Lost => "lost",
            Reason::Closed => "closed",
        }
    }

    pub fn parse(s: &str) -> (r: Option<Reason>)
        ensures
            match r {
                Some(x) => s@ == x.spelled(),
                None => forall|x: Reason| s@ != #[trigger] x.spelled(),
            },
    {
        if str_eq(s, "left") {
            Some(Reason::Left)
        } else if str_eq(s, "lost") {
            Some(Reason::Lost)
        } else if str_eq(s, "closed") {
            Some(Reason::Closed)
        } else {
            None
        }
    }
}

/// A reason's name reads back as the reason.
pub proof fn law_reasons_have_names(a: Reason, b: Reason)
    requires
        a.spelled() == b.spelled(),
    ensures
        a == b,
{
    reveal_strlit("left");
    reveal_strlit("lost");
    reveal_strlit("closed");
    assert("left"@[1] == 'e' && "lost"@[1] == 'o');
    assert("left"@.len() == 4 && "lost"@.len() == 4 && "closed"@.len() == 6);
}

/// The stable code of a `Failed` event: the wire's `net_*` codes plus
/// the three the console adds. A finite set, so a worker's reply and a
/// transcript decode through it and never leak an arbitrary string.
#[derive(Debug, Clone, Copy, PartialEq, Eq, Structural)]
pub enum FailCode {
    /// No permission: the run was not started with networking on.
    Denied,
    /// A command that made no sense in the current status.
    Declined,
    /// The outgoing queue was full; the message was dropped.
    QueueFull,
    Disabled,
    NoAddress,
    Ticket,
    Connect,
    ProtocolMismatch,
    Handshake,
    Frame,
    Timeout,
    Busy,
    Cancelled,
}

impl FailCode {
    /// Every code.
    pub fn all() -> (v: [FailCode; 13])
        ensures
            forall|c: FailCode| #[trigger] v@.contains(c),
    {
        let v = [
            FailCode::Denied,
            FailCode::Declined,
            FailCode::QueueFull,
            FailCode::Disabled,
            FailCode::NoAddress,
            FailCode::Ticket,
            FailCode::Connect,
            FailCode::ProtocolMismatch,
            FailCode::Handshake,
            FailCode::Frame,
            FailCode::Timeout,
            FailCode::Busy,
            FailCode::Cancelled,
        ];
        proof {
            assert forall|c: FailCode| #[trigger] v@.contains(c) by {
                assert(v@[0] == FailCode::Denied);
                assert(v@[1] == FailCode::Declined);
                assert(v@[2] == FailCode::QueueFull);
                assert(v@[3] == FailCode::Disabled);
                assert(v@[4] == FailCode::NoAddress);
                assert(v@[5] == FailCode::Ticket);
                assert(v@[6] == FailCode::Connect);
                assert(v@[7] == FailCode::ProtocolMismatch);
                assert(v@[8] == FailCode::Handshake);
                assert(v@[9] == FailCode::Frame);
                assert(v@[10] == FailCode::Timeout);
                assert(v@[11] == FailCode::Busy);
                assert(v@[12] == FailCode::Cancelled);
            }
        }
        v
    }

    pub open spec fn spelled(self) -> Seq<char> {
        match self {
            FailCode::Denied => "net_denied"@,
            FailCode::Declined => "net_declined"@,
            FailCode::QueueFull => "net_queue_full"@,
            FailCode::Disabled => "net_disabled"@,
            FailCode::NoAddress => "net_no_address"@,
            FailCode::Ticket => "net_ticket"@,
            FailCode::Connect => "net_connect"@,
            FailCode::ProtocolMismatch => "net_protocol_mismatch"@,
            FailCode::Handshake => "net_handshake"@,
            FailCode::Frame => "net_frame"@,
            FailCode::Timeout => "net_timeout"@,
            FailCode::Busy => "net_busy"@,
            FailCode::Cancelled => "net_cancelled"@,
        }
    }

    pub fn as_str(self) -> (s: &'static str)
        ensures
            s@ == self.spelled(),
    {
        match self {
            FailCode::Denied => "net_denied",
            FailCode::Declined => "net_declined",
            FailCode::QueueFull => "net_queue_full",
            FailCode::Disabled => "net_disabled",
            FailCode::NoAddress => "net_no_address",
            FailCode::Ticket => "net_ticket",
            FailCode::Connect => "net_connect",
            FailCode::ProtocolMismatch => "net_protocol_mismatch",
            FailCode::Handshake => "net_handshake",
            FailCode::Frame => "net_frame",
            FailCode::Timeout => "net_timeout",
            FailCode::Busy => "net_busy",
            FailCode::Cancelled => "net_cancelled",
        }
    }

    pub fn parse(s: &str) -> (r: Option<FailCode>)
        ensures
            match r {
                Some(c) => s@ == c.spelled(),
                None => forall|c: FailCode| s@ != #[trigger] c.spelled(),
            },
    {
        if str_eq(s, "net_denied") {
            return Some(FailCode::Denied);
        }
        if str_eq(s, "net_declined") {
            return Some(FailCode::Declined);
        }
        if str_eq(s, "net_queue_full") {
            return Some(FailCode::QueueFull);
        }
        if str_eq(s, "net_disabled") {
            return Some(FailCode::Disabled);
        }
        if str_eq(s, "net_no_address") {
            return Some(FailCode::NoAddress);
        }
        if str_eq(s, "net_ticket") {
            return Some(FailCode::Ticket);
        }
        if str_eq(s, "net_connect") {
            return Some(FailCode::Connect);
        }
        if str_eq(s, "net_protocol_mismatch") {
            return Some(FailCode::ProtocolMismatch);
        }
        if str_eq(s, "net_handshake") {
            return Some(FailCode::Handshake);
        }
        if str_eq(s, "net_frame") {
            return Some(FailCode::Frame);
        }
        if str_eq(s, "net_timeout") {
            return Some(FailCode::Timeout);
        }
        if str_eq(s, "net_busy") {
            return Some(FailCode::Busy);
        }
        if str_eq(s, "net_cancelled") {
            return Some(FailCode::Cancelled);
        }
        None
    }
}

/// A code's name reads back as the code.
pub proof fn law_fail_codes_have_names(a: FailCode, b: FailCode)
    requires
        a.spelled() == b.spelled(),
    ensures
        a == b,
{
    reveal_strlit("net_denied");
    reveal_strlit("net_declined");
    reveal_strlit("net_queue_full");
    reveal_strlit("net_disabled");
    reveal_strlit("net_no_address");
    reveal_strlit("net_ticket");
    reveal_strlit("net_connect");
    reveal_strlit("net_protocol_mismatch");
    reveal_strlit("net_handshake");
    reveal_strlit("net_frame");
    reveal_strlit("net_timeout");
    reveal_strlit("net_busy");
    reveal_strlit("net_cancelled");
    assert("net_denied"@.len() == 10);
    assert("net_declined"@.len() == 12);
    assert("net_queue_full"@.len() == 14);
    assert("net_disabled"@.len() == 12);
    assert("net_no_address"@.len() == 14);
    assert("net_ticket"@.len() == 10);
    assert("net_connect"@.len() == 11);
    assert("net_protocol_mismatch"@.len() == 21);
    assert("net_handshake"@.len() == 13);
    assert("net_frame"@.len() == 9);
    assert("net_timeout"@.len() == 11);
    assert("net_busy"@.len() == 8);
    assert("net_cancelled"@.len() == 13);
    assert("net_denied"@[4] == 'd' && "net_ticket"@[4] == 't');
    assert("net_declined"@[5] == 'e' && "net_disabled"@[5] == 'i');
    assert("net_queue_full"@[4] == 'q' && "net_no_address"@[4] == 'n');
    assert("net_connect"@[4] == 'c' && "net_timeout"@[4] == 't');
    assert("net_handshake"@[4] == 'h' && "net_cancelled"@[4] == 'c');
}

/// What a cart is told at the top of a frame, in order.
#[derive(Debug, Clone, PartialEq, Eq)]
pub enum Event {
    /// The host request succeeded; the ticket to hand to the joiner.
    Hosting { ticket: String },
    /// A session is open with the peer.
    Connected { peer: u32 },
    /// The peer sent a message.
    Message { from: u32, data: Vec<u8> },
    /// The session ended.
    Disconnected { reason: Reason },
    /// A request or a session failed; data, never a cart fault.
    Failed { code: FailCode, detail: String },
    /// The host granted or withdrew the player's permission. Withdrawn
    /// permission ends any session and discards every queued event.
    Permission { granted: bool },
}

/// An event as plain values.
pub enum EventView {
    Hosting { ticket: Seq<char> },
    Connected { peer: u32 },
    Message { from: u32, data: Seq<u8> },
    Disconnected { reason: Reason },
    Failed { code: FailCode, detail: Seq<char> },
    Permission { granted: bool },
}

impl View for Event {
    type V = EventView;

    open spec fn view(&self) -> EventView {
        match self {
            Event::Hosting { ticket } => EventView::Hosting { ticket: ticket@ },
            Event::Connected { peer } => EventView::Connected { peer: *peer },
            Event::Message { from, data } => EventView::Message { from: *from, data: data@ },
            Event::Disconnected { reason } => EventView::Disconnected { reason: *reason },
            Event::Failed { code, detail } => EventView::Failed { code: *code, detail: detail@ },
            Event::Permission { granted } => EventView::Permission { granted: *granted },
        }
    }
}

impl EventView {
    pub open spec fn kind(self) -> Seq<char> {
        match self {
            EventView::Hosting { .. } => "hosting"@,
            EventView::Connected { .. } => "connected"@,
            EventView::Message { .. } => "message"@,
            EventView::Disconnected { .. } => "disconnected"@,
            EventView::Failed { .. } => "failed"@,
            EventView::Permission { .. } => "permission"@,
        }
    }

    pub open spec fn control(self) -> bool {
        self is Permission
    }

    /// A failure with its detail clipped.
    pub open spec fn failure(code: FailCode, detail: Seq<char>) -> EventView {
        EventView::Failed { code, detail: clipped(detail, MAX_DETAIL as nat) }
    }

    /// What is wrong with an event's sizes or its peer.
    pub open spec fn flaw(self) -> Option<Seq<char>> {
        match self {
            EventView::Hosting { ticket } if encode_utf8(ticket).len() > MAX_TICKET => Some(
                "ticket of "@ + dec(encode_utf8(ticket).len()) + " bytes"@,
            ),
            EventView::Connected { peer } if peer != 1 => Some("peer "@ + dec(peer as nat)),
            EventView::Message { from, .. } if from != 1 => Some("peer "@ + dec(from as nat)),
            EventView::Message { data, .. } if data.len() == 0 || data.len() > MAX_DATA => Some(
                "data of "@ + dec(data.len()) + " bytes"@,
            ),
            EventView::Failed { detail, .. } if encode_utf8(detail).len() > MAX_DETAIL => Some(
                "detail of "@ + dec(encode_utf8(detail).len()) + " bytes"@,
            ),
            _ => None,
        }
    }
}

pub open spec fn event_views(v: Seq<Event>) -> Seq<EventView> {
    v.map_values(|e: Event| e@)
}

/// `head`, a number and `tail`.
fn counted_text(head: &str, n: u64, tail: &str) -> (m: String)
    ensures
        m@ == head@ + dec(n as nat) + tail@,
{
    let mut m = head.to_owned();
    push_dec(&mut m, n);
    m.append(tail);
    m
}

impl Event {
    /// The `kind` name a cart sees.
    pub fn kind(&self) -> (s: &'static str)
        ensures
            s@ == self@.kind(),
    {
        match self {
            Event::Hosting { .. } => "hosting",
            Event::Connected { .. } => "connected",
            Event::Message { .. } => "message",
            Event::Disconnected { .. } => "disconnected",
            Event::Failed { .. } => "failed",
            Event::Permission { .. } => "permission",
        }
    }

    /// A control event is admitted even when the inbox has no room: it
    /// changes what the inbox holds rather than adding to a backlog.
    pub fn is_control(&self) -> (r: bool)
        ensures
            r == self@.control(),
    {
        match self {
            Event::Permission { .. } => true,
            _ => false,
        }
    }

    /// A failure with its detail clipped to [`MAX_DETAIL`].
    pub fn failed(code: FailCode, detail: &str) -> (e: Event)
        ensures
            e@ == EventView::failure(code, detail@),
    {
        Event::Failed { code, detail: clip(detail, MAX_DETAIL).to_owned() }
    }

    /// Whether the event is well formed under the size bounds.
    pub fn check(&self) -> (r: Result<(), String>)
        ensures
            match (r, self@.flaw()) {
                (Ok(_), None) => true,
                (Err(e), Some(t)) => e@ == t,
                _ => false,
            },
    {
        match self {
            Event::Hosting { ticket } => {
                let n: usize = ticket.as_str().as_bytes().len();
                if n > MAX_TICKET {
                    return Err(counted_text("ticket of ", n as u64, " bytes"));
                }
            },
            Event::Connected { peer } => {
                if *peer != 1 {
                    let mut m = "peer ".to_owned();
                    push_dec(&mut m, *peer as u64);
                    return Err(m);
                }
            },
            Event::Message { from, data } => {
                if *from != 1 {
                    let mut m = "peer ".to_owned();
                    push_dec(&mut m, *from as u64);
                    return Err(m);
                }
                let n: usize = data.len();
                if n == 0 || n > MAX_DATA {
                    return Err(counted_text("data of ", n as u64, " bytes"));
                }
            },
            Event::Failed { detail, .. } => {
                let n: usize = detail.as_str().as_bytes().len();
                if n > MAX_DETAIL {
                    return Err(counted_text("detail of ", n as u64, " bytes"));
                }
            },
            _ => {},
        }
        Ok(())
    }

    /// Another event that says the same.
    pub fn copy(&self) -> (e: Event)
        ensures
            e@ == self@,
    {
        match self {
            Event::Hosting { ticket } => Event::Hosting { ticket: ticket.clone() },
            Event::Connected { peer } => Event::Connected { peer: *peer },
            Event::Message { from, data } => Event::Message {
                from: *from,
                data: slice_to_vec(data.as_slice()),
            },
            Event::Disconnected { reason } => Event::Disconnected { reason: *reason },
            Event::Failed { code, detail } => Event::Failed {
                code: *code,
                detail: detail.clone(),
            },
            Event::Permission { granted } => Event::Permission { granted: *granted },
        }
    }
}

/// Every failure that is made here is well formed.
pub proof fn law_failures_are_well_formed(code: FailCode, detail: Seq<char>)
    ensures
        EventView::failure(code, detail).flaw() is None,
{
    crate::wire::lemma_clipped_fits(detail, MAX_DETAIL as nat);
}

/// Where the cart stands.
#[derive(Debug, Clone, Copy, PartialEq, Eq, Structural)]
pub enum Status {
    Off,
    Hosting,
    Joining,
    Connected,
    Ended,
}

impl Default for Status {
    fn default() -> (s: Status)
        ensures
            s == Status::Off,
    {
        Status::Off
    }
}

impl Status {
    pub open spec fn spelled(self) -> Seq<char> {
        match self {
            Status::Off => "off"@,
            Status::Hosting => "hosting"@,
            Status::Joining => "joining"@,
            Status::Connected => "connected"@,
            Status::Ended => "ended"@,
        }
    }

    pub fn as_str(self) -> (s: &'static str)
        ensures
            s@ == self.spelled(),
    {
        match self {
            Status::Off => "off",
            Status::Hosting => "hosting",
            Status::Joining => "joining",
            Status::Connected => "connected",
            Status::Ended => "ended",
        }
    }
}

/// The initial environment of a networked run: what the host decided
/// before the cart started. Part of the transcript header.
#[derive(Debug, Clone, PartialEq, Eq)]
pub struct NetEnv {
    /// Whether the player permitted networking for this run.
    pub permitted: bool,
    /// The ticket the run was launched with (`--net join`), if any.
    pub invite: Option<String>,
}

/// A text that may be missing, as characters.
pub open spec fn text_in(t: Option<String>) -> Option<Seq<char>> {
    match t {
        Some(s) => Some(s@),
        None => None,
    }
}

pub fn copy_text(t: &Option<String>) -> (r: Option<String>)
    ensures
        text_in(r) == text_in(*t),
{
    match t {
        Some(s) => Some(s.clone()),
        None => None,
    }
}

impl Default for NetEnv {
    fn default() -> (e: NetEnv)
        ensures
            !e.permitted,
            e.invite is None,
    {
        NetEnv { permitted: false, invite: None }
    }
}

impl NetEnv {
    /// Another environment that says the same.
    pub fn copy(&self) -> (e: NetEnv)
        ensures
            e.permitted == self.permitted,
            text_in(e.invite) == text_in(self.invite),
    {
        NetEnv { permitted: self.permitted, invite: copy_text(&self.invite) }
    }
}

// ----- the cart's half --------------------------------------------------------------------

/// The cart's networking state, in its draw state when the manifest
/// declares the service.
#[derive(Debug)]
pub struct NetState {
    pub status: Status,
    pub ticket: Option<String>,
    pub peer: Option<u32>,
    pub permitted: bool,
    pub invite: Option<String>,
    /// Events admitted and not yet read by the cart.
    pub inbox: VecDeque<Event>,
    /// Commands the cart issued this frame.
    pub outbox: Vec<Command>,
    /// The batch admitted at the top of this frame, for the recorder.
    pub admitted: Vec<Event>,
    /// Messages queued by `send`.
    pub sent: u64,
    /// Message events admitted.
    pub received: u64,
    /// Sends refused for a full outbox and events dropped for a full
    /// inbox.
    pub dropped: u64,
    /// Room reported by a remote console (the worker's), which is the
    /// real inbox; `None` when this state is the real one.
    pub remote_room: Option<usize>,
    pub sends_this_frame: usize,
}

/// A networking state as plain values.
#[verifier::ext_equal]
pub struct NetView {
    pub status: Status,
    pub ticket: Option<Seq<char>>,
    pub peer: Option<u32>,
    pub permitted: bool,
    pub invite: Option<Seq<char>>,
    pub inbox: Seq<EventView>,
    pub outbox: Seq<CommandView>,
    pub admitted: Seq<EventView>,
    pub sent: int,
    pub received: int,
    pub dropped: int,
    pub remote_room: Option<usize>,
    pub sends: int,
}

impl View for NetState {
    type V = NetView;

    open spec fn view(&self) -> NetView {
        NetView {
            status: self.status,
            ticket: text_in(self.ticket),
            peer: self.peer,
            permitted: self.permitted,
            invite: text_in(self.invite),
            inbox: event_views(self.inbox@),
            outbox: command_views(self.outbox@),
            admitted: event_views(self.admitted@),
            sent: self.sent as int,
            received: self.received as int,
            dropped: self.dropped as int,
            remote_room: self.remote_room,
            sends: self.sends_this_frame as int,
        }
    }
}

/// A counter one up; it stays at its largest value.
pub open spec fn up(n: int) -> int {
    if n < u64::MAX {
        n + 1
    } else {
        n
    }
}

/// One more, as far as it fits.
pub(crate) fn count(n: u64) -> (r: u64)
    ensures
        r == up(n as int),
{
    if n < u64::MAX {
        n + 1
    } else {
        n
    }
}

impl NetView {
    /// The state of a cart that starts in an environment.
    pub open spec fn fresh(permitted: bool, invite: Option<Seq<char>>) -> NetView {
        NetView {
            status: Status::Off,
            ticket: None,
            peer: None,
            permitted,
            invite,
            inbox: seq![],
            outbox: seq![],
            admitted: seq![],
            sent: 0,
            received: 0,
            dropped: 0,
            remote_room: None,
            sends: 0,
        }
    }

    /// Whether a transport may be alive.
    pub open spec fn live(self) -> bool {
        !(self.status is Off || self.status is Ended)
    }

    /// What an event does to the state, before it is queued.
    pub open spec fn applied(self, e: EventView) -> NetView {
        match e {
            EventView::Hosting { ticket } => NetView {
                ticket: Some(ticket),
                status: if self.status is Connected {
                    Status::Connected
                } else {
                    Status::Hosting
                },
                ..self
            },
            EventView::Connected { peer } => NetView {
                status: Status::Connected,
                peer: Some(peer),
                ..self
            },
            EventView::Message { .. } => NetView { received: up(self.received), ..self },
            EventView::Disconnected { reason } => NetView {
                peer: None,
                // The cart that asked to leave has already moved on.
                status: if reason is Closed {
                    self.status
                } else if self.ticket is Some {
                    Status::Hosting
                } else {
                    Status::Ended
                },
                ..self
            },
            EventView::Failed { .. } => NetView {
                status: if (self.status is Hosting && self.ticket is None)
                    || self.status is Joining {
                    Status::Ended
                } else {
                    self.status
                },
                ..self
            },
            EventView::Permission { granted } => if granted {
                NetView { permitted: true, ..self }
            } else {
                NetView {
                    permitted: false,
                    inbox: seq![],
                    ticket: None,
                    peer: None,
                    status: if self.status is Off {
                        Status::Off
                    } else {
                        Status::Ended
                    },
                    ..self
                }
            },
        }
    }

    /// Whether the inbox has a place for an event.
    pub open spec fn takes(self, e: EventView) -> bool {
        self.inbox.len() < INBOX_CAP || e.control()
    }

    /// An event applied and queued, or dropped for a full inbox.
    pub open spec fn told(self, e: EventView) -> NetView {
        let v = self.applied(e);
        if v.takes(e) {
            NetView { inbox: v.inbox.push(e), ..v }
        } else {
            NetView { dropped: up(v.dropped), ..v }
        }
    }

    /// An event of the host's batch.
    pub open spec fn admitted_one(self, e: EventView) -> NetView {
        NetView {
            admitted: if self.applied(e).takes(e) {
                self.admitted.push(e)
            } else {
                self.admitted
            },
            ..self.told(e)
        }
    }

    /// The events of a batch, in order.
    pub open spec fn admitted_all(self, batch: Seq<EventView>) -> NetView
        decreases batch.len(),
    {
        if batch.len() == 0 {
            self
        } else {
            self.admitted_all(batch.drop_last()).admitted_one(batch.last())
        }
    }

    /// A frame begun with a batch.
    pub open spec fn begun(self, batch: Seq<EventView>) -> NetView {
        NetView { outbox: seq![], sends: 0, admitted: seq![], ..self }.admitted_all(batch)
    }

    /// Why a session cannot be opened.
    pub open spec fn refusal(self) -> Option<(FailCode, Seq<char>)> {
        if !self.permitted {
            Some((FailCode::Denied, "networking is not permitted"@))
        } else if self.live() {
            Some((FailCode::Declined, "already hosting, joining or connected"@))
        } else if self.outbox.len() >= MAX_COMMANDS {
            Some((FailCode::Declined, "too many commands this frame"@))
        } else {
            None
        }
    }

    /// The state after `host` or `join`: the command is queued, or the
    /// cart is told why not.
    pub open spec fn asked(self, status: Status, c: CommandView) -> NetView {
        match self.refusal() {
            Some((code, why)) => self.told(EventView::failure(code, why)),
            None => NetView { status, ticket: None, outbox: self.outbox.push(c), ..self },
        }
    }

    /// Whether a message can be queued, and the state after it.
    pub open spec fn sendable(self) -> bool {
        self.status is Connected && self.sends < MAX_SENDS && self.outbox.len() < MAX_COMMANDS
    }

    pub open spec fn sent_with(self, data: Seq<u8>) -> NetView {
        if !(self.status is Connected) {
            self
        } else if self.sendable() {
            NetView {
                sends: self.sends + 1,
                sent: up(self.sent),
                outbox: self.outbox.push(CommandView::Send { data }),
                ..self
            }
        } else {
            NetView { dropped: up(self.dropped), ..self }
        }
    }

    /// The state after `leave`.
    pub open spec fn left(self) -> NetView {
        if !self.live() {
            self
        } else {
            NetView {
                status: Status::Ended,
                ticket: None,
                peer: None,
                outbox: if self.outbox.len() < MAX_COMMANDS {
                    self.outbox.push(CommandView::Leave)
                } else {
                    self.outbox
                },
                ..self
            }
        }
    }

    /// The bounds that every call keeps.
    pub open spec fn bounded(self) -> bool {
        self.outbox.len() <= MAX_COMMANDS && 0 <= self.sends <= MAX_SENDS
    }
}

impl NetState {
    pub fn new(env: &NetEnv) -> (s: NetState)
        ensures
            s@ == NetView::fresh(env.permitted, text_in(env.invite)),
            s@.bounded(),
    {
        let s = NetState {
            status: Status::Off,
            ticket: None,
            peer: None,
            permitted: env.permitted,
            invite: copy_text(&env.invite),
            inbox: VecDeque::new(),
            outbox: Vec::new(),
            admitted: Vec::new(),
            sent: 0,
            received: 0,
            dropped: 0,
            remote_room: None,
            sends_this_frame: 0,
        };
        assert(s@ =~= NetView::fresh(env.permitted, text_in(env.invite)));
        s
    }

    /// How many events the host may offer for the next frame.
    pub fn room(&self) -> (n: usize)
        ensures
            n == (match self@.remote_room {
                Some(r) => if r < MAX_BATCH {
                    r as int
                } else {
                    MAX_BATCH as int
                },
                None => if self@.inbox.len() + MAX_BATCH <= INBOX_CAP {
                    MAX_BATCH as int
                } else if self@.inbox.len() <= INBOX_CAP {
                    INBOX_CAP - self@.inbox.len()
                } else {
                    0
                },
            }),
    {
        match self.remote_room {
            Some(r) => if r < MAX_BATCH {
                r
            } else {
                MAX_BATCH
            },
            None => {
                let n: usize = self.inbox.len();
                if n > INBOX_CAP {
                    0
                } else if INBOX_CAP - n < MAX_BATCH {
                    INBOX_CAP - n
                } else {
                    MAX_BATCH
                }
            },
        }
    }

    /// Whether a transport may be alive for this cart.
    pub fn is_live(&self) -> (r: bool)
        ensures
            r == self@.live(),
    {
        match self.status {
            Status::Off => false,
            Status::Ended => false,
            _ => true,
        }
    }

    /// Start a frame: clear the outbox and admit `events` in order.
    pub fn begin_frame(&mut self, events: Vec<Event>)
        ensures
            final(self)@ == old(self)@.begun(event_views(events@)),
            final(self)@.bounded(),
    {
        self.outbox = Vec::new();
        self.sends_this_frame = 0;
        self.admitted = Vec::new();
        assert(self@ =~= (NetView { outbox: seq![], sends: 0, admitted: seq![], ..old(self)@ }));
        let ghost start = self@;
        self.take_in(events);
        proof {
            lemma_admitted_keeps(start, event_views(events@));
        }
    }

    /// Admit events: apply each to the status and queue it.
    pub fn take_in(&mut self, events: Vec<Event>)
        ensures
            final(self)@ == old(self)@.admitted_all(event_views(events@)),
    {
        let ghost all = event_views(events@);
        let mut i: usize = 0;
        assert(all.take(0) =~= seq![]);
        while i < events.len()
            invariant
                i <= events@.len(),
                all == event_views(events@),
                self@ == old(self)@.admitted_all(all.take(i as int)),
            decreases events.len() - i,
        {
            let ghost before = self@;
            assert(all[i as int] == events@[i as int]@);
            proof {
                let t = all.take(i + 1);
                assert(t.drop_last() =~= all.take(i as int));
                assert(t.last() == all[i as int]);
            }
            let queued = self.tell(&events[i]);
            if queued {
                let ghost list = self.admitted@;
                self.admitted.push(events[i].copy());
                assert(event_views(self.admitted@) =~= event_views(list).push(all[i as int]));
            }
            assert(self@ =~= before.admitted_one(all[i as int]));
            i += 1;
        }
        assert(all.take(i as int) =~= all);
    }

    /// Apply an event and queue it; whether there was a place for it.
    fn tell(&mut self, e: &Event) -> (queued: bool)
        ensures
            final(self)@ == old(self)@.told(e@),
            queued == old(self)@.applied(e@).takes(e@),
    {
        self.apply(e);
        if self.inbox.len() >= INBOX_CAP && !e.is_control() {
            self.dropped = count(self.dropped);
            assert(self@ =~= old(self)@.told(e@));
            return false;
        }
        let ghost before = self.inbox@;
        self.inbox.push_back(e.copy());
        assert(event_views(self.inbox@) =~= event_views(before).push(e@));
        assert(self@ =~= old(self)@.told(e@));
        true
    }

    fn apply(&mut self, e: &Event)
        ensures
            final(self)@ == old(self)@.applied(e@),
    {
        match e {
            Event::Hosting { ticket } => {
                self.ticket = Some(ticket.clone());
                if self.status != Status::Connected {
                    self.status = Status::Hosting;
                }
            },
            Event::Connected { peer } => {
                self.status = Status::Connected;
                self.peer = Some(*peer);
            },
            Event::Message { .. } => {
                self.received = count(self.received);
            },
            Event::Disconnected { reason } => {
                self.peer = None;
                match reason {
                    // The cart asked to leave and already moved on.
                    Reason::Closed => {},
                    _ => if self.ticket.is_some() {
                        self.status = Status::Hosting;
                    } else {
                        self.status = Status::Ended;
                    },
                }
            },
            Event::Failed { .. } => {
                if (self.status == Status::Hosting && self.ticket.is_none()) || self.status
                    == Status::Joining {
                    self.status = Status::Ended;
                }
            },
            Event::Permission { granted } => {
                self.permitted = *granted;
                if !*granted {
                    self.inbox.clear();
                    self.ticket = None;
                    self.peer = None;
                    if self.status != Status::Off {
                        self.status = Status::Ended;
                    }
                    assert(event_views(self.inbox@) =~= seq![]);
                }
            },
        }
        assert(self@ =~= old(self)@.applied(e@));
    }

    /// A locally decided failure, queued for the cart like any event. It
    /// is not part of the host's batch.
    fn fail(&mut self, code: FailCode, detail: &str)
        ensures
            final(self)@ == old(self)@.told(EventView::failure(code, detail@)),
    {
        let e = Event::failed(code, detail);
        let _queued = self.tell(&e);
    }

    /// `net.host()`.
    pub fn host(&mut self)
        ensures
            final(self)@ == old(self)@.asked(Status::Hosting, CommandView::Host),
            old(self)@.bounded() ==> final(self)@.bounded(),
    {
        self.ask(Status::Hosting, Command::Host)
    }

    /// `net.join(ticket)`; the ticket has been size-checked.
    pub fn join(&mut self, ticket: String)
        ensures
            final(self)@ == old(self)@.asked(
                Status::Joining,
                CommandView::Join { ticket: ticket@ },
            ),
            old(self)@.bounded() ==> final(self)@.bounded(),
    {
        self.ask(Status::Joining, Command::Join { ticket })
    }

    fn ask(&mut self, status: Status, c: Command)
        ensures
            final(self)@ == old(self)@.asked(status, c@),
            old(self)@.bounded() ==> final(self)@.bounded(),
    {
        if !self.permitted {
            return self.fail(FailCode::Denied, "networking is not permitted");
        }
        if self.is_live() {
            return self.fail(FailCode::Declined, "already hosting, joining or connected");
        }
        if self.outbox.len() >= MAX_COMMANDS {
            return self.fail(FailCode::Declined, "too many commands this frame");
        }
        self.status = status;
        self.ticket = None;
        let ghost before = self.outbox@;
        self.outbox.push(c);
        assert(command_views(self.outbox@) =~= command_views(before).push(c@));
        assert(self@ =~= old(self)@.asked(status, c@));
    }

    /// `net.send(data)`: whether it was queued. The data has been
    /// size-checked.
    pub fn send(&mut self, data: Vec<u8>) -> (r: bool)
        ensures
            r == old(self)@.sendable(),
            final(self)@ == old(self)@.sent_with(data@),
            old(self)@.bounded() ==> final(self)@.bounded(),
    {
        if self.status != Status::Connected {
            return false;
        }
        if self.sends_this_frame >= MAX_SENDS || self.outbox.len() >= MAX_COMMANDS {
            self.dropped = count(self.dropped);
            assert(self@ =~= old(self)@.sent_with(data@));
            return false;
        }
        self.sends_this_frame += 1;
        self.sent = count(self.sent);
        let ghost before = self.outbox@;
        let c = Command::Send { data };
        self.outbox.push(c);
        assert(command_views(self.outbox@) =~= command_views(before).push(c@));
        assert(self@ =~= old(self)@.sent_with(data@));
        true
    }

    /// `net.leave()`.
    pub fn leave(&mut self)
        ensures
            final(self)@ == old(self)@.left(),
            old(self)@.bounded() ==> final(self)@.bounded(),
    {
        if !self.is_live() {
            return;
        }
        self.status = Status::Ended;
        self.ticket = None;
        self.peer = None;
        if self.outbox.len() < MAX_COMMANDS {
            let ghost before = self.outbox@;
            self.outbox.push(Command::Leave);
            assert(command_views(self.outbox@) =~= command_views(before).push(CommandView::Leave));
        }
        assert(self@ =~= old(self)@.left());
    }

    /// `net.recv()`.
    pub fn recv(&mut self) -> (e: Option<Event>)
        ensures
            match e {
                Some(x) => old(self)@.inbox.len() > 0 && x@ == old(self)@.inbox[0] && final(self)@
                    == (NetView { inbox: old(self)@.inbox.skip(1), ..old(self)@ }),
                None => old(self)@.inbox.len() == 0 && final(self)@ == old(self)@,
            },
    {
        let e = self.inbox.pop_front();
        proof {
            if e is Some {
                assert(event_views(self.inbox@) =~= old(self)@.inbox.skip(1));
                assert(self@ =~= (NetView { inbox: old(self)@.inbox.skip(1), ..old(self)@ }));
            } else {
                assert(self@ =~= old(self)@);
            }
        }
        e
    }
}

/// Admission leaves what the cart asked for alone.
proof fn lemma_admitted_keeps(v: NetView, batch: Seq<EventView>)
    ensures
        v.admitted_all(batch).outbox == v.outbox,
        v.admitted_all(batch).sends == v.sends,
        v.admitted_all(batch).invite == v.invite,
        v.admitted_all(batch).remote_room == v.remote_room,
    decreases batch.len(),
{
    if batch.len() > 0 {
        lemma_admitted_keeps(v, batch.drop_last());
    }
}

/// The control events of a batch.
pub open spec fn controls(batch: Seq<EventView>) -> int
    decreases batch.len(),
{
    if batch.len() == 0 {
        0
    } else {
        controls(batch.drop_last()) + (if batch.last().control() {
            1int
        } else {
            0
        })
    }
}

/// The inbox never holds more than its bound and the control events that
/// came on top of it.
pub proof fn law_the_inbox_is_bounded(v: NetView, batch: Seq<EventView>, over: int)
    requires
        v.inbox.len() <= INBOX_CAP + over,
        over >= 0,
    ensures
        v.admitted_all(batch).inbox.len() <= INBOX_CAP + over + controls(batch),
        controls(batch) >= 0,
    decreases batch.len(),
{
    if batch.len() > 0 {
        law_the_inbox_is_bounded(v, batch.drop_last(), over);
    }
}

/// What was offered within the room is queued: a batch without control
/// events that fits the inbox is admitted whole and nothing is dropped.
pub proof fn law_a_batch_that_fits_is_admitted(v: NetView, batch: Seq<EventView>)
    requires
        v.inbox.len() + batch.len() <= INBOX_CAP,
        controls(batch) == 0,
    ensures
        v.admitted_all(batch).inbox == v.inbox + batch,
        v.admitted_all(batch).admitted == v.admitted + batch,
        v.admitted_all(batch).dropped == v.dropped,
    decreases batch.len(),
{
    if batch.len() > 0 {
        let rest = batch.drop_last();
        law_the_inbox_is_bounded(v, rest, 0);
        law_a_batch_that_fits_is_admitted(v, rest);
        assert(batch =~= rest.push(batch.last()));
        assert(v.inbox + batch =~= (v.inbox + rest).push(batch.last()));
        assert(v.admitted + batch =~= (v.admitted + rest).push(batch.last()));
    } else {
        assert(v.inbox + batch =~= v.inbox);
        assert(v.admitted + batch =~= v.admitted);
    }
}

/// Withdrawn permission ends any session and discards every queued event:
/// the withdrawal is all that the cart can still read.
pub proof fn law_withdrawn_permission_clears(v: NetView)
    ensures
        ({
            let w = v.told(EventView::Permission { granted: false });
            &&& !w.permitted && !w.live()
            &&& w.ticket is None && w.peer is None
            &&& w.inbox == seq![EventView::Permission { granted: false }]
        }),
{
    let w = v.told(EventView::Permission { granted: false });
    assert(w.inbox =~= seq![EventView::Permission { granted: false }]);
}

/// Without permission a cart queues no command: asking for a session only
/// tells it so.
pub proof fn law_a_denied_cart_queues_nothing(v: NetView, status: Status, c: CommandView)
    requires
        !v.permitted,
    ensures
        v.asked(status, c).outbox == v.outbox,
        v.asked(status, c).status is Ended || v.asked(status, c).status == v.status,
{
}

} // verus!
