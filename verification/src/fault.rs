//! Cart-ending errors as data.

use vstd::prelude::*;
use vstd::string::*;
use crate::text::{dec, push_dec};

verus! {

/// A cart-ending error. Errors are data: a stable code, a message and the
/// file and line they came from, so that a host, a log or an agent can act
/// on them without parsing prose.
#[derive(Debug, Clone, PartialEq, Eq)]
pub struct Fault {
    /// Stable machine-readable code, e.g. `compile_error`, `runtime_error`.
    pub code: String,
    /// Human-readable message with any `file:line:` prefix stripped.
    pub message: String,
    /// Source file the error was attributed to, e.g. `main.lua`.
    pub file: String,
    /// One-based line, when known.
    pub line: Option<u32>,
}

/// What a fault says, as plain text.
pub struct FaultView {
    pub code: Seq<char>,
    pub message: Seq<char>,
    pub file: Seq<char>,
    pub line: Option<u32>,
}

impl View for Fault {
    type V = FaultView;

    open spec fn view(&self) -> FaultView {
        FaultView { code: self.code@, message: self.message@, file: self.file@, line: self.line }
    }
}

impl FaultView {
    /// `file:line`, or just `file` when the line is unknown.
    pub open spec fn location(self) -> Seq<char> {
        match self.line {
            Some(line) => self.file + seq![':'] + dec(line as nat),
            None => self.file,
        }
    }

    /// `code file:line: message`.
    pub open spec fn text(self) -> Seq<char> {
        self.code + seq![' '] + self.location() + seq![':', ' '] + self.message
    }
}

impl Fault {
    pub const COMPILE_ERROR: &'static str = "compile_error";
    pub const RUNTIME_ERROR: &'static str = "runtime_error";
    pub const CART_READ_ERROR: &'static str = "cart_read_error";
    /// The cycle budget of a callback was spent.
    pub const BUDGET_EXCEEDED: &'static str = "budget_exceeded";
    /// The guest heap passed its cap, soft or hard.
    pub const OUT_OF_MEMORY: &'static str = "out_of_memory";
    /// A wall-clock backstop fired outside the deterministic meter;
    /// reported by a broker, never by the core.
    pub const WATCHDOG_TIMEOUT: &'static str = "watchdog_timeout";
    /// The worker's restricted token could not be set up, so the run
    /// was refused rather than started unsandboxed (fail closed);
    /// reported by a broker, never by the core.
    pub const SANDBOX_UNAVAILABLE: &'static str = "sandbox_unavailable";

    pub fn new(code: &str, file: &str, line: Option<u32>, message: &str) -> (f: Fault)
        ensures
            f@ == (FaultView { code: code@, message: message@, file: file@, line }),
    {
        Fault {
            code: code.to_owned(),
            message: message.to_owned(),
            file: file.to_owned(),
            line,
        }
    }

    /// An equal fault.
    pub fn copy(&self) -> (f: Fault)
        ensures
            f@ == self@,
    {
        Fault {
            code: self.code.clone(),
            message: self.message.clone(),
            file: self.file.clone(),
            line: self.line,
        }
    }

    /// `file:line` or just `file` when the line is unknown.
    pub fn location(&self) -> (s: String)
        ensures
            s@ == self@.location(),
    {
        let mut s = self.file.clone();
        if let Some(line) = self.line {
            s.push(':');
            push_dec(&mut s, line as u64);
            assert(s@ =~= self@.location());
        }
        s
    }

    /// The one line hosts print for a fault: `code file:line: message`.
    pub fn text(&self) -> (s: String)
        ensures
            s@ == self@.text(),
    {
        let mut s = self.code.clone();
        s.push(' ');
        s.append(self.location().as_str());
        s.push(':');
        s.push(' ');
        s.append(self.message.as_str());
        assert(s@ =~= self@.text());
        s
    }
}

} // verus!
