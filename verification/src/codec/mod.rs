//! The canonical codec.

pub mod base64;
pub mod forms;
pub mod json;
pub mod json_roundtrip;
pub mod lexis;
pub mod number;
pub mod reading;
pub mod roundtrip;
pub mod value;
pub mod writing;

use vstd::prelude::*;
use vstd::string::*;
use vstd::utf8::*;

pub use base64::base64_decode;

verus! {

/// Most nested tables; the top-level table is depth 1.
pub const MAX_DEPTH: usize = 32;

/// Most table entries in one document, all tables together.
pub const MAX_ENTRIES: usize = 65_536;

/// Most bytes of encoded text.
pub const MAX_ENCODED: usize = 256 * 1024;

/// Most decoded bytes: 16 per value plus the payload of every string and
/// blob.
pub const MAX_DECODED: usize = 1024 * 1024;

/// Bytes every value counts for against [`MAX_DECODED`].
pub const VALUE_COST: usize = 16;

#[derive(Debug, Clone, PartialEq, Eq)]
pub struct CodecError {
    /// Stable code, one of the `codec_*` constants below.
    pub code: &'static str,
    pub message: String,
}

/// A code and a message.
pub struct ErrorView {
    pub code: Seq<char>,
    pub message: Seq<char>,
}

impl View for CodecError {
    type V = ErrorView;

    open spec fn view(&self) -> ErrorView {
        ErrorView { code: self.code@, message: self.message@ }
    }
}

pub open spec fn too_deep() -> ErrorView {
    ErrorView { code: "codec_depth"@, message: "tables nested deeper than 32"@ }
}

pub open spec fn too_many() -> ErrorView {
    ErrorView { code: "codec_size"@, message: "more than 65536 table entries"@ }
}

pub open spec fn too_long() -> ErrorView {
    ErrorView { code: "codec_size"@, message: "encoded text longer than 262144 bytes"@ }
}

pub open spec fn too_large() -> ErrorView {
    ErrorView { code: "codec_size"@, message: "decoded value larger than 1048576 bytes"@ }
}

impl CodecError {
    pub const CYCLE: &'static str = "codec_cycle";
    pub const UNSUPPORTED: &'static str = "codec_unsupported";
    pub const DEPTH: &'static str = "codec_depth";
    pub const SIZE: &'static str = "codec_size";
    pub const SYNTAX: &'static str = "codec_syntax";
    pub const KEY: &'static str = "codec_key";
    pub const NUMBER: &'static str = "codec_number";

    pub fn new(code: &'static str, message: &str) -> (e: CodecError)
        ensures
            e@ == (ErrorView { code: code@, message: message@ }),
    {
        CodecError { code, message: message.to_owned() }
    }

    pub fn depth() -> (e: CodecError)
        ensures
            e@ == too_deep(),
    {
        CodecError::new(Self::DEPTH, "tables nested deeper than 32")
    }

    pub fn entries() -> (e: CodecError)
        ensures
            e@ == too_many(),
    {
        CodecError::new(Self::SIZE, "more than 65536 table entries")
    }

    pub fn encoded() -> (e: CodecError)
        ensures
            e@ == too_long(),
    {
        CodecError::new(Self::SIZE, "encoded text longer than 262144 bytes")
    }

    pub fn decoded() -> (e: CodecError)
        ensures
            e@ == too_large(),
    {
        CodecError::new(Self::SIZE, "decoded value larger than 1048576 bytes")
    }

    /// The code, then the message.
    pub fn text(&self) -> (s: String)
        ensures
            s@ == self@.code + ": "@ + self@.message,
    {
        let mut s = self.code.to_owned();
        s.append(": ");
        s.append(self.message.as_str());
        s
    }
}

/// Running totals a walk keeps against the limits.
#[derive(Debug, Clone, Copy, PartialEq, Eq, Structural)]
pub struct Budget {
    pub depth: usize,
    pub entries: usize,
    pub decoded: usize,
}

pub open spec fn no_budget_spent() -> Budget {
    Budget { depth: 0, entries: 0, decoded: 0 }
}

impl Default for Budget {
    fn default() -> (b: Budget)
        ensures
            b == no_budget_spent(),
    {
        Budget { depth: 0, entries: 0, decoded: 0 }
    }
}

impl Budget {
    /// A budget no limit of which was passed.
    pub open spec fn wf(self) -> bool {
        self.depth <= MAX_DEPTH && self.entries <= MAX_ENTRIES && self.decoded <= MAX_DECODED
    }

    /// What a value costs: the budget after it, or the refusal.
    pub open spec fn with_value(self, payload: int) -> Result<Budget, ErrorView> {
        let decoded = self.decoded + VALUE_COST + payload;
        if decoded > MAX_DECODED {
            Err(too_large())
        } else {
            Ok(Budget { decoded: decoded as usize, ..self })
        }
    }

    /// What an entry costs.
    pub open spec fn with_entry(self) -> Result<Budget, ErrorView> {
        if self.entries + 1 > MAX_ENTRIES {
            Err(too_many())
        } else {
            Ok(Budget { entries: (self.entries + 1) as usize, ..self })
        }
    }

    /// What a nested table costs.
    pub open spec fn with_table(self) -> Result<Budget, ErrorView> {
        if self.depth >= MAX_DEPTH {
            Err(too_deep())
        } else {
            Ok(Budget { depth: (self.depth + 1) as usize, ..self })
        }
    }

    /// Enter a nested table. On failure the depth is unchanged, so a
    /// lenient walk that drops the table needs no matching `leave`.
    pub fn enter(&mut self) -> (r: Result<(), CodecError>)
        ensures
            match (r, old(self).with_table()) {
                (Ok(_), Ok(b)) => *final(self) == b,
                (Err(e), Err(v)) => e@ == v && *final(self) == *old(self),
                _ => false,
            },
    {
        if self.depth >= MAX_DEPTH {
            return Err(CodecError::depth());
        }
        self.depth += 1;
        Ok(())
    }

    pub fn leave(&mut self)
        requires
            old(self).depth > 0,
        ensures
            *final(self) == (Budget { depth: (old(self).depth - 1) as usize, ..*old(self) }),
    {
        self.depth -= 1;
    }

    pub fn entry(&mut self) -> (r: Result<(), CodecError>)
        requires
            old(self).entries < usize::MAX,
        ensures
            final(self).entries == old(self).entries + 1,
            final(self).depth == old(self).depth,
            final(self).decoded == old(self).decoded,
            match (r, old(self).with_entry()) {
                (Ok(_), Ok(b)) => *final(self) == b,
                (Err(e), Err(v)) => e@ == v,
                _ => false,
            },
    {
        self.entries += 1;
        if self.entries > MAX_ENTRIES {
            return Err(CodecError::entries());
        }
        Ok(())
    }

    /// One value with `payload` bytes of string or blob.
    pub fn value(&mut self, payload: usize) -> (r: Result<(), CodecError>)
        ensures
            final(self).depth == old(self).depth,
            final(self).entries == old(self).entries,
            match (r, old(self).with_value(payload as int)) {
                (Ok(_), Ok(b)) => *final(self) == b,
                (Err(e), Err(v)) => e@ == v,
                _ => false,
            },
    {
        self.decoded = self.decoded.saturating_add(VALUE_COST).saturating_add(payload);
        if self.decoded > MAX_DECODED {
            return Err(CodecError::decoded());
        }
        Ok(())
    }
}

/// A refused nested table leaves the budget as it was, and one that is
/// entered and left again costs nothing.
pub proof fn law_a_refused_enter_needs_no_leave(b: Budget)
    ensures
        b.with_table() is Err <==> b.depth >= MAX_DEPTH,
        b.with_table() matches Ok(c) ==> (Budget { depth: (c.depth - 1) as usize, ..c }) == b,
{
}

/// The string of some ASCII bytes.
pub(crate) fn ascii_string(bytes: &[u8]) -> (s: String)
    requires
        forall|i: int| 0 <= i < bytes@.len() ==> bytes@[i] < 128,
    ensures
        encode_utf8(s@) == bytes@,
        s@.len() == bytes@.len(),
        forall|i: int| 0 <= i < bytes@.len() ==> s@[i] == bytes@[i] as char,
{
    let mut s = String::new();
    let mut i: usize = 0;
    while i < bytes.len()
        invariant
            i <= bytes@.len(),
            forall|k: int| 0 <= k < bytes@.len() ==> bytes@[k] < 128,
            s@.len() == i,
            forall|k: int| 0 <= k < i ==> #[trigger] s@[k] == bytes@[k] as char,
        decreases bytes.len() - i,
    {
        s.push(bytes[i] as char);
        i += 1;
    }
    proof {
        assert(is_ascii_chars(s@)) by {
            assert forall|k: int| 0 <= k < s@.len() implies '\0' <= #[trigger] s@[k] <= '\u{7f}' by {
                assert(bytes@[k] < 128);
            }
        }
        is_ascii_chars_encode_utf8(s@);
        assert(encode_utf8(s@) =~= bytes@);
    }
    s
}

/// The base64 text of some bytes.
pub fn base64_encode(bytes: &[u8]) -> (s: String)
    ensures
        encode_utf8(s@) == base64::encoded(bytes@),
{
    let mut out: Vec<u8> = Vec::new();
    base64::push_base64(&mut out, bytes);
    assert(out@ =~= base64::encoded(bytes@));
    proof {
        base64::lemma_encoded_ascii(bytes@);
    }
    ascii_string(out.as_slice())
}

} // verus!
