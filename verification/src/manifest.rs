//! `cart.toml`: the minimal manifest. Every field is optional; unknown
//! keys are errors so a typo cannot silently do nothing.
//!
//! The host hands a file over as the tables that a TOML parser made of it,
//! or with what the parser said.

use vstd::prelude::*;
use vstd::string::*;
use vstd::utf8::*;
use crate::text::{quote, quoted, str_eq, texts};

verus! {

pub const MANIFEST_FILE: &'static str = "cart.toml";

/// The one screen mode a cart declares.
#[derive(Debug, Clone, Copy, PartialEq, Eq, Structural)]
pub enum ScreenMode {
    Low,
    /// The system's primary resolution and the default.
    High,
}

impl Default for ScreenMode {
    fn default() -> (m: ScreenMode)
        ensures
            m == ScreenMode::High,
    {
        ScreenMode::High
    }
}

impl ScreenMode {
    pub open spec fn spelled(self) -> Seq<char> {
        match self {
            ScreenMode::Low => "320x240"@,
            ScreenMode::High => "640x480"@,
        }
    }

    pub fn size(self) -> (s: (u32, u32))
        ensures
            s == (match self {
                ScreenMode::Low => (320u32, 240u32),
                ScreenMode::High => (640u32, 480u32),
            }),
    {
        match self {
            ScreenMode::Low => (320, 240),
            ScreenMode::High => (640, 480),
        }
    }

    pub fn name(self) -> (s: &'static str)
        ensures
            s@ == self.spelled(),
    {
        match self {
            ScreenMode::Low => "320x240",
            ScreenMode::High => "640x480",
        }
    }

    pub fn parse(name: &str) -> (r: Option<ScreenMode>)
        ensures
            match r {
                Some(m) => name@ == m.spelled(),
                None => forall|m: ScreenMode| name@ != #[trigger] m.spelled(),
            },
    {
        if str_eq(name, "320x240") {
            Some(ScreenMode::Low)
        } else if str_eq(name, "640x480") {
            Some(ScreenMode::High)
        } else {
            None
        }
    }
}

/// No two modes are spelled alike, so a mode's name reads back as the mode.
pub proof fn law_modes_have_names(a: ScreenMode, b: ScreenMode)
    requires
        a.spelled() == b.spelled(),
    ensures
        a == b,
{
    reveal_strlit("320x240");
    reveal_strlit("640x480");
    assert("320x240"@[0] == '3' && "640x480"@[0] == '6');
}

/// A host service a cart declares under `[cart] services`. Only `net`
/// exists; an unknown name is a manifest error.
#[derive(Debug, Clone, Copy, PartialEq, Eq, Structural)]
pub enum Service {
    Net,
}

impl Service {
    pub open spec fn spelled(self) -> Seq<char> {
        match self {
            Service::Net => "net"@,
        }
    }

    pub fn as_str(self) -> (s: &'static str)
        ensures
            s@ == self.spelled(),
    {
        match self {
            Service::Net => "net",
        }
    }
}

#[derive(Debug, Clone, PartialEq, Eq)]
pub struct Manifest {
    pub title: String,
    pub screen_mode: ScreenMode,
    /// Sheet names decoded at boot, `gfx/<name>.png`.
    pub preload_sheets: Vec<String>,
    /// Map names decoded at boot, `map/<name>.json`.
    pub preload_maps: Vec<String>,
    /// Host services the cart asked for; `net` gives it the `net` table.
    pub services: Vec<Service>,
}

/// A manifest as plain values.
#[verifier::ext_equal]
pub struct ManifestView {
    pub title: Seq<char>,
    pub screen_mode: ScreenMode,
    pub preload_sheets: Seq<Seq<char>>,
    pub preload_maps: Seq<Seq<char>>,
    pub services: Seq<Service>,
}

impl View for Manifest {
    type V = ManifestView;

    open spec fn view(&self) -> ManifestView {
        ManifestView {
            title: self.title@,
            screen_mode: self.screen_mode,
            preload_sheets: texts(self.preload_sheets@),
            preload_maps: texts(self.preload_maps@),
            services: self.services@,
        }
    }
}

/// The manifest of a cart without a file.
pub open spec fn no_manifest() -> ManifestView {
    ManifestView {
        title: seq![],
        screen_mode: ScreenMode::High,
        preload_sheets: seq![],
        preload_maps: seq![],
        services: seq![],
    }
}

impl Default for Manifest {
    fn default() -> (m: Manifest)
        ensures
            m@ == no_manifest(),
    {
        let m = Manifest {
            title: String::new(),
            screen_mode: ScreenMode::High,
            preload_sheets: Vec::new(),
            preload_maps: Vec::new(),
            services: Vec::new(),
        };
        assert(m@ =~= no_manifest());
        m
    }
}

/// The tables of a file, as a TOML parser gives them: what is not in the
/// file is empty, or the default mode.
#[derive(Debug)]
pub struct ManifestFile {
    pub title: String,
    pub screen_mode: ScreenMode,
    pub services: Vec<Service>,
    pub sheets: Vec<String>,
    pub maps: Vec<String>,
}

/// What a TOML parser said of a file, and the byte where it said so.
#[derive(Debug)]
pub struct ParseError {
    pub message: String,
    pub start: Option<usize>,
}

#[derive(Debug, Clone, PartialEq, Eq)]
pub struct ManifestError {
    pub message: String,
    pub line: Option<u32>,
}

impl ManifestError {
    pub const CODE: &'static str = "manifest_error";

    /// Whether the error says something of a line.
    pub open spec fn says(self, message: Seq<char>, line: Option<u32>) -> bool {
        self.message@ == message && self.line == line
    }

    pub fn text(&self) -> (s: String)
        ensures
            s@ == self.message@,
    {
        self.message.clone()
    }
}

/// Largest manifest accepted, well above anything reasonable.
pub const MAX_MANIFEST_BYTES: usize = 64 * 1024;

/// The line feeds among bytes.
pub open spec fn newlines(b: Seq<u8>) -> int
    decreases b.len(),
{
    if b.len() == 0 {
        0
    } else {
        newlines(b.drop_last()) + (if b.last() == 10 {
            1int
        } else {
            0
        })
    }
}

/// The one-based line of a byte of a text.
pub open spec fn line_of(text: Seq<char>, start: int) -> int {
    let b = encode_utf8(text);
    newlines(b.take(if start < b.len() {
        start
    } else {
        b.len() as int
    })) + 1
}

pub fn line_at(text: &str, start: usize) -> (n: u32)
    requires
        encode_utf8(text@).len() <= MAX_MANIFEST_BYTES,
    ensures
        n == line_of(text@, start as int),
{
    let b = text.as_bytes();
    let end: usize = if start < b.len() { start } else { b.len() };
    let mut n: u32 = 1;
    let mut i: usize = 0;
    assert(b@.take(0) =~= seq![]);
    while i < end
        invariant
            i <= end <= b@.len() <= MAX_MANIFEST_BYTES,
            1 <= n <= i + 1,
            n == newlines(b@.take(i as int)) + 1,
        decreases end - i,
    {
        assert(b@.take(i + 1).drop_last() =~= b@.take(i as int));
        if b[i] == 10 {
            n += 1;
        }
        i += 1;
    }
    n
}

/// The first name from `i` on that is no asset name.
pub open spec fn bad_name_from(names: Seq<Seq<char>>, i: int) -> Option<Seq<char>>
    decreases names.len() - i,
{
    if i >= names.len() {
        None
    } else if !is_asset_name(names[i]) {
        Some(names[i])
    } else {
        bad_name_from(names, i + 1)
    }
}

pub open spec fn bad_name_text(what: Seq<char>, name: Seq<char>) -> Seq<char> {
    "preload."@ + what + " entry "@ + quoted(name)
        + " must be letters, digits, '_' or '-'"@
}

fn check_names(names: &Vec<String>, what: &str) -> (r: Result<(), ManifestError>)
    ensures
        match (r, bad_name_from(texts(names@), 0)) {
            (Ok(_), None) => true,
            (Err(e), Some(n)) => e.says(bad_name_text(what@, n), None),
            _ => false,
        },
{
    let ghost all = texts(names@);
    let mut i: usize = 0;
    while i < names.len()
        invariant
            i <= names@.len(),
            all == texts(names@),
            bad_name_from(all, 0) == bad_name_from(all, i as int),
        decreases names.len() - i,
    {
        assert(all[i as int] == names@[i as int]@);
        if !valid_asset_name(names[i].as_str()) {
            let mut m = "preload.".to_owned();
            m.append(what);
            m.append(" entry ");
            let q = quote(names[i].as_str());
            m.append(q.as_str());
            m.append(" must be letters, digits, '_' or '-'");
            assert(m@ =~= bad_name_text(what@, names@[i as int]@));
            return Err(ManifestError { message: m, line: None });
        }
        i += 1;
    }
    Ok(())
}

/// A list without the entries that repeat the one before them.
pub open spec fn deduped(s: Seq<Service>) -> Seq<Service>
    decreases s.len(),
{
    if s.len() <= 1 {
        s
    } else if s[s.len() - 1] == s[s.len() - 2] {
        deduped(s.drop_last())
    } else {
        deduped(s.drop_last()).push(s.last())
    }
}

fn dedup(v: &Vec<Service>) -> (r: Vec<Service>)
    ensures
        r@ == deduped(v@),
{
    let mut r: Vec<Service> = Vec::new();
    let mut i: usize = 0;
    assert(v@.take(0) =~= seq![]);
    while i < v.len()
        invariant
            i <= v@.len(),
            r@ == deduped(v@.take(i as int)),
        decreases v.len() - i,
    {
        let ghost t = v@.take(i + 1);
        assert(t.drop_last() =~= v@.take(i as int));
        if i == 0 {
            assert(t =~= seq![v@[0]]);
            assert(r@ =~= seq![]);
            r.push(v[i]);
            assert(r@ =~= t);
        } else if v[i] != v[i - 1] {
            r.push(v[i]);
        }
        i += 1;
    }
    assert(v@.take(i as int) =~= v@);
    r
}

/// What a manifest's text and its tables give: the manifest, or what is
/// wrong and where.
pub open spec fn manifest_of(text: Seq<char>, parsed: Result<ManifestFile, ParseError>) -> Result<
    ManifestView,
    (Seq<char>, Option<int>),
> {
    if encode_utf8(text).len() > MAX_MANIFEST_BYTES {
        Err(("cart.toml is larger than 65536 bytes"@, None))
    } else {
        match parsed {
            Err(e) => Err(
                (
                    e.message@,
                    match e.start {
                        Some(at) => Some(line_of(text, at as int)),
                        None => None,
                    },
                ),
            ),
            Ok(f) => match bad_name_from(texts(f.sheets@), 0) {
                Some(n) => Err((bad_name_text("sheets"@, n), None)),
                None => match bad_name_from(texts(f.maps@), 0) {
                    Some(n) => Err((bad_name_text("maps"@, n), None)),
                    None => Ok(
                        ManifestView {
                            title: f.title@,
                            screen_mode: f.screen_mode,
                            preload_sheets: texts(f.sheets@),
                            preload_maps: texts(f.maps@),
                            services: deduped(f.services@),
                        },
                    ),
                },
            },
        }
    }
}

impl Manifest {
    pub fn has_service(&self, s: Service) -> (r: bool)
        ensures
            r == self@.services.contains(s),
    {
        let mut i: usize = 0;
        while i < self.services.len()
            invariant
                i <= self.services@.len(),
                forall|j: int| 0 <= j < i ==> self.services@[j] != s,
            decreases self.services.len() - i,
        {
            if self.services[i] == s {
                assert(self.services@[i as int] == s);
                return true;
            }
            i += 1;
        }
        false
    }

    /// The manifest of a file, from its text and what a TOML parser made
    /// of it.
    pub fn parse(text: &str, parsed: Result<ManifestFile, ParseError>) -> (r: Result<
        Manifest,
        ManifestError,
    >)
        ensures
            match (r, manifest_of(text@, parsed)) {
                (Ok(m), Ok(v)) => m@ == v,
                (Err(e), Err((message, line))) => e.message@ == message && match (e.line, line) {
                    (Some(a), Some(b)) => a == b,
                    (None, None) => true,
                    _ => false,
                },
                _ => false,
            },
    {
        if text.as_bytes().len() > MAX_MANIFEST_BYTES {
            return Err(
                ManifestError {
                    message: "cart.toml is larger than 65536 bytes".to_owned(),
                    line: None,
                },
            );
        }
        match parsed {
            Err(e) => {
                let line = match e.start {
                    Some(at) => Some(line_at(text, at)),
                    None => None,
                };
                Err(ManifestError { message: e.message, line })
            },
            Ok(f) => {
                if let Err(e) = check_names(&f.sheets, "sheets") {
                    return Err(e);
                }
                if let Err(e) = check_names(&f.maps, "maps") {
                    return Err(e);
                }
                let services = dedup(&f.services);
                Ok(
                    Manifest {
                        title: f.title,
                        screen_mode: f.screen_mode,
                        preload_sheets: f.sheets,
                        preload_maps: f.maps,
                        services,
                    },
                )
            },
        }
    }
}

/// Every name that a manifest preloads is an asset name.
pub proof fn law_preloaded_names_are_asset_names(
    text: Seq<char>,
    parsed: Result<ManifestFile, ParseError>,
    i: int,
)
    requires
        manifest_of(text, parsed) is Ok,
    ensures
        ({
            let m = manifest_of(text, parsed)->Ok_0;
            &&& 0 <= i < m.preload_sheets.len() ==> is_asset_name(m.preload_sheets[i])
            &&& 0 <= i < m.preload_maps.len() ==> is_asset_name(m.preload_maps[i])
        }),
{
    let m = manifest_of(text, parsed)->Ok_0;
    if 0 <= i < m.preload_sheets.len() {
        lemma_no_bad_name(m.preload_sheets, 0, i);
    }
    if 0 <= i < m.preload_maps.len() {
        lemma_no_bad_name(m.preload_maps, 0, i);
    }
}

proof fn lemma_no_bad_name(names: Seq<Seq<char>>, k: int, i: int)
    requires
        bad_name_from(names, k) is None,
        0 <= k <= i < names.len(),
    ensures
        is_asset_name(names[i]),
    decreases names.len() - k,
{
    if k < i {
        lemma_no_bad_name(names, k + 1, i);
    }
}

/// Whether a byte is an ASCII letter, digit, `_` or `-`.
pub open spec fn is_name_byte(b: u8) -> bool {
    ||| 48 <= b <= 57
    ||| 65 <= b <= 90
    ||| 97 <= b <= 122
    ||| b == 95
    ||| b == 45
}

/// Asset names are a single path component without an extension: one to
/// 64 letters, digits, `_` or `-`.
pub open spec fn is_asset_name(name: Seq<char>) -> bool {
    let b = encode_utf8(name);
    &&& 0 < b.len() <= 64
    &&& forall|i: int| 0 <= i < b.len() ==> is_name_byte(#[trigger] b[i])
}

/// Asset names are a single path component without an extension.
pub fn valid_asset_name(name: &str) -> (r: bool)
    ensures
        r == is_asset_name(name@),
{
    let b = name.as_bytes();
    if b.len() == 0 || b.len() > 64 {
        return false;
    }
    let mut i: usize = 0;
    while i < b.len()
        invariant
            i <= b@.len(),
            b@ == encode_utf8(name@),
            forall|j: int| 0 <= j < i ==> is_name_byte(#[trigger] b@[j]),
        decreases b.len() - i,
    {
        let c = b[i];
        if !((48 <= c && c <= 57) || (65 <= c && c <= 90) || (97 <= c && c <= 122) || c == 95 || c
            == 45) {
            assert(!is_name_byte(b@[i as int]));
            return false;
        }
        i += 1;
    }
    true
}

} // verus!
