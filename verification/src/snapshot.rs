//! A cart's files as one value: names and contents, within limits.

use vstd::prelude::*;
use vstd::string::*;
use crate::text::str_eq;

verus! {

/// Bounds on what a snapshot may hold.
#[derive(Debug, Clone, Copy, PartialEq, Eq, Structural)]
pub struct SnapshotLimits {
    pub max_files: usize,
    pub max_file_bytes: usize,
    pub max_total_bytes: usize,
}

/// Files a snapshot may hold by default.
pub const MAX_FILES: usize = 1024;

/// Bytes one file may hold by default.
pub const MAX_FILE_BYTES: usize = 16 * 1024 * 1024;

/// Bytes all files together may hold by default.
pub const MAX_TOTAL_BYTES: usize = 64 * 1024 * 1024;

/// The limits that hold unless others are given.
pub open spec fn default_limits() -> SnapshotLimits {
    SnapshotLimits {
        max_files: MAX_FILES,
        max_file_bytes: MAX_FILE_BYTES,
        max_total_bytes: MAX_TOTAL_BYTES,
    }
}

impl Default for SnapshotLimits {
    fn default() -> (l: SnapshotLimits)
        ensures
            l == default_limits(),
    {
        SnapshotLimits {
            max_files: MAX_FILES,
            max_file_bytes: MAX_FILE_BYTES,
            max_total_bytes: MAX_TOTAL_BYTES,
        }
    }
}

/// A name and the bytes under it.
pub type Entry = (Seq<char>, Seq<u8>);

/// The entries of a list of named byte vectors.
pub open spec fn entries_of(v: Seq<(String, Vec<u8>)>) -> Seq<Entry> {
    v.map_values(|e: (String, Vec<u8>)| (e.0@, e.1@))
}

/// Why a snapshot was refused: the entry, and the reason.
#[derive(Debug, Clone, PartialEq, Eq)]
pub struct SnapshotError {
    pub path: String,
    pub message: String,
}

impl SnapshotError {
    /// `path: message`.
    pub fn text(&self) -> (s: String)
        ensures
            s@ == self.path@ + ": "@ + self.message@,
    {
        let mut s = self.path.clone();
        s.append(": ");
        s.append(self.message.as_str());
        s
    }
}

/// The bytes of the first `n` entries.
pub open spec fn bytes_before(e: Seq<Entry>, n: int) -> nat
    decreases n,
{
    if n <= 0 {
        0
    } else {
        bytes_before(e, n - 1) + e[n - 1].1.len()
    }
}

/// Whether a name occurs among the first `n` entries.
pub open spec fn named_before(e: Seq<Entry>, n: int, name: Seq<char>) -> bool {
    exists|j: int| 0 <= j < n && (#[trigger] e[j]).0 == name
}

/// The bytes of the first file of a name among the entries from `i` on.
pub open spec fn file_from(e: Seq<Entry>, name: Seq<char>, i: int) -> Option<Seq<u8>>
    decreases e.len() - i,
{
    if i >= e.len() {
        None
    } else if e[i].0 == name {
        Some(e[i].1)
    } else {
        file_from(e, name, i + 1)
    }
}

/// What is wrong with the entries from `i` on: the first that repeats a
/// name, is too large, or makes the whole too large.
pub open spec fn refusal_from(e: Seq<Entry>, limits: SnapshotLimits, i: int) -> Option<
    (Seq<char>, Seq<char>),
>
    decreases e.len() - i,
{
    if i >= e.len() {
        None
    } else if named_before(e, i, e[i].0) {
        Some((e[i].0, "the name appears twice"@))
    } else if e[i].1.len() > limits.max_file_bytes {
        Some((e[i].0, "the file is too large"@))
    } else if bytes_before(e, i + 1) > limits.max_total_bytes {
        Some((e[i].0, "the cart is too large"@))
    } else {
        refusal_from(e, limits, i + 1)
    }
}

/// Why these entries make no snapshot, if they do not.
pub open spec fn refusal(e: Seq<Entry>, limits: SnapshotLimits) -> Option<(Seq<char>, Seq<char>)> {
    if e.len() > limits.max_files {
        Some((e[limits.max_files as int].0, "the cart has too many files"@))
    } else {
        refusal_from(e, limits, 0)
    }
}

/// A cart's files, each name once, within the limits it was made with.
#[derive(Debug, Clone, PartialEq, Eq)]
pub struct Snapshot {
    entries: Vec<(String, Vec<u8>)>,
}

impl View for Snapshot {
    type V = Seq<Entry>;

    closed spec fn view(&self) -> Seq<Entry> {
        entries_of(self.entries@)
    }
}

impl Snapshot {
    /// A cart without files.
    pub fn empty() -> (s: Snapshot)
        ensures
            s@ == Seq::<Entry>::empty(),
    {
        let s = Snapshot { entries: Vec::new() };
        assert(s@ =~= Seq::<Entry>::empty());
        s
    }

    /// The snapshot of these entries, or the first reason against it.
    pub fn from_entries(entries: Vec<(String, Vec<u8>)>, limits: SnapshotLimits) -> (r: Result<
        Snapshot,
        SnapshotError,
    >)
        ensures
            match (r, refusal(entries_of(entries@), limits)) {
                (Ok(s), None) => s@ == entries_of(entries@),
                (Err(e), Some((path, message))) => e.path@ == path && e.message@ == message,
                _ => false,
            },
    {
        let ghost all = entries_of(entries@);
        if entries.len() > limits.max_files {
            return Err(
                SnapshotError {
                    path: entries[limits.max_files].0.clone(),
                    message: "the cart has too many files".to_owned(),
                },
            );
        }
        let mut total: usize = 0;
        let mut i: usize = 0;
        while i < entries.len()
            invariant
                i <= entries@.len(),
                all == entries_of(entries@),
                refusal(all, limits) == refusal_from(all, limits, i as int),
                total == bytes_before(all, i as int),
                total <= limits.max_total_bytes,
            decreases entries.len() - i,
        {
            let name = &entries[i].0;
            let mut j: usize = 0;
            while j < i
                invariant
                    j <= i < entries@.len(),
                    all == entries_of(entries@),
                    name@ == all[i as int].0,
                    forall|k: int| 0 <= k < j ==> (#[trigger] all[k]).0 != name@,
                    refusal(all, limits) == refusal_from(all, limits, i as int),
                decreases i - j,
            {
                if str_eq(entries[j].0.as_str(), name.as_str()) {
                    assert(all[j as int].0 == name@);
                    assert(named_before(all, i as int, all[i as int].0));
                    return Err(
                        SnapshotError {
                            path: name.clone(),
                            message: "the name appears twice".to_owned(),
                        },
                    );
                }
                j += 1;
            }
            assert(!named_before(all, i as int, all[i as int].0));
            let n = entries[i].1.len();
            if n > limits.max_file_bytes {
                return Err(
                    SnapshotError {
                        path: name.clone(),
                        message: "the file is too large".to_owned(),
                    },
                );
            }
            if n > limits.max_total_bytes - total {
                return Err(
                    SnapshotError {
                        path: name.clone(),
                        message: "the cart is too large".to_owned(),
                    },
                );
            }
            total = total + n;
            i += 1;
        }
        Ok(Snapshot { entries })
    }

    /// Number of files.
    pub fn len(&self) -> (n: usize)
        ensures
            n == self@.len(),
    {
        self.entries.len()
    }

    pub fn entries(&self) -> (e: &Vec<(String, Vec<u8>)>)
        ensures
            entries_of(e@) == self@,
    {
        &self.entries
    }

    /// The bytes of the file of this name: the first with it.
    pub fn get(&self, name: &str) -> (r: Option<&Vec<u8>>)
        ensures
            match (r, file_from(self@, name@, 0)) {
                (Some(data), Some(b)) => data@ == b,
                (None, None) => true,
                _ => false,
            },
    {
        let mut i: usize = 0;
        while i < self.entries.len()
            invariant
                i <= self.entries@.len(),
                file_from(self@, name@, 0) == file_from(self@, name@, i as int),
            decreases self.entries.len() - i,
        {
            assert(self@[i as int] == (self.entries@[i as int].0@, self.entries@[i as int].1@));
            if str_eq(self.entries[i].0.as_str(), name) {
                return Some(&self.entries[i].1);
            }
            i += 1;
        }
        None
    }
}

} // verus!
