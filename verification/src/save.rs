//! Save slots. A store holds eight slots of bounded bytes; the cart never
//! sees a path. [`MemoryStore`] is the default and what headless runs use;
//! [`WriteThroughStore`] decides what a host with a disk behind it does.

use vstd::prelude::*;
use vstd::slice::*;
use vstd::string::*;
use vstd::utf8::*;
use crate::text::{dec, hex, push_dec, push_hex};

verus! {

/// Slots per cart, numbered 0 to `SLOT_COUNT - 1`.
pub const SLOT_COUNT: u8 = 8;

/// Most bytes one slot holds.
pub const SLOT_BYTES: usize = 256 * 1024;

#[derive(Debug, Clone, PartialEq, Eq)]
pub struct SaveError {
    /// Stable code: `save_slot`, `save_size` or `save_io`.
    pub code: &'static str,
    pub message: String,
}

/// A code and a message.
pub struct SaveErrorView {
    pub code: Seq<char>,
    pub message: Seq<char>,
}

impl View for SaveError {
    type V = SaveErrorView;

    open spec fn view(&self) -> SaveErrorView {
        SaveErrorView { code: self.code@, message: self.message@ }
    }
}

impl SaveError {
    pub const SLOT: &'static str = "save_slot";
    pub const SIZE: &'static str = "save_size";
    pub const IO: &'static str = "save_io";

    pub fn new(code: &'static str, message: &str) -> (e: SaveError)
        ensures
            e@ == (SaveErrorView { code: code@, message: message@ }),
    {
        SaveError { code, message: message.to_owned() }
    }

    /// A failure of the disk: what was tried, and what came of it.
    pub fn io(what: &str, e: &str) -> (r: SaveError)
        ensures
            r@ == (SaveErrorView { code: "save_io"@, message: what@ + ": "@ + e@ }),
    {
        let mut m = what.to_owned();
        m.append(": ");
        m.append(e);
        SaveError { code: Self::IO, message: m }
    }

    /// The code, then the message.
    pub fn text(&self) -> (s: String)
        ensures
            s@ == self@.code + ": "@ + self@.message,
    {
        let mut s = self.code.to_owned();
        s.append(": ");
        s.append(self.message.as_str());
        s
    }
}

pub open spec fn bad_slot(slot: u8) -> SaveErrorView {
    SaveErrorView {
        code: "save_slot"@,
        message: "slot "@ + dec(slot as nat) + " is not 0 to "@ + dec(7),
    }
}

pub open spec fn bad_size(len: int) -> SaveErrorView {
    SaveErrorView {
        code: "save_size"@,
        message: dec(len as nat) + " bytes is more than a slot holds ("@ + dec(SLOT_BYTES as nat)
            + ")"@,
    }
}

/// Check a slot number, for every store.
pub fn check_slot(slot: u8) -> (r: Result<(), SaveError>)
    ensures
        match r {
            Ok(_) => slot < SLOT_COUNT,
            Err(e) => slot >= SLOT_COUNT && e@ == bad_slot(slot),
        },
{
    if slot < SLOT_COUNT {
        Ok(())
    } else {
        let mut m = "slot ".to_owned();
        push_dec(&mut m, slot as u64);
        m.append(" is not 0 to ");
        push_dec(&mut m, (SLOT_COUNT - 1) as u64);
        Err(SaveError { code: SaveError::SLOT, message: m })
    }
}

/// Check a payload size, for every store.
pub fn check_size(len: usize) -> (r: Result<(), SaveError>)
    ensures
        match r {
            Ok(_) => len <= SLOT_BYTES,
            Err(e) => len > SLOT_BYTES && e@ == bad_size(len as int),
        },
{
    if len <= SLOT_BYTES {
        Ok(())
    } else {
        let mut m = String::new();
        push_dec(&mut m, len as u64);
        m.append(" bytes is more than a slot holds (");
        push_dec(&mut m, SLOT_BYTES as u64);
        m.append(")");
        assert(m@ =~= bad_size(len as int).message);
        Err(SaveError { code: SaveError::SIZE, message: m })
    }
}

/// The error of writing some bytes to a slot, if there is one. It does not
/// depend on the host.
pub open spec fn write_refusal(slot: u8, len: int) -> Option<SaveErrorView> {
    if slot >= SLOT_COUNT {
        Some(bad_slot(slot))
    } else if len > SLOT_BYTES {
        Some(bad_size(len))
    } else {
        None
    }
}

/// Slots that live and die with the console.
#[derive(Debug)]
pub struct MemoryStore {
    slots: Vec<Option<Vec<u8>>>,
}

/// A slot as plain values.
pub open spec fn slot_view(s: Option<Vec<u8>>) -> Option<Seq<u8>> {
    match s {
        Some(v) => Some(v@),
        None => None,
    }
}

impl View for MemoryStore {
    type V = Seq<Option<Seq<u8>>>;

    closed spec fn view(&self) -> Seq<Option<Seq<u8>>> {
        Seq::new(self.slots@.len(), |i: int| slot_view(self.slots@[i]))
    }
}

/// Eight slots that were never written.
pub open spec fn blank() -> Seq<Option<Seq<u8>>> {
    Seq::new(8, |i: int| None::<Seq<u8>>)
}

/// Slots as pairs.
pub open spec fn pairs_view(p: Seq<(u8, Vec<u8>)>) -> Seq<(u8, Seq<u8>)> {
    Seq::new(p.len(), |i: int| (p[i].0, p[i].1@))
}

/// The slots once some pairs were written to them from `i` on, or the first
/// that is refused.
pub open spec fn filled(
    slots: Seq<Option<Seq<u8>>>,
    pairs: Seq<(u8, Seq<u8>)>,
    i: int,
) -> Result<Seq<Option<Seq<u8>>>, SaveErrorView>
    decreases pairs.len() - i,
{
    if i < 0 || i >= pairs.len() {
        Ok(slots)
    } else {
        match write_refusal(pairs[i].0, pairs[i].1.len() as int) {
            Some(e) => Err(e),
            None => filled(slots.update(pairs[i].0 as int, Some(pairs[i].1)), pairs, i + 1),
        }
    }
}

/// The pairs of the slots that hold bytes, from slot `i` on.
pub open spec fn held(slots: Seq<Option<Seq<u8>>>, i: int) -> Seq<(u8, Seq<u8>)>
    decreases slots.len() - i,
{
    if i < 0 || i >= slots.len() {
        seq![]
    } else {
        match slots[i] {
            Some(b) => seq![(i as u8, b)] + held(slots, i + 1),
            None => held(slots, i + 1),
        }
    }
}

impl MemoryStore {
    #[verifier::type_invariant]
    spec fn inv(self) -> bool {
        &&& self.slots@.len() == 8
        &&& forall|i: int|
            0 <= i < 8 ==> ((#[trigger] self.slots@[i]) matches Some(v) ==> v@.len() <= SLOT_BYTES)
    }

    pub fn new() -> (m: MemoryStore)
        ensures
            m@ == blank(),
    {
        let mut slots: Vec<Option<Vec<u8>>> = Vec::new();
        let mut i: usize = 0;
        while i < 8
            invariant
                i <= 8,
                slots@.len() == i,
                forall|k: int| 0 <= k < i ==> #[trigger] slots@[k] is None,
            decreases 8 - i,
        {
            slots.push(None);
            i += 1;
        }
        let m = MemoryStore { slots };
        assert(m@ =~= blank());
        m
    }

    /// A store holding `slots`; a bad slot number or an oversized entry is
    /// refused, so bytes from another process are checked here.
    pub fn from_slots(slots: &Vec<(u8, Vec<u8>)>) -> (r: Result<MemoryStore, SaveError>)
        ensures
            match (r, filled(blank(), pairs_view(slots@), 0)) {
                (Ok(m), Ok(s)) => m@ == s,
                (Err(e), Err(v)) => e@ == v,
                _ => false,
            },
    {
        let mut store = MemoryStore::new();
        let ghost pairs = pairs_view(slots@);
        let mut i: usize = 0;
        while i < slots.len()
            invariant
                i <= slots@.len(),
                pairs == pairs_view(slots@),
                filled(blank(), pairs, 0) == filled(store@, pairs, i as int),
            decreases slots.len() - i,
        {
            assert(pairs[i as int] == (slots@[i as int].0, slots@[i as int].1@));
            if let Err(e) = store.write(slots[i].0, slots[i].1.as_slice()) {
                return Err(e);
            }
            i += 1;
        }
        Ok(store)
    }

    /// The bytes of a slot, or `None` when it has never been written.
    pub fn read(&self, slot: u8) -> (r: Result<Option<Vec<u8>>, SaveError>)
        ensures
            match r {
                Ok(b) => slot < SLOT_COUNT && slot_view(b) == self@[slot as int],
                Err(e) => slot >= SLOT_COUNT && e@ == bad_slot(slot),
            },
    {
        proof {
            use_type_invariant(self);
        }
        if let Err(e) = check_slot(slot) {
            return Err(e);
        }
        match &self.slots[slot as usize] {
            Some(v) => Ok(Some(slice_to_vec(v.as_slice()))),
            None => Ok(None),
        }
    }

    /// Replace a slot's bytes.
    pub fn write(&mut self, slot: u8, bytes: &[u8]) -> (r: Result<(), SaveError>)
        ensures
            match (r, write_refusal(slot, bytes@.len() as int)) {
                (Ok(_), None) => final(self)@ == old(self)@.update(slot as int, Some(bytes@)),
                (Err(e), Some(v)) => e@ == v && final(self)@ == old(self)@,
                _ => false,
            },
    {
        if let Err(e) = check_slot(slot) {
            return Err(e);
        }
        if let Err(e) = check_size(bytes.len()) {
            return Err(e);
        }
        let mut rest = MemoryStore::new();
        std::mem::swap(&mut rest, self);
        self.take_slots(rest, slot, bytes);
        Ok(())
    }

    /// The slots of another store, one of them replaced.
    fn take_slots(&mut self, other: MemoryStore, slot: u8, bytes: &[u8])
        requires
            slot < SLOT_COUNT,
            bytes@.len() <= SLOT_BYTES,
        ensures
            final(self)@ == other@.update(slot as int, Some(bytes@)),
    {
        proof {
            use_type_invariant(&other);
        }
        let mut slots = other.slots;
        slots.set(slot as usize, Some(slice_to_vec(bytes)));
        *self = MemoryStore { slots };
        assert(self@ =~= other@.update(slot as int, Some(bytes@)));
    }

    /// Every slot that holds bytes, in slot order, for a transcript header
    /// or a worker's initial store.
    pub fn all_slots(&self) -> (out: Vec<(u8, Vec<u8>)>)
        ensures
            pairs_view(out@) == held(self@, 0),
    {
        proof {
            use_type_invariant(self);
        }
        let mut out: Vec<(u8, Vec<u8>)> = Vec::new();
        let mut i: usize = 0;
        assert(pairs_view(out@) + held(self@, 0) =~= held(self@, 0));
        while i < 8
            invariant
                i <= 8,
                self.slots@.len() == 8,
                pairs_view(out@) + held(self@, i as int) =~= held(self@, 0),
            decreases 8 - i,
        {
            assert(self@[i as int] == slot_view(self.slots@[i as int]));
            if let Some(v) = &self.slots[i] {
                let ghost before = pairs_view(out@);
                out.push((i as u8, slice_to_vec(v.as_slice())));
                assert(pairs_view(out@) =~= before.push((i as u8, v@)));
                assert(before + (seq![(i as u8, v@)] + held(self@, i + 1)) =~= pairs_view(out@)
                    + held(self@, i + 1));
            }
            i += 1;
        }
        assert(pairs_view(out@) + Seq::<(u8, Seq<u8>)>::empty() =~= pairs_view(out@));
        out
    }
}

/// A slot gives back what was written to it, and the other slots keep what
/// they held.
pub proof fn law_a_slot_gives_back_what_was_written(
    slots: Seq<Option<Seq<u8>>>,
    slot: u8,
    bytes: Seq<u8>,
    other: u8,
)
    requires
        slots.len() == 8,
        write_refusal(slot, bytes.len() as int) is None,
        other < SLOT_COUNT,
    ensures
        slots.update(slot as int, Some(bytes))[slot as int] == Some(bytes),
        other != slot ==> slots.update(slot as int, Some(bytes))[other as int]
            == slots[other as int],
{
}

/// Whether every one of the first `n` pairs can be written.
pub open spec fn writable(pairs: Seq<(u8, Seq<u8>)>, n: int) -> bool {
    forall|i: int|
        0 <= i < n ==> (#[trigger] pairs[i]).0 < SLOT_COUNT && pairs[i].1.len() <= SLOT_BYTES
}

/// The bytes of the last of the first `n` pairs for a slot, if there is
/// one.
pub open spec fn last_for(pairs: Seq<(u8, Seq<u8>)>, n: int, slot: u8) -> Option<Seq<u8>>
    decreases n,
{
    if n <= 0 {
        None
    } else if pairs[n - 1].0 == slot {
        Some(pairs[n - 1].1)
    } else {
        last_for(pairs, n - 1, slot)
    }
}

/// A store is made of pairs exactly if each can be written: a slot then
/// holds the bytes of the last pair for it, or nothing. Otherwise the
/// error is that of the first bad pair.
pub proof fn law_a_store_is_made_of_its_pairs(pairs: Seq<(u8, Seq<u8>)>, slot: u8, bad: int)
    requires
        slot < SLOT_COUNT,
    ensures
        filled(blank(), pairs, 0) is Ok <==> writable(pairs, pairs.len() as int),
        filled(blank(), pairs, 0) matches Ok(s) ==> s.len() == 8 && s[slot as int] == last_for(
            pairs,
            pairs.len() as int,
            slot,
        ),
        0 <= bad < pairs.len() && writable(pairs, bad) && !writable(pairs, bad + 1) ==> filled(
            blank(),
            pairs,
            0,
        ) == Err::<Seq<Option<Seq<u8>>>, SaveErrorView>(
            if pairs[bad].0 >= SLOT_COUNT {
                bad_slot(pairs[bad].0)
            } else {
                bad_size(pairs[bad].1.len() as int)
            },
        ),
{
    lemma_filling(blank(), pairs, 0, slot, bad);
}

proof fn lemma_filling(
    have: Seq<Option<Seq<u8>>>,
    pairs: Seq<(u8, Seq<u8>)>,
    i: int,
    slot: u8,
    bad: int,
)
    requires
        0 <= i <= pairs.len(),
        slot < SLOT_COUNT,
        have.len() == 8,
        have[slot as int] == last_for(pairs, i, slot),
        writable(pairs, i),
    ensures
        filled(have, pairs, i) is Ok <==> writable(pairs, pairs.len() as int),
        filled(have, pairs, i) matches Ok(s) ==> s.len() == 8 && s[slot as int] == last_for(
            pairs,
            pairs.len() as int,
            slot,
        ),
        i <= bad < pairs.len() && writable(pairs, bad) && !writable(pairs, bad + 1) ==> filled(
            have,
            pairs,
            i,
        ) == Err::<Seq<Option<Seq<u8>>>, SaveErrorView>(
            if pairs[bad].0 >= SLOT_COUNT {
                bad_slot(pairs[bad].0)
            } else {
                bad_size(pairs[bad].1.len() as int)
            },
        ),
    decreases pairs.len() - i,
{
    if i < pairs.len() {
        if write_refusal(pairs[i].0, pairs[i].1.len() as int) is None {
            assert(writable(pairs, i + 1));
            lemma_filling(
                have.update(pairs[i].0 as int, Some(pairs[i].1)),
                pairs,
                i + 1,
                slot,
                bad,
            );
        } else {
            if i < bad {
                assert(!writable(pairs, bad));
            }
        }
    }
}

/// The pairs that a store gives rebuild it.
pub proof fn law_all_slots_rebuild_the_store(slots: Seq<Option<Seq<u8>>>)
    requires
        slots.len() == 8,
        forall|i: int|
            0 <= i < 8 ==> ((#[trigger] slots[i]) matches Some(v) ==> v.len() <= SLOT_BYTES),
    ensures
        filled(blank(), held(slots, 0), 0) == Ok::<Seq<Option<Seq<u8>>>, SaveErrorView>(slots),
{
    lemma_rebuild(blank(), slots, 0, seq![]);
    assert(seq![] + held(slots, 0) =~= held(slots, 0));
}

proof fn lemma_rebuild(
    have: Seq<Option<Seq<u8>>>,
    slots: Seq<Option<Seq<u8>>>,
    i: int,
    done: Seq<(u8, Seq<u8>)>,
)
    requires
        slots.len() == 8,
        have.len() == 8,
        0 <= i <= 8,
        forall|k: int|
            0 <= k < 8 ==> ((#[trigger] slots[k]) matches Some(v) ==> v.len() <= SLOT_BYTES),
        forall|k: int| 0 <= k < i ==> #[trigger] have[k] == slots[k],
        forall|k: int| i <= k < 8 ==> #[trigger] have[k] is None,
    ensures
        filled(have, done + held(slots, i), done.len() as int) == Ok::<
            Seq<Option<Seq<u8>>>,
            SaveErrorView,
        >(slots),
    decreases 8 - i,
{
    if i >= 8 {
        assert(have =~= slots);
    } else {
        match slots[i] {
            Some(b) => {
                let p = (i as u8, b);
                let next = have.update(i, Some(b));
                let all = done + held(slots, i);
                assert(all =~= done.push(p) + held(slots, i + 1));
                lemma_rebuild(next, slots, i + 1, done.push(p));
                assert(all[done.len() as int] == p);
            },
            None => {
                assert(have[i] is None);
                lemma_rebuild(have, slots, i + 1, done);
            },
        }
    }
}

/// Most disk failures a write-through store keeps before dropping the
/// oldest.
pub const MAX_KEPT_FAILURES: usize = 16;

/// Memory semantics for the cart, persistence behind it. Reads and writes
/// go to a [`MemoryStore`] seeded from the disk when the store is built;
/// each write is then to be forwarded to the disk, and a failure there is
/// kept for the host to report through `take_failures` rather than shown
/// to the cart. That makes a cart's save results the same on every desktop
/// path and in a replay: the only errors a write can return are the slot
/// and size checks, which do not depend on the host.
///
/// A slot that could not be read when the store was built starts empty for
/// the cart, but its disk file is left alone: a write to it stays in
/// memory and is reported as a failure, so a locked or oversized slot file
/// is never replaced by the fresh game the cart started because it saw
/// nothing there.
#[derive(Debug)]
pub struct WriteThroughStore {
    pub memory: MemoryStore,
    pub failures: Vec<SaveError>,
    /// Slots whose disk file failed to read; writes to them stay in memory.
    pub unreadable: [bool; 8],
}

/// What came of reading the slots from disk.
pub enum Read {
    Bytes(Seq<u8>),
    Nothing,
    Failed(SaveErrorView),
}

/// A read as plain values. More bytes than a slot holds are a read that
/// failed.
pub open spec fn read_view(r: Result<Option<Vec<u8>>, SaveError>) -> Read {
    match r {
        Ok(Some(v)) => if v@.len() <= SLOT_BYTES {
            Read::Bytes(v@)
        } else {
            Read::Failed(bad_size(v@.len() as int))
        },
        Ok(None) => Read::Nothing,
        Err(e) => Read::Failed(e@),
    }
}

pub open spec fn errors_view(v: Seq<SaveError>) -> Seq<SaveErrorView> {
    Seq::new(v.len(), |i: int| v[i]@)
}

/// The failures among some reads, from slot `i` on.
pub open spec fn failed_reads(r: Seq<Result<Option<Vec<u8>>, SaveError>>, i: int) -> Seq<
    SaveErrorView,
>
    decreases r.len() - i,
{
    if i < 0 || i >= r.len() {
        seq![]
    } else {
        match read_view(r[i]) {
            Read::Failed(e) => seq![e] + failed_reads(r, i + 1),
            _ => failed_reads(r, i + 1),
        }
    }
}

/// The failures once one more is kept.
pub open spec fn with_failure(f: Seq<SaveErrorView>, e: SaveErrorView) -> Seq<SaveErrorView> {
    if f.len() >= MAX_KEPT_FAILURES {
        f.skip(1).push(e)
    } else {
        f.push(e)
    }
}

pub open spec fn kept_in_memory(slot: u8) -> SaveErrorView {
    SaveErrorView {
        code: "save_io"@,
        message: "slot "@ + dec(slot as nat)
            + " could not be read at start; the write stays in memory"@,
    }
}

/// A store that was made of what was read of the eight slots: it holds
/// what was read, keeps the errors in the order of the slots, and protects
/// the slots that could not be read.
pub open spec fn seeded(
    s: WriteThroughStore,
    reads: Seq<Result<Option<Vec<u8>>, SaveError>>,
) -> bool {
    &&& errors_view(s.failures@) == failed_reads(reads, 0)
    &&& forall|i: int|
        0 <= i < 8 ==> #[trigger] s.unreadable@[i] == (read_view(reads[i]) is Failed)
    &&& s.memory@.len() == 8
    &&& forall|i: int|
        0 <= i < 8 ==> #[trigger] s.memory@[i] == (match read_view(reads[i]) {
            Read::Bytes(b) => Some(b),
            _ => None,
        })
}

impl WriteThroughStore {
    /// The store after a good write: whether it goes on to disk, and what
    /// is kept of it where it does not.
    pub open spec fn written(&self, o: WriteThroughStore, slot: u8, bytes: Seq<u8>, forward: bool) -> bool {
        &&& self.unreadable == o.unreadable
        &&& self.memory@ == o.memory@.update(slot as int, Some(bytes))
        &&& forward == !o.unreadable@[slot as int]
        &&& errors_view(self.failures@) == (if forward {
            errors_view(o.failures@)
        } else {
            with_failure(errors_view(o.failures@), kept_in_memory(slot))
        })
    }

    /// The store after any of its calls: a good write, or one that leaves
    /// the slots as they were.
    pub open spec fn follows(&self, o: WriteThroughStore) -> bool {
        ||| self.memory@ == o.memory@ && self.unreadable == o.unreadable
        ||| exists|slot: u8, bytes: Seq<u8>, forward: bool| #[trigger]
            self.written(o, slot, bytes, forward) && slot < SLOT_COUNT
    }

    /// Seed from what was read of the disk's eight slots; a slot that
    /// could not be read starts empty, the error is kept, and the slot is
    /// protected from later writes.
    pub fn new(reads: Vec<Result<Option<Vec<u8>>, SaveError>>) -> (s: WriteThroughStore)
        requires
            reads@.len() == 8,
        ensures
            seeded(s, reads@),
    {
        let mut memory = MemoryStore::new();
        let mut failures: Vec<SaveError> = Vec::new();
        let mut unreadable: [bool; 8] = [false; 8];
        let mut i: usize = 0;
        assert(errors_view(failures@) + failed_reads(reads@, 0) =~= failed_reads(reads@, 0));
        while i < 8
            invariant
                i <= 8,
                reads@.len() == 8,
                memory@.len() == 8,
                forall|k: int|
                    0 <= k < 8 ==> #[trigger] unreadable@[k] == (k < i && read_view(
                        reads@[k],
                    ) is Failed),
                forall|k: int|
                    0 <= k < 8 ==> #[trigger] memory@[k] == (match read_view(reads@[k]) {
                        Read::Bytes(b) => if k < i {
                            Some(b)
                        } else {
                            None
                        },
                        _ => None,
                    }),
                errors_view(failures@) + failed_reads(reads@, i as int) =~= failed_reads(reads@, 0),
            decreases 8 - i,
        {
            let failed = match &reads[i] {
                Ok(Some(bytes)) => match memory.write(i as u8, bytes.as_slice()) {
                    Ok(_) => None,
                    Err(e) => Some(e),
                },
                Ok(None) => None,
                Err(e) => Some(SaveError { code: e.code, message: e.message.as_str().to_owned() }),
            };
            if let Some(e) = failed {
                let ghost before = errors_view(failures@);
                let ghost v = e@;
                assert(read_view(reads@[i as int]) == Read::Failed(v));
                failures.push(e);
                assert(errors_view(failures@) =~= before.push(v));
                assert(before + (seq![v] + failed_reads(reads@, i + 1)) =~= errors_view(failures@)
                    + failed_reads(reads@, i + 1));
                unreadable[i] = true;
            }
            i += 1;
        }
        assert(errors_view(failures@) + Seq::<SaveErrorView>::empty() =~= errors_view(failures@));
        WriteThroughStore { memory, failures, unreadable }
    }

    fn keep_failure(&mut self, e: SaveError)
        ensures
            errors_view(final(self).failures@) == with_failure(
                errors_view(old(self).failures@),
                e@,
            ),
            final(self).memory == old(self).memory,
            final(self).unreadable == old(self).unreadable,
    {
        if self.failures.len() >= MAX_KEPT_FAILURES {
            self.failures.remove(0);
        }
        self.failures.push(e);
        assert(errors_view(self.failures@) =~= with_failure(errors_view(old(self).failures@), e@));
    }

    pub fn read(&self, slot: u8) -> (r: Result<Option<Vec<u8>>, SaveError>)
        ensures
            match r {
                Ok(b) => slot < SLOT_COUNT && slot_view(b) == self.memory@[slot as int],
                Err(e) => slot >= SLOT_COUNT && e@ == bad_slot(slot),
            },
    {
        self.memory.read(slot)
    }

    /// Replace a slot's bytes in memory. `Ok(true)` when the host is to
    /// write them to disk, and to say with `disk_failed` if that fails.
    pub fn write(&mut self, slot: u8, bytes: &[u8]) -> (r: Result<bool, SaveError>)
        ensures
            final(self).unreadable == old(self).unreadable,
            match (r, write_refusal(slot, bytes@.len() as int)) {
                (Ok(forward), None) => final(self).written(*old(self), slot, bytes@, forward),
                (Err(e), Some(v)) => e@ == v && final(self).memory@ == old(self).memory@
                    && final(self).failures == old(self).failures,
                _ => false,
            },
    {
        if let Err(e) = self.memory.write(slot, bytes) {
            return Err(e);
        }
        if self.unreadable[slot as usize] {
            let mut m = "slot ".to_owned();
            push_dec(&mut m, slot as u64);
            m.append(" could not be read at start; the write stays in memory");
            self.keep_failure(SaveError { code: SaveError::IO, message: m });
            return Ok(false);
        }
        Ok(true)
    }

    /// A write that was forwarded failed: keep that from the cart.
    pub fn disk_failed(&mut self, e: SaveError)
        ensures
            errors_view(final(self).failures@) == with_failure(
                errors_view(old(self).failures@),
                e@,
            ),
            final(self).memory == old(self).memory,
            final(self).unreadable == old(self).unreadable,
    {
        self.keep_failure(e)
    }

    /// Failures the store kept from the cart, for the host to report.
    pub fn take_failures(&mut self) -> (v: Vec<SaveError>)
        ensures
            v == old(self).failures,
            final(self).failures@.len() == 0,
            final(self).memory == old(self).memory,
            final(self).unreadable == old(self).unreadable,
    {
        let mut v: Vec<SaveError> = Vec::new();
        std::mem::swap(&mut v, &mut self.failures);
        v
    }

    pub fn all_slots(&self) -> (out: Vec<(u8, Vec<u8>)>)
        ensures
            pairs_view(out@) == held(self.memory@, 0),
    {
        self.memory.all_slots()
    }
}

/// A slot that could not be read is never written to disk: whatever was
/// called before, a good write to it is held in memory, where it is read
/// back, and a failure is kept for the host. Every other write goes on.
pub proof fn law_an_unreadable_slot_stays_off_disk(
    reads: Seq<Result<Option<Vec<u8>>, SaveError>>,
    path: Seq<WriteThroughStore>,
    k: int,
    after: WriteThroughStore,
    slot: u8,
    bytes: Seq<u8>,
    forward: bool,
)
    requires
        reads.len() == 8,
        path.len() > 0,
        seeded(path[0], reads),
        forall|i: int| 0 <= i < path.len() - 1 ==> (#[trigger] path[i + 1]).follows(path[i]),
        0 <= k < path.len(),
        slot < SLOT_COUNT,
        after.written(path[k], slot, bytes, forward),
    ensures
        forward == !(read_view(reads[slot as int]) is Failed),
        after.memory@[slot as int] == Some(bytes),
        !forward ==> errors_view(after.failures@).last() == kept_in_memory(slot),
        forward ==> errors_view(after.failures@) == errors_view(path[k].failures@),
{
    lemma_protected(path, k);
    assert(path[0].unreadable@[slot as int] == (read_view(reads[slot as int]) is Failed));
}

proof fn lemma_protected(path: Seq<WriteThroughStore>, k: int)
    requires
        forall|i: int| 0 <= i < path.len() - 1 ==> (#[trigger] path[i + 1]).follows(path[i]),
        0 <= k < path.len(),
        path[0].memory@.len() == 8,
    ensures
        path[k].unreadable == path[0].unreadable,
        path[k].memory@.len() == 8,
    decreases k,
{
    if k > 0 {
        lemma_protected(path, k - 1);
        assert(path[(k - 1) + 1].follows(path[k - 1]));
    }
}

/// The writes to other slots, in order.
pub open spec fn to_others(writes: Seq<(u8, Seq<u8>)>, slot: u8) -> Seq<(u8, Seq<u8>)>
    decreases writes.len(),
{
    if writes.len() == 0 {
        seq![]
    } else {
        let rest = to_others(writes.drop_last(), slot);
        if writes.last().0 != slot {
            rest.push(writes.last())
        } else {
            rest
        }
    }
}

/// A memory store that notes each write, the last one of a slot, for
/// whoever persists them.
#[derive(Debug)]
pub struct RecordingStore {
    pub inner: MemoryStore,
    pub writes: Vec<(u8, Vec<u8>)>,
}

impl RecordingStore {
    pub fn new(inner: MemoryStore) -> (r: RecordingStore)
        ensures
            r.inner == inner,
            r.writes@.len() == 0,
    {
        RecordingStore { inner, writes: Vec::new() }
    }

    /// Replace a slot's bytes and note the write.
    pub fn write(&mut self, slot: u8, bytes: &[u8]) -> (r: Result<(), SaveError>)
        ensures
            match (r, write_refusal(slot, bytes@.len() as int)) {
                (Ok(_), None) => {
                    &&& final(self).inner@ == old(self).inner@.update(slot as int, Some(bytes@))
                    &&& pairs_view(final(self).writes@) == to_others(
                        pairs_view(old(self).writes@),
                        slot,
                    ).push((slot, bytes@))
                },
                (Err(e), Some(v)) => e@ == v && final(self).inner@ == old(self).inner@
                    && final(self).writes == old(self).writes,
                _ => false,
            },
    {
        if let Err(e) = self.inner.write(slot, bytes) {
            return Err(e);
        }
        let mut kept: Vec<(u8, Vec<u8>)> = Vec::new();
        let ghost all = pairs_view(self.writes@);
        let mut i: usize = 0;
        assert(all.take(0) =~= seq![]);
        while i < self.writes.len()
            invariant
                i <= self.writes@.len(),
                all == pairs_view(self.writes@),
                pairs_view(kept@) =~= to_others(all.take(i as int), slot),
            decreases self.writes.len() - i,
        {
            proof {
                let t = all.take(i + 1);
                assert(t.drop_last() =~= all.take(i as int));
                assert(t.last() == (self.writes@[i as int].0, self.writes@[i as int].1@));
            }
            if self.writes[i].0 != slot {
                let ghost before = kept@;
                kept.push((self.writes[i].0, slice_to_vec(self.writes[i].1.as_slice())));
                assert(pairs_view(kept@) =~= pairs_view(before).push(all[i as int]));
            }
            i += 1;
        }
        assert(all.take(i as int) =~= all);
        let ghost before = kept@;
        kept.push((slot, slice_to_vec(bytes)));
        assert(pairs_view(kept@) =~= pairs_view(before).push((slot, bytes@)));
        self.writes = kept;
        Ok(())
    }
}

/// Where a cart's saves go: memory alone, memory in front of a disk that
/// the host writes, or memory with a record of the writes.
#[derive(Debug)]
pub enum SaveStore {
    Memory(MemoryStore),
    Through(WriteThroughStore),
    Recording(RecordingStore),
}

impl SaveStore {
    /// What the slots hold.
    pub open spec fn slots(&self) -> Seq<Option<Seq<u8>>> {
        match self {
            SaveStore::Memory(m) => m@,
            SaveStore::Through(w) => w.memory@,
            SaveStore::Recording(r) => r.inner@,
        }
    }

    /// The failures that were kept from the cart.
    pub open spec fn kept(&self) -> Seq<SaveErrorView> {
        match self {
            SaveStore::Through(w) => errors_view(w.failures@),
            _ => seq![],
        }
    }

    /// Whether a slot's writes go on to disk.
    pub open spec fn on_disk(&self, slot: u8) -> bool {
        match self {
            SaveStore::Through(w) => !w.unreadable@[slot as int],
            _ => false,
        }
    }

    /// The writes that were noted.
    pub open spec fn noted(&self) -> Seq<(u8, Seq<u8>)> {
        match self {
            SaveStore::Recording(r) => pairs_view(r.writes@),
            _ => seq![],
        }
    }

    pub fn read(&self, slot: u8) -> (r: Result<Option<Vec<u8>>, SaveError>)
        ensures
            match r {
                Ok(b) => slot < SLOT_COUNT && slot_view(b) == self.slots()[slot as int],
                Err(e) => slot >= SLOT_COUNT && e@ == bad_slot(slot),
            },
    {
        match self {
            SaveStore::Memory(m) => m.read(slot),
            SaveStore::Through(w) => w.read(slot),
            SaveStore::Recording(r) => r.inner.read(slot),
        }
    }

    /// Replace a slot's bytes. `Ok(true)` when the host is to write them
    /// to disk.
    pub fn write(&mut self, slot: u8, bytes: &[u8]) -> (r: Result<bool, SaveError>)
        ensures
            match (r, write_refusal(slot, bytes@.len() as int)) {
                (Ok(forward), None) => {
                    &&& final(self).slots() == old(self).slots().update(slot as int, Some(bytes@))
                    &&& forward == old(self).on_disk(slot)
                    &&& final(self).kept() == (if forward || *old(self) !is Through {
                        old(self).kept()
                    } else {
                        with_failure(old(self).kept(), kept_in_memory(slot))
                    })
                    &&& *old(self) is Recording ==> final(self).noted() == to_others(
                        old(self).noted(),
                        slot,
                    ).push((slot, bytes@))
                },
                (Err(e), Some(v)) => e@ == v && final(self).slots() == old(self).slots()
                    && final(self).kept() == old(self).kept() && final(self).noted() == old(
                    self,
                ).noted(),
                _ => false,
            },
            (*final(self) is Through) == (*old(self) is Through),
            (*final(self) is Recording) == (*old(self) is Recording),
            forall|s: u8| #[trigger] final(self).on_disk(s) == old(self).on_disk(s),
    {
        match self {
            SaveStore::Memory(m) => match m.write(slot, bytes) {
                Ok(_) => Ok(false),
                Err(e) => Err(e),
            },
            SaveStore::Through(w) => w.write(slot, bytes),
            SaveStore::Recording(r) => match r.write(slot, bytes) {
                Ok(_) => Ok(false),
                Err(e) => Err(e),
            },
        }
    }

    /// Failures the store kept from the cart, for the host to report.
    pub fn take_failures(&mut self) -> (v: Vec<SaveError>)
        ensures
            errors_view(v@) == old(self).kept(),
            final(self).kept() == Seq::<SaveErrorView>::empty(),
            final(self).slots() == old(self).slots(),
            final(self).noted() == old(self).noted(),
            forall|s: u8| #[trigger] final(self).on_disk(s) == old(self).on_disk(s),
    {
        match self {
            SaveStore::Through(w) => {
                let v = w.take_failures();
                assert(errors_view(w.failures@) =~= seq![]);
                v
            },
            _ => {
                let v: Vec<SaveError> = Vec::new();
                assert(errors_view(v@) =~= seq![]);
                v
            },
        }
    }

    /// The writes that were noted since they were last taken.
    pub fn take_writes(&mut self) -> (v: Vec<(u8, Vec<u8>)>)
        ensures
            pairs_view(v@) == old(self).noted(),
            final(self).noted() == Seq::<(u8, Seq<u8>)>::empty(),
            final(self).slots() == old(self).slots(),
            final(self).kept() == old(self).kept(),
            (*final(self) is Recording) == (*old(self) is Recording),
    {
        let mut v: Vec<(u8, Vec<u8>)> = Vec::new();
        assert(pairs_view(v@) =~= seq![]);
        if let SaveStore::Recording(r) = self {
            std::mem::swap(&mut v, &mut r.writes);
        }
        v
    }

    pub fn all_slots(&self) -> (out: Vec<(u8, Vec<u8>)>)
        ensures
            pairs_view(out@) == held(self.slots(), 0),
    {
        match self {
            SaveStore::Memory(m) => m.all_slots(),
            SaveStore::Through(w) => w.all_slots(),
            SaveStore::Recording(r) => r.inner.all_slots(),
        }
    }
}

/// The characters of an identity.
pub open spec fn identity_byte(c: u8) -> bool {
    0x61 <= c <= 0x7a || 0x30 <= c <= 0x39 || c == 0x5f || c == 0x2d
}

pub open spec fn is_identity(b: Seq<u8>) -> bool {
    0 < b.len() <= 64 && forall|i: int| 0 <= i < b.len() ==> identity_byte(#[trigger] b[i])
}

/// Whether an identity is a short `[a-z0-9_-]` string, 1 to 64 bytes.
pub fn valid_identity(identity: &str) -> (r: bool)
    ensures
        r == is_identity(encode_utf8(identity@)),
{
    let b = identity.as_bytes();
    if b.len() == 0 || b.len() > 64 {
        return false;
    }
    let mut i: usize = 0;
    while i < b.len()
        invariant
            i <= b@.len(),
            b@ == encode_utf8(identity@),
            forall|k: int| 0 <= k < i ==> identity_byte(#[trigger] b@[k]),
        decreases b.len() - i,
    {
        let c = b[i];
        assert(c == b@[i as int]);
        if !((0x61 <= c && c <= 0x7a) || (0x30 <= c && c <= 0x39) || c == 0x5f || c == 0x2d) {
            return false;
        }
        i += 1;
    }
    true
}

/// FNV-1a over some bytes, from a hash on.
pub open spec fn fnv(h: u64, b: Seq<u8>) -> u64
    decreases b.len(),
{
    if b.len() == 0 {
        h
    } else {
        fnv(((h ^ b[0] as u64) * 0x0000_0100_0000_01b3 % 0x1_0000_0000_0000_0000) as u64, b.skip(1))
    }
}

/// Where FNV-1a starts.
pub const FNV_START: u64 = 0xcbf2_9ce4_8422_2325;

/// FNV-1a over some bytes, from a hash on.
pub fn hash_bytes(start: u64, b: &[u8]) -> (h: u64)
    ensures
        h == fnv(start, b@),
{
    let mut h: u64 = start;
    let mut i: usize = 0;
    assert(b@.skip(0) =~= b@);
    while i < b.len()
        invariant
            i <= b@.len(),
            fnv(h, b@.skip(i as int)) == fnv(start, b@),
        decreases b.len() - i,
    {
        assert(b@.skip(i as int)[0] == b@[i as int]);
        assert(b@.skip(i as int).skip(1) =~= b@.skip(i + 1));
        let x: u64 = h ^ (b[i] as u64);
        h = ((x as u128 * 0x0000_0100_0000_01b3) % 0x1_0000_0000_0000_0000) as u64;
        i += 1;
    }
    assert(b@.skip(i as int) =~= seq![]);
    h
}

/// A hash as 16 hex digits.
pub fn hash_text(h: u64) -> (s: String)
    ensures
        s@ == hex(h as nat, 16),
{
    let mut s = String::new();
    push_hex(&mut s, h, 16);
    assert(s@ =~= hex(h as nat, 16));
    s
}

/// The save identity of a cart opened from a canonical absolute path:
/// FNV-1a 64 of the path as 16 hex digits. Two copies of the same cart in
/// two places have two identities; the manifest id plays no part.
pub fn path_identity(path: &str) -> (s: String)
    ensures
        s@ == hex(fnv(FNV_START, encode_utf8(path@)) as nat, 16),
{
    hash_text(hash_bytes(FNV_START, path.as_bytes()))
}

pub open spec fn slot_file_name(slot: u8) -> Seq<char> {
    "slot"@ + dec(slot as nat) + ".kuula"@
}

/// The file of a slot in a store's directory.
pub fn slot_file(slot: u8) -> (s: String)
    ensures
        s@ == slot_file_name(slot),
{
    let mut s = "slot".to_owned();
    push_dec(&mut s, slot as u64);
    s.append(".kuula");
    s
}

/// The file that a write is staged in, beside the slot.
pub fn staging_file(slot: u8) -> (s: String)
    ensures
        s@ == slot_file_name(slot) + ".tmp"@,
{
    let mut s = slot_file(slot);
    s.append(".tmp");
    s
}

/// Check the size of a slot's file before it is read.
pub fn check_file_size(len: u64) -> (r: Result<(), SaveError>)
    ensures
        match r {
            Ok(_) => len <= SLOT_BYTES,
            Err(e) => len > SLOT_BYTES && e@ == (SaveErrorView {
                code: "save_size"@,
                message: "slot file holds "@ + dec(len as nat) + " bytes, more than "@ + dec(
                    SLOT_BYTES as nat,
                ),
            }),
        },
{
    if len <= SLOT_BYTES as u64 {
        Ok(())
    } else {
        let mut m = "slot file holds ".to_owned();
        push_dec(&mut m, len);
        m.append(" bytes, more than ");
        push_dec(&mut m, SLOT_BYTES as u64);
        Err(SaveError { code: SaveError::SIZE, message: m })
    }
}

} // verus!
