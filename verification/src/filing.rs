//! What is kept of files: the entries of a snapshot, the settings, the
//! carts of a directory, the lines of a manifest and the slots of a store.

use vstd::prelude::*;
use vstd::utf8::encode_utf8;
use crate::carts::{first_named, lower, packs, same_but_case, text_of, Found, ListedView};
use crate::manifest::{is_name_byte, line_of, newlines};
use crate::net::EventView;
use crate::remote::{batch, behind, forwarded, laid_over, newest};
use crate::save::{
    identity_byte, to_others, with_failure, write_refusal, SaveErrorView, SaveStore, SLOT_BYTES,
};
use crate::settings::with_pair;
use crate::shell::Settings;
use crate::snapshot::{
    bytes_before, file_from, named_before, refusal, refusal_from, Entry, SnapshotLimits,
};
use crate::text::{dec, lemma_dec_reads};

verus! {

// ----- snapshots ------------------------------------------------------------------------------

/// The bytes of some files together.
pub open spec fn bytes_of(e: Seq<Entry>) -> int
    decreases e.len(),
{
    if e.len() == 0 {
        0
    } else {
        e[0].1.len() + bytes_of(e.skip(1))
    }
}

proof fn lemma_bytes_push(e: Seq<Entry>, x: Entry)
    ensures
        bytes_of(e.push(x)) == bytes_of(e) + x.1.len(),
    decreases e.len(),
{
    if e.len() > 0 {
        lemma_bytes_push(e.skip(1), x);
        assert(e.push(x).skip(1) =~= e.skip(1).push(x));
    } else {
        let one = e.push(x);
        assert(one.skip(1) =~= Seq::<Entry>::empty());
        reveal_with_fuel(bytes_of, 2);
    }
}

proof fn lemma_bytes_before(e: Seq<Entry>, n: int)
    requires
        0 <= n <= e.len(),
    ensures
        bytes_before(e, n) == bytes_of(e.take(n)),
    decreases n,
{
    if n > 0 {
        lemma_bytes_before(e, n - 1);
        lemma_bytes_push(e.take(n - 1), e[n - 1]);
        assert(e.take(n) =~= e.take(n - 1).push(e[n - 1]));
    }
}

proof fn lemma_bytes_grow(e: Seq<Entry>, i: int, n: int)
    requires
        0 <= i <= n,
    ensures
        bytes_before(e, i) <= bytes_before(e, n),
    decreases n,
{
    if i < n {
        lemma_bytes_grow(e, i, n - 1);
    }
}

/// Whether the entries from `i` on are named once, none is too large and
/// they are not too large together with those before them.
spec fn sound_from(e: Seq<Entry>, limits: SnapshotLimits, i: int) -> bool {
    &&& forall|k: int| i <= k < e.len() ==> (#[trigger] e[k]).1.len() <= limits.max_file_bytes
    &&& forall|k: int| i <= k < e.len() ==> !named_before(e, k, (#[trigger] e[k]).0)
    &&& i < e.len() ==> bytes_before(e, e.len() as int) <= limits.max_total_bytes
}

proof fn lemma_sound(e: Seq<Entry>, limits: SnapshotLimits, i: int)
    requires
        0 <= i <= e.len(),
    ensures
        refusal_from(e, limits, i) is None <==> sound_from(e, limits, i),
    decreases e.len() - i,
{
    if i < e.len() {
        lemma_sound(e, limits, i + 1);
        lemma_bytes_grow(e, i + 1, e.len() as int);
        if refusal_from(e, limits, i) is None {
            assert forall|k: int| i <= k < e.len() implies !named_before(e, k, (#[trigger] e[k]).0) by {
                if k > i {
                    assert(sound_from(e, limits, i + 1));
                }
            }
        }
    }
}

/// Files make a snapshot exactly if they are not too many, no name occurs
/// twice, none is too large, and they are not too large together.
pub proof fn law_a_snapshot_holds_what_fits(e: Seq<Entry>, limits: SnapshotLimits)
    ensures
        refusal(e, limits) is None <==> {
            &&& e.len() <= limits.max_files
            &&& forall|i: int, j: int|
                0 <= i < j < e.len() ==> (#[trigger] e[i]).0 != (#[trigger] e[j]).0
            &&& forall|i: int| 0 <= i < e.len() ==> (#[trigger] e[i]).1.len() <= limits.max_file_bytes
            &&& e.len() > 0 ==> bytes_of(e) <= limits.max_total_bytes
        },
{
    lemma_sound(e, limits, 0);
    lemma_bytes_before(e, e.len() as int);
    assert(e.take(e.len() as int) =~= e);
    if sound_from(e, limits, 0) {
        assert forall|i: int, j: int| 0 <= i < j < e.len() implies (#[trigger] e[i]).0 != (
        #[trigger] e[j]).0 by {
            assert(!named_before(e, j, e[j].0));
        }
    }
}

/// A file of a snapshot is found under its name, the first of that name;
/// one that no entry has is not found.
pub proof fn law_a_file_is_found_under_its_name(e: Seq<Entry>, name: Seq<char>, from: int, i: int)
    requires
        0 <= from <= i < e.len(),
    ensures
        e[i].0 == name && (forall|k: int| from <= k < i ==> (#[trigger] e[k]).0 != name)
            ==> file_from(e, name, from) == Some(e[i].1),
        (forall|k: int| from <= k < e.len() ==> (#[trigger] e[k]).0 != name) ==> file_from(
            e,
            name,
            from,
        ) is None,
    decreases e.len() - from,
{
    if from + 1 < e.len() {
        let j = if i > from {
            i
        } else {
            i + 1
        };
        law_a_file_is_found_under_its_name(e, name, from + 1, j);
    } else {
        reveal_with_fuel(file_from, 2);
    }
}

// ----- settings -------------------------------------------------------------------------------

/// A scale from one to four and a volume up to a hundred are taken, and
/// others change nothing; a key that is no setting changes nothing.
pub proof fn law_a_setting_is_taken_in_range(s: Settings, n: nat, key: Seq<char>, v: Seq<char>)
    requires
        n <= u32::MAX,
    ensures
        with_pair(s, "scale"@, dec(n)) == (if 1 <= n <= 4 {
            Settings { scale: n as u32, ..s }
        } else {
            s
        }),
        with_pair(s, "volume"@, dec(n)) == (if n <= 100 {
            Settings { volume: n as u32, ..s }
        } else {
            s
        }),
        with_pair(s, "net"@, "on"@) == (Settings { net: true, ..s }),
        with_pair(s, "net"@, "off"@) == (Settings { net: false, ..s }),
        key != "scale"@ && key != "volume"@ && key != "net"@ ==> with_pair(s, key, v) == s,
{
    lemma_dec_reads(n, u32::MAX as nat);
    reveal_strlit("scale");
    reveal_strlit("volume");
    reveal_strlit("net");
    reveal_strlit("on");
    reveal_strlit("off");
    reveal_strlit("true");
    assert("scale"@.len() == 5 && "volume"@.len() == 6 && "net"@.len() == 3);
    assert("on"@.len() == 2 && "off"@.len() == 3 && "true"@.len() == 4);
}

// ----- carts ----------------------------------------------------------------------------------

/// The case of a letter does not matter: texts of one length are the same
/// exactly if each two characters are, or are the two cases of a letter.
pub proof fn law_case_does_not_matter(a: Seq<char>, b: Seq<char>)
    ensures
        same_but_case(a, b) <==> a.len() == b.len() && forall|i: int|
            0 <= i < a.len() ==> {
                let x = #[trigger] a[i];
                let y = b[i];
                ||| x == y
                ||| 'A' <= x <= 'Z' && y as int == x as int + 32
                ||| 'A' <= y <= 'Z' && x as int == y as int + 32
            },
{
    let f = |c: char| lower(c);
    if same_but_case(a, b) {
        assert(a.len() == a.map_values(f).len());
        assert(b.len() == b.map_values(f).len());
        assert forall|i: int| 0 <= i < a.len() implies {
            let x = #[trigger] a[i];
            let y = b[i];
            ||| x == y
            ||| 'A' <= x <= 'Z' && y as int == x as int + 32
            ||| 'A' <= y <= 'Z' && x as int == y as int + 32
        } by {
            assert(a.map_values(f)[i] == b.map_values(f)[i]);
        }
    }
    if a.len() == b.len() && forall|i: int|
        0 <= i < a.len() ==> {
            let x = #[trigger] a[i];
            let y = b[i];
            ||| x == y
            ||| 'A' <= x <= 'Z' && y as int == x as int + 32
            ||| 'A' <= y <= 'Z' && x as int == y as int + 32
        } {
        assert(a.map_values(f) =~= b.map_values(f));
    }
}

/// A packed cart's file ends in `zip` or `cart`, in any case, and in nothing
/// else.
pub proof fn law_packed_carts_have_their_endings(e: Seq<char>)
    ensures
        same_but_case(e, "zip"@) || same_but_case(e, "cart"@) ==> packs(Some(e)),
        packs(Some(e)) ==> e.len() == 3 || e.len() == 4,
        !packs(None),
{
    reveal_strlit("zip");
    reveal_strlit("cart");
    law_case_does_not_matter(e, "zip"@);
    law_case_does_not_matter(e, "cart"@);
}

/// A cart is found under its name, the first of that name.
pub proof fn law_a_cart_is_found_under_its_name(
    v: Seq<ListedView>,
    name: Seq<char>,
    from: int,
    i: int,
)
    requires
        0 <= from <= i < v.len(),
    ensures
        v[i].name == name && (forall|k: int| from <= k < i ==> (#[trigger] v[k]).name != name)
            ==> first_named(v, name, from) == Some(i),
        (forall|k: int| from <= k < v.len() ==> (#[trigger] v[k]).name != name) ==> first_named(
            v,
            name,
            from,
        ) is None,
    decreases v.len() - from,
{
    if from + 1 < v.len() {
        let j = if i > from {
            i
        } else {
            i + 1
        };
        law_a_cart_is_found_under_its_name(v, name, from + 1, j);
    } else {
        reveal_with_fuel(first_named, 2);
    }
}

// ----- manifests and stores -------------------------------------------------------------------

/// Line feeds are counted one by one, wherever they stand.
pub proof fn law_line_feeds_are_counted(a: Seq<u8>, c: u8, b: Seq<u8>)
    ensures
        newlines(seq![]) == 0,
        newlines(a + seq![c] + b) == newlines(a) + newlines(b) + (if c == 0x0a {
            1int
        } else {
            0
        }),
    decreases b.len(),
{
    let all = a + seq![c] + b;
    if b.len() == 0 {
        assert(all.drop_last() =~= a);
    } else {
        law_line_feeds_are_counted(a, c, b.drop_last());
        assert(all.drop_last() =~= a + seq![c] + b.drop_last());
        assert(all.last() == b.last());
    }
}

/// Lines are counted from one, and a line feed starts the next.
pub proof fn law_lines_are_counted_from_one(text: Seq<char>, at: int)
    requires
        0 <= at < encode_utf8(text).len(),
    ensures
        line_of(text, 0) == 1,
        line_of(text, at + 1) == line_of(text, at) + (if encode_utf8(text)[at] == 0x0a {
            1int
        } else {
            0
        }),
{
    let b = encode_utf8(text);
    assert(b.take(0) =~= seq![]);
    assert(b.take(at + 1).drop_last() =~= b.take(at));
    assert(b.take(at + 1).last() == b[at]);
    assert(b.take(b.len() as int) =~= b);
}

/// Names are made of letters, digits, the underscore and the hyphen, and an
/// identity has small letters only.
pub proof fn law_names_have_their_characters(c: u8)
    ensures
        is_name_byte(c) <==> (0x30 <= c <= 0x39) || (0x41 <= c <= 0x5a) || (0x61 <= c <= 0x7a) || c
            == 0x5f || c == 0x2d,
        identity_byte(c) <==> is_name_byte(c) && !(0x41 <= c <= 0x5a),
{
}

/// The writes to other slots are those that are not to the slot, in order:
/// a write to it is left out, and one to another stays behind those before.
pub proof fn law_writes_to_others_stay_in_order(
    writes: Seq<(u8, Seq<u8>)>,
    w: (u8, Seq<u8>),
    slot: u8,
)
    ensures
        to_others(seq![], slot) == Seq::<(u8, Seq<u8>)>::empty(),
        to_others(writes.push(w), slot) == (if w.0 == slot {
            to_others(writes, slot)
        } else {
            to_others(writes, slot).push(w)
        }),
{
    assert(writes.push(w).drop_last() =~= writes);
}

// ----- batches --------------------------------------------------------------------------------

/// A batch is the first sixty-four events of a list and what is behind it
/// the others; of a list that is too long the newest are its last
/// sixty-four.
pub proof fn law_a_batch_is_the_first_events(v: Seq<EventView>)
    ensures
        batch(v) + behind(v) == v,
        batch(v).len() <= 64,
        behind(v).len() > 0 ==> batch(v).len() == 64,
        v.len() <= 64 ==> newest(v) == v,
        v.len() > 64 ==> newest(v).len() == 64 && v.take(v.len() - 64) + newest(v) == v,
{
    assert(batch(v) + behind(v) =~= v);
    if v.len() > 64 {
        assert(v.take(v.len() - 64) + newest(v) =~= v);
    }
}

/// Pixels that are laid over a screen are seen from its first on, and what
/// they do not cover stays.
pub proof fn law_pixels_are_laid_over_the_first(screen: Seq<u8>, pixels: Seq<u8>, i: int)
    requires
        0 <= i < screen.len(),
    ensures
        laid_over(screen, pixels).len() == screen.len(),
        i < pixels.len() ==> laid_over(screen, pixels)[i] == pixels[i],
        i >= pixels.len() ==> laid_over(screen, pixels)[i] == screen[i],
{
}

/// Of the failures that a store keeps the newest is the last; the oldest
/// goes where there are sixteen.
pub proof fn law_the_newest_failure_is_kept(f: Seq<SaveErrorView>, e: SaveErrorView, i: int)
    requires
        f.len() <= 16,
    ensures
        with_failure(f, e).len() <= 16,
        with_failure(f, e).last() == e,
        f.len() < 16 ==> with_failure(f, e) == f.push(e),
        f.len() == 16 && 0 <= i < 15 ==> with_failure(f, e)[i] == f[i + 1],
{
}

/// A good write goes on to disk exactly if its slot was readable, behind
/// those before it.
pub proof fn law_a_readable_slot_goes_on_to_disk(
    store: SaveStore,
    saves: Seq<(u8, Seq<u8>)>,
    slot: u8,
    bytes: Seq<u8>,
)
    ensures
        forwarded(store, seq![]) == Seq::<u8>::empty(),
        forwarded(store, saves.push((slot, bytes))) == (if write_refusal(
            slot,
            bytes.len() as int,
        ) is None && store.on_disk(slot) {
            forwarded(store, saves).push(slot)
        } else {
            forwarded(store, saves)
        }),
        write_refusal(slot, bytes.len() as int) is None <==> slot < 8 && bytes.len()
            <= SLOT_BYTES,
{
    assert(saves.push((slot, bytes)).drop_last() =~= saves);
}

/// A directory with a main file is a cart, and so is a packed file; a
/// directory is called by its title where it has one, and everything else
/// by its name.
pub proof fn law_a_cart_is_called_by_its_title(f: Found)
    requires
        f.name is Some,
    ensures
        f.is_dir && f.has_main ==> f.is_cart(),
        f.is_dir && !f.has_main && !f.is_file ==> !f.is_cart(),
        f.is_file && !f.is_dir ==> f.is_cart() == packs(text_of(f.extension)),
        f.is_dir && f.title is Some && f.title->0@.len() > 0 ==> f.called() == f.title->0@,
        !f.is_dir || f.title is None || f.title->0@.len() == 0 ==> f.called() == f.name->0@,
{
}

} // verus!
