//! The carts under a directory: which entries are carts, what they are
//! called, and which one a name means. Reading the directory and the
//! files in it is the host's.

use vstd::prelude::*;
use vstd::string::*;
use crate::fault::{Fault, FaultView};
use crate::shell::{CartEntry, Settings};
use crate::text::{
    chars_of, lemma_text_le_total, lemma_text_le_trans, str_eq, str_le, text_le,
};

verus! {

/// Most carts the list shows.
pub const MAX_CARTS: usize = 256;

/// An entry of a directory, as the host found it.
#[derive(Debug)]
pub struct Found {
    /// The entry's name, when it is text.
    pub name: Option<String>,
    pub is_dir: bool,
    pub is_file: bool,
    /// The name behind the last dot, when it is text.
    pub extension: Option<String>,
    /// Whether it is a directory with a `main.lua`.
    pub has_main: bool,
    /// The title its manifest gives, when that parses.
    pub title: Option<String>,
}

/// A listed cart and which entry it is.
#[derive(Debug)]
pub struct Listed {
    pub entry: CartEntry,
    pub place: usize,
}

/// What is listed of an entry: its name, its title and its place.
pub struct ListedView {
    pub name: Seq<char>,
    pub title: Seq<char>,
    pub place: int,
}

impl View for Listed {
    type V = ListedView;

    open spec fn view(&self) -> ListedView {
        ListedView { name: self.entry.name@, title: self.entry.title@, place: self.place as int }
    }
}

pub open spec fn listed_views(v: Seq<Listed>) -> Seq<ListedView> {
    v.map_values(|l: Listed| l@)
}

/// A character in lower case, if it is an ASCII letter.
pub open spec fn lower(c: char) -> char {
    if 'A' <= c && c <= 'Z' {
        (c as u32 + 32) as char
    } else {
        c
    }
}

/// Whether two texts are equal but for the case of ASCII letters.
pub open spec fn same_but_case(a: Seq<char>, b: Seq<char>) -> bool {
    a.map_values(|c: char| lower(c)) == b.map_values(|c: char| lower(c))
}

fn lower_of(c: char) -> (r: char)
    ensures
        r == lower(c),
{
    if 'A' <= c && c <= 'Z' {
        (c as u8 + 32) as char
    } else {
        c
    }
}

/// Whether two texts are equal but for the case of ASCII letters.
pub fn eq_ignore_case(a: &str, b: &str) -> (r: bool)
    ensures
        r == same_but_case(a@, b@),
{
    let x = chars_of(a);
    let y = chars_of(b);
    let ghost u = x@.map_values(|c: char| lower(c));
    let ghost v = y@.map_values(|c: char| lower(c));
    if x.len() != y.len() {
        assert(u.len() != v.len());
        return false;
    }
    let mut i: usize = 0;
    while i < x.len()
        invariant
            i <= x@.len(),
            x@.len() == y@.len(),
            x@ == a@,
            y@ == b@,
            u == x@.map_values(|c: char| lower(c)),
            v == y@.map_values(|c: char| lower(c)),
            forall|k: int| 0 <= k < i ==> #[trigger] u[k] == v[k],
        decreases x.len() - i,
    {
        if lower_of(x[i]) != lower_of(y[i]) {
            assert(u[i as int] != v[i as int]);
            return false;
        }
        i += 1;
    }
    assert(u =~= v);
    true
}

/// Whether an extension is a packed cart's.
pub open spec fn packs(extension: Option<Seq<char>>) -> bool {
    extension matches Some(e) && (same_but_case(e, "zip"@) || same_but_case(e, "cart"@))
}

pub open spec fn text_of(t: Option<String>) -> Option<Seq<char>> {
    match t {
        Some(s) => Some(s@),
        None => None,
    }
}

/// Whether a path names a packed cart rather than a directory.
pub fn is_archive(is_file: bool, extension: Option<&str>) -> (r: bool)
    ensures
        r == (is_file && packs(
            match extension {
                Some(e) => Some(e@),
                None => None,
            },
        )),
{
    if !is_file {
        return false;
    }
    match extension {
        Some(e) => eq_ignore_case(e, "zip") || eq_ignore_case(e, "cart"),
        None => false,
    }
}

impl Found {
    /// Whether the entry is a cart.
    pub open spec fn is_cart(&self) -> bool {
        (self.is_dir && self.has_main) || (self.is_file && packs(text_of(self.extension)))
    }

    /// What the list calls it: its manifest's title, or its name.
    pub open spec fn called(&self) -> Seq<char> {
        if self.is_dir && (self.title matches Some(t) && t@.len() > 0) {
            self.title->0@
        } else {
            self.name->0@
        }
    }

    /// Whether the entry is listed where there is room.
    pub open spec fn shows(&self) -> bool {
        self.name is Some && self.is_cart()
    }
}

/// Whether an entry is not behind another: names in their order, then the
/// entries without one.
pub open spec fn name_le(a: Found, b: Found) -> bool {
    match (a.name, b.name) {
        (Some(x), Some(y)) => text_le(x@, y@),
        (None, Some(_)) => false,
        _ => true,
    }
}

/// Whether entries are in the order of their names.
pub open spec fn sorted(v: Seq<Found>) -> bool {
    forall|i: int, j: int| 0 <= i < j < v.len() ==> name_le(#[trigger] v[i], #[trigger] v[j])
}

fn is_le(a: &Found, b: &Found) -> (r: bool)
    ensures
        r == name_le(*a, *b),
{
    match (&a.name, &b.name) {
        (Some(x), Some(y)) => str_le(x.as_str(), y.as_str()),
        (None, Some(_)) => false,
        _ => true,
    }
}

proof fn lemma_name_le(a: Found, b: Found)
    ensures
        name_le(a, b) || name_le(b, a),
{
    if let (Some(x), Some(y)) = (a.name, b.name) {
        lemma_text_le_total(x@, y@);
    }
}

proof fn lemma_name_le_trans(a: Found, b: Found, c: Found)
    requires
        name_le(a, b),
        name_le(b, c),
    ensures
        name_le(a, c),
{
    if let (Some(x), Some(z)) = (a.name, c.name) {
        lemma_text_le_trans(x@, b.name->0@, z@);
    }
}

/// Put an entry into its place.
fn insert_sorted(v: &mut Vec<Found>, f: Found)
    requires
        sorted(old(v)@),
    ensures
        sorted(final(v)@),
        final(v)@.to_multiset() == old(v)@.to_multiset().insert(f),
{
    let ghost s = v@;
    let mut at: usize = 0;
    while at < v.len() && is_le(&v[at], &f)
        invariant
            at <= v@.len(),
            v@ == s,
            forall|i: int| 0 <= i < at ==> name_le(#[trigger] s[i], f),
        decreases v.len() - at,
    {
        at += 1;
    }
    proof {
        if at < s.len() {
            lemma_name_le(s[at as int], f);
        }
        let t = s.insert(at as int, f);
        assert(t.to_multiset() =~= s.to_multiset().insert(f)) by {
            broadcast use vstd::seq_lib::group_to_multiset_ensures;

            assert(t.remove(at as int) =~= s);
            assert(t[at as int] == f);
            assert(t.contains(f));
            assert(t.to_multiset().count(f) > 0);
            assert(t.to_multiset().remove(f).insert(f) =~= t.to_multiset());
        }
        assert forall|i: int, j: int| 0 <= i < j < t.len() implies name_le(
            #[trigger] t[i],
            #[trigger] t[j],
        ) by {
            if i == at {
                assert(t[j] == s[j - 1]);
                if j - 1 > at {
                    assert(name_le(s[at as int], s[j - 1]));
                    lemma_name_le_trans(f, s[at as int], s[j - 1]);
                }
            } else if j == at {
                assert(t[i] == s[i]);
            } else {
                let p = if i < at {
                    i
                } else {
                    i - 1
                };
                let q = if j < at {
                    j
                } else {
                    j - 1
                };
                assert(t[i] == s[p] && t[j] == s[q]);
            }
        }
    }
    v.insert(at, f);
}

/// Put the entries in the order of their names.
fn sort_by_name(found: &mut Vec<Found>)
    ensures
        sorted(final(found)@),
        final(found)@.to_multiset() == old(found)@.to_multiset(),
{
    let ghost all = found@.to_multiset();
    let mut out: Vec<Found> = Vec::new();
    proof {
        broadcast use vstd::seq_lib::group_to_multiset_ensures;

        assert(out@.to_multiset() =~= vstd::multiset::Multiset::empty());
        assert(out@.to_multiset().add(found@.to_multiset()) =~= all);
    }
    while found.len() > 0
        invariant
            sorted(out@),
            out@.to_multiset().add(found@.to_multiset()) == all,
        decreases found.len(),
    {
        let ghost rest = found@.drop_last();
        let ghost before = out@.to_multiset();
        let ghost last = found@.last();
        proof {
            broadcast use vstd::seq_lib::group_to_multiset_ensures;

            assert(found@ =~= rest.push(last));
        }
        match found.pop() {
            Some(f) => {
                insert_sorted(&mut out, f);
            },
            None => {},
        }
        proof {
            broadcast use vstd::seq_lib::group_to_multiset_ensures;

            assert(found@ == rest);
            assert(out@.to_multiset().add(rest.to_multiset()) =~= before.add(
                rest.to_multiset().insert(last),
            ));
        }
    }
    proof {
        broadcast use vstd::seq_lib::group_to_multiset_ensures;

        assert(found@ =~= Seq::empty());
        assert(found@.to_multiset() =~= vstd::multiset::Multiset::empty());
        assert(out@.to_multiset() =~= all);
    }
    *found = out;
}

/// The carts among the first entries of a directory.
pub open spec fn listing_of(found: Seq<Found>) -> Seq<ListedView>
    decreases found.len(),
{
    if found.len() == 0 {
        seq![]
    } else {
        let before = listing_of(found.drop_last());
        let f = found.last();
        if before.len() < MAX_CARTS && f.shows() {
            before.push(
                ListedView { name: f.name->0@, title: f.called(), place: found.len() - 1 },
            )
        } else {
            before
        }
    }
}

/// Directories with a `main.lua` and `.zip`/`.cart` files among the
/// entries, which are put in the order of their names first. Titles come
/// from the manifest when it parses.
pub fn list_carts(found: &mut Vec<Found>) -> (out: Vec<Listed>)
    ensures
        sorted(final(found)@),
        final(found)@.to_multiset() == old(found)@.to_multiset(),
        listed_views(out@) == listing_of(final(found)@),
{
    sort_by_name(found);
    list_in_order(found)
}

fn list_in_order(found: &Vec<Found>) -> (out: Vec<Listed>)
    ensures
        listed_views(out@) == listing_of(found@),
{
    let mut out: Vec<Listed> = Vec::new();
    let mut i: usize = 0;
    assert(found@.take(0) =~= seq![]);
    assert(listed_views(out@) =~= seq![]);
    while i < found.len()
        invariant
            i <= found@.len(),
            listed_views(out@) == listing_of(found@.take(i as int)),
        decreases found.len() - i,
    {
        let ghost before = out@;
        proof {
            let t = found@.take(i + 1);
            assert(t.drop_last() =~= found@.take(i as int));
            assert(t.last() == found@[i as int]);
        }
        let f = &found[i];
        if out.len() < MAX_CARTS {
            if let Some(name) = &f.name {
                let extension = match &f.extension {
                    Some(e) => Some(e.as_str()),
                    None => None,
                };
                if (f.is_dir && f.has_main) || is_archive(f.is_file, extension) {
                    let mut title = name.clone();
                    if f.is_dir {
                        if let Some(t) = &f.title {
                            if t.as_str().unicode_len() > 0 {
                                title = t.clone();
                            }
                        }
                    }
                    out.push(Listed { entry: CartEntry { name: name.clone(), title }, place: i });
                    assert(listed_views(out@) =~= listed_views(before).push(out@.last()@));
                }
            }
        }
        i += 1;
    }
    assert(found@.take(i as int) =~= found@);
    out
}

/// The first listed cart of a name.
pub open spec fn first_named(v: Seq<ListedView>, name: Seq<char>, i: int) -> Option<int>
    decreases v.len() - i,
{
    if i < 0 || i >= v.len() {
        None
    } else if v[i].name == name {
        Some(i)
    } else {
        first_named(v, name, i + 1)
    }
}

/// Which listed cart a name means.
pub fn find_cart(listed: &Vec<Listed>, name: &str) -> (r: Result<usize, Fault>)
    ensures
        match (r, first_named(listed_views(listed@), name@, 0)) {
            (Ok(n), Some(k)) => n == k,
            (Err(f), None) => f@ == (FaultView {
                code: "cart_read_error"@,
                message: "no such cart"@,
                file: name@,
                line: None,
            }),
            _ => false,
        },
{
    let ghost v = listed_views(listed@);
    let mut i: usize = 0;
    while i < listed.len()
        invariant
            i <= listed@.len(),
            v == listed_views(listed@),
            first_named(v, name@, 0) == first_named(v, name@, i as int),
        decreases listed.len() - i,
    {
        assert(v[i as int] == listed@[i as int]@);
        if str_eq(listed[i].entry.name.as_str(), name) {
            return Ok(i);
        }
        i += 1;
    }
    Err(Fault::new(Fault::CART_READ_ERROR, name, None, "no such cart"))
}

/// The settings a shell starts with: the stored ones, and the command
/// line's scale where it was given.
pub fn initial_settings(stored: Settings, scale: Option<u32>) -> (s: Settings)
    ensures
        s == (Settings {
            scale: match scale {
                Some(n) => n,
                None => stored.scale,
            },
            ..stored
        }),
{
    let n = match scale {
        Some(n) => n,
        None => stored.scale,
    };
    Settings { scale: n, ..stored }
}

/// A list never grows past its bound.
pub proof fn law_the_list_is_bounded(found: Seq<Found>)
    ensures
        listing_of(found).len() <= MAX_CARTS,
    decreases found.len(),
{
    if found.len() > 0 {
        law_the_list_is_bounded(found.drop_last());
    }
}

/// The list is in the order of the names.
pub proof fn law_the_list_is_sorted(found: Seq<Found>, i: int, j: int)
    requires
        sorted(found),
        0 <= i < j < listing_of(found).len(),
    ensures
        text_le(listing_of(found)[i].name, listing_of(found)[j].name),
{
    law_the_list_holds_carts(found, i);
    law_the_list_holds_carts(found, j);
    let v = listing_of(found);
    assert(v[i].place < v[j].place);
    assert(name_le(found[v[i].place], found[v[j].place]));
}

/// What is listed are carts, each at its place, in the entries' order,
/// and every name on the list means a cart.
pub proof fn law_the_list_holds_carts(found: Seq<Found>, i: int)
    requires
        0 <= i < listing_of(found).len(),
    ensures
        0 <= listing_of(found)[i].place < found.len(),
        found[listing_of(found)[i].place].shows(),
        listing_of(found)[i].name == found[listing_of(found)[i].place].name->0@,
        forall|k: int| 0 <= k < i ==> #[trigger] listing_of(found)[k].place < listing_of(found)[i].place,
        first_named(listing_of(found), listing_of(found)[i].name, 0) is Some,
    decreases found.len(),
{
    let v = listing_of(found);
    let f = found.drop_last();
    let before = listing_of(f);
    if i < before.len() {
        law_the_list_holds_carts(f, i);
        assert(before[i] == v[i]);
        assert forall|k: int| 0 <= k < i implies #[trigger] v[k].place < v[i].place by {
            assert(before[k] == v[k]);
        }
    } else {
        assert forall|k: int| 0 <= k < i implies #[trigger] v[k].place < v[i].place by {
            law_the_list_holds_carts(f, k);
            assert(before[k] == v[k]);
        }
    }
    lemma_named(v, v[i].name, i, 0);
}

proof fn lemma_named(v: Seq<ListedView>, name: Seq<char>, i: int, from: int)
    requires
        0 <= from <= i < v.len(),
        v[i].name == name,
    ensures
        first_named(v, name, from) is Some,
    decreases i - from,
{
    if v[from].name != name {
        lemma_named(v, name, i, from + 1);
    }
}

/// Every cart is listed while there is room.
pub proof fn law_every_cart_is_listed(found: Seq<Found>, k: int)
    requires
        0 <= k < found.len(),
        found[k].shows(),
        listing_of(found).len() < MAX_CARTS,
    ensures
        exists|i: int|
            0 <= i < listing_of(found).len() && #[trigger] listing_of(found)[i].place == k,
    decreases found.len(),
{
    let v = listing_of(found);
    let f = found.drop_last();
    let before = listing_of(f);
    if k == found.len() - 1 {
        assert(v[v.len() - 1].place == k);
    } else {
        law_every_cart_is_listed(f, k);
        let i = choose|i: int| 0 <= i < before.len() && #[trigger] before[i].place == k;
        assert(v[i] == before[i]);
    }
}

} // verus!
