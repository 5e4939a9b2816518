//! Shared values and values by name.

use std::rc::Rc;
use vstd::prelude::*;
use vstd::string::*;
use crate::text::str_eq;

verus! {

/// `Rc::clone`: another handle to the same value.
#[verifier::external_body]
pub(crate) fn share<T>(r: &Rc<T>) -> (c: Rc<T>)
    ensures
        *c == **r,
{
    Rc::clone(r)
}

/// What a list of named values holds: for each name the last value under
/// it.
pub open spec fn named<T>(items: Seq<(String, T)>) -> Map<Seq<char>, T>
    decreases items.len(),
{
    if items.len() == 0 {
        Map::empty()
    } else {
        named(items.drop_last()).insert(items.last().0@, items.last().1)
    }
}

/// Whether every name occurs once.
pub open spec fn distinct<T>(items: Seq<(String, T)>) -> bool {
    forall|i: int, j: int|
        0 <= i < j < items.len() ==> (#[trigger] items[i]).0@ != (#[trigger] items[j]).0@
}

pub proof fn lemma_named<T>(items: Seq<(String, T)>, i: int)
    requires
        distinct(items),
        0 <= i < items.len(),
    ensures
        named(items).contains_key(items[i].0@),
        named(items)[items[i].0@] == items[i].1,
    decreases items.len(),
{
    if i < items.len() - 1 {
        let t = items.drop_last();
        assert(t[i] == items[i]);
        assert(distinct(t)) by {
            assert forall|a: int, b: int| 0 <= a < b < t.len() implies (#[trigger] t[a]).0@ != (
            #[trigger] t[b]).0@ by {
                assert(t[a] == items[a] && t[b] == items[b]);
            }
        }
        lemma_named(t, i);
    }
}

pub proof fn lemma_not_named<T>(items: Seq<(String, T)>, name: Seq<char>)
    requires
        forall|i: int| 0 <= i < items.len() ==> (#[trigger] items[i]).0@ != name,
    ensures
        !named(items).contains_key(name),
    decreases items.len(),
{
    if items.len() > 0 {
        let t = items.drop_last();
        assert forall|i: int| 0 <= i < t.len() implies (#[trigger] t[i]).0@ != name by {
            assert(t[i] == items[i]);
        }
        lemma_not_named(t, name);
    }
}

pub proof fn lemma_named_update<T>(items: Seq<(String, T)>, i: int, name: String, v: T)
    requires
        distinct(items),
        0 <= i < items.len(),
        name@ == items[i].0@,
    ensures
        named(items.update(i, (name, v))) == named(items).insert(name@, v),
    decreases items.len(),
{
    let t = items.drop_last();
    let u = items.update(i, (name, v));
    if i == items.len() - 1 {
        assert(u.drop_last() =~= t);
        assert(named(u) =~= named(items).insert(name@, v));
    } else {
        assert(t[i] == items[i]);
        assert(distinct(t)) by {
            assert forall|a: int, b: int| 0 <= a < b < t.len() implies (#[trigger] t[a]).0@ != (
            #[trigger] t[b]).0@ by {
                assert(t[a] == items[a] && t[b] == items[b]);
            }
        }
        lemma_named_update(t, i, name, v);
        assert(u.drop_last() =~= t.update(i, (name, v)));
        assert(items[i].0@ != items.last().0@);
        assert(named(u) =~= named(items).insert(name@, v));
    }
}

/// Values by name.
#[derive(Debug)]
pub struct Named<T> {
    items: Vec<(String, T)>,
}

impl<T> View for Named<T> {
    type V = Map<Seq<char>, T>;

    closed spec fn view(&self) -> Map<Seq<char>, T> {
        named(self.items@)
    }
}

impl<T> Named<T> {
    #[verifier::type_invariant]
    spec fn inv(self) -> bool {
        distinct(self.items@)
    }

    pub fn new() -> (n: Named<T>)
        ensures
            n@ == Map::<Seq<char>, T>::empty(),
    {
        Named { items: Vec::new() }
    }

    /// The value under a name.
    pub fn get(&self, name: &str) -> (r: Option<&T>)
        ensures
            match r {
                Some(v) => self@.contains_key(name@) && self@[name@] == *v,
                None => !self@.contains_key(name@),
            },
    {
        proof {
            use_type_invariant(self);
        }
        let mut i: usize = 0;
        while i < self.items.len()
            invariant
                i <= self.items@.len(),
                distinct(self.items@),
                forall|j: int| 0 <= j < i ==> (#[trigger] self.items@[j]).0@ != name@,
            decreases self.items.len() - i,
        {
            if str_eq(self.items[i].0.as_str(), name) {
                proof {
                    lemma_named(self.items@, i as int);
                }
                return Some(&self.items[i].1);
            }
            i += 1;
        }
        proof {
            lemma_not_named(self.items@, name@);
        }
        None
    }

    /// Put a value under a name that has none yet.
    pub fn add_new(&mut self, name: String, value: T)
        requires
            !old(self)@.contains_key(name@),
        ensures
            final(self)@ == old(self)@.insert(name@, value),
    {
        proof {
            use_type_invariant(&*self);
        }
        let mut items: Vec<(String, T)> = Vec::new();
        std::mem::swap(&mut items, &mut self.items);
        let ghost before = items@;
        items.push((name, value));
        assert(items@.drop_last() =~= before);
        assert(distinct(items@)) by {
            assert forall|i: int, j: int| 0 <= i < j < items@.len() implies (
            #[trigger] items@[i]).0@ != (#[trigger] items@[j]).0@ by {
                if j == before.len() {
                    lemma_named(before, i);
                }
            }
        }
        self.items = items;
    }

    /// Put a value under a name, in place of one that is there.
    pub fn set(&mut self, name: &str, value: T)
        ensures
            final(self)@ == old(self)@.insert(name@, value),
    {
        proof {
            use_type_invariant(&*self);
        }
        let mut items: Vec<(String, T)> = Vec::new();
        std::mem::swap(&mut items, &mut self.items);
        let ghost before = items@;
        let mut i: usize = 0;
        while i < items.len() && !str_eq(items[i].0.as_str(), name)
            invariant
                i <= items@.len(),
                items@ == before,
                forall|j: int| 0 <= j < i ==> (#[trigger] items@[j]).0@ != name@,
            decreases items.len() - i,
        {
            i += 1;
        }
        let entry = (name.to_owned(), value);
        if i < items.len() {
            proof {
                lemma_named_update(before, i as int, entry.0, entry.1);
            }
            items[i] = entry;
            assert(distinct(items@)) by {
                assert forall|a: int, b: int| 0 <= a < b < items@.len() implies (
                #[trigger] items@[a]).0@ != (#[trigger] items@[b]).0@ by {
                    assert(before[a].0@ == items@[a].0@ && before[b].0@ == items@[b].0@);
                }
            }
        } else {
            items.push(entry);
            assert(items@.drop_last() =~= before);
        }
        self.items = items;
    }
}

/// A map without the names that hold a value.
pub open spec fn without(m: Map<Seq<char>, u64>, value: u64) -> Map<Seq<char>, u64> {
    m.restrict(Set::new(|k: Seq<char>| m.contains_key(k) && m[k] != value))
}

proof fn lemma_without(m: Map<Seq<char>, u64>, name: Seq<char>, x: u64, value: u64)
    requires
        !m.contains_key(name),
    ensures
        x == value ==> without(m.insert(name, x), value) == without(m, value),
        x != value ==> without(m.insert(name, x), value) == without(m, value).insert(name, x),
{
    if x == value {
        assert(without(m.insert(name, x), value) =~= without(m, value));
    } else {
        assert(without(m.insert(name, x), value) =~= without(m, value).insert(name, x));
    }
}

impl Named<u64> {
    /// Drop every name that holds a value.
    pub fn forget(&mut self, value: u64)
        ensures
            final(self)@ == without(old(self)@, value),
    {
        proof {
            use_type_invariant(&*self);
        }
        let mut items: Vec<(String, u64)> = Vec::new();
        std::mem::swap(&mut items, &mut self.items);
        let ghost all = items@;
        let mut out: Vec<(String, u64)> = Vec::new();
        let mut i: usize = 0;
        assert(without(named(all.take(0)), value) =~= named(out@));
        while i < items.len()
            invariant
                i <= items@.len(),
                items@ == all,
                distinct(all),
                distinct(out@),
                named(out@) == without(named(all.take(i as int)), value),
            decreases items.len() - i,
        {
            proof {
                let t = all.take(i + 1);
                assert(t.drop_last() =~= all.take(i as int));
                assert(forall|j: int| 0 <= j < i ==> (#[trigger] all.take(i as int)[j]) == all[j]);
                lemma_not_named(all.take(i as int), all[i as int].0@);
                lemma_without(
                    named(all.take(i as int)),
                    all[i as int].0@,
                    all[i as int].1,
                    value,
                );
            }
            let v = items[i].1;
            if v != value {
                let name = items[i].0.as_str().to_owned();
                let ghost before = out@;
                out.push((name, v));
                assert(out@.drop_last() =~= before);
                assert(distinct(out@)) by {
                    assert forall|a: int, b: int| 0 <= a < b < out@.len() implies (
                    #[trigger] out@[a]).0@ != (#[trigger] out@[b]).0@ by {
                        if b == before.len() {
                            lemma_named(before, a);
                        }
                    }
                }
            }
            i += 1;
        }
        assert(all.take(i as int) =~= all);
        self.items = out;
    }
}

} // verus!
