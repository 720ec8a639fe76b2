//! Maps from names to values, in the order of the names.
use crate::compat::text::{comes_before, precedes};
use vstd::prelude::*;

verus! {

/// A map from names to values.
#[derive(Debug, PartialEq, Eq)]
pub struct NameMap<V> {
    entries: Vec<(String, V)>,
}

impl<V: View> View for NameMap<V> {
    type V = Seq<(Seq<char>, V::V)>;

    /// The entries in the order of their names.
    closed spec fn view(&self) -> Seq<(Seq<char>, V::V)> {
        view_of(self.entries@)
    }
}

/// What some entries hold.
spec fn view_of<V: View>(entries: Seq<(String, V)>) -> Seq<(Seq<char>, V::V)> {
    Seq::new(entries.len(), |i: int| (entries[i].0@, entries[i].1@))
}

impl<V> NameMap<V> {
    /// The names of the entries ascend.
    #[verifier::type_invariant]
    spec fn is_ordered(self) -> bool {
        forall|i: int, j: int|
            0 <= i < j < self.entries@.len() ==> precedes(
                (#[trigger] self.entries@[i]).0@,
                (#[trigger] self.entries@[j]).0@,
            )
    }
}

impl<V> NameMap<V> {
    /// The names of the entries, in their order.
    pub closed spec fn names(self) -> Seq<Seq<char>> {
        Seq::new(self.entries@.len(), |i: int| self.entries@[i].0@)
    }

    /// The values of the entries, in the order of their names.
    pub closed spec fn values(self) -> Seq<V> {
        Seq::new(self.entries@.len(), |i: int| self.entries@[i].1)
    }
}

impl<V: Clone> Clone for NameMap<V> {
    /// The same names, each with a clone of its value.
    fn clone(&self) -> (r: Self)
        ensures
            r.names() == self.names(),
            r.values().len() == self.values().len(),
            forall|i: int|
                0 <= i < self.values().len() ==> cloned::<V>(
                    #[trigger] self.values()[i],
                    r.values()[i],
                ),
    {
        proof {
            use_type_invariant(self);
        }
        let mut entries: Vec<(String, V)> = Vec::new();
        for i in 0..self.entries.len()
            invariant
                entries@.len() == i,
                forall|j: int|
                    0 <= j < i ==> (#[trigger] entries@[j]).0@ == self.entries@[j].0@ && cloned::<V>(
                        self.entries@[j].1,
                        entries@[j].1,
                    ),
        {
            let (name, value) = &self.entries[i];
            entries.push((name.clone(), value.clone()));
        }
        let r = NameMap { entries };
        assert(r.names() =~= self.names());
        r
    }
}

/// The names ascend, so that none occurs twice. This holds of the entries of every map.
pub open spec fn ascending<T>(entries: Seq<(Seq<char>, T)>) -> bool {
    forall|i: int, j: int|
        0 <= i < j < entries.len() ==> precedes((#[trigger] entries[i]).0, (#[trigger] entries[j]).0)
}

/// The value under a name.
pub open spec fn lookup<T>(entries: Seq<(Seq<char>, T)>, name: Seq<char>) -> Option<T>
    decreases entries.len(),
{
    if entries.len() == 0 {
        None
    } else if entries[0].0 == name {
        Some(entries[0].1)
    } else {
        lookup(entries.drop_first(), name)
    }
}

/// The entries with a value put under a name, in the place of the one that was there.
pub open spec fn inserted<T>(entries: Seq<(Seq<char>, T)>, name: Seq<char>, value: T) -> Seq<
    (Seq<char>, T),
>
    decreases entries.len(),
{
    if entries.len() == 0 {
        seq![(name, value)]
    } else if entries[0].0 == name {
        seq![(name, value)] + entries.drop_first()
    } else if precedes(entries[0].0, name) {
        seq![entries[0]] + inserted(entries.drop_first(), name, value)
    } else {
        seq![(name, value)] + entries
    }
}

impl<V: View> NameMap<V> {
    /// A map without entries.
    pub fn new() -> (r: Self)
        ensures
            r@ == Seq::<(Seq<char>, V::V)>::empty(),
    {
        let r = NameMap { entries: Vec::new() };
        assert(r@ =~= Seq::empty());
        r
    }

    /// The number of entries. Their names ascend.
    pub fn len(&self) -> (r: usize)
        ensures
            r == self@.len(),
            ascending(self@),
    {
        proof {
            use_type_invariant(self);
        }
        self.entries.len()
    }

    pub fn is_empty(&self) -> (r: bool)
        ensures
            r == (self@.len() == 0),
    {
        self.entries.len() == 0
    }

    /// The name of the entry at a position.
    pub fn name_at(&self, i: usize) -> (r: &String)
        requires
            i < self@.len(),
        ensures
            r@ == self@[i as int].0,
    {
        &self.entries[i].0
    }

    /// The value of the entry at a position.
    pub fn value_at(&self, i: usize) -> (r: &V)
        requires
            i < self@.len(),
        ensures
            r@ == self@[i as int].1,
    {
        &self.entries[i].1
    }

    /// The value under a name.
    pub fn get(&self, name: &String) -> (r: Option<&V>)
        ensures
            ascending(self@),
            match r {
                Some(value) => lookup(self@, name@) == Some(value@),
                None => lookup(self@, name@) is None,
            },
    {
        proof {
            use_type_invariant(self);
        }
        assert(self@.skip(0) =~= self@);
        for i in 0..self.entries.len()
            invariant
                ascending(self@),
                self@.len() == self.entries@.len(),
                lookup(self@, name@) == lookup(self@.skip(i as int), name@),
        {
            assert(self@.skip(i as int).drop_first() =~= self@.skip(i + 1));
            assert(self@.skip(i as int)[0] == self@[i as int]);
            if self.entries[i].0 == *name {
                return Some(&self.entries[i].1);
            }
        }
        None
    }

    /// Puts a value under a name, in the place of the one that was there.
    pub fn insert(&mut self, name: String, value: V)
        ensures
            final(self)@ == inserted(old(self)@, name@, value@),
    {
        proof {
            use_type_invariant(&*self);
        }
        let ghost before = self@;
        let mut entries: Vec<(String, V)> = Vec::new();
        std::mem::swap(&mut entries, &mut self.entries);
        assert(before =~= view_of(entries@));
        let mut i: usize = 0;
        assert(before.take(0) + inserted(before.skip(0), name@, value@) =~= inserted(
            before,
            name@,
            value@,
        )) by {
            assert(before.skip(0) =~= before);
        }
        proof {
            lemma_inserted(before, name@, value@);
        }
        while i < entries.len() && comes_before(entries[i].0.as_str(), name.as_str())
            invariant
                i <= entries@.len(),
                before == view_of(entries@),
                inserted(before, name@, value@) == before.take(i as int) + inserted(
                    before.skip(i as int),
                    name@,
                    value@,
                ),
            decreases entries@.len() - i,
        {
            proof {
                let rest = before.skip(i as int);
                lemma_precedes_irreflexive(name@);
                assert(rest.drop_first() =~= before.skip(i + 1));
                assert(before.take(i as int) + (seq![rest[0]] + inserted(
                    rest.drop_first(),
                    name@,
                    value@,
                )) =~= before.take(i + 1) + inserted(rest.drop_first(), name@, value@));
            }
            i = i + 1;
        }
        let ghost rest = before.skip(i as int);
        let ghost wanted = inserted(before, name@, value@);
        if i < entries.len() && entries[i].0 == name {
            proof {
                assert(rest[0].0 == name@);
            }
            entries.set(i, (name, value));
        } else {
            entries.insert(i, (name, value));
        }
        assert(view_of(entries@) =~= wanted);
        proof {
            assert forall|i: int, j: int| 0 <= i < j < entries@.len() implies precedes(
                (#[trigger] entries@[i]).0@,
                (#[trigger] entries@[j]).0@,
            ) by {
                assert(wanted[i].0 == entries@[i].0@ && wanted[j].0 == entries@[j].0@);
            }
        }
        self.entries = entries;
        assert(self@ =~= wanted);
    }
}

/// No text comes before itself.
pub proof fn lemma_precedes_irreflexive(a: Seq<char>)
    ensures
        !precedes(a, a),
    decreases a.len(),
{
    if a.len() > 0 {
        lemma_precedes_irreflexive(a.drop_first());
    }
}

/// Of two different texts one comes before the other.
pub proof fn lemma_precedes_total(a: Seq<char>, b: Seq<char>)
    ensures
        a == b || precedes(a, b) || precedes(b, a),
    decreases a.len(),
{
    if a.len() > 0 && b.len() > 0 && a[0] == b[0] {
        lemma_precedes_total(a.drop_first(), b.drop_first());
        if a.drop_first() == b.drop_first() {
            assert(a =~= seq![a[0]] + a.drop_first());
            assert(b =~= seq![b[0]] + b.drop_first());
        }
    } else if a.len() == 0 && b.len() == 0 {
        assert(a =~= b);
    }
}

/// What comes before a text comes before every text after it.
pub proof fn lemma_precedes_transitive(a: Seq<char>, b: Seq<char>, c: Seq<char>)
    requires
        precedes(a, b),
        precedes(b, c),
    ensures
        precedes(a, c),
    decreases a.len(),
{
    if a.len() > 0 && a[0] == b[0] && b[0] == c[0] {
        lemma_precedes_transitive(a.drop_first(), b.drop_first(), c.drop_first());
    }
}

/// Putting a value under a name keeps the names ascending.
pub proof fn lemma_inserted<T>(entries: Seq<(Seq<char>, T)>, name: Seq<char>, value: T)
    requires
        ascending(entries),
    ensures
        ascending(inserted(entries, name, value)),
        forall|i: int|
            0 <= i < inserted(entries, name, value).len() ==> {
                ||| (#[trigger] inserted(entries, name, value)[i]).0 == name
                ||| exists|j: int|
                    0 <= j < entries.len() && entries[j] == inserted(entries, name, value)[i]
            },
    decreases entries.len(),
{
    if entries.len() > 0 {
        let rest = entries.drop_first();
        let r = inserted(entries, name, value);
        assert forall|i: int, j: int| 0 <= i < j < rest.len() implies precedes(
            (#[trigger] rest[i]).0,
            (#[trigger] rest[j]).0,
        ) by {
            assert(rest[i] == entries[i + 1] && rest[j] == entries[j + 1]);
        }
        lemma_inserted(rest, name, value);
        if entries[0].0 == name {
            assert forall|i: int| 0 <= i < r.len() implies {
                ||| (#[trigger] r[i]).0 == name
                ||| exists|j: int| 0 <= j < entries.len() && entries[j] == r[i]
            } by {
                if i > 0 {
                    assert(entries[i] == r[i]);
                }
            }
            assert forall|i: int, j: int| 0 <= i < j < r.len() implies precedes(
                (#[trigger] r[i]).0,
                (#[trigger] r[j]).0,
            ) by {
                assert(r[i].0 == entries[i].0 && r[j].0 == entries[j].0);
            }
        } else if precedes(entries[0].0, name) {
            let tail = inserted(rest, name, value);
            assert forall|i: int| 0 <= i < r.len() implies {
                ||| (#[trigger] r[i]).0 == name
                ||| exists|j: int| 0 <= j < entries.len() && entries[j] == r[i]
            } by {
                if i == 0 {
                    assert(entries[0] == r[0]);
                } else {
                    assert(r[i] == tail[i - 1]);
                    if tail[i - 1].0 != name {
                        let k = choose|k: int| 0 <= k < rest.len() && rest[k] == tail[i - 1];
                        assert(entries[k + 1] == r[i]);
                    }
                }
            }
            assert forall|i: int, j: int| 0 <= i < j < r.len() implies precedes(
                (#[trigger] r[i]).0,
                (#[trigger] r[j]).0,
            ) by {
                assert(r[j] == tail[j - 1]);
                if i > 0 {
                    assert(r[i] == tail[i - 1]);
                } else if tail[j - 1].0 != name {
                    let k = choose|k: int| 0 <= k < rest.len() && rest[k] == tail[j - 1];
                    assert(entries[k + 1] == r[j]);
                }
            }
        } else {
            lemma_precedes_total(entries[0].0, name);
            assert forall|i: int| 0 <= i < r.len() implies {
                ||| (#[trigger] r[i]).0 == name
                ||| exists|j: int| 0 <= j < entries.len() && entries[j] == r[i]
            } by {
                if i > 0 {
                    assert(entries[i - 1] == r[i]);
                }
            }
            assert forall|i: int, j: int| 0 <= i < j < r.len() implies precedes(
                (#[trigger] r[i]).0,
                (#[trigger] r[j]).0,
            ) by {
                assert(r[j] == entries[j - 1]);
                if i > 0 {
                    assert(r[i] == entries[i - 1]);
                } else if j > 1 {
                    lemma_precedes_transitive(name, entries[0].0, entries[j - 1].0);
                }
            }
        }
    }
}

/// After a value was put under a name it is found there, and under every other name is found what
/// was found before.
pub proof fn law_lookup_after_insertion<T>(
    entries: Seq<(Seq<char>, T)>,
    name: Seq<char>,
    value: T,
    other: Seq<char>,
)
    ensures
        lookup(inserted(entries, name, value), name) == Some(value),
        other != name ==> lookup(inserted(entries, name, value), other) == lookup(entries, other),
    decreases entries.len(),
{
    let r = inserted(entries, name, value);
    if entries.len() > 0 {
        let rest = entries.drop_first();
        law_lookup_after_insertion(rest, name, value, other);
        if entries[0].0 == name {
            assert(r.drop_first() =~= rest);
        } else if precedes(entries[0].0, name) {
            assert(r.drop_first() =~= inserted(rest, name, value));
        } else {
            assert(r.drop_first() =~= entries);
        }
    } else {
        assert(r.drop_first() =~= seq![]);
        reveal_with_fuel(lookup, 2);
    }
}

/// Every entry is found under its name.
pub proof fn law_entry_is_found<T>(entries: Seq<(Seq<char>, T)>, i: int)
    requires
        ascending(entries),
        0 <= i < entries.len(),
    ensures
        lookup(entries, entries[i].0) == Some(entries[i].1),
    decreases entries.len(),
{
    if i > 0 {
        let rest = entries.drop_first();
        assert(precedes(entries[0].0, entries[i].0));
        lemma_precedes_irreflexive(entries[0].0);
        assert forall|i: int, j: int| 0 <= i < j < rest.len() implies precedes(
            (#[trigger] rest[i]).0,
            (#[trigger] rest[j]).0,
        ) by {
            assert(rest[i] == entries[i + 1] && rest[j] == entries[j + 1]);
        }
        assert(rest[i - 1] == entries[i]);
        law_entry_is_found(rest, i - 1);
    }
}

} // verus!
