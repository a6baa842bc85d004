//! A small name-to-value map for parameters, headers and trailers.
//!
//! The map keeps its entries in the order in which their names first came,
//! so that whatever is written from it to the wire comes out the same way on
//! every run.

use vstd::prelude::*;

verus! {

/// The value that a list of pairs gives a name: that of the first pair
/// with this name.
pub open spec fn lookup(pairs: Seq<(Seq<char>, Seq<char>)>, name: Seq<char>) -> Option<Seq<char>>
    decreases pairs.len(),
{
    if pairs.len() == 0 {
        None
    } else if pairs[0].0 == name {
        Some(pairs[0].1)
    } else {
        lookup(pairs.drop_first(), name)
    }
}

/// No two pairs have the same name.
pub open spec fn distinct_names(pairs: Seq<(Seq<char>, Seq<char>)>) -> bool {
    forall|i: int, j: int|
        0 <= i < j < pairs.len() ==> (#[trigger] pairs[i]).0 != (#[trigger] pairs[j]).0
}

/// A name that no pair has is given no value.
pub proof fn lemma_lookup_absent(pairs: Seq<(Seq<char>, Seq<char>)>, name: Seq<char>)
    requires
        forall|j: int| 0 <= j < pairs.len() ==> (#[trigger] pairs[j]).0 != name,
    ensures
        lookup(pairs, name) is None,
    decreases pairs.len(),
{
    if pairs.len() > 0 {
        assert(pairs[0].0 != name);
        assert forall|j: int| 0 <= j < pairs.drop_first().len() implies (#[trigger] pairs.drop_first()[j]).0
            != name by {
            assert(pairs.drop_first()[j] == pairs[j + 1]);
        }
        lemma_lookup_absent(pairs.drop_first(), name);
    }
}

/// The first pair with a name decides its value.
pub proof fn lemma_lookup_first(pairs: Seq<(Seq<char>, Seq<char>)>, name: Seq<char>, i: int)
    requires
        0 <= i < pairs.len(),
        pairs[i].0 == name,
        forall|j: int| 0 <= j < i ==> (#[trigger] pairs[j]).0 != name,
    ensures
        lookup(pairs, name) == Some(pairs[i].1),
    decreases pairs.len(),
{
    if i > 0 {
        assert(pairs[0].0 != name);
        assert forall|j: int| 0 <= j < i - 1 implies (#[trigger] pairs.drop_first()[j]).0
            != name by {
            assert(pairs.drop_first()[j] == pairs[j + 1]);
        }
        lemma_lookup_first(pairs.drop_first(), name, i - 1);
    }
}

/// Replacing the first pair of a name changes the value of that name only.
pub proof fn lemma_lookup_update(
    pairs: Seq<(Seq<char>, Seq<char>)>,
    i: int,
    name: Seq<char>,
    value: Seq<char>,
    other: Seq<char>,
)
    requires
        0 <= i < pairs.len(),
        pairs[i].0 == name,
        forall|j: int| 0 <= j < i ==> (#[trigger] pairs[j]).0 != name,
    ensures
        lookup(pairs.update(i, (name, value)), other) == if other == name {
            Some(value)
        } else {
            lookup(pairs, other)
        },
    decreases pairs.len(),
{
    let after = pairs.update(i, (name, value));
    if i == 0 {
        assert(after.drop_first() =~= pairs.drop_first());
    } else {
        assert(pairs[0].0 != name);
        assert(after[0] == pairs[0]);
        assert forall|j: int| 0 <= j < i - 1 implies (#[trigger] pairs.drop_first()[j]).0
            != name by {
            assert(pairs.drop_first()[j] == pairs[j + 1]);
        }
        assert(after.drop_first() =~= pairs.drop_first().update(i - 1, (name, value)));
        lemma_lookup_update(pairs.drop_first(), i - 1, name, value, other);
    }
}

/// A pair added at the end gives its name a value only if none had it.
pub proof fn lemma_lookup_push(
    pairs: Seq<(Seq<char>, Seq<char>)>,
    name: Seq<char>,
    value: Seq<char>,
    other: Seq<char>,
)
    ensures
        lookup(pairs.push((name, value)), other) == if lookup(pairs, other) is Some {
            lookup(pairs, other)
        } else if other == name {
            Some(value)
        } else {
            None
        },
    decreases pairs.len(),
{
    let after = pairs.push((name, value));
    if pairs.len() == 0 {
        assert(after.drop_first() =~= pairs);
    } else {
        assert(after[0] == pairs[0]);
        assert(after.drop_first() =~= pairs.drop_first().push((name, value)));
        lemma_lookup_push(pairs.drop_first(), name, value, other);
    }
}

/// A map from names to values, both text.
#[derive(Debug)]
pub struct FieldMap {
    entries: Vec<(String, String)>,
}

impl View for FieldMap {
    type V = Map<Seq<char>, Seq<char>>;

    /// The map from each name to its value.
    closed spec fn view(&self) -> Map<Seq<char>, Seq<char>> {
        Map::new(
            |name: Seq<char>| lookup(self.pairs(), name) is Some,
            |name: Seq<char>| lookup(self.pairs(), name).unwrap(),
        )
    }
}

impl FieldMap {
    /// The entries in the order in which they are kept.
    pub closed spec fn pairs(&self) -> Seq<(Seq<char>, Seq<char>)> {
        Seq::new(self.entries@.len(), |i: int| (self.entries@[i].0@, self.entries@[i].1@))
    }

    /// No name is kept twice. Every map made by the functions below is so.
    pub open spec fn distinct(&self) -> bool {
        distinct_names(self.pairs())
    }

    /// The empty map.
    pub fn new() -> (r: Self)
        ensures
            r@ == Map::<Seq<char>, Seq<char>>::empty(),
            r.pairs() == Seq::<(Seq<char>, Seq<char>)>::empty(),
            r.distinct(),
    {
        let r = FieldMap { entries: Vec::new() };
        proof {
            assert(r.pairs() =~= Seq::<(Seq<char>, Seq<char>)>::empty());
            assert(r@ =~= Map::<Seq<char>, Seq<char>>::empty());
        }
        r
    }

    /// The number of entries.
    pub fn len(&self) -> (r: usize)
        ensures
            r == self.pairs().len(),
    {
        self.entries.len()
    }

    /// Whether the map has no entry.
    pub fn is_empty(&self) -> (r: bool)
        ensures
            r == (self.pairs().len() == 0),
            r == (self@ == Map::<Seq<char>, Seq<char>>::empty()),
    {
        proof {
            if self.pairs().len() == 0 {
                assert(self@ =~= Map::<Seq<char>, Seq<char>>::empty());
            } else {
                assert(lookup(self.pairs(), self.pairs()[0].0) is Some);
                assert(self@.contains_key(self.pairs()[0].0));
            }
        }
        self.entries.len() == 0
    }

    /// The name of the entry at `index`.
    pub fn name_at(&self, index: usize) -> (r: &String)
        requires
            index < self.pairs().len(),
        ensures
            r@ == self.pairs()[index as int].0,
    {
        &self.entries[index].0
    }

    /// The value of the entry at `index`.
    pub fn value_at(&self, index: usize) -> (r: &String)
        requires
            index < self.pairs().len(),
        ensures
            r@ == self.pairs()[index as int].1,
    {
        &self.entries[index].1
    }

    /// The position of the first entry with this name.
    fn position(&self, name: &str) -> (r: Option<usize>)
        ensures
            match r {
                Some(i) => {
                    &&& i < self.pairs().len()
                    &&& self.pairs()[i as int].0 == name@
                    &&& forall|j: int| 0 <= j < i ==> (#[trigger] self.pairs()[j]).0 != name@
                },
                None => forall|j: int|
                    0 <= j < self.pairs().len() ==> (#[trigger] self.pairs()[j]).0 != name@,
            },
    {
        let wanted = name.to_owned();
        let mut i: usize = 0;
        while i < self.entries.len()
            invariant
                i <= self.entries.len(),
                wanted@ == name@,
                forall|j: int| 0 <= j < i ==> (#[trigger] self.pairs()[j]).0 != name@,
            decreases self.entries.len() - i,
        {
            if self.entries[i].0 == wanted {
                return Some(i);
            }
            i = i + 1;
        }
        None
    }

    /// The value kept under `name`.
    pub fn get(&self, name: &str) -> (r: Option<&String>)
        ensures
            match r {
                Some(value) => self@.contains_key(name@) && self@[name@] == value@,
                None => !self@.contains_key(name@),
            },
    {
        match self.position(name) {
            Some(i) => {
                proof {
                    lemma_lookup_first(self.pairs(), name@, i as int);
                }
                Some(&self.entries[i].1)
            },
            None => {
                proof {
                    lemma_lookup_absent(self.pairs(), name@);
                }
                None
            },
        }
    }

    /// Whether a value is kept under `name`.
    pub fn contains_key(&self, name: &str) -> (r: bool)
        ensures
            r == self@.contains_key(name@),
    {
        self.get(name).is_some()
    }

    /// Keeps `value` under `name`. A value kept there before is replaced
    /// where it stood; a new name goes to the end.
    pub fn insert(&mut self, name: String, value: String)
        ensures
            final(self)@ == old(self)@.insert(name@, value@),
            final(self).pairs() == (if old(self)@.contains_key(name@) {
                old(self).pairs().update(
                    choose|i: int|
                        0 <= i < old(self).pairs().len() && old(self).pairs()[i].0 == name@
                            && forall|j: int|
                            0 <= j < i ==> (#[trigger] old(self).pairs()[j]).0 != name@,
                    (name@, value@),
                )
            } else {
                old(self).pairs().push((name@, value@))
            }),
            old(self).distinct() ==> final(self).distinct(),
    {
        let ghost before = self.pairs();
        let ghost k = name@;
        let ghost v = value@;
        match self.position(name.as_str()) {
            Some(i) => {
                self.entries.set(i, (name, value));
                proof {
                    lemma_lookup_first(before, k, i as int);
                    assert(self.pairs() =~= before.update(i as int, (k, v)));
                    assert forall|other: Seq<char>|
                        lookup(self.pairs(), other) == (if other == k {
                            Some(v)
                        } else {
                            lookup(before, other)
                        }) by {
                        lemma_lookup_update(before, i as int, k, v, other);
                    }
                    assert(self@ =~= old(self)@.insert(k, v));
                    let c = choose|c: int|
                        0 <= c < before.len() && before[c].0 == k && forall|j: int|
                            0 <= j < c ==> (#[trigger] before[j]).0 != k;
                    assert(c == i) by {
                        if c < i {
                            assert(before[c].0 != k);
                        }
                        if i < c {
                            assert(before[i as int].0 != k);
                        }
                    }
                    if distinct_names(before) {
                        assert forall|a: int, b: int| 0 <= a < b < self.pairs().len() implies (
                        #[trigger] self.pairs()[a]).0 != (#[trigger] self.pairs()[b]).0 by {
                            assert(before[a].0 != before[b].0);
                        }
                    }
                }
            },
            None => {
                self.entries.push((name, value));
                proof {
                    lemma_lookup_absent(before, k);
                    assert(self.pairs() =~= before.push((k, v)));
                    assert forall|other: Seq<char>|
                        lookup(self.pairs(), other) == (if other == k {
                            Some(v)
                        } else {
                            lookup(before, other)
                        }) by {
                        lemma_lookup_push(before, k, v, other);
                    }
                    assert(self@ =~= old(self)@.insert(k, v));
                    if distinct_names(before) {
                        assert forall|a: int, b: int| 0 <= a < b < self.pairs().len() implies (
                        #[trigger] self.pairs()[a]).0 != (#[trigger] self.pairs()[b]).0 by {
                            if b < before.len() {
                                assert(before[a].0 != before[b].0);
                            } else {
                                assert(before[a].0 != k);
                            }
                        }
                    }
                }
            },
        }
    }
}

impl Clone for FieldMap {
    /// A map with the same entries in the same order.
    fn clone(&self) -> (r: Self)
        ensures
            r.pairs() == self.pairs(),
            r@ == self@,
    {
        let mut entries: Vec<(String, String)> = Vec::new();
        let mut i: usize = 0;
        while i < self.entries.len()
            invariant
                i <= self.entries.len(),
                entries@.len() == i,
                forall|j: int|
                    0 <= j < i ==> (#[trigger] entries@[j]).0@ == self.entries@[j].0@
                        && entries@[j].1@ == self.entries@[j].1@,
            decreases self.entries.len() - i,
        {
            let name = self.entries[i].0.clone();
            let value = self.entries[i].1.clone();
            entries.push((name, value));
            i = i + 1;
        }
        let r = FieldMap { entries };
        proof {
            assert(r.pairs() =~= self.pairs());
            assert(r@ =~= self@);
        }
        r
    }
}

impl FieldMap {
    /// Whether every name of this map has the same value in the other.
    fn within(&self, other: &FieldMap) -> (r: bool)
        ensures
            r == (forall|name: Seq<char>| #[trigger]
                self@.contains_key(name) ==> other@.contains_key(name) && other@[name]
                    == self@[name]),
    {
        let mut i: usize = 0;
        while i < self.entries.len()
            invariant
                i <= self.entries.len(),
                forall|j: int|
                    0 <= j < i ==> other@.contains_key((#[trigger] self.pairs()[j]).0)
                        && other@[self.pairs()[j].0] == self@[self.pairs()[j].0],
            decreases self.entries.len() - i,
        {
            let name: &str = self.entries[i].0.as_str();
            let ghost k = self.pairs()[i as int].0;
            proof {
                assert(name@ == k);
                lemma_lookup_present(self.pairs(), i as int);
                assert(self@.contains_key(k));
            }
            let mine = self.get(name);
            let theirs = other.get(name);
            let agree = match (mine, theirs) {
                (Some(a), Some(b)) => crate::text::same_text(a.as_str(), b.as_str()),
                _ => false,
            };
            if !agree {
                return false;
            }
            i = i + 1;
        }
        proof {
            assert forall|name: Seq<char>| #[trigger] self@.contains_key(name) implies other@.contains_key(
                name,
            ) && other@[name] == self@[name] by {
                let j = lemma_lookup_witness(self.pairs(), name);
                assert(other@.contains_key(self.pairs()[j].0));
            }
        }
        true
    }

    /// Whether the two maps give the same names the same values.
    pub fn same(&self, other: &FieldMap) -> (r: bool)
        ensures
            r == (self@ == other@),
    {
        let a = self.within(other);
        let b = other.within(self);
        proof {
            if a && b {
                assert(self@ =~= other@);
            }
        }
        a && b
    }
}

impl PartialEq for FieldMap {
    /// Two maps are equal when they give the same names the same values,
    /// in whatever order they keep them.
    fn eq(&self, other: &FieldMap) -> (r: bool) {
        self.same(other)
    }
}

impl vstd::std_specs::cmp::PartialEqSpecImpl for FieldMap {
    open spec fn obeys_eq_spec() -> bool {
        true
    }

    open spec fn eq_spec(&self, other: &FieldMap) -> bool {
        self@ == other@
    }
}

/// A name that some pair has is given a value.
pub proof fn lemma_lookup_present(pairs: Seq<(Seq<char>, Seq<char>)>, i: int)
    requires
        0 <= i < pairs.len(),
    ensures
        lookup(pairs, pairs[i].0) is Some,
    decreases pairs.len(),
{
    if pairs[0].0 != pairs[i].0 {
        assert(pairs.drop_first()[i - 1] == pairs[i]);
        lemma_lookup_present(pairs.drop_first(), i - 1);
    }
}

/// A name that is given a value is the name of some pair.
pub proof fn lemma_lookup_witness(pairs: Seq<(Seq<char>, Seq<char>)>, name: Seq<char>) -> (i: int)
    requires
        lookup(pairs, name) is Some,
    ensures
        0 <= i < pairs.len(),
        pairs[i].0 == name,
    decreases pairs.len(),
{
    if pairs[0].0 == name {
        0
    } else {
        let j = lemma_lookup_witness(pairs.drop_first(), name);
        assert(pairs.drop_first()[j] == pairs[j + 1]);
        j + 1
    }
}

} // verus!
