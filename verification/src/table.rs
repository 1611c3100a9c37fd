//! A table of values by name, in the order in which the names came.

use crate::text::same_text;
use vstd::prelude::*;

verus! {

/// The position of the first entry with this name.
pub open spec fn name_at<V>(entries: Seq<(Seq<char>, V)>, name: Seq<char>) -> Option<int>
    decreases entries.len(),
{
    if entries.len() == 0 {
        None
    } else {
        match name_at(entries.drop_last(), name) {
            Some(i) => Some(i),
            None => if entries.last().0 == name {
                Some(entries.len() - 1)
            } else {
                None
            },
        }
    }
}

/// The value that stands under a name.
pub open spec fn lookup<V>(entries: Seq<(Seq<char>, V)>, name: Seq<char>) -> Option<V> {
    match name_at(entries, name) {
        Some(i) => Some(entries[i].1),
        None => None,
    }
}

/// The entries with the value under a name replaced, or with a new entry behind
/// the others where the name is new.
pub open spec fn inserted<V>(entries: Seq<(Seq<char>, V)>, name: Seq<char>, value: V) -> Seq<(Seq<char>, V)> {
    match name_at(entries, name) {
        Some(i) => entries.update(i, (entries[i].0, value)),
        None => entries.push((name, value)),
    }
}

/// The entries without the first one under a name.
pub open spec fn removed<V>(entries: Seq<(Seq<char>, V)>, name: Seq<char>) -> Seq<(Seq<char>, V)> {
    match name_at(entries, name) {
        Some(i) => entries.remove(i),
        None => entries,
    }
}

/// Whether every name stands in the entries once.
pub open spec fn names_unique<V>(entries: Seq<(Seq<char>, V)>) -> bool {
    forall|i: int, j: int|
        0 <= i < j < entries.len() ==> (#[trigger] entries[i]).0 != (#[trigger] entries[j]).0
}

/// A found entry is the first one with the name that was asked for.
pub proof fn lemma_name_at<V>(entries: Seq<(Seq<char>, V)>, name: Seq<char>)
    ensures
        match name_at(entries, name) {
            Some(i) => 0 <= i < entries.len() && entries[i].0 == name && forall|j: int|
                0 <= j < i ==> (#[trigger] entries[j]).0 != name,
            None => forall|j: int| 0 <= j < entries.len() ==> (#[trigger] entries[j]).0 != name,
        },
    decreases entries.len(),
{
    if entries.len() > 0 {
        lemma_name_at(entries.drop_last(), name);
        assert forall|j: int| 0 <= j < entries.len() - 1 implies entries.drop_last()[j]
            == #[trigger] entries[j] by {}
    }
}

/// The first entry that matches is the one found.
pub proof fn lemma_name_is<V>(entries: Seq<(Seq<char>, V)>, name: Seq<char>, i: int)
    requires
        0 <= i < entries.len(),
        entries[i].0 == name,
        forall|j: int| 0 <= j < i ==> (#[trigger] entries[j]).0 != name,
    ensures
        name_at(entries, name) == Some(i),
{
    lemma_name_at(entries, name);
}

/// What an insertion leaves under each name: the new value under its own, and
/// under every other what was there before.
pub proof fn lemma_inserted<V>(entries: Seq<(Seq<char>, V)>, name: Seq<char>, value: V, asked: Seq<char>)
    ensures
        lookup(inserted(entries, name, value), asked) == if asked == name {
            Some(value)
        } else {
            lookup(entries, asked)
        },
        names_unique(entries) ==> names_unique(inserted(entries, name, value)),
{
    let after = inserted(entries, name, value);
    lemma_name_at(entries, name);
    lemma_name_at(entries, asked);
    lemma_name_at(after, asked);
    if asked == name {
        match name_at(entries, name) {
            Some(i) => {
                lemma_name_is(after, asked, i);
            },
            None => {
                lemma_name_is(after, asked, entries.len() as int);
            },
        }
    } else {
        match name_at(entries, asked) {
            Some(i) => {
                lemma_name_is(after, asked, i);
            },
            None => {},
        }
    }
}

/// What a removal leaves under each name, where every name stands once: nothing
/// under its own, and under every other what was there before.
pub proof fn lemma_removed<V>(entries: Seq<(Seq<char>, V)>, name: Seq<char>, asked: Seq<char>)
    requires
        names_unique(entries),
    ensures
        lookup(removed(entries, name), asked) == if asked == name {
            None
        } else {
            lookup(entries, asked)
        },
        names_unique(removed(entries, name)),
{
    let after = removed(entries, name);
    lemma_name_at(entries, name);
    lemma_name_at(entries, asked);
    lemma_name_at(after, asked);
    match name_at(entries, name) {
        Some(i) => {
            assert forall|k: int| 0 <= k < after.len() implies #[trigger] after[k] == (if k < i {
                entries[k]
            } else {
                entries[k + 1]
            }) by {}
            if asked != name {
                match name_at(entries, asked) {
                    Some(j) => {
                        lemma_name_is(
                            after,
                            asked,
                            if j < i {
                                j
                            } else {
                                j - 1
                            },
                        );
                    },
                    None => {},
                }
            }
        },
        None => {},
    }
}

/// Where every name stands once, each value stands under its name.
pub proof fn lemma_lookup_at<V>(entries: Seq<(Seq<char>, V)>, i: int)
    requires
        names_unique(entries),
        0 <= i < entries.len(),
    ensures
        lookup(entries, entries[i].0) == Some(entries[i].1),
{
    lemma_name_is(entries, entries[i].0, i);
}

/// Values by name.
pub struct NameTable<V> {
    pub entries: Vec<(String, V)>,
}

impl<V> View for NameTable<V> {
    type V = Seq<(Seq<char>, V)>;

    open spec fn view(&self) -> Seq<(Seq<char>, V)> {
        Seq::new(self.entries@.len(), |i: int| (self.entries@[i].0@, self.entries@[i].1))
    }
}

impl<V> NameTable<V> {
    /// A table without entries.
    pub fn new() -> (table: NameTable<V>)
        ensures
            table@ == Seq::<(Seq<char>, V)>::empty(),
    {
        let table = NameTable { entries: Vec::new() };
        proof {
            assert(table@ =~= Seq::empty());
        }
        table
    }

    /// The position of the first entry with this name.
    pub fn position(&self, name: &str) -> (found: Option<usize>)
        ensures
            found is Some <==> name_at(self@, name@) is Some,
            found is Some ==> name_at(self@, name@) == Some(found->0 as int) && found->0
                < self@.len(),
    {
        let mut i: usize = 0;
        while i < self.entries.len()
            invariant
                i <= self@.len(),
                forall|j: int| 0 <= j < i ==> (#[trigger] self@[j]).0 != name@,
            decreases self.entries.len() - i,
        {
            if same_text(self.entries[i].0.as_str(), name) {
                proof {
                    lemma_name_is(self@, name@, i as int);
                }
                return Some(i);
            }
            i = i + 1;
        }
        proof {
            lemma_name_at(self@, name@);
        }
        None
    }

    /// The value under a name.
    pub fn get(&self, name: &str) -> (found: Option<&V>)
        ensures
            match found {
                Some(value) => lookup(self@, name@) == Some(*value),
                None => lookup(self@, name@) is None,
            },
    {
        match self.position(name) {
            Some(i) => Some(&self.entries[i].1),
            None => None,
        }
    }

    /// Whether there is a value under a name.
    pub fn contains(&self, name: &str) -> (b: bool)
        ensures
            b == lookup(self@, name@) is Some,
    {
        self.position(name).is_some()
    }

    /// Puts a value under a name, in place of the one that was there.
    pub fn insert(&mut self, name: String, value: V)
        ensures
            final(self)@ == inserted(old(self)@, name@, value),
    {
        match self.position(name.as_str()) {
            Some(i) => {
                self.entries[i].1 = value;
            },
            None => {
                self.entries.push((name, value));
            },
        }
        proof {
            assert(self@ =~= inserted(old(self)@, name@, value));
        }
    }

    /// Takes the value out from under a name.
    pub fn remove(&mut self, name: &str) -> (taken: Option<V>)
        ensures
            final(self)@ == removed(old(self)@, name@),
            taken == lookup(old(self)@, name@),
    {
        match self.position(name) {
            Some(i) => {
                let taken = self.entries.remove(i).1;
                proof {
                    assert(self@ =~= removed(old(self)@, name@));
                }
                Some(taken)
            },
            None => None,
        }
    }
}

/// The entries with each value taken as its model.
pub open spec fn modelled<V: View>(entries: Seq<(Seq<char>, V)>) -> Seq<(Seq<char>, V::V)> {
    Seq::new(entries.len(), |i: int| (entries[i].0, entries[i].1@))
}

/// Names are found in the models where they are found in the entries.
pub proof fn lemma_modelled_name<V: View>(entries: Seq<(Seq<char>, V)>, name: Seq<char>)
    ensures
        name_at(modelled(entries), name) == name_at(entries, name),
{
    lemma_name_at(entries, name);
    lemma_name_at(modelled(entries), name);
    match name_at(entries, name) {
        Some(i) => {
            assert(modelled(entries)[i].0 == name);
            assert forall|j: int| 0 <= j < i implies (#[trigger] modelled(entries)[j]).0 != name by {
                assert(entries[j].0 != name);
            }
            lemma_name_is(modelled(entries), name, i);
        },
        None => {
            match name_at(modelled(entries), name) {
                Some(j) => {
                    assert(entries[j].0 == name);
                },
                None => {},
            }
        },
    }
}

/// What stands under a name in the models is the model of what stands under it.
pub proof fn lemma_modelled_lookup<V: View>(entries: Seq<(Seq<char>, V)>, name: Seq<char>)
    ensures
        lookup(modelled(entries), name) == match lookup(entries, name) {
            Some(v) => Some(v@),
            None => None,
        },
{
    lemma_name_at(entries, name);
    lemma_modelled_name(entries, name);
}

/// Insertion, removal and lookup act on the models as they do on the entries.
pub proof fn lemma_modelled<V: View>(entries: Seq<(Seq<char>, V)>, name: Seq<char>, value: V)
    ensures
        modelled(inserted(entries, name, value)) == inserted(modelled(entries), name, value@),
        modelled(removed(entries, name)) == removed(modelled(entries), name),
        lookup(modelled(entries), name) == match lookup(entries, name) {
            Some(v) => Some(v@),
            None => None,
        },
{
    lemma_name_at(entries, name);
    lemma_modelled_name(entries, name);
    assert(modelled(inserted(entries, name, value)) =~= inserted(modelled(entries), name, value@));
    assert(modelled(removed(entries, name)) =~= removed(modelled(entries), name));
}

/// A name stands for the value of the first entry that has it, and for none where no entry
/// does.
pub proof fn law_lookup_finds_the_first<V>(entries: Seq<(Seq<char>, V)>, name: Seq<char>, i: int)
    ensures
        0 <= i < entries.len() && entries[i].0 == name && (forall|j: int|
            0 <= j < i ==> (#[trigger] entries[j]).0 != name) ==> lookup(entries, name) == Some(
            entries[i].1,
        ),
        (forall|j: int| 0 <= j < entries.len() ==> (#[trigger] entries[j]).0 != name) ==> lookup(
            entries,
            name,
        ) is None,
{
    lemma_name_at(entries, name);
}

/// Inserting changes what stands under the name and nothing else: every other name stands for
/// what it did, and every entry keeps its place.
pub proof fn law_insertion_changes_one_name<V>(
    entries: Seq<(Seq<char>, V)>,
    name: Seq<char>,
    value: V,
    i: int,
)
    ensures
        lookup(inserted(entries, name, value), name) == Some(value),
        0 <= i < entries.len() ==> inserted(entries, name, value)[i].0 == entries[i].0,
        0 <= i < entries.len() && entries[i].0 != name ==> inserted(entries, name, value)[i]
            == entries[i],
        inserted(entries, name, value).len() <= entries.len() + 1,
        inserted(entries, name, value).len() >= entries.len(),
{
    lemma_name_at(entries, name);
    lemma_inserted(entries, name, value, name);
}

} // verus!
