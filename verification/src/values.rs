//! A value per name, in order of name.

use vstd::prelude::*;
use crate::single::Single;
use crate::text::chars_of;

verus! {

/// Whether one name sorts before another: by its first differing character, or by being
/// the start of it.
pub open spec fn sorts_before(a: Seq<char>, b: Seq<char>) -> bool
    decreases a.len(),
{
    if b.len() == 0 {
        false
    } else if a.len() == 0 {
        true
    } else if a[0] != b[0] {
        a[0] < b[0]
    } else {
        sorts_before(a.skip(1), b.skip(1))
    }
}

/// Of two different names one sorts before the other, and not both do.
pub proof fn lemma_sorts_total(a: Seq<char>, b: Seq<char>)
    ensures
        a == b ==> !sorts_before(a, b),
        a != b ==> (sorts_before(a, b) <==> !sorts_before(b, a)),
    decreases a.len(),
{
    if a.len() > 0 && b.len() > 0 && a[0] == b[0] {
        lemma_sorts_total(a.skip(1), b.skip(1));
        if a.skip(1) == b.skip(1) {
            assert(a =~= seq![a[0]] + a.skip(1));
            assert(b =~= seq![b[0]] + b.skip(1));
        }
    } else if a.len() == 0 && b.len() == 0 {
        assert(a =~= b);
    }
}

/// What sorts before a name that sorts before another sorts before that.
pub proof fn lemma_sorts_transitive(a: Seq<char>, b: Seq<char>, c: Seq<char>)
    requires
        sorts_before(a, b),
        sorts_before(b, c),
    ensures
        sorts_before(a, c),
    decreases a.len(),
{
    if a.len() > 0 && a[0] == b[0] && b[0] == c[0] {
        lemma_sorts_transitive(a.skip(1), b.skip(1), c.skip(1));
    }
}

/// Whether one name sorts before another.
pub fn is_before(a: &str, b: &str) -> (answer: bool)
    ensures
        answer == sorts_before(a@, b@),
{
    let left: Vec<char> = chars_of(a);
    let right: Vec<char> = chars_of(b);
    let mut i: usize = 0;
    proof {
        assert(a@.skip(0) =~= a@);
        assert(b@.skip(0) =~= b@);
    }
    while i < left.len() && i < right.len() && left[i] == right[i]
        invariant
            left@ == a@,
            right@ == b@,
            i <= left@.len(),
            i <= right@.len(),
            sorts_before(a@, b@) == sorts_before(a@.skip(i as int), b@.skip(i as int)),
        decreases left@.len() - i,
    {
        proof {
            assert(a@.skip(i as int).skip(1) =~= a@.skip(i + 1));
            assert(b@.skip(i as int).skip(1) =~= b@.skip(i + 1));
        }
        i = i + 1;
    }
    if i >= right.len() {
        false
    } else if i >= left.len() {
        true
    } else {
        left[i] < right[i]
    }
}

/// The numbers a document carries for a shader's parameters, each under its name.
#[derive(Debug)]
pub struct Values {
    entries: Vec<(String, Vec<Single>)>,
}

spec fn in_order(entries: Seq<(String, Vec<Single>)>) -> bool {
    forall|i: int, j: int|
        0 <= i < j < entries.len() ==> sorts_before(
            (#[trigger] entries[i]).0@,
            (#[trigger] entries[j]).0@,
        )
}

impl Values {
    /// The names, in order.
    pub closed spec fn names(&self) -> Seq<Seq<char>> {
        self.entries@.map_values(|entry: (String, Vec<Single>)| entry.0@)
    }

    /// The value of each name in the order of [`Values::names`].
    pub closed spec fn rows(&self) -> Seq<Seq<Single>> {
        self.entries@.map_values(|entry: (String, Vec<Single>)| entry.1@)
    }

    /// Whether each name has a value and the names are in order, none of them twice.
    pub closed spec fn wf(&self) -> bool {
        in_order(self.entries@)
    }

    /// The value of each name.
    pub open spec fn view(&self) -> Map<Seq<char>, Seq<Single>> {
        Map::new(
            |name: Seq<char>| self.names().contains(name),
            |name: Seq<char>| self.rows()[self.names().index_of(name)],
        )
    }

    /// What [`Values::wf`] gives of the names and their values.
    pub proof fn lemma_wf(&self)
        requires
            self.wf(),
        ensures
            self.names().len() == self.rows().len(),
            forall|i: int, j: int|
                0 <= i < j < self.names().len() ==> sorts_before(
                    #[trigger] self.names()[i],
                    #[trigger] self.names()[j],
                ),
            self.names().no_duplicates(),
    {
        assert forall|i: int, j: int| 0 <= i < j < self.names().len() implies sorts_before(
            #[trigger] self.names()[i],
            #[trigger] self.names()[j],
        ) by {
            assert(sorts_before(self.entries@[i].0@, self.entries@[j].0@));
        }
        assert forall|i: int, j: int|
            0 <= i < self.names().len() && 0 <= j < self.names().len() && i
                != j implies self.names()[i] != self.names()[j] by {
            lemma_sorts_total(self.names()[i], self.names()[j]);
            if i < j {
                assert(sorts_before(self.names()[i], self.names()[j]));
            } else {
                assert(sorts_before(self.names()[j], self.names()[i]));
            }
        }
    }

    /// Where a name stands gives its value.
    pub proof fn lemma_at(&self, i: int)
        requires
            self.wf(),
            0 <= i < self.names().len(),
        ensures
            self@.dom().contains(self.names()[i]),
            self@[self.names()[i]] == self.rows()[i],
    {
        self.lemma_wf();
        let name = self.names()[i];
        assert(self.names().contains(name));
        let j = self.names().index_of(name);
        assert(self.names()[j] == name);
        if i != j {
            assert(self.names()[i] != self.names()[j]);
        }
    }

    /// No values.
    pub fn new() -> (values: Values)
        ensures
            values.wf(),
            values@ == Map::<Seq<char>, Seq<Single>>::empty(),
            values.names().len() == 0,
    {
        let values = Values { entries: Vec::new() };
        proof {
            assert(values@ =~= Map::<Seq<char>, Seq<Single>>::empty());
        }
        values
    }

    /// How many names there are.
    pub fn len(&self) -> (count: usize)
        ensures
            count == self.names().len(),
    {
        self.entries.len()
    }

    /// The name at a place in the order.
    pub fn name_at(&self, place: usize) -> (name: Option<&str>)
        ensures
            match name {
                Some(name) => place < self.names().len() && name@ == self.names()[place as int],
                None => place >= self.names().len(),
            },
    {
        if place < self.entries.len() {
            Some(self.entries[place].0.as_str())
        } else {
            None
        }
    }

    /// The value at a place in the order.
    pub fn value_at(&self, place: usize) -> (value: Option<&Vec<Single>>)
        requires
            self.wf(),
        ensures
            match value {
                Some(value) => place < self.names().len() && value@ == self.rows()[place as int],
                None => place >= self.names().len(),
            },
    {
        if place < self.entries.len() {
            Some(&self.entries[place].1)
        } else {
            None
        }
    }

    /// Where a name stands, or where it would.
    fn place_of(&self, name: &str) -> (place: (usize, bool))
        requires
            self.wf(),
        ensures
            place.0 <= self.names().len(),
            place.1 ==> place.0 < self.names().len() && self.names()[place.0 as int] == name@,
            place.1 == self.names().contains(name@),
            forall|i: int| 0 <= i < place.0 ==> sorts_before(#[trigger] self.names()[i], name@),
            forall|i: int|
                place.0 <= i < self.names().len() && !(place.1 && i == place.0) ==> sorts_before(
                    name@,
                    #[trigger] self.names()[i],
                ),
    {
        let mut i: usize = 0;
        while i < self.entries.len() && is_before(self.entries[i].0.as_str(), name)
            invariant
                i <= self.entries@.len(),
                self.names().len() == self.entries@.len(),
                forall|j: int|
                    0 <= j < self.entries@.len() ==> #[trigger] self.names()[j]
                        == self.entries@[j].0@,
                forall|j: int| 0 <= j < i ==> sorts_before(#[trigger] self.names()[j], name@),
            decreases self.entries@.len() - i,
        {
            i = i + 1;
        }
        proof {
            self.lemma_wf();
        }
        if i >= self.entries.len() {
            proof {
                if self.names().contains(name@) {
                    let j = choose|j: int| 0 <= j < self.names().len() && self.names()[j] == name@;
                    lemma_sorts_total(self.names()[j], name@);
                    assert(sorts_before(self.names()[j], name@));
                }
            }
            return (i, false);
        }
        let same: bool = !is_before(name, self.entries[i].0.as_str());
        proof {
            let here = self.names()[i as int];
            assert(here == self.entries@[i as int].0@);
            lemma_sorts_total(here, name@);
            assert forall|j: int| i < j < self.names().len() implies sorts_before(
                name@,
                #[trigger] self.names()[j],
            ) by {
                assert(sorts_before(here, self.names()[j]));
                if !same {
                    lemma_sorts_transitive(name@, here, self.names()[j]);
                }
            }
            if !same && self.names().contains(name@) {
                let j = choose|j: int| 0 <= j < self.names().len() && self.names()[j] == name@;
                lemma_sorts_total(self.names()[j], name@);
                if j < i {
                    assert(sorts_before(self.names()[j], name@));
                }
            }
        }
        (i, same)
    }

    /// The value of a name, or `None`.
    pub fn get(&self, name: &str) -> (value: Option<&Vec<Single>>)
        requires
            self.wf(),
        ensures
            match value {
                Some(value) => self@.dom().contains(name@) && value@ == self@[name@],
                None => !self@.dom().contains(name@),
            },
    {
        let (place, there): (usize, bool) = self.place_of(name);
        if there {
            proof {
                self.lemma_at(place as int);
            }
            Some(&self.entries[place].1)
        } else {
            None
        }
    }

    /// Whether a name has a value.
    pub fn contains_key(&self, name: &str) -> (answer: bool)
        requires
            self.wf(),
        ensures
            answer == self@.dom().contains(name@),
    {
        let (_place, there): (usize, bool) = self.place_of(name);
        there
    }

    /// Gives a name a value, in place of the one it had.
    pub fn insert(&mut self, name: String, value: Vec<Single>)
        requires
            old(self).wf(),
        ensures
            final(self).wf(),
            final(self)@ == old(self)@.insert(name@, value@),
            old(self)@.dom().contains(name@) ==> final(self).names() == old(self).names(),
    {
        let ghost before = *self;
        let (place, there): (usize, bool) = self.place_of(name.as_str());
        let ghost key = name@;
        let ghost row = value@;
        proof {
            before.lemma_wf();
        }
        if there {
            self.entries.set(place, (name, value));
            proof {
                assert(self.names() =~= before.names());
                assert(self.rows() =~= before.rows().update(place as int, row));
                assert forall|i: int, j: int| 0 <= i < j < self.entries@.len() implies sorts_before(
                    (#[trigger] self.entries@[i]).0@,
                    (#[trigger] self.entries@[j]).0@,
                ) by {
                    assert(self.names()[i] == before.names()[i]);
                    assert(self.names()[j] == before.names()[j]);
                    assert(sorts_before(before.names()[i], before.names()[j]));
                }
            }
        } else {
            self.entries.insert(place, (name, value));
            proof {
                assert(self.names() =~= before.names().insert(place as int, key));
                assert(self.rows() =~= before.rows().insert(place as int, row));
                assert forall|i: int, j: int| 0 <= i < j < self.entries@.len() implies sorts_before(
                    (#[trigger] self.entries@[i]).0@,
                    (#[trigger] self.entries@[j]).0@,
                ) by {
                    let a = if i < place {
                        i
                    } else {
                        i - 1
                    };
                    let b = if j < place {
                        j
                    } else {
                        j - 1
                    };
                    assert(i != place ==> self.names()[i] == before.names()[a]);
                    assert(j != place ==> self.names()[j] == before.names()[b]);
                    assert(self.entries@[i].0@ == self.names()[i]);
                    assert(self.entries@[j].0@ == self.names()[j]);
                    if i != place && j != place {
                        assert(sorts_before(before.names()[a], before.names()[b]));
                    } else if i == place {
                        assert(sorts_before(key, before.names()[b]));
                    } else {
                        assert(sorts_before(before.names()[a], key));
                    }
                }
            }
        }
        proof {
            let goal = before@.insert(key, row);
            assert(self.names()[place as int] == key);
            assert forall|other: Seq<char>|
                self@.dom().contains(other) <==> goal.dom().contains(other) by {
                if before.names().contains(other) {
                    let j = before.names().index_of(other);
                    let k = if there || j < place {
                        j
                    } else {
                        j + 1
                    };
                    assert(self.names()[k] == other);
                }
                if self.names().contains(other) && other != key {
                    let k = self.names().index_of(other);
                    let j = if there || k < place {
                        k
                    } else {
                        k - 1
                    };
                    assert(before.names()[j] == other);
                }
            }
            assert forall|other: Seq<char>| self@.dom().contains(other) implies #[trigger] self@[other]
                == goal[other] by {
                let k = self.names().index_of(other);
                assert(self.names()[k] == other);
                self.lemma_at(k);
                if k == place {
                    assert(self.rows()[k] == row);
                } else {
                    let j = if there || k < place {
                        k
                    } else {
                        k - 1
                    };
                    assert(before.names()[j] == other);
                    before.lemma_at(j);
                    assert(self.rows()[k] == before.rows()[j]);
                    self.lemma_wf();
                    assert(other != key);
                }
            }
            assert(self@ =~= goal);
        }
    }

    /// Drops the value at a place in the order.
    pub fn remove_at(&mut self, place: usize)
        requires
            old(self).wf(),
            place < old(self).names().len(),
        ensures
            final(self).wf(),
            final(self)@ == old(self)@.remove(old(self).names()[place as int]),
            final(self).names() == old(self).names().remove(place as int),
    {
        let ghost before = *self;
        let ghost key = self.names()[place as int];
        proof {
            before.lemma_wf();
        }
        let _ = self.entries.remove(place);
        proof {
            assert(self.names() =~= before.names().remove(place as int));
            assert(self.rows() =~= before.rows().remove(place as int));
            assert forall|i: int, j: int| 0 <= i < j < self.entries@.len() implies sorts_before(
                (#[trigger] self.entries@[i]).0@,
                (#[trigger] self.entries@[j]).0@,
            ) by {
                let a = if i < place {
                    i
                } else {
                    i + 1
                };
                let b = if j < place {
                    j
                } else {
                    j + 1
                };
                assert(self.names()[i] == before.names()[a]);
                assert(self.names()[j] == before.names()[b]);
                assert(sorts_before(before.names()[a], before.names()[b]));
            }
            let goal = before@.remove(key);
            assert forall|other: Seq<char>|
                self@.dom().contains(other) <==> goal.dom().contains(other) by {
                if before.names().contains(other) && other != key {
                    let j = before.names().index_of(other);
                    let k = if j < place {
                        j
                    } else {
                        j - 1
                    };
                    assert(self.names()[k] == other);
                }
                if self.names().contains(other) {
                    let k = self.names().index_of(other);
                    let j = if k < place {
                        k
                    } else {
                        k + 1
                    };
                    assert(before.names()[j] == other);
                    assert(before.names()[place as int] == key);
                }
            }
            assert forall|other: Seq<char>| self@.dom().contains(other) implies #[trigger] self@[other]
                == goal[other] by {
                let k = self.names().index_of(other);
                assert(self.names()[k] == other);
                self.lemma_at(k);
                let j = if k < place {
                    k
                } else {
                    k + 1
                };
                assert(before.names()[j] == other);
                before.lemma_at(j);
                assert(self.rows()[k] == before.rows()[j]);
            }
            assert(self@ =~= goal);
        }
    }
}

} // verus!
