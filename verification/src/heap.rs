//! The queue of a flood: cells waiting to be spread from, the lowest first.

use vstd::prelude::*;
use vstd::multiset::Multiset;
use vstd::seq_lib::*;

verus! {

/// A cell waiting to be spread from, with the key it is taken by.
#[derive(Clone, Copy, Debug, PartialEq, Eq, Structural)]
pub struct Pending {
    /// The order key of the cell's water surface.
    pub key: u32,
    /// The cell.
    pub index: usize,
}

impl Pending {
    /// Whether this cell is taken before the other: the lower key, then the lower index.
    pub open spec fn precedes(self, other: Pending) -> bool {
        self.key < other.key || (self.key == other.key && self.index < other.index)
    }

    /// Whether this cell is taken before the other.
    pub fn is_before(self, other: Pending) -> (answer: bool)
        ensures
            answer == self.precedes(other),
    {
        self.key < other.key || (self.key == other.key && self.index < other.index)
    }
}

/// A binary heap that gives the first of its cells.
pub struct Queue {
    items: Vec<Pending>,
}

spec fn ordered(items: Seq<Pending>) -> bool {
    forall|i: int| 0 < i < items.len() ==> !(#[trigger] items[i]).precedes(items[(i - 1) / 2])
}

/// The heap order, but that the cell at `hole` may precede those above it.
spec fn ordered_above(items: Seq<Pending>, hole: int) -> bool {
    &&& forall|i: int|
        0 < i < items.len() && i != hole ==> !(#[trigger] items[i]).precedes(items[(i - 1) / 2])
    &&& forall|i: int|
        0 < i < items.len() && (i - 1) / 2 == hole && hole > 0 ==> !(#[trigger] items[i]).precedes(
            items[(hole - 1) / 2],
        )
}

/// The heap order, but that the cell at `hole` may follow those under it.
spec fn ordered_below(items: Seq<Pending>, hole: int) -> bool {
    &&& forall|i: int|
        0 < i < items.len() && (i - 1) / 2 != hole ==> !(#[trigger] items[i]).precedes(
            items[(i - 1) / 2],
        )
    &&& forall|i: int|
        0 < i < items.len() && (i - 1) / 2 == hole && hole > 0 ==> !(#[trigger] items[i]).precedes(
            items[(hole - 1) / 2],
        )
}

proof fn lemma_swap(items: Seq<Pending>, i: int, j: int)
    requires
        0 <= i < items.len(),
        0 <= j < items.len(),
    ensures
        items.update(i, items[j]).update(j, items[i]).to_multiset() == items.to_multiset(),
{
    let once = items.update(i, items[j]);
    to_multiset_update(items, i, items[j]);
    to_multiset_update(once, j, items[i]);
    to_multiset_contains(items, items[i]);
    to_multiset_contains(items, items[j]);
    assert(items.contains(items[i]) && items.contains(items[j]));
    assert(once.update(j, items[i]).to_multiset() =~= items.to_multiset());
}

proof fn lemma_first_is_least(items: Seq<Pending>, i: int)
    requires
        ordered(items),
        0 <= i < items.len(),
    ensures
        !items[i].precedes(items[0]),
    decreases i,
{
    if i > 0 {
        lemma_first_is_least(items, (i - 1) / 2);
        assert(!items[i].precedes(items[(i - 1) / 2]));
    }
}

impl Queue {
    /// The cells waiting.
    pub closed spec fn view(&self) -> Multiset<Pending> {
        self.items@.to_multiset()
    }

    /// Whether the heap's order holds.
    pub closed spec fn wf(&self) -> bool {
        ordered(self.items@)
    }

    /// An empty queue.
    pub fn new() -> (queue: Queue)
        ensures
            queue.wf(),
            queue@ == Multiset::<Pending>::empty(),
    {
        let queue = Queue { items: Vec::new() };
        proof {
            queue.items@.to_multiset_ensures();
            to_multiset_len(queue.items@);
            assert(queue@.len() == 0);
            assert(queue@ =~= Multiset::<Pending>::empty());
        }
        queue
    }

    fn swap(&mut self, i: usize, j: usize)
        requires
            i < old(self).items@.len(),
            j < old(self).items@.len(),
        ensures
            final(self).items@ == old(self).items@.update(i as int, old(self).items@[j as int]).update(
                j as int,
                old(self).items@[i as int],
            ),
            final(self)@ == old(self)@,
    {
        proof {
            lemma_swap(self.items@, i as int, j as int);
        }
        let a: Pending = self.items[i];
        let b: Pending = self.items[j];
        self.items.set(i, b);
        self.items.set(j, a);
    }

    /// Adds a cell.
    pub fn push(&mut self, item: Pending)
        requires
            old(self).wf(),
        ensures
            final(self).wf(),
            final(self)@ == old(self)@.insert(item),
    {
        proof {
            to_multiset_build(self.items@, item);
        }
        self.items.push(item);
        let mut hole: usize = self.items.len() - 1;
        while hole > 0 && self.items[hole].is_before(self.items[(hole - 1) / 2])
            invariant
                hole < self.items@.len(),
                ordered_above(self.items@, hole as int),
                self@ == old(self)@.insert(item),
            decreases hole,
        {
            let up: usize = (hole - 1) / 2;
            let ghost before = self.items@;
            self.swap(hole, up);
            proof {
                let after = self.items@;
                assert forall|i: int| 0 < i < after.len() && i != up implies !(
                #[trigger] after[i]).precedes(after[(i - 1) / 2]) by {
                    assert(!before[i].precedes(before[(i - 1) / 2]) || i == hole);
                    if (i - 1) / 2 == hole {
                        assert(!before[i].precedes(before[(hole - 1) / 2]));
                    }
                }
                assert forall|i: int|
                    0 < i < after.len() && (i - 1) / 2 == up && up > 0 implies !(
                #[trigger] after[i]).precedes(after[(up - 1) / 2]) by {
                    assert(!before[up as int].precedes(before[(up - 1) / 2]));
                    if i != hole {
                        assert(!before[i].precedes(before[up as int]));
                    }
                }
            }
            hole = up;
        }
    }

    /// Takes the first cell.
    pub fn pop(&mut self) -> (first: Option<Pending>)
        requires
            old(self).wf(),
        ensures
            final(self).wf(),
            match first {
                Some(item) => old(self)@.count(item) > 0 && final(self)@ == old(self)@.remove(item)
                    && forall|other: Pending|
                    old(self)@.count(other) > 0 ==> !#[trigger] other.precedes(item),
                None => old(self)@ == Multiset::<Pending>::empty() && final(self)@ == old(self)@,
            },
    {
        let ghost start = self.items@;
        if self.items.len() == 0 {
            proof {
                to_multiset_len(self.items@);
                assert(self@.len() == 0);
                assert(self@ =~= Multiset::<Pending>::empty());
            }
            return None;
        }
        let first: Pending = self.items.swap_remove(0);
        proof {
            assert forall|other: Pending| start.to_multiset().count(other) > 0 implies !(
            #[trigger] other.precedes(first)) by {
                to_multiset_contains(start, other);
                let i = choose|i: int| 0 <= i < start.len() && start[i] == other;
                lemma_first_is_least(start, i);
            }
            to_multiset_contains(start, first);
            assert(start.contains(start[0]));
            let moved = start.update(0, start.last());
            to_multiset_update(start, 0, start.last());
            assert(moved.remove(moved.len() - 1) =~= moved.drop_last());
            to_multiset_remove(moved, moved.len() - 1);
            assert(self.items@.to_multiset() =~= start.to_multiset().remove(first));
            let now = self.items@;
            assert forall|i: int| 0 < i < now.len() && (i - 1) / 2 != 0 implies !(
            #[trigger] now[i]).precedes(now[(i - 1) / 2]) by {
                assert(!start[i].precedes(start[(i - 1) / 2]));
            }
        }
        let count: usize = self.items.len();
        let mut hole: usize = 0;
        while hole < count / 2
            invariant
                hole <= count,
                count == self.items@.len(),
                ordered_below(self.items@, hole as int),
                self@ == start.to_multiset().remove(first),
            ensures
                ordered(self.items@),
            decreases count - hole,
        {
            let left: usize = 2 * hole + 1;
            let mut least: usize = left;
            if left + 1 < count && self.items[left + 1].is_before(self.items[left]) {
                least = left + 1;
            }
            if !self.items[least].is_before(self.items[hole]) {
                proof {
                    let now = self.items@;
                    assert forall|i: int| 0 < i < now.len() implies !(#[trigger] now[i]).precedes(
                        now[(i - 1) / 2],
                    ) by {
                        if (i - 1) / 2 == hole {
                            assert(i == left || i == left + 1);
                        }
                    }
                }
                break;
            }
            let ghost before = self.items@;
            self.swap(hole, least);
            proof {
                let after = self.items@;
                assert forall|i: int| 0 < i < after.len() && (i - 1) / 2 != least implies !(
                #[trigger] after[i]).precedes(after[(i - 1) / 2]) by {
                    if (i - 1) / 2 == hole {
                        assert(i == left || i == left + 1);
                    } else if i == hole {
                        assert(!before[least as int].precedes(before[(hole - 1) / 2]));
                    } else {
                        assert(!before[i].precedes(before[(i - 1) / 2]));
                    }
                }
                assert forall|i: int|
                    0 < i < after.len() && (i - 1) / 2 == least && least > 0 implies !(
                #[trigger] after[i]).precedes(after[(least - 1) / 2]) by {
                    assert(!before[i].precedes(before[(i - 1) / 2]));
                }
            }
            hole = least;
        }
        Some(first)
    }
}

} // verus!
