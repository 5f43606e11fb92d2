//! The order in which to take things that read each other.

use vstd::prelude::*;
use vstd::set_lib::*;
use crate::counting::lemma_distinct_leave_room;
use crate::order::{
    is_circle, lemma_no_circle, lemma_visit_all, reads_one, visited, visited_all, visiting, Reads,
};

verus! {

/// Places as numbers.
pub open spec fn places(list: Seq<usize>) -> Seq<int> {
    list.map_values(|place: usize| place as int)
}

/// What each thing reads, as numbers.
pub open spec fn rows_of(reads: Seq<Vec<usize>>) -> Seq<Seq<int>> {
    reads.map_values(|row: Vec<usize>| places(row@))
}

/// What each thing reads; nothing outside the list.
pub open spec fn reads_in(rows: Seq<Seq<int>>) -> Reads {
    |place: int|
        if 0 <= place < rows.len() {
            rows[place]
        } else {
            Seq::empty()
        }
}

/// Every place, in order.
pub open spec fn in_turn(count: nat) -> Seq<int> {
    Seq::new(count, |place: int| place)
}

/// The order of things that read each other: depth first from each in turn, or the first
/// circle that runs into.
pub open spec fn ordered(rows: Seq<Seq<int>>) -> Result<Seq<int>, Seq<int>> {
    visited_all(reads_in(rows), rows.len(), in_turn(rows.len()), Seq::empty(), Seq::empty())
}

/// Whether nothing reads outside the list.
pub open spec fn rows_fit(rows: Seq<Seq<int>>) -> bool {
    forall|a: int, i: int|
        0 <= a < rows.len() && 0 <= i < rows[a].len() ==> 0 <= #[trigger] rows[a][i] < rows.len()
}

/// How far a visit has got with a thing.
#[derive(Clone, Copy, Debug, PartialEq, Eq, Structural)]
enum Mark {
    Unvisited,
    InProgress,
    Done,
}

spec fn marked(marks: Seq<Mark>, order: Seq<usize>, stack: Seq<usize>, count: int) -> bool {
    &&& marks.len() == count
    &&& places(stack).no_duplicates()
    &&& forall|i: int| 0 <= i < stack.len() ==> (#[trigger] stack[i]) < count
    &&& forall|c: int|
        0 <= c < count ==> (#[trigger] marks[c] == Mark::Done <==> places(order).contains(c))
    &&& forall|c: int|
        0 <= c < count ==> (#[trigger] marks[c] == Mark::InProgress <==> places(stack).contains(c))
}

proof fn lemma_places_push(list: Seq<usize>, place: usize)
    ensures
        places(list.push(place)) == places(list).push(place as int),
        forall|c: int|
            places(list.push(place)).contains(c) <==> places(list).contains(c) || c == place,
{
    assert(places(list.push(place)) =~= places(list).push(place as int));
    assert forall|c: int|
        places(list.push(place)).contains(c) <==> places(list).contains(c) || c == place by {
        let more = places(list.push(place));
        if places(list).contains(c) {
            let k = choose|k: int| 0 <= k < list.len() && places(list)[k] == c;
            assert(more[k] == c);
        }
        if c == place {
            assert(more[list.len() as int] == c);
        }
        if more.contains(c) && c != place {
            let k = choose|k: int| 0 <= k < more.len() && more[k] == c;
            assert(places(list)[k] == c);
        }
    }
}

/// Visits one thing.
fn visit(
    index: usize,
    reads: &Vec<Vec<usize>>,
    marks: &mut Vec<Mark>,
    order: &mut Vec<usize>,
    stack: &mut Vec<usize>,
) -> (answer: Result<(), Vec<usize>>)
    requires
        index < reads@.len(),
        rows_fit(rows_of(reads@)),
        marked(old(marks)@, old(order)@, old(stack)@, reads@.len() as int),
    ensures
        match answer {
            Ok(_) => visited(
                reads_in(rows_of(reads@)),
                reads@.len(),
                index as int,
                places(old(order)@),
                places(old(stack)@),
            ) == Ok::<Seq<int>, Seq<int>>(places(final(order)@)) && final(stack)@ == old(stack)@
                && marked(final(marks)@, final(order)@, final(stack)@, reads@.len() as int),
            Err(circle) => visited(
                reads_in(rows_of(reads@)),
                reads@.len(),
                index as int,
                places(old(order)@),
                places(old(stack)@),
            ) == Err::<Seq<int>, Seq<int>>(places(circle@)) && forall|i: int|
                0 <= i < circle@.len() ==> (#[trigger] circle@[i]) < reads@.len(),
        },
    decreases reads@.len() - old(stack)@.len(),
{
    let ghost rows = rows_of(reads@);
    let ghost graph = reads_in(rows);
    let ghost count = reads@.len();
    let ghost open = places(stack@);
    let ghost done = places(order@);
    if marks[index] == Mark::Done {
        return Ok(());
    }
    if marks[index] == Mark::InProgress {
        let mut start: usize = 0;
        while start < stack.len() && stack[start] != index
            invariant
                start <= stack@.len(),
                open == places(stack@),
                open.contains(index as int),
                forall|j: int| 0 <= j < start ==> open[j] != index,
            decreases stack@.len() - start,
        {
            start = start + 1;
        }
        proof {
            open.index_of_first_ensures(index as int);
            let k = choose|k: int| 0 <= k < open.len() && open[k] == index;
            assert(start <= k);
            assert(open[start as int] == index);
            let first = open.index_of_first(index as int)->0;
            if first < start {
                assert(open[first] != index);
            }
            assert(open.index_of_first(index as int) == Some(start as int));
        }
        let mut circle: Vec<usize> = Vec::new();
        let mut k: usize = start;
        while k < stack.len()
            invariant
                start <= k <= stack@.len(),
                circle@ == stack@.subrange(start as int, k as int),
                forall|i: int| 0 <= i < stack@.len() ==> (#[trigger] stack@[i]) < count,
            decreases stack@.len() - k,
        {
            proof {
                assert(stack@.subrange(start as int, k + 1) =~= stack@.subrange(
                    start as int,
                    k as int,
                ).push(stack@[k as int]));
            }
            circle.push(stack[k]);
            k = k + 1;
        }
        circle.push(index);
        proof {
            assert(places(circle@) =~= open.skip(start as int).push(index as int));
        }
        return Err(circle);
    }
    proof {
        assert(marks@[index as int] == Mark::Unvisited);
        assert forall|i: int| 0 <= i < open.len() implies 0 <= #[trigger] open[i] < count by {
            assert(stack@[i] < count);
        }
        lemma_distinct_leave_room(open, count as int, index as int);
        lemma_places_push(stack@, index);
    }
    marks.set(index, Mark::InProgress);
    let ghost stack_before = stack@;
    stack.push(index);
    let ghost deeper = places(stack@);
    proof {
        assert(deeper == open.push(index as int));
        assert forall|i: int, j: int|
            0 <= i < deeper.len() && 0 <= j < deeper.len() && i != j implies deeper[i]
            != deeper[j] by {
            if i < open.len() {
                assert(open.contains(open[i]));
            }
            if j < open.len() {
                assert(open.contains(open[j]));
            }
        }
    }
    let row: &Vec<usize> = &reads[index];
    let ghost list = places(row@);
    proof {
        assert(rows[index as int] == list);
        assert(list.skip(0) =~= list);
    }
    let mut k: usize = 0;
    while k < row.len()
        invariant
            k <= row@.len(),
            list == places(row@),
            rows == rows_of(reads@),
            graph == reads_in(rows),
            count == reads@.len(),
            rows_fit(rows),
            index < count,
            rows[index as int] == list,
            deeper == places(stack@),
            stack@ == stack_before.push(index),
            stack_before == old(stack)@,
            stack_before.len() < count,
            open == places(stack_before),
            done == places(old(order)@),
            deeper == open.push(index as int),
            !done.contains(index as int),
            !open.contains(index as int),
            marked(marks@, order@, stack@, count as int),
            visited_all(graph, count, list, done, deeper) == visited_all(
                graph,
                count,
                list.skip(k as int),
                places(order@),
                deeper,
            ),
        decreases row@.len() - k,
    {
        let next: usize = row[k];
        proof {
            assert(rows[index as int][k as int] == next);
            assert(list.skip(k as int)[0] == next);
            assert(list.skip(k as int).skip(1) =~= list.skip(k + 1));
        }
        match visit(next, reads, marks, order, stack) {
            Ok(_) => {},
            Err(circle) => {
                return Err(circle);
            },
        }
        k = k + 1;
    }
    proof {
        assert(list.skip(k as int) =~= Seq::<int>::empty());
        assert(stack@.drop_last() =~= stack_before);
    }
    let ghost marks_before = marks@;
    let ghost order_before = order@;
    let _ = stack.pop();
    marks.set(index, Mark::Done);
    order.push(index);
    proof {
        lemma_places_push(order_before, index);
        lemma_places_push(stack_before, index);
        assert(stack@ == stack_before);
        assert(!open.contains(index as int));
        assert(!places(order_before).contains(index as int)) by {
            assert(marks_before[index as int] == Mark::InProgress) by {
                assert(deeper[open.len() as int] == index);
            }
        }
        assert forall|c: int| 0 <= c < count implies (#[trigger] marks@[c] == Mark::InProgress
            <==> places(stack@).contains(c)) by {
            if c != index {
                assert(marks@[c] == marks_before[c]);
            }
        }
        assert forall|c: int| 0 <= c < count implies (#[trigger] marks@[c] == Mark::Done
            <==> places(order@).contains(c)) by {
            if c != index {
                assert(marks@[c] == marks_before[c]);
            }
        }
    }
    Ok(())
}

/// Everything in an order that puts each after all it reads, or the first circle.
///
/// Visits depth first, from each place in turn and to what it reads in turn, so one list
/// gives one order on every machine and in every run.
pub fn topological_order(reads: &Vec<Vec<usize>>) -> (answer: Result<Vec<usize>, Vec<usize>>)
    requires
        rows_fit(rows_of(reads@)),
    ensures
        match answer {
            Ok(order) => ordered(rows_of(reads@)) == Ok::<Seq<int>, Seq<int>>(places(order@)),
            Err(circle) => ordered(rows_of(reads@)) == Err::<Seq<int>, Seq<int>>(places(circle@))
                && forall|i: int|
                0 <= i < circle@.len() ==> (#[trigger] circle@[i]) < reads@.len(),
        },
{
    let count: usize = reads.len();
    let mut marks: Vec<Mark> = Vec::new();
    while marks.len() < count
        invariant
            marks@.len() <= count,
            forall|c: int| 0 <= c < marks@.len() ==> marks@[c] == Mark::Unvisited,
        decreases count - marks@.len(),
    {
        marks.push(Mark::Unvisited);
    }
    let mut order: Vec<usize> = Vec::new();
    let mut stack: Vec<usize> = Vec::new();
    let ghost rows = rows_of(reads@);
    let ghost graph = reads_in(rows);
    let ghost list = in_turn(rows.len());
    proof {
        assert(places(order@) =~= Seq::<int>::empty());
        assert(places(stack@) =~= Seq::<int>::empty());
        assert(list.skip(0) =~= list);
    }
    let mut index: usize = 0;
    while index < count
        invariant
            index <= count,
            count == reads@.len(),
            rows == rows_of(reads@),
            graph == reads_in(rows),
            rows_fit(rows),
            list == in_turn(rows.len()),
            rows.len() == count,
            stack@.len() == 0,
            marked(marks@, order@, stack@, count as int),
            ordered(rows) == visited_all(
                graph,
                rows.len(),
                list.skip(index as int),
                places(order@),
                Seq::empty(),
            ),
        decreases count - index,
    {
        proof {
            assert(list.skip(index as int)[0] == index);
            assert(list.skip(index as int).skip(1) =~= list.skip(index + 1));
            assert(places(stack@) =~= Seq::<int>::empty());
        }
        match visit(index, reads, &mut marks, &mut order, &mut stack) {
            Ok(_) => {},
            Err(circle) => {
                return Err(circle);
            },
        }
        index = index + 1;
    }
    proof {
        assert(list.skip(index as int) =~= Seq::<int>::empty());
    }
    Ok(order)
}

proof fn lemma_ready(rows: Seq<Seq<int>>)
    requires
        rows_fit(rows),
    ensures
        visiting(
            reads_in(rows),
            set_int_range(0, rows.len() as int),
            rows.len(),
            Seq::empty(),
            Seq::empty(),
        ),
{
    lemma_int_range(0, rows.len() as int);
    let graph = reads_in(rows);
    let all = set_int_range(0, rows.len() as int);
    assert forall|a: int, i: int|
        all.contains(a) && 0 <= i < graph(a).len() implies all.contains(#[trigger] graph(a)[i]) by {
        assert(0 <= rows[a][i] < rows.len());
    }
}

/// An order holds every place once, each after all that it reads.
pub proof fn law_an_order_puts_each_after_what_it_reads(rows: Seq<Seq<int>>, place: int, read: int)
    requires
        rows_fit(rows),
        ordered(rows) is Ok,
    ensures
        ({
            let order = ordered(rows)->Ok_0;
            &&& order.no_duplicates()
            &&& order.len() == rows.len()
            &&& forall|c: int| 0 <= c < rows.len() ==> order.contains(c)
            &&& forall|i: int| 0 <= i < order.len() ==> 0 <= #[trigger] order[i] < rows.len()
            &&& 0 <= place < order.len() && rows[order[place]].contains(read) ==> order.take(
                place,
            ).contains(read)
        }),
{
    lemma_ready(rows);
    let graph = reads_in(rows);
    let all = set_int_range(0, rows.len() as int);
    let list = in_turn(rows.len());
    lemma_visit_all(graph, all, rows.len(), list, Seq::empty(), Seq::empty());
    let order = ordered(rows)->Ok_0;
    assert forall|c: int| 0 <= c < rows.len() implies order.contains(c) by {
        assert(list[c] == c);
        assert(order.contains(list[c]));
    }
    assert forall|i: int| 0 <= i < order.len() implies 0 <= #[trigger] order[i] < rows.len() by {
        assert(all.contains(order[i]));
    }
    crate::counting::lemma_distinct_fit(order, rows.len() as int);
    assert(list.no_duplicates());
    if order.len() < rows.len() {
        list.unique_seq_to_set();
        order.unique_seq_to_set();
        assert(list.to_set().subset_of(order.to_set())) by {
            assert forall|c: int| list.to_set().contains(c) implies order.to_set().contains(c) by {
                let k = choose|k: int| 0 <= k < list.len() && list[k] == c;
                assert(order.contains(list[k]));
            }
        }
        lemma_len_subset(list.to_set(), order.to_set());
    }
    if 0 <= place < order.len() && rows[order[place]].contains(read) {
        assert(all.contains(order[place]));
        assert(reads_one(graph, order[place], read));
    }
}

/// Things cannot be ordered exactly where some of them read each other in a circle, and the
/// circle given is one.
pub proof fn law_only_a_circle_cannot_be_ordered(rows: Seq<Seq<int>>)
    requires
        rows_fit(rows),
    ensures
        ordered(rows) matches Err(circle) ==> is_circle(reads_in(rows), circle) && forall|i: int|
            0 <= i < circle.len() ==> 0 <= #[trigger] circle[i] < rows.len(),
        ordered(rows) is Ok ==> forall|circle: Seq<int>|
            !#[trigger] is_circle(reads_in(rows), circle),
{
    lemma_ready(rows);
    let graph = reads_in(rows);
    let all = set_int_range(0, rows.len() as int);
    let list = in_turn(rows.len());
    lemma_visit_all(graph, all, rows.len(), list, Seq::empty(), Seq::empty());
    if let Err(circle) = ordered(rows) {
        assert forall|i: int| 0 <= i < circle.len() implies 0 <= #[trigger] circle[i]
            < rows.len() by {
            assert(all.contains(circle[i]));
        }
    }
    if ordered(rows) is Ok {
        let order = ordered(rows)->Ok_0;
        assert forall|circle: Seq<int>| !#[trigger] is_circle(graph, circle) by {
            if is_circle(graph, circle) {
                assert(reads_one(graph, circle[0], circle[0int + 1]));
                assert(0 <= circle[0] < rows.len());
                assert(list[circle[0]] == circle[0]);
                assert(order.contains(list[circle[0]]));
                lemma_no_circle(graph, order, circle);
            }
        }
    }
}

} // verus!
