//! Which fields are left unbaked, and that the rest can be ordered.

use vstd::prelude::*;
use crate::circles::{circle_at, law_a_circle_is_found_where_there_is_one};
use crate::faults::{
    circle_reason, faults_in, first_stuck, first_unknown, found, known, lemma_known_fit,
    lemma_swept, listed, naming_faults, readable_rows, repeat_from, settled, sound, stuck_shown,
    swept, unreadable_faults, with_circle, with_circles, with_more_circles, Names, Reasons,
};
use crate::order::{is_circle, reads_one, visited, visited_all};
use crate::plan_error::unknown_shown;
use crate::terrain::without_faults;
use crate::topology::{in_turn, law_only_a_circle_cannot_be_ordered, ordered, reads_in, rows_fit};

verus! {

/// Whether one field reads another.
pub open spec fn reads_field(ids: Names, reads: Seq<Names>, a: int, b: int) -> bool {
    0 <= a < ids.len() && known(ids, reads[a]).contains(b)
}

/// Whether each field of a trail reads the next, and the last reads a name no field has.
pub open spec fn strays(ids: Names, reads: Seq<Names>, trail: Seq<int>) -> bool {
    &&& trail.len() > 0
    &&& forall|i: int| 0 <= i < trail.len() ==> 0 <= #[trigger] trail[i] < ids.len()
    &&& forall|i: int|
        0 <= i < trail.len() - 1 ==> reads_field(ids, reads, #[trigger] trail[i], trail[i + 1])
    &&& first_unknown(ids, reads[trail.last()]) is Some
}

/// Whether a field reads a name no field has, itself or through what it reads.
pub open spec fn astray(ids: Names, reads: Seq<Names>, place: int) -> bool {
    exists|trail: Seq<int>| #[trigger] strays(ids, reads, trail) && trail[0] == place
}

/// A name read that a field has is among what is read.
proof fn lemma_known_holds(ids: Names, names: Names, name: Seq<char>)
    requires
        names.contains(name),
        found(ids, name) is Some,
    ensures
        known(ids, names).contains(found(ids, name)->0),
    decreases names.len(),
{
    let row = known(ids, names.drop_last());
    let place = found(ids, name)->0;
    if names.last() == name {
        if !row.contains(place) {
            assert(row.push(place).last() == place);
        }
    } else {
        let i = choose|i: int| 0 <= i < names.len() && names[i] == name;
        assert(names.drop_last()[i] == name);
        lemma_known_holds(ids, names.drop_last(), name);
        let k = choose|k: int| 0 <= k < row.len() && row[k] == place;
        match found(ids, names.last()) {
            Some(last) if !row.contains(last) => {
                assert(row.push(last)[k] == place);
            },
            _ => {},
        }
    }
}

/// What is read is what some name read stands for.
proof fn lemma_known_named(ids: Names, names: Names, place: int)
    requires
        known(ids, names).contains(place),
    ensures
        exists|i: int| 0 <= i < names.len() && found(ids, #[trigger] names[i]) == Some(place),
    decreases names.len(),
{
    if names.len() > 0 {
        let row = known(ids, names.drop_last());
        if row.contains(place) {
            lemma_known_named(ids, names.drop_last(), place);
            let i = choose|i: int|
                0 <= i < names.drop_last().len() && found(ids, #[trigger] names.drop_last()[i])
                    == Some(place);
            assert(names[i] == names.drop_last()[i]);
        } else {
            assert(found(ids, names[names.len() - 1]) == Some(place));
        }
    }
}

/// The first stuck name is one of the names, and its field is stuck.
proof fn lemma_first_stuck(ids: Names, names: Names, faults: Reasons)
    ensures
        first_stuck(ids, names, faults) matches Some(name) ==> names.contains(name) && found(
            ids,
            name,
        ) is Some && faults[found(ids, name)->0] is Some,
        first_stuck(ids, names, faults) is None ==> forall|i: int|
            0 <= i < names.len() && found(ids, #[trigger] names[i]) is Some ==> faults[found(
                ids,
                names[i],
            )->0] is None,
    decreases names.len(),
{
    if names.len() > 0 {
        lemma_first_stuck(ids, names.skip(1), faults);
        match found(ids, names[0]) {
            Some(place) if faults[place] is Some => {
                assert(names.contains(names[0]));
            },
            _ => {
                if let Some(name) = first_stuck(ids, names.skip(1), faults) {
                    let k = choose|k: int|
                        0 <= k < names.skip(1).len() && names.skip(1)[k] == name;
                    assert(names[k + 1] == name);
                } else {
                    assert forall|i: int|
                        0 <= i < names.len() && found(ids, #[trigger] names[i]) is Some implies
                        faults[found(ids, names[i])->0] is None by {
                        if i > 0 {
                            assert(names.skip(1)[i - 1] == names[i]);
                        }
                    }
                }
            },
        }
    }
}

/// Every fault is that of a field gone astray.
spec fn all_astray(ids: Names, reads: Seq<Names>, faults: Reasons) -> bool {
    forall|i: int| 0 <= i < faults.len() && (#[trigger] faults[i]) is Some ==> astray(ids, reads, i)
}

proof fn lemma_swept_astray(ids: Names, reads: Seq<Names>, faults: Reasons, from: int)
    requires
        0 <= from,
        faults.len() == ids.len(),
        all_astray(ids, reads, faults),
    ensures
        all_astray(ids, reads, swept(ids, reads, faults, from)),
    decreases ids.len() - from,
{
    if from < ids.len() {
        if faults[from] is Some {
            lemma_swept_astray(ids, reads, faults, from + 1);
        } else {
            match first_stuck(ids, reads[from], faults) {
                None => {
                    lemma_swept_astray(ids, reads, faults, from + 1);
                },
                Some(name) => {
                    lemma_first_stuck(ids, reads[from], faults);
                    lemma_known_holds(ids, reads[from], name);
                    crate::faults::lemma_found(ids, name, 0);
                    let place = found(ids, name)->0;
                    assert(astray(ids, reads, place));
                    let trail = choose|trail: Seq<int>|
                        #[trigger] strays(ids, reads, trail) && trail[0] == place;
                    let longer = seq![from] + trail;
                    assert(longer.last() == trail.last());
                    assert forall|i: int| 0 <= i < longer.len() implies 0 <= #[trigger] longer[i]
                        < ids.len() by {
                        if i > 0 {
                            assert(longer[i] == trail[i - 1]);
                        }
                    }
                    assert forall|i: int| 0 <= i < longer.len() - 1 implies reads_field(
                        ids,
                        reads,
                        #[trigger] longer[i],
                        longer[i + 1],
                    ) by {
                        if i > 0 {
                            assert(reads_field(ids, reads, trail[i - 1], trail[i - 1 + 1]));
                        } else {
                            assert(longer[i + 1] == trail[0]);
                        }
                    }
                    assert(strays(ids, reads, longer));
                    let next = faults.update(from, Some(stuck_shown(ids[from], name)));
                    assert(all_astray(ids, reads, next)) by {
                        assert forall|i: int|
                            0 <= i < next.len() && (#[trigger] next[i]) is Some implies astray(
                            ids,
                            reads,
                            i,
                        ) by {
                            if i != from {
                                assert(faults[i] is Some);
                            } else {
                                assert(longer[0] == from);
                            }
                        }
                    }
                    lemma_swept_astray(ids, reads, next, from + 1);
                },
            }
        }
    }
}

/// Where looking at every field again changes nothing, a field without a fault reads none
/// that has one.
proof fn lemma_sweep_finds(ids: Names, reads: Seq<Names>, faults: Reasons, from: int, place: int)
    requires
        0 <= from <= place < ids.len(),
        faults.len() == ids.len(),
        faults[place] is None,
        swept(ids, reads, faults, from) == faults,
    ensures
        first_stuck(ids, reads[place], faults) is None,
    decreases place - from,
{
    if from == place {
        if let Some(name) = first_stuck(ids, reads[place], faults) {
            let next = faults.update(place, Some(stuck_shown(ids[place], name)));
            lemma_swept(ids, reads, next, place + 1);
            assert(next[place] is Some);
            assert(swept(ids, reads, faults, from)[place] is Some);
        }
    } else if faults[from] is Some {
        lemma_sweep_finds(ids, reads, faults, from + 1, place);
    } else {
        match first_stuck(ids, reads[from], faults) {
            None => {
                lemma_sweep_finds(ids, reads, faults, from + 1, place);
            },
            Some(name) => {
                let next = faults.update(from, Some(stuck_shown(ids[from], name)));
                lemma_swept(ids, reads, next, from + 1);
                assert(next[from] is Some);
                assert(swept(ids, reads, faults, from)[from] is Some);
            },
        }
    }
}

proof fn lemma_settled(ids: Names, reads: Seq<Names>, faults: Reasons)
    requires
        faults.len() == ids.len(),
        all_astray(ids, reads, faults),
    ensures
        ({
            let last = settled(ids, reads, faults);
            &&& last.len() == ids.len()
            &&& all_astray(ids, reads, last)
            &&& swept(ids, reads, last, 0) == last
            &&& forall|i: int| 0 <= i < faults.len() && faults[i] is Some ==> #[trigger] last[i] is Some
        }),
    decreases sound(faults, faults.len() as int),
{
    let next = swept(ids, reads, faults, 0);
    lemma_swept(ids, reads, faults, 0);
    lemma_swept_astray(ids, reads, faults, 0);
    if sound(next, next.len() as int) < sound(faults, faults.len() as int) {
        lemma_settled(ids, reads, next);
        let last = settled(ids, reads, faults);
        assert forall|i: int| 0 <= i < faults.len() && faults[i] is Some implies #[trigger] last[i]
            is Some by {
            assert(next[i] == faults[i]);
        }
    }
}

proof fn lemma_trail_stuck(
    ids: Names,
    reads: Seq<Names>,
    faults: Reasons,
    trail: Seq<int>,
    at: int,
)
    requires
        faults.len() == ids.len(),
        strays(ids, reads, trail),
        0 <= at < trail.len(),
        swept(ids, reads, faults, 0) == faults,
        faults[trail.last()] is Some,
    ensures
        faults[trail[at]] is Some,
    decreases trail.len() - at,
{
    if at < trail.len() - 1 {
        lemma_trail_stuck(ids, reads, faults, trail, at + 1);
        let a = trail[at];
        let b = trail[at + 1];
        assert(reads_field(ids, reads, trail[at], trail[at + 1]));
        lemma_known_named(ids, reads[a], b);
        let i = choose|i: int| 0 <= i < reads[a].len() && found(ids, #[trigger] reads[a][i]) == Some(b);
        lemma_first_stuck(ids, reads[a], faults);
        assert(found(ids, reads[a][i]) is Some);
        if faults[a] is None {
            lemma_sweep_finds(ids, reads, faults, 0, a);
        }
    }
}

/// A field is left unbaked, other than by a cycle, exactly where it reads a name the
/// document does not carry, or reads a field that is left so.
pub proof fn law_only_a_field_gone_astray_is_left_unbaked(
    ids: Names,
    reads: Seq<Names>,
    place: int,
)
    requires
        reads.len() == ids.len(),
        0 <= place < ids.len(),
    ensures
        unreadable_faults(ids, reads).len() == ids.len(),
        unreadable_faults(ids, reads)[place] is Some <==> astray(ids, reads, place),
{
    let first = naming_faults(ids, reads);
    assert(all_astray(ids, reads, first)) by {
        assert forall|i: int| 0 <= i < first.len() && (#[trigger] first[i]) is Some implies astray(
            ids,
            reads,
            i,
        ) by {
            let trail = seq![i];
            assert(trail.last() == i);
            assert(strays(ids, reads, trail));
            assert(trail[0] == i);
        }
    }
    lemma_settled(ids, reads, first);
    let last = unreadable_faults(ids, reads);
    if astray(ids, reads, place) {
        let trail = choose|trail: Seq<int>|
            #[trigger] strays(ids, reads, trail) && trail[0] == place;
        assert(first[trail.last()] is Some);
        assert(last[trail.last()] is Some);
        lemma_trail_stuck(ids, reads, last, trail, 0);
    }
}

/// A field that reads only fields that can be read, and no unknown name, can be read.
pub proof fn law_a_readable_field_reads_readable_fields(
    ids: Names,
    reads: Seq<Names>,
    place: int,
    read: int,
)
    requires
        reads.len() == ids.len(),
        0 <= place < ids.len(),
        unreadable_faults(ids, reads)[place] is None,
        reads_field(ids, reads, place, read),
    ensures
        0 <= read < ids.len(),
        unreadable_faults(ids, reads)[read] is None,
{
    lemma_known_named(ids, reads[place], read);
    let i = choose|i: int|
        0 <= i < reads[place].len() && found(ids, #[trigger] reads[place][i]) == Some(read);
    crate::faults::lemma_found(ids, reads[place][i], 0);
    law_only_a_field_gone_astray_is_left_unbaked(ids, reads, place);
    law_only_a_field_gone_astray_is_left_unbaked(ids, reads, read);
    if astray(ids, reads, read) {
        let trail = choose|trail: Seq<int>|
            #[trigger] strays(ids, reads, trail) && trail[0] == read;
        let longer = seq![place] + trail;
        assert(longer.last() == trail.last());
        assert forall|i: int| 0 <= i < longer.len() implies 0 <= #[trigger] longer[i]
            < ids.len() by {
            if i > 0 {
                assert(longer[i] == trail[i - 1]);
            }
        }
        assert forall|i: int| 0 <= i < longer.len() - 1 implies reads_field(
            ids,
            reads,
            #[trigger] longer[i],
            longer[i + 1],
        ) by {
            if i > 0 {
                assert(reads_field(ids, reads, trail[i - 1], trail[i - 1 + 1]));
            } else {
                assert(longer[i + 1] == trail[0]);
            }
        }
        assert(strays(ids, reads, longer));
        assert(longer[0] == place);
    }
}

/// Whether a thing is on a circle of readings.
pub open spec fn on_circle(rows: Seq<Seq<int>>, place: int) -> bool {
    exists|circle: Seq<int>| #[trigger]
        is_circle(reads_in(rows), circle) && circle.contains(place)
}

/// Whether every fault is one of some others or that of a field on a circle.
spec fn all_circled(rows: Seq<Seq<int>>, before: Reasons, after: Reasons) -> bool {
    &&& after.len() == before.len()
    &&& forall|i: int|
        0 <= i < after.len() && (#[trigger] after[i]) is Some ==> after[i] == before[i]
            || on_circle(rows, i)
    &&& forall|i: int|
        0 <= i < after.len() && before[i] is Some ==> #[trigger] after[i] == before[i]
}

/// Marking the fields of a circle marks only those.
proof fn lemma_marked(
    rows: Seq<Seq<int>>,
    before: Reasons,
    now: Reasons,
    circle: Seq<int>,
    reason: Seq<char>,
)
    requires
        all_circled(rows, before, now),
        is_circle(reads_in(rows), circle),
    ensures
        all_circled(rows, before, with_circle(now, circle, reason)),
{
    let after = with_circle(now, circle, reason);
    assert forall|i: int| 0 <= i < after.len() && (#[trigger] after[i]) is Some implies after[i]
        == before[i] || on_circle(rows, i) by {
        if now[i] is Some {
            assert(after[i] == now[i]);
        } else {
            assert(circle.contains(i));
        }
    }
    assert forall|i: int| 0 <= i < after.len() && before[i] is Some implies #[trigger] after[i]
        == before[i] by {
        assert(now[i] == before[i]);
    }
}

proof fn lemma_more_circles(
    ids: Names,
    rows: Seq<Seq<int>>,
    before: Reasons,
    now: Reasons,
    from: int,
)
    requires
        rows_fit(rows),
        rows.len() == ids.len(),
        before.len() == ids.len(),
        0 <= from,
        all_circled(rows, before, now),
    ensures
        ({
            let last = with_more_circles(ids, rows, now, from);
            &&& all_circled(rows, before, last)
            &&& forall|i: int|
                0 <= i < ids.len() && now[i] is Some ==> (#[trigger] last[i]) is Some
            &&& forall|i: int|
                from <= i < ids.len() && on_circle(rows, i) ==> (#[trigger] last[i]) is Some
        }),
    decreases ids.len() - from,
{
    if from < ids.len() {
        let next = if now[from] is Some {
            now
        } else {
            match circle_at(rows, from) {
                Some(circle) => with_circle(now, circle, circle_reason(ids, circle)),
                None => now,
            }
        };
        law_a_circle_is_found_where_there_is_one(rows, from);
        if now[from] is None {
            if let Some(circle) = circle_at(rows, from) {
                lemma_marked(rows, before, now, circle, circle_reason(ids, circle));
                assert(circle.contains(circle[0]));
                assert(next[from] is Some);
            }
        }
        lemma_more_circles(ids, rows, before, next, from + 1);
        let last = with_more_circles(ids, rows, now, from);
        assert forall|i: int| 0 <= i < ids.len() && now[i] is Some implies (#[trigger] last[i])
            is Some by {
            assert(next[i] is Some);
        }
        assert forall|i: int| from <= i < ids.len() && on_circle(rows, i) implies (
        #[trigger] last[i]) is Some by {
            if i == from && next[i] is None {
                let circle = choose|circle: Seq<int>| #[trigger]
                    is_circle(reads_in(rows), circle) && circle.contains(i);
                assert(!circle.contains(from));
            }
        }
    }
}

/// Of the fields that could otherwise bake, those reported are exactly those of a cycle, and
/// what was reported of the others stands.
pub proof fn law_every_field_of_a_cycle_is_reported(
    ids: Names,
    reads: Seq<Names>,
    faults: Reasons,
    place: int,
)
    requires
        reads.len() == ids.len(),
        faults.len() == ids.len(),
        0 <= place < ids.len(),
    ensures
        with_circles(ids, reads, faults).len() == ids.len(),
        faults[place] is Some ==> with_circles(ids, reads, faults)[place] == faults[place],
        with_circles(ids, reads, faults)[place] is Some <==> faults[place] is Some || on_circle(
            readable_rows(ids, reads, faults),
            place,
        ),
{
    let rows = readable_rows(ids, reads, faults);
    lemma_known_fit(ids, reads, faults);
    law_only_a_circle_cannot_be_ordered(rows);
    if let Err(circle) = ordered(rows) {
        let reason = circle_reason(ids, circle);
        lemma_marked(rows, faults, faults, circle, reason);
        let next = with_circle(faults, circle, reason);
        lemma_more_circles(ids, rows, faults, next, 0);
        assert(with_circles(ids, reads, faults) == with_more_circles(ids, rows, next, 0));
        let last = with_circles(ids, reads, faults);
        assert(last[place] is Some ==> last[place] == faults[place] || on_circle(rows, place));
    } else if on_circle(rows, place) {
        let circle = choose|circle: Seq<int>| #[trigger]
            is_circle(reads_in(rows), circle) && circle.contains(place);
        assert(!is_circle(reads_in(rows), circle));
    }
}

/// Once every field reported is set aside the rest can be ordered.
pub proof fn law_fields_without_a_fault_can_be_ordered(
    ids: Names,
    reads: Seq<Names>,
    faults: Reasons,
)
    requires
        reads.len() == ids.len(),
        faults.len() == ids.len(),
    ensures
        ordered(readable_rows(ids, reads, with_circles(ids, reads, faults))) is Ok,
{
    let last = with_circles(ids, reads, faults);
    let rows = readable_rows(ids, reads, faults);
    let left = readable_rows(ids, reads, last);
    lemma_known_fit(ids, reads, last);
    law_only_a_circle_cannot_be_ordered(left);
    if let Err(circle) = ordered(left) {
        assert forall|i: int| 0 <= i < circle.len() - 1 implies reads_one(
            reads_in(rows),
            #[trigger] circle[i],
            circle[i + 1],
        ) && last[circle[i]] is None by {
            assert(reads_one(reads_in(left), circle[i], circle[i + 1]));
            assert(0 <= circle[i] < left.len());
            assert(left[circle[i]].len() > 0);
            law_every_field_of_a_cycle_is_reported(ids, reads, faults, circle[i]);
            assert(left[circle[i]] == rows[circle[i]]);
        }
        assert(is_circle(reads_in(rows), circle));
        assert(circle.contains(circle[0]));
        assert(on_circle(rows, circle[0]));
        law_every_field_of_a_cycle_is_reported(ids, reads, faults, circle[0]);
    }
}

proof fn lemma_first_unknown(ids: Names, names: Names, k: int)
    requires
        0 <= k < names.len(),
        !ids.contains(names[k]),
        forall|j: int| 0 <= j < k ==> ids.contains(#[trigger] names[j]),
    ensures
        first_unknown(ids, names) == Some(names[k]),
    decreases names.len(),
{
    crate::faults::lemma_found(ids, names[0], 0);
    if k > 0 {
        assert(ids.contains(names[0]));
        let i = choose|i: int| 0 <= i < ids.len() && ids[i] == names[0];
        assert(found(ids, names[0]) is Some) by {
            if found(ids, names[0]) is None {
                assert(ids[i] != names[0]);
            }
        }
        let rest = names.skip(1);
        assert(rest[k - 1] == names[k]);
        assert forall|j: int| 0 <= j < k - 1 implies ids.contains(#[trigger] rest[j]) by {
            assert(rest[j] == names[j + 1]);
        }
        lemma_first_unknown(ids, rest, k - 1);
    } else {
        if let Some(i) = found(ids, names[0]) {
            assert(ids[i] == names[0]);
        }
    }
}

proof fn lemma_settled_keeps(ids: Names, reads: Seq<Names>, faults: Reasons, i: int)
    requires
        faults.len() == ids.len(),
        0 <= i < ids.len(),
        faults[i] is Some,
    ensures
        settled(ids, reads, faults).len() == ids.len(),
        settled(ids, reads, faults)[i] == faults[i],
    decreases sound(faults, faults.len() as int),
{
    let next = swept(ids, reads, faults, 0);
    lemma_swept(ids, reads, faults, 0);
    assert(next[i] == faults[i]);
    if sound(next, next.len() as int) < sound(faults, faults.len() as int) {
        lemma_settled_keeps(ids, reads, next, i);
    }
}

proof fn lemma_settled_fits(ids: Names, reads: Seq<Names>, faults: Reasons)
    requires
        faults.len() == ids.len(),
    ensures
        settled(ids, reads, faults).len() == ids.len(),
    decreases sound(faults, faults.len() as int),
{
    let next = swept(ids, reads, faults, 0);
    lemma_swept(ids, reads, faults, 0);
    if sound(next, next.len() as int) < sound(faults, faults.len() as int) {
        lemma_settled_fits(ids, reads, next);
    }
}

proof fn lemma_circles_keep(
    ids: Names,
    rows: Seq<Seq<int>>,
    faults: Reasons,
    from: int,
    i: int,
)
    requires
        faults.len() == ids.len(),
        0 <= from,
        0 <= i < ids.len(),
    ensures
        with_more_circles(ids, rows, faults, from).len() == ids.len(),
        faults[i] is Some ==> with_more_circles(ids, rows, faults, from)[i] == faults[i],
    decreases ids.len() - from,
{
    if from < ids.len() {
        let next = if faults[from] is Some {
            faults
        } else {
            match circle_at(rows, from) {
                Some(circle) => with_circle(faults, circle, circle_reason(ids, circle)),
                None => faults,
            }
        };
        lemma_circles_keep(ids, rows, next, from + 1, i);
    }
}

proof fn lemma_with_circles_keep(ids: Names, reads: Seq<Names>, faults: Reasons, i: int)
    requires
        faults.len() == ids.len(),
        0 <= i < ids.len(),
    ensures
        with_circles(ids, reads, faults).len() == ids.len(),
        faults[i] is Some ==> with_circles(ids, reads, faults)[i] == faults[i],
{
    let rows = readable_rows(ids, reads, faults);
    if let Err(circle) = ordered(rows) {
        let marked = with_circle(faults, circle, circle_reason(ids, circle));
        lemma_circles_keep(ids, rows, marked, 0, i);
    }
}

/// Whether an entry of a list is one of the first `upto` fields with its reason.
spec fn listed_from(
    ids: Names,
    faults: Reasons,
    upto: int,
    entry: (Seq<char>, Seq<char>),
) -> bool {
    exists|i: int| 0 <= i < upto && (#[trigger] faults[i]) is Some && entry == (ids[i], faults[i]->0)
}

proof fn lemma_listed(ids: Names, faults: Reasons, upto: int)
    requires
        0 <= upto <= ids.len(),
    ensures
        forall|k: int|
            0 <= k < listed(ids, faults, upto).len() ==> listed_from(
                ids,
                faults,
                upto,
                #[trigger] listed(ids, faults, upto)[k],
            ),
        forall|i: int|
            0 <= i < upto && (#[trigger] faults[i]) is Some ==> listed(ids, faults, upto).contains(
                (ids[i], faults[i]->0),
            ),
    decreases upto,
{
    if upto > 0 {
        lemma_listed(ids, faults, upto - 1);
        let rest = listed(ids, faults, upto - 1);
        let all = listed(ids, faults, upto);
        assert forall|k: int| 0 <= k < all.len() implies listed_from(
            ids,
            faults,
            upto,
            #[trigger] all[k],
        ) by {
            if k < rest.len() {
                assert(all[k] == rest[k]);
                assert(listed_from(ids, faults, upto - 1, rest[k]));
            } else {
                assert(faults[upto - 1] is Some);
            }
        }
        assert forall|i: int| 0 <= i < upto && (#[trigger] faults[i]) is Some implies all.contains(
            (ids[i], faults[i]->0),
        ) by {
            if i < upto - 1 {
                assert(rest.contains((ids[i], faults[i]->0)));
                let k = choose|k: int| 0 <= k < rest.len() && rest[k] == (ids[i], faults[i]->0);
                assert(all[k] == (ids[i], faults[i]->0));
            } else {
                assert(all[all.len() - 1] == (ids[i], faults[i]->0));
            }
        }
    }
}

/// A field that reads a name no field has is reported under its own name, for the first such
/// name it reads, which is named before it.
pub proof fn law_a_field_is_reported_for_the_name_it_reads(
    ids: Names,
    reads: Seq<Names>,
    i: int,
    k: int,
)
    requires
        reads.len() == ids.len(),
        ids.no_duplicates(),
        0 <= i < ids.len(),
        0 <= k < reads[i].len(),
        !ids.contains(reads[i][k]),
        forall|j: int| 0 <= j < k ==> ids.contains(#[trigger] reads[i][j]),
    ensures
        faults_in(ids, reads).contains(
            (
                ids[i],
                "field `"@ + reads[i][k] + "`, read by `"@ + ids[i] + "`, is not in the document"@,
            ),
        ),
{
    let first = naming_faults(ids, reads);
    lemma_first_unknown(ids, reads[i], k);
    assert(first[i] == Some(unknown_shown(reads[i][k], ids[i])));
    lemma_settled_keeps(ids, reads, first, i);
    let faults = unreadable_faults(ids, reads);
    lemma_with_circles_keep(ids, reads, faults, i);
    let all = with_circles(ids, reads, faults);
    lemma_listed(ids, all, ids.len() as int);
    assert(all[i] is Some);
    lemma_no_repeat(ids, 0);
}

proof fn lemma_no_repeat(ids: Names, from: int)
    requires
        0 <= from,
        ids.no_duplicates(),
    ensures
        repeat_from(ids, from) is None,
    decreases ids.len() - from,
{
    if from < ids.len() {
        if ids.take(from).contains(ids[from]) {
            let k = choose|k: int| 0 <= k < ids.take(from).len() && ids.take(from)[k] == ids[from];
            assert(ids[k] == ids[from]);
        }
        lemma_no_repeat(ids, from + 1);
    }
}

/// Whatever is reported is reported of a field of the document.
pub proof fn law_only_fields_are_reported(ids: Names, reads: Seq<Names>, k: int)
    requires
        reads.len() == ids.len(),
        0 <= k < faults_in(ids, reads).len(),
    ensures
        ids.contains(faults_in(ids, reads)[k].0),
{
    let faults = unreadable_faults(ids, reads);
    let first = naming_faults(ids, reads);
    lemma_settled_fits(ids, reads, first);
    let all = with_circles(ids, reads, faults);
    lemma_listed(ids, all, ids.len() as int);
    let entry = listed(ids, all, ids.len() as int)[k];
    assert(listed_from(ids, all, ids.len() as int, entry));
    let i = choose|i: int|
        0 <= i < ids.len() && (#[trigger] all[i]) is Some && entry == (ids[i], all[i]->0);
    assert(ids[i] == entry.0);
}

/// The places of an order that have no fault keep their order, and the others are left out.
pub proof fn law_leaving_out_what_cannot_bake_keeps_the_order(
    order: Seq<int>,
    place: int,
    faults: Reasons,
)
    ensures
        faults[place] is None ==> without_faults(order.push(place), faults) == without_faults(
            order,
            faults,
        ).push(place),
        faults[place] is Some ==> without_faults(order.push(place), faults) == without_faults(
            order,
            faults,
        ),
        without_faults(Seq::empty(), faults).len() == 0,
{
    assert(order.push(place).drop_last() =~= order);
}

proof fn lemma_plain_order(rows: Seq<Seq<int>>, from: int)
    requires
        0 <= from <= rows.len(),
        forall|i: int| 0 <= i < rows.len() ==> (#[trigger] rows[i]).len() == 0,
    ensures
        visited_all(
            reads_in(rows),
            rows.len(),
            in_turn(rows.len()).skip(from),
            in_turn(rows.len()).take(from),
            Seq::empty(),
        ) == Ok::<Seq<int>, Seq<int>>(in_turn(rows.len())),
    decreases rows.len() - from,
{
    let all = in_turn(rows.len());
    let reads = reads_in(rows);
    let done = all.take(from);
    let none = Seq::<int>::empty();
    if from < rows.len() {
        assert(all.skip(from)[0] == from);
        assert(all.skip(from).skip(1) =~= all.skip(from + 1));
        assert(all.take(from + 1) =~= done.push(from));
        assert(!done.contains(from)) by {
            if done.contains(from) {
                let k = choose|k: int| 0 <= k < done.len() && done[k] == from;
                assert(done[k] == k);
            }
        }
        assert(reads(from) == rows[from]);
        assert(reads(from) =~= none);
        assert(visited_all(reads, rows.len(), none, done, none.push(from)) == Ok::<
            Seq<int>,
            Seq<int>,
        >(done));
        assert(visited(reads, rows.len(), from, done, none) == Ok::<Seq<int>, Seq<int>>(
            done.push(from),
        ));
        lemma_plain_order(rows, from + 1);
    } else {
        assert(all.skip(from) =~= none);
        assert(done =~= all);
    }
}

/// Fields that read nothing bake in the order they are declared in.
pub proof fn law_fields_that_read_nothing_keep_their_order(rows: Seq<Seq<int>>)
    requires
        forall|i: int| 0 <= i < rows.len() ==> (#[trigger] rows[i]).len() == 0,
    ensures
        ordered(rows) matches Ok(order) && order.len() == rows.len() && forall|i: int|
            0 <= i < rows.len() ==> #[trigger] order[i] == i,
{
    lemma_plain_order(rows, 0);
    let all = in_turn(rows.len());
    assert(all.skip(0) =~= all);
    assert(all.take(0) =~= Seq::<int>::empty());
}

/// Whether a reason is one that a field can have for what it reads: a name that it reads and
/// no field has, or a field that it reads and that cannot bake.
pub open spec fn reason_of(ids: Names, reads: Seq<Names>, i: int, reason: Seq<char>) -> bool {
    exists|k: int|
        0 <= k < reads[i].len() && {
            let name = #[trigger] reads[i][k];
            ||| !ids.contains(name) && reason == "field `"@ + name + "`, read by `"@ + ids[i]
                + "`, is not in the document"@
            ||| ids.contains(name) && reason == "field `"@ + ids[i] + "` reads `"@ + name
                + "`, which cannot bake"@
        }
}

spec fn all_reasoned(ids: Names, reads: Seq<Names>, faults: Reasons) -> bool {
    faults.len() == ids.len() && forall|i: int|
        0 <= i < faults.len() && (#[trigger] faults[i]) is Some ==> reason_of(
            ids,
            reads,
            i,
            faults[i]->0,
        )
}

proof fn lemma_named(ids: Names, name: Seq<char>)
    ensures
        found(ids, name) is Some <==> ids.contains(name),
{
    crate::faults::lemma_found(ids, name, 0);
    if let Some(i) = found(ids, name) {
        assert(ids[i] == name);
    } else if ids.contains(name) {
        let i = choose|i: int| 0 <= i < ids.len() && ids[i] == name;
        assert(ids[i] != name);
    }
}

proof fn lemma_first_unknown_is_read(ids: Names, names: Names)
    requires
        first_unknown(ids, names) is Some,
    ensures
        names.contains(first_unknown(ids, names)->0),
        !ids.contains(first_unknown(ids, names)->0),
    decreases names.len(),
{
    lemma_named(ids, names[0]);
    if found(ids, names[0]) is None {
        assert(names.contains(names[0]));
    } else {
        let rest = names.skip(1);
        lemma_first_unknown_is_read(ids, rest);
        let name = first_unknown(ids, rest)->0;
        let k = choose|k: int| 0 <= k < rest.len() && rest[k] == name;
        assert(names[k + 1] == name);
    }
}

proof fn lemma_swept_reasoned(ids: Names, reads: Seq<Names>, faults: Reasons, from: int)
    requires
        0 <= from,
        all_reasoned(ids, reads, faults),
    ensures
        all_reasoned(ids, reads, swept(ids, reads, faults, from)),
    decreases ids.len() - from,
{
    if from < ids.len() {
        if faults[from] is Some {
            lemma_swept_reasoned(ids, reads, faults, from + 1);
        } else {
            match first_stuck(ids, reads[from], faults) {
                None => {
                    lemma_swept_reasoned(ids, reads, faults, from + 1);
                },
                Some(name) => {
                    lemma_first_stuck(ids, reads[from], faults);
                    lemma_named(ids, name);
                    let k = choose|k: int| 0 <= k < reads[from].len() && reads[from][k] == name;
                    let next = faults.update(from, Some(stuck_shown(ids[from], name)));
                    assert(reads[from][k] == name);
                    assert(reason_of(ids, reads, from, stuck_shown(ids[from], name)));
                    assert forall|i: int|
                        0 <= i < next.len() && (#[trigger] next[i]) is Some implies reason_of(
                        ids,
                        reads,
                        i,
                        next[i]->0,
                    ) by {
                        if i != from {
                            assert(next[i] == faults[i]);
                        }
                    }
                    lemma_swept_reasoned(ids, reads, next, from + 1);
                },
            }
        }
    }
}

proof fn lemma_settled_reasoned(ids: Names, reads: Seq<Names>, faults: Reasons)
    requires
        all_reasoned(ids, reads, faults),
    ensures
        all_reasoned(ids, reads, settled(ids, reads, faults)),
    decreases sound(faults, faults.len() as int),
{
    let next = swept(ids, reads, faults, 0);
    lemma_swept_reasoned(ids, reads, faults, 0);
    if sound(next, next.len() as int) < sound(faults, faults.len() as int) {
        lemma_settled_reasoned(ids, reads, next);
    }
}

/// A field that cannot bake for what it reads says so of a name that it does read: that no
/// field has it, or that the field of that name cannot bake, and names itself as the reader.
pub proof fn law_a_reason_names_what_is_read(ids: Names, reads: Seq<Names>, i: int)
    requires
        reads.len() == ids.len(),
        0 <= i < ids.len(),
        unreadable_faults(ids, reads)[i] is Some,
    ensures
        reason_of(ids, reads, i, unreadable_faults(ids, reads)[i]->0),
{
    let first = naming_faults(ids, reads);
    assert forall|j: int| 0 <= j < first.len() && (#[trigger] first[j]) is Some implies reason_of(
        ids,
        reads,
        j,
        first[j]->0,
    ) by {
        lemma_first_unknown_is_read(ids, reads[j]);
        let name = first_unknown(ids, reads[j])->0;
        let k = choose|k: int| 0 <= k < reads[j].len() && reads[j][k] == name;
        assert(reads[j][k] == name);
    }
    lemma_settled_reasoned(ids, reads, first);
}

} // verus!
