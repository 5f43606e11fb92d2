//! Which fields of a document can be read, and in what order they bake.

use vstd::prelude::*;
use crate::circles::{circle_at, find_circle};
use crate::layer::{reads_of, Layer};
use crate::names::FieldId;
use crate::plan_error::{unknown_message, unknown_shown, PlanError, PlanErrorView};
use crate::topology::{ordered, places, rows_fit, rows_of, topological_order};

verus! {

/// A list of names.
pub type Names = Seq<Seq<char>>;

/// Why each field cannot bake, or `None` where it can.
pub type Reasons = Seq<Option<Seq<char>>>;

/// The names of some fields.
pub open spec fn ids_of(fields: Seq<Layer>) -> Names {
    fields.map_values(|field: Layer| field.id@)
}

/// The names each field reads.
pub open spec fn all_reads(fields: Seq<Layer>) -> Seq<Names> {
    fields.map_values(|field: Layer| reads_of(field))
}

/// The first place of a name at or after `from`.
pub open spec fn found_from(ids: Names, name: Seq<char>, from: int) -> Option<int>
    decreases ids.len() - from,
{
    if from < 0 || from >= ids.len() {
        None
    } else if ids[from] == name {
        Some(from)
    } else {
        found_from(ids, name, from + 1)
    }
}

/// The first place of a name.
pub open spec fn found(ids: Names, name: Seq<char>) -> Option<int> {
    found_from(ids, name, 0)
}

/// What stands where a name was found.
pub proof fn lemma_found(ids: Names, name: Seq<char>, from: int)
    requires
        0 <= from,
    ensures
        found_from(ids, name, from) matches Some(i) ==> from <= i < ids.len() && ids[i] == name
            && forall|j: int| from <= j < i ==> #[trigger] ids[j] != name,
        found_from(ids, name, from) is None ==> forall|j: int|
            from <= j < ids.len() ==> #[trigger] ids[j] != name,
    decreases ids.len() - from,
{
    if from < ids.len() && ids[from] != name {
        lemma_found(ids, name, from + 1);
    }
}

/// The first place at or after `from` whose name an earlier place has too.
pub open spec fn repeat_from(ids: Names, from: int) -> Option<int>
    decreases ids.len() - from,
{
    if from < 0 || from >= ids.len() {
        None
    } else if ids.take(from).contains(ids[from]) {
        Some(from)
    } else {
        repeat_from(ids, from + 1)
    }
}

/// The places that some names stand for, each once in the order first read, or the first
/// name that stands for none.
pub open spec fn resolved(ids: Names, names: Names) -> Result<Seq<int>, Seq<char>>
    decreases names.len(),
{
    if names.len() == 0 {
        Ok(Seq::empty())
    } else {
        match resolved(ids, names.drop_last()) {
            Err(name) => Err(name),
            Ok(row) => match found(ids, names.last()) {
                None => Err(names.last()),
                Some(place) => Ok(
                    if row.contains(place) {
                        row
                    } else {
                        row.push(place)
                    },
                ),
            },
        }
    }
}

/// What the first `upto` fields read, or the first name that is unknown with its reader.
pub open spec fn all_resolved(ids: Names, reads: Seq<Names>, upto: int) -> Result<
    Seq<Seq<int>>,
    (Seq<char>, Seq<char>),
>
    decreases upto,
{
    if upto <= 0 {
        Ok(Seq::empty())
    } else {
        match all_resolved(ids, reads, upto - 1) {
            Err(fault) => Err(fault),
            Ok(rows) => match resolved(ids, reads[upto - 1]) {
                Err(name) => Err((name, ids[upto - 1])),
                Ok(row) => Ok(rows.push(row)),
            },
        }
    }
}

/// The places that some names stand for, each once in the order first read, passing over
/// names that stand for none.
pub open spec fn known(ids: Names, names: Names) -> Seq<int>
    decreases names.len(),
{
    if names.len() == 0 {
        Seq::empty()
    } else {
        let row = known(ids, names.drop_last());
        match found(ids, names.last()) {
            Some(place) if !row.contains(place) => row.push(place),
            _ => row,
        }
    }
}

/// What each field that can be read reads.
pub open spec fn readable_rows(ids: Names, reads: Seq<Names>, faults: Reasons) -> Seq<Seq<int>> {
    Seq::new(
        ids.len(),
        |i: int|
            if faults[i] is Some {
                Seq::empty()
            } else {
                known(ids, reads[i])
            },
    )
}

/// The first of some names that no field has.
pub open spec fn first_unknown(ids: Names, names: Names) -> Option<Seq<char>>
    decreases names.len(),
{
    if names.len() == 0 {
        None
    } else if found(ids, names[0]) is None {
        Some(names[0])
    } else {
        first_unknown(ids, names.skip(1))
    }
}

/// Why each field cannot bake on account of a name it reads that no field has.
pub open spec fn naming_faults(ids: Names, reads: Seq<Names>) -> Reasons {
    Seq::new(
        ids.len(),
        |i: int|
            match first_unknown(ids, reads[i]) {
                Some(name) => Some(unknown_shown(name, ids[i])),
                None => None,
            },
    )
}

/// The first of some names whose field cannot bake.
pub open spec fn first_stuck(ids: Names, names: Names, faults: Reasons) -> Option<Seq<char>>
    decreases names.len(),
{
    if names.len() == 0 {
        None
    } else {
        match found(ids, names[0]) {
            Some(place) if faults[place] is Some => Some(names[0]),
            _ => first_stuck(ids, names.skip(1), faults),
        }
    }
}

/// How a field that reads one that cannot bake is described.
pub open spec fn stuck_shown(id: Seq<char>, name: Seq<char>) -> Seq<char> {
    "field `"@ + id + "` reads `"@ + name + "`, which cannot bake"@
}

/// The faults after each field from `from` on has been looked at once, in turn.
pub open spec fn swept(ids: Names, reads: Seq<Names>, faults: Reasons, from: int) -> Reasons
    decreases ids.len() - from,
{
    if from < 0 || from >= ids.len() {
        faults
    } else if faults[from] is Some {
        swept(ids, reads, faults, from + 1)
    } else {
        match first_stuck(ids, reads[from], faults) {
            None => swept(ids, reads, faults, from + 1),
            Some(name) => swept(
                ids,
                reads,
                faults.update(from, Some(stuck_shown(ids[from], name))),
                from + 1,
            ),
        }
    }
}

/// How many of the first `upto` fields have no fault.
pub open spec fn sound(faults: Reasons, upto: int) -> nat
    decreases upto,
{
    if upto <= 0 {
        0
    } else {
        sound(faults, upto - 1) + (if faults[upto - 1] is None {
            1nat
        } else {
            0nat
        })
    }
}

/// The faults once looking at every field again finds no more.
pub open spec fn settled(ids: Names, reads: Seq<Names>, faults: Reasons) -> Reasons
    decreases sound(faults, faults.len() as int),
{
    let next = swept(ids, reads, faults, 0);
    if sound(next, next.len() as int) < sound(faults, faults.len() as int) {
        settled(ids, reads, next)
    } else {
        faults
    }
}

/// Why each field cannot bake on account of a name that no field has, its own or one that
/// what it reads depends on.
pub open spec fn unreadable_faults(ids: Names, reads: Seq<Names>) -> Reasons {
    settled(ids, reads, naming_faults(ids, reads))
}

/// A chain of names, an arrow between each and the next.
pub open spec fn chained(names: Names) -> Seq<char>
    decreases names.len(),
{
    if names.len() == 0 {
        Seq::empty()
    } else if names.len() == 1 {
        names[0]
    } else {
        chained(names.drop_last()) + " -> "@ + names.last()
    }
}

/// The names of some places.
pub open spec fn names_at(ids: Names, list: Seq<int>) -> Names {
    list.map_values(|place: int| ids[place])
}

/// The faults with a reason given to each place of a circle that had none.
pub open spec fn with_circle(faults: Reasons, circle: Seq<int>, reason: Seq<char>) -> Reasons {
    Seq::new(
        faults.len(),
        |i: int|
            if faults[i] is None && circle.contains(i) {
                Some(reason)
            } else {
                faults[i]
            },
    )
}

/// The reason of the fields of a circle.
pub open spec fn circle_reason(ids: Names, circle: Seq<int>) -> Seq<char> {
    "cycle: "@ + chained(names_at(ids, circle))
}

/// The faults with a reason given to each field from `from` on that has none and is on a
/// circle, and to what is on that circle with it: the shortest through the field.
pub open spec fn with_more_circles(
    ids: Names,
    rows: Seq<Seq<int>>,
    faults: Reasons,
    from: int,
) -> Reasons
    decreases ids.len() - from,
{
    if from < 0 || from >= ids.len() {
        faults
    } else {
        let next = if faults[from] is Some {
            faults
        } else {
            match circle_at(rows, from) {
                Some(circle) => with_circle(faults, circle, circle_reason(ids, circle)),
                None => faults,
            }
        };
        with_more_circles(ids, rows, next, from + 1)
    }
}

/// The faults with a reason given to every field of every circle between fields that could
/// otherwise bake: first to those of the circle that a bake runs into, and after those to the
/// others.
pub open spec fn with_circles(ids: Names, reads: Seq<Names>, faults: Reasons) -> Reasons {
    let rows = readable_rows(ids, reads, faults);
    match ordered(rows) {
        Ok(_) => faults,
        Err(circle) => with_more_circles(
            ids,
            rows,
            with_circle(faults, circle, circle_reason(ids, circle)),
            0,
        ),
    }
}

/// Each field with a fault among the first `upto`, with the reason.
pub open spec fn listed(ids: Names, faults: Reasons, upto: int) -> Seq<(Seq<char>, Seq<char>)>
    decreases upto,
{
    if upto <= 0 {
        Seq::empty()
    } else {
        match faults[upto - 1] {
            Some(reason) => listed(ids, faults, upto - 1).push((ids[upto - 1], reason)),
            None => listed(ids, faults, upto - 1),
        }
    }
}

/// What a list of reasons says.
pub open spec fn reasons_view(faults: Seq<Option<String>>) -> Reasons {
    faults.map_values(
        |fault: Option<String>|
            match fault {
                Some(reason) => Some(reason@),
                None => None,
            },
    )
}

/// Where the field of a name stands.
pub fn find_field(fields: &Vec<Layer>, name: &FieldId) -> (answer: Option<usize>)
    ensures
        match answer {
            Some(place) => found(ids_of(fields@), name@) == Some(place as int) && place
                < fields@.len(),
            None => found(ids_of(fields@), name@) is None,
        },
{
    let mut i: usize = 0;
    while i < fields.len()
        invariant
            i <= fields@.len(),
            found(ids_of(fields@), name@) == found_from(ids_of(fields@), name@, i as int),
        decreases fields@.len() - i,
    {
        assert(ids_of(fields@)[i as int] == fields@[i as int].id@);
        if fields[i].id.same(name) {
            return Some(i);
        }
        i = i + 1;
    }
    None
}

/// Refuses a document in which two fields carry the same id, naming the first that repeats
/// an earlier one.
pub fn index_fields(fields: &Vec<Layer>) -> (answer: Result<(), PlanError>)
    ensures
        match answer {
            Ok(_) => repeat_from(ids_of(fields@), 0) is None,
            Err(error) => repeat_from(ids_of(fields@), 0) is Some && error@
                == PlanErrorView::DuplicateField(
                ids_of(fields@)[repeat_from(ids_of(fields@), 0)->0],
            ),
        },
{
    let ghost ids = ids_of(fields@);
    let mut i: usize = 0;
    while i < fields.len()
        invariant
            i <= fields@.len(),
            ids == ids_of(fields@),
            repeat_from(ids, 0) == repeat_from(ids, i as int),
        decreases fields@.len() - i,
    {
        let mut j: usize = 0;
        while j < i
            invariant
                j <= i < fields@.len(),
                ids == ids_of(fields@),
                repeat_from(ids, 0) == repeat_from(ids, i as int),
                forall|k: int| 0 <= k < j ==> #[trigger] ids[k] != ids[i as int],
            decreases i - j,
        {
            assert(ids[j as int] == fields@[j as int].id@);
            if fields[j].id.same(&fields[i].id) {
                proof {
                    assert(ids.take(i as int)[j as int] == ids[i as int]);
                }
                return Err(PlanError::DuplicateField(fields[i].id.to_text()));
            }
            j = j + 1;
        }
        proof {
            if ids.take(i as int).contains(ids[i as int]) {
                let k = choose|k: int|
                    0 <= k < ids.take(i as int).len() && ids.take(i as int)[k] == ids[i as int];
                assert(ids[k] != ids[i as int]);
            }
        }
        i = i + 1;
    }
    Ok(())
}

/// Whether a row of places holds one.
fn has_place(row: &Vec<usize>, place: usize) -> (answer: bool)
    ensures
        answer == places(row@).contains(place as int),
{
    let mut i: usize = 0;
    while i < row.len()
        invariant
            i <= row@.len(),
            forall|j: int| 0 <= j < i ==> places(row@)[j] != place,
        decreases row@.len() - i,
    {
        if row[i] == place {
            assert(places(row@)[i as int] == place);
            return true;
        }
        i = i + 1;
    }
    false
}

/// The places that some names stand for, or the place of the first name that stands for
/// none.
fn resolve(fields: &Vec<Layer>, names: &Vec<FieldId>) -> (answer: Result<Vec<usize>, usize>)
    ensures
        ({
            let list = names@.map_values(|id: FieldId| id@);
            match answer {
                Ok(row) => resolved(ids_of(fields@), list) == Ok::<Seq<int>, Seq<char>>(
                    places(row@),
                ) && forall|i: int|
                    0 <= i < row@.len() ==> (#[trigger] row@[i]) < fields@.len(),
                Err(at) => at < names@.len() && resolved(ids_of(fields@), list) == Err::<
                    Seq<int>,
                    Seq<char>,
                >(names@[at as int]@),
            }
        }),
{
    let ghost ids = ids_of(fields@);
    let ghost list = names@.map_values(|id: FieldId| id@);
    let mut row: Vec<usize> = Vec::new();
    let mut i: usize = 0;
    proof {
        assert(list.take(0) =~= Seq::<Seq<char>>::empty());
        assert(places(row@) =~= Seq::<int>::empty());
    }
    while i < names.len()
        invariant
            i <= names@.len(),
            ids == ids_of(fields@),
            list == names@.map_values(|id: FieldId| id@),
            resolved(ids, list.take(i as int)) == Ok::<Seq<int>, Seq<char>>(places(row@)),
            forall|j: int| 0 <= j < row@.len() ==> (#[trigger] row@[j]) < fields@.len(),
        decreases names@.len() - i,
    {
        proof {
            assert(list.take(i + 1).drop_last() =~= list.take(i as int));
            assert(list.take(i + 1).last() == names@[i as int]@);
        }
        match find_field(fields, &names[i]) {
            Some(place) => {
                if !has_place(&row, place) {
                    let ghost before = row@;
                    row.push(place);
                    proof {
                        assert(places(row@) =~= places(before).push(place as int));
                    }
                }
            },
            None => {
                proof {
                    lemma_unknown_stays(ids, list, i + 1);
                }
                return Err(i);
            },
        }
        i = i + 1;
    }
    proof {
        assert(list.take(i as int) =~= list);
    }
    Ok(row)
}

/// A name that stands for nothing is still the fault however many follow it.
proof fn lemma_unknown_stays(ids: Names, list: Names, upto: int)
    requires
        0 <= upto <= list.len(),
        resolved(ids, list.take(upto)) is Err,
    ensures
        resolved(ids, list) == resolved(ids, list.take(upto)),
    decreases list.len() - upto,
{
    if upto < list.len() {
        assert(list.take(upto + 1).drop_last() =~= list.take(upto));
        lemma_unknown_stays(ids, list, upto + 1);
    } else {
        assert(list.take(upto) =~= list);
    }
}

/// A fault found among the first fields is still the fault however many follow.
proof fn lemma_fault_stays(ids: Names, reads: Seq<Names>, upto: int, all: int)
    requires
        upto <= all,
        all_resolved(ids, reads, upto) is Err,
    ensures
        all_resolved(ids, reads, all) == all_resolved(ids, reads, upto),
    decreases all - upto,
{
    if upto < all {
        lemma_fault_stays(ids, reads, upto, all - 1);
    }
}

/// What each field reads, or the first name read that no field has.
pub fn resolve_dependencies(fields: &Vec<Layer>) -> (answer: Result<Vec<Vec<usize>>, PlanError>)
    ensures
        ({
            let goal = all_resolved(ids_of(fields@), all_reads(fields@), fields@.len() as int);
            match answer {
                Ok(rows) => goal == Ok::<Seq<Seq<int>>, (Seq<char>, Seq<char>)>(rows_of(rows@))
                    && rows@.len() == fields@.len() && rows_fit(rows_of(rows@)),
                Err(error) => goal is Err && error@ == (PlanErrorView::UnknownField {
                    referenced: goal->Err_0.0,
                    reader: goal->Err_0.1,
                }),
            }
        }),
{
    let ghost ids = ids_of(fields@);
    let ghost reads = all_reads(fields@);
    let mut rows: Vec<Vec<usize>> = Vec::new();
    let mut i: usize = 0;
    proof {
        assert(rows_of(rows@) =~= Seq::<Seq<int>>::empty());
    }
    while i < fields.len()
        invariant
            i <= fields@.len(),
            ids == ids_of(fields@),
            reads == all_reads(fields@),
            rows@.len() == i,
            all_resolved(ids, reads, i as int) == Ok::<Seq<Seq<int>>, (Seq<char>, Seq<char>)>(
                rows_of(rows@),
            ),
            forall|a: int, j: int|
                0 <= a < rows@.len() && 0 <= j < rows@[a]@.len() ==> (#[trigger] rows@[a]@[j])
                    < fields@.len(),
        decreases fields@.len() - i,
    {
        proof {
            assert(reads[i as int] == reads_of(fields@[i as int]));
            assert(reads_of(fields@[i as int]) =~= fields@[i as int].shader.layers@.map_values(
                |id: FieldId| id@,
            ));
        }
        match resolve(fields, fields[i].dependencies()) {
            Ok(row) => {
                let ghost before = rows@;
                rows.push(row);
                proof {
                    assert(rows_of(rows@) =~= rows_of(before).push(places(row@)));
                }
            },
            Err(at) => {
                proof {
                    lemma_fault_stays(ids, reads, i + 1, fields@.len() as int);
                }
                return Err(
                    PlanError::UnknownField {
                        referenced: fields[i].dependencies()[at].to_text(),
                        reader: fields[i].id.to_text(),
                    },
                );
            },
        }
        i = i + 1;
    }
    proof {
        lemma_rows_fit(rows@, fields@.len() as int);
    }
    Ok(rows)
}

proof fn lemma_rows_fit(rows: Seq<Vec<usize>>, count: int)
    requires
        rows.len() == count,
        forall|a: int, j: int|
            0 <= a < rows.len() && 0 <= j < rows[a]@.len() ==> (#[trigger] rows[a]@[j]) < count,
    ensures
        rows_fit(rows_of(rows)),
{
    let all = rows_of(rows);
    assert forall|a: int, i: int| 0 <= a < all.len() && 0 <= i < all[a].len() implies 0
        <= #[trigger] all[a][i] < all.len() by {
        assert(rows[a]@[i] < count);
    }
}


/// The place of the first of some names that no field has.
fn find_unknown(fields: &Vec<Layer>, names: &Vec<FieldId>) -> (answer: Option<usize>)
    ensures
        ({
            let list = names@.map_values(|id: FieldId| id@);
            match answer {
                Some(at) => at < names@.len() && first_unknown(ids_of(fields@), list) == Some(
                    names@[at as int]@,
                ),
                None => first_unknown(ids_of(fields@), list) is None,
            }
        }),
{
    let ghost ids = ids_of(fields@);
    let ghost list = names@.map_values(|id: FieldId| id@);
    let mut i: usize = 0;
    proof {
        assert(list.skip(0) =~= list);
    }
    while i < names.len()
        invariant
            i <= names@.len(),
            ids == ids_of(fields@),
            list == names@.map_values(|id: FieldId| id@),
            first_unknown(ids, list) == first_unknown(ids, list.skip(i as int)),
        decreases names@.len() - i,
    {
        proof {
            assert(list.skip(i as int)[0] == names@[i as int]@);
            assert(list.skip(i as int).skip(1) =~= list.skip(i + 1));
        }
        if find_field(fields, &names[i]).is_none() {
            return Some(i);
        }
        i = i + 1;
    }
    None
}

/// The place of the first of some names whose field cannot bake.
fn find_stuck(fields: &Vec<Layer>, names: &Vec<FieldId>, faults: &Vec<Option<String>>) -> (answer:
    Option<usize>)
    requires
        faults@.len() == fields@.len(),
    ensures
        ({
            let list = names@.map_values(|id: FieldId| id@);
            let goal = first_stuck(ids_of(fields@), list, reasons_view(faults@));
            match answer {
                Some(at) => at < names@.len() && goal == Some(names@[at as int]@),
                None => goal is None,
            }
        }),
{
    let ghost ids = ids_of(fields@);
    let ghost list = names@.map_values(|id: FieldId| id@);
    let ghost reasons = reasons_view(faults@);
    let mut i: usize = 0;
    proof {
        assert(list.skip(0) =~= list);
    }
    while i < names.len()
        invariant
            i <= names@.len(),
            faults@.len() == fields@.len(),
            ids == ids_of(fields@),
            list == names@.map_values(|id: FieldId| id@),
            reasons == reasons_view(faults@),
            first_stuck(ids, list, reasons) == first_stuck(ids, list.skip(i as int), reasons),
        decreases names@.len() - i,
    {
        proof {
            assert(list.skip(i as int)[0] == names@[i as int]@);
            assert(list.skip(i as int).skip(1) =~= list.skip(i + 1));
        }
        if let Some(place) = find_field(fields, &names[i]) {
            if faults[place].is_some() {
                return Some(i);
            }
        }
        i = i + 1;
    }
    None
}

fn stuck_message(id: &str, name: &str) -> (text: String)
    ensures
        text@ == stuck_shown(id@, name@),
{
    let mut text: String = String::from_str("field `");
    text.append(id);
    text.append("` reads `");
    text.append(name);
    text.append("`, which cannot bake");
    text
}

/// Giving a sound field a fault leaves one fewer.
proof fn lemma_sound_update(faults: Reasons, at: int, reason: Seq<char>, upto: int)
    requires
        0 <= at < faults.len(),
        upto <= faults.len(),
        faults[at] is None,
    ensures
        sound(faults, upto) == sound(faults.update(at, Some(reason)), upto) + (if at < upto {
            1nat
        } else {
            0nat
        }),
    decreases upto,
{
    if upto > 0 {
        lemma_sound_update(faults, at, reason, upto - 1);
    }
}

/// Looking at every field again keeps the faults there were.
pub proof fn lemma_swept(ids: Names, reads: Seq<Names>, faults: Reasons, from: int)
    requires
        0 <= from,
        faults.len() == ids.len(),
    ensures
        swept(ids, reads, faults, from).len() == faults.len(),
        forall|i: int|
            0 <= i < faults.len() && faults[i] is Some ==> #[trigger] swept(
                ids,
                reads,
                faults,
                from,
            )[i] == faults[i],
        swept(ids, reads, faults, from) == faults || sound(
            swept(ids, reads, faults, from),
            faults.len() as int,
        ) < sound(faults, faults.len() as int),
    decreases ids.len() - from,
{
    if from < ids.len() {
        if faults[from] is Some {
            lemma_swept(ids, reads, faults, from + 1);
        } else {
            match first_stuck(ids, reads[from], faults) {
                None => {
                    lemma_swept(ids, reads, faults, from + 1);
                },
                Some(name) => {
                    let next = faults.update(from, Some(stuck_shown(ids[from], name)));
                    lemma_swept(ids, reads, next, from + 1);
                    lemma_sound_update(
                        faults,
                        from,
                        stuck_shown(ids[from], name),
                        faults.len() as int,
                    );
                    let last = swept(ids, reads, faults, from);
                    assert forall|i: int| 0 <= i < faults.len() && faults[i] is Some implies
                        #[trigger] last[i] == faults[i] by {
                        assert(next[i] == faults[i]);
                    }
                },
            }
        }
    }
}

/// Why each field cannot bake on account of a name no field has, its own or one that what
/// it reads depends on.
pub fn unreadable(fields: &Vec<Layer>) -> (faults: Vec<Option<String>>)
    ensures
        faults@.len() == fields@.len(),
        reasons_view(faults@) == unreadable_faults(ids_of(fields@), all_reads(fields@)),
{
    let ghost ids = ids_of(fields@);
    let ghost reads = all_reads(fields@);
    let mut faults: Vec<Option<String>> = Vec::new();
    let mut i: usize = 0;
    while i < fields.len()
        invariant
            i <= fields@.len(),
            ids == ids_of(fields@),
            reads == all_reads(fields@),
            faults@.len() == i,
            forall|j: int|
                0 <= j < i ==> #[trigger] reasons_view(faults@)[j] == naming_faults(ids, reads)[j],
        decreases fields@.len() - i,
    {
        proof {
            assert(reads[i as int] == reads_of(fields@[i as int]));
            assert(reads_of(fields@[i as int]) =~= fields@[i as int].shader.layers@.map_values(
                |id: FieldId| id@,
            ));
        }
        let ghost before = faults@;
        let fault: Option<String> = match find_unknown(fields, fields[i].dependencies()) {
            Some(at) => Some(
                unknown_message(
                    fields[i].dependencies()[at].as_str(),
                    fields[i].id.as_str(),
                ),
            ),
            None => None,
        };
        faults.push(fault);
        proof {
            assert forall|j: int| 0 <= j < i + 1 implies #[trigger] reasons_view(faults@)[j]
                == naming_faults(ids, reads)[j] by {
                if j < i {
                    assert(reasons_view(faults@)[j] == reasons_view(before)[j]);
                }
            }
        }
        i = i + 1;
    }
    proof {
        assert(reasons_view(faults@) =~= naming_faults(ids, reads));
    }
    let ghost goal = unreadable_faults(ids, reads);
    let mut moved: bool = true;
    while moved
        invariant
            ids == ids_of(fields@),
            reads == all_reads(fields@),
            faults@.len() == fields@.len(),
            goal == unreadable_faults(ids, reads),
            moved ==> goal == settled(ids, reads, reasons_view(faults@)),
            !moved ==> goal == reasons_view(faults@),
        decreases
            sound(reasons_view(faults@), fields@.len() as int),
            (if moved {
                1int
            } else {
                0int
            }),
    {
        moved = false;
        let ghost start = reasons_view(faults@);
        let mut index: usize = 0;
        while index < fields.len()
            invariant
                index <= fields@.len(),
                ids == ids_of(fields@),
                reads == all_reads(fields@),
                faults@.len() == fields@.len(),
                start.len() == fields@.len(),
                swept(ids, reads, start, 0) == swept(
                    ids,
                    reads,
                    reasons_view(faults@),
                    index as int,
                ),
                !moved ==> reasons_view(faults@) == start,
                moved ==> sound(reasons_view(faults@), fields@.len() as int) < sound(
                    start,
                    fields@.len() as int,
                ),
            decreases fields@.len() - index,
        {
            proof {
                assert(reads[index as int] == reads_of(fields@[index as int]));
                assert(reads_of(fields@[index as int])
                    =~= fields@[index as int].shader.layers@.map_values(|id: FieldId| id@));
            }
            if faults[index].is_none() {
                let ghost now = reasons_view(faults@);
                if let Some(at) = find_stuck(fields, fields[index].dependencies(), &faults) {
                    let reason: String = stuck_message(
                        fields[index].id.as_str(),
                        fields[index].dependencies()[at].as_str(),
                    );
                    let ghost words = reason@;
                    faults.set(index, Some(reason));
                    proof {
                        assert(reasons_view(faults@) =~= now.update(index as int, Some(words)));
                        lemma_sound_update(now, index as int, words, fields@.len() as int);
                    }
                    moved = true;
                }
            }
            index = index + 1;
        }
        proof {
            lemma_swept(ids, reads, start, 0);
        }
    }
    faults
}

/// What each field that can be read reads.
pub fn resolve_readable(fields: &Vec<Layer>, faults: &Vec<Option<String>>) -> (rows: Vec<
    Vec<usize>,
>)
    requires
        faults@.len() == fields@.len(),
    ensures
        rows@.len() == fields@.len(),
        rows_of(rows@) == readable_rows(
            ids_of(fields@),
            all_reads(fields@),
            reasons_view(faults@),
        ),
        rows_fit(rows_of(rows@)),
{
    let ghost ids = ids_of(fields@);
    let ghost reads = all_reads(fields@);
    let ghost goal = readable_rows(ids, reads, reasons_view(faults@));
    let mut rows: Vec<Vec<usize>> = Vec::new();
    let mut i: usize = 0;
    while i < fields.len()
        invariant
            i <= fields@.len(),
            faults@.len() == fields@.len(),
            ids == ids_of(fields@),
            reads == all_reads(fields@),
            goal == readable_rows(ids, reads, reasons_view(faults@)),
            rows@.len() == i,
            forall|a: int| 0 <= a < i ==> places((#[trigger] rows@[a])@) == goal[a],
            forall|a: int, j: int|
                0 <= a < rows@.len() && 0 <= j < rows@[a]@.len() ==> (#[trigger] rows@[a]@[j])
                    < fields@.len(),
        decreases fields@.len() - i,
    {
        let mut row: Vec<usize> = Vec::new();
        proof {
            assert(reasons_view(faults@)[i as int] is Some <==> faults@[i as int] is Some);
            assert(places(row@) =~= Seq::<int>::empty());
        }
        if faults[i].is_none() {
            let names: &Vec<FieldId> = fields[i].dependencies();
            let ghost list = names@.map_values(|id: FieldId| id@);
            proof {
                assert(reads[i as int] == reads_of(fields@[i as int]));
                assert(reads_of(fields@[i as int]) =~= list);
                assert(list.take(0) =~= Seq::<Seq<char>>::empty());
            }
            let mut k: usize = 0;
            while k < names.len()
                invariant
                    k <= names@.len(),
                    ids == ids_of(fields@),
                    list == names@.map_values(|id: FieldId| id@),
                    places(row@) == known(ids, list.take(k as int)),
                    forall|j: int| 0 <= j < row@.len() ==> (#[trigger] row@[j]) < fields@.len(),
                decreases names@.len() - k,
            {
                proof {
                    assert(list.take(k + 1).drop_last() =~= list.take(k as int));
                    assert(list.take(k + 1).last() == names@[k as int]@);
                }
                if let Some(place) = find_field(fields, &names[k]) {
                    if !has_place(&row, place) {
                        let ghost before = row@;
                        row.push(place);
                        proof {
                            assert(places(row@) =~= places(before).push(place as int));
                        }
                    }
                }
                k = k + 1;
            }
            proof {
                assert(list.take(k as int) =~= list);
            }
        }
        rows.push(row);
        i = i + 1;
    }
    proof {
        assert(rows_of(rows@) =~= goal);
        lemma_rows_fit(rows@, fields@.len() as int);
    }
    rows
}

/// The names of some places as a chain.
pub fn chain_of(fields: &Vec<Layer>, circle: &Vec<usize>) -> (text: String)
    requires
        forall|i: int| 0 <= i < circle@.len() ==> (#[trigger] circle@[i]) < fields@.len(),
    ensures
        text@ == chained(names_at(ids_of(fields@), places(circle@))),
{
    let ghost names = names_at(ids_of(fields@), places(circle@));
    let mut text: String = String::new();
    let mut i: usize = 0;
    proof {
        assert(names.take(0) =~= Seq::<Seq<char>>::empty());
    }
    while i < circle.len()
        invariant
            i <= circle@.len(),
            forall|j: int| 0 <= j < circle@.len() ==> (#[trigger] circle@[j]) < fields@.len(),
            names == names_at(ids_of(fields@), places(circle@)),
            text@ == chained(names.take(i as int)),
        decreases circle@.len() - i,
    {
        proof {
            assert(circle@[i as int] < fields@.len());
            assert(names[i as int] == fields@[circle@[i as int] as int].id@);
            assert(names.take(i + 1).drop_last() =~= names.take(i as int));
            assert(names.take(i + 1).last() == names[i as int]);
        }
        if i > 0 {
            text.append(" -> ");
        }
        text.append(fields[circle[i]].id.as_str());
        proof {
            if i == 0 {
                assert(text@ =~= names[0]);
                assert(names.take(1)[0] == names[0]);
            }
        }
        i = i + 1;
    }
    proof {
        assert(names.take(i as int) =~= names);
    }
    text
}

/// Every field that cannot bake, with the reason, in declaration order.
pub open spec fn faults_in(ids: Names, reads: Seq<Names>) -> Seq<(Seq<char>, Seq<char>)> {
    if repeat_from(ids, 0) is Some {
        Seq::empty()
    } else {
        listed(
            ids,
            with_circles(ids, reads, unreadable_faults(ids, reads)),
            ids.len() as int,
        )
    }
}

/// What a list of faults says.
pub open spec fn faults_view(list: Seq<(FieldId, String)>) -> Seq<(Seq<char>, Seq<char>)> {
    list.map_values(|fault: (FieldId, String)| (fault.0@, fault.1@))
}

fn cycle_message(chain: &str) -> (text: String)
    ensures
        text@ == "cycle: "@ + chain@,
{
    let mut text: String = String::from_str("cycle: ");
    text.append(chain);
    text
}

/// What is read stands among the fields.
proof fn lemma_known_row(ids: Names, names: Names)
    ensures
        forall|i: int|
            0 <= i < known(ids, names).len() ==> 0 <= #[trigger] known(ids, names)[i] < ids.len(),
    decreases names.len(),
{
    if names.len() > 0 {
        let row = known(ids, names.drop_last());
        lemma_known_row(ids, names.drop_last());
        lemma_found(ids, names.last(), 0);
        assert forall|i: int| 0 <= i < known(ids, names).len() implies 0 <= #[trigger] known(
            ids,
            names,
        )[i] < ids.len() by {
            if i < row.len() {
                assert(known(ids, names)[i] == row[i]);
            }
        }
    }
}

/// What is read stands among the fields.
pub proof fn lemma_known_fit(ids: Names, reads: Seq<Names>, faults: Reasons)
    ensures
        rows_fit(readable_rows(ids, reads, faults)),
{
    let rows = readable_rows(ids, reads, faults);
    assert forall|a: int, i: int| 0 <= a < rows.len() && 0 <= i < rows[a].len() implies 0
        <= #[trigger] rows[a][i] < rows.len() by {
        lemma_known_row(ids, reads[a]);
    }
}

/// Gives each field of a circle that has no fault the circle as its reason.
fn mark_circle(fields: &Vec<Layer>, faults: &mut Vec<Option<String>>, circle: &Vec<usize>)
    requires
        old(faults)@.len() == fields@.len(),
        forall|i: int| 0 <= i < circle@.len() ==> (#[trigger] circle@[i]) < fields@.len(),
    ensures
        final(faults)@.len() == fields@.len(),
        reasons_view(final(faults)@) == with_circle(
            reasons_view(old(faults)@),
            places(circle@),
            circle_reason(ids_of(fields@), places(circle@)),
        ),
{
    let ghost now = reasons_view(faults@);
    let chain: String = chain_of(fields, circle);
    let ghost reason = circle_reason(ids_of(fields@), places(circle@));
    let mut i: usize = 0;
    while i < fields.len()
        invariant
            i <= fields@.len(),
            faults@.len() == fields@.len(),
            now.len() == fields@.len(),
            reason == "cycle: "@ + chain@,
            forall|j: int|
                0 <= j < i ==> #[trigger] reasons_view(faults@)[j] == with_circle(
                    now,
                    places(circle@),
                    reason,
                )[j],
            forall|j: int|
                i <= j < fields@.len() ==> #[trigger] reasons_view(faults@)[j] == now[j],
        decreases fields@.len() - i,
    {
        let ghost before = faults@;
        assert(reasons_view(before)[i as int] == now[i as int]);
        if faults[i].is_none() && has_place(circle, i) {
            let text: String = cycle_message(chain.as_str());
            faults.set(i, Some(text));
        }
        proof {
            assert forall|j: int| 0 <= j < i + 1 implies #[trigger] reasons_view(faults@)[j]
                == with_circle(now, places(circle@), reason)[j] by {
                if j < i {
                    assert(reasons_view(faults@)[j] == reasons_view(before)[j]);
                }
            }
            assert forall|j: int| i + 1 <= j < fields@.len() implies #[trigger] reasons_view(
                faults@,
            )[j] == now[j] by {
                assert(reasons_view(faults@)[j] == reasons_view(before)[j]);
            }
        }
        i = i + 1;
    }
    proof {
        assert(reasons_view(faults@) =~= with_circle(now, places(circle@), reason));
    }
}

/// Every field that cannot bake, with the reason, in declaration order.
///
/// A field reading a name the document does not carry, a field reading one of those, and
/// every field of a cycle between fields that could otherwise bake, whose reason is
/// `cycle: ` followed by the chain. A document with two fields of one id answers no faults.
pub fn list_faults(fields: &Vec<Layer>) -> (list: Vec<(FieldId, String)>)
    ensures
        faults_view(list@) == faults_in(ids_of(fields@), all_reads(fields@)),
{
    let ghost ids = ids_of(fields@);
    let ghost reads = all_reads(fields@);
    let mut list: Vec<(FieldId, String)> = Vec::new();
    proof {
        assert(faults_view(list@) =~= Seq::<(Seq<char>, Seq<char>)>::empty());
    }
    if index_fields(fields).is_err() {
        return list;
    }
    let mut faults: Vec<Option<String>> = unreadable(fields);
    let ghost goal = with_circles(ids, reads, unreadable_faults(ids, reads));
    let rows: Vec<Vec<usize>> = resolve_readable(fields, &faults);
    if let Err(circle) = topological_order(&rows) {
        mark_circle(fields, &mut faults, &circle);
        let mut at: usize = 0;
        while at < fields.len()
            invariant
                at <= fields@.len(),
                ids == ids_of(fields@),
                faults@.len() == fields@.len(),
                rows@.len() == fields@.len(),
                rows_fit(rows_of(rows@)),
                goal == with_more_circles(
                    ids,
                    rows_of(rows@),
                    reasons_view(faults@),
                    at as int,
                ),
            decreases fields@.len() - at,
        {
            assert(reasons_view(faults@)[at as int] is None <==> faults@[at as int] is None);
            if faults[at].is_none() {
                if let Some(circle) = find_circle(&rows, at) {
                    mark_circle(fields, &mut faults, &circle);
                }
            }
            at = at + 1;
        }
    }
    let mut i: usize = 0;
    while i < fields.len()
        invariant
            i <= fields@.len(),
            ids == ids_of(fields@),
            faults@.len() == fields@.len(),
            goal == reasons_view(faults@),
            faults_view(list@) == listed(ids, goal, i as int),
        decreases fields@.len() - i,
    {
        let ghost before = list@;
        assert(ids[i as int] == fields@[i as int].id@);
        assert(goal[i as int] == reasons_view(faults@)[i as int]);
        if let Some(reason) = &faults[i] {
            list.push((fields[i].id.clone(), reason.clone()));
            proof {
                assert(faults_view(list@) =~= faults_view(before).push(
                    (ids[i as int], reason@),
                ));
            }
        }
        i = i + 1;
    }
    list
}

} // verus!
