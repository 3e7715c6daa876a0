//! Laws that relate the operations to one another.
//!
//! Each operation's own `ensures` pins its result over the store's map view;
//! the proof functions here state, at that view level, what two operations in
//! a row observe. They are part of the library's public statement and are
//! meant to be read together with the contracts in [`crate::store`].

use vstd::prelude::*;

use crate::keyed::{records_or_empty, sorted_by_id};
use crate::store::class_roster;
use crate::types::{new_student, updated_student, RecordView, StudentView};

verus! {

/// Adding a student under a fresh id succeeds (the `ensures` of
/// `add_student` owes `Ok` whenever the id is absent) and makes exactly the
/// new record visible: a following lookup of the id returns the given name
/// and class with both counters at zero, and every other record is untouched.
pub proof fn lemma_add_then_get(
    m: Map<u64, StudentView>,
    id: u64,
    name: Seq<char>,
    class: Seq<char>,
)
    requires
        !m.contains_key(id),
    ensures
        ({
            let m2 = m.insert(id, new_student(id, name, class));
            &&& m2.contains_key(id)
            &&& m2[id] == (StudentView { id, name, class, present_days: 0, absent_days: 0 })
            &&& forall|k: u64| k != id ==> m2.contains_key(k) == m.contains_key(k)
            &&& forall|k: u64| k != id && m.contains_key(k) ==> m2[k] == m[k]
        }),
{
}

/// A name-only update rewrites nothing but the name: the class and the two
/// counters of the updated record keep their values, no id appears or
/// disappears, and every other record is untouched.
pub proof fn lemma_update_name_only(m: Map<u64, StudentView>, id: u64, name: Seq<char>)
    requires
        m.contains_key(id),
    ensures
        ({
            let m2 = m.insert(id, updated_student(m[id], Some(name), None));
            &&& m2.dom() == m.dom()
            &&& m2[id].name == name
            &&& m2[id].class == m[id].class
            &&& m2[id].present_days == m[id].present_days
            &&& m2[id].absent_days == m[id].absent_days
            &&& m2[id].id == m[id].id
            &&& forall|k: u64| k != id && m.contains_key(k) ==> m2[k] == m[k]
        }),
{
    assert(m.insert(id, updated_student(m[id], Some(name), None)).dom() =~= m.dom());
}

/// An update that gives neither field is a no-op on the store: it still
/// succeeds when the id exists, and the map is unchanged.
pub proof fn lemma_update_noop(m: Map<u64, StudentView>, id: u64)
    requires
        m.contains_key(id),
    ensures
        m.insert(id, updated_student(m[id], None, None)) == m,
{
    assert(updated_student(m[id], None, None) == m[id]);
    assert(m.insert(id, m[id]) =~= m);
}

/// After a removal the id is gone — a following lookup owes `NotFound` by
/// the `ensures` of `get_student` — while every other record is untouched.
/// A prior `get_attendance` result is unaffected: `remove_student` does not
/// even take the attendance store as a parameter, so no cascade can occur.
pub proof fn lemma_remove_then_get(m: Map<u64, StudentView>, id: u64)
    ensures
        !m.remove(id).contains_key(id),
        forall|k: u64| k != id ==> m.remove(id).contains_key(k) == m.contains_key(k),
        forall|k: u64| k != id && m.contains_key(k) ==> m.remove(id)[k] == m[k],
{
}

/// Every element of a class roster matches the asked class exactly (equality
/// of the whole character sequence, hence case-sensitive, no partial match),
/// is a student of the store, and is paired with its recorded sequence — the
/// empty sequence when it has no attendance entry.
pub proof fn lemma_class_roster_members(
    students: Seq<StudentView>,
    att: Map<u64, Seq<RecordView>>,
    class: Seq<char>,
)
    ensures
        forall|i: int|
            0 <= i < class_roster(students, att, class).len() ==> {
                let p = #[trigger] class_roster(students, att, class)[i];
                &&& p.0.class == class
                &&& students.contains(p.0)
                &&& p.1 == records_or_empty(att, p.0.id)
            },
    decreases students.len(),
{
    let r = class_roster(students, att, class);
    if students.len() > 0 {
        let t = students.drop_last();
        lemma_class_roster_members(t, att, class);
        let rt = class_roster(t, att, class);
        assert forall|i: int| 0 <= i < r.len() implies {
            let p = #[trigger] r[i];
            &&& p.0.class == class
            &&& students.contains(p.0)
            &&& p.1 == records_or_empty(att, p.0.id)
        } by {
            if i < rt.len() {
                let p = rt[i];
                assert(t.contains(p.0));
                let j = choose|j: int| 0 <= j < t.len() && t[j] == p.0;
                assert(students[j] == p.0);
                assert(students.contains(p.0));
            } else {
                assert(students[students.len() - 1] == students.last());
                assert(students.contains(students.last()));
            }
        }
    }
}

/// A snapshot of the student store is fully determined by the store's value
/// and lists the records in strictly ascending id order: two snapshots taken
/// with no write between them are identical, element for element.
pub proof fn lemma_snapshot_stable(
    s: Seq<StudentView>,
    r1: Seq<StudentView>,
    r2: Seq<StudentView>,
)
    requires
        sorted_by_id(s),
        r1 == s,
        r2 == s,
    ensures
        r1 == r2,
        sorted_by_id(r1),
        forall|i: int, j: int| 0 <= i < j < r1.len() ==> r1[i].id < r1[j].id,
{
}

} // verus!
