//! The abstraction from a keyed sequence to a finite map.
//!
//! Each store keeps its entries in a vector; its contract speaks of the
//! finite map that the vector denotes. `student_map_of` and
//! `attendance_map_of` build that map, and the lemmas here relate a point
//! mutation of the sequence (insert, update, remove, push) to the matching
//! `Map` operation.

use vstd::prelude::*;

use crate::types::{EntryView, RecordView, StudentView};

verus! {

/// Student ids strictly increase along the sequence.
pub open spec fn sorted_by_id(s: Seq<StudentView>) -> bool {
    forall|i: int, j: int| 0 <= i < j < s.len() ==> s[i].id < s[j].id
}

/// No student id occurs twice.
pub open spec fn unique_ids(s: Seq<StudentView>) -> bool {
    forall|i: int, j: int| 0 <= i < j < s.len() ==> s[i].id != s[j].id
}

/// No entry key occurs twice.
pub open spec fn unique_entry_ids(s: Seq<EntryView>) -> bool {
    forall|i: int, j: int| 0 <= i < j < s.len() ==> s[i].student_id != s[j].student_id
}

/// The map denoted by a sequence of student records, keyed by id. When an id
/// occurs twice the later record wins; the stores never hold such a sequence.
pub open spec fn student_map_of(s: Seq<StudentView>) -> Map<u64, StudentView>
    decreases s.len(),
{
    if s.len() == 0 {
        Map::empty()
    } else {
        student_map_of(s.drop_last()).insert(s.last().id, s.last())
    }
}

/// The map denoted by a sequence of attendance entries, keyed by student id.
pub open spec fn attendance_map_of(s: Seq<EntryView>) -> Map<u64, Seq<RecordView>>
    decreases s.len(),
{
    if s.len() == 0 {
        Map::empty()
    } else {
        attendance_map_of(s.drop_last()).insert(s.last().student_id, s.last().records)
    }
}

/// The recorded sequence under a key, defaulting to the empty sequence when
/// the key is absent.
pub open spec fn records_or_empty(m: Map<u64, Seq<RecordView>>, id: u64) -> Seq<RecordView> {
    if m.contains_key(id) {
        m[id]
    } else {
        Seq::empty()
    }
}

proof fn lemma_id_chain(s: Seq<StudentView>, i: int, j: int)
    requires
        forall|k: int| 0 <= k < s.len() - 1 ==> #[trigger] s[k].id < s[k + 1].id,
        0 <= i < j < s.len(),
    ensures
        s[i].id < s[j].id,
    decreases j - i,
{
    if j > i + 1 {
        lemma_id_chain(s, i, j - 1);
    }
    assert(s[j - 1].id < s[j].id);
}

/// A sequence whose adjacent ids ascend is sorted throughout.
pub proof fn lemma_adjacent_sorted(s: Seq<StudentView>)
    requires
        forall|k: int| 0 <= k < s.len() - 1 ==> #[trigger] s[k].id < s[k + 1].id,
    ensures
        sorted_by_id(s),
{
    assert forall|i: int, j: int| 0 <= i < j < s.len() implies s[i].id < s[j].id by {
        lemma_id_chain(s, i, j);
    }
}

pub proof fn lemma_sorted_implies_unique(s: Seq<StudentView>)
    requires
        sorted_by_id(s),
    ensures
        unique_ids(s),
{
}

/// An id is in the map exactly when some element of the sequence carries it.
pub proof fn lemma_student_map_contains(s: Seq<StudentView>, id: u64)
    ensures
        student_map_of(s).contains_key(id) <==> exists|i: int| 0 <= i < s.len() && s[i].id == id,
    decreases s.len(),
{
    if s.len() > 0 {
        let t = s.drop_last();
        lemma_student_map_contains(t, id);
        assert(s.last() == s[s.len() - 1]);
        if student_map_of(s).contains_key(id) {
            if id == s.last().id {
                assert(s[s.len() - 1].id == id);
            } else {
                let i = choose|i: int| 0 <= i < t.len() && t[i].id == id;
                assert(s[i].id == id);
            }
        }
        if exists|i: int| 0 <= i < s.len() && s[i].id == id {
            let i = choose|i: int| 0 <= i < s.len() && s[i].id == id;
            if i < s.len() - 1 {
                assert(t[i].id == id);
            }
        }
    }
}

/// With unique ids, the map sends each element's id to that element.
pub proof fn lemma_student_map_index(s: Seq<StudentView>, i: int)
    requires
        unique_ids(s),
        0 <= i < s.len(),
    ensures
        student_map_of(s).contains_key(s[i].id),
        student_map_of(s)[s[i].id] == s[i],
    decreases s.len(),
{
    if i == s.len() - 1 {
        assert(s.last() == s[i]);
    } else {
        let t = s.drop_last();
        assert(t[i] == s[i]);
        assert forall|a: int, b: int| 0 <= a < b < t.len() implies t[a].id != t[b].id by {
            assert(t[a] == s[a]);
            assert(t[b] == s[b]);
        }
        lemma_student_map_index(t, i);
        assert(s[i].id != s.last().id);
    }
}

/// Inserting a record with a fresh id anywhere in the sequence inserts it
/// into the map.
pub proof fn lemma_student_map_insert(s: Seq<StudentView>, i: int, x: StudentView)
    requires
        0 <= i <= s.len(),
        forall|j: int| 0 <= j < s.len() ==> s[j].id != x.id,
    ensures
        student_map_of(s.insert(i, x)) == student_map_of(s).insert(x.id, x),
    decreases s.len(),
{
    let u = s.insert(i, x);
    if i == s.len() {
        assert(u.last() == x);
        assert(u.drop_last() =~= s);
    } else {
        let t = s.drop_last();
        assert(u.last() == s.last());
        assert(u.drop_last() =~= t.insert(i, x));
        assert forall|j: int| 0 <= j < t.len() implies t[j].id != x.id by {
            assert(t[j] == s[j]);
        }
        lemma_student_map_insert(t, i, x);
        assert(s.last().id != x.id);
        assert(student_map_of(t).insert(x.id, x).insert(s.last().id, s.last()) =~= student_map_of(
            t,
        ).insert(s.last().id, s.last()).insert(x.id, x));
    }
}

/// Replacing the record at an index by one with the same id overwrites that
/// id's image in the map.
pub proof fn lemma_student_map_update(s: Seq<StudentView>, i: int, x: StudentView)
    requires
        unique_ids(s),
        0 <= i < s.len(),
        s[i].id == x.id,
    ensures
        student_map_of(s.update(i, x)) == student_map_of(s).insert(x.id, x),
    decreases s.len(),
{
    let u = s.update(i, x);
    if i == s.len() - 1 {
        assert(u.last() == x);
        assert(u.drop_last() =~= s.drop_last());
        assert(student_map_of(s.drop_last()).insert(s.last().id, s.last()).insert(x.id, x)
            =~= student_map_of(s.drop_last()).insert(x.id, x));
    } else {
        let t = s.drop_last();
        assert(u.last() == s.last());
        assert(u.drop_last() =~= t.update(i, x));
        assert forall|a: int, b: int| 0 <= a < b < t.len() implies t[a].id != t[b].id by {
            assert(t[a] == s[a]);
            assert(t[b] == s[b]);
        }
        assert(t[i] == s[i]);
        lemma_student_map_update(t, i, x);
        assert(s.last().id != x.id);
        assert(student_map_of(t).insert(x.id, x).insert(s.last().id, s.last()) =~= student_map_of(
            t,
        ).insert(s.last().id, s.last()).insert(x.id, x));
    }
}

/// Removing the record at an index removes its id from the map.
pub proof fn lemma_student_map_remove(s: Seq<StudentView>, i: int)
    requires
        unique_ids(s),
        0 <= i < s.len(),
    ensures
        student_map_of(s.remove(i)) == student_map_of(s).remove(s[i].id),
    decreases s.len(),
{
    let u = s.remove(i);
    let t = s.drop_last();
    if i == s.len() - 1 {
        assert(u =~= t);
        assert forall|j: int| 0 <= j < t.len() implies t[j].id != s.last().id by {
            assert(t[j] == s[j]);
        }
        lemma_student_map_contains(t, s.last().id);
        assert(student_map_of(t).insert(s.last().id, s.last()).remove(s.last().id)
            =~= student_map_of(t));
    } else {
        assert(u.last() == s.last());
        assert(u.drop_last() =~= t.remove(i));
        assert forall|a: int, b: int| 0 <= a < b < t.len() implies t[a].id != t[b].id by {
            assert(t[a] == s[a]);
            assert(t[b] == s[b]);
        }
        assert(t[i] == s[i]);
        lemma_student_map_remove(t, i);
        assert(s.last().id != s[i].id);
        assert(student_map_of(t).remove(s[i].id).insert(s.last().id, s.last()) =~= student_map_of(
            t,
        ).insert(s.last().id, s.last()).remove(s[i].id));
    }
}

/// An entry key is in the attendance map exactly when some entry carries it.
pub proof fn lemma_attendance_map_contains(s: Seq<EntryView>, id: u64)
    ensures
        attendance_map_of(s).contains_key(id) <==> exists|i: int|
            0 <= i < s.len() && s[i].student_id == id,
    decreases s.len(),
{
    if s.len() > 0 {
        let t = s.drop_last();
        lemma_attendance_map_contains(t, id);
        assert(s.last() == s[s.len() - 1]);
        if attendance_map_of(s).contains_key(id) {
            if id == s.last().student_id {
                assert(s[s.len() - 1].student_id == id);
            } else {
                let i = choose|i: int| 0 <= i < t.len() && t[i].student_id == id;
                assert(s[i].student_id == id);
            }
        }
        if exists|i: int| 0 <= i < s.len() && s[i].student_id == id {
            let i = choose|i: int| 0 <= i < s.len() && s[i].student_id == id;
            if i < s.len() - 1 {
                assert(t[i].student_id == id);
            }
        }
    }
}

/// With unique keys, the attendance map sends each entry's key to its records.
pub proof fn lemma_attendance_map_index(s: Seq<EntryView>, i: int)
    requires
        unique_entry_ids(s),
        0 <= i < s.len(),
    ensures
        attendance_map_of(s).contains_key(s[i].student_id),
        attendance_map_of(s)[s[i].student_id] == s[i].records,
    decreases s.len(),
{
    if i == s.len() - 1 {
        assert(s.last() == s[i]);
    } else {
        let t = s.drop_last();
        assert(t[i] == s[i]);
        assert forall|a: int, b: int| 0 <= a < b < t.len() implies t[a].student_id
            != t[b].student_id by {
            assert(t[a] == s[a]);
            assert(t[b] == s[b]);
        }
        lemma_attendance_map_index(t, i);
        assert(s[i].student_id != s.last().student_id);
    }
}

/// Replacing the entry at an index by one with the same key overwrites that
/// key's image in the attendance map.
pub proof fn lemma_attendance_map_update(s: Seq<EntryView>, i: int, x: EntryView)
    requires
        unique_entry_ids(s),
        0 <= i < s.len(),
        s[i].student_id == x.student_id,
    ensures
        attendance_map_of(s.update(i, x)) == attendance_map_of(s).insert(
            x.student_id,
            x.records,
        ),
    decreases s.len(),
{
    let u = s.update(i, x);
    if i == s.len() - 1 {
        assert(u.last() == x);
        assert(u.drop_last() =~= s.drop_last());
        assert(attendance_map_of(s.drop_last()).insert(
            s.last().student_id,
            s.last().records,
        ).insert(x.student_id, x.records) =~= attendance_map_of(s.drop_last()).insert(
            x.student_id,
            x.records,
        ));
    } else {
        let t = s.drop_last();
        assert(u.last() == s.last());
        assert(u.drop_last() =~= t.update(i, x));
        assert forall|a: int, b: int| 0 <= a < b < t.len() implies t[a].student_id
            != t[b].student_id by {
            assert(t[a] == s[a]);
            assert(t[b] == s[b]);
        }
        assert(t[i] == s[i]);
        lemma_attendance_map_update(t, i, x);
        assert(s.last().student_id != x.student_id);
        assert(attendance_map_of(t).insert(x.student_id, x.records).insert(
            s.last().student_id,
            s.last().records,
        ) =~= attendance_map_of(t).insert(s.last().student_id, s.last().records).insert(
            x.student_id,
            x.records,
        ));
    }
}

/// Appending an entry with a fresh key inserts it into the attendance map.
pub proof fn lemma_attendance_map_push(s: Seq<EntryView>, x: EntryView)
    ensures
        attendance_map_of(s.push(x)) == attendance_map_of(s).insert(x.student_id, x.records),
{
    let u = s.push(x);
    assert(u.last() == x);
    assert(u.drop_last() =~= s);
}

} // verus!
