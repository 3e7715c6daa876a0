//! The two keyed stores and every operation over them.
//!
//! `StudentStore` keeps its records in a vector sorted by strictly ascending
//! id, so full enumeration is in key order; `AttendanceStore` keeps one entry
//! per student id. Each store's contract speaks of the finite map its vector
//! denotes (see [`crate::keyed`]).

use vstd::prelude::*;

use crate::keyed::{
    attendance_map_of, lemma_attendance_map_contains, lemma_attendance_map_index,
    lemma_attendance_map_push, lemma_attendance_map_update, lemma_sorted_implies_unique,
    lemma_student_map_contains, lemma_student_map_index, lemma_student_map_insert,
    lemma_student_map_remove, lemma_student_map_update, records_or_empty, sorted_by_id,
    student_map_of, unique_entry_ids,
};
use crate::types::{
    bumped_student,
    new_student, updated_student, AttendanceRecord, EntryView, Error, RecordView, Student,
    StudentView,
};

verus! {

/// The student store: an ordered mapping from student id to [`Student`],
/// held as a vector in strictly ascending id order.
pub struct StudentStore {
    students: Vec<Student>,
}

impl View for StudentStore {
    type V = Seq<StudentView>;

    closed spec fn view(&self) -> Seq<StudentView> {
        self.students.deep_view()
    }
}

impl StudentStore {
    /// Well-formedness: ids strictly ascend, hence are unique.
    pub open spec fn wf(&self) -> bool {
        sorted_by_id(self@)
    }

    /// The finite map the store denotes.
    pub open spec fn as_map(&self) -> Map<u64, StudentView> {
        student_map_of(self@)
    }

    /// Whether a record exists under the given id.
    pub open spec fn contains_student(&self, id: u64) -> bool {
        self.as_map().contains_key(id)
    }

    /// The empty store every process starts from.
    pub fn new() -> (s: Self)
        ensures
            s.wf(),
            s@ == Seq::<StudentView>::empty(),
            s.as_map() == Map::<u64, StudentView>::empty(),
    {
        let s = StudentStore { students: Vec::new() };
        proof {
            assert(s@ =~= Seq::<StudentView>::empty());
        }
        s
    }

    /// Index of the record with the given id, if one exists.
    fn find_index(&self, id: u64) -> (r: Option<usize>)
        ensures
            match r {
                Some(i) => i < self@.len() && self@[i as int].id == id,
                None => forall|j: int| 0 <= j < self@.len() ==> self@[j].id != id,
            },
    {
        let n = self.students.len();
        let mut k: usize = 0;
        while k < n
            invariant
                k <= n,
                n == self@.len(),
                forall|j: int| 0 <= j < k ==> self@[j].id != id,
            decreases n - k,
        {
            if self.students[k].id == id {
                return Some(k);
            }
            k += 1;
        }
        None
    }

    /// Index of the first record whose id is not below the given one.
    fn lower_bound(&self, id: u64) -> (i: usize)
        requires
            self.wf(),
        ensures
            i <= self@.len(),
            forall|j: int| 0 <= j < i ==> self@[j].id < id,
            forall|j: int| i <= j < self@.len() ==> id <= self@[j].id,
    {
        let n = self.students.len();
        let mut k: usize = 0;
        while k < n && self.students[k].id < id
            invariant
                k <= n,
                n == self@.len(),
                self.wf(),
                forall|j: int| 0 <= j < k ==> self@[j].id < id,
            decreases n - k,
        {
            k += 1;
        }
        proof {
            if k < n {
                assert forall|j: int| k <= j < self@.len() implies id <= self@[j].id by {
                    if j > k {
                        assert(self@[k as int].id < self@[j].id);
                    }
                }
            }
        }
        k
    }

    /// Inserts a new record with the given name and class and both counters
    /// at zero. Succeeds exactly when the id is still free; on a collision it
    /// fails with `AlreadyExists` and changes nothing.
    pub fn add_student(&mut self, id: u64, name: String, class: String) -> (r: Result<(), Error>)
        requires
            old(self).wf(),
        ensures
            final(self).wf(),
            match r {
                Ok(_) => !old(self).contains_student(id) && final(self).as_map() == old(self).as_map().insert(id, new_student(id, name@, class@)) && final(self)@.len() == old(self)@.len() + 1,
                Err(e) => e == Error::AlreadyExists && old(self).contains_student(id) && final(self)@ == old(self)@,
            },
    {
        let i = self.lower_bound(id);
        let n = self.students.len();
        if i < n && self.students[i].id == id {
            proof {
                assert(self@[i as int].id == id);
                lemma_student_map_contains(self@, id);
            }
            return Err(Error::AlreadyExists);
        }
        let ghost pre = self@;
        proof {
            assert forall|j: int| 0 <= j < pre.len() implies pre[j].id != id by {
                if j > i {
                    assert(pre[i as int].id < pre[j].id);
                }
            }
            lemma_student_map_contains(pre, id);
        }
        let st = Student { id, name, class, present_days: 0, absent_days: 0 };
        proof {
            lemma_student_map_insert(pre, i as int, st@);
        }
        self.students.insert(i, st);
        proof {
            assert(self@ =~= pre.insert(i as int, new_student(id, name@, class@)));
            assert forall|a: int, b: int| 0 <= a < b < self@.len() implies self@[a].id
                < self@[b].id by {
                if a < i && b < i {
                    assert(pre[a].id < pre[b].id);
                } else if a < i && b > i {
                    assert(pre[a].id < pre[b - 1].id);
                } else if a == i && b > i {
                    assert(id <= pre[b - 1].id);
                } else if a > i {
                    assert(pre[a - 1].id < pre[b - 1].id);
                } else if b == i && a < i {
                    assert(pre[a].id < id);
                }
            }
        }
        Ok(())
    }

    /// Returns a copy of the record under the given id, or `NotFound`.
    pub fn get_student(&self, id: u64) -> (r: Result<Student, Error>)
        requires
            self.wf(),
        ensures
            match r {
                Ok(st) => self.contains_student(id) && st@ == self.as_map()[id],
                Err(e) => e == Error::NotFound && !self.contains_student(id),
            },
    {
        match self.find_index(id) {
            Some(i) => {
                proof {
                    lemma_sorted_implies_unique(self@);
                    lemma_student_map_index(self@, i as int);
                }
                Ok(self.students[i].clone())
            },
            None => {
                proof {
                    lemma_student_map_contains(self@, id);
                }
                Err(Error::NotFound)
            },
        }
    }

    /// Returns a snapshot copy of every record, in ascending id order. The
    /// result is fully determined by the store, so repeating the call with no
    /// intervening write yields an identical snapshot.
    pub fn get_all_students(&self) -> (r: Vec<Student>)
        requires
            self.wf(),
        ensures
            r.deep_view() == self@,
    {
        let mut out: Vec<Student> = Vec::new();
        let n = self.students.len();
        let mut k: usize = 0;
        while k < n
            invariant
                k <= n,
                n == self@.len(),
                out@.len() == k,
                forall|j: int| 0 <= j < k ==> out@[j]@ == self@[j],
            decreases n - k,
        {
            out.push(self.students[k].clone());
            k += 1;
        }
        proof {
            assert(out.deep_view() =~= self@);
        }
        out
    }

    /// Overwrites the name and/or class of the record under the given id;
    /// an absent field is left unchanged, and the counters never change.
    /// Fails with `NotFound`, changing nothing, when the id is absent.
    pub fn update_student(
        &mut self,
        id: u64,
        name: Option<String>,
        class: Option<String>,
    ) -> (r: Result<(), Error>)
        requires
            old(self).wf(),
        ensures
            final(self).wf(),
            match r {
                Ok(_) => old(self).contains_student(id) && final(self).as_map() == old(self).as_map().insert(
                    id,
                    updated_student(old(self).as_map()[id], name.deep_view(), class.deep_view()),
                ) && final(self)@.len() == old(self)@.len(),
                Err(e) => e == Error::NotFound && !old(self).contains_student(id) && final(self)@
                    == old(self)@,
            },
    {
        let ghost name_v = name.deep_view();
        let ghost class_v = class.deep_view();
        match self.find_index(id) {
            None => {
                proof {
                    lemma_student_map_contains(self@, id);
                }
                Err(Error::NotFound)
            },
            Some(i) => {
                let ghost pre = self@;
                let mut st = self.students[i].clone();
                if let Some(n) = name {
                    st.name = n;
                }
                if let Some(c) = class {
                    st.class = c;
                }
                proof {
                    lemma_sorted_implies_unique(pre);
                    lemma_student_map_index(pre, i as int);
                    assert(st@ == updated_student(pre[i as int], name_v, class_v));
                    lemma_student_map_update(pre, i as int, st@);
                }
                self.students[i] = st;
                proof {
                    assert(self@ =~= pre.update(i as int, updated_student(pre[i as int], name_v, class_v)));
                    assert forall|a: int, b: int| 0 <= a < b < self@.len() implies self@[a].id
                        < self@[b].id by {
                        assert(pre[a].id < pre[b].id);
                    }
                }
                Ok(())
            },
        }
    }

    /// Deletes the record under the given id, or fails with `NotFound` and
    /// changes nothing. The attendance store is not touched: it is not even
    /// a parameter, so historical records survive a removal.
    pub fn remove_student(&mut self, id: u64) -> (r: Result<(), Error>)
        requires
            old(self).wf(),
        ensures
            final(self).wf(),
            match r {
                Ok(_) => old(self).contains_student(id) && final(self).as_map() == old(self).as_map().remove(id) && final(self)@.len() + 1 == old(self)@.len(),
                Err(e) => e == Error::NotFound && !old(self).contains_student(id) && final(self)@
                    == old(self)@,
            },
    {
        match self.find_index(id) {
            None => {
                proof {
                    lemma_student_map_contains(self@, id);
                }
                Err(Error::NotFound)
            },
            Some(i) => {
                let ghost pre = self@;
                proof {
                    lemma_sorted_implies_unique(pre);
                    lemma_student_map_index(pre, i as int);
                    lemma_student_map_remove(pre, i as int);
                }
                self.students.remove(i);
                proof {
                    assert(self@ =~= pre.remove(i as int));
                    assert forall|a: int, b: int| 0 <= a < b < self@.len() implies self@[a].id
                        < self@[b].id by {
                        if b < i {
                            assert(pre[a].id < pre[b].id);
                        } else if a < i {
                            assert(pre[a].id < pre[b + 1].id);
                        } else {
                            assert(pre[a + 1].id < pre[b + 1].id);
                        }
                    }
                }
                Ok(())
            },
        }
    }

    /// Reads the two attendance counters of the record under the given id,
    /// or fails with `NotFound`. The attendance percentage is a
    /// floating-point presentation of these two counters and is left to the
    /// host shell around the library.
    pub fn get_attendance_stats(&self, id: u64) -> (r: Result<(u32, u32), Error>)
        requires
            self.wf(),
        ensures
            match r {
                Ok(stats) => self.contains_student(id) && stats.0 == self.as_map()[id].present_days
                    && stats.1 == self.as_map()[id].absent_days,
                Err(e) => e == Error::NotFound && !self.contains_student(id),
            },
    {
        match self.find_index(id) {
            Some(i) => {
                proof {
                    lemma_sorted_implies_unique(self@);
                    lemma_student_map_index(self@, i as int);
                }
                Ok((self.students[i].present_days, self.students[i].absent_days))
            },
            None => {
                proof {
                    lemma_student_map_contains(self@, id);
                }
                Err(Error::NotFound)
            },
        }
    }

    /// Runtime check of the store invariant, for a host that must validate
    /// state it restored before calling the operations that require it.
    pub fn is_well_formed(&self) -> (b: bool)
        ensures
            b == self.wf(),
    {
        let n = self.students.len();
        if n == 0 {
            return true;
        }
        let mut k: usize = 0;
        while k < n - 1
            invariant
                n == self@.len(),
                1 <= n,
                k <= n - 1,
                forall|j: int| 0 <= j < k ==> #[trigger] self@[j].id < self@[j + 1].id,
            decreases n - 1 - k,
        {
            if self.students[k].id >= self.students[k + 1].id {
                proof {
                    if sorted_by_id(self@) {
                        assert(self@[k as int].id < self@[k as int + 1].id);
                    }
                }
                return false;
            }
            k += 1;
        }
        proof {
            crate::keyed::lemma_adjacent_sorted(self@);
        }
        true
    }
}

/// One attendance-store entry: the recorded sequence of one student id.
struct AttendanceEntry {
    student_id: u64,
    records: Vec<AttendanceRecord>,
}

impl View for AttendanceEntry {
    type V = EntryView;

    closed spec fn view(&self) -> EntryView {
        EntryView { student_id: self.student_id, records: self.records.deep_view() }
    }
}

impl DeepView for AttendanceEntry {
    type V = EntryView;

    closed spec fn deep_view(&self) -> EntryView {
        self.view()
    }
}

/// The attendance store: a mapping from student id to the sequence of
/// attendance records for it, in insertion order. It is independent of the
/// student store: an entry may exist for an id with no student record, and
/// the other way round.
pub struct AttendanceStore {
    entries: Vec<AttendanceEntry>,
}

impl View for AttendanceStore {
    type V = Seq<EntryView>;

    closed spec fn view(&self) -> Seq<EntryView> {
        self.entries.deep_view()
    }
}

/// A copy of the given records, entry by entry.
fn clone_records(v: &Vec<AttendanceRecord>) -> (r: Vec<AttendanceRecord>)
    ensures
        r.deep_view() == v.deep_view(),
{
    let mut out: Vec<AttendanceRecord> = Vec::new();
    let n = v.len();
    let mut k: usize = 0;
    while k < n
        invariant
            k <= n,
            n == v@.len(),
            out@.len() == k,
            forall|j: int| 0 <= j < k ==> out@[j]@ == v@[j]@,
        decreases n - k,
    {
        out.push(v[k].clone());
        k += 1;
    }
    proof {
        assert(out.deep_view() =~= v.deep_view());
    }
    out
}

impl AttendanceStore {
    /// Well-formedness: one entry per student id.
    pub open spec fn wf(&self) -> bool {
        unique_entry_ids(self@)
    }

    /// The finite map the store denotes.
    pub open spec fn as_map(&self) -> Map<u64, Seq<RecordView>> {
        attendance_map_of(self@)
    }

    /// Whether an entry exists under the given id (an empty entry counts).
    pub open spec fn contains_attendance(&self, id: u64) -> bool {
        self.as_map().contains_key(id)
    }

    /// The empty store every process starts from.
    pub fn new() -> (s: Self)
        ensures
            s.wf(),
            s@ == Seq::<EntryView>::empty(),
            s.as_map() == Map::<u64, Seq<RecordView>>::empty(),
    {
        let s = AttendanceStore { entries: Vec::new() };
        proof {
            assert(s@ =~= Seq::<EntryView>::empty());
        }
        s
    }

    /// Index of the entry with the given id, if one exists.
    fn find_entry(&self, id: u64) -> (r: Option<usize>)
        ensures
            match r {
                Some(i) => i < self@.len() && self@[i as int].student_id == id,
                None => forall|j: int| 0 <= j < self@.len() ==> self@[j].student_id != id,
            },
    {
        let n = self.entries.len();
        let mut k: usize = 0;
        while k < n
            invariant
                k <= n,
                n == self@.len(),
                forall|j: int| 0 <= j < k ==> self@[j].student_id != id,
            decreases n - k,
        {
            if self.entries[k].student_id == id {
                return Some(k);
            }
            k += 1;
        }
        None
    }

    /// Returns a copy of the recorded sequence under the given id, in stored
    /// order. It fails with `NotFound` exactly when the id itself is absent:
    /// an entry that is present but empty succeeds with an empty result.
    pub fn get_attendance(&self, id: u64) -> (r: Result<Vec<AttendanceRecord>, Error>)
        requires
            self.wf(),
        ensures
            match r {
                Ok(recs) => self.contains_attendance(id) && recs.deep_view() == self.as_map()[id],
                Err(e) => e == Error::NotFound && !self.contains_attendance(id),
            },
    {
        match self.find_entry(id) {
            Some(i) => {
                proof {
                    lemma_attendance_map_index(self@, i as int);
                }
                Ok(clone_records(&self.entries[i].records))
            },
            None => {
                proof {
                    lemma_attendance_map_contains(self@, id);
                }
                Err(Error::NotFound)
            },
        }
    }

    /// A copy of the recorded sequence under the given id, defaulting to the
    /// empty sequence when the id is absent.
    fn records_or_default(&self, id: u64) -> (r: Vec<AttendanceRecord>)
        requires
            self.wf(),
        ensures
            r.deep_view() == records_or_empty(self.as_map(), id),
    {
        match self.find_entry(id) {
            Some(i) => {
                proof {
                    lemma_attendance_map_index(self@, i as int);
                }
                clone_records(&self.entries[i].records)
            },
            None => {
                proof {
                    lemma_attendance_map_contains(self@, id);
                }
                let v: Vec<AttendanceRecord> = Vec::new();
                proof {
                    assert(v.deep_view() =~= Seq::<RecordView>::empty());
                }
                v
            },
        }
    }

    /// Sets the whole recorded sequence under the given id, creating or
    /// replacing its entry; an empty sequence makes a present-but-empty
    /// entry. This is the loading hook for a host that restores persisted
    /// state, and the only way to create an entry without a record in it.
    pub fn set_attendance(&mut self, id: u64, records: Vec<AttendanceRecord>)
        requires
            old(self).wf(),
        ensures
            final(self).wf(),
            final(self).as_map() == old(self).as_map().insert(id, records.deep_view()),
    {
        let ghost rv = records.deep_view();
        let ghost pre = self@;
        match self.find_entry(id) {
            Some(i) => {
                proof {
                    lemma_attendance_map_update(
                        pre,
                        i as int,
                        EntryView { student_id: id, records: rv },
                    );
                }
                self.entries[i] = AttendanceEntry { student_id: id, records };
                proof {
                    assert(self@ =~= pre.update(
                        i as int,
                        EntryView { student_id: id, records: rv },
                    ));
                    assert forall|a: int, b: int|
                        0 <= a < b < self@.len() implies self@[a].student_id
                        != self@[b].student_id by {
                        assert(pre[a].student_id != pre[b].student_id);
                    }
                }
            },
            None => {
                proof {
                    lemma_attendance_map_push(pre, EntryView { student_id: id, records: rv });
                }
                self.entries.push(AttendanceEntry { student_id: id, records });
                proof {
                    assert(self@ =~= pre.push(EntryView { student_id: id, records: rv }));
                    assert forall|a: int, b: int|
                        0 <= a < b < self@.len() implies self@[a].student_id
                        != self@[b].student_id by {
                        if b < pre.len() {
                            assert(pre[a].student_id != pre[b].student_id);
                        } else {
                            assert(pre[a].student_id != id);
                        }
                    }
                }
            },
        }
    }

    /// Appends one record to the sequence under the given id, creating the
    /// entry when the id is absent.
    pub(crate) fn append_record(&mut self, id: u64, rec: AttendanceRecord)
        requires
            old(self).wf(),
        ensures
            final(self).wf(),
            final(self).as_map() == old(self).as_map().insert(
                id,
                records_or_empty(old(self).as_map(), id).push(rec@),
            ),
    {
        let ghost pre_map = self.as_map();
        let mut recs = self.records_or_default(id);
        recs.push(rec);
        proof {
            assert(recs.deep_view() =~= records_or_empty(pre_map, id).push(rec@));
        }
        self.set_attendance(id, recs);
    }

    /// Runtime check of the store invariant, for a host that must validate
    /// state it restored before calling the operations that require it.
    pub fn is_well_formed(&self) -> (b: bool)
        ensures
            b == self.wf(),
    {
        let n = self.entries.len();
        let mut k: usize = 0;
        while k < n
            invariant
                k <= n,
                n == self@.len(),
                forall|a: int, b: int|
                    0 <= a < b < n && a < k ==> self@[a].student_id != self@[b].student_id,
            decreases n - k,
        {
            let mut j: usize = k + 1;
            while j < n
                invariant
                    k < n,
                    k + 1 <= j <= n,
                    n == self@.len(),
                    forall|a: int, b: int|
                        0 <= a < b < n && a < k ==> self@[a].student_id != self@[b].student_id,
                    forall|b: int| k < b < j ==> self@[k as int].student_id != self@[b].student_id,
                decreases n - j,
            {
                if self.entries[k].student_id == self.entries[j].student_id {
                    proof {
                        if unique_entry_ids(self@) {
                            assert(self@[k as int].student_id != self@[j as int].student_id);
                        }
                    }
                    return false;
                }
                j += 1;
            }
            k += 1;
        }
        true
    }
}

/// The class roster that `get_class_attendance` returns: the students of the
/// given class in store order, each paired with its recorded sequence, or
/// with the empty sequence when it has no entry.
pub open spec fn class_roster(
    students: Seq<StudentView>,
    att: Map<u64, Seq<RecordView>>,
    class: Seq<char>,
) -> Seq<(StudentView, Seq<RecordView>)>
    decreases students.len(),
{
    if students.len() == 0 {
        Seq::empty()
    } else {
        let rest = class_roster(students.drop_last(), att, class);
        let s = students.last();
        if s.class == class {
            rest.push((s, records_or_empty(att, s.id)))
        } else {
            rest
        }
    }
}

/// Filters the student store by exact, case-sensitive match on the class and
/// pairs each matching student, in ascending id order, with a copy of its
/// attendance sequence, defaulting to an empty sequence rather than an
/// error when the student has no entry.
pub fn get_class_attendance(
    students: &StudentStore,
    attendance: &AttendanceStore,
    class: String,
) -> (r: Vec<(Student, Vec<AttendanceRecord>)>)
    requires
        students.wf(),
        attendance.wf(),
    ensures
        r.deep_view() == class_roster(students@, attendance.as_map(), class@),
{
    let mut out: Vec<(Student, Vec<AttendanceRecord>)> = Vec::new();
    let n = students.students.len();
    let mut k: usize = 0;
    while k < n
        invariant
            k <= n,
            n == students@.len(),
            students.wf(),
            attendance.wf(),
            out.deep_view() == class_roster(students@.take(k as int), attendance.as_map(), class@),
        decreases n - k,
    {
        let ghost prefix = students@.take(k as int);
        let s = &students.students[k];
        if s.class == class {
            let recs = attendance.records_or_default(s.id);
            out.push((s.clone(), recs));
        }
        proof {
            assert(students@.take(k as int + 1).drop_last() =~= prefix);
            assert(students@.take(k as int + 1).last() == students@[k as int]);
            assert(out.deep_view() =~= class_roster(
                students@.take(k as int + 1),
                attendance.as_map(),
                class@,
            ));
        }
        k += 1;
    }
    proof {
        assert(students@.take(n as int) =~= students@);
    }
    out
}

/// Records one attendance day: appends a record to the student's attendance
/// sequence and increments the matching counter of its student record. This
/// operation extends the read-only attendance surface; without it the
/// counters and the recorded sequences could never leave their initial
/// state. It fails with `NotFound`, changing neither store, when no student
/// record exists under the id.
pub fn record_attendance(
    students: &mut StudentStore,
    attendance: &mut AttendanceStore,
    id: u64,
    date: String,
    status: bool,
) -> (r: Result<(), Error>)
    requires
        old(students).wf(),
        old(attendance).wf(),
        old(students).contains_student(id) && status ==> old(students).as_map()[id].present_days
            < u32::MAX,
        old(students).contains_student(id) && !status ==> old(students).as_map()[id].absent_days
            < u32::MAX,
    ensures
        final(students).wf(),
        final(attendance).wf(),
        match r {
            Ok(_) => old(students).contains_student(id) && final(students).as_map() == old(students).as_map().insert(id, bumped_student(old(students).as_map()[id], status)) && final(attendance).as_map() == old(attendance).as_map().insert(
                id,
                records_or_empty(old(attendance).as_map(), id).push(
                    RecordView { date: date@, status },
                ),
            ),
            Err(e) => e == Error::NotFound && !old(students).contains_student(id) && final(students)@ == old(students)@ && final(attendance)@ == old(attendance)@,
        },
{
    match students.find_index(id) {
        None => {
            proof {
                lemma_student_map_contains(students@, id);
            }
            Err(Error::NotFound)
        },
        Some(i) => {
            let ghost pre = students@;
            let mut st = students.students[i].clone();
            proof {
                lemma_sorted_implies_unique(pre);
                lemma_student_map_index(pre, i as int);
            }
            if status {
                st.present_days = st.present_days + 1;
            } else {
                st.absent_days = st.absent_days + 1;
            }
            proof {
                assert(st@ == bumped_student(pre[i as int], status));
                lemma_student_map_update(pre, i as int, st@);
            }
            students.students[i] = st;
            proof {
                assert(students@ =~= pre.update(
                    i as int,
                    bumped_student(pre[i as int], status),
                ));
                assert forall|a: int, b: int|
                    0 <= a < b < students@.len() implies students@[a].id < students@[b].id by {
                    assert(pre[a].id < pre[b].id);
                }
            }
            attendance.append_record(id, AttendanceRecord { date, status });
            Ok(())
        },
    }
}

} // verus!
