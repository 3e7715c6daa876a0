//! The record types of the registry and its error kinds.

use vstd::prelude::*;

verus! {

/// The two failure kinds of the registry. Every fallible operation returns
/// exactly one of them: a lookup that found no entry reports `NotFound`, an
/// insert that collided with an existing key reports `AlreadyExists`.
#[derive(Clone, Copy, PartialEq, Eq, Structural, Debug)]
pub enum Error {
    AlreadyExists,
    NotFound,
}

/// One student record. `id` is the primary key and never changes after
/// creation; `class` is the grouping key of the class-wide queries; the two
/// counters summarise recorded attendance days.
pub struct Student {
    pub id: u64,
    pub name: String,
    pub class: String,
    pub present_days: u32,
    pub absent_days: u32,
}

/// The mathematical value of a [`Student`]: the same fields with the strings
/// replaced by their character sequences.
pub ghost struct StudentView {
    pub id: u64,
    pub name: Seq<char>,
    pub class: Seq<char>,
    pub present_days: u32,
    pub absent_days: u32,
}

impl View for Student {
    type V = StudentView;

    open spec fn view(&self) -> StudentView {
        StudentView {
            id: self.id,
            name: self.name@,
            class: self.class@,
            present_days: self.present_days,
            absent_days: self.absent_days,
        }
    }
}

impl DeepView for Student {
    type V = StudentView;

    open spec fn deep_view(&self) -> StudentView {
        self.view()
    }
}

impl Clone for Student {
    fn clone(&self) -> (r: Self)
        ensures
            r@ == self@,
    {
        Student {
            id: self.id,
            name: self.name.clone(),
            class: self.class.clone(),
            present_days: self.present_days,
            absent_days: self.absent_days,
        }
    }
}

/// One attendance entry: an opaque calendar date and a flag that is `true`
/// for a present day and `false` for an absent one.
pub struct AttendanceRecord {
    pub date: String,
    pub status: bool,
}

/// The mathematical value of an [`AttendanceRecord`].
pub ghost struct RecordView {
    pub date: Seq<char>,
    pub status: bool,
}

impl View for AttendanceRecord {
    type V = RecordView;

    open spec fn view(&self) -> RecordView {
        RecordView { date: self.date@, status: self.status }
    }
}

impl DeepView for AttendanceRecord {
    type V = RecordView;

    open spec fn deep_view(&self) -> RecordView {
        self.view()
    }
}

impl Clone for AttendanceRecord {
    fn clone(&self) -> (r: Self)
        ensures
            r@ == self@,
    {
        AttendanceRecord { date: self.date.clone(), status: self.status }
    }
}

/// The mathematical value of one attendance-store entry: a student id and
/// the recorded sequence for it, in insertion order.
pub ghost struct EntryView {
    pub student_id: u64,
    pub records: Seq<RecordView>,
}

/// The record that `add_student` creates for a fresh id: the given name and
/// class, both counters at zero.
pub open spec fn new_student(id: u64, name: Seq<char>, class: Seq<char>) -> StudentView {
    StudentView { id, name, class, present_days: 0, absent_days: 0 }
}

/// The record after a partial update: each given field overwrites the old
/// one, an absent field leaves it unchanged; id and counters never change.
pub open spec fn updated_student(
    s: StudentView,
    name: Option<Seq<char>>,
    class: Option<Seq<char>>,
) -> StudentView {
    StudentView {
        id: s.id,
        name: match name {
            Some(n) => n,
            None => s.name,
        },
        class: match class {
            Some(c) => c,
            None => s.class,
        },
        present_days: s.present_days,
        absent_days: s.absent_days,
    }
}

/// The record after one attendance day is counted: a present day increments
/// `present_days`, an absent one `absent_days`; every other field stays.
pub open spec fn bumped_student(s: StudentView, status: bool) -> StudentView {
    StudentView {
        id: s.id,
        name: s.name,
        class: s.class,
        present_days: if status {
            (s.present_days + 1) as u32
        } else {
            s.present_days
        },
        absent_days: if status {
            s.absent_days
        } else {
            (s.absent_days + 1) as u32
        },
    }
}

} // verus!
