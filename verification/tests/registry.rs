use student_attendance::store::{get_class_attendance, record_attendance, AttendanceStore, StudentStore};
use student_attendance::types::{AttendanceRecord, Error};

fn rec(date: &str, status: bool) -> AttendanceRecord {
    AttendanceRecord { date: date.to_string(), status }
}

#[test]
fn new_stores_are_empty_and_well_formed() {
    let s = StudentStore::new();
    let a = AttendanceStore::new();
    assert!(s.is_well_formed());
    assert!(a.is_well_formed());
    assert_eq!(s.get_all_students().len(), 0);
    assert!(matches!(s.get_student(1), Err(Error::NotFound)));
    assert!(matches!(a.get_attendance(1), Err(Error::NotFound)));
}

#[test]
fn add_then_get_returns_new_record() {
    let mut s = StudentStore::new();
    assert!(s.add_student(7, "Ann".to_string(), "5A".to_string()).is_ok());
    let st = s.get_student(7).unwrap();
    assert_eq!(st.id, 7);
    assert_eq!(st.name, "Ann");
    assert_eq!(st.class, "5A");
    assert_eq!(st.present_days, 0);
    assert_eq!(st.absent_days, 0);
}

#[test]
fn add_existing_fails_and_preserves_record() {
    let mut s = StudentStore::new();
    assert!(s.add_student(7, "Ann".to_string(), "5A".to_string()).is_ok());
    assert!(matches!(
        s.add_student(7, "Bob".to_string(), "6B".to_string()),
        Err(Error::AlreadyExists)
    ));
    let st = s.get_student(7).unwrap();
    assert_eq!(st.name, "Ann");
    assert_eq!(st.class, "5A");
}

#[test]
fn update_name_only_changes_nothing_else() {
    let mut s = StudentStore::new();
    s.add_student(7, "Ann".to_string(), "5A".to_string()).unwrap();
    assert!(s.update_student(7, Some("Anna".to_string()), None).is_ok());
    let st = s.get_student(7).unwrap();
    assert_eq!(st.name, "Anna");
    assert_eq!(st.class, "5A");
    assert_eq!(st.present_days, 0);
    assert_eq!(st.absent_days, 0);
}

#[test]
fn update_class_only_changes_nothing_else() {
    let mut s = StudentStore::new();
    s.add_student(7, "Ann".to_string(), "5A".to_string()).unwrap();
    assert!(s.update_student(7, None, Some("6B".to_string())).is_ok());
    let st = s.get_student(7).unwrap();
    assert_eq!(st.name, "Ann");
    assert_eq!(st.class, "6B");
}

#[test]
fn update_with_no_fields_is_a_successful_noop() {
    let mut s = StudentStore::new();
    s.add_student(7, "Ann".to_string(), "5A".to_string()).unwrap();
    assert!(s.update_student(7, None, None).is_ok());
    let st = s.get_student(7).unwrap();
    assert_eq!(st.name, "Ann");
    assert_eq!(st.class, "5A");
}

#[test]
fn update_missing_student_fails() {
    let mut s = StudentStore::new();
    assert!(matches!(
        s.update_student(9, Some("X".to_string()), None),
        Err(Error::NotFound)
    ));
}

#[test]
fn remove_then_get_fails_but_attendance_survives() {
    let mut s = StudentStore::new();
    let mut a = AttendanceStore::new();
    s.add_student(7, "Ann".to_string(), "5A".to_string()).unwrap();
    a.set_attendance(7, vec![rec("2024-01-08", true), rec("2024-01-09", false)]);
    assert!(s.remove_student(7).is_ok());
    assert!(matches!(s.get_student(7), Err(Error::NotFound)));
    let records = a.get_attendance(7).unwrap();
    assert_eq!(records.len(), 2);
    assert_eq!(records[0].date, "2024-01-08");
    assert!(records[0].status);
    assert_eq!(records[1].date, "2024-01-09");
    assert!(!records[1].status);
}

#[test]
fn remove_missing_student_fails() {
    let mut s = StudentStore::new();
    assert!(matches!(s.remove_student(9), Err(Error::NotFound)));
}

#[test]
fn stats_three_present_one_absent() {
    let mut s = StudentStore::new();
    let mut a = AttendanceStore::new();
    s.add_student(1, "Ann".to_string(), "5A".to_string()).unwrap();
    record_attendance(&mut s, &mut a, 1, "2024-01-08".to_string(), true).unwrap();
    record_attendance(&mut s, &mut a, 1, "2024-01-09".to_string(), true).unwrap();
    record_attendance(&mut s, &mut a, 1, "2024-01-10".to_string(), true).unwrap();
    record_attendance(&mut s, &mut a, 1, "2024-01-11".to_string(), false).unwrap();
    let (present, absent) = s.get_attendance_stats(1).unwrap();
    assert_eq!(present, 3);
    assert_eq!(absent, 1);
    // The percentage the host derives from the counters.
    let total = present + absent;
    let percentage = if total > 0 { present as f64 / total as f64 * 100.0 } else { 0.0 };
    assert_eq!(percentage, 75.0);
}

#[test]
fn stats_with_no_recorded_days_is_zero() {
    let mut s = StudentStore::new();
    s.add_student(1, "Ann".to_string(), "5A".to_string()).unwrap();
    let (present, absent) = s.get_attendance_stats(1).unwrap();
    assert_eq!(present, 0);
    assert_eq!(absent, 0);
    let total = present + absent;
    let percentage = if total > 0 { present as f64 / total as f64 * 100.0 } else { 0.0 };
    assert_eq!(percentage, 0.0);
}

#[test]
fn stats_missing_student_fails() {
    let s = StudentStore::new();
    assert!(matches!(s.get_attendance_stats(5), Err(Error::NotFound)));
}

#[test]
fn class_attendance_matches_class_exactly() {
    let mut s = StudentStore::new();
    let mut a = AttendanceStore::new();
    s.add_student(1, "Ann".to_string(), "5A".to_string()).unwrap();
    s.add_student(2, "Bob".to_string(), "5a".to_string()).unwrap();
    s.add_student(3, "Cid".to_string(), "5AB".to_string()).unwrap();
    s.add_student(4, "Dot".to_string(), "5A".to_string()).unwrap();
    a.set_attendance(1, vec![rec("2024-01-08", true)]);
    let roster = get_class_attendance(&s, &a, "5A".to_string());
    assert_eq!(roster.len(), 2);
    assert_eq!(roster[0].0.id, 1);
    assert_eq!(roster[0].0.name, "Ann");
    assert_eq!(roster[0].1.len(), 1);
    assert_eq!(roster[0].1[0].date, "2024-01-08");
    assert_eq!(roster[1].0.id, 4);
    // A student with no attendance entry is paired with an empty sequence.
    assert_eq!(roster[1].1.len(), 0);
}

#[test]
fn class_attendance_of_unknown_class_is_empty() {
    let mut s = StudentStore::new();
    let a = AttendanceStore::new();
    s.add_student(1, "Ann".to_string(), "5A".to_string()).unwrap();
    let roster = get_class_attendance(&s, &a, "6B".to_string());
    assert!(roster.is_empty());
}

#[test]
fn attendance_empty_entry_differs_from_absent_key() {
    let mut a = AttendanceStore::new();
    a.set_attendance(3, Vec::new());
    let records = a.get_attendance(3).unwrap();
    assert!(records.is_empty());
    assert!(matches!(a.get_attendance(4), Err(Error::NotFound)));
}

#[test]
fn set_attendance_replaces_an_entry() {
    let mut a = AttendanceStore::new();
    a.set_attendance(3, vec![rec("2024-01-08", true), rec("2024-01-09", true)]);
    a.set_attendance(3, vec![rec("2024-02-05", false)]);
    let records = a.get_attendance(3).unwrap();
    assert_eq!(records.len(), 1);
    assert_eq!(records[0].date, "2024-02-05");
    assert!(!records[0].status);
}

#[test]
fn get_all_students_is_stable_and_sorted_by_id() {
    let mut s = StudentStore::new();
    s.add_student(20, "Bob".to_string(), "5A".to_string()).unwrap();
    s.add_student(5, "Ann".to_string(), "5B".to_string()).unwrap();
    s.add_student(11, "Cid".to_string(), "5A".to_string()).unwrap();
    let first = s.get_all_students();
    let second = s.get_all_students();
    assert_eq!(first.len(), 3);
    assert_eq!(second.len(), 3);
    let ids: Vec<u64> = first.iter().map(|st| st.id).collect();
    assert_eq!(ids, vec![5, 11, 20]);
    for (x, y) in first.iter().zip(second.iter()) {
        assert_eq!(x.id, y.id);
        assert_eq!(x.name, y.name);
        assert_eq!(x.class, y.class);
        assert_eq!(x.present_days, y.present_days);
        assert_eq!(x.absent_days, y.absent_days);
    }
}

#[test]
fn record_attendance_appends_in_order() {
    let mut s = StudentStore::new();
    let mut a = AttendanceStore::new();
    s.add_student(1, "Ann".to_string(), "5A".to_string()).unwrap();
    record_attendance(&mut s, &mut a, 1, "2024-01-08".to_string(), true).unwrap();
    record_attendance(&mut s, &mut a, 1, "2024-01-09".to_string(), false).unwrap();
    let records = a.get_attendance(1).unwrap();
    assert_eq!(records.len(), 2);
    assert_eq!(records[0].date, "2024-01-08");
    assert!(records[0].status);
    assert_eq!(records[1].date, "2024-01-09");
    assert!(!records[1].status);
}

#[test]
fn record_attendance_for_missing_student_changes_nothing() {
    let mut s = StudentStore::new();
    let mut a = AttendanceStore::new();
    assert!(matches!(
        record_attendance(&mut s, &mut a, 9, "2024-01-08".to_string(), true),
        Err(Error::NotFound)
    ));
    assert!(matches!(a.get_attendance(9), Err(Error::NotFound)));
}
