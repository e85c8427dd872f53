use marks_card_gen_backend::identity::Identity;
use marks_card_gen_backend::report::{grade_for, ReportCard};
use marks_card_gen_backend::store::RecordStore;

fn who(b: &[u8]) -> Identity {
    Identity::new(b.to_vec())
}

#[test]
fn grade_boundaries_exact() {
    assert_eq!(grade_for(89999, 1000), "B");
    assert_eq!(grade_for(90000, 1000), "A");
    assert_eq!(grade_for(74999, 1000), "C");
    assert_eq!(grade_for(75000, 1000), "B");
    assert_eq!(grade_for(59999, 1000), "D");
    assert_eq!(grade_for(60000, 1000), "C");
}

#[test]
fn grade_extremes() {
    assert_eq!(grade_for(0, 5), "D");
    assert_eq!(grade_for(100, 1), "A");
    assert_eq!(grade_for(u32::MAX, u32::MAX), "D");
    assert_eq!(grade_for(u32::MAX, 47721858), "A");
    assert_eq!(grade_for(u32::MAX, 47721859), "B");
    assert_eq!(grade_for(u32::MAX, 1), "A");
    assert_eq!(grade_for(1, u32::MAX), "D");
}

#[test]
fn zero_subjects_grade_d() {
    assert_eq!(grade_for(270, 0), "D");
    assert_eq!(grade_for(0, 0), "D");
    let c = ReportCard::new("Z".to_string(), 270, 0);
    assert_eq!(c.grade, "D");
    assert_eq!(c.num_subjects, 0);
}

#[test]
fn new_keeps_inputs_verbatim() {
    let c = ReportCard::new(String::new(), 150, 2);
    assert_eq!(c.student_name, "");
    assert_eq!(c.total_marks, 150);
    assert_eq!(c.num_subjects, 2);
    assert_eq!(c.grade, "B");
}

#[test]
fn derivation_is_deterministic() {
    let a = ReportCard::new("Ann".to_string(), 200, 3);
    let b = ReportCard::new("Ben".to_string(), 200, 3);
    assert_eq!(a.grade, b.grade);
    assert_eq!(a.grade, "C");
}

#[test]
fn duplicate_copies_every_field() {
    let a = ReportCard::new("Ann".to_string(), 181, 2);
    let d = a.duplicate();
    assert_eq!(d.student_name, "Ann");
    assert_eq!(d.total_marks, 181);
    assert_eq!(d.num_subjects, 2);
    assert_eq!(d.grade, "A");
}

#[test]
fn scenario_two_reports() {
    let mut store = RecordStore::new();
    store.store_report_card(who(b"A"), "Bob".to_string(), 270, 3);
    store.store_report_card(who(b"A"), "Bob".to_string(), 180, 3);
    let mine = store.get_my_reports(&who(b"A"));
    assert_eq!(mine.len(), 2);
    assert_eq!(mine[0].student_name, "Bob");
    assert_eq!(mine[0].total_marks, 270);
    assert_eq!(mine[0].grade, "A");
    assert_eq!(mine[1].total_marks, 180);
    assert_eq!(mine[1].grade, "C");
    assert!(store.get_my_reports(&who(b"B")).is_empty());
}

#[test]
fn boundary_just_under_a() {
    let mut store = RecordStore::new();
    store.store_report_card(who(b"A"), "X".to_string(), 269, 3);
    let mine = store.get_my_reports(&who(b"A"));
    assert_eq!(mine.len(), 1);
    assert_eq!(mine[0].grade, "B");
    let average = mine[0].total_marks as f64 / mine[0].num_subjects as f64;
    assert!((average - 89.67).abs() < 0.01);
}

#[test]
fn appends_kept_in_order() {
    let mut store = RecordStore::new();
    for k in 0..10u32 {
        store.store_report_card(who(b"A"), format!("s{}", k), k * 10, 1);
    }
    let mine = store.get_my_reports(&who(b"A"));
    assert_eq!(mine.len(), 10);
    for (k, c) in mine.iter().enumerate() {
        assert_eq!(c.student_name, format!("s{}", k));
        assert_eq!(c.total_marks, k as u32 * 10);
    }
}

#[test]
fn identities_isolated() {
    let mut store = RecordStore::new();
    store.store_report_card(who(b"A"), "a1".to_string(), 10, 1);
    store.store_report_card(who(b"B"), "b1".to_string(), 95, 1);
    store.store_report_card(who(b"A"), "a2".to_string(), 20, 1);
    let a = store.get_my_reports(&who(b"A"));
    let b = store.get_my_reports(&who(b"B"));
    assert_eq!(a.len(), 2);
    assert_eq!(a[0].student_name, "a1");
    assert_eq!(a[1].student_name, "a2");
    assert_eq!(b.len(), 1);
    assert_eq!(b[0].student_name, "b1");
    assert_eq!(b[0].grade, "A");
    assert!(store.get_my_reports(&who(b"AB")).is_empty());
    assert!(store.get_my_reports(&who(b"")).is_empty());
}

#[test]
fn empty_store_lists_nothing() {
    let store = RecordStore::new();
    assert!(store.get_my_reports(&who(b"A")).is_empty());
    assert!(store.get_my_reports(&who(b"")).is_empty());
}

#[test]
fn listing_does_not_change_store() {
    let mut store = RecordStore::new();
    store.store_report_card(who(b"A"), "Bob".to_string(), 270, 3);
    let first = store.get_my_reports(&who(b"A"));
    let second = store.get_my_reports(&who(b"A"));
    assert_eq!(first.len(), 1);
    assert_eq!(second.len(), 1);
    assert_eq!(second[0].grade, "A");
}

#[test]
fn duplicate_names_and_inputs_kept() {
    let mut store = RecordStore::new();
    store.store_report_card(who(b"A"), "Bob".to_string(), 50, 1);
    store.store_report_card(who(b"A"), "Bob".to_string(), 50, 1);
    let mine = store.get_my_reports(&who(b"A"));
    assert_eq!(mine.len(), 2);
    assert_eq!(mine[0].grade, "D");
    assert_eq!(mine[1].grade, "D");
}

#[test]
fn identity_equality_is_by_bytes() {
    assert!(who(b"abc").same_as(&who(b"abc")));
    assert!(!who(b"abc").same_as(&who(b"abd")));
    assert!(!who(b"abc").same_as(&who(b"ab")));
    assert!(who(b"").same_as(&who(b"")));
    assert_eq!(who(&[7, 8, 9]).as_bytes(), &[7u8, 8, 9][..]);
}
