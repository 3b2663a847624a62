use gradebook::grades::GradeRecord;
use gradebook::model::{Database, GradeRow, UserRow};

fn user(id: i64, email: &str, role: &str) -> UserRow {
    UserRow {
        id,
        email: email.to_string(),
        password: "$2a$04$UuTkLRZZ6QofpDOlMz32MuuxEHA43WOemOYHPz6.SjsVsyO1tDU96".to_string(),
        role: role.to_string(),
        firstname: Some("F".to_string()),
        lastname: Some("L".to_string()),
    }
}

fn school() -> Database {
    Database::from_rows(
        vec![user(1, "s@x", "student"), user(2, "t@x", "teacher"), user(3, "r@x", "student")],
        Vec::new(),
        3,
        0,
    )
    .unwrap()
}

fn save(db: &mut Database, email: &str, subject: &str, quarter: &str, fg: f64, now: &str) -> Result<String, String> {
    db.save_student_grades_at(
        email.to_string(),
        subject.to_string(),
        quarter.to_string(),
        vec![90.0f64.to_bits(), 85.5f64.to_bits()],
        vec![88.0f64.to_bits()],
        91.0f64.to_bits(),
        fg.to_bits(),
        now.to_string(),
    )
}

fn keys(list: &[GradeRecord]) -> Vec<(String, String)> {
    list.iter().map(|r| (r.subject.clone(), r.quarter.clone())).collect()
}

#[test]
fn saved_grades_read_back() {
    let mut db = school();
    assert_eq!(save(&mut db, "s@x", "Math", "Q1", 89.25, "2024-06-01 10:00:00"), Ok("Grades saved successfully".to_string()));
    let got = db.get_student_grades("s@x".to_string(), Some("Math".to_string()), Some("Q1".to_string()));
    assert_eq!(got.len(), 1);
    let r = &got[0];
    assert_eq!(r.student_id, 1);
    assert_eq!(r.student_email, "s@x");
    assert_eq!(r.written_works, vec![90.0f64.to_bits(), 85.5f64.to_bits()]);
    assert_eq!(r.performance_tasks, vec![88.0f64.to_bits()]);
    assert_eq!(f64::from_bits(r.quarterly_assessment), 91.0);
    assert_eq!(f64::from_bits(r.final_grade), 89.25);
    assert_eq!(r.created_at, "2024-06-01 10:00:00");
    let row: &GradeRow = &db.grades()[0];
    assert_eq!(row.id, 1);
    assert_eq!(row.updated_at, "2024-06-01 10:00:00");
}

#[test]
fn saving_again_replaces_the_quarter() {
    let mut db = school();
    save(&mut db, "s@x", "Math", "Q1", 80.0, "t1").unwrap();
    save(&mut db, "s@x", "Science", "Q1", 70.0, "t2").unwrap();
    save(&mut db, "s@x", "Math", "Q1", 95.0, "t3").unwrap();
    assert_eq!(db.grades().len(), 2);
    assert_eq!(db.last_grade_id(), 3);
    let got = db.get_student_grades("s@x".to_string(), Some("Math".to_string()), Some("Q1".to_string()));
    assert_eq!(got.len(), 1);
    assert_eq!(f64::from_bits(got[0].final_grade), 95.0);
    assert_eq!(got[0].created_at, "t3");
    assert_eq!(db.grades()[1].id, 3);
    assert_eq!(db.grades()[0].subject, "Science");
}

#[test]
fn saving_for_non_students_is_refused() {
    let mut db = school();
    assert_eq!(save(&mut db, "t@x", "Math", "Q1", 80.0, "t"), Err("Student not found".to_string()));
    assert_eq!(save(&mut db, "nobody@x", "Math", "Q1", 80.0, "t"), Err("Student not found".to_string()));
    assert_eq!(db.grades().len(), 0);
    assert_eq!(db.last_grade_id(), 0);
}

#[test]
fn saving_when_grade_ids_are_used_up_fails() {
    let mut db = Database::from_rows(vec![user(1, "s@x", "student")], Vec::new(), 1, i64::MAX).unwrap();
    assert_eq!(
        save(&mut db, "s@x", "Math", "Q1", 80.0, "t"),
        Err("Failed to save grades: database or disk is full".to_string())
    );
    assert_eq!(db.grades().len(), 0);
}

#[test]
fn save_with_clock_stamps_a_timestamp() {
    let mut db = school();
    let r = db.save_student_grades(
        "s@x".to_string(),
        "Math".to_string(),
        "Q2".to_string(),
        vec![],
        vec![],
        0,
        0,
    );
    assert_eq!(r, Ok("Grades saved successfully".to_string()));
    let stamp = &db.grades()[0].created_at;
    assert_eq!(stamp.len(), 19);
    assert_eq!(&stamp[4..5], "-");
    assert_eq!(&stamp[10..11], " ");
}

#[test]
fn grades_are_ordered_by_subject_then_quarter() {
    let mut db = school();
    save(&mut db, "s@x", "Science", "Q2", 1.0, "t").unwrap();
    save(&mut db, "s@x", "Math", "Q2", 1.0, "t").unwrap();
    save(&mut db, "r@x", "Art", "Q1", 1.0, "t").unwrap();
    save(&mut db, "s@x", "Science", "Q1", 1.0, "t").unwrap();
    save(&mut db, "s@x", "Math", "Q1", 1.0, "t").unwrap();
    save(&mut db, "s@x", "English", "Q3", 1.0, "t").unwrap();
    let all = db.get_student_grades("s@x".to_string(), None, None);
    assert_eq!(
        keys(&all),
        vec![
            ("English".to_string(), "Q3".to_string()),
            ("Math".to_string(), "Q1".to_string()),
            ("Math".to_string(), "Q2".to_string()),
            ("Science".to_string(), "Q1".to_string()),
            ("Science".to_string(), "Q2".to_string()),
        ]
    );
    let q1 = db.get_student_grades("s@x".to_string(), None, Some("Q1".to_string()));
    assert_eq!(keys(&q1), vec![("Math".to_string(), "Q1".to_string()), ("Science".to_string(), "Q1".to_string())]);
    let sci = db.get_student_grades("s@x".to_string(), Some("Science".to_string()), None);
    assert_eq!(sci.len(), 2);
    assert!(db.get_student_grades("nobody@x".to_string(), None, None).is_empty());
}

#[test]
fn ordering_uses_binary_collation() {
    let mut db = school();
    save(&mut db, "s@x", "math", "Q1", 1.0, "t").unwrap();
    save(&mut db, "s@x", "Math", "Q1", 1.0, "t").unwrap();
    save(&mut db, "s@x", "Mathematics", "Q1", 1.0, "t").unwrap();
    save(&mut db, "s@x", "Émile", "Q1", 1.0, "t").unwrap();
    let all = db.get_student_grades("s@x".to_string(), None, None);
    let subjects: Vec<&str> = all.iter().map(|r| r.subject.as_str()).collect();
    assert_eq!(subjects, vec!["Math", "Mathematics", "math", "Émile"]);
}

#[test]
fn subjects_are_distinct_and_sorted() {
    let mut db = school();
    save(&mut db, "s@x", "Science", "Q1", 1.0, "t").unwrap();
    save(&mut db, "s@x", "Math", "Q1", 1.0, "t").unwrap();
    save(&mut db, "s@x", "Science", "Q2", 1.0, "t").unwrap();
    save(&mut db, "r@x", "Art", "Q1", 1.0, "t").unwrap();
    save(&mut db, "s@x", "Math", "Q4", 1.0, "t").unwrap();
    assert_eq!(db.get_student_subjects("s@x".to_string()), vec!["Math".to_string(), "Science".to_string()]);
    assert_eq!(db.get_student_subjects("r@x".to_string()), vec!["Art".to_string()]);
    assert!(db.get_student_subjects("t@x".to_string()).is_empty());
}

#[test]
fn delete_reports_count_and_leaves_nothing() {
    let mut db = school();
    save(&mut db, "s@x", "Math", "Q1", 1.0, "t").unwrap();
    save(&mut db, "r@x", "Math", "Q1", 1.0, "t").unwrap();
    save(&mut db, "s@x", "Math", "Q2", 1.0, "t").unwrap();
    save(&mut db, "s@x", "Science", "Q1", 1.0, "t").unwrap();
    let listed = db.get_student_grades("s@x".to_string(), Some("Math".to_string()), None).len();
    assert_eq!(listed, 2);
    assert_eq!(db.delete_student_grades("s@x".to_string(), Some("Math".to_string()), None), "Deleted 2 grade record(s)");
    assert!(db.get_student_grades("s@x".to_string(), Some("Math".to_string()), None).is_empty());
    assert_eq!(db.grades().len(), 2);
    assert_eq!(db.grades()[0].student_email, "r@x");
    assert_eq!(db.grades()[1].subject, "Science");
    assert_eq!(db.delete_student_grades("s@x".to_string(), Some("Math".to_string()), None), "Deleted 0 grade record(s)");
    assert_eq!(db.delete_student_grades("s@x".to_string(), None, Some("Q1".to_string())), "Deleted 1 grade record(s)");
    assert_eq!(db.last_grade_id(), 4);
}

#[test]
fn delete_everything_of_a_student() {
    let mut db = school();
    for i in 0..12 {
        save(&mut db, "s@x", &format!("S{}", i), "Q1", 1.0, "t").unwrap();
    }
    assert_eq!(db.delete_student_grades("s@x".to_string(), None, None), "Deleted 12 grade record(s)");
    assert!(db.grades().is_empty());
}

#[test]
fn from_rows_rejects_duplicate_grade_keys() {
    let g = |id: i64, subject: &str| GradeRow {
        id,
        student_id: 1,
        student_email: "s@x".to_string(),
        subject: subject.to_string(),
        quarter: "Q1".to_string(),
        written_works: vec![],
        performance_tasks: vec![],
        quarterly_assessment: 0,
        final_grade: 0,
        created_at: "t".to_string(),
        updated_at: "t".to_string(),
    };
    assert!(Database::from_rows(Vec::new(), vec![g(1, "Math"), g(2, "Math")], 0, 2).is_none());
    assert!(Database::from_rows(Vec::new(), vec![g(1, "Math"), g(1, "Art")], 0, 2).is_none());
    let db = Database::from_rows(Vec::new(), vec![g(1, "Math"), g(2, "Art")], 0, 2).unwrap();
    assert_eq!(db.grades().len(), 2);
}

#[test]
fn subjects_match_the_listed_grades() {
    let mut db = school();
    save(&mut db, "s@x", "Science", "Q1", 1.0, "t").unwrap();
    save(&mut db, "s@x", "Math", "Q1", 1.0, "t").unwrap();
    save(&mut db, "s@x", "Math", "Q2", 1.0, "t").unwrap();
    let mut from_grades: Vec<String> =
        db.get_student_grades("s@x".to_string(), None, None).into_iter().map(|r| r.subject).collect();
    from_grades.dedup();
    assert_eq!(db.get_student_subjects("s@x".to_string()), from_grades);
}

#[test]
fn saving_the_same_key_twice_replaces_the_last_row() {
    let mut db = school();
    save(&mut db, "r@x", "Art", "Q1", 1.0, "t0").unwrap();
    save(&mut db, "s@x", "Math", "Q1", 80.0, "t1").unwrap();
    save(&mut db, "s@x", "Math", "Q1", 85.0, "t2").unwrap();
    assert_eq!(db.grades().len(), 2);
    assert_eq!(db.grades()[0].subject, "Art");
    assert_eq!(db.grades()[1].id, 3);
    assert_eq!(db.grades()[1].created_at, "t2");
    assert_eq!(f64::from_bits(db.grades()[1].final_grade), 85.0);
}

#[test]
fn deleting_twice_removes_nothing_more() {
    let mut db = school();
    save(&mut db, "s@x", "Math", "Q1", 1.0, "t").unwrap();
    save(&mut db, "r@x", "Math", "Q1", 1.0, "t").unwrap();
    assert_eq!(db.delete_student_grades("s@x".to_string(), None, None), "Deleted 1 grade record(s)");
    assert_eq!(db.delete_student_grades("s@x".to_string(), None, None), "Deleted 0 grade record(s)");
    assert_eq!(db.grades().len(), 1);
}

#[test]
fn deleting_a_new_save_restores_the_grades() {
    let mut db = school();
    save(&mut db, "r@x", "Art", "Q1", 1.0, "t").unwrap();
    save(&mut db, "s@x", "Math", "Q1", 2.0, "t").unwrap();
    assert_eq!(db.delete_student_grades("s@x".to_string(), Some("Math".to_string()), Some("Q1".to_string())), "Deleted 1 grade record(s)");
    assert_eq!(db.grades().len(), 1);
    assert_eq!(db.grades()[0].student_email, "r@x");
    assert_eq!(db.last_grade_id(), 2);
}

#[test]
fn narrowing_keeps_the_order_of_the_wider_query() {
    let mut db = school();
    save(&mut db, "s@x", "Science", "Q2", 1.0, "t").unwrap();
    save(&mut db, "s@x", "Math", "Q2", 1.0, "t").unwrap();
    save(&mut db, "s@x", "Science", "Q1", 1.0, "t").unwrap();
    save(&mut db, "s@x", "Math", "Q1", 1.0, "t").unwrap();
    let all = db.get_student_grades("s@x".to_string(), None, None);
    let q2 = db.get_student_grades("s@x".to_string(), None, Some("Q2".to_string()));
    let filtered: Vec<(String, String)> = keys(&all).into_iter().filter(|k| k.1 == "Q2").collect();
    assert_eq!(keys(&q2), filtered);
    let sci = db.get_student_grades("s@x".to_string(), Some("Science".to_string()), None);
    let filtered: Vec<(String, String)> = keys(&all).into_iter().filter(|k| k.0 == "Science").collect();
    assert_eq!(keys(&sci), filtered);
}

#[test]
fn a_delete_stays_empty_across_other_commands() {
    let mut db = school();
    save(&mut db, "s@x", "Math", "Q1", 1.0, "t").unwrap();
    db.delete_student_grades("s@x".to_string(), Some("Math".to_string()), None);
    save(&mut db, "r@x", "Math", "Q1", 1.0, "t").unwrap();
    db.delete_student_grades("r@x".to_string(), None, Some("Q2".to_string()));
    assert!(db.get_student_grades("s@x".to_string(), Some("Math".to_string()), None).is_empty());
}

#[test]
fn save_with_a_given_clock_reading() {
    let mut db = school();
    let r = db.save_student_grades_with_clock(
        Ok((1717236000, 123)),
        "s@x".to_string(),
        "Math".to_string(),
        "Q1".to_string(),
        vec![],
        vec![],
        0,
        0,
    );
    assert_eq!(r, Ok("Grades saved successfully".to_string()));
    assert_eq!(db.grades()[0].created_at, "2024-06-01 10:00:00");
    assert_eq!(db.grades()[0].updated_at, "2024-06-01 10:00:00");
    let r = db.save_student_grades_with_clock(Err((1, 0)), "s@x".to_string(), "Math".to_string(), "Q2".to_string(), vec![], vec![], 0, 0);
    assert_eq!(r, Ok("Grades saved successfully".to_string()));
    assert_eq!(db.grades()[1].created_at, "1969-12-31 23:59:59");
}

#[test]
fn save_with_a_clock_beyond_year_9999_is_refused() {
    let mut db = school();
    let far = Ok((253402300800, 0));
    let r = db.save_student_grades_with_clock(far.clone(), "s@x".to_string(), "Math".to_string(), "Q1".to_string(), vec![], vec![], 0, 0);
    assert_eq!(r, Err("Failed to save grades: the clock is outside the years 0000 to 9999".to_string()));
    let r = db.save_student_grades_with_clock(far, "t@x".to_string(), "Math".to_string(), "Q1".to_string(), vec![], vec![], 0, 0);
    assert_eq!(r, Err("Student not found".to_string()));
    assert!(db.grades().is_empty());
}

#[test]
fn saved_grades_read_back_after_other_commands() {
    let mut db = school();
    let r = db.save_student_grades_with_clock(
        Ok((1717236000, 0)),
        "s@x".to_string(),
        "Math".to_string(),
        "Q1".to_string(),
        vec![95.0f64.to_bits()],
        vec![],
        0,
        93.5f64.to_bits(),
    );
    assert_eq!(r, Ok("Grades saved successfully".to_string()));
    save(&mut db, "s@x", "Math", "Q2", 80.0, "2024-07-01 08:00:00").unwrap();
    save(&mut db, "r@x", "Math", "Q1", 70.0, "2024-07-01 08:00:00").unwrap();
    db.delete_student_grades("s@x".to_string(), Some("Science".to_string()), None);
    db.delete_student_grades("s@x".to_string(), Some("Math".to_string()), Some("Q2".to_string()));
    db.delete_student_grades("r@x".to_string(), None, None);
    let got = db.get_student_grades("s@x".to_string(), Some("Math".to_string()), Some("Q1".to_string()));
    assert_eq!(got.len(), 1);
    assert_eq!(got[0].student_id, 1);
    assert_eq!(got[0].written_works, vec![95.0f64.to_bits()]);
    assert_eq!(f64::from_bits(got[0].final_grade), 93.5);
    assert_eq!(got[0].created_at, "2024-06-01 10:00:00");
}
