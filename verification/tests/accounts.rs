use gradebook::accounts::{greet, ChangePasswordRequest, LoginRequest, SignupRequest};
use gradebook::model::{Database, UserRow};

/// A bcrypt hash (cost 4) of the password "password".
const HASH_OF_PASSWORD: &str = "$2a$04$UuTkLRZZ6QofpDOlMz32MuuxEHA43WOemOYHPz6.SjsVsyO1tDU96";

fn signup(email: &str, role: &str, first: Option<&str>, last: Option<&str>) -> SignupRequest {
    SignupRequest {
        email: email.to_string(),
        password: "password".to_string(),
        role: role.to_string(),
        firstname: first.map(|s| s.to_string()),
        lastname: last.map(|s| s.to_string()),
    }
}

fn login(email: &str, password: &str, role: &str) -> LoginRequest {
    LoginRequest { email: email.to_string(), password: password.to_string(), role: role.to_string() }
}

fn db_with(email: &str, role: &str) -> Database {
    let mut db = Database::new();
    let r = db.register_with_hash(signup(email, role, Some("Ana"), Some("Cruz")), Some(HASH_OF_PASSWORD.to_string()));
    assert_eq!(r, Ok("Registration successful".to_string()));
    db
}

#[test]
fn greet_builds_the_greeting() {
    assert_eq!(greet("Ada"), "Hello, Ada! You've been greeted from Rust!");
    assert_eq!(greet(""), "Hello, ! You've been greeted from Rust!");
}

#[test]
fn register_then_login_succeeds() {
    let mut db = Database::new();
    let r = db.tauri_register(SignupRequest {
        email: "kim@school.edu".to_string(),
        password: "s3cret".to_string(),
        role: "teacher".to_string(),
        firstname: Some("Kim".to_string()),
        lastname: None,
    });
    assert_eq!(r, Ok("Registration successful".to_string()));
    let stored = &db.users()[0];
    assert_eq!(stored.id, 1);
    assert!(stored.password.starts_with("$2b$12$"));
    assert_eq!(stored.password.len(), 60);
    assert_eq!(stored.lastname, Some(String::new()));
    let resp = db.tauri_login(login("kim@school.edu", "s3cret", "teacher"));
    assert!(resp.success);
    assert_eq!(resp.message, "Login successful");
    let user = resp.user.unwrap();
    assert_eq!(user.id, Some(1));
    assert_eq!(user.password, "");
    assert_eq!(user.firstname, Some("Kim".to_string()));
    assert_eq!(user.lastname, Some(String::new()));
}

#[test]
fn register_stores_missing_names_as_empty() {
    let mut db = Database::new();
    let r = db.register_with_hash(signup("a@x", "student", None, None), Some(HASH_OF_PASSWORD.to_string()));
    assert_eq!(r, Ok("Registration successful".to_string()));
    let u = &db.users()[0];
    assert_eq!(u.firstname, Some(String::new()));
    assert_eq!(u.lastname, Some(String::new()));
    assert_eq!(u.password, HASH_OF_PASSWORD);
    assert_eq!(db.last_user_id(), 1);
}

#[test]
fn register_duplicate_email_is_refused() {
    let mut db = db_with("a@x", "student");
    let r = db.register_with_hash(signup("a@x", "teacher", None, None), Some(HASH_OF_PASSWORD.to_string()));
    assert_eq!(r, Err("Email already exists".to_string()));
    assert_eq!(db.users().len(), 1);
    assert_eq!(db.last_user_id(), 1);
}

#[test]
fn register_hash_failure_is_reported() {
    let mut db = Database::new();
    let r = db.register_with_hash(signup("a@x", "student", None, None), None);
    assert_eq!(r, Err("Password hashing failed".to_string()));
    assert_eq!(db.users().len(), 0);
}

#[test]
fn register_when_ids_are_used_up_fails() {
    let mut db = Database::from_rows(Vec::new(), Vec::new(), i64::MAX, 0).unwrap();
    let r = db.register_with_hash(signup("a@x", "student", None, None), Some(HASH_OF_PASSWORD.to_string()));
    assert_eq!(r, Err("Database error occurred".to_string()));
    assert_eq!(db.users().len(), 0);
}

#[test]
fn register_ids_follow_the_counter() {
    let mut db = Database::from_rows(Vec::new(), Vec::new(), 41, 0).unwrap();
    db.register_with_hash(signup("a@x", "student", None, None), Some(HASH_OF_PASSWORD.to_string())).unwrap();
    db.register_with_hash(signup("b@x", "student", None, None), Some(HASH_OF_PASSWORD.to_string())).unwrap();
    assert_eq!(db.users()[0].id, 42);
    assert_eq!(db.users()[1].id, 43);
    assert_eq!(db.last_user_id(), 43);
}

#[test]
fn login_with_stored_hash_succeeds() {
    let db = db_with("ana@x", "student");
    let resp = db.tauri_login(login("ana@x", "password", "student"));
    assert!(resp.success);
    assert_eq!(resp.message, "Login successful");
    let u = resp.user.unwrap();
    assert_eq!(u.email, "ana@x");
    assert_eq!(u.role, "student");
    assert_eq!(u.password, "");
    assert_eq!(u.firstname, Some("Ana".to_string()));
}

#[test]
fn login_with_wrong_password_is_refused() {
    let db = db_with("ana@x", "student");
    let resp = db.tauri_login(login("ana@x", "wrong", "student"));
    assert!(!resp.success);
    assert_eq!(resp.message, "Invalid credentials");
    assert!(resp.user.is_none());
}

#[test]
fn login_with_wrong_role_or_email_finds_no_user() {
    let db = db_with("ana@x", "student");
    let resp = db.tauri_login(login("ana@x", "password", "teacher"));
    assert!(!resp.success);
    assert_eq!(resp.message, "User not found");
    let resp = db.tauri_login(login("bob@x", "password", "student"));
    assert_eq!(resp.message, "User not found");
    assert!(resp.user.is_none());
}

#[test]
fn login_against_malformed_hash_is_refused() {
    let mut db = Database::new();
    db.register_with_hash(signup("m@x", "student", None, None), Some("not a hash".to_string())).unwrap();
    let resp = db.tauri_login(login("m@x", "password", "student"));
    assert!(!resp.success);
    assert_eq!(resp.message, "Invalid credentials");
}

#[test]
fn profile_of_known_and_unknown_user() {
    let db = db_with("ana@x", "teacher");
    let p = db.get_user_profile("ana@x".to_string()).unwrap();
    assert_eq!(p.email, "ana@x");
    assert_eq!(p.firstname, Some("Ana".to_string()));
    assert_eq!(p.lastname, Some("Cruz".to_string()));
    assert_eq!(p.role, "teacher");
    assert_eq!(db.get_user_profile("nobody@x".to_string()).err(), Some("User not found".to_string()));
}

#[test]
fn change_password_with_given_outcomes() {
    let mut db = db_with("ana@x", "student");
    let req = || ChangePasswordRequest {
        email: "ana@x".to_string(),
        current_password: "password".to_string(),
        new_password: "next".to_string(),
    };
    assert_eq!(db.change_password_with(req(), Some(false), Some("h2".to_string())), Err("Current password is incorrect".to_string()));
    assert_eq!(db.change_password_with(req(), None, Some("h2".to_string())), Err("Current password is incorrect".to_string()));
    assert_eq!(db.change_password_with(req(), Some(true), None), Err("Password hashing failed".to_string()));
    assert_eq!(db.users()[0].password, HASH_OF_PASSWORD);
    assert_eq!(db.change_password_with(req(), Some(true), Some("h2".to_string())), Ok("Password changed successfully".to_string()));
    assert_eq!(db.users()[0].password, "h2");
    let other = ChangePasswordRequest { email: "zed@x".to_string(), current_password: "a".to_string(), new_password: "b".to_string() };
    assert_eq!(db.change_password_with(other, Some(true), Some("h3".to_string())), Err("User not found".to_string()));
}

#[test]
fn change_password_then_login_with_new_password() {
    let mut db = db_with("ana@x", "student");
    let wrong = ChangePasswordRequest {
        email: "ana@x".to_string(),
        current_password: "guess".to_string(),
        new_password: "next".to_string(),
    };
    assert_eq!(db.change_password(wrong), Err("Current password is incorrect".to_string()));
    let right = ChangePasswordRequest {
        email: "ana@x".to_string(),
        current_password: "password".to_string(),
        new_password: "next".to_string(),
    };
    assert_eq!(db.change_password(right), Ok("Password changed successfully".to_string()));
    assert!(db.tauri_login(login("ana@x", "next", "student")).success);
    let unknown = ChangePasswordRequest { email: "zed@x".to_string(), current_password: "a".to_string(), new_password: "b".to_string() };
    assert_eq!(db.change_password(unknown), Err("User not found".to_string()));
}

#[test]
fn reset_password_with_given_hash() {
    let mut db = db_with("ana@x", "student");
    assert_eq!(db.reset_password_with_hash("ana@x".to_string(), None), Err("Password hashing failed".to_string()));
    assert_eq!(db.reset_password_with_hash("zed@x".to_string(), Some("h".to_string())), Err("User not found".to_string()));
    assert_eq!(db.reset_password_with_hash("ana@x".to_string(), Some("h".to_string())), Ok("Password reset successful".to_string()));
    assert_eq!(db.users()[0].password, "h");
}

#[test]
fn reset_password_then_login() {
    let mut db = db_with("ana@x", "student");
    let r = db.reset_password("ana@x".to_string(), "RESET_1".to_string(), "fresh".to_string());
    assert_eq!(r, Ok("Password reset successful".to_string()));
    assert!(db.tauri_login(login("ana@x", "fresh", "student")).success);
    assert!(!db.tauri_login(login("ana@x", "password", "student")).success);
}

#[test]
fn forgot_password_at_fixed_times() {
    let db = db_with("ana@x", "student");
    assert_eq!(db.forgot_password_at("ana@x".to_string(), 1700000000), Ok("Reset token: RESET_1700000000".to_string()));
    assert_eq!(db.forgot_password_at("ana@x".to_string(), 0), Ok("Reset token: RESET_0".to_string()));
    assert_eq!(db.forgot_password_at("ana@x".to_string(), -42), Ok("Reset token: RESET_-42".to_string()));
    assert_eq!(
        db.forgot_password_at("ana@x".to_string(), i64::MIN),
        Ok("Reset token: RESET_-9223372036854775808".to_string())
    );
    assert_eq!(db.forgot_password_at("zed@x".to_string(), 5), Err("Email not found".to_string()));
}

#[test]
fn forgot_password_uses_the_clock() {
    let db = db_with("ana@x", "student");
    let r = db.tauri_forgot_password("ana@x".to_string()).unwrap();
    assert!(r.starts_with("Reset token: RESET_"));
    let digits = &r["Reset token: RESET_".len()..];
    assert!(digits.parse::<i64>().unwrap() > 1_600_000_000);
    assert_eq!(db.tauri_forgot_password("zed@x".to_string()), Err("Email not found".to_string()));
}

fn row(id: i64, email: &str, role: &str, first: Option<&str>, last: Option<&str>) -> UserRow {
    UserRow {
        id,
        email: email.to_string(),
        password: HASH_OF_PASSWORD.to_string(),
        role: role.to_string(),
        firstname: first.map(|s| s.to_string()),
        lastname: last.map(|s| s.to_string()),
    }
}

#[test]
fn students_are_listed_by_first_then_last_name() {
    let users = vec![
        row(1, "z@x", "student", Some("Zoe"), Some("Abe")),
        row(2, "t@x", "teacher", Some("Aaron"), Some("Teach")),
        row(3, "b@x", "student", Some("Bea"), Some("Young")),
        row(4, "n@x", "student", None, None),
        row(5, "a@x", "student", Some("Bea"), Some("Adams")),
        row(6, "c@x", "student", Some("Bea"), Some("Adams")),
    ];
    let db = Database::from_rows(users, Vec::new(), 6, 0).unwrap();
    let list = db.get_all_students();
    let emails: Vec<&str> = list.iter().map(|s| s.email.as_str()).collect();
    assert_eq!(emails, vec!["n@x", "a@x", "c@x", "b@x", "z@x"]);
    assert_eq!(list[0].firstname, "");
    assert_eq!(list[0].lastname, "");
    assert_eq!(list[0].id, 4);
    assert_eq!(list[1].lastname, "Adams");
    assert!(list.iter().all(|s| s.role == "student"));
}

#[test]
fn student_access_needs_the_student_role() {
    let users = vec![row(1, "s@x", "student", None, None), row(2, "t@x", "teacher", None, None)];
    let db = Database::from_rows(users, Vec::new(), 2, 0).unwrap();
    assert!(db.verify_student_access("s@x".to_string()));
    assert!(!db.verify_student_access("t@x".to_string()));
    assert!(!db.verify_student_access("nobody@x".to_string()));
}

#[test]
fn from_rows_checks_the_table_constraints() {
    let dup_email = vec![row(1, "s@x", "student", None, None), row(2, "s@x", "teacher", None, None)];
    assert!(Database::from_rows(dup_email, Vec::new(), 2, 0).is_none());
    let dup_id = vec![row(1, "s@x", "student", None, None), row(1, "t@x", "teacher", None, None)];
    assert!(Database::from_rows(dup_id, Vec::new(), 2, 0).is_none());
    let past_counter = vec![row(3, "s@x", "student", None, None)];
    assert!(Database::from_rows(past_counter, Vec::new(), 2, 0).is_none());
    assert!(Database::from_rows(Vec::new(), Vec::new(), -1, 0).is_none());
    let fine = vec![row(3, "s@x", "student", None, None)];
    assert!(Database::from_rows(fine, Vec::new(), 3, 0).is_some());
}

#[test]
fn access_check_matches_the_student_list() {
    let users = vec![row(1, "s@x", "student", Some("S"), None), row(2, "t@x", "teacher", None, None)];
    let db = Database::from_rows(users, Vec::new(), 2, 0).unwrap();
    let list = db.get_all_students();
    for e in ["s@x", "t@x", "zed@x"] {
        assert_eq!(db.verify_student_access(e.to_string()), list.iter().any(|s| s.email == e));
    }
}

#[test]
fn other_sign_ups_keep_a_login() {
    let mut db = db_with("ana@x", "student");
    db.register_with_hash(signup("bob@x", "teacher", None, None), Some("x".to_string())).unwrap();
    db.reset_password_with_hash("bob@x".to_string(), Some("y".to_string())).unwrap();
    let resp = db.tauri_login(login("ana@x", "password", "student"));
    assert!(resp.success);
    assert_eq!(resp.user.unwrap().id, Some(1));
}

#[test]
fn forgot_password_with_a_given_clock_reading() {
    let db = db_with("ana@x", "student");
    assert_eq!(db.forgot_password_with_clock("ana@x".to_string(), Ok((1700000000, 5))), Ok("Reset token: RESET_1700000000".to_string()));
    assert_eq!(db.forgot_password_with_clock("ana@x".to_string(), Err((10, 1))), Ok("Reset token: RESET_-11".to_string()));
    assert_eq!(
        db.forgot_password_with_clock("ana@x".to_string(), Ok((u64::MAX, 0))),
        Err("Clock error: the time does not fit in seconds".to_string())
    );
    assert_eq!(db.forgot_password_with_clock("zed@x".to_string(), Ok((u64::MAX, 0))), Err("Email not found".to_string()));
}

#[test]
fn login_after_a_run_of_commands_uses_the_last_password() {
    let mut db = db_with("ana@x", "student");
    db.register_with_hash(signup("bob@x", "teacher", None, None), Some("x".to_string())).unwrap();
    let change = ChangePasswordRequest {
        email: "ana@x".to_string(),
        current_password: "password".to_string(),
        new_password: "second".to_string(),
    };
    assert_eq!(db.change_password(change), Ok("Password changed successfully".to_string()));
    db.reset_password_with_hash("bob@x".to_string(), Some("y".to_string())).unwrap();
    let r = db.save_student_grades_with_clock(Ok((1717236000, 0)), "ana@x".to_string(), "Math".to_string(), "Q1".to_string(), vec![], vec![], 0, 0);
    assert_eq!(r, Ok("Grades saved successfully".to_string()));
    db.delete_student_grades("ana@x".to_string(), None, None);
    assert!(!db.tauri_login(login("ana@x", "password", "student")).success);
    let resp = db.tauri_login(login("ana@x", "second", "student"));
    assert!(resp.success);
    assert_eq!(resp.message, "Login successful");
    let user = resp.user.unwrap();
    assert_eq!(user.id, Some(1));
    assert_eq!(user.password, "");
    assert_eq!(user.firstname, Some("Ana".to_string()));
}
