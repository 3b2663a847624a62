//! What the replies carry: each field of a listed record, a student entry, a log-in
//! reply or a profile is the field of the stored row it comes from, and a saved row
//! holds what was entered.

use vstd::prelude::*;
use crate::model::{DbView, GradeView, UserView, db_wf, users_wf, has_user, user_position, user_by_email, student_role};
use crate::accounts::{
    StudentInfoView, is_student_list, students_at, name_key, login_outcome, profile_outcome, register_outcome,
    change_password_outcome, reset_password_outcome,
};
use crate::grades::{GradeRecordView, is_grade_listing, records_at, grade_selected, grade_order_key, save_grades_outcome};
use crate::sorting::is_listing;
use crate::laws::law_saved_grades_read_back;

verus! {

/// Record `r` shows stored row `g`: the same student id and email, subject, quarter,
/// the written works and performance tasks in the order they were stored, the same
/// quarterly assessment, final grade and time of creation.
pub open spec fn shows_row(r: GradeRecordView, g: GradeView) -> bool {
    &&& r.student_id == g.student_id
    &&& r.student_email == g.student_email
    &&& r.subject == g.subject
    &&& r.quarter == g.quarter
    &&& r.written_works == g.written_works
    &&& r.performance_tasks == g.performance_tasks
    &&& r.quarterly_assessment == g.quarterly_assessment
    &&& r.final_grade == g.final_grade
    &&& r.created_at == g.created_at
}

/// Entry `e` of the student list shows stored user `u`: its id, email and role, and its
/// first and last name, a `NULL` name as the empty text.
pub open spec fn shows_student(e: StudentInfoView, u: UserView) -> bool {
    &&& e.id == u.id
    &&& e.email == u.email
    &&& e.role == u.role
    &&& match u.firstname {
        Some(f) => e.firstname == f,
        None => e.firstname == Seq::<char>::empty(),
    }
    &&& match u.lastname {
        Some(l) => e.lastname == l,
        None => e.lastname == Seq::<char>::empty(),
    }
}

/// Every record of a grade query is a stored row of that student within the narrowing,
/// field by field: the same student id and email, subject, quarter, the written works
/// and performance tasks in the order they were stored, the same quarterly assessment,
/// final grade and time of creation.
pub proof fn law_listed_records_are_stored_rows(
    grades: Seq<GradeView>,
    email: Seq<char>,
    subject: Option<Seq<char>>,
    quarter: Option<Seq<char>>,
    records: Seq<GradeRecordView>,
)
    requires
        is_grade_listing(grades, email, subject, quarter, records),
    ensures
        exists|pos: Seq<int>|
            #![trigger pos.len()]
            pos.len() == records.len() && forall|k: int|
                0 <= k < records.len() ==> 0 <= #[trigger] pos[k] < grades.len() && grade_selected(
                    grades[pos[k]],
                    email,
                    subject,
                    quarter,
                ) && shows_row(records[k], grades[pos[k]]),
{
    let pos = choose|pos: Seq<usize>|
        #![trigger records_at(grades, pos)]
        is_listing(
            |p: int| grade_selected(grades[p], email, subject, quarter),
            |p: int| grade_order_key(grades[p]),
            grades.len() as int,
            pos,
        ) && records == records_at(grades, pos);
    let ip = pos.map_values(|p: usize| p as int);
    assert forall|k: int| 0 <= k < records.len() implies 0 <= #[trigger] ip[k] < grades.len() && grade_selected(
        grades[ip[k]],
        email,
        subject,
        quarter,
    ) && shows_row(records[k], grades[ip[k]]) by {
        assert(ip[k] == pos[k] as int);
        assert(grade_selected(grades[pos[k] as int], email, subject, quarter));
        assert(records[k] == crate::grades::record_of(grades[ip[k]]));
    }
    assert(ip.len() == records.len());
}

/// A successful save stores, as the last row, exactly what was entered: the student's
/// email, the subject and quarter, the scores in the order given, the time of the save
/// as both its creation and update time, and as student id the id of the user with
/// that email, who has the student role.
pub proof fn law_save_stores_what_was_entered(
    db: DbView,
    email: Seq<char>,
    subject: Seq<char>,
    quarter: Seq<char>,
    written_works: Seq<u64>,
    performance_tasks: Seq<u64>,
    quarterly_assessment: u64,
    final_grade: u64,
    now: Seq<char>,
)
    requires
        db_wf(db),
        save_grades_outcome(db, email, subject, quarter, written_works, performance_tasks, quarterly_assessment, final_grade, now).1 is Ok,
    ensures
        ({
            let after = save_grades_outcome(db, email, subject, quarter, written_works, performance_tasks, quarterly_assessment, final_grade, now).0;
            let row = after.grades.last();
            &&& after.grades.len() >= 1
            &&& row.student_email == email
            &&& row.subject == subject
            &&& row.quarter == quarter
            &&& row.written_works == written_works
            &&& row.performance_tasks == performance_tasks
            &&& row.quarterly_assessment == quarterly_assessment
            &&& row.final_grade == final_grade
            &&& row.created_at == now
            &&& row.updated_at == now
            &&& row.id == db.last_grade_id + 1
            &&& exists|i: int| 0 <= i < db.users.len() && #[trigger] db.users[i].email == email
            &&& forall|i: int|
                0 <= i < db.users.len() && #[trigger] db.users[i].email == email ==> db.users[i].role
                    == student_role() && row.student_id == db.users[i].id
        }),
{
    lemma_the_user_with_email(db.users, db.last_user_id, email);
}

/// After a save, the query for that student, subject and quarter returns one record,
/// holding what was entered: the scores in the order given, the time of the save, and
/// the id of the user with that email as student id.
pub proof fn law_saved_grades_read_back_as_entered(
    db: DbView,
    email: Seq<char>,
    subject: Seq<char>,
    quarter: Seq<char>,
    written_works: Seq<u64>,
    performance_tasks: Seq<u64>,
    quarterly_assessment: u64,
    final_grade: u64,
    now: Seq<char>,
    records: Seq<GradeRecordView>,
)
    requires
        db_wf(db),
        save_grades_outcome(db, email, subject, quarter, written_works, performance_tasks, quarterly_assessment, final_grade, now).1 is Ok,
        is_grade_listing(
            save_grades_outcome(db, email, subject, quarter, written_works, performance_tasks, quarterly_assessment, final_grade, now).0.grades,
            email,
            Some(subject),
            Some(quarter),
            records,
        ),
    ensures
        records.len() == 1,
        records[0].student_email == email,
        records[0].subject == subject,
        records[0].quarter == quarter,
        records[0].written_works == written_works,
        records[0].performance_tasks == performance_tasks,
        records[0].quarterly_assessment == quarterly_assessment,
        records[0].final_grade == final_grade,
        records[0].created_at == now,
        forall|i: int|
            0 <= i < db.users.len() && #[trigger] db.users[i].email == email ==> records[0].student_id
                == db.users[i].id,
{
    law_saved_grades_read_back(db, email, subject, quarter, written_works, performance_tasks, quarterly_assessment, final_grade, now, records);
    lemma_the_user_with_email(db.users, db.last_user_id, email);
}

/// With emails unique, the user found by email is the one at any position holding it.
proof fn lemma_the_user_with_email(users: Seq<UserView>, last_id: int, email: Seq<char>)
    requires
        users_wf(users, last_id),
    ensures
        forall|i: int|
            0 <= i < users.len() && #[trigger] users[i].email == email ==> user_position(users, email) == i
                && user_by_email(users, email) == Some(users[i]),
{
    assert forall|i: int| 0 <= i < users.len() && #[trigger] users[i].email == email implies user_position(users, email)
        == i && user_by_email(users, email) == Some(users[i]) by {
        assert(has_user(users, email));
        let q = user_position(users, email);
        if q != i {
            assert(users[q].email != users[i].email);
        }
    }
}

/// Each entry of the student list is a stored user with the student role, shown with
/// its own id, email and role, and its own first and last name (a `NULL` name as the
/// empty text).
pub proof fn law_student_list_shows_stored_names(users: Seq<UserView>, list: Seq<StudentInfoView>)
    requires
        is_student_list(users, list),
    ensures
        exists|pos: Seq<int>|
            #![trigger pos.len()]
            pos.len() == list.len() && forall|k: int|
                0 <= k < list.len() ==> 0 <= #[trigger] pos[k] < users.len() && users[pos[k]].role
                    == student_role() && shows_student(list[k], users[pos[k]]),
{
    let pos = choose|pos: Seq<usize>|
        #![trigger students_at(users, pos)]
        is_listing(
            |p: int| users[p].role == student_role(),
            |p: int| name_key(users[p]),
            users.len() as int,
            pos,
        ) && list == students_at(users, pos);
    let ip = pos.map_values(|p: usize| p as int);
    assert forall|k: int| 0 <= k < list.len() implies 0 <= #[trigger] ip[k] < users.len() && users[ip[k]].role
        == student_role() && shows_student(list[k], users[ip[k]]) by {
        assert(ip[k] == pos[k] as int);
        assert(users[pos[k] as int].role == student_role());
        assert(list[k] == crate::accounts::student_info_of(users[ip[k]]));
    }
    assert(ip.len() == list.len());
}

/// A successful log-in returns the stored user of that email with every field as
/// stored (id, email, role, first and last name) but the password, which is empty.
pub proof fn law_login_returns_the_stored_user(db: DbView, email: Seq<char>, password: Seq<char>, role: Seq<char>)
    requires
        db_wf(db),
        login_outcome(db, email, password, role).success,
    ensures
        exists|i: int| 0 <= i < db.users.len() && #[trigger] db.users[i].email == email,
        forall|i: int|
            0 <= i < db.users.len() && #[trigger] db.users[i].email == email ==> {
                let u = login_outcome(db, email, password, role).user;
                &&& db.users[i].role == role
                &&& u is Some
                &&& u->Some_0.id == Some(db.users[i].id)
                &&& u->Some_0.email == db.users[i].email
                &&& u->Some_0.role == db.users[i].role
                &&& u->Some_0.firstname == db.users[i].firstname
                &&& u->Some_0.lastname == db.users[i].lastname
                &&& u->Some_0.password == Seq::<char>::empty()
            },
{
    lemma_the_user_with_email(db.users, db.last_user_id, email);
    assert(has_user(db.users, email));
    let q = user_position(db.users, email);
    assert(db.users[q].email == email);
}

/// The profile query answers for every stored user, whatever the role, with that
/// user's email, names and role; for an email nobody has, it answers "User not found".
pub proof fn law_profile_of_any_user(db: DbView, email: Seq<char>)
    requires
        db_wf(db),
    ensures
        !has_user(db.users, email) ==> profile_outcome(db, email) == Err::<crate::accounts::UserProfileView, Seq<char>>(
            "User not found"@,
        ),
        forall|i: int|
            0 <= i < db.users.len() && #[trigger] db.users[i].email == email ==> {
                let r = profile_outcome(db, email);
                &&& r is Ok
                &&& r->Ok_0.email == db.users[i].email
                &&& r->Ok_0.firstname == db.users[i].firstname
                &&& r->Ok_0.lastname == db.users[i].lastname
                &&& r->Ok_0.role == db.users[i].role
            },
{
    lemma_the_user_with_email(db.users, db.last_user_id, email);
}

/// A successful sign-up keeps every stored user and adds one at the end, holding what
/// was entered: the email, the hash, the role, the names (a missing name as the empty
/// text), and the next user id.
pub proof fn law_signup_stores_what_was_entered(
    db: DbView,
    email: Seq<char>,
    role: Seq<char>,
    firstname: Option<Seq<char>>,
    lastname: Option<Seq<char>>,
    hashed: Option<Seq<char>>,
)
    requires
        register_outcome(db, email, role, firstname, lastname, hashed).1 is Ok,
    ensures
        ({
            let after = register_outcome(db, email, role, firstname, lastname, hashed).0;
            let u = after.users.last();
            &&& after.users.len() == db.users.len() + 1
            &&& after.users.take(db.users.len() as int) == db.users
            &&& after.grades == db.grades
            &&& !has_user(db.users, email)
            &&& u.id == db.last_user_id + 1
            &&& after.last_user_id == u.id
            &&& u.email == email
            &&& hashed == Some(u.password)
            &&& u.role == role
            &&& u.firstname == Some(
                match firstname {
                    Some(f) => f,
                    None => Seq::<char>::empty(),
                },
            )
            &&& u.lastname == Some(
                match lastname {
                    Some(l) => l,
                    None => Seq::<char>::empty(),
                },
            )
        }),
{
    let after = register_outcome(db, email, role, firstname, lastname, hashed).0;
    assert(after.users.take(db.users.len() as int) =~= db.users);
}

/// A successful password change or reset gives the user of that email the new hash and
/// leaves everything else as it was: that user's other fields, every other user, the
/// grades and the counters.
pub proof fn law_password_update_changes_only_the_hash(
    db: DbView,
    email: Seq<char>,
    check: Option<bool>,
    hashed: Option<Seq<char>>,
)
    requires
        db_wf(db),
    ensures
        forall|after: DbView|
            (after == change_password_outcome(db, email, check, hashed).0 && change_password_outcome(
                db,
                email,
                check,
                hashed,
            ).1 is Ok) || (after == reset_password_outcome(db, email, hashed).0 && reset_password_outcome(
                db,
                email,
                hashed,
            ).1 is Ok) ==> {
                &&& after.grades == db.grades
                &&& after.last_user_id == db.last_user_id
                &&& after.last_grade_id == db.last_grade_id
                &&& after.users.len() == db.users.len()
                &&& forall|i: int|
                    0 <= i < db.users.len() ==> if #[trigger] db.users[i].email == email {
                        &&& hashed == Some(after.users[i].password)
                        &&& after.users[i].id == db.users[i].id
                        &&& after.users[i].email == db.users[i].email
                        &&& after.users[i].role == db.users[i].role
                        &&& after.users[i].firstname == db.users[i].firstname
                        &&& after.users[i].lastname == db.users[i].lastname
                    } else {
                        after.users[i] == db.users[i]
                    }
            },
{
    lemma_the_user_with_email(db.users, db.last_user_id, email);
}

} // verus!
