//! Properties that span several commands of the library, proved over their outcomes.

use vstd::prelude::*;
use crate::model::{
    DbView, GradeView, db_wf, has_user, user_by_email, user_by_email_role, user_position,
    same_grade_key, student_role,
};
use crate::accounts::{
    StudentInfoView, is_student_list, students_at, name_key,
    LoginResponseView, login_outcome, public_user, new_user, register_outcome, change_password_outcome,
    reset_password_outcome, with_password,
};
use crate::grades::{
    GradeRecordView, save_grades_outcome, is_grade_listing, is_delete_result, record_of, new_grade,
    without_grade_key, has_grade_key, grade_key_position, grade_selected, records_at, rows_at,
    grade_order_key, is_subject_list, in_list, subject_of_student,
};
use crate::crypto::hash_made_from;
use crate::text::{text_lt, lemma_text_lt_total, lemma_text_lt_transitive, lemma_text_lt_irreflexive};
use crate::sorting::{lemma_sublisting, lemma_listing_of_prefix, lemma_listed_before_strict, picks, unordered_key, is_listing, lists, listed_before, lemma_key_lt_total, lemma_listing_len, selected_rows};

verus! {

/// Signing up and then logging in with the same email, role and password succeeds, and
/// the reply carries the new user without its password hash.
pub proof fn law_login_after_register(
    db: DbView,
    email: Seq<char>,
    password: Seq<char>,
    role: Seq<char>,
    firstname: Option<Seq<char>>,
    lastname: Option<Seq<char>>,
    hash: Seq<char>,
)
    requires
        hash_made_from(password, Some(hash)),
        register_outcome(db, email, role, firstname, lastname, Some(hash)).1 is Ok,
    ensures
        login_outcome(register_outcome(db, email, role, firstname, lastname, Some(hash)).0, email, password, role)
            == (LoginResponseView {
            success: true,
            message: "Login successful"@,
            user: Some(public_user(new_user(db.last_user_id + 1, email, hash, role, firstname, lastname))),
        }),
{
    let after = register_outcome(db, email, role, firstname, lastname, Some(hash)).0;
    let nu = new_user(db.last_user_id + 1, email, hash, role, firstname, lastname);
    let last = db.users.len() as int;
    assert(after.users[last] == nu);
    assert(has_user(after.users, email));
    let p = user_position(after.users, email);
    if p != last {
        assert(after.users[p] == db.users[p]);
        assert(has_user(db.users, email));
    }
    assert(user_by_email(after.users, email) == Some(nu));
}

/// No row of `without_grade_key` has that key, when the table kept its constraints.
pub(crate) proof fn lemma_without_grade_key(grades: Seq<GradeView>, last_id: int, email: Seq<char>, subject: Seq<char>, quarter: Seq<char>)
    requires
        crate::model::grades_wf(grades, last_id),
    ensures
        !has_grade_key(without_grade_key(grades, email, subject, quarter), email, subject, quarter),
{
    let w = without_grade_key(grades, email, subject, quarter);
    if has_grade_key(w, email, subject, quarter) {
        let j = choose|j: int|
            0 <= j < w.len() && #[trigger] w[j].student_email == email && w[j].subject == subject
                && w[j].quarter == quarter;
        if has_grade_key(grades, email, subject, quarter) {
            let k = grade_key_position(grades, email, subject, quarter);
            let oj = if j < k { j } else { j + 1 };
            assert(w[j] == grades[oj]);
            assert(grades[k].student_email == email);
            assert(!same_grade_key(grades[oj], grades[k]));
        } else {
            assert(w[j] == grades[j]);
            assert(grades[j].student_email == email);
        }
    }
}

/// After grades are saved, the query for that student, subject and quarter returns
/// exactly the saved grades, once: saving replaces what was there.
pub proof fn law_saved_grades_read_back(
    db: DbView,
    email: Seq<char>,
    subject: Seq<char>,
    quarter: Seq<char>,
    written_works: Seq<u64>,
    performance_tasks: Seq<u64>,
    quarterly_assessment: u64,
    final_grade: u64,
    now: Seq<char>,
    records: Seq<GradeRecordView>,
)
    requires
        db_wf(db),
        save_grades_outcome(db, email, subject, quarter, written_works, performance_tasks, quarterly_assessment, final_grade, now).1 is Ok,
        is_grade_listing(
            save_grades_outcome(db, email, subject, quarter, written_works, performance_tasks, quarterly_assessment, final_grade, now).0.grades,
            email,
            Some(subject),
            Some(quarter),
            records,
        ),
    ensures
        records == seq![
            record_of(
                new_grade(
                    db.last_grade_id + 1,
                    user_by_email_role(db.users, email, student_role())->Some_0.id,
                    email,
                    subject,
                    quarter,
                    written_works,
                    performance_tasks,
                    quarterly_assessment,
                    final_grade,
                    now,
                ),
            ),
        ],
{
    let after = save_grades_outcome(db, email, subject, quarter, written_works, performance_tasks, quarterly_assessment, final_grade, now).0;
    let u = user_by_email_role(db.users, email, student_role())->Some_0;
    let ng = new_grade(db.last_grade_id + 1, u.id, email, subject, quarter, written_works, performance_tasks, quarterly_assessment, final_grade, now);
    let w = without_grade_key(db.grades, email, subject, quarter);
    lemma_without_grade_key(db.grades, db.last_grade_id, email, subject, quarter);
    let g = after.grades;
    assert(g == w.push(ng));
    let last = w.len() as int;
    let pos = choose|pos: Seq<usize>|
        #![trigger records_at(g, pos)]
        is_listing(
            |p: int| grade_selected(g[p], email, Some(subject), Some(quarter)),
            |p: int| grade_order_key(g[p]),
            g.len() as int,
            pos,
        ) && records == records_at(g, pos);
    let selected = |p: int| grade_selected(g[p], email, Some(subject), Some(quarter));
    let key = |p: int| grade_order_key(g[p]);
    assert forall|k: int| 0 <= k < pos.len() implies #[trigger] pos[k] == last by {
        assert(selected(pos[k] as int));
        if pos[k] < last {
            assert(g[pos[k] as int] == w[pos[k] as int]);
        }
    }
    assert(selected(last));
    assert(lists(pos, last));
    if pos.len() >= 2 {
        assert(listed_before(key, pos[0] as int, pos[1] as int));
        lemma_key_lt_total(key(last), key(last));
    }
    assert(records =~= seq![record_of(ng)]);
}

/// After grades are deleted, the query with the same student and the same narrowing
/// finds none.
pub proof fn law_nothing_left_after_delete(
    grades: Seq<GradeView>,
    email: Seq<char>,
    subject: Option<Seq<char>>,
    quarter: Option<Seq<char>>,
    remaining: Seq<GradeView>,
    records: Seq<GradeRecordView>,
)
    requires
        is_delete_result(grades, email, subject, quarter, remaining),
        is_grade_listing(remaining, email, subject, quarter, records),
    ensures
        records.len() == 0,
{
    let kept = choose|pos: Seq<usize>|
        #![trigger rows_at(grades, pos)]
        is_listing(
            |p: int| !grade_selected(grades[p], email, subject, quarter),
            |p: int| unordered_key(),
            grades.len() as int,
            pos,
        ) && remaining == rows_at(grades, pos);
    let pos = choose|pos: Seq<usize>|
        #![trigger records_at(remaining, pos)]
        is_listing(
            |p: int| grade_selected(remaining[p], email, subject, quarter),
            |p: int| grade_order_key(remaining[p]),
            remaining.len() as int,
            pos,
        ) && records == records_at(remaining, pos);
    if pos.len() > 0 {
        let p = pos[0] as int;
        assert(grade_selected(remaining[p], email, subject, quarter));
        assert(remaining[p] == grades[kept[p] as int]);
        assert(!grade_selected(grades[kept[p] as int], email, subject, quarter));
    }
}

/// After a password change, logging in with the new password (and the user's role)
/// succeeds and returns the same user as before the change.
pub proof fn law_login_after_password_change(
    db: DbView,
    email: Seq<char>,
    check: Option<bool>,
    new_password: Seq<char>,
    hash: Seq<char>,
)
    requires
        db_wf(db),
        hash_made_from(new_password, Some(hash)),
        change_password_outcome(db, email, check, Some(hash)).1 is Ok,
    ensures
        login_outcome(
            change_password_outcome(db, email, check, Some(hash)).0,
            email,
            new_password,
            user_by_email(db.users, email)->Some_0.role,
        ) == (LoginResponseView {
            success: true,
            message: "Login successful"@,
            user: Some(public_user(user_by_email(db.users, email)->Some_0)),
        }),
{
    lemma_login_after_new_password(db, email, new_password, hash);
}

/// After a password reset, logging in with the new password (and the user's role)
/// succeeds and returns the same user as before the reset.
pub proof fn law_login_after_password_reset(db: DbView, email: Seq<char>, new_password: Seq<char>, hash: Seq<char>)
    requires
        db_wf(db),
        hash_made_from(new_password, Some(hash)),
        reset_password_outcome(db, email, Some(hash)).1 is Ok,
    ensures
        login_outcome(
            reset_password_outcome(db, email, Some(hash)).0,
            email,
            new_password,
            user_by_email(db.users, email)->Some_0.role,
        ) == (LoginResponseView {
            success: true,
            message: "Login successful"@,
            user: Some(public_user(user_by_email(db.users, email)->Some_0)),
        }),
{
    lemma_login_after_new_password(db, email, new_password, hash);
}

proof fn lemma_login_after_new_password(db: DbView, email: Seq<char>, new_password: Seq<char>, hash: Seq<char>)
    requires
        db_wf(db),
        has_user(db.users, email),
        hash_made_from(new_password, Some(hash)),
    ensures
        login_outcome(
            with_password(db, user_position(db.users, email), hash),
            email,
            new_password,
            user_by_email(db.users, email)->Some_0.role,
        ) == (LoginResponseView {
            success: true,
            message: "Login successful"@,
            user: Some(public_user(user_by_email(db.users, email)->Some_0)),
        }),
{
    let p = user_position(db.users, email);
    let after = with_password(db, p, hash);
    assert(after.users[p].email == email);
    assert(has_user(after.users, email));
    let q = user_position(after.users, email);
    if q != p {
        assert(after.users[q] == db.users[q]);
        assert(db.users[q].email != db.users[p].email);
    }
    assert(user_by_email(after.users, email) == Some(after.users[p]));
    assert(public_user(after.users[p]) == public_user(db.users[p]));
}

/// The log-in reply depends on the users table alone: commands that leave it as it was
/// (saving or deleting grades) leave every log-in as it was.
pub proof fn law_login_reads_only_users(
    db1: DbView,
    db2: DbView,
    email: Seq<char>,
    password: Seq<char>,
    role: Seq<char>,
)
    requires
        db1.users == db2.users,
    ensures
        login_outcome(db1, email, password, role) == login_outcome(db2, email, password, role),
{
}

/// Saving grades leaves the users table, and so every log-in, as it was.
pub proof fn law_saving_grades_keeps_logins(
    db: DbView,
    email: Seq<char>,
    subject: Seq<char>,
    quarter: Seq<char>,
    written_works: Seq<u64>,
    performance_tasks: Seq<u64>,
    quarterly_assessment: u64,
    final_grade: u64,
    now: Seq<char>,
    login_email: Seq<char>,
    password: Seq<char>,
    role: Seq<char>,
)
    ensures
        save_grades_outcome(db, email, subject, quarter, written_works, performance_tasks, quarterly_assessment, final_grade, now).0.users
            == db.users,
        login_outcome(
            save_grades_outcome(db, email, subject, quarter, written_works, performance_tasks, quarterly_assessment, final_grade, now).0,
            login_email,
            password,
            role,
        ) == login_outcome(db, login_email, password, role),
{
}

/// Signing up another email leaves the user with this email, and so its log-in, as it was.
pub proof fn law_other_signup_keeps_login(
    db: DbView,
    other_email: Seq<char>,
    other_role: Seq<char>,
    firstname: Option<Seq<char>>,
    lastname: Option<Seq<char>>,
    hashed: Option<Seq<char>>,
    email: Seq<char>,
    password: Seq<char>,
    role: Seq<char>,
)
    requires
        db_wf(db),
        other_email != email,
    ensures
        user_by_email(register_outcome(db, other_email, other_role, firstname, lastname, hashed).0.users, email)
            == user_by_email(db.users, email),
        login_outcome(register_outcome(db, other_email, other_role, firstname, lastname, hashed).0, email, password, role)
            == login_outcome(db, email, password, role),
{
    let after = register_outcome(db, other_email, other_role, firstname, lastname, hashed).0;
    if after.users != db.users {
        let n = db.users.len() as int;
        assert(after.users[n].email == other_email);
        if has_user(after.users, email) {
            let p = user_position(after.users, email);
            assert(p != n);
            assert(after.users[p] == db.users[p]);
            assert(has_user(db.users, email));
            let q = user_position(db.users, email);
            if p != q {
                assert(db.users[p].email != db.users[q].email);
            }
        } else {
            if has_user(db.users, email) {
                let q = user_position(db.users, email);
                assert(after.users[q] == db.users[q]);
            }
        }
    }
}

pub(crate) proof fn lemma_other_password_keeps_user(db: DbView, other_email: Seq<char>, hash: Seq<char>, email: Seq<char>)
    requires
        db_wf(db),
        has_user(db.users, other_email),
        other_email != email,
    ensures
        user_by_email(with_password(db, user_position(db.users, other_email), hash).users, email)
            == user_by_email(db.users, email),
{
    let f = user_position(db.users, other_email);
    let after = with_password(db, f, hash);
    assert forall|i: int| 0 <= i < after.users.len() implies #[trigger] after.users[i].email == db.users[i].email by {}
    if has_user(db.users, email) {
        let q = user_position(db.users, email);
        assert(after.users[q].email == email);
        assert(has_user(after.users, email));
        let p = user_position(after.users, email);
        if p != q {
            assert(db.users[p].email != db.users[q].email);
        }
        assert(q != f);
        assert(after.users[q] == db.users[q]);
    } else {
        if has_user(after.users, email) {
            let p = user_position(after.users, email);
            assert(db.users[p].email == email);
        }
    }
}

/// Changing or resetting the password of another email leaves the user with this email,
/// and so its log-in, as it was.
pub proof fn law_other_password_change_keeps_login(
    db: DbView,
    other_email: Seq<char>,
    check: Option<bool>,
    hashed: Option<Seq<char>>,
    email: Seq<char>,
    password: Seq<char>,
    role: Seq<char>,
)
    requires
        db_wf(db),
        other_email != email,
    ensures
        login_outcome(change_password_outcome(db, other_email, check, hashed).0, email, password, role)
            == login_outcome(db, email, password, role),
        login_outcome(reset_password_outcome(db, other_email, hashed).0, email, password, role)
            == login_outcome(db, email, password, role),
{
    if has_user(db.users, other_email) {
        if let Some(h) = hashed {
            lemma_other_password_keeps_user(db, other_email, h, email);
        }
    }
}

/// A user with this email has the student role exactly when the student list shows an
/// entry with this email.
pub proof fn law_access_matches_student_list(db: DbView, list: Seq<StudentInfoView>, email: Seq<char>)
    requires
        db_wf(db),
        is_student_list(db.users, list),
    ensures
        (user_by_email_role(db.users, email, student_role()) is Some) <==> exists|k: int|
            0 <= k < list.len() && #[trigger] list[k].email == email,
{
    let users = db.users;
    let pos = choose|pos: Seq<usize>|
        #![trigger students_at(users, pos)]
        is_listing(
            |p: int| users[p].role == student_role(),
            |p: int| name_key(users[p]),
            users.len() as int,
            pos,
        ) && list == students_at(users, pos);
    if user_by_email_role(users, email, student_role()) is Some {
        let q = user_position(users, email);
        assert(users[q].role == student_role());
        assert(lists(pos, q));
        let k = choose|k: int| 0 <= k < pos.len() && pos[k] == q;
        assert(list[k].email == email);
    }
    if exists|k: int| 0 <= k < list.len() && #[trigger] list[k].email == email {
        let k = choose|k: int| 0 <= k < list.len() && #[trigger] list[k].email == email;
        let p = pos[k] as int;
        assert(users[p].role == student_role());
        assert(users[p].email == email);
        assert(has_user(users, email));
        let q = user_position(users, email);
        if q != p {
            assert(users[q].email != users[p].email);
        }
    }
}

/// A successful log-in never hands out the stored password hash.
pub proof fn law_login_hides_password(db: DbView, email: Seq<char>, password: Seq<char>, role: Seq<char>)
    ensures
        login_outcome(db, email, password, role).user matches Some(u) ==> u.password.len() == 0,
{
}

/// Saving grades is refused as "Student not found" exactly when the student-access check
/// says no.
pub proof fn law_student_access_decides_saving(
    db: DbView,
    email: Seq<char>,
    subject: Seq<char>,
    quarter: Seq<char>,
    written_works: Seq<u64>,
    performance_tasks: Seq<u64>,
    quarterly_assessment: u64,
    final_grade: u64,
    now: Seq<char>,
)
    ensures
        (save_grades_outcome(db, email, subject, quarter, written_works, performance_tasks, quarterly_assessment, final_grade, now).1
            == Err::<Seq<char>, Seq<char>>("Student not found"@)) <==> user_by_email_role(db.users, email, student_role()) is None,
{
    reveal_strlit("Student not found");
    reveal_strlit("Failed to save grades: database or disk is full");
    assert("Student not found"@.len() != "Failed to save grades: database or disk is full"@.len());
}

/// A refused command leaves the store as it was.
pub proof fn law_refused_commands_change_nothing(
    db: DbView,
    email: Seq<char>,
    subject: Seq<char>,
    quarter: Seq<char>,
    written_works: Seq<u64>,
    performance_tasks: Seq<u64>,
    quarterly_assessment: u64,
    final_grade: u64,
    now: Seq<char>,
    role: Seq<char>,
    firstname: Option<Seq<char>>,
    lastname: Option<Seq<char>>,
    check: Option<bool>,
    hashed: Option<Seq<char>>,
)
    ensures
        save_grades_outcome(db, email, subject, quarter, written_works, performance_tasks, quarterly_assessment, final_grade, now).1 is Err
            ==> save_grades_outcome(db, email, subject, quarter, written_works, performance_tasks, quarterly_assessment, final_grade, now).0 == db,
        register_outcome(db, email, role, firstname, lastname, hashed).1 is Err
            ==> register_outcome(db, email, role, firstname, lastname, hashed).0 == db,
        change_password_outcome(db, email, check, hashed).1 is Err
            ==> change_password_outcome(db, email, check, hashed).0 == db,
        reset_password_outcome(db, email, hashed).1 is Err ==> reset_password_outcome(db, email, hashed).0 == db,
{
}

/// A deletion removes as many rows as the grade query with the same student and the same
/// narrowing listed just before it.
pub proof fn law_delete_count_matches_listing(
    grades: Seq<GradeView>,
    email: Seq<char>,
    subject: Option<Seq<char>>,
    quarter: Option<Seq<char>>,
    remaining: Seq<GradeView>,
    records: Seq<GradeRecordView>,
)
    requires
        is_delete_result(grades, email, subject, quarter, remaining),
        is_grade_listing(grades, email, subject, quarter, records),
    ensures
        grades.len() - remaining.len() == records.len(),
{
    let n = grades.len() as int;
    let sel = |p: int| grade_selected(grades[p], email, subject, quarter);
    let unsel = |p: int| !grade_selected(grades[p], email, subject, quarter);
    let kept = choose|pos: Seq<usize>|
        #![trigger rows_at(grades, pos)]
        is_listing(unsel, |p: int| unordered_key(), n, pos) && remaining == rows_at(grades, pos);
    let pos = choose|pos: Seq<usize>|
        #![trigger records_at(grades, pos)]
        is_listing(sel, |p: int| grade_order_key(grades[p]), n, pos) && records == records_at(grades, pos);
    lemma_listing_len(unsel, |p: int| unordered_key(), n, kept);
    lemma_listing_len(sel, |p: int| grade_order_key(grades[p]), n, pos);
    let s1 = selected_rows(sel, n);
    let s2 = selected_rows(unsel, n);
    assert(s1.disjoint(s2));
    vstd::set_lib::lemma_set_disjoint_lens(s1, s2);
    vstd::set_lib::lemma_int_range(0, n);
    assert(s1 + s2 =~= vstd::set_lib::set_int_range(0, n));
}

/// The subjects of a student are exactly the subjects of the grades that the grade query
/// lists for that student with no narrowing.
pub proof fn law_subjects_match_listed_grades(
    grades: Seq<GradeView>,
    email: Seq<char>,
    subjects: Seq<Seq<char>>,
    records: Seq<GradeRecordView>,
)
    requires
        is_subject_list(grades, email, subjects),
        is_grade_listing(grades, email, None, None, records),
    ensures
        forall|x: Seq<char>|
            #[trigger] in_list(subjects, x) <==> exists|k: int| 0 <= k < records.len() && #[trigger] records[k].subject == x,
{
    let n = grades.len() as int;
    let pos = choose|pos: Seq<usize>|
        #![trigger records_at(grades, pos)]
        is_listing(
            |p: int| grade_selected(grades[p], email, None, None),
            |p: int| grade_order_key(grades[p]),
            n,
            pos,
        ) && records == records_at(grades, pos);
    assert forall|x: Seq<char>|
        #[trigger] in_list(subjects, x) <==> exists|k: int| 0 <= k < records.len() && #[trigger] records[k].subject == x by {
        if in_list(subjects, x) {
            assert(subject_of_student(grades, email, x));
            let j = choose|j: int| 0 <= j < grades.len() && grades[j].student_email == email && #[trigger] grades[j].subject == x;
            assert(grade_selected(grades[j], email, None, None));
            assert(lists(pos, j));
            let k = choose|k: int| 0 <= k < pos.len() && pos[k] == j;
            assert(records[k].subject == x);
        }
        if exists|k: int| 0 <= k < records.len() && #[trigger] records[k].subject == x {
            let k = choose|k: int| 0 <= k < records.len() && #[trigger] records[k].subject == x;
            let j = pos[k] as int;
            assert(grade_selected(grades[j], email, None, None));
            assert(grades[j].subject == x);
            assert(subject_of_student(grades, email, x));
        }
    }
}

/// The records of `v1` at the indices `idx`, in that order.
pub open spec fn picked_records(v1: Seq<GradeRecordView>, idx: Seq<usize>) -> Seq<GradeRecordView> {
    idx.map_values(|k: usize| v1[k as int])
}

/// `v2` keeps, in their order, exactly the records of `v1` that `keep` admits.
pub open spec fn is_narrowing(
    v1: Seq<GradeRecordView>,
    keep: spec_fn(GradeRecordView) -> bool,
    v2: Seq<GradeRecordView>,
) -> bool {
    exists|idx: Seq<usize>|
        #![trigger picked_records(v1, idx)]
        is_listing(|k: int| keep(v1[k]), |k: int| unordered_key(), v1.len() as int, idx) && v2
            == picked_records(v1, idx)
}

proof fn lemma_narrowing(
    grades: Seq<GradeView>,
    email: Seq<char>,
    subject1: Option<Seq<char>>,
    quarter1: Option<Seq<char>>,
    subject2: Option<Seq<char>>,
    quarter2: Option<Seq<char>>,
    keep: spec_fn(GradeRecordView) -> bool,
    v1: Seq<GradeRecordView>,
    v2: Seq<GradeRecordView>,
)
    requires
        is_grade_listing(grades, email, subject1, quarter1, v1),
        is_grade_listing(grades, email, subject2, quarter2, v2),
        forall|p: int|
            0 <= p < grades.len() ==> (#[trigger] grade_selected(grades[p], email, subject2, quarter2)
                <==> grade_selected(grades[p], email, subject1, quarter1) && keep(record_of(grades[p]))),
    ensures
        is_narrowing(v1, keep, v2),
{
    let n = grades.len() as int;
    let sel1 = |p: int| grade_selected(grades[p], email, subject1, quarter1);
    let sel2 = |p: int| grade_selected(grades[p], email, subject2, quarter2);
    let key = |p: int| grade_order_key(grades[p]);
    let pos1 = choose|pos: Seq<usize>|
        #![trigger records_at(grades, pos)]
        is_listing(sel1, key, n, pos) && v1 == records_at(grades, pos);
    let pos2 = choose|pos: Seq<usize>|
        #![trigger records_at(grades, pos)]
        is_listing(sel2, key, n, pos) && v2 == records_at(grades, pos);
    assert forall|p: int| 0 <= p < n && #[trigger] sel2(p) implies sel1(p) by {
        assert(grade_selected(grades[p], email, subject2, quarter2));
    }
    let idx = lemma_sublisting(sel1, sel2, key, n, pos1, pos2);
    let usel = |k: int| sel2(pos1[k] as int);
    let ksel = |k: int| keep(v1[k]);
    let ukey = |k: int| unordered_key();
    assert forall|k: int| 0 <= k < pos1.len() implies #[trigger] usel(k) == ksel(k) by {
        let p = pos1[k] as int;
        assert(sel1(p));
        assert(v1[k] == record_of(grades[p]));
        assert(grade_selected(grades[p], email, subject2, quarter2) <==> grade_selected(grades[p], email, subject1, quarter1)
            && keep(record_of(grades[p])));
    }
    assert forall|k: int| 0 <= k < idx.len() implies 0 <= #[trigger] idx[k] < v1.len() && ksel(idx[k] as int) by {
        assert(usel(idx[k] as int));
    }
    assert forall|k: int| 0 <= k < v1.len() && ksel(k) implies #[trigger] lists(idx, k) by {
        assert(usel(k));
    }
    assert forall|a: int, b: int| 0 <= a < b < idx.len() implies listed_before(ukey, #[trigger] idx[a] as int, #[trigger] idx[b] as int) by {}
    assert(is_listing(ksel, ukey, v1.len() as int, idx));
    assert(v2 =~= picked_records(v1, idx));
}

/// Narrowing a grade query to one subject keeps, in order, exactly the records of the
/// wider query that have that subject.
pub proof fn law_narrowing_to_a_subject(
    grades: Seq<GradeView>,
    email: Seq<char>,
    quarter: Option<Seq<char>>,
    subject: Seq<char>,
    v1: Seq<GradeRecordView>,
    v2: Seq<GradeRecordView>,
)
    requires
        is_grade_listing(grades, email, None, quarter, v1),
        is_grade_listing(grades, email, Some(subject), quarter, v2),
    ensures
        is_narrowing(v1, |r: GradeRecordView| r.subject == subject, v2),
{
    lemma_narrowing(grades, email, None, quarter, Some(subject), quarter, |r: GradeRecordView| r.subject == subject, v1, v2);
}

/// Narrowing a grade query to one quarter keeps, in order, exactly the records of the
/// wider query that have that quarter.
pub proof fn law_narrowing_to_a_quarter(
    grades: Seq<GradeView>,
    email: Seq<char>,
    subject: Option<Seq<char>>,
    quarter: Seq<char>,
    v1: Seq<GradeRecordView>,
    v2: Seq<GradeRecordView>,
)
    requires
        is_grade_listing(grades, email, subject, None, v1),
        is_grade_listing(grades, email, subject, Some(quarter), v2),
    ensures
        is_narrowing(v1, |r: GradeRecordView| r.quarter == quarter, v2),
{
    lemma_narrowing(grades, email, subject, None, subject, Some(quarter), |r: GradeRecordView| r.quarter == quarter, v1, v2);
}

/// No stored row matches the student and the narrowing.
pub open spec fn no_grade_matches(
    grades: Seq<GradeView>,
    email: Seq<char>,
    subject: Option<Seq<char>>,
    quarter: Option<Seq<char>>,
) -> bool {
    forall|p: int| 0 <= p < grades.len() ==> !grade_selected(#[trigger] grades[p], email, subject, quarter)
}

/// After a delete, no row matches the student and the narrowing of that delete.
pub proof fn law_delete_leaves_no_match(
    grades: Seq<GradeView>,
    email: Seq<char>,
    subject: Option<Seq<char>>,
    quarter: Option<Seq<char>>,
    remaining: Seq<GradeView>,
)
    requires
        is_delete_result(grades, email, subject, quarter, remaining),
    ensures
        no_grade_matches(remaining, email, subject, quarter),
{
    let kept = choose|pos: Seq<usize>|
        #![trigger rows_at(grades, pos)]
        is_listing(
            |p: int| !grade_selected(grades[p], email, subject, quarter),
            |p: int| unordered_key(),
            grades.len() as int,
            pos,
        ) && remaining == rows_at(grades, pos);
    assert forall|p: int| 0 <= p < remaining.len() implies !grade_selected(#[trigger] remaining[p], email, subject, quarter) by {
        assert(remaining[p] == grades[kept[p] as int]);
    }
}

/// A delete leaves no match where there was none.
pub proof fn law_no_match_survives_deletes(
    grades: Seq<GradeView>,
    email: Seq<char>,
    subject: Option<Seq<char>>,
    quarter: Option<Seq<char>>,
    del_email: Seq<char>,
    del_subject: Option<Seq<char>>,
    del_quarter: Option<Seq<char>>,
    remaining: Seq<GradeView>,
)
    requires
        no_grade_matches(grades, email, subject, quarter),
        is_delete_result(grades, del_email, del_subject, del_quarter, remaining),
    ensures
        no_grade_matches(remaining, email, subject, quarter),
{
    let kept = choose|pos: Seq<usize>|
        #![trigger rows_at(grades, pos)]
        is_listing(
            |p: int| !grade_selected(grades[p], del_email, del_subject, del_quarter),
            |p: int| unordered_key(),
            grades.len() as int,
            pos,
        ) && remaining == rows_at(grades, pos);
    assert forall|p: int| 0 <= p < remaining.len() implies !grade_selected(#[trigger] remaining[p], email, subject, quarter) by {
        assert(remaining[p] == grades[kept[p] as int]);
    }
}

/// Saving grades of another student leaves no match where there was none.
pub proof fn law_no_match_survives_other_saves(
    db: DbView,
    email: Seq<char>,
    subject: Option<Seq<char>>,
    quarter: Option<Seq<char>>,
    other_email: Seq<char>,
    other_subject: Seq<char>,
    other_quarter: Seq<char>,
    written_works: Seq<u64>,
    performance_tasks: Seq<u64>,
    quarterly_assessment: u64,
    final_grade: u64,
    now: Seq<char>,
)
    requires
        other_email != email,
        no_grade_matches(db.grades, email, subject, quarter),
    ensures
        no_grade_matches(
            save_grades_outcome(db, other_email, other_subject, other_quarter, written_works, performance_tasks, quarterly_assessment, final_grade, now).0.grades,
            email,
            subject,
            quarter,
        ),
{
    let after = save_grades_outcome(db, other_email, other_subject, other_quarter, written_works, performance_tasks, quarterly_assessment, final_grade, now).0;
    let w = without_grade_key(db.grades, other_email, other_subject, other_quarter);
    assert forall|p: int| 0 <= p < w.len() implies !grade_selected(#[trigger] w[p], email, subject, quarter) by {
        if has_grade_key(db.grades, other_email, other_subject, other_quarter) {
            let k = grade_key_position(db.grades, other_email, other_subject, other_quarter);
            if p < k {
                assert(w[p] == db.grades[p]);
            } else {
                assert(w[p] == db.grades[p + 1]);
            }
        } else {
            assert(w[p] == db.grades[p]);
        }
    }
    assert forall|p: int| 0 <= p < after.grades.len() implies !grade_selected(#[trigger] after.grades[p], email, subject, quarter) by {
        if after.grades != db.grades && p < w.len() {
            assert(after.grades[p] == w[p]);
        }
    }
}

/// Sign-ups, password changes and resets leave the grades as they were.
pub proof fn law_account_commands_keep_grades(
    db: DbView,
    email: Seq<char>,
    role: Seq<char>,
    firstname: Option<Seq<char>>,
    lastname: Option<Seq<char>>,
    check: Option<bool>,
    hashed: Option<Seq<char>>,
)
    ensures
        register_outcome(db, email, role, firstname, lastname, hashed).0.grades == db.grades,
        register_outcome(db, email, role, firstname, lastname, hashed).0.last_grade_id == db.last_grade_id,
        change_password_outcome(db, email, check, hashed).0.grades == db.grades,
        reset_password_outcome(db, email, hashed).0.grades == db.grades,
{
}

/// Where no row matches, the grade query lists nothing.
pub proof fn law_no_match_lists_nothing(
    grades: Seq<GradeView>,
    email: Seq<char>,
    subject: Option<Seq<char>>,
    quarter: Option<Seq<char>>,
    records: Seq<GradeRecordView>,
)
    requires
        no_grade_matches(grades, email, subject, quarter),
        is_grade_listing(grades, email, subject, quarter, records),
    ensures
        records.len() == 0,
{
    let pos = choose|pos: Seq<usize>|
        #![trigger records_at(grades, pos)]
        is_listing(
            |p: int| grade_selected(grades[p], email, subject, quarter),
            |p: int| grade_order_key(grades[p]),
            grades.len() as int,
            pos,
        ) && records == records_at(grades, pos);
    if pos.len() > 0 {
        assert(grade_selected(grades[pos[0] as int], email, subject, quarter));
    }
}

/// Saving the same student, subject and quarter again replaces the row that the first
/// save stored, in place of it at the end of the table, with the next id.
pub proof fn law_saving_again_replaces_the_row(
    db: DbView,
    email: Seq<char>,
    subject: Seq<char>,
    quarter: Seq<char>,
    written_works: Seq<u64>,
    performance_tasks: Seq<u64>,
    quarterly_assessment: u64,
    final_grade: u64,
    now: Seq<char>,
    written_works2: Seq<u64>,
    performance_tasks2: Seq<u64>,
    quarterly_assessment2: u64,
    final_grade2: u64,
    now2: Seq<char>,
)
    requires
        db_wf(db),
        save_grades_outcome(db, email, subject, quarter, written_works, performance_tasks, quarterly_assessment, final_grade, now).1 is Ok,
        save_grades_outcome(db, email, subject, quarter, written_works, performance_tasks, quarterly_assessment, final_grade, now).0.last_grade_id
            < i64::MAX,
    ensures
        ({
            let db1 = save_grades_outcome(db, email, subject, quarter, written_works, performance_tasks, quarterly_assessment, final_grade, now).0;
            let second = save_grades_outcome(db1, email, subject, quarter, written_works2, performance_tasks2, quarterly_assessment2, final_grade2, now2);
            &&& second.1 == Ok::<Seq<char>, Seq<char>>("Grades saved successfully"@)
            &&& second.0.users == db1.users
            &&& second.0.last_grade_id == db1.last_grade_id + 1
            &&& second.0.grades == db1.grades.update(
                db1.grades.len() - 1,
                new_grade(
                    db1.last_grade_id + 1,
                    user_by_email_role(db.users, email, student_role())->Some_0.id,
                    email,
                    subject,
                    quarter,
                    written_works2,
                    performance_tasks2,
                    quarterly_assessment2,
                    final_grade2,
                    now2,
                ),
            )
        }),
{
    let db1 = save_grades_outcome(db, email, subject, quarter, written_works, performance_tasks, quarterly_assessment, final_grade, now).0;
    let u = user_by_email_role(db.users, email, student_role())->Some_0;
    let w = without_grade_key(db.grades, email, subject, quarter);
    lemma_without_grade_key(db.grades, db.last_grade_id, email, subject, quarter);
    let n = w.len() as int;
    assert(db1.grades[n].student_email == email);
    assert(has_grade_key(db1.grades, email, subject, quarter));
    let k = grade_key_position(db1.grades, email, subject, quarter);
    if k != n {
        assert(db1.grades[k] == w[k]);
        assert(has_grade_key(w, email, subject, quarter));
    }
    assert(db1.grades.remove(n) =~= w);
    let ng2 = new_grade(db1.last_grade_id + 1, u.id, email, subject, quarter, written_works2, performance_tasks2, quarterly_assessment2, final_grade2, now2);
    assert(w.push(ng2) =~= db1.grades.update(n, ng2));
}

/// Deleting with the same student and narrowing a second time removes nothing.
pub proof fn law_second_delete_removes_nothing(
    grades: Seq<GradeView>,
    email: Seq<char>,
    subject: Option<Seq<char>>,
    quarter: Option<Seq<char>>,
    first: Seq<GradeView>,
    second: Seq<GradeView>,
)
    requires
        is_delete_result(grades, email, subject, quarter, first),
        is_delete_result(first, email, subject, quarter, second),
    ensures
        second == first,
{
    law_delete_leaves_no_match(grades, email, subject, quarter, first);
    let unsel = |p: int| !grade_selected(first[p], email, subject, quarter);
    let kept = choose|pos: Seq<usize>|
        #![trigger rows_at(first, pos)]
        is_listing(unsel, |p: int| unordered_key(), first.len() as int, pos) && second == rows_at(first, pos);
    assert forall|p: int| 0 <= p < first.len() implies (#[trigger] unsel(p) <==> p < first.len()) by {
        assert(!grade_selected(first[p], email, subject, quarter));
    }
    lemma_listing_of_prefix(unsel, first.len() as int, first.len() as int, kept);
    assert forall|k: int| 0 <= k < second.len() implies #[trigger] second[k] == first[k] by {
        assert(kept[k] as int == k);
    }
    assert(second =~= first);
}

/// Saving grades under a new (student, subject, quarter) and then deleting exactly that
/// key gives back the grades as they were, one row deleted.
pub proof fn law_delete_undoes_a_new_save(
    db: DbView,
    email: Seq<char>,
    subject: Seq<char>,
    quarter: Seq<char>,
    written_works: Seq<u64>,
    performance_tasks: Seq<u64>,
    quarterly_assessment: u64,
    final_grade: u64,
    now: Seq<char>,
    remaining: Seq<GradeView>,
)
    requires
        !has_grade_key(db.grades, email, subject, quarter),
        save_grades_outcome(db, email, subject, quarter, written_works, performance_tasks, quarterly_assessment, final_grade, now).1 is Ok,
        is_delete_result(
            save_grades_outcome(db, email, subject, quarter, written_works, performance_tasks, quarterly_assessment, final_grade, now).0.grades,
            email,
            Some(subject),
            Some(quarter),
            remaining,
        ),
    ensures
        remaining == db.grades,
{
    let g1 = save_grades_outcome(db, email, subject, quarter, written_works, performance_tasks, quarterly_assessment, final_grade, now).0.grades;
    let n = db.grades.len() as int;
    let unsel = |p: int| !grade_selected(g1[p], email, Some(subject), Some(quarter));
    let kept = choose|pos: Seq<usize>|
        #![trigger rows_at(g1, pos)]
        is_listing(unsel, |p: int| unordered_key(), g1.len() as int, pos) && remaining == rows_at(g1, pos);
    assert forall|p: int| 0 <= p < g1.len() implies (#[trigger] unsel(p) <==> p < n) by {
        if p < n {
            assert(g1[p] == db.grades[p]);
            if grade_selected(g1[p], email, Some(subject), Some(quarter)) {
                assert(db.grades[p].student_email == email);
            }
        }
    }
    lemma_listing_of_prefix(unsel, g1.len() as int, n, kept);
    assert forall|k: int| 0 <= k < remaining.len() implies #[trigger] remaining[k] == db.grades[k] by {
        assert(kept[k] as int == k);
        assert(g1[k] == db.grades[k]);
    }
    assert(remaining =~= db.grades);
}

/// Removes adjacent repeats from a sequence of texts.
pub open spec fn dedup_adjacent(s: Seq<Seq<char>>) -> Seq<Seq<char>>
    decreases s.len(),
{
    if s.len() <= 1 {
        s
    } else if s[s.len() - 1] == s[s.len() - 2] {
        dedup_adjacent(s.drop_last())
    } else {
        dedup_adjacent(s.drop_last()).push(s.last())
    }
}

/// The subjects of the records, in order.
pub open spec fn subjects_of(records: Seq<GradeRecordView>) -> Seq<Seq<char>> {
    records.map_values(|r: GradeRecordView| r.subject)
}

pub open spec fn texts_nondecreasing(s: Seq<Seq<char>>) -> bool {
    forall|i: int, j: int| 0 <= i < j < s.len() ==> text_lt(#[trigger] s[i], #[trigger] s[j]) || s[i] == s[j]
}

pub open spec fn texts_increasing(s: Seq<Seq<char>>) -> bool {
    forall|i: int, j: int| 0 <= i < j < s.len() ==> text_lt(#[trigger] s[i], #[trigger] s[j])
}

proof fn lemma_dedup(s: Seq<Seq<char>>)
    requires
        texts_nondecreasing(s),
    ensures
        texts_increasing(dedup_adjacent(s)),
        forall|x: Seq<char>| #[trigger] in_list(dedup_adjacent(s), x) <==> in_list(s, x),
        s.len() > 0 ==> dedup_adjacent(s).len() > 0 && dedup_adjacent(s).last() == s.last(),
    decreases s.len(),
{
    if s.len() > 1 {
        let t = s.drop_last();
        assert(texts_nondecreasing(t)) by {
            assert forall|i: int, j: int| 0 <= i < j < t.len() implies text_lt(#[trigger] t[i], #[trigger] t[j]) || t[i] == t[j] by {
                assert(t[i] == s[i] && t[j] == s[j]);
            }
        }
        lemma_dedup(t);
        let r = dedup_adjacent(t);
        let n = s.len() as int;
        assert forall|x: Seq<char>| in_list(t, x) implies #[trigger] in_list(s, x) by {
            let k = choose|k: int| 0 <= k < t.len() && t[k] == x;
            assert(s[k] == x);
        }
        assert forall|x: Seq<char>| #[trigger] in_list(s, x) implies in_list(t, x) || x == s.last() by {
            let k = choose|k: int| 0 <= k < s.len() && s[k] == x;
            if k < n - 1 {
                assert(t[k] == x);
            }
        }
        if s[n - 1] == s[n - 2] {
            assert(t.last() == s[n - 2]);
            assert forall|x: Seq<char>| #[trigger] in_list(dedup_adjacent(s), x) <==> in_list(s, x) by {
                if x == s.last() {
                    assert(t[n - 2] == x);
                    assert(in_list(t, x));
                }
            }
        } else {
            let d = r.push(s.last());
            assert(d == dedup_adjacent(s));
            assert(text_lt(s[n - 2], s[n - 1]) || s[n - 2] == s[n - 1]);
            assert forall|i: int| 0 <= i < r.len() implies text_lt(#[trigger] r[i], s.last()) by {
                assert(in_list(r, r[i]));
                assert(in_list(t, r[i]));
                let k = choose|k: int| 0 <= k < t.len() && t[k] == r[i];
                if k < n - 2 {
                    assert(text_lt(s[k], s[n - 2]) || s[k] == s[n - 2]);
                    if text_lt(s[k], s[n - 2]) {
                        lemma_text_lt_transitive(s[k], s[n - 2], s[n - 1]);
                    }
                }
            }
            assert forall|i: int, j: int| 0 <= i < j < d.len() implies text_lt(#[trigger] d[i], #[trigger] d[j]) by {
                if j < r.len() {
                    assert(d[i] == r[i] && d[j] == r[j]);
                } else {
                    assert(d[i] == r[i]);
                }
            }
            assert forall|x: Seq<char>| #[trigger] in_list(d, x) <==> in_list(s, x) by {
                if in_list(d, x) {
                    let k = choose|k: int| 0 <= k < d.len() && d[k] == x;
                    if k < r.len() {
                        assert(r[k] == x);
                        assert(in_list(r, x));
                    } else {
                        assert(s[n - 1] == x);
                    }
                }
                if in_list(s, x) {
                    if x == s.last() {
                        assert(d[r.len() as int] == x);
                    } else {
                        assert(in_list(r, x));
                        let k = choose|k: int| 0 <= k < r.len() && r[k] == x;
                        assert(d[k] == x);
                    }
                }
            }
        }
    } else if s.len() == 1 {
        assert forall|x: Seq<char>| #[trigger] in_list(dedup_adjacent(s), x) <==> in_list(s, x) by {}
    } else {
        assert forall|x: Seq<char>| #[trigger] in_list(dedup_adjacent(s), x) <==> in_list(s, x) by {}
    }
}

/// Two increasing sequences of texts with the same members are the same sequence.
proof fn lemma_increasing_same_members(a: Seq<Seq<char>>, b: Seq<Seq<char>>)
    requires
        texts_increasing(a),
        texts_increasing(b),
        forall|x: Seq<char>| #![trigger in_list(a, x)] #![trigger in_list(b, x)] in_list(a, x) <==> in_list(b, x),
    ensures
        a == b,
    decreases a.len() + b.len(),
{
    if a.len() == 0 {
        if b.len() > 0 {
            assert(in_list(b, b[0]));
        }
        assert(a =~= b);
    } else if b.len() == 0 {
        assert(in_list(a, a[0]));
    } else {
        let la = a.last();
        let lb = b.last();
        assert(la == a[a.len() - 1] && lb == b[b.len() - 1]);
        assert(in_list(a, la));
        assert(in_list(b, lb));
        let i = choose|i: int| 0 <= i < b.len() && b[i] == la;
        let j = choose|j: int| 0 <= j < a.len() && a[j] == lb;
        lemma_text_lt_total(la, lb);
        if la != lb {
            if text_lt(la, lb) {
                if j < a.len() - 1 {
                    assert(text_lt(a[j], la));
                    lemma_text_lt_total(lb, la);
                }
            } else {
                if i < b.len() - 1 {
                    assert(text_lt(b[i], lb));
                    lemma_text_lt_total(la, lb);
                }
            }
        }
        assert(la == lb);
        let a2 = a.drop_last();
        let b2 = b.drop_last();
        assert(texts_increasing(a2)) by {
            assert forall|p: int, q: int| 0 <= p < q < a2.len() implies text_lt(#[trigger] a2[p], #[trigger] a2[q]) by {
                assert(a2[p] == a[p] && a2[q] == a[q]);
            }
        }
        assert(texts_increasing(b2)) by {
            assert forall|p: int, q: int| 0 <= p < q < b2.len() implies text_lt(#[trigger] b2[p], #[trigger] b2[q]) by {
                assert(b2[p] == b[p] && b2[q] == b[q]);
            }
        }
        assert forall|x: Seq<char>| #![trigger in_list(a2, x)] #![trigger in_list(b2, x)] in_list(a2, x) <==> in_list(b2, x) by {
            if in_list(a2, x) {
                let k = choose|k: int| 0 <= k < a2.len() && a2[k] == x;
                assert(a[k] == x);
                assert(in_list(a, x));
                assert(text_lt(a[k], la));
                lemma_text_lt_irreflexive(x);
                assert(x != la);
                let m = choose|m: int| 0 <= m < b.len() && b[m] == x;
                assert(m != b.len() - 1);
                assert(b2[m] == x);
            }
            if in_list(b2, x) {
                let k = choose|k: int| 0 <= k < b2.len() && b2[k] == x;
                assert(b[k] == x);
                assert(in_list(b, x));
                assert(text_lt(b[k], lb));
                lemma_text_lt_irreflexive(x);
                assert(x != lb);
                let m = choose|m: int| 0 <= m < a.len() && a[m] == x;
                assert(m != a.len() - 1);
                assert(a2[m] == x);
            }
        }
        lemma_increasing_same_members(a2, b2);
        assert(a =~= a2.push(la));
        assert(b =~= b2.push(lb));
    }
}

/// The subjects of a student are the subjects of the grades that the unnarrowed grade
/// query lists, in that order, with repeats removed.
pub proof fn law_subjects_are_deduplicated_listing(
    grades: Seq<GradeView>,
    email: Seq<char>,
    subjects: Seq<Seq<char>>,
    records: Seq<GradeRecordView>,
)
    requires
        is_subject_list(grades, email, subjects),
        is_grade_listing(grades, email, None, None, records),
    ensures
        subjects == dedup_adjacent(subjects_of(records)),
{
    let n = grades.len() as int;
    let key = |p: int| grade_order_key(grades[p]);
    let pos = choose|pos: Seq<usize>|
        #![trigger records_at(grades, pos)]
        is_listing(
            |p: int| grade_selected(grades[p], email, None, None),
            key,
            n,
            pos,
        ) && records == records_at(grades, pos);
    let s = subjects_of(records);
    assert forall|i: int, j: int| 0 <= i < j < s.len() implies text_lt(#[trigger] s[i], #[trigger] s[j]) || s[i] == s[j] by {
        assert(listed_before(key, pos[i] as int, pos[j] as int));
        assert(s[i] == grades[pos[i] as int].subject);
        assert(s[j] == grades[pos[j] as int].subject);
    }
    lemma_dedup(s);
    law_subjects_match_listed_grades(grades, email, subjects, records);
    assert forall|x: Seq<char>| #![trigger in_list(subjects, x)] #![trigger in_list(dedup_adjacent(s), x)] in_list(subjects, x) <==> in_list(dedup_adjacent(s), x) by {
        if in_list(subjects, x) {
            let k = choose|k: int| 0 <= k < records.len() && #[trigger] records[k].subject == x;
            assert(s[k] == x);
            assert(in_list(s, x));
        }
        if in_list(s, x) {
            let k = choose|k: int| 0 <= k < s.len() && s[k] == x;
            assert(records[k].subject == x);
        }
    }
    assert(texts_increasing(subjects)) by {
        assert forall|i: int, j: int| 0 <= i < j < subjects.len() implies text_lt(#[trigger] subjects[i], #[trigger] subjects[j]) by {}
    }
    lemma_increasing_same_members(subjects, dedup_adjacent(s));
}

} // verus!
