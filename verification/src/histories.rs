//! Runs of several commands: what holds of the store after a command and any number of
//! later commands that leave its subject alone.

use vstd::prelude::*;
use crate::model::{
    DbView, GradeView, UserView, db_wf, grades_wf, has_user, user_by_email, user_position,
    same_grade_key, user_by_email_role, student_role,
};
use crate::accounts::{
    LoginResponseView, login_outcome, public_user, register_outcome, change_password_outcome,
    reset_password_outcome, with_password, password_check, new_user,
};
use crate::grades::{
    save_grades_outcome, save_with_clock_outcome, clock_stamp, is_delete_result, delete_message,
    without_grade_key, has_grade_key, grade_key_position, grade_selected, rows_at, filter_admits,
    new_grade, record_of, is_grade_listing, records_at, grade_order_key, GradeRecordView,
};
use crate::crypto::{hash_made_from, bcrypt_verify_outcome};
use crate::sorting::{is_listing, lists, listed_before, unordered_key, lemma_listed_before_strict};
use crate::laws::{
    lemma_other_password_keeps_user, law_other_signup_keeps_login,
    lemma_without_grade_key, law_no_match_survives_other_saves, law_no_match_survives_deletes,
    law_delete_leaves_no_match, no_grade_matches, law_no_match_lists_nothing, law_account_commands_keep_grades,
};

verus! {

/// A command of the portal, with what the outside world decided for it: the clock
/// reading of a save, the password hash made for a sign-up, change or reset.
pub enum Command {
    SaveGrades {
        email: Seq<char>,
        subject: Seq<char>,
        quarter: Seq<char>,
        written_works: Seq<u64>,
        performance_tasks: Seq<u64>,
        quarterly_assessment: u64,
        final_grade: u64,
        reading: Result<(u64, u32), (u64, u32)>,
    },
    DeleteGrades { email: Seq<char>, subject_filter: Option<Seq<char>>, quarter_filter: Option<Seq<char>> },
    Register {
        email: Seq<char>,
        password: Seq<char>,
        role: Seq<char>,
        firstname: Option<Seq<char>>,
        lastname: Option<Seq<char>>,
        hashed: Option<Seq<char>>,
    },
    ChangePassword {
        email: Seq<char>,
        current_password: Seq<char>,
        new_password: Seq<char>,
        hashed: Option<Seq<char>>,
    },
    ResetPassword { email: Seq<char>, new_password: Seq<char>, hashed: Option<Seq<char>> },
}

/// Running `c` on `before` gives `after` and `reply`, as the `ensures` of
/// `save_student_grades_with_clock`, `delete_student_grades` (whose reply is always a
/// success), `register_with_hash`, `change_password_with` and `reset_password_with_hash`
/// state it; a change of password is checked against the stored hash as `change_password`
/// checks it.
pub open spec fn step(before: DbView, c: Command, after: DbView, reply: Result<Seq<char>, Seq<char>>) -> bool {
    match c {
        Command::SaveGrades {
            email,
            subject,
            quarter,
            written_works,
            performance_tasks,
            quarterly_assessment,
            final_grade,
            reading,
        } => (after, reply) == save_with_clock_outcome(
            before,
            reading,
            email,
            subject,
            quarter,
            written_works,
            performance_tasks,
            quarterly_assessment,
            final_grade,
        ),
        Command::DeleteGrades { email, subject_filter: subject, quarter_filter: quarter } => {
            &&& is_delete_result(before.grades, email, subject, quarter, after.grades)
            &&& after.users == before.users
            &&& after.last_user_id == before.last_user_id
            &&& after.last_grade_id == before.last_grade_id
            &&& reply == Ok::<Seq<char>, Seq<char>>(delete_message((before.grades.len() - after.grades.len()) as nat))
        },
        Command::Register { email, password, role, firstname, lastname, hashed } => (after, reply)
            == register_outcome(before, email, role, firstname, lastname, hashed),
        Command::ChangePassword { email, current_password, new_password, hashed } => (after, reply)
            == change_password_outcome(
            before,
            email,
            password_check(user_by_email(before.users, email), current_password),
            hashed,
        ),
        Command::ResetPassword { email, new_password, hashed } => (after, reply) == reset_password_outcome(
            before,
            email,
            hashed,
        ),
    }
}

/// Every password hash in the commands was made from the password it stands for.
pub open spec fn hashes_made_from_passwords(cmds: Seq<Command>) -> bool {
    forall|i: int|
        0 <= i < cmds.len() ==> match #[trigger] cmds[i] {
            Command::Register { password, hashed, .. } => hash_made_from(password, hashed),
            Command::ChangePassword { new_password, hashed, .. } => hash_made_from(new_password, hashed),
            Command::ResetPassword { new_password, hashed, .. } => hash_made_from(new_password, hashed),
            _ => true,
        }
}

/// `stores[i + 1]` and `replies[i]` come of running `cmds[i]` on `stores[i]`.
pub open spec fn is_run(cmds: Seq<Command>, stores: Seq<DbView>, replies: Seq<Result<Seq<char>, Seq<char>>>) -> bool {
    &&& stores.len() == cmds.len() + 1
    &&& replies.len() == cmds.len()
    &&& forall|i: int| 0 <= i < cmds.len() ==> step(stores[i], #[trigger] cmds[i], stores[i + 1], replies[i])
}

proof fn lemma_save_keeps_wf(
    db: DbView,
    email: Seq<char>,
    subject: Seq<char>,
    quarter: Seq<char>,
    written_works: Seq<u64>,
    performance_tasks: Seq<u64>,
    quarterly_assessment: u64,
    final_grade: u64,
    now: Seq<char>,
)
    requires
        db_wf(db),
    ensures
        db_wf(save_grades_outcome(db, email, subject, quarter, written_works, performance_tasks, quarterly_assessment, final_grade, now).0),
{
    let out = save_grades_outcome(db, email, subject, quarter, written_works, performance_tasks, quarterly_assessment, final_grade, now);
    if out.1 is Ok {
        let og = db.grades;
        let w = without_grade_key(og, email, subject, quarter);
        lemma_without_grade_key(og, db.last_grade_id, email, subject, quarter);
        let u = user_by_email_role(db.users, email, student_role())->Some_0;
        let ng = new_grade(db.last_grade_id + 1, u.id, email, subject, quarter, written_works, performance_tasks, quarterly_assessment, final_grade, now);
        let g = out.0.grades;
        assert(g == w.push(ng));
        assert forall|j: int| 0 <= j < w.len() implies #[trigger] w[j] == og[if has_grade_key(og, email, subject, quarter) && j >= grade_key_position(og, email, subject, quarter) { j + 1 } else { j }] by {}
        assert forall|a: int, b: int|
            #![trigger g[a], g[b]]
            0 <= a < g.len() && 0 <= b < g.len() && a != b implies g[a].id != g[b].id && !same_grade_key(g[a], g[b]) by {
            let k = grade_key_position(og, email, subject, quarter);
            let has = has_grade_key(og, email, subject, quarter);
            let oa = if has && a >= k { a + 1 } else { a };
            let ob = if has && b >= k { b + 1 } else { b };
            if a < w.len() && b < w.len() {
                assert(w[a] == og[oa] && w[b] == og[ob]);
            } else if a < w.len() {
                assert(w[a] == og[oa]);
                if same_grade_key(g[a], g[b]) {
                    assert(has_grade_key(w, email, subject, quarter));
                }
            } else {
                assert(w[b] == og[ob]);
                if same_grade_key(g[a], g[b]) {
                    assert(has_grade_key(w, email, subject, quarter));
                }
            }
        }
        assert forall|a: int| 0 <= a < g.len() implies 1 <= #[trigger] g[a].id <= out.0.last_grade_id by {
            if a < w.len() {
                let k = grade_key_position(og, email, subject, quarter);
                let has = has_grade_key(og, email, subject, quarter);
                let oa = if has && a >= k { a + 1 } else { a };
                assert(w[a] == og[oa]);
            }
        }
    }
}

proof fn lemma_delete_keeps_wf(
    grades: Seq<GradeView>,
    last_id: int,
    email: Seq<char>,
    subject: Option<Seq<char>>,
    quarter: Option<Seq<char>>,
    remaining: Seq<GradeView>,
)
    requires
        grades_wf(grades, last_id),
        is_delete_result(grades, email, subject, quarter, remaining),
    ensures
        grades_wf(remaining, last_id),
{
    let kept = choose|pos: Seq<usize>|
        #![trigger rows_at(grades, pos)]
        is_listing(
            |p: int| !grade_selected(grades[p], email, subject, quarter),
            |p: int| unordered_key(),
            grades.len() as int,
            pos,
        ) && remaining == rows_at(grades, pos);
    let key = |p: int| unordered_key();
    assert forall|a: int, b: int|
        #![trigger remaining[a], remaining[b]]
        0 <= a < remaining.len() && 0 <= b < remaining.len() && a != b implies remaining[a].id != remaining[b].id
        && !same_grade_key(remaining[a], remaining[b]) by {
        assert(remaining[a] == grades[kept[a] as int] && remaining[b] == grades[kept[b] as int]);
        lemma_listed_before_strict(key, kept[a] as int, kept[b] as int);
        if a < b {
            assert(listed_before(key, kept[a] as int, kept[b] as int));
        } else {
            assert(listed_before(key, kept[b] as int, kept[a] as int));
        }
    }
    assert forall|a: int| 0 <= a < remaining.len() implies 1 <= #[trigger] remaining[a].id <= last_id by {
        assert(remaining[a] == grades[kept[a] as int]);
    }
}

proof fn lemma_register_keeps_wf(
    db: DbView,
    email: Seq<char>,
    role: Seq<char>,
    firstname: Option<Seq<char>>,
    lastname: Option<Seq<char>>,
    hashed: Option<Seq<char>>,
)
    requires
        db_wf(db),
    ensures
        db_wf(register_outcome(db, email, role, firstname, lastname, hashed).0),
{
    let after = register_outcome(db, email, role, firstname, lastname, hashed).0;
    if after != db {
        let nv = after.users;
        let n = db.users.len() as int;
        assert forall|a: int, b: int|
            #![trigger nv[a], nv[b]]
            0 <= a < nv.len() && 0 <= b < nv.len() && a != b implies nv[a].id != nv[b].id
            && nv[a].email != nv[b].email by {
            if a < n && b < n {
                assert(nv[a] == db.users[a] && nv[b] == db.users[b]);
            } else if a < n {
                assert(nv[a] == db.users[a]);
                if nv[a].email == nv[b].email {
                    assert(has_user(db.users, email));
                }
            } else {
                assert(nv[b] == db.users[b]);
                if nv[a].email == nv[b].email {
                    assert(has_user(db.users, email));
                }
            }
        }
        assert forall|a: int| 0 <= a < nv.len() implies 1 <= #[trigger] nv[a].id <= after.last_user_id by {
            if a < n {
                assert(nv[a] == db.users[a]);
            }
        }
    }
}

proof fn lemma_password_keeps_wf(db: DbView, pos: int, hash: Seq<char>)
    requires
        db_wf(db),
        0 <= pos < db.users.len(),
    ensures
        db_wf(with_password(db, pos, hash)),
{
    let nv = with_password(db, pos, hash).users;
    assert forall|a: int, b: int|
        #![trigger nv[a], nv[b]]
        0 <= a < nv.len() && 0 <= b < nv.len() && a != b implies nv[a].id != nv[b].id && nv[a].email != nv[b].email by {
        assert(db.users[a].id != db.users[b].id);
    }
    assert forall|a: int| 0 <= a < nv.len() implies 1 <= #[trigger] nv[a].id <= db.last_user_id by {
        assert(1 <= db.users[a].id);
    }
}

/// Every command keeps the table constraints.
pub proof fn law_step_keeps_wf(before: DbView, c: Command, after: DbView, reply: Result<Seq<char>, Seq<char>>)
    requires
        db_wf(before),
        step(before, c, after, reply),
    ensures
        db_wf(after),
{
    match c {
        Command::SaveGrades {
            email,
            subject,
            quarter,
            written_works,
            performance_tasks,
            quarterly_assessment,
            final_grade,
            reading,
        } => {
            if let Some(now) = clock_stamp(reading) {
                lemma_save_keeps_wf(before, email, subject, quarter, written_works, performance_tasks, quarterly_assessment, final_grade, now);
            }
        },
        Command::DeleteGrades { email, subject_filter: subject, quarter_filter: quarter } => {
            lemma_delete_keeps_wf(before.grades, before.last_grade_id, email, subject, quarter, after.grades);
        },
        Command::Register { email, password, role, firstname, lastname, hashed } => {
            lemma_register_keeps_wf(before, email, role, firstname, lastname, hashed);
        },
        Command::ChangePassword { email, current_password, new_password, hashed } => {
            if has_user(before.users, email) && hashed is Some {
                lemma_password_keeps_wf(before, user_position(before.users, email), hashed->Some_0);
            }
        },
        Command::ResetPassword { email, new_password, hashed } => {
            if has_user(before.users, email) && hashed is Some {
                lemma_password_keeps_wf(before, user_position(before.users, email), hashed->Some_0);
            }
        },
    }
}

/// Every store of a run keeps the table constraints, when the first does.
pub proof fn law_run_keeps_wf(cmds: Seq<Command>, stores: Seq<DbView>, replies: Seq<Result<Seq<char>, Seq<char>>>, i: int)
    requires
        is_run(cmds, stores, replies),
        db_wf(stores[0]),
        0 <= i < stores.len(),
    ensures
        db_wf(stores[i]),
    decreases i,
{
    if i > 0 {
        law_run_keeps_wf(cmds, stores, replies, i - 1);
        law_step_keeps_wf(stores[i - 1], cmds[i - 1], stores[i], replies[i - 1]);
    }
}

/// The command saves grades for this student.
pub open spec fn saves_for(c: Command, email: Seq<char>) -> bool {
    c matches Command::SaveGrades { email: e, .. } && e == email
}

/// After a delete, the same grade query lists nothing, however many commands follow, as
/// long as none of them saves grades for that student.
pub proof fn law_nothing_after_delete_in_a_run(
    cmds: Seq<Command>,
    stores: Seq<DbView>,
    replies: Seq<Result<Seq<char>, Seq<char>>>,
    email: Seq<char>,
    subject: Option<Seq<char>>,
    quarter: Option<Seq<char>>,
    records: Seq<GradeRecordView>,
)
    requires
        is_run(cmds, stores, replies),
        cmds.len() >= 1,
        cmds[0] == (Command::DeleteGrades { email, subject_filter: subject, quarter_filter: quarter }),
        forall|i: int| 1 <= i < cmds.len() ==> !saves_for(#[trigger] cmds[i], email),
        is_grade_listing(stores.last().grades, email, subject, quarter, records),
    ensures
        records.len() == 0,
{
    lemma_no_match_in_run(cmds, stores, replies, email, subject, quarter, stores.len() - 1);
    law_no_match_lists_nothing(stores.last().grades, email, subject, quarter, records);
}

proof fn lemma_no_match_in_run(
    cmds: Seq<Command>,
    stores: Seq<DbView>,
    replies: Seq<Result<Seq<char>, Seq<char>>>,
    email: Seq<char>,
    subject: Option<Seq<char>>,
    quarter: Option<Seq<char>>,
    i: int,
)
    requires
        is_run(cmds, stores, replies),
        cmds.len() >= 1,
        cmds[0] == (Command::DeleteGrades { email, subject_filter: subject, quarter_filter: quarter }),
        forall|i: int| 1 <= i < cmds.len() ==> !saves_for(#[trigger] cmds[i], email),
        1 <= i < stores.len(),
    ensures
        no_grade_matches(stores[i].grades, email, subject, quarter),
    decreases i,
{
    if i == 1 {
        assert(step(stores[0], cmds[0], stores[1], replies[0]));
        law_delete_leaves_no_match(stores[0].grades, email, subject, quarter, stores[1].grades);
    } else {
        lemma_no_match_in_run(cmds, stores, replies, email, subject, quarter, i - 1);
        let before = stores[i - 1];
        let after = stores[i];
        let c = cmds[i - 1];
        assert(step(before, c, after, replies[i - 1]));
        assert(!saves_for(c, email));
        match c {
            Command::SaveGrades {
                email: e2,
                subject: s2,
                quarter: q2,
                written_works,
                performance_tasks,
                quarterly_assessment,
                final_grade,
                reading,
            } => {
                if let Some(now) = clock_stamp(reading) {
                    law_no_match_survives_other_saves(
                        before, email, subject, quarter, e2, s2, q2, written_works, performance_tasks,
                        quarterly_assessment, final_grade, now);
                }
            },
            Command::DeleteGrades { email: e2, subject_filter: s2, quarter_filter: q2 } => {
                law_no_match_survives_deletes(before.grades, email, subject, quarter, e2, s2, q2, after.grades);
            },
            _ => {},
        }
    }
}

/// Command `c`, answered `reply`, changed the password of this email: the new password.
pub open spec fn new_password_set(c: Command, reply: Result<Seq<char>, Seq<char>>, email: Seq<char>) -> Option<Seq<char>> {
    if reply is Err {
        None
    } else {
        match c {
            Command::ChangePassword { email: e, new_password, .. } => if e == email {
                Some(new_password)
            } else {
                None
            },
            Command::ResetPassword { email: e, new_password, .. } => if e == email {
                Some(new_password)
            } else {
                None
            },
            _ => None,
        }
    }
}

/// The password of this email after the first `n` commands of a run, when it was
/// `password` before them: the new password of the last change or reset of it that
/// succeeded.
pub open spec fn password_after(
    cmds: Seq<Command>,
    replies: Seq<Result<Seq<char>, Seq<char>>>,
    email: Seq<char>,
    password: Seq<char>,
    n: int,
) -> Seq<char>
    decreases n,
{
    if n <= 0 {
        password
    } else {
        match new_password_set(cmds[n - 1], replies[n - 1], email) {
            Some(p) => p,
            None => password_after(cmds, replies, email, password, n - 1),
        }
    }
}

proof fn lemma_with_password_user(db: DbView, email: Seq<char>, hash: Seq<char>)
    requires
        db_wf(db),
        has_user(db.users, email),
    ensures
        user_by_email(with_password(db, user_position(db.users, email), hash).users, email) == Some(
            UserView { password: hash, ..db.users[user_position(db.users, email)] },
        ),
{
    let p = user_position(db.users, email);
    let after = with_password(db, p, hash);
    assert(after.users[p].email == email);
    assert(has_user(after.users, email));
    let q = user_position(after.users, email);
    if q != p {
        assert(after.users[q] == db.users[q]);
        assert(db.users[q].email != db.users[p].email);
    }
}

/// The user with this email, as stated: public part `public`, role `role`, and a hash
/// that verifies `password`.
pub open spec fn user_logs_in_with(
    db: DbView,
    email: Seq<char>,
    password: Seq<char>,
    role: Seq<char>,
    public: crate::accounts::UserRecordView,
) -> bool {
    &&& user_by_email(db.users, email) is Some
    &&& public_user(user_by_email(db.users, email)->Some_0) == public
    &&& user_by_email(db.users, email)->Some_0.role == role
    &&& bcrypt_verify_outcome(password, user_by_email(db.users, email)->Some_0.password) == Some(true)
}

proof fn lemma_logs_in_through_run(
    cmds: Seq<Command>,
    stores: Seq<DbView>,
    replies: Seq<Result<Seq<char>, Seq<char>>>,
    email: Seq<char>,
    password: Seq<char>,
    role: Seq<char>,
    public: crate::accounts::UserRecordView,
    i: int,
)
    requires
        is_run(cmds, stores, replies),
        db_wf(stores[0]),
        hashes_made_from_passwords(cmds),
        1 <= i < stores.len(),
        user_logs_in_with(stores[1], email, password_after(cmds, replies, email, password, 1), role, public),
    ensures
        user_logs_in_with(stores[i], email, password_after(cmds, replies, email, password, i), role, public),
    decreases i,
{
    if i > 1 {
        lemma_logs_in_through_run(cmds, stores, replies, email, password, role, public, i - 1);
        law_run_keeps_wf(cmds, stores, replies, i - 1);
        let before = stores[i - 1];
        let after = stores[i];
        let c = cmds[i - 1];
        let reply = replies[i - 1];
        let pw = password_after(cmds, replies, email, password, i - 1);
        assert(step(before, c, after, reply));
        assert(password_after(cmds, replies, email, password, i) == match new_password_set(c, reply, email) {
            Some(p) => p,
            None => pw,
        });
        match c {
            Command::SaveGrades { .. } => {
                assert(after.users == before.users);
            },
            Command::DeleteGrades { .. } => {},
            Command::Register { email: e2, password: p2, role: r2, firstname, lastname, hashed } => {
                if e2 == email {
                    assert(after == before);
                } else {
                    law_other_signup_keeps_login(before, e2, r2, firstname, lastname, hashed, email, pw, role);
                }
            },
            Command::ChangePassword { email: e2, current_password, new_password, hashed } => {
                assert(hash_made_from(new_password, hashed));
                if after != before {
                    let h = hashed->Some_0;
                    if e2 == email {
                        lemma_with_password_user(before, email, h);
                    } else {
                        lemma_other_password_keeps_user(before, e2, h, email);
                    }
                }
            },
            Command::ResetPassword { email: e2, new_password, hashed } => {
                assert(hash_made_from(new_password, hashed));
                if after != before {
                    let h = hashed->Some_0;
                    if e2 == email {
                        lemma_with_password_user(before, email, h);
                    } else {
                        lemma_other_password_keeps_user(before, e2, h, email);
                    }
                }
            },
        }
    }
}

/// After a sign-up, logging in with its email and role succeeds, however many commands
/// follow, with the password that the last successful change or reset of that email set
/// (the sign-up password when there was none); the reply carries the user that the
/// sign-up stored, without its hash.
pub proof fn law_login_through_a_run(
    cmds: Seq<Command>,
    stores: Seq<DbView>,
    replies: Seq<Result<Seq<char>, Seq<char>>>,
    email: Seq<char>,
    password: Seq<char>,
    role: Seq<char>,
    firstname: Option<Seq<char>>,
    lastname: Option<Seq<char>>,
    hashed: Option<Seq<char>>,
)
    requires
        is_run(cmds, stores, replies),
        db_wf(stores[0]),
        hashes_made_from_passwords(cmds),
        cmds.len() >= 1,
        cmds[0] == (Command::Register { email, password, role, firstname, lastname, hashed }),
        replies[0] is Ok,
    ensures
        login_outcome(stores.last(), email, password_after(cmds, replies, email, password, cmds.len() as int), role)
            == (LoginResponseView {
            success: true,
            message: "Login successful"@,
            user: Some(
                public_user(new_user(stores[0].last_user_id + 1, email, hashed->Some_0, role, firstname, lastname)),
            ),
        }),
{
    let db0 = stores[0];
    assert(step(db0, cmds[0], stores[1], replies[0]));
    assert(hash_made_from(password, hashed));
    let h = hashed->Some_0;
    let nu = new_user(db0.last_user_id + 1, email, h, role, firstname, lastname);
    let after = stores[1];
    let last = db0.users.len() as int;
    assert(after.users[last] == nu);
    assert(has_user(after.users, email));
    let p = user_position(after.users, email);
    if p != last {
        assert(after.users[p] == db0.users[p]);
        assert(has_user(db0.users, email));
    }
    assert(user_by_email(after.users, email) == Some(nu));
    assert(new_password_set(cmds[0], replies[0], email) is None);
    assert(password_after(cmds, replies, email, password, 0) == password);
    assert(password_after(cmds, replies, email, password, 1) == password);
    lemma_logs_in_through_run(cmds, stores, replies, email, password, role, public_user(nu), stores.len() - 1);
    let pw = password_after(cmds, replies, email, password, cmds.len() as int);
    let fin = stores.last();
    assert(fin == stores[stores.len() - 1]);
    assert(user_by_email_role(fin.users, email, role) == user_by_email(fin.users, email));
}

/// The command saves or deletes the grades of this student, subject and quarter.
pub open spec fn touches_grade(c: Command, email: Seq<char>, subject: Seq<char>, quarter: Seq<char>) -> bool {
    match c {
        Command::SaveGrades { email: e, subject: s, quarter: q, .. } => e == email && s == subject && q
            == quarter,
        Command::DeleteGrades { email: e, subject_filter, quarter_filter } => e == email && filter_admits(
            subject,
            subject_filter,
        ) && filter_admits(quarter, quarter_filter),
        _ => false,
    }
}

/// The table holds this row.
pub open spec fn holds_row(grades: Seq<GradeView>, row: GradeView) -> bool {
    exists|p: int| 0 <= p < grades.len() && #[trigger] grades[p] == row
}

proof fn lemma_row_survives_step(
    before: DbView,
    c: Command,
    after: DbView,
    reply: Result<Seq<char>, Seq<char>>,
    row: GradeView,
)
    requires
        step(before, c, after, reply),
        holds_row(before.grades, row),
        !touches_grade(c, row.student_email, row.subject, row.quarter),
    ensures
        holds_row(after.grades, row),
{
    let g = before.grades;
    let p = choose|p: int| 0 <= p < g.len() && #[trigger] g[p] == row;
    match c {
        Command::SaveGrades {
            email: e2,
            subject: s2,
            quarter: q2,
            written_works,
            performance_tasks,
            quarterly_assessment,
            final_grade,
            reading,
        } => {
            if after.grades != g {
                let w = without_grade_key(g, e2, s2, q2);
                assert(after.grades == w.push(after.grades.last()));
                if has_grade_key(g, e2, s2, q2) {
                    let k = grade_key_position(g, e2, s2, q2);
                    assert(g[k].student_email == e2 && g[k].subject == s2 && g[k].quarter == q2);
                    assert(p != k);
                    if p < k {
                        assert(after.grades[p] == row);
                    } else {
                        assert(after.grades[p - 1] == row);
                    }
                } else {
                    assert(after.grades[p] == row);
                }
            }
        },
        Command::DeleteGrades { email: e2, subject_filter: s2, quarter_filter: q2 } => {
            let kept = choose|pos: Seq<usize>|
                #![trigger rows_at(g, pos)]
                is_listing(
                    |p: int| !grade_selected(g[p], e2, s2, q2),
                    |p: int| unordered_key(),
                    g.len() as int,
                    pos,
                ) && after.grades == rows_at(g, pos);
            assert(!grade_selected(g[p], e2, s2, q2));
            assert(lists(kept, p));
            let k = choose|k: int| 0 <= k < kept.len() && kept[k] == p;
            assert(after.grades[k] == row);
        },
        Command::Register { email, password, role, firstname, lastname, hashed } => {
            law_account_commands_keep_grades(before, email, role, firstname, lastname, None, hashed);
        },
        Command::ChangePassword { email, current_password, new_password, hashed } => {
            law_account_commands_keep_grades(
                before, email, Seq::<char>::empty(), None, None,
                password_check(user_by_email(before.users, email), current_password), hashed);
        },
        Command::ResetPassword { email, new_password, hashed } => {
            law_account_commands_keep_grades(before, email, Seq::<char>::empty(), None, None, None, hashed);
        },
    }
}

proof fn lemma_row_in_run(
    cmds: Seq<Command>,
    stores: Seq<DbView>,
    replies: Seq<Result<Seq<char>, Seq<char>>>,
    row: GradeView,
    i: int,
)
    requires
        is_run(cmds, stores, replies),
        holds_row(stores[1].grades, row),
        forall|j: int| 1 <= j < cmds.len() ==> !touches_grade(#[trigger] cmds[j], row.student_email, row.subject, row.quarter),
        1 <= i < stores.len(),
    ensures
        holds_row(stores[i].grades, row),
    decreases i,
{
    if i > 1 {
        lemma_row_in_run(cmds, stores, replies, row, i - 1);
        assert(step(stores[i - 1], cmds[i - 1], stores[i], replies[i - 1]));
        assert(!touches_grade(cmds[i - 1], row.student_email, row.subject, row.quarter));
        lemma_row_survives_step(stores[i - 1], cmds[i - 1], stores[i], replies[i - 1], row);
    }
}

/// Where the table holds a row, the query for its student, subject and quarter lists
/// that row alone.
proof fn lemma_listing_of_held_row(grades: Seq<GradeView>, last_id: int, row: GradeView, records: Seq<GradeRecordView>)
    requires
        grades_wf(grades, last_id),
        holds_row(grades, row),
        is_grade_listing(grades, row.student_email, Some(row.subject), Some(row.quarter), records),
    ensures
        records == seq![record_of(row)],
{
    let p = choose|p: int| 0 <= p < grades.len() && #[trigger] grades[p] == row;
    let email = row.student_email;
    let subject = row.subject;
    let quarter = row.quarter;
    let pos = choose|pos: Seq<usize>|
        #![trigger records_at(grades, pos)]
        is_listing(
            |q: int| grade_selected(grades[q], email, Some(subject), Some(quarter)),
            |q: int| grade_order_key(grades[q]),
            grades.len() as int,
            pos,
        ) && records == records_at(grades, pos);
    let key = |q: int| grade_order_key(grades[q]);
    assert forall|k: int| 0 <= k < pos.len() implies #[trigger] pos[k] == p by {
        assert(grade_selected(grades[pos[k] as int], email, Some(subject), Some(quarter)));
        if pos[k] != p {
            assert(!same_grade_key(grades[pos[k] as int], grades[p]));
        }
    }
    assert(grade_selected(grades[p], email, Some(subject), Some(quarter)));
    assert(lists(pos, p));
    if pos.len() >= 2 {
        assert(listed_before(key, pos[0] as int, pos[1] as int));
        lemma_listed_before_strict(key, p, p);
    }
    assert(records =~= seq![record_of(row)]);
}

/// After grades are saved, the query for that student, subject and quarter returns the
/// saved grades alone, however many commands follow, as long as none of them saves or
/// deletes the grades of that student, subject and quarter; the row carries the id of
/// the student and the `DATETIME` text of the clock reading of the save.
pub proof fn law_grades_read_back_through_a_run(
    cmds: Seq<Command>,
    stores: Seq<DbView>,
    replies: Seq<Result<Seq<char>, Seq<char>>>,
    email: Seq<char>,
    subject: Seq<char>,
    quarter: Seq<char>,
    written_works: Seq<u64>,
    performance_tasks: Seq<u64>,
    quarterly_assessment: u64,
    final_grade: u64,
    reading: Result<(u64, u32), (u64, u32)>,
    records: Seq<GradeRecordView>,
)
    requires
        is_run(cmds, stores, replies),
        db_wf(stores[0]),
        cmds.len() >= 1,
        cmds[0] == (Command::SaveGrades {
            email,
            subject,
            quarter,
            written_works,
            performance_tasks,
            quarterly_assessment,
            final_grade,
            reading,
        }),
        replies[0] is Ok,
        forall|i: int| 1 <= i < cmds.len() ==> !touches_grade(#[trigger] cmds[i], email, subject, quarter),
        is_grade_listing(stores.last().grades, email, Some(subject), Some(quarter), records),
    ensures
        clock_stamp(reading) is Some,
        records == seq![
            record_of(
                new_grade(
                    stores[0].last_grade_id + 1,
                    user_by_email_role(stores[0].users, email, student_role())->Some_0.id,
                    email,
                    subject,
                    quarter,
                    written_works,
                    performance_tasks,
                    quarterly_assessment,
                    final_grade,
                    clock_stamp(reading)->Some_0,
                ),
            ),
        ],
{
    let db0 = stores[0];
    assert(step(db0, cmds[0], stores[1], replies[0]));
    let now = clock_stamp(reading)->Some_0;
    let u = user_by_email_role(db0.users, email, student_role())->Some_0;
    let ng = new_grade(db0.last_grade_id + 1, u.id, email, subject, quarter, written_works, performance_tasks, quarterly_assessment, final_grade, now);
    let w = without_grade_key(db0.grades, email, subject, quarter);
    assert(stores[1].grades == w.push(ng));
    assert(stores[1].grades[w.len() as int] == ng);
    assert(holds_row(stores[1].grades, ng));
    let last = stores.len() - 1;
    lemma_row_in_run(cmds, stores, replies, ng, last);
    law_run_keeps_wf(cmds, stores, replies, last);
    assert(stores.last() == stores[last]);
    lemma_listing_of_held_row(stores[last].grades, stores[last].last_grade_id, ng, records);
}

} // verus!
