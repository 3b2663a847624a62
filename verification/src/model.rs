//! The stored tables: users and grades, their rows, and the invariant that the
//! table constraints (primary keys, `UNIQUE` columns, `AUTOINCREMENT` counters) keep.

use vstd::prelude::*;
use crate::text::text_eq;


verus! {

/// A text column that may hold `NULL`, taken by its characters.
pub open spec fn opt_text(o: Option<String>) -> Option<Seq<char>> {
    match o {
        Some(s) => Some(s@),
        None => None,
    }
}

/// The characters of a nullable text column, `NULL` read as the empty text.
pub open spec fn text_or_empty(o: Option<Seq<char>>) -> Seq<char> {
    match o {
        Some(s) => s,
        None => Seq::empty(),
    }
}

/// A row of the `users` table. `password` holds the bcrypt hash of the password.
pub struct UserRow {
    pub id: i64,
    pub email: String,
    pub password: String,
    pub role: String,
    pub firstname: Option<String>,
    pub lastname: Option<String>,
}

/// The value of a `users` row.
pub struct UserView {
    pub id: int,
    pub email: Seq<char>,
    pub password: Seq<char>,
    pub role: Seq<char>,
    pub firstname: Option<Seq<char>>,
    pub lastname: Option<Seq<char>>,
}

impl View for UserRow {
    type V = UserView;

    open spec fn view(&self) -> UserView {
        UserView {
            id: self.id as int,
            email: self.email@,
            password: self.password@,
            role: self.role@,
            firstname: opt_text(self.firstname),
            lastname: opt_text(self.lastname),
        }
    }
}

/// A row of the `grades` table. Scores are kept as the bit patterns of the `f64`
/// values that the teacher entered; timestamps are SQL `DATETIME` texts.
pub struct GradeRow {
    pub id: i64,
    pub student_id: i64,
    pub student_email: String,
    pub subject: String,
    pub quarter: String,
    pub written_works: Vec<u64>,
    pub performance_tasks: Vec<u64>,
    pub quarterly_assessment: u64,
    pub final_grade: u64,
    pub created_at: String,
    pub updated_at: String,
}

/// The value of a `grades` row.
pub struct GradeView {
    pub id: int,
    pub student_id: int,
    pub student_email: Seq<char>,
    pub subject: Seq<char>,
    pub quarter: Seq<char>,
    pub written_works: Seq<u64>,
    pub performance_tasks: Seq<u64>,
    pub quarterly_assessment: u64,
    pub final_grade: u64,
    pub created_at: Seq<char>,
    pub updated_at: Seq<char>,
}

impl View for GradeRow {
    type V = GradeView;

    open spec fn view(&self) -> GradeView {
        GradeView {
            id: self.id as int,
            student_id: self.student_id as int,
            student_email: self.student_email@,
            subject: self.subject@,
            quarter: self.quarter@,
            written_works: self.written_works@,
            performance_tasks: self.performance_tasks@,
            quarterly_assessment: self.quarterly_assessment,
            final_grade: self.final_grade,
            created_at: self.created_at@,
            updated_at: self.updated_at@,
        }
    }
}

/// The whole store: both tables and the last ids that `AUTOINCREMENT` handed out.
pub struct Database {
    pub(crate) users: Vec<UserRow>,
    pub(crate) grades: Vec<GradeRow>,
    pub(crate) last_user_id: i64,
    pub(crate) last_grade_id: i64,
}

/// The value of the store.
pub struct DbView {
    pub users: Seq<UserView>,
    pub grades: Seq<GradeView>,
    pub last_user_id: int,
    pub last_grade_id: int,
}

impl View for Database {
    type V = DbView;

    closed spec fn view(&self) -> DbView {
        DbView {
            users: self.users@.map_values(|u: UserRow| u@),
            grades: self.grades@.map_values(|g: GradeRow| g@),
            last_user_id: self.last_user_id as int,
            last_grade_id: self.last_grade_id as int,
        }
    }
}

/// The constraints of the `users` table: positive ids up to the last one handed out,
/// no id twice (`PRIMARY KEY`), no email twice (`UNIQUE`).
pub open spec fn users_wf(users: Seq<UserView>, last_id: int) -> bool {
    &&& 0 <= last_id <= i64::MAX
    &&& forall|i: int| 0 <= i < users.len() ==> 1 <= #[trigger] users[i].id <= last_id
    &&& forall|i: int, j: int|
        #![trigger users[i], users[j]]
        0 <= i < users.len() && 0 <= j < users.len() && i != j ==> users[i].id != users[j].id
            && users[i].email != users[j].email
}

/// The key of `UNIQUE(student_email, subject, quarter)`.
pub open spec fn same_grade_key(a: GradeView, b: GradeView) -> bool {
    a.student_email == b.student_email && a.subject == b.subject && a.quarter == b.quarter
}

/// The constraints of the `grades` table: positive ids up to the last one handed out,
/// no id twice, no (student, subject, quarter) twice.
pub open spec fn grades_wf(grades: Seq<GradeView>, last_id: int) -> bool {
    &&& 0 <= last_id <= i64::MAX
    &&& forall|i: int| 0 <= i < grades.len() ==> 1 <= #[trigger] grades[i].id <= last_id
    &&& forall|i: int, j: int|
        #![trigger grades[i], grades[j]]
        0 <= i < grades.len() && 0 <= j < grades.len() && i != j ==> grades[i].id != grades[j].id
            && !same_grade_key(grades[i], grades[j])
}

pub open spec fn db_wf(db: DbView) -> bool {
    users_wf(db.users, db.last_user_id) && grades_wf(db.grades, db.last_grade_id)
}

/// Some user has this email.
pub open spec fn has_user(users: Seq<UserView>, email: Seq<char>) -> bool {
    exists|i: int| 0 <= i < users.len() && #[trigger] users[i].email == email
}

/// The position of the user with this email (there is at most one).
pub open spec fn user_position(users: Seq<UserView>, email: Seq<char>) -> int {
    choose|i: int| 0 <= i < users.len() && #[trigger] users[i].email == email
}

/// The user with this email, if any.
pub open spec fn user_by_email(users: Seq<UserView>, email: Seq<char>) -> Option<UserView> {
    if has_user(users, email) {
        Some(users[user_position(users, email)])
    } else {
        None
    }
}

/// The user with this email and this role, if any.
pub open spec fn user_by_email_role(users: Seq<UserView>, email: Seq<char>, role: Seq<char>) -> Option<
    UserView,
> {
    match user_by_email(users, email) {
        Some(u) => if u.role == role {
            Some(u)
        } else {
            None
        },
        None => None,
    }
}

/// A reply of a command: a message on success, an error message otherwise.
pub open spec fn reply_view(r: Result<String, String>) -> Result<Seq<char>, Seq<char>> {
    match r {
        Ok(m) => Ok(m@),
        Err(e) => Err(e@),
    }
}

/// The role that the grade queries admit.
pub open spec fn student_role() -> Seq<char> {
    "student"@
}

pub fn student_role_text() -> (r: &'static str)
    ensures
        r@ == student_role(),
{
    "student"
}

impl Database {
    /// The table constraints hold.
    pub open spec fn wf(&self) -> bool {
        db_wf(self@)
    }

    pub(crate) proof fn lemma_view(&self)
        ensures
            self@.users == self.users@.map_values(|u: UserRow| u@),
            self@.grades == self.grades@.map_values(|g: GradeRow| g@),
            self@.last_user_id == self.last_user_id as int,
            self@.last_grade_id == self.last_grade_id as int,
    {
    }

    /// An empty store, as a fresh database file holds it.
    pub fn new() -> (db: Database)
        ensures
            db.wf(),
            db@.users == Seq::<UserView>::empty(),
            db@.grades == Seq::<GradeView>::empty(),
            db@.last_user_id == 0,
            db@.last_grade_id == 0,
    {
        let db = Database { users: Vec::new(), grades: Vec::new(), last_user_id: 0, last_grade_id: 0 };
        assert(db@.users =~= Seq::<UserView>::empty());
        assert(db@.grades =~= Seq::<GradeView>::empty());
        db
    }

    /// The position of the user with this email, if there is one.
    pub(crate) fn find_user(&self, email: &str) -> (r: Option<usize>)
        requires
            self.wf(),
        ensures
            match r {
                Some(i) => i < self@.users.len() && user_by_email(self@.users, email@) == Some(
                    self@.users[i as int],
                ) && user_position(self@.users, email@) == i,
                None => user_by_email(self@.users, email@) is None,
            },
    {
        let ghost uv = self@.users;
        let n = self.users.len();
        let mut i: usize = 0;
        while i < n
            invariant
                n == self.users.len(),
                uv == self.users@.map_values(|u: UserRow| u@),
                uv == self@.users,
                self.wf(),
                i <= n,
                forall|j: int| 0 <= j < i ==> uv[j].email != email@,
            decreases n - i,
        {
            if text_eq(self.users[i].email.as_str(), email) {
                proof {
                    assert(uv[i as int].email == email@);
                    assert(has_user(uv, email@));
                    let j = user_position(uv, email@);
                    assert(uv[j].email == email@);
                    if j != i {
                        assert(uv[j].email != uv[i as int].email);
                    }
                }
                return Some(i);
            }
            i = i + 1;
        }
        None
    }

    /// The rows of the `users` table, in storage order.
    pub fn users(&self) -> (r: &Vec<UserRow>)
        ensures
            r@.map_values(|u: UserRow| u@) == self@.users,
    {
        &self.users
    }

    /// The rows of the `grades` table, in storage order.
    pub fn grades(&self) -> (r: &Vec<GradeRow>)
        ensures
            r@.map_values(|g: GradeRow| g@) == self@.grades,
    {
        &self.grades
    }

    /// The last id handed out in the `users` table.
    pub fn last_user_id(&self) -> (r: i64)
        ensures
            r == self@.last_user_id,
    {
        self.last_user_id
    }

    /// The last id handed out in the `grades` table.
    pub fn last_grade_id(&self) -> (r: i64)
        ensures
            r == self@.last_grade_id,
    {
        self.last_grade_id
    }
}

/// Whether the rows keep the constraints of the `users` table.
fn users_valid(users: &Vec<UserRow>, last_id: i64) -> (r: bool)
    ensures
        r == users_wf(users@.map_values(|u: UserRow| u@), last_id as int),
{
    let ghost uv = users@.map_values(|u: UserRow| u@);
    if last_id < 0 {
        return false;
    }
    let n = users.len();
    let mut i: usize = 0;
    while i < n
        invariant
            n == users.len(),
            uv == users@.map_values(|u: UserRow| u@),
            0 <= last_id,
            i <= n,
            forall|a: int| 0 <= a < i ==> 1 <= #[trigger] uv[a].id <= last_id,
            forall|a: int, b: int|
                #![trigger uv[a], uv[b]]
                0 <= a < i && 0 <= b < n && a != b ==> uv[a].id != uv[b].id && uv[a].email != uv[b].email,
        decreases n - i,
    {
        if users[i].id < 1 || users[i].id > last_id {
            assert(!(1 <= uv[i as int].id <= last_id));
            return false;
        }
        let mut j: usize = 0;
        while j < n
            invariant
                n == users.len(),
                uv == users@.map_values(|u: UserRow| u@),
                i < n,
                j <= n,
                forall|b: int|
                    #![trigger uv[b]]
                    0 <= b < j && b != i ==> uv[i as int].id != uv[b].id && uv[i as int].email != uv[b].email,
            decreases n - j,
        {
            if j != i && (users[i].id == users[j].id || text_eq(users[i].email.as_str(), users[j].email.as_str())) {
                assert(uv[i as int].id == uv[j as int].id || uv[i as int].email == uv[j as int].email);
                return false;
            }
            j = j + 1;
        }
        proof {
            assert forall|a: int, b: int|
                #![trigger uv[a], uv[b]]
                0 <= a < i + 1 && 0 <= b < n && a != b implies uv[a].id != uv[b].id && uv[a].email != uv[b].email by {
                if a == i {
                    assert(uv[i as int].id != uv[b].id);
                }
            }
        }
        i = i + 1;
    }
    true
}

/// Whether the rows keep the constraints of the `grades` table.
fn grades_valid(grades: &Vec<GradeRow>, last_id: i64) -> (r: bool)
    ensures
        r == grades_wf(grades@.map_values(|g: GradeRow| g@), last_id as int),
{
    let ghost gv = grades@.map_values(|g: GradeRow| g@);
    if last_id < 0 {
        return false;
    }
    let n = grades.len();
    let mut i: usize = 0;
    while i < n
        invariant
            n == grades.len(),
            gv == grades@.map_values(|g: GradeRow| g@),
            0 <= last_id,
            i <= n,
            forall|a: int| 0 <= a < i ==> 1 <= #[trigger] gv[a].id <= last_id,
            forall|a: int, b: int|
                #![trigger gv[a], gv[b]]
                0 <= a < i && 0 <= b < n && a != b ==> gv[a].id != gv[b].id && !same_grade_key(gv[a], gv[b]),
        decreases n - i,
    {
        if grades[i].id < 1 || grades[i].id > last_id {
            assert(!(1 <= gv[i as int].id <= last_id));
            return false;
        }
        let mut j: usize = 0;
        while j < n
            invariant
                n == grades.len(),
                gv == grades@.map_values(|g: GradeRow| g@),
                i < n,
                j <= n,
                forall|b: int|
                    #![trigger gv[b]]
                    0 <= b < j && b != i ==> gv[i as int].id != gv[b].id && !same_grade_key(gv[i as int], gv[b]),
            decreases n - j,
        {
            if j != i && (grades[i].id == grades[j].id || (text_eq(
                grades[i].student_email.as_str(),
                grades[j].student_email.as_str(),
            ) && text_eq(grades[i].subject.as_str(), grades[j].subject.as_str()) && text_eq(
                grades[i].quarter.as_str(),
                grades[j].quarter.as_str(),
            ))) {
                assert(gv[i as int].id == gv[j as int].id || same_grade_key(gv[i as int], gv[j as int]));
                return false;
            }
            j = j + 1;
        }
        proof {
            assert forall|a: int, b: int|
                #![trigger gv[a], gv[b]]
                0 <= a < i + 1 && 0 <= b < n && a != b implies gv[a].id != gv[b].id && !same_grade_key(gv[a], gv[b]) by {
                if a == i {
                    assert(gv[i as int].id != gv[b].id);
                }
            }
        }
        i = i + 1;
    }
    true
}

impl Database {
    /// A store holding these rows and counters, if they keep the table constraints
    /// (as the rows read back from a database file do).
    pub fn from_rows(users: Vec<UserRow>, grades: Vec<GradeRow>, last_user_id: i64, last_grade_id: i64) -> (r:
        Option<Database>)
        ensures
            match r {
                Some(db) => db.wf() && db@ == (DbView {
                    users: users@.map_values(|u: UserRow| u@),
                    grades: grades@.map_values(|g: GradeRow| g@),
                    last_user_id: last_user_id as int,
                    last_grade_id: last_grade_id as int,
                }),
                None => !db_wf(
                    DbView {
                        users: users@.map_values(|u: UserRow| u@),
                        grades: grades@.map_values(|g: GradeRow| g@),
                        last_user_id: last_user_id as int,
                        last_grade_id: last_grade_id as int,
                    },
                ),
            },
    {
        if users_valid(&users, last_user_id) && grades_valid(&grades, last_grade_id) {
            Some(Database { users, grades, last_user_id, last_grade_id })
        } else {
            None
        }
    }
}

} // verus!
