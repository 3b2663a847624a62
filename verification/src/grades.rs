//! The grade book: saving a quarter's grades, listing them, the subjects of a
//! student, and deleting grades.

use vstd::prelude::*;
use crate::model::{Database, DbView, GradeRow, GradeView, opt_text, reply_view, user_by_email_role, student_role, student_role_text, db_wf, same_grade_key};
use vstd::string::*;
use crate::sorting::{SortKey, key_view, arrange, is_listing, lists, lemma_key_lt_total, unordered_key};
use crate::text::{text_eq, text_less, text_lt, decimal_digits, push_decimal, lemma_text_lt_total, lemma_text_lt_transitive};
use crate::clock::{system_now, since_unix_epoch, unix_seconds, reading_seconds};
use crate::datetime::{sql_datetime, sql_datetime_text, in_datetime_range};

verus! {

/// One stored grade as the grade queries report it.
pub struct GradeRecord {
    pub student_id: i64,
    pub student_email: String,
    pub subject: String,
    pub quarter: String,
    pub written_works: Vec<u64>,
    pub performance_tasks: Vec<u64>,
    pub quarterly_assessment: u64,
    pub final_grade: u64,
    pub created_at: String,
}

pub struct GradeRecordView {
    pub student_id: int,
    pub student_email: Seq<char>,
    pub subject: Seq<char>,
    pub quarter: Seq<char>,
    pub written_works: Seq<u64>,
    pub performance_tasks: Seq<u64>,
    pub quarterly_assessment: u64,
    pub final_grade: u64,
    pub created_at: Seq<char>,
}

impl View for GradeRecord {
    type V = GradeRecordView;

    open spec fn view(&self) -> GradeRecordView {
        GradeRecordView {
            student_id: self.student_id as int,
            student_email: self.student_email@,
            subject: self.subject@,
            quarter: self.quarter@,
            written_works: self.written_works@,
            performance_tasks: self.performance_tasks@,
            quarterly_assessment: self.quarterly_assessment,
            final_grade: self.final_grade,
            created_at: self.created_at@,
        }
    }
}

/// The record that a grade query reports for a stored row.
pub open spec fn record_of(g: GradeView) -> GradeRecordView {
    GradeRecordView {
        student_id: g.student_id,
        student_email: g.student_email,
        subject: g.subject,
        quarter: g.quarter,
        written_works: g.written_works,
        performance_tasks: g.performance_tasks,
        quarterly_assessment: g.quarterly_assessment,
        final_grade: g.final_grade,
        created_at: g.created_at,
    }
}

/// An optional `AND column = ?` condition: absent, it admits every value.
pub open spec fn filter_admits(value: Seq<char>, filter: Option<Seq<char>>) -> bool {
    match filter {
        Some(f) => value == f,
        None => true,
    }
}

/// `WHERE student_email = ? [AND subject = ?] [AND quarter = ?]`.
pub open spec fn grade_selected(
    g: GradeView,
    email: Seq<char>,
    subject: Option<Seq<char>>,
    quarter: Option<Seq<char>>,
) -> bool {
    g.student_email == email && filter_admits(g.subject, subject) && filter_admits(g.quarter, quarter)
}

/// `ORDER BY subject, quarter`.
pub open spec fn grade_order_key(g: GradeView) -> (Option<Seq<char>>, Option<Seq<char>>) {
    (Some(g.subject), Some(g.quarter))
}

/// `records` is what the grade query returns on `grades`: the selected rows, each once,
/// ordered by subject and quarter.
pub open spec fn is_grade_listing(
    grades: Seq<GradeView>,
    email: Seq<char>,
    subject: Option<Seq<char>>,
    quarter: Option<Seq<char>>,
    records: Seq<GradeRecordView>,
) -> bool {
    exists|pos: Seq<usize>|
        #![trigger records_at(grades, pos)]
        is_listing(
            |p: int| grade_selected(grades[p], email, subject, quarter),
            |p: int| grade_order_key(grades[p]),
            grades.len() as int,
            pos,
        ) && records == records_at(grades, pos)
}

/// The records of the rows at positions `pos`, in that order.
pub open spec fn records_at(grades: Seq<GradeView>, pos: Seq<usize>) -> Seq<GradeRecordView> {
    pos.map_values(|p: usize| record_of(grades[p as int]))
}

fn filter_admits_text(value: &String, filter: &Option<String>) -> (r: bool)
    ensures
        r == filter_admits(value@, opt_text(*filter)),
{
    match filter {
        Some(f) => text_eq(value.as_str(), f.as_str()),
        None => true,
    }
}

fn grade_matches(g: &GradeRow, email: &String, subject: &Option<String>, quarter: &Option<String>) -> (r:
    bool)
    ensures
        r == grade_selected(g@, email@, opt_text(*subject), opt_text(*quarter)),
{
    text_eq(g.student_email.as_str(), email.as_str()) && filter_admits_text(&g.subject, subject)
        && filter_admits_text(&g.quarter, quarter)
}

pub(crate) fn copy_scores(v: &Vec<u64>) -> (r: Vec<u64>)
    ensures
        r@ == v@,
{
    let mut r: Vec<u64> = Vec::new();
    let mut i: usize = 0;
    while i < v.len()
        invariant
            i <= v.len(),
            r@ == v@.subrange(0, i as int),
        decreases v.len() - i,
    {
        r.push(v[i]);
        i = i + 1;
        assert(r@ =~= v@.subrange(0, i as int));
    }
    assert(v@.subrange(0, v.len() as int) =~= v@);
    r
}

fn record_from(g: &GradeRow) -> (r: GradeRecord)
    ensures
        r@ == record_of(g@),
{
    GradeRecord {
        student_id: g.student_id,
        student_email: g.student_email.clone(),
        subject: g.subject.clone(),
        quarter: g.quarter.clone(),
        written_works: copy_scores(&g.written_works),
        performance_tasks: copy_scores(&g.performance_tasks),
        quarterly_assessment: g.quarterly_assessment,
        final_grade: g.final_grade,
        created_at: g.created_at.clone(),
    }
}

/// The reply when the clock cannot stamp a save: "Student not found" unless a student
/// has this email, the clock error otherwise.
pub open spec fn clock_refusal(db: DbView, email: Seq<char>) -> Result<Seq<char>, Seq<char>> {
    if user_by_email_role(db.users, email, student_role()) is None {
        Err("Student not found"@)
    } else {
        Err("Failed to save grades: the clock is outside the years 0000 to 9999"@)
    }
}

/// The `DATETIME` text of a clock reading, when its time lies in the years 0000 to 9999.
pub open spec fn clock_stamp(reading: Result<(u64, u32), (u64, u32)>) -> Option<Seq<char>> {
    if in_datetime_range(reading_seconds(reading)) {
        Some(sql_datetime_text(reading_seconds(reading)))
    } else {
        None
    }
}

/// The store and the reply after saving grades at the clock reading `reading`.
pub open spec fn save_with_clock_outcome(
    db: DbView,
    reading: Result<(u64, u32), (u64, u32)>,
    email: Seq<char>,
    subject: Seq<char>,
    quarter: Seq<char>,
    written_works: Seq<u64>,
    performance_tasks: Seq<u64>,
    quarterly_assessment: u64,
    final_grade: u64,
) -> (DbView, Result<Seq<char>, Seq<char>>) {
    match clock_stamp(reading) {
        Some(now) => save_grades_outcome(
            db,
            email,
            subject,
            quarter,
            written_works,
            performance_tasks,
            quarterly_assessment,
            final_grade,
            now,
        ),
        None => (db, clock_refusal(db, email)),
    }
}

/// A row with this (student, subject, quarter) is stored.
pub open spec fn has_grade_key(grades: Seq<GradeView>, email: Seq<char>, subject: Seq<char>, quarter: Seq<char>) -> bool {
    exists|i: int|
        0 <= i < grades.len() && #[trigger] grades[i].student_email == email && grades[i].subject == subject
            && grades[i].quarter == quarter
}

/// The position of the row with this (student, subject, quarter).
pub open spec fn grade_key_position(
    grades: Seq<GradeView>,
    email: Seq<char>,
    subject: Seq<char>,
    quarter: Seq<char>,
) -> int {
    choose|i: int|
        0 <= i < grades.len() && #[trigger] grades[i].student_email == email && grades[i].subject == subject
            && grades[i].quarter == quarter
}

/// The table without the row of this (student, subject, quarter), as `INSERT OR REPLACE` clears it.
pub open spec fn without_grade_key(
    grades: Seq<GradeView>,
    email: Seq<char>,
    subject: Seq<char>,
    quarter: Seq<char>,
) -> Seq<GradeView> {
    if has_grade_key(grades, email, subject, quarter) {
        grades.remove(grade_key_position(grades, email, subject, quarter))
    } else {
        grades
    }
}

/// The row that saving a quarter's grades stores.
pub open spec fn new_grade(
    id: int,
    student_id: int,
    email: Seq<char>,
    subject: Seq<char>,
    quarter: Seq<char>,
    written_works: Seq<u64>,
    performance_tasks: Seq<u64>,
    quarterly_assessment: u64,
    final_grade: u64,
    now: Seq<char>,
) -> GradeView {
    GradeView {
        id,
        student_id,
        student_email: email,
        subject,
        quarter,
        written_works,
        performance_tasks,
        quarterly_assessment,
        final_grade,
        created_at: now,
        updated_at: now,
    }
}

/// The store and the reply after saving a quarter's grades of a student at time `now`:
/// refused unless a user with this email has the student role; refused when the grade
/// ids are used up; otherwise the row of that subject and quarter, if any, is replaced
/// by a new row with the next id.
pub open spec fn save_grades_outcome(
    db: DbView,
    email: Seq<char>,
    subject: Seq<char>,
    quarter: Seq<char>,
    written_works: Seq<u64>,
    performance_tasks: Seq<u64>,
    quarterly_assessment: u64,
    final_grade: u64,
    now: Seq<char>,
) -> (DbView, Result<Seq<char>, Seq<char>>) {
    match user_by_email_role(db.users, email, student_role()) {
        None => (db, Err("Student not found"@)),
        Some(u) => if db.last_grade_id >= i64::MAX {
            (db, Err("Failed to save grades: database or disk is full"@))
        } else {
            (
                DbView {
                    grades: without_grade_key(db.grades, email, subject, quarter).push(
                        new_grade(
                            db.last_grade_id + 1,
                            u.id,
                            email,
                            subject,
                            quarter,
                            written_works,
                            performance_tasks,
                            quarterly_assessment,
                            final_grade,
                            now,
                        ),
                    ),
                    last_grade_id: db.last_grade_id + 1,
                    ..db
                },
                Ok("Grades saved successfully"@),
            )
        },
    }
}

impl Database {
    /// The position of the row with this (student, subject, quarter), if there is one.
    fn find_grade_key(&self, email: &String, subject: &String, quarter: &String) -> (r: Option<usize>)
        requires
            self.wf(),
        ensures
            match r {
                Some(k) => k < self@.grades.len() && has_grade_key(self@.grades, email@, subject@, quarter@)
                    && grade_key_position(self@.grades, email@, subject@, quarter@) == k,
                None => !has_grade_key(self@.grades, email@, subject@, quarter@),
            },
    {
        proof {
            self.lemma_view();
        }
        let ghost gv = self@.grades;
        let n = self.grades.len();
        let mut i: usize = 0;
        while i < n
            invariant
                n == self.grades.len(),
                gv == self.grades@.map_values(|g: GradeRow| g@),
                gv == self@.grades,
                self.wf(),
                i <= n,
                forall|j: int|
                    0 <= j < i ==> !(#[trigger] gv[j].student_email == email@ && gv[j].subject == subject@
                        && gv[j].quarter == quarter@),
            decreases n - i,
        {
            let g = &self.grades[i];
            if text_eq(g.student_email.as_str(), email.as_str()) && text_eq(g.subject.as_str(), subject.as_str())
                && text_eq(g.quarter.as_str(), quarter.as_str()) {
                proof {
                    assert(gv[i as int].student_email == email@);
                    assert(has_grade_key(gv, email@, subject@, quarter@));
                    let j = grade_key_position(gv, email@, subject@, quarter@);
                    assert(gv[j].student_email == email@);
                    if j != i {
                        assert(!same_grade_key(gv[j], gv[i as int]));
                    }
                }
                return Some(i);
            }
            i = i + 1;
        }
        None
    }

    /// Saves a quarter's grades of a student at time `now` (`INSERT OR REPLACE`).
    pub fn save_student_grades_at(
        &mut self,
        student_email: String,
        subject: String,
        quarter: String,
        written_works: Vec<u64>,
        performance_tasks: Vec<u64>,
        quarterly_assessment: u64,
        final_grade: u64,
        now: String,
    ) -> (res: Result<String, String>)
        requires
            old(self).wf(),
        ensures
            final(self).wf(),
            (final(self)@, reply_view(res)) == save_grades_outcome(
                old(self)@,
                student_email@,
                subject@,
                quarter@,
                written_works@,
                performance_tasks@,
                quarterly_assessment,
                final_grade,
                now@,
            ),
    {
        proof {
            self.lemma_view();
        }
        let ghost old_db = self@;
        let found = self.find_user(student_email.as_str());
        let student_id = match found {
            Some(i) => {
                if text_eq(self.users[i].role.as_str(), student_role_text()) {
                    self.users[i].id
                } else {
                    return Err(String::from_str("Student not found"));
                }
            },
            None => {
                return Err(String::from_str("Student not found"));
            },
        };
        if self.last_grade_id == i64::MAX {
            return Err(String::from_str("Failed to save grades: database or disk is full"));
        }
        let conflict = self.find_grade_key(&student_email, &subject, &quarter);
        let ghost w = without_grade_key(old_db.grades, student_email@, subject@, quarter@);
        match conflict {
            Some(k) => {
                self.grades.remove(k);
                proof {
                    self.lemma_view();
                    assert(self@.grades =~= w);
                }
            },
            None => {
                proof {
                    self.lemma_view();
                    assert(self@.grades =~= w);
                }
            },
        }
        let id = self.last_grade_id + 1;
        let ghost ng = new_grade(
            id as int,
            student_id as int,
            student_email@,
            subject@,
            quarter@,
            written_works@,
            performance_tasks@,
            quarterly_assessment,
            final_grade,
            now@,
        );
        let row = GradeRow {
            id,
            student_id,
            student_email,
            subject,
            quarter,
            written_works,
            performance_tasks,
            quarterly_assessment,
            final_grade,
            created_at: now.clone(),
            updated_at: now,
        };
        assert(row@ == ng);
        self.grades.push(row);
        self.last_grade_id = id;
        proof {
            self.lemma_view();
            assert(self@.grades =~= w.push(ng));
            assert forall|j: int| 0 <= j < w.len() implies (#[trigger] w[j]).id <= old_db.last_grade_id
                && !same_grade_key(w[j], ng) by {
                let og = old_db.grades;
                if has_grade_key(og, ng.student_email, ng.subject, ng.quarter) {
                    let k = grade_key_position(og, ng.student_email, ng.subject, ng.quarter);
                    let oj = if j < k { j } else { j + 1 };
                    assert(w[j] == og[oj]);
                    assert(og[k].student_email == ng.student_email);
                    assert(oj != k);
                    assert(!same_grade_key(og[oj], og[k]));
                } else {
                    assert(w[j] == og[j]);
                    if same_grade_key(w[j], ng) {
                        assert(og[j].student_email == ng.student_email);
                    }
                }
            }
            assert forall|a: int, b: int|
                #![trigger w[a], w[b]]
                0 <= a < w.len() && 0 <= b < w.len() && a != b implies w[a].id != w[b].id
                && !same_grade_key(w[a], w[b]) by {
                let og = old_db.grades;
                if has_grade_key(og, ng.student_email, ng.subject, ng.quarter) {
                    let k = grade_key_position(og, ng.student_email, ng.subject, ng.quarter);
                    let oa = if a < k { a } else { a + 1 };
                    let ob = if b < k { b } else { b + 1 };
                    assert(w[a] == og[oa] && w[b] == og[ob]);
                } else {
                    assert(w[a] == og[a] && w[b] == og[b]);
                }
            }
            assert(db_wf(self@));
        }
        Ok(String::from_str("Grades saved successfully"))
    }

    /// The grades of a student, narrowed to a subject and a quarter where they are given,
    /// ordered by subject, then quarter.
    pub fn get_student_grades(
        &self,
        student_email: String,
        subject: Option<String>,
        quarter: Option<String>,
    ) -> (res: Vec<GradeRecord>)
        ensures
            is_grade_listing(
                self@.grades,
                student_email@,
                opt_text(subject),
                opt_text(quarter),
                res@.map_values(|r: GradeRecord| r@),
            ),
    {
        proof {
            self.lemma_view();
        }
        let ghost gv = self@.grades;
        let ghost email = student_email@;
        let ghost subj = opt_text(subject);
        let ghost qtr = opt_text(quarter);
        let ghost selected = |p: int| grade_selected(gv[p], email, subj, qtr);
        let ghost key = |p: int| grade_order_key(gv[p]);
        let n = self.grades.len();
        let mut sel: Vec<usize> = Vec::new();
        let mut keys: Vec<SortKey> = Vec::new();
        let mut i: usize = 0;
        while i < n
            invariant
                n == self.grades.len(),
                gv == self.grades@.map_values(|g: GradeRow| g@),
                i <= n,
                keys.len() == sel.len(),
                forall|x: int| 0 <= x < sel.len() ==> 0 <= #[trigger] sel@[x] < i && selected(sel@[x] as int),
                forall|x: int, y: int| 0 <= x < y < sel.len() ==> #[trigger] sel@[x] < #[trigger] sel@[y],
                forall|p: int| 0 <= p < i && selected(p) ==> #[trigger] lists(sel@, p),
                forall|x: int| 0 <= x < sel.len() ==> key_view(#[trigger] keys@[x]) == key(sel@[x] as int),
                selected == (|p: int| grade_selected(gv[p], email, subj, qtr)),
                key == (|p: int| grade_order_key(gv[p])),
                email == student_email@,
                subj == opt_text(subject),
                qtr == opt_text(quarter),
            decreases n - i,
        {
            let g = &self.grades[i];
            if grade_matches(g, &student_email, &subject, &quarter) {
                let ghost old_sel = sel@;
                sel.push(i);
                keys.push(SortKey { first: Some(g.subject.clone()), second: Some(g.quarter.clone()) });
                proof {
                    assert forall|p: int| 0 <= p < i + 1 && selected(p) implies #[trigger] lists(sel@, p) by {
                        if p == i {
                            assert(sel@[old_sel.len() as int] == p);
                        } else {
                            assert(lists(old_sel, p));
                            let k = choose|k: int| 0 <= k < old_sel.len() && old_sel[k] == p;
                            assert(sel@[k] == p);
                        }
                    }
                }
            } else {
                proof {
                    assert forall|p: int| 0 <= p < i + 1 && selected(p) implies #[trigger] lists(sel@, p) by {
                        if p == i {
                            assert(!selected(p));
                        }
                    }
                }
            }
            i = i + 1;
        }
        let pos = arrange(&sel, &keys, Ghost(selected), Ghost(key), Ghost(n as int));
        let mut res: Vec<GradeRecord> = Vec::new();
        let mut k: usize = 0;
        while k < pos.len()
            invariant
                n == self.grades.len(),
                gv == self.grades@.map_values(|g: GradeRow| g@),
                is_listing(selected, key, n as int, pos@),
                k <= pos.len(),
                res.len() == k,
                forall|j: int| 0 <= j < k ==> (#[trigger] res@[j])@ == record_of(gv[pos@[j] as int]),
            decreases pos.len() - k,
        {
            res.push(record_from(&self.grades[pos[k]]));
            k = k + 1;
        }
        proof {
            assert(res@.map_values(|r: GradeRecord| r@) =~= records_at(gv, pos@));
        }
        res
    }

    /// Saves a quarter's grades of a student, stamped with the `DATETIME` text of the clock
    /// reading `reading`. A reading outside the years 0000 to 9999 (which `DATETIME` text
    /// cannot write) saves nothing: a user who is not a student is still answered "Student
    /// not found", anyone else gets the clock error.
    pub fn save_student_grades_with_clock(
        &mut self,
        reading: Result<(u64, u32), (u64, u32)>,
        student_email: String,
        subject: String,
        quarter: String,
        written_works: Vec<u64>,
        performance_tasks: Vec<u64>,
        quarterly_assessment: u64,
        final_grade: u64,
    ) -> (res: Result<String, String>)
        requires
            old(self).wf(),
        ensures
            final(self).wf(),
            (final(self)@, reply_view(res)) == save_with_clock_outcome(
                old(self)@,
                reading,
                student_email@,
                subject@,
                quarter@,
                written_works@,
                performance_tasks@,
                quarterly_assessment,
                final_grade,
            ),
    {
        let stamp = match unix_seconds(reading) {
            Some(t) => sql_datetime(t),
            None => None,
        };
        match stamp {
            Some(now) => {
                self.save_student_grades_at(
                    student_email,
                    subject,
                    quarter,
                    written_works,
                    performance_tasks,
                    quarterly_assessment,
                    final_grade,
                    now,
                )
            },
            None => {
                if self.verify_student_access(student_email) {
                    Err(String::from_str("Failed to save grades: the clock is outside the years 0000 to 9999"))
                } else {
                    Err(String::from_str("Student not found"))
                }
            },
        }
    }

    /// Saves a quarter's grades of a student, stamped with the current time: the system
    /// clock is read and handed to `save_student_grades_with_clock`.
    pub fn save_student_grades(
        &mut self,
        student_email: String,
        subject: String,
        quarter: String,
        written_works: Vec<u64>,
        performance_tasks: Vec<u64>,
        quarterly_assessment: u64,
        final_grade: u64,
    ) -> (res: Result<String, String>)
        requires
            old(self).wf(),
        ensures
            final(self).wf(),
            exists|reading: Result<(u64, u32), (u64, u32)>|
                (final(self)@, reply_view(res)) == #[trigger] save_with_clock_outcome(
                    old(self)@,
                    reading,
                    student_email@,
                    subject@,
                    quarter@,
                    written_works@,
                    performance_tasks@,
                    quarterly_assessment,
                    final_grade,
                ),
    {
        let reading = since_unix_epoch(system_now());
        self.save_student_grades_with_clock(
            reading,
            student_email,
            subject,
            quarter,
            written_works,
            performance_tasks,
            quarterly_assessment,
            final_grade,
        )
    }

    /// Whether a user with this email has the student role.
    pub fn verify_student_access(&self, email: String) -> (r: bool)
        requires
            self.wf(),
        ensures
            r == user_by_email_role(self@.users, email@, student_role()) is Some,
    {
        proof {
            self.lemma_view();
        }
        match self.find_user(email.as_str()) {
            Some(i) => text_eq(self.users[i].role.as_str(), student_role_text()),
            None => false,
        }
    }

    /// The distinct subjects in which a student has grades, in binary-collation order.
    pub fn get_student_subjects(&self, student_email: String) -> (res: Vec<String>)
        ensures
            is_subject_list(self@.grades, student_email@, texts_of(res@)),
    {
        proof {
            self.lemma_view();
        }
        let ghost gv = self@.grades;
        let ghost email = student_email@;
        let n = self.grades.len();
        let mut res: Vec<String> = Vec::new();
        let mut i: usize = 0;
        while i < n
            invariant
                n == self.grades.len(),
                gv == self.grades@.map_values(|g: GradeRow| g@),
                email == student_email@,
                i <= n,
                forall|a: int, b: int|
                    0 <= a < b < res.len() ==> text_lt(#[trigger] res@[a]@, #[trigger] res@[b]@),
                forall|x: Seq<char>|
                    #[trigger] in_list(texts_of(res@), x) <==> subject_before(gv, email, x, i as int),
            decreases n - i,
        {
            let g = &self.grades[i];
            let ghost old_list = texts_of(res@);
            if text_eq(g.student_email.as_str(), student_email.as_str()) {
                let mut p: usize = 0;
                while p < res.len() && text_less(res[p].as_str(), g.subject.as_str())
                    invariant
                        p <= res.len(),
                        forall|q: int| 0 <= q < p ==> text_lt(#[trigger] res@[q]@, g.subject@),
                    decreases res.len() - p,
                {
                    p = p + 1;
                }
                if p < res.len() && text_eq(res[p].as_str(), g.subject.as_str()) {
                    proof {
                        assert forall|x: Seq<char>|
                            #[trigger] in_list(texts_of(res@), x) <==> subject_before(gv, email, x, i + 1) by {
                            if x == gv[i as int].subject {
                                assert(texts_of(res@)[p as int] == x);
                            }
                            if subject_before(gv, email, x, i + 1) && x != gv[i as int].subject {
                                let j = choose|j: int| 0 <= j < i + 1 && gv[j].student_email == email && #[trigger] gv[j].subject == x;
                                assert(subject_before(gv, email, x, i as int));
                            }
                        }
                    }
                } else {
                    let ghost before = res@;
                    proof {
                        if p < res.len() {
                            lemma_text_lt_total(res@[p as int]@, g.subject@);
                        }
                        assert forall|q: int| p <= q < before.len() implies text_lt(g.subject@, #[trigger] before[q]@) by {
                            lemma_text_lt_total(before[p as int]@, g.subject@);
                            if q > p {
                                lemma_text_lt_transitive(g.subject@, before[p as int]@, before[q]@);
                            }
                        }
                    }
                    res.insert(p, g.subject.clone());
                    proof {
                        assert forall|a: int, b: int|
                            0 <= a < b < res.len() implies text_lt(#[trigger] res@[a]@, #[trigger] res@[b]@) by {
                            if b < p {
                                assert(res@[a] == before[a] && res@[b] == before[b]);
                            } else if b == p {
                                assert(res@[a] == before[a]);
                            } else if a < p {
                                assert(res@[a] == before[a] && res@[b] == before[b - 1]);
                            } else if a == p {
                                assert(res@[b] == before[b - 1]);
                            } else {
                                assert(res@[a] == before[a - 1] && res@[b] == before[b - 1]);
                            }
                        }
                        let new_list = texts_of(res@);
                        assert(new_list =~= old_list.insert(p as int, g.subject@));
                        assert forall|x: Seq<char>|
                            #[trigger] in_list(new_list, x) <==> subject_before(gv, email, x, i + 1) by {
                            if in_list(new_list, x) {
                                let k = choose|k: int| 0 <= k < new_list.len() && new_list[k] == x;
                                if k < p {
                                    assert(old_list[k] == x);
                                    assert(in_list(old_list, x));
                                } else if k > p {
                                    assert(old_list[k - 1] == x);
                                    assert(in_list(old_list, x));
                                } else {
                                    assert(gv[i as int].subject == x);
                                }
                            }
                            if subject_before(gv, email, x, i + 1) {
                                if x == gv[i as int].subject {
                                    assert(new_list[p as int] == x);
                                } else {
                                    let j = choose|j: int| 0 <= j < i + 1 && gv[j].student_email == email && #[trigger] gv[j].subject == x;
                                    assert(subject_before(gv, email, x, i as int));
                                    assert(in_list(old_list, x));
                                    let k = choose|k: int| 0 <= k < old_list.len() && old_list[k] == x;
                                    if k < p {
                                        assert(new_list[k] == x);
                                    } else {
                                        assert(new_list[k + 1] == x);
                                    }
                                }
                            }
                        }
                    }
                }
            } else {
                proof {
                    assert forall|x: Seq<char>|
                        #[trigger] in_list(texts_of(res@), x) <==> subject_before(gv, email, x, i + 1) by {
                        if subject_before(gv, email, x, i + 1) {
                            let j = choose|j: int| 0 <= j < i + 1 && gv[j].student_email == email && #[trigger] gv[j].subject == x;
                            assert(subject_before(gv, email, x, i as int));
                        }
                    }
                }
            }
            i = i + 1;
        }
        proof {
            let l = texts_of(res@);
            assert forall|a: int, b: int| 0 <= a < b < l.len() implies text_lt(#[trigger] l[a], #[trigger] l[b]) by {
                assert(text_lt(res@[a]@, res@[b]@));
            }
            assert forall|x: Seq<char>|
                #[trigger] in_list(l, x) <==> subject_of_student(gv, email, x) by {
                assert(subject_before(gv, email, x, n as int) == subject_of_student(gv, email, x));
            }
        }
        res
    }
}

/// The rows at positions `pos`, in that order.
pub open spec fn rows_at(grades: Seq<GradeView>, pos: Seq<usize>) -> Seq<GradeView> {
    pos.map_values(|p: usize| grades[p as int])
}

/// `remaining` is what `DELETE FROM grades WHERE ...` leaves of `grades`: the rows that
/// the condition does not select, in storage order.
pub open spec fn is_delete_result(
    grades: Seq<GradeView>,
    email: Seq<char>,
    subject: Option<Seq<char>>,
    quarter: Option<Seq<char>>,
    remaining: Seq<GradeView>,
) -> bool {
    exists|pos: Seq<usize>|
        #![trigger rows_at(grades, pos)]
        is_listing(
            |p: int| !grade_selected(grades[p], email, subject, quarter),
            |p: int| unordered_key(),
            grades.len() as int,
            pos,
        ) && remaining == rows_at(grades, pos)
}

/// The reply to a deletion of `n` rows.
pub open spec fn delete_message(n: nat) -> Seq<char> {
    "Deleted "@ + decimal_digits(n) + " grade record(s)"@
}

/// The characters of each text.
pub open spec fn texts_of(v: Seq<String>) -> Seq<Seq<char>> {
    v.map_values(|s: String| s@)
}

/// Text `x` occurs in `list`.
pub open spec fn in_list(list: Seq<Seq<char>>, x: Seq<char>) -> bool {
    exists|k: int| 0 <= k < list.len() && list[k] == x
}

/// The student has a grade row in subject `x`.
pub open spec fn subject_of_student(grades: Seq<GradeView>, email: Seq<char>, x: Seq<char>) -> bool {
    exists|j: int| 0 <= j < grades.len() && grades[j].student_email == email && #[trigger] grades[j].subject == x
}

/// The student has a grade row in subject `x` among the first `i` rows.
pub open spec fn subject_before(grades: Seq<GradeView>, email: Seq<char>, x: Seq<char>, i: int) -> bool {
    exists|j: int| 0 <= j < i && grades[j].student_email == email && #[trigger] grades[j].subject == x
}

/// `subjects` is `SELECT DISTINCT subject ... WHERE student_email = ? ORDER BY subject`.
pub open spec fn is_subject_list(grades: Seq<GradeView>, email: Seq<char>, subjects: Seq<Seq<char>>) -> bool {
    &&& forall|a: int, b: int| 0 <= a < b < subjects.len() ==> text_lt(#[trigger] subjects[a], #[trigger] subjects[b])
    &&& forall|x: Seq<char>| #[trigger] in_list(subjects, x) <==> subject_of_student(grades, email, x)
}

impl Database {
    /// Deletes the grades of a student, narrowed to a subject and a quarter where they are
    /// given, and tells how many rows went.
    pub fn delete_student_grades(
        &mut self,
        student_email: String,
        subject: Option<String>,
        quarter: Option<String>,
    ) -> (res: String)
        requires
            old(self).wf(),
        ensures
            final(self).wf(),
            final(self)@.users == old(self)@.users,
            final(self)@.last_user_id == old(self)@.last_user_id,
            final(self)@.last_grade_id == old(self)@.last_grade_id,
            is_delete_result(
                old(self)@.grades,
                student_email@,
                opt_text(subject),
                opt_text(quarter),
                final(self)@.grades,
            ),
            res@ == delete_message((old(self)@.grades.len() - final(self)@.grades.len()) as nat),
    {
        proof {
            self.lemma_view();
        }
        let ghost old_db = self@;
        let ghost old_g = self.grades@;
        let ghost old_db_users = self.users;
        let ghost gv = self@.grades;
        let ghost email = student_email@;
        let ghost subj = opt_text(subject);
        let ghost qtr = opt_text(quarter);
        let ghost selected = |p: int| !grade_selected(gv[p], email, subj, qtr);
        let ghost key = |p: int| unordered_key();
        let old_len = self.grades.len();
        let mut i: usize = 0;
        let ghost mut j: int = 0;
        let ghost mut pos: Seq<usize> = Seq::empty();
        while i < self.grades.len()
            invariant
                gv == old_g.map_values(|g: GradeRow| g@),
                gv == old_db.grades,
                db_wf(old_db),
                self.users == old_db_users,
                self.last_user_id == old_db.last_user_id,
                self.last_grade_id == old_db.last_grade_id,
                old_len == old_g.len(),
                0 <= j <= old_len,
                i <= j,
                pos.len() == i,
                self.grades.len() == i + (old_len - j),
                self.grades@ =~= pos.map_values(|p: usize| old_g[p as int]) + old_g.subrange(j, old_len as int),
                forall|k: int| 0 <= k < pos.len() ==> #[trigger] pos[k] < j && selected(pos[k] as int),
                forall|a: int, b: int| 0 <= a < b < pos.len() ==> #[trigger] pos[a] < #[trigger] pos[b],
                forall|p: int| 0 <= p < j && selected(p) ==> #[trigger] lists(pos, p),
                selected == (|p: int| !grade_selected(gv[p], email, subj, qtr)),
                email == student_email@,
                subj == opt_text(subject),
                qtr == opt_text(quarter),
            decreases old_len - j,
        {
            assert(self.grades@[i as int] == old_g[j]);
            if grade_matches(&self.grades[i], &student_email, &subject, &quarter) {
                self.grades.remove(i);
                proof {
                    assert forall|p: int| 0 <= p < j + 1 && selected(p) implies #[trigger] lists(pos, p) by {
                        if p == j {
                            assert(!selected(p));
                        }
                    }
                    j = j + 1;
                }
            } else {
                proof {
                    let old_pos = pos;
                    pos = pos.push(j as usize);
                    assert forall|p: int| 0 <= p < j + 1 && selected(p) implies #[trigger] lists(pos, p) by {
                        if p == j {
                            assert(pos[old_pos.len() as int] == p);
                        } else {
                            assert(lists(old_pos, p));
                            let k = choose|k: int| 0 <= k < old_pos.len() && old_pos[k] == p;
                            assert(pos[k] == p);
                        }
                    }
                    j = j + 1;
                }
                i = i + 1;
            }
        }
        proof {
            self.lemma_view();
            assert(j == old_len);
            assert(self@.grades =~= rows_at(gv, pos));
            lemma_key_lt_total(unordered_key(), unordered_key());
            assert(is_listing(selected, key, gv.len() as int, pos));
            let ng = self@.grades;
            assert forall|a: int, b: int|
                #![trigger ng[a], ng[b]]
                0 <= a < ng.len() && 0 <= b < ng.len() && a != b implies ng[a].id != ng[b].id
                && !same_grade_key(ng[a], ng[b]) by {
                assert(ng[a] == gv[pos[a] as int] && ng[b] == gv[pos[b] as int]);
                if a < b {
                    assert(pos[a] < pos[b]);
                } else {
                    assert(pos[b] < pos[a]);
                }
            }
            assert forall|a: int| 0 <= a < ng.len() implies 1 <= #[trigger] ng[a].id <= self@.last_grade_id by {
                assert(ng[a] == gv[pos[a] as int]);
            }
        }
        let count = old_len - self.grades.len();
        let mut m = String::from_str("Deleted ");
        push_decimal(&mut m, count as u64);
        m.append(" grade record(s)");
        m
    }
}

} // verus!
