//! Accounts: sign-up, log-in, profiles, password changes and resets, and the student list.

use vstd::prelude::*;
use vstd::string::*;
use crate::model::{
    Database, DbView, UserRow, UserView, opt_text, text_or_empty, reply_view, user_by_email,
    user_by_email_role, user_position, has_user, student_role, student_role_text,
};
use crate::crypto::{bcrypt_verify, bcrypt_hash, bcrypt_verify_outcome, hash_made_from};
use crate::clock::{system_now, since_unix_epoch, unix_seconds, reading_seconds};
use crate::text::{text_eq, decimal_text, push_decimal};
use crate::sorting::{SortKey, key_view, arrange, is_listing, lists};

verus! {

/// A user as the log-in reply carries it.
pub struct User {
    pub id: Option<i64>,
    pub email: String,
    pub password: String,
    pub role: String,
    pub firstname: Option<String>,
    pub lastname: Option<String>,
}

pub struct UserRecordView {
    pub id: Option<int>,
    pub email: Seq<char>,
    pub password: Seq<char>,
    pub role: Seq<char>,
    pub firstname: Option<Seq<char>>,
    pub lastname: Option<Seq<char>>,
}

impl View for User {
    type V = UserRecordView;

    open spec fn view(&self) -> UserRecordView {
        UserRecordView {
            id: match self.id {
                Some(i) => Some(i as int),
                None => None,
            },
            email: self.email@,
            password: self.password@,
            role: self.role@,
            firstname: opt_text(self.firstname),
            lastname: opt_text(self.lastname),
        }
    }
}

pub struct LoginRequest {
    pub email: String,
    pub password: String,
    pub role: String,
}

pub struct SignupRequest {
    pub email: String,
    pub password: String,
    pub role: String,
    pub firstname: Option<String>,
    pub lastname: Option<String>,
}

pub struct LoginResponse {
    pub success: bool,
    pub message: String,
    pub user: Option<User>,
}

pub struct LoginResponseView {
    pub success: bool,
    pub message: Seq<char>,
    pub user: Option<UserRecordView>,
}

impl View for LoginResponse {
    type V = LoginResponseView;

    open spec fn view(&self) -> LoginResponseView {
        LoginResponseView {
            success: self.success,
            message: self.message@,
            user: match self.user {
                Some(u) => Some(u@),
                None => None,
            },
        }
    }
}

pub struct ChangePasswordRequest {
    pub email: String,
    pub current_password: String,
    pub new_password: String,
}

pub struct UserProfile {
    pub email: String,
    pub firstname: Option<String>,
    pub lastname: Option<String>,
    pub role: String,
}

pub struct UserProfileView {
    pub email: Seq<char>,
    pub firstname: Option<Seq<char>>,
    pub lastname: Option<Seq<char>>,
    pub role: Seq<char>,
}

impl View for UserProfile {
    type V = UserProfileView;

    open spec fn view(&self) -> UserProfileView {
        UserProfileView {
            email: self.email@,
            firstname: opt_text(self.firstname),
            lastname: opt_text(self.lastname),
            role: self.role@,
        }
    }
}

/// A student as the student list shows one.
pub struct StudentInfo {
    pub id: i64,
    pub email: String,
    pub firstname: String,
    pub lastname: String,
    pub role: String,
}

pub struct StudentInfoView {
    pub id: int,
    pub email: Seq<char>,
    pub firstname: Seq<char>,
    pub lastname: Seq<char>,
    pub role: Seq<char>,
}

impl View for StudentInfo {
    type V = StudentInfoView;

    open spec fn view(&self) -> StudentInfoView {
        StudentInfoView {
            id: self.id as int,
            email: self.email@,
            firstname: self.firstname@,
            lastname: self.lastname@,
            role: self.role@,
        }
    }
}

/// The user that a successful log-in returns: the stored row without its password hash.
pub open spec fn public_user(u: UserView) -> UserRecordView {
    UserRecordView {
        id: Some(u.id),
        email: u.email,
        password: Seq::empty(),
        role: u.role,
        firstname: u.firstname,
        lastname: u.lastname,
    }
}

/// The log-in reply for the user found by email and role (if any) and the outcome of
/// checking the password against that user's hash.
pub open spec fn login_reply(found: Option<UserView>, check: Option<bool>) -> LoginResponseView {
    match found {
        None => LoginResponseView { success: false, message: "User not found"@, user: None },
        Some(u) => if check == Some(true) {
            LoginResponseView { success: true, message: "Login successful"@, user: Some(public_user(u)) }
        } else {
            LoginResponseView { success: false, message: "Invalid credentials"@, user: None }
        },
    }
}

/// The outcome of checking `password` against the hash of the user found, if any.
pub open spec fn password_check(found: Option<UserView>, password: Seq<char>) -> Option<bool> {
    match found {
        Some(u) => bcrypt_verify_outcome(password, u.password),
        None => None,
    }
}

/// The log-in reply on store `db`.
pub open spec fn login_outcome(db: DbView, email: Seq<char>, password: Seq<char>, role: Seq<char>) -> LoginResponseView {
    let found = user_by_email_role(db.users, email, role);
    login_reply(found, password_check(found, password))
}

/// The row that a sign-up stores.
pub open spec fn new_user(
    id: int,
    email: Seq<char>,
    hash: Seq<char>,
    role: Seq<char>,
    firstname: Option<Seq<char>>,
    lastname: Option<Seq<char>>,
) -> UserView {
    UserView {
        id,
        email,
        password: hash,
        role,
        firstname: Some(text_or_empty(firstname)),
        lastname: Some(text_or_empty(lastname)),
    }
}

/// The store and the reply after a sign-up, given the password hash if hashing succeeded:
/// refused when hashing failed, when the user ids are used up, or when the email is taken;
/// otherwise the user is stored with the next id, missing names stored as empty texts.
pub open spec fn register_outcome(
    db: DbView,
    email: Seq<char>,
    role: Seq<char>,
    firstname: Option<Seq<char>>,
    lastname: Option<Seq<char>>,
    hashed: Option<Seq<char>>,
) -> (DbView, Result<Seq<char>, Seq<char>>) {
    match hashed {
        None => (db, Err("Password hashing failed"@)),
        Some(h) => if db.last_user_id >= i64::MAX {
            (db, Err("Database error occurred"@))
        } else if has_user(db.users, email) {
            (db, Err("Email already exists"@))
        } else {
            (
                DbView {
                    users: db.users.push(new_user(db.last_user_id + 1, email, h, role, firstname, lastname)),
                    last_user_id: db.last_user_id + 1,
                    ..db
                },
                Ok("Registration successful"@),
            )
        },
    }
}

/// The profile of a stored user.
pub open spec fn profile_of(u: UserView) -> UserProfileView {
    UserProfileView { email: u.email, firstname: u.firstname, lastname: u.lastname, role: u.role }
}

/// The profile of the user with this email, or the error.
pub open spec fn profile_outcome(db: DbView, email: Seq<char>) -> Result<UserProfileView, Seq<char>> {
    match user_by_email(db.users, email) {
        Some(u) => Ok(profile_of(u)),
        None => Err("User not found"@),
    }
}

/// The store with the password hash of the user at `pos` replaced.
pub open spec fn with_password(db: DbView, pos: int, hash: Seq<char>) -> DbView {
    DbView { users: db.users.update(pos, UserView { password: hash, ..db.users[pos] }), ..db }
}

/// The store and the reply after a password change, given the outcome of checking the
/// current password and the new hash if one was made.
pub open spec fn change_password_outcome(
    db: DbView,
    email: Seq<char>,
    check: Option<bool>,
    hashed: Option<Seq<char>>,
) -> (DbView, Result<Seq<char>, Seq<char>>) {
    if !has_user(db.users, email) {
        (db, Err("User not found"@))
    } else if check != Some(true) {
        (db, Err("Current password is incorrect"@))
    } else {
        match hashed {
            None => (db, Err("Password hashing failed"@)),
            Some(h) => (with_password(db, user_position(db.users, email), h), Ok("Password changed successfully"@)),
        }
    }
}

/// The store and the reply after a password reset, given the new hash if one was made.
pub open spec fn reset_password_outcome(db: DbView, email: Seq<char>, hashed: Option<Seq<char>>) -> (
    DbView,
    Result<Seq<char>, Seq<char>>,
) {
    match hashed {
        None => (db, Err("Password hashing failed"@)),
        Some(h) => if has_user(db.users, email) {
            (with_password(db, user_position(db.users, email), h), Ok("Password reset successful"@))
        } else {
            (db, Err("User not found"@))
        },
    }
}

/// The reply to a forgotten password at Unix time `now`.
pub open spec fn forgot_password_outcome(db: DbView, email: Seq<char>, now: int) -> Result<Seq<char>, Seq<char>> {
    if has_user(db.users, email) {
        Ok("Reset token: RESET_"@ + decimal_text(now))
    } else {
        Err("Email not found"@)
    }
}

/// The reply to a forgotten password at a clock reading: "Email not found" for an unknown
/// email, else the token of the reading's Unix time when it fits an `i64`, else the clock error.
pub open spec fn forgot_password_clock_outcome(
    db: DbView,
    email: Seq<char>,
    reading: Result<(u64, u32), (u64, u32)>,
) -> Result<Seq<char>, Seq<char>> {
    if !has_user(db.users, email) {
        Err("Email not found"@)
    } else if i64::MIN <= reading_seconds(reading) <= i64::MAX {
        forgot_password_outcome(db, email, reading_seconds(reading))
    } else {
        Err("Clock error: the time does not fit in seconds"@)
    }
}

/// The entry of the student list for a stored user: missing names shown as empty texts.
pub open spec fn student_info_of(u: UserView) -> StudentInfoView {
    StudentInfoView {
        id: u.id,
        email: u.email,
        firstname: text_or_empty(u.firstname),
        lastname: text_or_empty(u.lastname),
        role: u.role,
    }
}

/// `ORDER BY firstname, lastname`.
pub open spec fn name_key(u: UserView) -> (Option<Seq<char>>, Option<Seq<char>>) {
    (u.firstname, u.lastname)
}

/// The entries of the users at positions `pos`, in that order.
pub open spec fn students_at(users: Seq<UserView>, pos: Seq<usize>) -> Seq<StudentInfoView> {
    pos.map_values(|p: usize| student_info_of(users[p as int]))
}

/// `list` is `SELECT ... FROM users WHERE role = 'student' ORDER BY firstname, lastname`.
pub open spec fn is_student_list(users: Seq<UserView>, list: Seq<StudentInfoView>) -> bool {
    exists|pos: Seq<usize>|
        #![trigger students_at(users, pos)]
        is_listing(
            |p: int| users[p].role == student_role(),
            |p: int| name_key(users[p]),
            users.len() as int,
            pos,
        ) && list == students_at(users, pos)
}

/// The greeting for `name`.
pub open spec fn greeting(name: Seq<char>) -> Seq<char> {
    "Hello, "@ + name + "! You've been greeted from Rust!"@
}

pub fn greet(name: &str) -> (r: String)
    ensures
        r@ == greeting(name@),
{
    let mut s = String::from_str("Hello, ");
    s.append(name);
    s.append("! You've been greeted from Rust!");
    s
}

fn copy_opt_text(o: &Option<String>) -> (r: Option<String>)
    ensures
        opt_text(r) == opt_text(*o),
{
    match o {
        Some(s) => Some(s.clone()),
        None => None,
    }
}

fn text_or_empty_of(o: &Option<String>) -> (r: String)
    ensures
        r@ == text_or_empty(opt_text(*o)),
{
    match o {
        Some(s) => s.clone(),
        None => String::new(),
    }
}

/// Appends the decimal rendering of `n` to `out`.
fn push_decimal_signed(out: &mut String, n: i64)
    ensures
        final(out)@ == old(out)@ + decimal_text(n as int),
{
    if n < 0 {
        let m: u64 = if n == i64::MIN {
            9223372036854775808u64
        } else {
            (-n) as u64
        };
        let ghost before = out@;
        out.append("-");
        proof {
            reveal_strlit("-");
        }
        push_decimal(out, m);
        assert(out@ =~= before + decimal_text(n as int));
    } else {
        push_decimal(out, n as u64);
    }
}

/// The log-in reply for the user found (if any) and the outcome of checking the password.
pub fn login_response(found: Option<&UserRow>, check: Option<bool>) -> (r: LoginResponse)
    ensures
        r@ == login_reply(
            match found {
                Some(u) => Some(u@),
                None => None,
            },
            check,
        ),
{
    match found {
        None => LoginResponse { success: false, message: String::from_str("User not found"), user: None },
        Some(u) => {
            if check == Some(true) {
                let user = User {
                    id: Some(u.id),
                    email: u.email.clone(),
                    password: String::new(),
                    role: u.role.clone(),
                    firstname: copy_opt_text(&u.firstname),
                    lastname: copy_opt_text(&u.lastname),
                };
                LoginResponse { success: true, message: String::from_str("Login successful"), user: Some(user) }
            } else {
                LoginResponse { success: false, message: String::from_str("Invalid credentials"), user: None }
            }
        },
    }
}

impl Database {
    /// The position of the user with this email and this role, if there is one.
    fn find_user_with_role(&self, email: &str, role: &str) -> (r: Option<usize>)
        requires
            self.wf(),
        ensures
            match r {
                Some(i) => i < self@.users.len() && user_by_email_role(self@.users, email@, role@) == Some(
                    self@.users[i as int],
                ),
                None => user_by_email_role(self@.users, email@, role@) is None,
            },
    {
        proof {
            self.lemma_view();
        }
        match self.find_user(email) {
            Some(i) => {
                if text_eq(self.users[i].role.as_str(), role) {
                    Some(i)
                } else {
                    None
                }
            },
            None => None,
        }
    }

    /// Logs in: finds the user by email and role and checks the password against the stored hash.
    pub fn tauri_login(&self, payload: LoginRequest) -> (r: LoginResponse)
        requires
            self.wf(),
        ensures
            r@ == login_outcome(self@, payload.email@, payload.password@, payload.role@),
    {
        proof {
            self.lemma_view();
        }
        match self.find_user_with_role(payload.email.as_str(), payload.role.as_str()) {
            None => login_response(None, None),
            Some(i) => {
                let check = match bcrypt_verify(payload.password.as_str(), self.users[i].password.as_str()) {
                    Ok(b) => Some(b),
                    Err(_) => None,
                };
                login_response(Some(&self.users[i]), check)
            },
        }
    }

    /// Signs up with the password hash already made (`None` when hashing failed).
    pub fn register_with_hash(&mut self, payload: SignupRequest, hashed: Option<String>) -> (res: Result<
        String,
        String,
    >)
        requires
            old(self).wf(),
        ensures
            final(self).wf(),
            (final(self)@, reply_view(res)) == register_outcome(
                old(self)@,
                payload.email@,
                payload.role@,
                opt_text(payload.firstname),
                opt_text(payload.lastname),
                opt_text(hashed),
            ),
    {
        proof {
            self.lemma_view();
        }
        let ghost old_db = self@;
        let h = match hashed {
            Some(h) => h,
            None => {
                return Err(String::from_str("Password hashing failed"));
            },
        };
        if self.last_user_id == i64::MAX {
            return Err(String::from_str("Database error occurred"));
        }
        if self.find_user(payload.email.as_str()).is_some() {
            return Err(String::from_str("Email already exists"));
        }
        let id = self.last_user_id + 1;
        let ghost nu = new_user(
            id as int,
            payload.email@,
            h@,
            payload.role@,
            opt_text(payload.firstname),
            opt_text(payload.lastname),
        );
        let firstname = text_or_empty_of(&payload.firstname);
        let lastname = text_or_empty_of(&payload.lastname);
        let row = UserRow {
            id,
            email: payload.email,
            password: h,
            role: payload.role,
            firstname: Some(firstname),
            lastname: Some(lastname),
        };
        assert(row@ == nu);
        self.users.push(row);
        self.last_user_id = id;
        proof {
            self.lemma_view();
            assert(self@.users =~= old_db.users.push(nu));
            let nv = self@.users;
            assert forall|a: int, b: int|
                #![trigger nv[a], nv[b]]
                0 <= a < nv.len() && 0 <= b < nv.len() && a != b implies nv[a].id != nv[b].id
                && nv[a].email != nv[b].email by {
                if a < old_db.users.len() && b < old_db.users.len() {
                    assert(nv[a] == old_db.users[a] && nv[b] == old_db.users[b]);
                } else if a < old_db.users.len() {
                    assert(nv[a] == old_db.users[a]);
                } else {
                    assert(nv[b] == old_db.users[b]);
                }
            }
            assert forall|a: int| 0 <= a < nv.len() implies 1 <= #[trigger] nv[a].id <= self@.last_user_id by {
                if a < old_db.users.len() {
                    assert(nv[a] == old_db.users[a]);
                }
            }
        }
        Ok(String::from_str("Registration successful"))
    }

    /// Signs up: hashes the password with bcrypt, then stores the user.
    pub fn tauri_register(&mut self, payload: SignupRequest) -> (res: Result<String, String>)
        requires
            old(self).wf(),
        ensures
            final(self).wf(),
            exists|hashed: Option<Seq<char>>|
                hash_made_from(payload.password@, hashed) && (final(self)@, reply_view(res))
                    == #[trigger] register_outcome(
                    old(self)@,
                    payload.email@,
                    payload.role@,
                    opt_text(payload.firstname),
                    opt_text(payload.lastname),
                    hashed,
                ),
    {
        let hashed = match bcrypt_hash(payload.password.as_str()) {
            Ok(h) => Some(h),
            Err(_) => None,
        };
        let ghost hv = opt_text(hashed);
        let ghost pw = payload.password@;
        let res = self.register_with_hash(payload, hashed);
        assert(hash_made_from(pw, hv));
        res
    }

    /// The profile of the user with this email.
    pub fn get_user_profile(&self, email: String) -> (res: Result<UserProfile, String>)
        requires
            self.wf(),
        ensures
            match res {
                Ok(p) => profile_outcome(self@, email@) == Ok::<UserProfileView, Seq<char>>(p@),
                Err(e) => profile_outcome(self@, email@) == Err::<UserProfileView, Seq<char>>(e@),
            },
    {
        proof {
            self.lemma_view();
        }
        match self.find_user(email.as_str()) {
            Some(i) => {
                let u = &self.users[i];
                Ok(
                    UserProfile {
                        email: u.email.clone(),
                        firstname: copy_opt_text(&u.firstname),
                        lastname: copy_opt_text(&u.lastname),
                        role: u.role.clone(),
                    },
                )
            },
            None => Err(String::from_str("User not found")),
        }
    }

    /// Replaces the password hash of the user at position `i`.
    fn set_password(&mut self, i: usize, hash: String)
        requires
            old(self).wf(),
            i < old(self)@.users.len(),
        ensures
            final(self).wf(),
            final(self)@ == with_password(old(self)@, i as int, hash@),
    {
        proof {
            self.lemma_view();
        }
        let ghost old_db = self@;
        let mut row = self.users.remove(i);
        row.password = hash;
        self.users.insert(i, row);
        proof {
            self.lemma_view();
            let nv = self@.users;
            assert(nv =~= old_db.users.update(i as int, UserView { password: hash@, ..old_db.users[i as int] }));
            assert forall|a: int, b: int|
                #![trigger nv[a], nv[b]]
                0 <= a < nv.len() && 0 <= b < nv.len() && a != b implies nv[a].id != nv[b].id
                && nv[a].email != nv[b].email by {
                assert(old_db.users[a].id != old_db.users[b].id);
            }
            assert forall|a: int| 0 <= a < nv.len() implies 1 <= #[trigger] nv[a].id <= self@.last_user_id by {
                assert(1 <= old_db.users[a].id);
            }
        }
    }

    /// Changes a password, given the outcome of checking the current password and the new
    /// hash if one was made.
    pub fn change_password_with(&mut self, payload: ChangePasswordRequest, check: Option<bool>, hashed: Option<
        String,
    >) -> (res: Result<String, String>)
        requires
            old(self).wf(),
        ensures
            final(self).wf(),
            (final(self)@, reply_view(res)) == change_password_outcome(
                old(self)@,
                payload.email@,
                check,
                opt_text(hashed),
            ),
    {
        match self.find_user(payload.email.as_str()) {
            None => Err(String::from_str("User not found")),
            Some(i) => {
                if check != Some(true) {
                    return Err(String::from_str("Current password is incorrect"));
                }
                match hashed {
                    None => Err(String::from_str("Password hashing failed")),
                    Some(h) => {
                        self.set_password(i, h);
                        Ok(String::from_str("Password changed successfully"))
                    },
                }
            },
        }
    }

    /// Changes a password: checks the current one against the stored hash, hashes the new
    /// one with bcrypt and stores it.
    pub fn change_password(&mut self, payload: ChangePasswordRequest) -> (res: Result<String, String>)
        requires
            old(self).wf(),
        ensures
            final(self).wf(),
            exists|hashed: Option<Seq<char>>|
                hash_made_from(payload.new_password@, hashed) && (final(self)@, reply_view(res))
                    == #[trigger] change_password_outcome(
                    old(self)@,
                    payload.email@,
                    password_check(user_by_email(old(self)@.users, payload.email@), payload.current_password@),
                    hashed,
                ),
    {
        proof {
            self.lemma_view();
        }
        let ghost old_db = self@;
        let found = self.find_user(payload.email.as_str());
        let check = match found {
            Some(i) => match bcrypt_verify(payload.current_password.as_str(), self.users[i].password.as_str()) {
                Ok(b) => Some(b),
                Err(_) => None,
            },
            None => None,
        };
        let hashed = if check == Some(true) {
            match bcrypt_hash(payload.new_password.as_str()) {
                Ok(h) => Some(h),
                Err(_) => None,
            }
        } else {
            None
        };
        let ghost hv = opt_text(hashed);
        let ghost pw = payload.new_password@;
        let res = self.change_password_with(payload, check, hashed);
        assert(hash_made_from(pw, hv));
        res
    }

    /// Resets a password, given the new hash if one was made.
    pub fn reset_password_with_hash(&mut self, email: String, hashed: Option<String>) -> (res: Result<String, String>)
        requires
            old(self).wf(),
        ensures
            final(self).wf(),
            (final(self)@, reply_view(res)) == reset_password_outcome(old(self)@, email@, opt_text(hashed)),
    {
        match hashed {
            None => Err(String::from_str("Password hashing failed")),
            Some(h) => {
                match self.find_user(email.as_str()) {
                    Some(i) => {
                        self.set_password(i, h);
                        Ok(String::from_str("Password reset successful"))
                    },
                    None => Err(String::from_str("User not found")),
                }
            },
        }
    }

    /// Resets a password: hashes the new one with bcrypt and stores it. The token is not
    /// checked.
    pub fn reset_password(&mut self, email: String, _token: String, new_password: String) -> (res: Result<String, String>)
        requires
            old(self).wf(),
        ensures
            final(self).wf(),
            exists|hashed: Option<Seq<char>>|
                hash_made_from(new_password@, hashed) && (final(self)@, reply_view(res))
                    == #[trigger] reset_password_outcome(old(self)@, email@, hashed),
    {
        let hashed = match bcrypt_hash(new_password.as_str()) {
            Ok(h) => Some(h),
            Err(_) => None,
        };
        let ghost hv = opt_text(hashed);
        let res = self.reset_password_with_hash(email, hashed);
        assert(hash_made_from(new_password@, hv));
        res
    }

    /// The reply to a forgotten password at Unix time `now`.
    pub fn forgot_password_at(&self, email: String, now: i64) -> (res: Result<String, String>)
        requires
            self.wf(),
        ensures
            reply_view(res) == forgot_password_outcome(self@, email@, now as int),
    {
        match self.find_user(email.as_str()) {
            Some(_) => {
                let mut m = String::from_str("Reset token: RESET_");
                push_decimal_signed(&mut m, now);
                Ok(m)
            },
            None => Err(String::from_str("Email not found")),
        }
    }

    /// The reply to a forgotten password at the clock reading `reading`. The email is
    /// checked before the reading is used.
    pub fn forgot_password_with_clock(&self, email: String, reading: Result<(u64, u32), (u64, u32)>) -> (res:
        Result<String, String>)
        requires
            self.wf(),
        ensures
            reply_view(res) == forgot_password_clock_outcome(self@, email@, reading),
    {
        proof {
            self.lemma_view();
        }
        if self.find_user(email.as_str()).is_none() {
            return Err(String::from_str("Email not found"));
        }
        match unix_seconds(reading) {
            Some(now) => self.forgot_password_at(email, now),
            None => Err(String::from_str("Clock error: the time does not fit in seconds")),
        }
    }

    /// The reply to a forgotten password: the system clock is read and handed to
    /// `forgot_password_with_clock`.
    pub fn tauri_forgot_password(&self, email: String) -> (res: Result<String, String>)
        requires
            self.wf(),
        ensures
            exists|reading: Result<(u64, u32), (u64, u32)>|
                reply_view(res) == #[trigger] forgot_password_clock_outcome(self@, email@, reading),
    {
        let reading = since_unix_epoch(system_now());
        self.forgot_password_with_clock(email, reading)
    }

    /// The students, ordered by first name, then last name.
    pub fn get_all_students(&self) -> (res: Vec<StudentInfo>)
        ensures
            is_student_list(self@.users, res@.map_values(|s: StudentInfo| s@)),
    {
        proof {
            self.lemma_view();
        }
        let ghost uv = self@.users;
        let ghost selected = |p: int| uv[p].role == student_role();
        let ghost key = |p: int| name_key(uv[p]);
        let n = self.users.len();
        let mut sel: Vec<usize> = Vec::new();
        let mut keys: Vec<SortKey> = Vec::new();
        let mut i: usize = 0;
        while i < n
            invariant
                n == self.users.len(),
                uv == self.users@.map_values(|u: UserRow| u@),
                i <= n,
                keys.len() == sel.len(),
                forall|x: int| 0 <= x < sel.len() ==> 0 <= #[trigger] sel@[x] < i && selected(sel@[x] as int),
                forall|x: int, y: int| 0 <= x < y < sel.len() ==> #[trigger] sel@[x] < #[trigger] sel@[y],
                forall|p: int| 0 <= p < i && selected(p) ==> #[trigger] lists(sel@, p),
                forall|x: int| 0 <= x < sel.len() ==> key_view(#[trigger] keys@[x]) == key(sel@[x] as int),
                selected == (|p: int| uv[p].role == student_role()),
                key == (|p: int| name_key(uv[p])),
            decreases n - i,
        {
            let u = &self.users[i];
            if text_eq(u.role.as_str(), student_role_text()) {
                let ghost old_sel = sel@;
                sel.push(i);
                keys.push(SortKey { first: copy_opt_text(&u.firstname), second: copy_opt_text(&u.lastname) });
                proof {
                    assert forall|p: int| 0 <= p < i + 1 && selected(p) implies #[trigger] lists(sel@, p) by {
                        if p == i {
                            assert(sel@[old_sel.len() as int] == p);
                        } else {
                            assert(lists(old_sel, p));
                            let k = choose|k: int| 0 <= k < old_sel.len() && old_sel[k] == p;
                            assert(sel@[k] == p);
                        }
                    }
                }
            } else {
                proof {
                    assert forall|p: int| 0 <= p < i + 1 && selected(p) implies #[trigger] lists(sel@, p) by {
                        if p == i {
                            assert(!selected(p));
                        }
                    }
                }
            }
            i = i + 1;
        }
        let pos = arrange(&sel, &keys, Ghost(selected), Ghost(key), Ghost(n as int));
        let mut res: Vec<StudentInfo> = Vec::new();
        let mut k: usize = 0;
        while k < pos.len()
            invariant
                n == self.users.len(),
                uv == self.users@.map_values(|u: UserRow| u@),
                is_listing(selected, key, n as int, pos@),
                k <= pos.len(),
                res.len() == k,
                forall|j: int| 0 <= j < k ==> (#[trigger] res@[j])@ == student_info_of(uv[pos@[j] as int]),
            decreases pos.len() - k,
        {
            let u = &self.users[pos[k]];
            res.push(
                StudentInfo {
                    id: u.id,
                    email: u.email.clone(),
                    firstname: text_or_empty_of(&u.firstname),
                    lastname: text_or_empty_of(&u.lastname),
                    role: u.role.clone(),
                },
            );
            k = k + 1;
        }
        proof {
            assert(res@.map_values(|s: StudentInfo| s@) =~= students_at(uv, pos@));
        }
        res
    }
}

} // verus!
