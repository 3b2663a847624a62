//! Password hashing, through the `bcrypt` crate.

use vstd::prelude::*;

verus! {

#[verifier::external_type_specification]
#[verifier::external_body]
pub struct ExBcryptError(bcrypt::BcryptError);

/// What `bcrypt::verify(password, hash)` returns on these texts: `Some(b)` for `Ok(b)`,
/// `None` for an error (a malformed hash, a cost outside 4..=31).
pub uninterp spec fn bcrypt_verify_outcome(password: Seq<char>, hash: Seq<char>) -> Option<bool>;

/// The form of a hash that `bcrypt::hash` makes at the default cost: `$2b$12$`, then
/// 22 characters of salt and 31 of hash, 60 in all.
pub open spec fn default_cost_hash_form(h: Seq<char>) -> bool {
    h.len() == 60 && h.subrange(0, 7) == "$2b$12$"@
}

/// A password hash, if one was made, has the default-cost form and verifies the password
/// it was made from.
pub open spec fn hash_made_from(password: Seq<char>, hashed: Option<Seq<char>>) -> bool {
    match hashed {
        Some(h) => bcrypt_verify_outcome(password, h) == Some(true) && default_cost_hash_form(h),
        None => true,
    }
}

/// Calls `bcrypt::verify(password, hash)`, which reads the cost and salt out of `hash`,
/// hashes `password` with them and compares the result with `hash`. Claimed: the result
/// is the one that `bcrypt_verify_outcome` names for these two texts (the outcome is a
/// function of them alone).
#[verifier::external_body]
pub(crate) fn bcrypt_verify(password: &str, hash: &str) -> (r: Result<bool, bcrypt::BcryptError>)
    ensures
        bcrypt_verify_outcome(password@, hash@) == match r {
            Ok(b) => Some(b),
            Err(_) => None,
        },
{
    bcrypt::verify(password, hash)
}

/// Calls `bcrypt::hash(password, bcrypt::DEFAULT_COST)`, which draws a salt from the OS
/// and returns the `$2b$12$...` hash. Claimed: a hash that it returns verifies `password`,
/// as the source shows (`verify` recomputes the hash with the salt and cost written in it,
/// truncating the password as `hash` did), and it has the form that `HashParts::format`
/// writes: `$2b$12$`, 22 characters of salt, 31 of hash. Not claimed: which hash comes out (it depends on
/// the random salt), nor that one comes out (it fails when the OS gives no randomness).
#[verifier::external_body]
pub(crate) fn bcrypt_hash(password: &str) -> (r: Result<String, bcrypt::BcryptError>)
    ensures
        r matches Ok(h) ==> bcrypt_verify_outcome(password@, h@) == Some(true) && default_cost_hash_form(h@),
{
    bcrypt::hash(password, bcrypt::DEFAULT_COST)
}

} // verus!
