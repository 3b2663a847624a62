//! Bringing an older `users` table up to date: the name columns it may lack.

use vstd::prelude::*;
use vstd::string::*;
use crate::text::text_eq;

verus! {

/// Text `x` is one of `names`.
pub open spec fn has_column(names: Seq<Seq<char>>, x: Seq<char>) -> bool {
    exists|k: int| 0 <= k < names.len() && names[k] == x
}

/// The statements that add the name columns missing from `columns`, first name first.
pub open spec fn migrations_for(columns: Seq<Seq<char>>) -> Seq<Seq<char>> {
    (if has_column(columns, "firstname"@) {
        Seq::empty()
    } else {
        seq!["ALTER TABLE users ADD COLUMN firstname TEXT"@]
    }) + (if has_column(columns, "lastname"@) {
        Seq::empty()
    } else {
        seq!["ALTER TABLE users ADD COLUMN lastname TEXT"@]
    })
}

/// The names of the columns that the migrations for `columns` add, in order.
pub open spec fn columns_added(columns: Seq<Seq<char>>) -> Seq<Seq<char>> {
    (if has_column(columns, "firstname"@) {
        Seq::empty()
    } else {
        seq!["firstname"@]
    }) + (if has_column(columns, "lastname"@) {
        Seq::empty()
    } else {
        seq!["lastname"@]
    })
}

/// Once the migrations for a table have run, the table needs none: running the start-up
/// twice adds no column twice.
pub proof fn law_migrations_run_once(columns: Seq<Seq<char>>)
    ensures
        migrations_for(columns + columns_added(columns)) == Seq::<Seq<char>>::empty(),
{
    let after = columns + columns_added(columns);
    if !has_column(columns, "firstname"@) {
        assert(after[columns.len() as int] == "firstname"@);
    } else {
        let k = choose|k: int| 0 <= k < columns.len() && columns[k] == "firstname"@;
        assert(after[k] == "firstname"@);
    }
    assert(has_column(after, "firstname"@));
    if !has_column(columns, "lastname"@) {
        let i = after.len() - 1;
        assert(after[i] == "lastname"@);
    } else {
        let k = choose|k: int| 0 <= k < columns.len() && columns[k] == "lastname"@;
        assert(after[k] == "lastname"@);
    }
    assert(has_column(after, "lastname"@));
    assert(migrations_for(after) =~= Seq::<Seq<char>>::empty());
}

fn has_column_named(columns: &Vec<String>, name: &str) -> (r: bool)
    ensures
        r == has_column(columns@.map_values(|s: String| s@), name@),
{
    let ghost cv = columns@.map_values(|s: String| s@);
    let mut i: usize = 0;
    while i < columns.len()
        invariant
            cv == columns@.map_values(|s: String| s@),
            i <= columns.len(),
            forall|k: int| 0 <= k < i ==> cv[k] != name@,
        decreases columns.len() - i,
    {
        if text_eq(columns[i].as_str(), name) {
            assert(cv[i as int] == name@);
            return true;
        }
        i = i + 1;
    }
    false
}

/// The `ALTER TABLE` statements that bring a `users` table with these column names up to
/// date, in the order to run them.
pub fn schema_migrations(columns: &Vec<String>) -> (r: Vec<String>)
    ensures
        r@.map_values(|s: String| s@) == migrations_for(columns@.map_values(|s: String| s@)),
{
    let ghost cv = columns@.map_values(|s: String| s@);
    let mut r: Vec<String> = Vec::new();
    let has_first = has_column_named(columns, "firstname");
    let has_last = has_column_named(columns, "lastname");
    if !has_first {
        r.push(String::from_str("ALTER TABLE users ADD COLUMN firstname TEXT"));
    }
    if !has_last {
        r.push(String::from_str("ALTER TABLE users ADD COLUMN lastname TEXT"));
    }
    assert(r@.map_values(|s: String| s@) =~= migrations_for(cv));
    r
}

} // verus!
