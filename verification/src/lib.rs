//! A gradebook with user accounts: the data model of a school's grade portal,
//! its queries and its account rules, each with a proved contract.

pub mod text;
pub mod model;
pub mod sorting;
pub mod grades;
pub mod clock;
pub mod datetime;
pub mod crypto;
pub mod accounts;
pub mod schema;
pub mod laws;
pub mod histories;
pub mod replies;
