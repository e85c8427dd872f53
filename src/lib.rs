//! A per-identity store of report cards: each card records a student's
//! total marks and number of subjects, and the letter grade derived from the
//! exact average of the two.

pub mod identity;
pub mod report;
pub mod store;
