//! A vote-tally ledger: each voter casts one vote for a candidate, counts
//! grow with checked arithmetic, and the current winners are every runner
//! that holds the highest count.

pub mod account;
pub mod laws;
pub mod ledger;

