//! Assigning students to project teams from their ranked preferences.
//!
//! - `row`: one record of the preference table, a map from column names to cells.
//! - `csv_parser`: reads the table from CSV text.
//! - `solver`: the settings, the students read from the records, and `solve`,
//!   the assignment from records to teams.
//! - `assignment`: what a valid assignment and the best one are, and
//!   `assign_teams`, which searches each student's options in order of
//!   preference for the best one.
//! - `teams`: the shape of an answer.
//! - `lp_model`: the integer parts of the linear-programming model (sorted
//!   projects, pitcher links, teammate pairs, ranks, teams of a solution).
//! - `laws`: what holds of every answer.

pub mod assignment;
pub mod csv_parser;
pub mod laws;
pub mod lp_model;
pub mod row;
pub mod solver;
pub mod teams;
