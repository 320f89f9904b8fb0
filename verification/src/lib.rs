//! Small, fully specified building blocks around Rust's value, ownership and
//! borrowing rules: building and splitting values, choosing between borrows,
//! handing a container over or lending it, and keeping a table of artists and
//! their works.

pub mod basic_data_type;
pub mod lifetime;
pub mod ownership;
pub mod reference;
pub mod text;
