//! Assigns people to groups of bounded size and improves the assignment by
//! local search: each person in turn looks at every group once per pass and
//! moves, possibly evicting one occupant, when that lowers its cost.

pub mod decide;
pub mod manager;
pub mod table;
pub mod table_seq;
