//! The search logic of a gold-miner puzzle. A grid of numbers is searched,
//! start row by start row, for the walk from the row's first cell through
//! all columns, each step one column right and at most one row up or down,
//! with the largest sum. The head moves one cell per clock step, depth
//! first, keeping the best sum and walk of each row; when every row has been
//! searched, the overall best is reported.

pub mod head;
pub mod walk;
pub mod search;
pub mod text;
pub mod settings;
pub mod random;
pub mod miner;
pub mod stretch;
pub mod laws;
pub mod reading;
