pub mod categories;
pub mod tasks;
