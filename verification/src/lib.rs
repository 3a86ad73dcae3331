pub mod clock;
pub mod commands;
pub mod db;
pub mod error;
pub mod models;
pub mod position_laws;
pub mod positions;
pub mod query;
pub mod text;
