pub mod text;
pub mod number;
pub mod buckets;
pub mod ranking;
pub mod commands;
pub mod generate;
pub mod diff;
pub mod model;
