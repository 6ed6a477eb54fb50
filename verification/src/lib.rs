pub mod config;
pub mod control;
pub mod data;
pub mod util;
