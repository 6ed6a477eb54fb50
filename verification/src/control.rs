pub mod alias;
pub mod commands;
