//! Environment variables kept as one JSON object per named environment, with
//! the parsing, merging and overlay rules that decide what is stored and what
//! a command receives.

pub mod text;
pub mod keymap;
pub mod error;
pub mod envset;
pub mod store;
pub mod dotenv;
pub mod prompt;
pub mod cmd;
