//! Translation of localisation files: the rules of the program, each with its contract.
pub mod agent;
pub mod catalog;
pub mod cli;
pub mod commands;
pub mod config;
pub mod fingerprint;
pub mod icu;
pub mod locale;
pub mod map;
pub mod models;
pub mod order;
pub mod paths;
pub mod state;
pub mod terminal;
pub mod text;
pub mod urls;
pub mod value;
