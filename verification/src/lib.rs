pub mod text;
pub mod tags;
pub mod blocks;
pub mod tables;
pub mod sanitize;
pub mod markdown;
pub mod types;
pub mod client;
pub mod cli;
