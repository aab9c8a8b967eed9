pub mod ansi;
pub mod bytes;
pub mod client;
pub mod config;
pub mod daemon;
pub mod paths;
pub mod protocol;
pub mod text;
pub mod ui;
