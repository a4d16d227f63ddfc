//! Fetching a Go release in ranges and putting it in place.
//!
//! The library plans the byte ranges of a download, says what is asked of
//! the server for each range and what is made of each answer, and assembles
//! the parts into the file, whatever the order in which they came. Around
//! that it reads version numbers and builds the shell commands of an update.
//! It runs no command and opens no file: the caller does both, and hands over
//! what came of it.

pub mod config;
pub mod text;
pub mod range;
pub mod fetch;
pub mod job;
pub mod assemble;
pub mod downloader;
pub mod installer;
pub mod utils;
