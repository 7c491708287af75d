//! A PDF shrinker: the rules that decide what may be rewritten, and the
//! rewrites themselves, each with a contract.
mod backend;
pub mod bytes;
pub mod cli;
pub mod compress;
pub mod config;
pub mod content;
pub mod document;
pub mod error;
pub mod font;
pub mod idset;
pub mod images;
pub mod nameset;
pub mod object;
pub mod pages;
pub mod pipeline;
pub mod report;
pub mod single;
pub mod strip;
pub mod structure;
pub mod text;
pub mod usage;
pub mod verify;
