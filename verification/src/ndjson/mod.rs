//! Newline-delimited JSON: the lines that describe tracks and display sets, and
//! the way back from lines to display sets.
pub mod base64;
pub mod encode;
pub mod fragments;
pub mod grouping;
pub mod identity;
pub mod json;
pub mod keys;
pub mod letters;
pub mod lines;
pub mod parse;
pub mod plain;
pub mod rebuilt;
pub mod roundtrip;
pub mod session;
pub mod stream;
