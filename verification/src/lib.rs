//! Batches lines of text and prepares shell commands for each batch.
//!
//! The library splits a byte stream into lines, normalizes each line
//! (terminator stripping or whitespace trimming), filters blank lines,
//! groups the surviving lines into fixed-size batches, joins each batch
//! with a delimiter into a payload, and substitutes that payload for a
//! tag inside a command's argument templates.  Reading standard input
//! and spawning the child process are left to the surrounding program.

pub mod batcher;
pub mod executor;
pub mod reader;
pub mod text;
