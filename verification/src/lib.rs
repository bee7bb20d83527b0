//! Downloading one directory, or one file, of a hosted repository.
//!
//! The crate holds the decisions: which URL to ask, how an answer is read, what
//! is created on disk and in which order, and what goes into the archive. It
//! performs no input or output itself. A caller asks the engine for the next
//! action, performs it, and reports what happened.

pub mod archive;
pub mod args;
pub mod base64;
pub mod client;
pub mod descriptor;
pub mod error;
pub mod fetch;
pub mod json;
pub mod remote;
pub mod response;
pub mod text;
pub mod writer;
