//! A file-copy engine for an asynchronous kernel submission/completion ring.
//!
//! `plan` decides the byte range, the block count and how many buffers may be
//! pinned; `engine` is the buffer pool and its read-then-write state machine,
//! which hands out the operations to submit and takes their completions.
use vstd::prelude::*;

pub mod engine;
pub mod error;
pub mod plan;

verus! {

} // verus!
