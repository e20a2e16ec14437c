//! Search a directory tree for subdirectories with a given name and plan
//! their removal after explicit confirmation.
//!
//! The walker collects matching directories depth-first, pruning a whole
//! sibling level as soon as one of its children matches; the remover turns
//! a confirmed match list into a queue of removal targets that is worked
//! through one path at a time, whatever the outcome of each attempt.

pub mod remover;
pub mod round_trip;
pub mod walker;
