//! Version control.

pub mod git;
