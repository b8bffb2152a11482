//! Assembles a bounded-size text prompt from a collection of text blocks and,
//! when the combined size exceeds a character budget, partitions the output
//! into self-describing parts.

pub mod binary_detector;
pub mod cli;
pub mod contain;
pub mod dry_run;
pub mod file;
pub mod filter;
pub mod info;
pub mod non_template;
pub mod template;
pub mod tree;
pub mod text;
