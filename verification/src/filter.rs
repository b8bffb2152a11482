pub mod filter;
pub mod remove_comments;
