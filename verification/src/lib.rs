//! Match aggregation and ordering for a search tool that looks through file
//! names, file contents and commit history at once.

pub mod cli;
pub mod git;
pub mod highlight;
pub mod order;
pub mod output;
pub mod pattern;
pub mod run;
pub mod scope;
pub mod search;
pub mod sorting;
pub mod text;
