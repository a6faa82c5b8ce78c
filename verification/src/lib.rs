//! Mining a commit history for the commits that introduced files matching a
//! boolean rule over regular expressions.

pub mod analysis;
pub mod commits;
pub mod duplicates;
pub mod expression_interpreter;
pub mod expression_parser;
pub mod grammar;
pub mod paths;
pub mod pipeline;
pub mod serialization;
pub mod sorting;
pub mod testlinker;
pub mod text;
