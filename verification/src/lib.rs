pub mod cache;
pub mod cst;
pub mod documents;
pub mod parse;
pub mod paths;
pub mod rule;
