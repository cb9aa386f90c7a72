//! Filters grep output by grouping matches by file.
pub mod text;
pub mod number;
pub mod args;
pub mod match_line;
pub mod path;
pub mod context;
pub mod clean;
pub mod order;
pub mod group;
pub mod report;
pub mod query;
pub mod session;
