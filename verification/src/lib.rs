//! View-state core of a virtualised edit-history viewer.
//!
//! Everything here is pure: row coordinates, disclosure indexes, the bounded
//! row cache, live revisions, find sessions, frame batching, keyboard and
//! search decisions, and the presentation of one history row. A browser shell
//! performs the effects that this crate plans.

pub mod bisect;
pub mod cache;
pub mod chain_filter;
pub mod chars;
pub mod chrome;
pub mod columns;
pub mod coordinates;
pub mod dates;
pub mod delta;
pub mod edits;
pub mod expansion;
pub mod find;
pub mod frame;
pub mod growth;
pub mod host;
pub mod interaction;
pub mod json;
pub mod labels;
pub mod live;
pub mod markdown;
pub mod motion;
pub mod paint;
pub mod payload;
pub mod plain_text;
pub mod probe;
pub mod protocol;
pub mod pump;
pub mod revisions;
pub mod row;
pub mod row_input;
pub mod row_spec;
pub mod state;
pub mod step;
pub mod summary;
pub mod tasks;
pub mod text;
pub mod window;
