//! Merging of text runs that are each sorted by a numeric column into one
//! globally ordered stream of lines.

pub mod text;
pub mod key;
pub mod run;
pub mod merge;
pub mod sink;
