//! Line statistics over the session logs of a coding assistant: lines
//! written and edited through its tools and lines of its replies, per
//! session and per project.
pub mod collect;
pub mod display;
pub mod json;
pub mod keyed;
pub mod parser;
pub mod sorting;
pub mod stats;
pub mod text;
