//! Assigns rate-limited resources to timestamped usages found in a text
//! template, and writes the assignment back into the text.
pub mod models;
pub mod text;
pub mod template;
pub mod render;
pub mod schedule;
