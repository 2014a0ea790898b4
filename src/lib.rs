//! Runs the fenced code blocks of a Markdown document and splices their
//! output back in after each block.
//!
//! The pipeline is: [`sanitize::clear_outputs`] strips earlier output,
//! [`fence::find_all_code_blocks`] finds the blocks, the caller runs the jobs
//! of [`schedule::Prepared`] (planned with [`runner`] and [`languages`]), and
//! [`schedule::Prepared::render`] splices the outputs back in document order.
pub mod config;
pub mod fence;
pub mod languages;
pub mod roundtrip;
pub mod runner;
pub mod sanitize;
pub mod schedule;
pub mod text;
