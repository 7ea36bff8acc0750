//! A streaming query engine over labelled numeric samples.
//!
//! [`input::Input`] pulls decoded records from a single-pass source and fans
//! every resulting sample out to any number of independently paced cursors.
//! [`engine::Engine`] turns a query expression into a pull-based pipeline of
//! stages that reads from one such cursor.
pub mod labels;
pub mod record;
pub mod sample;
pub mod source;
pub mod input;
pub mod ast;
pub mod engine;
