//! Streaming decoder for a restricted JSON dialect, with a small filter language
//! that is applied to every decoded value.
//!
//! * [`value`] holds the value model, [`render`] its text and [`number`] the
//!   doubles of counts.
//! * [`json_grammar`] defines the value grammar on windows of bytes, with its
//!   three outcomes; [`json_parser`] executes it, and [`json_laws`] proves what
//!   holds of it on every window.
//! * [`streamer`] is the decode loop as a state machine that the caller feeds
//!   and pulls; [`stream_laws`] proves that the pieces in which the bytes come
//!   do not matter.
//! * [`jq_grammar`] defines the filter grammar, [`jq_parser`] reads and applies
//!   filters, and [`jq_laws`] proves that what is written is read back.
//! * [`text`] splits strings.

pub mod jq_grammar;
pub mod jq_laws;
pub mod jq_parser;
pub mod json_grammar;
pub mod json_laws;
pub mod json_parser;
pub mod number;
pub mod render;
pub mod stream_laws;
pub mod streamer;
pub mod text;
pub mod value;

pub use jq_parser::parse_filter;
pub use jq_parser::Pipeline;
pub use streamer::Streamer;
