//! Measuring the throughput of OpenAI-compatible chat endpoints.
//!
//! - [`client`] counts tokens, cuts a stream of events into payloads, and says
//!   what requests and answers hold; [`stream`] turns answers into events and
//!   totals.
//! - [`test_runner`] plans a test and makes its prompts; [`live_display`]
//!   follows its requests and draws them; [`formatter`] reports on them.
//! - [`chat`] holds a conversation; [`config`] and [`cli`] say what the user
//!   asked for; [`env_monitor`] describes the machine.
//! - [`text`], [`number`], [`bytes`], [`double`], [`timing`] and [`utils`] are
//!   what the others are made of.

pub mod bytes;
pub mod chat;
pub mod cli;
pub mod client;
pub mod config;
pub mod double;
pub mod env_monitor;
pub mod formatter;
pub mod live_display;
pub mod number;
pub mod stream;
pub mod test_runner;
pub mod text;
pub mod timing;
pub mod utils;
