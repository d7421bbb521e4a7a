//! Grad: aggregate, store and query metrics received in the statsd line format.
//!
//! `statsd` reads messages from bytes, `metrics` stores them per series and
//! answers queries, `clock` holds the moments in time that both work with.
pub mod clock;
pub mod statsd;
pub mod metrics;
