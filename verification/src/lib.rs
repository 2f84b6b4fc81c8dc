//! Bounded scheduling of futures.
//!
//! A bounded runner keeps at most `max_concurrent` futures in its running
//! set; every further future waits in a queue (or stays in the source
//! iterator) until a running one completes. This crate holds the verified
//! bookkeeping of that scheme: the capacity, the waiting futures, and the
//! decisions of which futures to start and when.
pub mod common;
pub mod ordered;
pub mod running;
pub mod unordered;
