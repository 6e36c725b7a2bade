//! Feed synchronisation, the queue of entries to judge, and a relevance filter.
//!
//! The crate tracks a set of syndicated feeds, merges freshly fetched
//! snapshots into a queue of entries awaiting a reader's judgement, records
//! those judgements, and trains a token-frequency Bayesian model on them.
//! Every function is verified against a contract stated over the views of
//! the data types; calls into other crates stand behind small wrappers whose
//! contracts are assumed.

pub mod channel;
pub mod classifier;
pub mod dedup;
pub mod entry;
pub mod manager;
pub mod parser;
pub mod persistence;
pub mod rss_manager;
pub mod text;
pub mod tokens;
