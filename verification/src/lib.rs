//! Ordered listing of a bucket whose keys are hash-partitioned across shards.
//!
//! A bucket is a set of keys spread over independent sorted shards. A listing
//! produces one globally ordered page of keys, or of delimiter-collapsed common
//! prefixes, by querying every shard for a bounded number of entries and merging
//! what comes back.
//!
//! - [`key`]: keys, their order, prefixes through a delimiter, cursors.
//! - [`shard`], [`bucket`], [`digest`], [`dataset`]: the index and how keys get
//!   onto its shards.
//! - [`shard_query`]: the query that one shard answers.
//! - [`listing`], [`estimate`]: the rounds of shard queries and the merge.
//! - [`shard_order`], [`page_order`], [`plain`], [`groups`]: what holds of every
//!   answer and every page.

pub mod bucket;
pub mod dataset;
pub mod digest;
pub mod estimate;
pub mod groups;
pub mod key;
pub mod listing;
pub mod page_order;
pub mod plain;
pub mod shard;
pub mod shard_order;
pub mod shard_query;
