//! A concurrent TCP connectivity probe, verified.
//!
//! The port space `1..=65535` is partitioned into disjoint residue classes,
//! one per worker; each worker probes its class in increasing order and
//! reports the ports that accepted a connection; the aggregator collects
//! every report and emits them as a single ascending, duplicate-free
//! result set.  The partitioning, the per-worker port schedule and the
//! aggregation are verified here; the TCP connect attempts themselves and
//! the thread plumbing live outside the library and hand it plain values.

pub mod aggregate;
pub mod args;
pub mod partition;
pub mod scan;
