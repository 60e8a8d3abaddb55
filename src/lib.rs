//! Connection-tracking ingestion, change detection and multi-node aggregation.

pub mod aggregate;
pub mod connection;
pub mod locator;
pub mod manifest;
pub mod parser;
pub mod snapshot;
pub mod text;
