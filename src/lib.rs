//! Ingestion and reconciliation engine of a collaborative pixel canvas indexer.
//!
//! Pixel placements are read from homeserver event streams (`sse`), their IDs
//! decoded and their payloads validated (`pixel`), and committed to a state
//! store that keeps the canvas as a materialized view of the commit log (`db`).
//! `watcher` runs the per-event pipeline, the credit rule and the resize rule;
//! `api` holds admission and credit queries.

pub mod api;
pub mod config;
pub mod db;
pub mod error;
pub mod pixel;
pub mod sse;
pub mod text;
pub mod watcher;
