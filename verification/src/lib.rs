//! Reconstructs a day's computer-usage timeline from raw event streams,
//! classifies periods as active work, breaks or transit, and builds the
//! day and month reports.

pub mod text;
pub mod types;
pub mod search;
pub mod sort;
pub mod timeline;
pub mod periods;
pub mod aggregate;
pub mod focus;
pub mod intervals;
pub mod report;
pub mod laws;
pub mod numfmt;
pub mod calendar;
pub mod render;
pub mod args;
pub mod location;
pub mod grouping;
pub mod rto;
pub mod biome;
pub mod imports;
pub mod config;
pub mod wifi;
pub mod cache;
pub mod segb;
pub mod proto;
pub mod orchestrate;
pub mod unified;
