//! guixvis: package index, snapshot format, dependency closures, graph
//! projections and the small decision procedures of the Guix package explorer.

pub mod model;
pub mod text;
pub mod order;
pub mod blob;
pub mod index;
pub mod construct;
pub mod roundtrip;
pub mod framing;
pub mod relations;
pub mod reach;
pub mod lookup;
pub mod cache;
pub mod indexer;
pub mod guix_env;
pub mod process;
pub mod search;
pub mod web;
pub mod graph;
pub mod app;
pub mod ui;
