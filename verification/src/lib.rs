//! Earliest-arrival journeys through a scheduled transit network.
//!
//! The crate scans a departure-ordered sequence of timetabled connections once,
//! keeps the best known arrival time of every stop, and rebuilds the rides and
//! walks that lead to the destination.
//!
//! - [`models`] holds the clock, the connections and the records of a feed.
//! - [`names`] gives each identifier of the feed a number of its own.
//! - [`feed`] picks out of a feed what the search needs.
//! - [`connection_scan`] is the scan, [`journey`] rebuilds a journey from it.
//! - [`guarantees`], [`soundness`], [`termination`], [`optimality`] and
//!   [`fastest`] prove what the answers are worth.
//! - [`text`] reads numbers and words, [`outside`] names what is taken on
//!   trust from other crates.

pub mod connection_scan;
pub mod fastest;
pub mod feed;
pub mod guarantees;
pub mod journey;
pub mod models;
pub mod names;
pub mod optimality;
pub mod outside;
pub mod soundness;
pub mod termination;
pub mod text;
