//! Periodic-screenshot day-capture engine: date-bucketed frame directories,
//! gap classification and repair, metadata sidecars, frame-set reconciliation,
//! and mixed-resolution video-assembly planning.
//!
//! The library holds the decisions and the data model; reading the clock,
//! touching the filesystem, rendering images and running the encoder are left
//! to the surrounding binary, which hands plain values in and carries the
//! computed plans out.

pub mod back_filler;
pub mod capturer;
pub mod config;
pub mod date;
pub mod dir_manager;
pub mod frames;
pub mod movie_maker;
pub mod strnum;

pub use config::Config;
