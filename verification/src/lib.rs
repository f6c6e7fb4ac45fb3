//! Verified core of a radar/compass telemetry ingestion pipeline.
//!
//! A ranging sensor writes fixed-size text frames to a character device.
//! This crate holds the verified logic of the pipeline that turns those
//! frames into calibrated polar readings:
//!
//! - [`text`]: trimming, comma splitting and UTF-8 validation of raw frames;
//! - [`numeric`]: exact decimal parsing and formatting of the fixed-point
//!   values the device speaks;
//! - [`codec`]: decoding a raw frame into a schema-typed reading;
//! - [`calibration`]: magnetometer calibration bounds, their live collection
//!   and their persisted record format;
//! - [`heading`]: normalization of raw magnetometer readings;
//! - [`pipeline`]: the per-frame ingestion step and the consumer-side
//!   bounded history buffer.
//!
//! Device I/O, the background ingestion thread and the trigonometry that
//! turns a normalized magnetometer pair into an angle live outside the
//! verified library.

pub mod calibration;
pub mod codec;
pub mod heading;
pub mod numeric;
pub mod pipeline;
pub mod text;
