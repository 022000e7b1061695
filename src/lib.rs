//! Decoding, de-duplication and aggregation of wireless sensor telemetry.
pub mod decode;
pub mod dedup;
pub mod object;
pub mod pipeline;
pub mod render;
pub mod store;
pub mod update;
