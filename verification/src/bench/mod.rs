//! The scan, layout and thumbnail benchmark: its command line, the plan of a
//! run, telemetry of graphics devices, and the report.
pub mod args;
pub mod report;
pub mod contents;
pub mod gpu;
pub mod plan;
pub mod metrics;
pub mod stats;
