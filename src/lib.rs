//! Health checks over a Prometheus exposition body: a line parser for samples,
//! liveness and freshness predicates, and a matcher that reconciles requested
//! checks with the samples a body holds.
//!
//! Numbers that are binary64 floats in the exposition format are carried as
//! their IEEE-754 bit patterns (`u64`), and compared as IEEE-754 compares them.

pub mod checks;
pub mod float_bits;
pub mod health;
pub mod order;
pub mod sample;
pub mod sample_parser;
pub mod text;

pub use checks::{Check, CheckContext, CheckModel, CheckType};
pub use float_bits::{ge_bits, F64_ONE_BITS};
pub use health::{match_metrics, string_error, HealthCheckError};
pub use sample::PrometheusSample;
pub use sample_parser::{parse_prometheus_sample, parse_sample_chars};
