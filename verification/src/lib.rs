//! An in-memory core for irregularly sampled series: a gap-tolerant chunked
//! value store that never materializes placeholders for absent samples, and a
//! delta-encoded time axis with checkpoint-based approximate age pruning.

pub mod chunked;
pub mod non_chunked;
pub mod offset_time;
pub mod present;
