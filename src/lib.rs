//! Attribution of scheduled-job failures to the engineers who own the jobs.
//!
//! Flow files are cut into per-job line ranges, the most recent committer of
//! each range is picked out of blame output, the resulting ownership index is
//! joined with execution records, and the records are grouped by recipient.
pub mod text;
pub mod flow;
pub mod blame;
pub mod paths;
pub mod index;
pub mod mapping;
pub mod alert;
pub mod config;
pub mod walk;
