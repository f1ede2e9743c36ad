//! Runs of compression pipelines over files, and what is reported of them.
pub mod inputs;
pub mod report;
pub mod report_laws;
pub mod size_laws;
pub mod sizes;
pub mod stages;
