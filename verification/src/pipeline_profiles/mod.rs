//! Profiles of compression pipelines and the configuration that makes them.
pub mod choices;
pub mod sweeps;
pub mod combinations;
pub mod profiles;
pub mod groups;
pub mod config;
