//! A verified core for a Debian-family package manager: version and
//! constraint algebra, checksum validation, the package pool, index and
//! release parsing, blueprint handling, SAT-based dependency resolution,
//! and the action diff engine against observed machine state.

pub mod actions;
pub mod bench;
pub mod blueprint;
pub mod checksum;
pub mod config;
pub mod ctrl;
pub mod db;
pub mod download;
pub mod executor;
pub mod index;
pub mod machine;
pub mod paragraph;
pub mod pool;
pub mod release;
pub mod solver;
pub mod text;
pub mod version;
