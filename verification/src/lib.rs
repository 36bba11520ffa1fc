//! A verified TCP port-scanning core.
//!
//! The library covers the pure heart of a scanner: port-specification
//! parsing, target resolution (literal addresses and address blocks),
//! the per-port retry state machine, batching, and result/statistics
//! aggregation with tabular and markup renderings.  Connection
//! attempts and name lookups are performed by an unverified shell that
//! feeds their outcomes back into the verified decision functions.

pub mod config;
pub mod error;
pub mod ip;
pub mod network;
pub mod results;
pub mod scanner;
pub mod text;

pub use config::PresetConfig;
pub use config::ScanConfig;
pub use error::ScanError;
pub use ip::IpAddress;
pub use network::Resolution;
pub use results::PortStatus;
pub use results::ScanDocument;
pub use results::ScanResult;
pub use results::ScanStatistics;
pub use scanner::AttemptOutcome;
pub use scanner::ScanAction;
pub use scanner::Scanner;
