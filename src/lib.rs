//! Job subsystem of a small network-reconnaissance control plane: the job
//! model and its state machine, the in-memory store, priority admission,
//! crash recovery, and the computing parts of host discovery and port
//! scanning.
pub mod lifecycle;
pub mod models;
pub mod repository;
pub mod scanner;
pub mod scheduler;
pub mod text;

pub use lifecycle::JobKind;
pub use models::{
    default_job_type, CreateJobRequest, DisplayStatus, Host, HostStatus, Job, JobPriority, Log,
    Port, ScanConfig, Service, Vulnerability,
};
pub use repository::{InMemoryRepository, RepositoryError};
pub use scanner::{port_scan_targets, BannerProbe, HostRange, NetworkScanner, PortScanner};
pub use scheduler::JobExecutor;
