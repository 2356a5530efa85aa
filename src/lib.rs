//! Personal backup definitions and the incremental synchronization engine
//! that executes them.
//!
//! The library holds the configuration and registry documents, the edits
//! that apply to them, their text format, and the decisions of a backup
//! run: which files to copy, what the run reports, and when a job's
//! `last_run` moves. Walking trees, copying files and reading or writing
//! documents is left to the caller, which hands the library plain values.

pub mod args;
pub mod document;
pub mod engine;
pub mod error;
pub mod model;
pub mod ops;
pub mod paths;
pub mod registry;
pub mod text;

pub use args::{Args, BackupsCommand, Command, ConfigCommand, EditBackupCommand, RegistryCommand};
pub use document::{config_from_text, config_to_text, registry_from_text, registry_to_text};
pub use engine::{
    build_report, check_sources, files_to_copy, finish_job, plan_job, Classification, FileEntry, FileOutcome, Plan,
    PlannedFile, ReportLine, RunReport,
};
pub use error::BackupError;
pub use model::{Configuration, Device, SyncJob};
pub use ops::{
    add_device, add_source, add_sync_job, edit_sync_jobs, find_device, overlapping_jobs,
    rename_device, rename_sync_job, set_destination, JobEdit,
};
pub use paths::is_valid_destination;
pub use registry::{register_backup, Registry, RegistryEntry};
pub use text::{read_records, write_records, Record};
